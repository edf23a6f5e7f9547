//! Cardinality, column statistics and proven relational bounds.

pub mod cardinality;
pub mod join;
pub mod join_domains;
pub mod correlation;
pub mod groups;
pub mod finite_filter;
pub mod gathering;
pub mod graph;
pub mod output;
pub mod proof_soundness;
pub mod publication;
pub mod refresh;
pub mod relation;
pub mod relation_proofs;
pub mod selectivity;
pub mod walk;
