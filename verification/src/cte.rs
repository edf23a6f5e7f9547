//! Rewrites of shared definitions.

pub mod demand_producer;
pub mod demand_pushdown;
pub mod filter_pusher;
pub mod inlining;
pub mod iteration;
pub mod partition_recognition;
pub mod partition_soundness;
pub mod partitioned_materialization;
pub mod predicate_domain;
