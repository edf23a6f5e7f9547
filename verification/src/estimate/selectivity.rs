//! Predicate selectivity: which evidence decides it and how the parts of a
//! predicate combine. The resulting formulas are evaluated in floating point
//! by the caller.

pub mod conjunction;
pub mod coordinates;
pub mod filter;
pub mod finite;
pub mod flatten;
pub mod formula;
pub mod integral;
pub mod like;
pub mod linear;
pub mod meaning;
pub mod model;
pub mod node_list;
pub mod predicate;
pub mod range;
pub mod resolve;
pub mod spine;
pub mod steps;
pub mod work;
