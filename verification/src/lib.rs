//! Cost-based query optimizer core: logical plans, cardinality estimation,
//! shared-expression (CTE) rewrites, cost decisions and diagnostics.

pub mod types;
pub mod value;
pub mod expression;
pub mod binding_map;
pub mod cost;
pub mod cost_model;
pub mod cte;
pub mod diagnostics;
pub mod domain;
pub mod numeric;
pub mod operator;
pub mod plan;
pub mod frame;
pub mod index_list;
pub mod layout;
pub mod statistics;
pub mod estimate;
