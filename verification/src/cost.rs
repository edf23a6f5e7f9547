//! Cost decisions, independent of search strategy. Amounts are doubles held by
//! their bits; the caller computes with them.

pub mod calibration;
pub mod enforcer;
pub mod join_conditions;
pub mod join_work;
pub mod materialization;
pub mod number;
pub mod ranking;
pub mod region;
pub mod relation_set;
pub mod response;
pub mod row_fetch;
