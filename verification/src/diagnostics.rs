//! What the optimizer reports about its own work. None of it decides a plan.

pub mod profile;
pub mod rejection;
