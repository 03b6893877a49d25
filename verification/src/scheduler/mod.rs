//! The priority scheduler.

pub mod metrics;
pub mod outcome;
