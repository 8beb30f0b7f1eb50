//! A generic temporal scheduling core: half-open interval algebra, canonical
//! interval sets, a constraint expression tree, per-task precomputed solution
//! spaces, schedule-state-dependent constraints, and the earliest-start /
//! deadline / flexibility metrics that rank scheduling candidates.
//!
//! Positions on the scheduling axis are plain `i64` values in a fixed base
//! unit; conversion to and from dimensioned quantities happens at the crate
//! boundary.

pub mod interval;
pub mod interval_set;
pub mod schedule;
pub mod solution_space;
pub mod dynamic;
pub mod constraints;
pub mod task;
pub mod metrics;
pub mod test_utils;
