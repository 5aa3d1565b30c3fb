//! Monte Carlo estimation of project completion time over a task-dependency
//! graph: stochastic duration sampling, forward-pass critical-path scheduling,
//! a risk overlay, and percentile statistics over the simulated outcomes.
//!
//! Durations are fixed-point integers: one time unit is `MILLIS_PER_UNIT`
//! millis, so that scheduling and statistics are exact integer arithmetic.

pub mod models;
pub mod order;
pub mod reporter;
pub mod sampling;
pub mod scheduler;
pub mod simulation;
pub mod stats;
