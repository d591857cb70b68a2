//! Bounded-memory online simplification of timestamped trajectories.
//!
//! A trajectory is an ordered run of geographic samples. The engines here
//! discard samples that carry little geometric or temporal information
//! while keeping the first and last sample, keeping the buffer within a
//! size budget, and (for the priority engine) propagating the error
//! absorbed by each eviction onto the surviving neighbours so that error
//! bounds stay valid across successive removals.
//!
//! Everything is computed in exact fixed-point arithmetic: coordinates
//! and timestamps are bounded integers (for example micro-degrees and
//! ticks), and distances are integers rounded down by an exact integer
//! square root. Error thresholds and compression ratios are given in the
//! same units (a ratio as a fraction), so every decision an engine makes
//! is deterministic and fully specified by its contract.

pub mod point;
pub mod subseq;
pub mod metrics;
pub mod sliding;
pub mod priority;
pub mod single_pass;
