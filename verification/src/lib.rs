//! Dependency- and failure-tracking core of a distributed controller.
//!
//! The controller dispatches units of work ("invocations") to a fleet of
//! parallel workers (ranks) and reconciles, out of order, which invocations
//! completed, which failed, and which downstream invocations must therefore be
//! considered failed even though they never executed. The modules here hold
//! the invocation ledger, the reference-to-invocation index, the per-rank
//! low-water-mark aggregation, and the failure-propagation and
//! garbage-collection algorithms built on top of them.

pub mod build_config;
pub mod history;
pub mod invocation;
pub mod laws;
pub mod min_tracker;
pub mod nccl;
pub mod purge;
pub mod reach;
