//! Suspension controller for a tiling-window-manager power daemon.
//!
//! The library tracks every managed window of the compositor, decides when
//! each window's process subtree should be stopped, resumed or briefly
//! thawed, and computes the signal batches to issue.  All decisions are made
//! over plain data handed in by the caller: compositor events, one-second
//! ticks carrying a snapshot of the process table, and power-state changes.

pub mod config;
pub mod matcher;
pub mod process;
pub mod queue;
pub mod registry;
pub mod scheduler;
