//! A dependency-aware task scheduler core: a graph of "must finish before"
//! edges between named tasks, the registry of tasks not yet started, a
//! per-task tracing ledger, and the decisions that release tasks as their
//! prerequisites become ready.

pub mod names;
pub mod graph;
pub mod ledger;
pub mod executor;
pub mod manager;

pub use executor::{Executor, exector_wapper};
pub use graph::Graph;
pub use ledger::{Status, TracingInfo, TracingInfoManager};
pub use manager::{Manager, ScheduleError};
