//! A polling TCP-connection monitor core: it reconciles successive socket
//! snapshots into connection lifecycles and maintains per-process, per-host
//! and per-process-host counters with running maxima and bounded histories.

pub mod conn;
pub mod filters;
pub mod graph;
pub mod laws;
pub mod metrics;
pub mod monitor;
pub mod process;
pub mod snapshot;
pub mod text;
pub mod ui;
pub mod views;
