//! Per-process CPU utilization derived from periodic samples of cumulative
//! CPU tick counters.
//!
//! A sampler records, for every visible process, its name, pid and cumulative
//! tick count as one text line per process. The series builder turns a
//! time-ordered run of such snapshots into a ranked list of per-process
//! utilization series.
//!
//! Processes are identified by name, not by pid: samples of distinct pids
//! that share a name are merged into one series.

pub mod clock;
pub mod decimal;
pub mod error;
pub mod record;
pub mod snapshot;
pub mod timeline;
pub mod series;
pub mod ranking;
pub mod sampler;
pub mod values;
pub mod visualizer;
