//! Verified core of a host-telemetry snapshot library.
//!
//! Each public operation reads raw counters from the host (through a thin
//! trusted layer over the `sysinfo` crate) and turns them into an immutable,
//! display-ready snapshot record.  All derived quantities — usage percentages,
//! unit conversions, the GPU-usage heuristic, process ranking — are computed
//! in verified code over fixed-point integers (hundredths of a unit), and each
//! record can be serialized to and parsed back from a byte-level wire format
//! without loss.

pub mod codec;
pub mod gpu;
pub mod host;
pub mod metrics;
pub mod procs;
pub mod records;
pub mod snapshots;
