//! The snapshot record types.
//!
//! Every record is an immutable, point-in-time value: no identity, no
//! mutation after construction.  Quantities that a display layer shows with
//! two decimals (percentages, normalized CPU usage, temperatures, gigabyte
//! figures) are carried as fixed-point integers in hundredths of the unit,
//! so that every derived value has an exact, machine-checkable definition.

use vstd::prelude::*;

verus! {

/// Static identity of the host: names and version strings, plus uptime and
/// boot time in seconds.  Fields the platform does not expose default to the
/// empty string or 0.
#[derive(Clone, Debug)]
pub struct SystemInfo {
    pub name: String,
    pub os_version: String,
    pub kernel_version: String,
    pub hostname: String,
    pub uptime: u64,
    pub boot_time: u64,
}

/// One sample of the aggregate CPU: identification strings, instantaneous
/// usage in hundredths of a percent, frequency in MHz, and core counts.
#[derive(Clone, Debug)]
pub struct CpuInfo {
    pub name: String,
    pub brand: String,
    /// Aggregate usage, hundredths of a percent (0..=10000 on a sane host).
    pub usage: u64,
    /// Frequency in MHz; falls back to the first core's value when the
    /// aggregate reads 0.
    pub frequency: u64,
    pub cores: usize,
    pub physical_cores: usize,
}

/// One sample of memory and swap occupancy, in bytes, with the usage
/// percentage derived from `used` and `total`.
#[derive(Clone, Debug)]
pub struct MemoryInfo {
    pub total: u64,
    pub used: u64,
    pub available: u64,
    /// `used / total * 100`, in hundredths of a percent; 0 when `total` is 0.
    pub usage_percent: u64,
    pub swap_total: u64,
    pub swap_used: u64,
}

/// One mounted volume: identification strings and space figures in bytes,
/// with `used_space` and `usage_percent` derived from the other two.
#[derive(Clone, Debug)]
pub struct DiskInfo {
    pub name: String,
    pub mount_point: String,
    pub total_space: u64,
    pub available_space: u64,
    pub used_space: u64,
    /// `used / total * 100`, in hundredths of a percent; 0 when `total` is 0.
    pub usage_percent: u64,
    pub file_system: String,
}

/// One network interface with its cumulative byte counters.
#[derive(Clone, Debug)]
pub struct NetworkInfo {
    pub name: String,
    pub received: u64,
    pub transmitted: u64,
}

/// One process in a top-N listing.  `cpu_usage` is normalized to a single
/// core (raw usage divided by the logical core count); `gpu_usage` is the
/// synthetic name-based estimate, not a measurement.
#[derive(Clone, Debug)]
pub struct ProcessInfo {
    pub name: String,
    pub pid: u32,
    /// Normalized CPU usage, hundredths of a percent of one core.
    pub cpu_usage: u64,
    /// Resident memory in bytes.
    pub memory: u64,
    /// Estimated GPU usage, hundredths of a percent (synthetic).
    pub gpu_usage: u64,
}

/// One temperature reading, in hundredths of a degree Celsius.  The values
/// this library reports are synthetic placeholders derived from CPU usage,
/// not sensor measurements; the record shape matches what a real sensor
/// provider would return.
#[derive(Clone, Debug)]
pub struct TemperatureInfo {
    pub component: String,
    pub temperature: u64,
    pub max_temperature: Option<u64>,
    pub critical_temperature: Option<u64>,
}

/// Coarse platform statistics.  The load average is a three-element
/// placeholder (hundredths) and the user-session count is fixed at 1 on
/// platforms that expose neither.
#[derive(Clone, Debug)]
pub struct AdvancedSystemInfo {
    pub load_average: Vec<u64>,
    pub process_count: usize,
    pub total_processes: usize,
    pub users_count: usize,
}

/// The small set of named scalar metrics a dashboard polls at high
/// frequency: CPU usage and memory occupancy (hundredths of a percent),
/// and memory figures in hundredths of a gigabyte.
#[derive(Clone, Debug)]
pub struct RealtimeStats {
    pub cpu_usage: u64,
    pub memory_usage: u64,
    pub memory_used_gb: u64,
    pub memory_total_gb: u64,
}

/// The combined bundle: realtime scalars, derived temperatures, per-interface
/// network activity, the top-5 process list, and the capture instant in
/// milliseconds since the Unix epoch.
#[derive(Clone, Debug)]
pub struct ExtendedRealtimeStats {
    pub cpu_usage: u64,
    pub memory_usage: u64,
    pub memory_used_gb: u64,
    pub memory_total_gb: u64,
    pub temperatures: Vec<TemperatureInfo>,
    pub network_activity: Vec<NetworkInfo>,
    pub top_processes: Vec<ProcessInfo>,
    pub timestamp: u64,
}

/// Raw figures for one mounted volume, as the host reports them, before any
/// derived quantity is computed.
#[derive(Clone, Debug)]
pub struct RawDisk {
    pub name: String,
    pub mount_point: String,
    pub file_system: String,
    pub total_space: u64,
    pub available_space: u64,
}

/// Raw figures for one process, as the host reports them.  `cpu_usage` is the
/// un-normalized percentage in hundredths: on a multi-core host it can exceed
/// 10000 (one full core).
#[derive(Clone, Debug)]
pub struct RawProcess {
    pub name: String,
    pub pid: u32,
    pub cpu_usage: u64,
    pub memory: u64,
}

} // verus!
