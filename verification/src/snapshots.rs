//! The snapshot-construction operations.
//!
//! Each operation is request-in, snapshot-out and independent of prior
//! calls.  Operations that can read the host directly without a settle delay
//! do so here, through the trusted layer in `host`; the CPU-sampling
//! operations, which need two refreshes separated by a delay and a
//! float-to-fixed-point conversion, take their raw readings as arguments and
//! are pure builders.  Missing platform data is defaulted (empty string or
//! zero), never an error.

use vstd::prelude::*;
use vstd::string::StringExecFns;
use crate::host;
use crate::metrics::{
    cpu_package_temp_h, frequency_with_fallback, gb_h, lemma_percent_h_range, percent_h,
    percent_of, select_frequency, system_temp_h, to_gb_hundredths, derive_cpu_package_temp,
    derive_system_temp,
};
use crate::procs::{snapshots_of, sorted_by_cpu_desc, top_processes};
use crate::records::{
    AdvancedSystemInfo, CpuInfo, DiskInfo, ExtendedRealtimeStats, MemoryInfo, NetworkInfo,
    ProcessInfo, RawDisk, RawProcess, RealtimeStats, SystemInfo, TemperatureInfo,
};

verus! {

/// Entries in the top-process list of the extended bundle.
pub const EXTENDED_TOP_PROCESS_COUNT: usize = 5;

/// A memory snapshot is well formed when its usage percentage is derived
/// from its own `used` and `total` fields.
pub open spec fn memory_info_wf(m: MemoryInfo) -> bool {
    m.usage_percent == percent_h(m.used, m.total)
}

/// A memory snapshot's usage percentage always lies in [0, 100] (in
/// hundredths: 0..=10000), and is 0 when the host reports no memory at all.
pub proof fn lemma_memory_usage_percent_in_range(m: MemoryInfo)
    requires
        memory_info_wf(m),
    ensures
        m.usage_percent <= 10000,
        m.total == 0 ==> m.usage_percent == 0,
{
    lemma_percent_h_range(m.used, m.total);
}

/// A disk snapshot is well formed when its used space and usage percentage
/// are derived from its own total and available space.
pub open spec fn disk_info_wf(d: DiskInfo) -> bool {
    &&& d.used_space + d.available_space == d.total_space
    &&& d.usage_percent == percent_h(d.used_space, d.total_space)
}

/// For every well-formed disk snapshot: used space is total minus available;
/// the usage percentage is 0 when the volume reports no capacity, equals
/// `used / total * 100` (in hundredths, truncated) otherwise, and never
/// exceeds 100%.
pub proof fn lemma_disk_usage_invariant(d: DiskInfo)
    requires
        disk_info_wf(d),
    ensures
        d.used_space == d.total_space - d.available_space,
        d.total_space == 0 ==> d.usage_percent == 0,
        d.total_space > 0 ==> d.usage_percent == d.used_space * 10000 / (d.total_space as int),
        d.usage_percent <= 10000,
{
    lemma_percent_h_range(d.used_space, d.total_space);
}

/// The string a snapshot reports for an optional platform field: the value
/// when the platform exposes it, the empty string otherwise.
pub open spec fn defaulted(s: Option<String>) -> Seq<char> {
    match s {
        Some(t) => t@,
        None => Seq::<char>::empty(),
    }
}

/// Build the host-identity record from the optional platform strings and
/// the two counters.  A field the platform omits becomes the empty string,
/// never an error; the counters are copied through.
pub fn build_system_info(
    name: Option<String>,
    os_version: Option<String>,
    kernel_version: Option<String>,
    hostname: Option<String>,
    uptime: u64,
    boot_time: u64,
) -> (r: SystemInfo)
    ensures
        r.name@ == defaulted(name),
        r.os_version@ == defaulted(os_version),
        r.kernel_version@ == defaulted(kernel_version),
        r.hostname@ == defaulted(hostname),
        r.uptime == uptime,
        r.boot_time == boot_time,
{
    let name = match name {
        Some(s) => s,
        None => String::new(),
    };
    let os_version = match os_version {
        Some(s) => s,
        None => String::new(),
    };
    let kernel_version = match kernel_version {
        Some(s) => s,
        None => String::new(),
    };
    let hostname = match hostname {
        Some(s) => s,
        None => String::new(),
    };
    SystemInfo { name, os_version, kernel_version, hostname, uptime, boot_time }
}

/// The host's static identity.  Always succeeds: the four optional platform
/// strings and the two counters are read through the trusted layer and
/// handed to `build_system_info`, whose contract fixes each field (the
/// reported value, or the empty string where the platform omits it).
pub fn get_system_info() -> (r: Result<SystemInfo, String>)
    ensures
        r is Ok,
{
    Ok(
        build_system_info(
            sysinfo::System::name(),
            sysinfo::System::os_version(),
            sysinfo::System::kernel_version(),
            sysinfo::System::host_name(),
            sysinfo::System::uptime(),
            sysinfo::System::boot_time(),
        ),
    )
}

/// Build a memory snapshot from raw byte counts, deriving the usage
/// percentage.
pub fn build_memory_info(
    total: u64,
    used: u64,
    available: u64,
    swap_total: u64,
    swap_used: u64,
) -> (r: MemoryInfo)
    ensures
        r.total == total,
        r.used == used,
        r.available == available,
        r.swap_total == swap_total,
        r.swap_used == swap_used,
        r.usage_percent == percent_h(used, total),
        memory_info_wf(r),
{
    let usage_percent: u64 = percent_of(used, total);
    MemoryInfo { total, used, available, usage_percent, swap_total, swap_used }
}

/// One sample of memory and swap occupancy, read from the host.  Always
/// succeeds, and the returned snapshot is well formed.
pub fn get_memory_info() -> (r: Result<MemoryInfo, String>)
    ensures
        r is Ok,
        r matches Ok(m) ==> memory_info_wf(m),
{
    let mut sys = sysinfo::System::new_all();
    sys.refresh_memory();
    let total: u64 = sys.total_memory();
    let used: u64 = sys.used_memory();
    let available: u64 = sys.available_memory();
    let swap_total: u64 = sys.total_swap();
    let swap_used: u64 = sys.used_swap();
    Ok(build_memory_info(total, used, available, swap_total, swap_used))
}

/// The snapshot a raw volume reading turns into.  The available figure is
/// clamped to the total first (a guard against an inconsistent reading), so
/// used space is always total minus available.
pub open spec fn disk_snapshot_of(raw: RawDisk) -> DiskInfo {
    let avail = if raw.available_space <= raw.total_space {
        raw.available_space
    } else {
        raw.total_space
    };
    DiskInfo {
        name: raw.name,
        mount_point: raw.mount_point,
        total_space: raw.total_space,
        available_space: avail,
        used_space: (raw.total_space - avail) as u64,
        usage_percent: percent_h((raw.total_space - avail) as u64, raw.total_space),
        file_system: raw.file_system,
    }
}

/// Turn one raw volume reading into its snapshot.
pub fn build_disk_snapshot(raw: RawDisk) -> (r: DiskInfo)
    ensures
        r == disk_snapshot_of(raw),
        disk_info_wf(r),
{
    let avail: u64 = if raw.available_space <= raw.total_space {
        raw.available_space
    } else {
        raw.total_space
    };
    let used: u64 = raw.total_space - avail;
    let usage_percent: u64 = percent_of(used, raw.total_space);
    DiskInfo {
        name: raw.name,
        mount_point: raw.mount_point,
        total_space: raw.total_space,
        available_space: avail,
        used_space: used,
        usage_percent,
        file_system: raw.file_system,
    }
}

/// Turn a whole raw volume listing into snapshots, keeping the enumeration
/// order.
pub fn build_disk_snapshots(raws: Vec<RawDisk>) -> (r: Vec<DiskInfo>)
    ensures
        r@.len() == raws@.len(),
        forall|i: int| 0 <= i < raws@.len() ==> r@[i] == disk_snapshot_of(raws@[i]),
        forall|i: int| 0 <= i < r@.len() ==> disk_info_wf(#[trigger] r@[i]),
{
    let ghost raws0 = raws@;
    let mut remaining = raws;
    let mut out: Vec<DiskInfo> = Vec::new();
    while remaining.len() > 0
        invariant
            out@.len() + remaining@.len() == raws0.len(),
            remaining@ == raws0.skip(out@.len() as int),
            forall|i: int| 0 <= i < out@.len() ==> out@[i] == disk_snapshot_of(raws0[i]),
            forall|i: int| 0 <= i < out@.len() ==> disk_info_wf(#[trigger] out@[i]),
        decreases remaining.len(),
    {
        let raw = remaining.remove(0);
        proof {
            assert(raw == raws0[out@.len() as int]);
        }
        let snap = build_disk_snapshot(raw);
        out.push(snap);
        proof {
            assert(remaining@ =~= raws0.skip(out@.len() as int));
        }
    }
    out
}

/// One snapshot per mounted volume, in the mount table's enumeration order.
/// Always succeeds, and every returned snapshot is well formed.
pub fn get_disk_info() -> (r: Result<Vec<DiskInfo>, String>)
    ensures
        r is Ok,
        r matches Ok(disks) ==> forall|i: int|
            0 <= i < disks@.len() ==> disk_info_wf(#[trigger] disks@[i]),
{
    let raws = host::read_disks();
    Ok(build_disk_snapshots(raws))
}

/// One record per network interface, with its cumulative byte counters, in
/// the interface table's enumeration order.  Always succeeds.
pub fn get_network_info() -> (r: Result<Vec<NetworkInfo>, String>)
    ensures
        r is Ok,
{
    Ok(host::read_networks())
}

/// Build a CPU snapshot from one settled sample.  The frequency falls back
/// to the first logical core's value when the aggregate core reports 0 MHz.
pub fn build_cpu_snapshot(
    name: String,
    brand: String,
    usage_h: u64,
    aggregate_freq: u64,
    first_core_freq: Option<u64>,
    cores: usize,
    physical_cores: usize,
) -> (r: CpuInfo)
    ensures
        r.name == name,
        r.brand == brand,
        r.usage == usage_h,
        r.frequency == frequency_with_fallback(aggregate_freq, first_core_freq),
        r.cores == cores,
        r.physical_cores == physical_cores,
{
    let frequency: u64 = select_frequency(aggregate_freq, first_core_freq);
    CpuInfo { name, brand, usage: usage_h, frequency, cores, physical_cores }
}

/// Build the realtime scalar metrics from one settled sample: CPU usage is
/// passed through, memory occupancy and gigabyte figures are derived.
pub fn build_realtime_stats(cpu_usage_h: u64, mem_used: u64, mem_total: u64) -> (r: RealtimeStats)
    ensures
        r.cpu_usage == cpu_usage_h,
        r.memory_usage == percent_h(mem_used, mem_total),
        r.memory_used_gb == gb_h(mem_used),
        r.memory_total_gb == gb_h(mem_total),
{
    RealtimeStats {
        cpu_usage: cpu_usage_h,
        memory_usage: percent_of(mem_used, mem_total),
        memory_used_gb: to_gb_hundredths(mem_used),
        memory_total_gb: to_gb_hundredths(mem_total),
    }
}

/// The fixed two-entry placeholder temperature list ("CPU Package" at 45 °C,
/// "System" at 35 °C, with their max and critical bounds).  These are
/// synthetic baseline values, not sensor readings.  Always succeeds.
pub fn get_temperatures() -> (r: Result<Vec<TemperatureInfo>, String>)
    ensures
        r is Ok,
        r matches Ok(t) ==> {
            &&& t@.len() == 2
            &&& t@[0].component@ == "CPU Package"@
            &&& t@[0].temperature == 4500
            &&& t@[0].max_temperature == Some(10000u64)
            &&& t@[0].critical_temperature == Some(10500u64)
            &&& t@[1].component@ == "System"@
            &&& t@[1].temperature == 3500
            &&& t@[1].max_temperature == Some(8000u64)
            &&& t@[1].critical_temperature == Some(9000u64)
        },
{
    let mut out: Vec<TemperatureInfo> = Vec::new();
    out.push(
        TemperatureInfo {
            component: String::from_str("CPU Package"),
            temperature: 4500,
            max_temperature: Some(10000),
            critical_temperature: Some(10500),
        },
    );
    out.push(
        TemperatureInfo {
            component: String::from_str("System"),
            temperature: 3500,
            max_temperature: Some(8000),
            critical_temperature: Some(9000),
        },
    );
    Ok(out)
}

/// Build the two synthetic temperature readings of the extended bundle:
/// each is its baseline plus a fixed share of the current CPU usage.
pub fn build_derived_temperatures(cpu_usage_h: u64) -> (r: Vec<TemperatureInfo>)
    ensures
        r@.len() == 2,
        r@[0].component@ == "CPU Package"@,
        r@[0].temperature == cpu_package_temp_h(cpu_usage_h),
        r@[0].max_temperature == Some(10000u64),
        r@[0].critical_temperature == Some(10500u64),
        r@[1].component@ == "System"@,
        r@[1].temperature == system_temp_h(cpu_usage_h),
        r@[1].max_temperature == Some(8000u64),
        r@[1].critical_temperature == Some(9000u64),
{
    let mut out: Vec<TemperatureInfo> = Vec::new();
    out.push(
        TemperatureInfo {
            component: String::from_str("CPU Package"),
            temperature: derive_cpu_package_temp(cpu_usage_h),
            max_temperature: Some(10000),
            critical_temperature: Some(10500),
        },
    );
    out.push(
        TemperatureInfo {
            component: String::from_str("System"),
            temperature: derive_system_temp(cpu_usage_h),
            max_temperature: Some(8000),
            critical_temperature: Some(9000),
        },
    );
    out
}

/// Coarse platform statistics: the process count (reported twice, as the
/// running and the total count), a three-element load-average placeholder of
/// zeros, and a user-session count fixed at 1.  Always succeeds.
pub fn get_advanced_system_info() -> (r: Result<AdvancedSystemInfo, String>)
    ensures
        r is Ok,
        r matches Ok(a) ==> {
            &&& a.load_average@ =~= seq![0u64, 0u64, 0u64]
            &&& a.process_count == a.total_processes
            &&& a.users_count == 1
        },
{
    let mut sys = sysinfo::System::new_all();
    sys.refresh_all();
    let count: usize = host::process_count(&sys);
    let mut load_average: Vec<u64> = Vec::new();
    load_average.push(0);
    load_average.push(0);
    load_average.push(0);
    proof {
        assert(load_average@ =~= seq![0u64, 0u64, 0u64]);
    }
    Ok(
        AdvancedSystemInfo {
            load_average,
            process_count: count,
            total_processes: count,
            users_count: 1,
        },
    )
}

/// Assemble the extended bundle from one settled sample: realtime scalars,
/// the two usage-derived synthetic temperatures, the per-interface activity
/// list as read, the top-5 process list, and the capture timestamp taken at
/// assembly.
pub fn build_extended_realtime_stats(
    cpu_usage_h: u64,
    mem_used: u64,
    mem_total: u64,
    networks: Vec<NetworkInfo>,
    raw_processes: Vec<RawProcess>,
    cores: usize,
) -> (r: ExtendedRealtimeStats)
    ensures
        r.cpu_usage == cpu_usage_h,
        r.memory_usage == percent_h(mem_used, mem_total),
        r.memory_used_gb == gb_h(mem_used),
        r.memory_total_gb == gb_h(mem_total),
        r.temperatures@.len() == 2,
        r.temperatures@[0].component@ == "CPU Package"@,
        r.temperatures@[0].temperature == cpu_package_temp_h(cpu_usage_h),
        r.temperatures@[0].max_temperature == Some(10000u64),
        r.temperatures@[0].critical_temperature == Some(10500u64),
        r.temperatures@[1].component@ == "System"@,
        r.temperatures@[1].temperature == system_temp_h(cpu_usage_h),
        r.temperatures@[1].max_temperature == Some(8000u64),
        r.temperatures@[1].critical_temperature == Some(9000u64),
        r.network_activity == networks,
        sorted_by_cpu_desc(r.top_processes@),
        r.top_processes@.len() == if EXTENDED_TOP_PROCESS_COUNT <= raw_processes@.len() {
            EXTENDED_TOP_PROCESS_COUNT as int
        } else {
            raw_processes@.len() as int
        },
        exists|s: Seq<ProcessInfo>|
            #![auto]
            sorted_by_cpu_desc(s) && s.to_multiset() == snapshots_of(
                raw_processes@,
                cores,
            ).to_multiset() && s.len() == raw_processes@.len() && r.top_processes@ == s.subrange(
                0,
                r.top_processes@.len() as int,
            ),
{
    let temperatures = build_derived_temperatures(cpu_usage_h);
    let top = top_processes(raw_processes, cores, EXTENDED_TOP_PROCESS_COUNT);
    let timestamp: u64 = host::capture_timestamp_millis();
    ExtendedRealtimeStats {
        cpu_usage: cpu_usage_h,
        memory_usage: percent_of(mem_used, mem_total),
        memory_used_gb: to_gb_hundredths(mem_used),
        memory_total_gb: to_gb_hundredths(mem_total),
        temperatures,
        network_activity: networks,
        top_processes: top,
        timestamp,
    }
}

} // verus!
