//! The trusted boundary to the host-telemetry provider.
//!
//! Everything here reads live host state (or the wall clock), so nothing can
//! be promised of the values that come back: each item only fixes types and
//! shapes, and the verified code holds for whatever the host reports.

use vstd::prelude::*;
use crate::records::{NetworkInfo, RawDisk};

verus! {

/// `sysinfo::System` carried opaquely through verified code.
#[verifier::external_type_specification]
#[verifier::external_body]
pub struct ExSystem(sysinfo::System);

/// Relies on `sysinfo::System::new_all`: a fresh provider handle with every
/// table refreshed once.
pub assume_specification[ sysinfo::System::new_all ]() -> sysinfo::System;

/// Relies on `sysinfo::System::refresh_memory`: re-reads the memory table.
pub assume_specification[ sysinfo::System::refresh_memory ](s: &mut sysinfo::System);

/// Relies on `sysinfo::System::refresh_all`: re-reads every table.
pub assume_specification[ sysinfo::System::refresh_all ](s: &mut sysinfo::System);

/// Relies on `sysinfo::System::total_memory`: total RAM in bytes.
pub assume_specification[ sysinfo::System::total_memory ](s: &sysinfo::System) -> u64;

/// Relies on `sysinfo::System::used_memory`: used RAM in bytes.
pub assume_specification[ sysinfo::System::used_memory ](s: &sysinfo::System) -> u64;

/// Relies on `sysinfo::System::available_memory`: reclaimable RAM in bytes.
pub assume_specification[ sysinfo::System::available_memory ](s: &sysinfo::System) -> u64;

/// Relies on `sysinfo::System::total_swap`: total swap in bytes.
pub assume_specification[ sysinfo::System::total_swap ](s: &sysinfo::System) -> u64;

/// Relies on `sysinfo::System::used_swap`: used swap in bytes.
pub assume_specification[ sysinfo::System::used_swap ](s: &sysinfo::System) -> u64;

/// Relies on `sysinfo::System::name`: the OS name, when the platform
/// exposes it.
pub assume_specification[ sysinfo::System::name ]() -> Option<String>;

/// Relies on `sysinfo::System::os_version`: the OS version string, when the
/// platform exposes it.
pub assume_specification[ sysinfo::System::os_version ]() -> Option<String>;

/// Relies on `sysinfo::System::kernel_version`: the kernel version string,
/// when the platform exposes it.
pub assume_specification[ sysinfo::System::kernel_version ]() -> Option<String>;

/// Relies on `sysinfo::System::host_name`: the hostname, when the platform
/// exposes it.
pub assume_specification[ sysinfo::System::host_name ]() -> Option<String>;

/// Relies on `sysinfo::System::uptime`: seconds since boot.
pub assume_specification[ sysinfo::System::uptime ]() -> u64;

/// Relies on `sysinfo::System::boot_time`: the boot instant, seconds since
/// the Unix epoch.
pub assume_specification[ sysinfo::System::boot_time ]() -> u64;

/// Relies on `sysinfo::System::processes`: the number of entries in the
/// process table as of the last refresh.
#[verifier::external_body]
pub(crate) fn process_count(s: &sysinfo::System) -> usize {
    s.processes().len()
}

/// Relies on `sysinfo::Disks::new_with_refreshed_list` and the per-disk
/// accessors: one raw record per mounted volume, in the mount table's
/// enumeration order.  Non-Unicode names are replaced lossily.
#[verifier::external_body]
pub(crate) fn read_disks() -> Vec<RawDisk> {
    sysinfo::Disks::new_with_refreshed_list()
        .iter()
        .map(|d| RawDisk {
            name: d.name().to_string_lossy().to_string(),
            mount_point: d.mount_point().to_string_lossy().to_string(),
            file_system: d.file_system().to_string_lossy().to_string(),
            total_space: d.total_space(),
            available_space: d.available_space(),
        })
        .collect()
}

/// Relies on `sysinfo::Networks::new_with_refreshed_list` and the
/// per-interface counters: one record per interface, in the interface
/// table's enumeration order.
#[verifier::external_body]
pub(crate) fn read_networks() -> Vec<NetworkInfo> {
    sysinfo::Networks::new_with_refreshed_list()
        .iter()
        .map(|(name, data)| NetworkInfo {
            name: name.clone(),
            received: data.received(),
            transmitted: data.transmitted(),
        })
        .collect()
}

/// Relies on `chrono::Utc::now`: the current wall-clock instant, in
/// milliseconds since the Unix epoch.  The value depends on the machine
/// clock, so nothing is promised of it.  `Utc::now` itself panics when the
/// system clock reads earlier than the Unix epoch; no input of this wrapper
/// can avoid or provoke that, so the contract cannot exclude it.
#[verifier::external_body]
pub(crate) fn capture_timestamp_millis() -> u64 {
    chrono::Utc::now().timestamp_millis() as u64
}

} // verus!
