use sysmetrics::gpu::estimate_gpu_usage;
use sysmetrics::metrics::{
    derive_cpu_package_temp, derive_system_temp, percent_of, select_frequency, to_gb_hundredths,
};
use sysmetrics::procs::{normalize_cpu, top_processes};
use sysmetrics::records::{NetworkInfo, RawDisk, RawProcess};
use sysmetrics::snapshots::{
    build_cpu_snapshot, build_disk_snapshot, build_extended_realtime_stats, build_memory_info,
    build_realtime_stats, get_temperatures,
};

fn raw_proc(name: &str, pid: u32, cpu_h: u64, memory: u64) -> RawProcess {
    RawProcess { name: String::from(name), pid, cpu_usage: cpu_h, memory }
}

#[test]
fn percent_basics() {
    assert_eq!(percent_of(0, 0), 0);
    assert_eq!(percent_of(5, 0), 0);
    assert_eq!(percent_of(2, 8), 2500);
    assert_eq!(percent_of(8, 8), 10000);
    assert_eq!(percent_of(1, 3), 3333);
    assert_eq!(percent_of(9, 8), 10000);
}

#[test]
fn gb_conversion() {
    assert_eq!(to_gb_hundredths(0), 0);
    assert_eq!(to_gb_hundredths(1u64 << 30), 100);
    assert_eq!(to_gb_hundredths(3 * (1u64 << 30) / 2), 150);
    assert_eq!(to_gb_hundredths(8 * (1u64 << 30)), 800);
}

#[test]
fn frequency_fallback_uses_first_core() {
    assert_eq!(select_frequency(0, Some(2400)), 2400);
    assert_eq!(select_frequency(3000, Some(2400)), 3000);
    assert_eq!(select_frequency(0, None), 0);
}

#[test]
fn cpu_snapshot_frequency_fallback() {
    let cpu = build_cpu_snapshot(
        String::from("cpu0"),
        String::from("TestBrand"),
        1234,
        0,
        Some(2400),
        8,
        4,
    );
    assert_eq!(cpu.frequency, 2400);
    assert_eq!(cpu.usage, 1234);
    assert_eq!(cpu.cores, 8);
    assert_eq!(cpu.physical_cores, 4);
}

#[test]
fn memory_usage_percent_in_range() {
    let m = build_memory_info(8, 2, 6, 4, 1);
    assert_eq!(m.usage_percent, 2500);
    let zero = build_memory_info(0, 0, 0, 0, 0);
    assert_eq!(zero.usage_percent, 0);
    let full = build_memory_info(16, 16, 0, 0, 0);
    assert_eq!(full.usage_percent, 10000);
    assert!(m.usage_percent <= 10000);
}

#[test]
fn disk_snapshot_invariants() {
    let d = build_disk_snapshot(RawDisk {
        name: String::from("sda1"),
        mount_point: String::from("/"),
        file_system: String::from("ext4"),
        total_space: 1000,
        available_space: 250,
    });
    assert_eq!(d.used_space, 750);
    assert_eq!(d.used_space, d.total_space - d.available_space);
    assert_eq!(d.usage_percent, 7500);

    let empty = build_disk_snapshot(RawDisk {
        name: String::from("loop0"),
        mount_point: String::from("/mnt"),
        file_system: String::from("squashfs"),
        total_space: 0,
        available_space: 0,
    });
    assert_eq!(empty.usage_percent, 0);
    assert_eq!(empty.used_space, 0);
}

#[test]
fn gpu_heuristic_browser_clamped() {
    // A browser at 60% of one core: 0.3 * 60 = 18, clamped to 15%.
    assert_eq!(estimate_gpu_usage("chrome", 6000), 1500);
    // An ordinary process at 10%: 0.05 * 10 = 0.5%.
    assert_eq!(estimate_gpu_usage("notepad", 1000), 50);
}

#[test]
fn gpu_heuristic_all_rules() {
    assert_eq!(estimate_gpu_usage("firefox", 1000), 300);
    assert_eq!(estimate_gpu_usage("my_game", 5000), 8500);
    assert_eq!(estimate_gpu_usage("nvidia-smi", 2000), 2500);
    assert_eq!(estimate_gpu_usage("nvidia-smi", 1000), 1500);
    assert_eq!(estimate_gpu_usage("WSIMC", 1000), 100);
    assert_eq!(estimate_gpu_usage("", 1000), 50);
    // Priority: a browser token wins over a vendor token.
    assert_eq!(estimate_gpu_usage("chrome-gpu", 6000), 1500);
}

#[test]
fn normalize_cpu_divides_by_cores() {
    assert_eq!(normalize_cpu(8000, 4), 2000);
    assert_eq!(normalize_cpu(8000, 0), 0);
    assert_eq!(normalize_cpu(7, 2), 3);
}

#[test]
fn top_processes_sorted_and_truncated() {
    let raws = vec![
        raw_proc("alpha", 1, 4000, 10),
        raw_proc("beta", 2, 8000, 20),
        raw_proc("gamma", 3, 2000, 30),
    ];
    let top = top_processes(raws, 2, 2);
    assert_eq!(top.len(), 2);
    assert_eq!(top[0].name, "beta");
    assert_eq!(top[0].cpu_usage, 4000);
    assert_eq!(top[1].name, "alpha");
    assert_eq!(top[1].cpu_usage, 2000);
    assert!(top[0].cpu_usage >= top[1].cpu_usage);
}

#[test]
fn top_processes_limit_beyond_count() {
    let raws = vec![raw_proc("only", 7, 100, 5)];
    let top = top_processes(raws, 1, 15);
    assert_eq!(top.len(), 1);
    assert_eq!(top[0].pid, 7);
    // 0.05 * 1% = 0.05%, not clamped.
    assert_eq!(top[0].gpu_usage, 5);
}

#[test]
fn placeholder_temperatures() {
    let t = get_temperatures().unwrap();
    assert_eq!(t.len(), 2);
    assert_eq!(t[0].component, "CPU Package");
    assert_eq!(t[0].temperature, 4500);
    assert_eq!(t[0].max_temperature, Some(10000));
    assert_eq!(t[0].critical_temperature, Some(10500));
    assert_eq!(t[1].component, "System");
    assert_eq!(t[1].temperature, 3500);
    assert_eq!(t[1].max_temperature, Some(8000));
    assert_eq!(t[1].critical_temperature, Some(9000));
}

#[test]
fn derived_temperatures_at_half_load() {
    // Global CPU usage 50%: package reads 45 + 25 = 70, system 35 + 15 = 50.
    assert_eq!(derive_cpu_package_temp(5000), 7000);
    assert_eq!(derive_system_temp(5000), 5000);
}

#[test]
fn extended_bundle_temperatures_and_top() {
    let raws = vec![raw_proc("alpha", 1, 4000, 10), raw_proc("beta", 2, 8000, 20)];
    let nets = vec![NetworkInfo { name: String::from("eth0"), received: 11, transmitted: 22 }];
    let bundle = build_extended_realtime_stats(5000, 4, 16, nets, raws, 2, );
    assert_eq!(bundle.cpu_usage, 5000);
    assert_eq!(bundle.memory_usage, 2500);
    assert_eq!(bundle.temperatures.len(), 2);
    assert_eq!(bundle.temperatures[0].component, "CPU Package");
    assert_eq!(bundle.temperatures[0].temperature, 7000);
    assert_eq!(bundle.temperatures[1].component, "System");
    assert_eq!(bundle.temperatures[1].temperature, 5000);
    assert_eq!(bundle.network_activity.len(), 1);
    assert_eq!(bundle.network_activity[0].name, "eth0");
    assert_eq!(bundle.top_processes.len(), 2);
    assert_eq!(bundle.top_processes[0].name, "beta");
}

#[test]
fn realtime_stats_derivation() {
    let s = build_realtime_stats(1234, 1u64 << 30, 4 * (1u64 << 30));
    assert_eq!(s.cpu_usage, 1234);
    assert_eq!(s.memory_usage, 2500);
    assert_eq!(s.memory_used_gb, 100);
    assert_eq!(s.memory_total_gb, 400);
}

#[test]
fn system_info_defaults_missing_fields() {
    let x = sysmetrics::snapshots::build_system_info(
        None,
        Some(String::from("6.1")),
        None,
        Some(String::from("box")),
        321,
        1700000000,
    );
    assert_eq!(x.name, "");
    assert_eq!(x.os_version, "6.1");
    assert_eq!(x.kernel_version, "");
    assert_eq!(x.hostname, "box");
    assert_eq!(x.uptime, 321);
    assert_eq!(x.boot_time, 1700000000);
}

#[test]
fn system_info_keeps_reported_fields() {
    let x = sysmetrics::snapshots::build_system_info(
        Some(String::from("Linux")),
        Some(String::from("6.1")),
        Some(String::from("6.1.0-test")),
        Some(String::from("host-1")),
        0,
        0,
    );
    assert_eq!(x.name, "Linux");
    assert_eq!(x.os_version, "6.1");
    assert_eq!(x.kernel_version, "6.1.0-test");
    assert_eq!(x.hostname, "host-1");
}
