use sysmetrics::codec::{
    decode_advanced_system_info, decode_cpu_info, decode_disk_info, decode_extended_realtime_stats,
    decode_memory_info, decode_network_info, decode_process_info, decode_realtime_stats,
    decode_system_info, decode_temperature_info, encode_advanced_system_info, encode_cpu_info,
    encode_disk_info, encode_extended_realtime_stats, encode_memory_info, encode_network_info,
    encode_process_info, encode_realtime_stats, encode_system_info, encode_temperature_info,
};
use sysmetrics::records::{
    AdvancedSystemInfo, CpuInfo, DiskInfo, ExtendedRealtimeStats, MemoryInfo, NetworkInfo,
    ProcessInfo, RealtimeStats, SystemInfo, TemperatureInfo,
};

fn sample_network() -> NetworkInfo {
    NetworkInfo { name: String::from("eth0"), received: 123456789, transmitted: 987654321 }
}

fn sample_process() -> ProcessInfo {
    ProcessInfo {
        name: String::from("chrome"),
        pid: 4242,
        cpu_usage: 6000,
        memory: 1 << 28,
        gpu_usage: 1500,
    }
}

fn sample_temperature() -> TemperatureInfo {
    TemperatureInfo {
        component: String::from("CPU Package"),
        temperature: 7000,
        max_temperature: Some(10000),
        critical_temperature: None,
    }
}

#[test]
fn round_trip_system_info() {
    let x = SystemInfo {
        name: String::from("Linux"),
        os_version: String::from("6.1"),
        kernel_version: String::from("6.1.0-test"),
        hostname: String::from("h\u{00e9}llo\u{1F30D}"),
        uptime: 98765,
        boot_time: 1700000000,
    };
    let mut b: Vec<u8> = Vec::new();
    encode_system_info(&mut b, &x);
    let (y, end) = decode_system_info(&b, 0).unwrap();
    assert_eq!(end, b.len());
    assert_eq!(y.name, x.name);
    assert_eq!(y.os_version, x.os_version);
    assert_eq!(y.kernel_version, x.kernel_version);
    assert_eq!(y.hostname, x.hostname);
    assert_eq!(y.uptime, x.uptime);
    assert_eq!(y.boot_time, x.boot_time);
}

#[test]
fn round_trip_cpu_info() {
    let x = CpuInfo {
        name: String::from("cpu0"),
        brand: String::from("ACME 9000"),
        usage: 4321,
        frequency: 2400,
        cores: 16,
        physical_cores: 8,
    };
    let mut b: Vec<u8> = Vec::new();
    encode_cpu_info(&mut b, &x);
    let (y, end) = decode_cpu_info(&b, 0).unwrap();
    assert_eq!(end, b.len());
    assert_eq!(y.name, x.name);
    assert_eq!(y.brand, x.brand);
    assert_eq!(y.usage, x.usage);
    assert_eq!(y.frequency, x.frequency);
    assert_eq!(y.cores, x.cores);
    assert_eq!(y.physical_cores, x.physical_cores);
}

#[test]
fn round_trip_memory_info() {
    let x = MemoryInfo {
        total: u64::MAX,
        used: 123,
        available: u64::MAX - 123,
        usage_percent: 0,
        swap_total: 1 << 33,
        swap_used: 77,
    };
    let mut b: Vec<u8> = Vec::new();
    encode_memory_info(&mut b, &x);
    let (y, end) = decode_memory_info(&b, 0).unwrap();
    assert_eq!(end, b.len());
    assert_eq!(y.total, x.total);
    assert_eq!(y.used, x.used);
    assert_eq!(y.available, x.available);
    assert_eq!(y.usage_percent, x.usage_percent);
    assert_eq!(y.swap_total, x.swap_total);
    assert_eq!(y.swap_used, x.swap_used);
}

#[test]
fn round_trip_disk_info() {
    let x = DiskInfo {
        name: String::from("nvme0n1p2"),
        mount_point: String::from("/home"),
        total_space: 1 << 40,
        available_space: 1 << 39,
        used_space: 1 << 39,
        usage_percent: 5000,
        file_system: String::from("btrfs"),
    };
    let mut b: Vec<u8> = Vec::new();
    encode_disk_info(&mut b, &x);
    let (y, end) = decode_disk_info(&b, 0).unwrap();
    assert_eq!(end, b.len());
    assert_eq!(y.name, x.name);
    assert_eq!(y.mount_point, x.mount_point);
    assert_eq!(y.total_space, x.total_space);
    assert_eq!(y.available_space, x.available_space);
    assert_eq!(y.used_space, x.used_space);
    assert_eq!(y.usage_percent, x.usage_percent);
    assert_eq!(y.file_system, x.file_system);
}

#[test]
fn round_trip_network_info() {
    let x = sample_network();
    let mut b: Vec<u8> = Vec::new();
    encode_network_info(&mut b, &x);
    let (y, end) = decode_network_info(&b, 0).unwrap();
    assert_eq!(end, b.len());
    assert_eq!(y.name, x.name);
    assert_eq!(y.received, x.received);
    assert_eq!(y.transmitted, x.transmitted);
}

#[test]
fn round_trip_process_info() {
    let x = sample_process();
    let mut b: Vec<u8> = Vec::new();
    encode_process_info(&mut b, &x);
    let (y, end) = decode_process_info(&b, 0).unwrap();
    assert_eq!(end, b.len());
    assert_eq!(y.name, x.name);
    assert_eq!(y.pid, x.pid);
    assert_eq!(y.cpu_usage, x.cpu_usage);
    assert_eq!(y.memory, x.memory);
    assert_eq!(y.gpu_usage, x.gpu_usage);
}

#[test]
fn round_trip_temperature_info() {
    let x = sample_temperature();
    let mut b: Vec<u8> = Vec::new();
    encode_temperature_info(&mut b, &x);
    let (y, end) = decode_temperature_info(&b, 0).unwrap();
    assert_eq!(end, b.len());
    assert_eq!(y.component, x.component);
    assert_eq!(y.temperature, x.temperature);
    assert_eq!(y.max_temperature, x.max_temperature);
    assert_eq!(y.critical_temperature, x.critical_temperature);
}

#[test]
fn round_trip_realtime_stats() {
    let x = RealtimeStats {
        cpu_usage: 5000,
        memory_usage: 2500,
        memory_used_gb: 100,
        memory_total_gb: 400,
    };
    let mut b: Vec<u8> = Vec::new();
    encode_realtime_stats(&mut b, &x);
    let (y, end) = decode_realtime_stats(&b, 0).unwrap();
    assert_eq!(end, b.len());
    assert_eq!(y.cpu_usage, x.cpu_usage);
    assert_eq!(y.memory_usage, x.memory_usage);
    assert_eq!(y.memory_used_gb, x.memory_used_gb);
    assert_eq!(y.memory_total_gb, x.memory_total_gb);
}

#[test]
fn round_trip_advanced_system_info() {
    let x = AdvancedSystemInfo {
        load_average: vec![0, 0, 0],
        process_count: 321,
        total_processes: 321,
        users_count: 1,
    };
    let mut b: Vec<u8> = Vec::new();
    encode_advanced_system_info(&mut b, &x);
    let (y, end) = decode_advanced_system_info(&b, 0).unwrap();
    assert_eq!(end, b.len());
    assert_eq!(y.load_average, x.load_average);
    assert_eq!(y.process_count, x.process_count);
    assert_eq!(y.total_processes, x.total_processes);
    assert_eq!(y.users_count, x.users_count);
}

#[test]
fn round_trip_extended_realtime_stats() {
    let x = ExtendedRealtimeStats {
        cpu_usage: 5000,
        memory_usage: 2500,
        memory_used_gb: 100,
        memory_total_gb: 400,
        temperatures: vec![sample_temperature()],
        network_activity: vec![sample_network(), NetworkInfo {
            name: String::from("wlan0"),
            received: 1,
            transmitted: 2,
        }],
        top_processes: vec![sample_process()],
        timestamp: 1700000000123,
    };
    let mut b: Vec<u8> = Vec::new();
    encode_extended_realtime_stats(&mut b, &x);
    let (y, end) = decode_extended_realtime_stats(&b, 0).unwrap();
    assert_eq!(end, b.len());
    assert_eq!(y.cpu_usage, x.cpu_usage);
    assert_eq!(y.memory_usage, x.memory_usage);
    assert_eq!(y.memory_used_gb, x.memory_used_gb);
    assert_eq!(y.memory_total_gb, x.memory_total_gb);
    assert_eq!(y.temperatures.len(), 1);
    assert_eq!(y.temperatures[0].component, "CPU Package");
    assert_eq!(y.temperatures[0].critical_temperature, None);
    assert_eq!(y.network_activity.len(), 2);
    assert_eq!(y.network_activity[1].name, "wlan0");
    assert_eq!(y.top_processes.len(), 1);
    assert_eq!(y.top_processes[0].name, "chrome");
    assert_eq!(y.top_processes[0].pid, 4242);
    assert_eq!(y.timestamp, x.timestamp);
}

#[test]
fn round_trip_empty_lists_and_strings() {
    let x = ExtendedRealtimeStats {
        cpu_usage: 0,
        memory_usage: 0,
        memory_used_gb: 0,
        memory_total_gb: 0,
        temperatures: vec![],
        network_activity: vec![],
        top_processes: vec![ProcessInfo {
            name: String::new(),
            pid: 0,
            cpu_usage: 0,
            memory: 0,
            gpu_usage: 0,
        }],
        timestamp: 0,
    };
    let mut b: Vec<u8> = Vec::new();
    encode_extended_realtime_stats(&mut b, &x);
    let (y, end) = decode_extended_realtime_stats(&b, 0).unwrap();
    assert_eq!(end, b.len());
    assert_eq!(y.temperatures.len(), 0);
    assert_eq!(y.network_activity.len(), 0);
    assert_eq!(y.top_processes.len(), 1);
    assert_eq!(y.top_processes[0].name, "");
}

#[test]
fn decode_rejects_truncated_input() {
    let x = sample_network();
    let mut b: Vec<u8> = Vec::new();
    encode_network_info(&mut b, &x);
    b.truncate(b.len() - 1);
    assert!(decode_network_info(&b, 0).is_none());
    let short: Vec<u8> = vec![1, 2, 3];
    assert!(decode_memory_info(&short, 0).is_none());
}

#[test]
fn decode_rejects_invalid_utf8() {
    // A one-byte string whose byte is not valid UTF-8.
    let mut b: Vec<u8> = vec![1, 0, 0, 0, 0, 0, 0, 0, 0xFF];
    // Pad so the fixed-size fields after the name could be read.
    for _ in 0..16 {
        b.push(0);
    }
    assert!(decode_network_info(&b, 0).is_none());
}

#[test]
fn round_trip_disk_listing() {
    let disks = vec![
        DiskInfo {
            name: String::from("sda1"),
            mount_point: String::from("/"),
            total_space: 1000,
            available_space: 250,
            used_space: 750,
            usage_percent: 7500,
            file_system: String::from("ext4"),
        },
        DiskInfo {
            name: String::from("loop0"),
            mount_point: String::from("/mnt"),
            total_space: 0,
            available_space: 0,
            used_space: 0,
            usage_percent: 0,
            file_system: String::from("squashfs"),
        },
    ];
    let mut b: Vec<u8> = Vec::new();
    sysmetrics::codec::put_disk_info_list(&mut b, &disks);
    let (ys, end) = sysmetrics::codec::take_disk_info_list(&b, 0).unwrap();
    assert_eq!(end, b.len());
    assert_eq!(ys.len(), 2);
    assert_eq!(ys[0].name, "sda1");
    assert_eq!(ys[0].used_space, 750);
    assert_eq!(ys[0].usage_percent, 7500);
    assert_eq!(ys[1].file_system, "squashfs");
    assert_eq!(ys[1].total_space, 0);

    let empty: Vec<DiskInfo> = vec![];
    let mut eb: Vec<u8> = Vec::new();
    sysmetrics::codec::put_disk_info_list(&mut eb, &empty);
    let (eys, eend) = sysmetrics::codec::take_disk_info_list(&eb, 0).unwrap();
    assert_eq!(eend, eb.len());
    assert_eq!(eys.len(), 0);
}
