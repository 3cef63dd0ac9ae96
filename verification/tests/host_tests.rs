use sysmetrics::snapshots::{
    get_advanced_system_info, get_disk_info, get_memory_info, get_network_info, get_system_info,
};

#[test]
fn system_info_always_succeeds() {
    let info = get_system_info().unwrap();
    // Missing platform data defaults to empty strings and zeros; whatever the
    // host reports, the call itself never fails.
    let _ = info.name;
    let _ = info.uptime;
}

#[test]
fn memory_info_percent_in_range() {
    let m = get_memory_info().unwrap();
    assert!(m.usage_percent <= 10000);
    if m.total > 0 && m.used <= m.total {
        let expected = ((m.used as u128 * 10000) / m.total as u128) as u64;
        assert_eq!(m.usage_percent, expected);
    }
}

#[test]
fn disk_info_invariants_on_live_host() {
    let disks = get_disk_info().unwrap();
    for d in disks {
        assert_eq!(d.used_space, d.total_space - d.available_space);
        assert!(d.usage_percent <= 10000);
        if d.total_space == 0 {
            assert_eq!(d.usage_percent, 0);
        }
    }
}

#[test]
fn network_info_always_succeeds() {
    let nets = get_network_info().unwrap();
    for n in nets {
        let _ = (n.name, n.received, n.transmitted);
    }
}

#[test]
fn advanced_info_placeholders() {
    let a = get_advanced_system_info().unwrap();
    assert_eq!(a.load_average, vec![0, 0, 0]);
    assert_eq!(a.process_count, a.total_processes);
    assert_eq!(a.users_count, 1);
}
