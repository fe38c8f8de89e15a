use monitor_app::device_id::{assign_topology, medium_fingerprint, DeviceRegistry};
use monitor_app::storage::PhysicalDisk;

#[test]
fn same_medium_same_device_keeps_uid_and_generation() {
    let mut r = DeviceRegistry::new();
    let (u1, g1) = r.assign("disk0", "APPLE SSD", 500_000_000_000, &["disk0s2".into()]);
    let (u2, g2) = r.assign("disk0", "APPLE SSD", 500_000_000_000, &["disk0s2".into()]);
    assert_eq!(u1, u2);
    assert_eq!(g1, g2);
    assert_eq!(g1, 0);
}

#[test]
fn uid_is_stable_across_device_reenumeration() {
    let mut r = DeviceRegistry::new();
    let (u1, _) = r.assign("disk0", "APPLE SSD", 500_000_000_000, &["disk0s2".into()]);
    let (u2, _) = r.assign("disk4", "APPLE SSD", 500_000_000_000, &["disk4s2".into()]);
    assert_eq!(u1, u2, "same medium must keep one uid across re-enumeration");
}

#[test]
fn reused_device_address_for_new_medium_bumps_generation() {
    let mut r = DeviceRegistry::new();
    let (ua, ga) = r.assign("disk0", "APPLE SSD", 500_000_000_000, &["disk0s2".into()]);
    let (ub, gb) = r.assign("disk0", "SAMSUNG SSD", 1_000_000_000_000, &["disk0s2".into()]);
    assert_ne!(ua, ub, "different medium gets a different uid");
    assert_eq!(gb, 0, "new medium starts at generation 0");
    let (_ua2, ga2) = r.assign("disk4", "APPLE SSD", 500_000_000_000, &["disk4s2".into()]);
    assert!(ga2 > ga, "address reuse bumped the previous owner's generation");
}

#[test]
fn distinct_media_get_distinct_uids() {
    let mut r = DeviceRegistry::new();
    let (u1, _) = r.assign("disk0", "APPLE SSD", 500_000_000_000, &["disk0s2".into()]);
    let (u2, _) = r.assign("disk2", "SAMSUNG SSD", 1_000_000_000_000, &["disk2s1".into()]);
    assert_ne!(u1, u2);
}

#[test]
fn fingerprint_is_privacy_safe_and_store_count_sensitive() {
    let single = medium_fingerprint("SSD", 1000, 1);
    let pool = medium_fingerprint("SSD", 1000, 2);
    assert_ne!(single, pool);
    assert_eq!(medium_fingerprint("SSD", 1000, 1), medium_fingerprint("SSD", 1000, 1));
}

#[test]
fn uids_are_minted_in_order_as_hex() {
    let mut r = DeviceRegistry::new();
    let (u1, _) = r.assign("disk0", "A", 1, &[]);
    let (u2, _) = r.assign("disk1", "B", 2, &[]);
    assert_eq!(u1, "dev-00000001");
    assert_eq!(u2, "dev-00000002");
    for _ in 0..14 {
        let _ = r.assign("disk9", "C", 3, &[]);
    }
    let (u3, _) = r.assign("disk9", "C", 3, &[]);
    assert_eq!(u3, "dev-00000003");
    assert!(r.can_assign("disk9", "D", 4, &[]));
}

#[test]
fn generation_bumps_on_each_reuse() {
    let mut r = DeviceRegistry::new();
    let _ = r.assign("disk0", "A", 1, &[]);
    let _ = r.assign("disk0", "B", 2, &[]);
    let _ = r.assign("disk0", "A", 1, &[]);
    // Each medium was displaced from disk0 exactly once.
    let (_, ga) = r.assign("disk5", "A", 1, &[]);
    let (_, gb) = r.assign("disk6", "B", 2, &[]);
    assert_eq!(ga, 1);
    assert_eq!(gb, 1);
}

fn listed_disk(device: &str, name: &str, size: u64) -> PhysicalDisk {
    PhysicalDisk {
        device: device.to_string(),
        name: name.to_string(),
        size_bytes: size,
        smart_status: String::new(),
        temperature_kelvin: None,
        power_on_hours: None,
        containers: Vec::new(),
        device_uid: None,
        generation: 0,
    }
}

#[test]
fn topology_pass_is_stable_across_samples() {
    let mut reg = DeviceRegistry::new();
    let mut first = vec![listed_disk("disk0", "APPLE SSD", 500), listed_disk("disk4", "ZHITAI", 1000)];
    assign_topology(&mut reg, &mut first);
    assert_eq!(first[0].device_uid.as_deref(), Some("dev-00000001"));
    assert_eq!(first[1].device_uid.as_deref(), Some("dev-00000002"));
    let mut second = vec![listed_disk("disk0", "APPLE SSD", 500), listed_disk("disk4", "ZHITAI", 1000)];
    assign_topology(&mut reg, &mut second);
    for (a, b) in first.iter().zip(second.iter()) {
        assert_eq!(a.device_uid, b.device_uid);
        assert_eq!(a.generation, b.generation);
    }
    // Re-enumerated at swapped addresses, each medium keeps its uid.
    let mut swapped = vec![listed_disk("disk4", "APPLE SSD", 500), listed_disk("disk0", "ZHITAI", 1000)];
    assign_topology(&mut reg, &mut swapped);
    assert_eq!(swapped[0].device_uid, first[0].device_uid);
    assert_eq!(swapped[1].device_uid, first[1].device_uid);
    // The swap displaced both media once; passing again changes nothing.
    let mut again = vec![listed_disk("disk4", "APPLE SSD", 500), listed_disk("disk0", "ZHITAI", 1000)];
    assign_topology(&mut reg, &mut again);
    assert_eq!(again[0].generation, 1);
    assert_eq!(again[1].generation, 1);
    let mut third = vec![listed_disk("disk4", "APPLE SSD", 500), listed_disk("disk0", "ZHITAI", 1000)];
    assign_topology(&mut reg, &mut third);
    for (a, b) in again.iter().zip(third.iter()) {
        assert_eq!((&a.device_uid, a.generation), (&b.device_uid, b.generation));
    }
}

#[test]
fn second_call_on_the_returned_disks_keeps_every_identity() {
    let mut reg = DeviceRegistry::new();
    let mut disks = vec![listed_disk("disk0", "APPLE SSD", 500), listed_disk("disk4", "ZHITAI", 1000)];
    assign_topology(&mut reg, &mut disks);
    let first: Vec<(Option<String>, u32)> = disks.iter().map(|d| (d.device_uid.clone(), d.generation)).collect();
    assign_topology(&mut reg, &mut disks);
    let second: Vec<(Option<String>, u32)> = disks.iter().map(|d| (d.device_uid.clone(), d.generation)).collect();
    assert_eq!(first, second);
}

#[test]
fn second_call_reports_a_generation_bumped_later_in_the_first() {
    // "APPLE SSD" was last seen at disk0.  In the next pass it shows up at
    // disk1 first, then another medium takes disk0 and bumps its generation:
    // the first pass handed out generation 0, the record now says 1, and a
    // second pass reports the record.  The uid stays the same.
    let mut reg = DeviceRegistry::new();
    let mut before = vec![listed_disk("disk0", "APPLE SSD", 500)];
    assign_topology(&mut reg, &mut before);
    let mut disks = vec![listed_disk("disk1", "APPLE SSD", 500), listed_disk("disk0", "ZHITAI", 1000)];
    assign_topology(&mut reg, &mut disks);
    assert_eq!(disks[0].generation, 0);
    let uid = disks[0].device_uid.clone();
    assign_topology(&mut reg, &mut disks);
    assert_eq!(disks[0].device_uid, uid);
    assert_eq!(disks[0].generation, 1);
}

#[test]
fn uids_follow_the_medium_across_a_run_of_assignments() {
    let mut r = DeviceRegistry::new();
    let calls: [(&str, &str, u64); 5] = [
        ("disk0", "APPLE SSD", 500),
        ("disk1", "ZHITAI", 1000),
        ("disk1", "APPLE SSD", 500),
        ("disk2", "SAMSUNG", 2000),
        ("disk0", "ZHITAI", 1000),
    ];
    let uids: Vec<String> = calls.iter().map(|(dev, name, size)| r.assign(dev, name, *size, &[]).0).collect();
    assert_eq!(uids, vec!["dev-00000001", "dev-00000002", "dev-00000001", "dev-00000003", "dev-00000002"]);
}
