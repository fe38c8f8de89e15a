use monitor_app::storage::{
    base_disk_id, build_topology, container_from, containers_from_listing, disk_ids_from_listing,
    disk_info_from_output, physical_disk_from, ContainerInfo, PhysicalDisk, RawContainer,
    RawDiskInfo, RawVolume,
};

#[test]
fn strips_partition_suffix() {
    assert_eq!(base_disk_id("disk0s2"), "disk0");
    assert_eq!(base_disk_id("disk4s1"), "disk4");
    assert_eq!(base_disk_id("disk10"), "disk10");
    assert_eq!(base_disk_id("disk0"), "disk0");
}

#[test]
fn base_disk_id_needs_digits_after_the_last_s() {
    assert_eq!(base_disk_id("disk3s"), "disk3s");
    assert_eq!(base_disk_id("disk3sx1"), "disk3sx1");
    assert_eq!(base_disk_id("disk1s10s3"), "disk1s10");
    assert_eq!(base_disk_id(""), "");
}

fn disk(device: &str) -> PhysicalDisk {
    physical_disk_from(
        device.to_string(),
        Ok(RawDiskInfo {
            media_name: Some("APPLE SSD".to_string()),
            total_size: Some(500),
            smart_status: Some("Verified".to_string()),
            temperature_kelvin: Some(310),
            power_on_hours: Some(7),
        }),
    )
}

fn container(store: Option<&str>, reference: &str) -> ContainerInfo {
    container_from(RawContainer {
        container_reference: Some(reference.to_string()),
        first_physical_store: store.map(|s| s.to_string()),
        capacity_ceiling: Some(100),
        capacity_free: Some(40),
        capacity_in_use: Some(60),
        volumes: vec![
            RawVolume {
                device_identifier: Some("disk3s1".to_string()),
                name: Some("Macintosh HD".to_string()),
                role: None,
                capacity_in_use: Some(10),
            },
            RawVolume { device_identifier: None, name: None, role: None, capacity_in_use: None },
        ],
    })
}

#[test]
fn containers_attach_to_their_physical_disk_once() {
    let disks = vec![disk("disk0"), disk("disk4")];
    let containers = vec![
        container(Some("disk4s2"), "disk5"),
        container(Some("disk0s2"), "disk3"),
        container(Some("disk9s1"), "disk10"),
        container(None, "disk11"),
    ];
    let topo = build_topology(Ok(disks), Ok(containers)).unwrap();
    assert_eq!(topo.len(), 2);
    assert_eq!(topo[0].containers.len(), 1);
    assert_eq!(topo[0].containers[0].container_ref, "disk3");
    assert_eq!(topo[1].containers.len(), 1);
    assert_eq!(topo[1].containers[0].container_ref, "disk5");
    // Volumes without an identifier are skipped; a missing role reads empty.
    assert_eq!(topo[0].containers[0].volumes.len(), 1);
    assert_eq!(topo[0].containers[0].volumes[0].role, "");
}

#[test]
fn failed_listings() {
    assert_eq!(build_topology(Err("no AllDisksAndPartitions".to_string()), Ok(vec![])).err(), Some("no AllDisksAndPartitions".to_string()));
    let topo = build_topology(Ok(vec![disk("disk0")]), Err("diskutil apfs list failed".to_string())).unwrap();
    assert!(topo[0].containers.is_empty());
}

#[test]
fn disk_info_defaults_and_temperature_range() {
    let d = physical_disk_from("disk2".to_string(), Err("no dict".to_string()));
    assert_eq!(d.name, "");
    assert_eq!(d.size_bytes, 0);
    assert_eq!(d.temperature_kelvin, None);
    let mk = |k: u64| {
        physical_disk_from(
            "disk2".to_string(),
            Ok(RawDiskInfo { media_name: None, total_size: None, smart_status: None, temperature_kelvin: Some(k), power_on_hours: None }),
        )
        .temperature_kelvin
    };
    assert_eq!(mk(273), None);
    assert_eq!(mk(274), Some(274));
    assert_eq!(mk(423), Some(423));
    assert_eq!(mk(424), None);
    // The kelvin bounds agree with the 0..=150 °C window the reading must fall in.
    for k in 200u64..500 {
        let c = k as f32 - 273.15;
        assert_eq!((0.0..=150.0).contains(&c), mk(k).is_some(), "k={}", k);
    }
}

#[test]
fn a_container_is_counted_on_one_disk_only() {
    // Even when two listed disks claim the same address, the container's
    // capacity lands on the first one only.
    let topo = build_topology(Ok(vec![disk("disk0"), disk("disk0")]), Ok(vec![container(Some("disk0s2"), "disk3")])).unwrap();
    assert_eq!(topo[0].containers.len() + topo[1].containers.len(), 1);
    assert_eq!(topo[0].containers.len(), 1);
}

fn plist_doc(body: &str) -> Vec<u8> {
    format!(
        "<?xml version=\"1.0\" encoding=\"UTF-8\"?>\n<plist version=\"1.0\">\n{}\n</plist>\n",
        body
    )
    .into_bytes()
}

#[test]
fn disk_listing_names_each_physical_disk() {
    let out = plist_doc(
        "<dict><key>AllDisksAndPartitions</key><array>\
         <dict><key>DeviceIdentifier</key><string>disk0</string><key>Size</key><integer>500</integer></dict>\
         <dict><key>Content</key><string>none</string></dict>\
         <string>stray</string>\
         <dict><key>DeviceIdentifier</key><string>disk4</string></dict>\
         </array></dict>",
    );
    assert_eq!(disk_ids_from_listing(&out), Ok(vec!["disk0".to_string(), "disk4".to_string()]));
}

#[test]
fn disk_listing_errors() {
    let missing = plist_doc("<dict><key>WholeDisks</key><array/></dict>");
    assert_eq!(disk_ids_from_listing(&missing), Err("no AllDisksAndPartitions".to_string()));
    let not_array = plist_doc("<dict><key>AllDisksAndPartitions</key><string>x</string></dict>");
    assert_eq!(disk_ids_from_listing(&not_array), Err("no AllDisksAndPartitions".to_string()));
    let garbage = disk_ids_from_listing(b"not a property list").unwrap_err();
    assert!(garbage.starts_with("diskutil list plist parse: "), "{}", garbage);
    assert!(garbage.len() > "diskutil list plist parse: ".len());
}

#[test]
fn disk_info_reads_the_smart_fields() {
    let out = plist_doc(
        "<dict>\
         <key>MediaName</key><string>APPLE SSD AP0512Q</string>\
         <key>TotalSize</key><integer>500277790720</integer>\
         <key>SMARTStatus</key><string>Verified</string>\
         <key>SMARTDeviceSpecificKeysMayVaryNotGuaranteed</key><dict>\
         <key>TEMPERATURE</key><integer>311</integer>\
         <key>POWER_ON_HOURS_0</key><integer>1234</integer>\
         </dict></dict>",
    );
    let info = disk_info_from_output(&out).unwrap();
    assert_eq!(info.media_name.as_deref(), Some("APPLE SSD AP0512Q"));
    assert_eq!(info.total_size, Some(500277790720));
    assert_eq!(info.smart_status.as_deref(), Some("Verified"));
    assert_eq!(info.temperature_kelvin, Some(311));
    assert_eq!(info.power_on_hours, Some(1234));
    let d = physical_disk_from("disk0".to_string(), Ok(info));
    assert_eq!(d.name, "APPLE SSD AP0512Q");
    assert_eq!(d.size_bytes, 500277790720);
    assert_eq!(d.temperature_kelvin, Some(311));
}

#[test]
fn disk_info_missing_and_mistyped_fields() {
    let out = plist_doc(
        "<dict><key>MediaName</key><integer>3</integer>\
         <key>TotalSize</key><integer>-1</integer>\
         <key>SMARTDeviceSpecificKeysMayVaryNotGuaranteed</key><string>none</string></dict>",
    );
    let info = disk_info_from_output(&out).unwrap();
    assert_eq!(info.media_name, None);
    assert_eq!(info.total_size, None);
    assert_eq!(info.smart_status, None);
    assert_eq!(info.temperature_kelvin, None);
    assert_eq!(info.power_on_hours, None);
    let d = physical_disk_from("disk1".to_string(), Ok(info));
    assert_eq!((d.name.as_str(), d.size_bytes, d.smart_status.as_str()), ("", 0, ""));
}

#[test]
fn disk_info_errors() {
    let not_dict = plist_doc("<array><string>disk0</string></array>");
    assert_eq!(disk_info_from_output(&not_dict).err(), Some("no dict".to_string()));
    assert!(disk_info_from_output(b"<plist").is_err());
    assert!(disk_info_from_output(b"").is_err());
}

#[test]
fn apfs_listing_builds_containers() {
    let out = plist_doc(
        "<dict><key>Containers</key><array>\
         <dict>\
         <key>ContainerReference</key><string>disk3</string>\
         <key>CapacityCeiling</key><integer>494384795648</integer>\
         <key>CapacityFree</key><integer>200000000000</integer>\
         <key>CapacityInUse</key><integer>294384795648</integer>\
         <key>PhysicalStores</key><array>\
         <dict><key>DeviceIdentifier</key><string>disk0s2</string></dict>\
         <dict><key>DeviceIdentifier</key><string>disk1s2</string></dict>\
         </array>\
         <key>Volumes</key><array>\
         <dict><key>DeviceIdentifier</key><string>disk3s1</string><key>Name</key><string>Macintosh HD</string>\
         <key>Role</key><string>System</string><key>CapacityInUse</key><integer>11000000000</integer></dict>\
         <dict><key>Name</key><string>no identifier</string></dict>\
         <string>stray</string>\
         <dict><key>DeviceIdentifier</key><string>disk3s5</string></dict>\
         </array>\
         </dict>\
         <string>not a container</string>\
         <dict><key>PhysicalStores</key><array/></dict>\
         </array></dict>",
    );
    let cs = containers_from_listing(&out).unwrap();
    assert_eq!(cs.len(), 2);
    assert_eq!(cs[0].container_ref, "disk3");
    assert_eq!(cs[0].physical_store.as_deref(), Some("disk0s2"));
    assert_eq!(cs[0].capacity_ceiling, Some(494384795648));
    assert_eq!(cs[0].capacity_free, Some(200000000000));
    assert_eq!(cs[0].capacity_in_use, Some(294384795648));
    assert_eq!(cs[0].volumes.len(), 2);
    assert_eq!(cs[0].volumes[0].id, "disk3s1");
    assert_eq!(cs[0].volumes[0].name, "Macintosh HD");
    assert_eq!(cs[0].volumes[0].role, "System");
    assert_eq!(cs[0].volumes[0].capacity_consumed, Some(11000000000));
    assert_eq!(cs[0].volumes[1].id, "disk3s5");
    assert_eq!(cs[0].volumes[1].name, "");
    assert_eq!(cs[0].volumes[1].capacity_consumed, None);
    assert_eq!(cs[1].container_ref, "");
    assert_eq!(cs[1].physical_store, None);
    assert!(cs[1].volumes.is_empty());
}

#[test]
fn apfs_listing_errors() {
    let missing = plist_doc("<dict><key>Volumes</key><array/></dict>");
    assert_eq!(containers_from_listing(&missing).err(), Some("no Containers".to_string()));
    let top_array = plist_doc("<array/>");
    assert_eq!(containers_from_listing(&top_array).err(), Some("no Containers".to_string()));
    assert!(containers_from_listing(b"<plist version=\"1.0\"><dict>").is_err());
}

#[test]
fn listings_feed_the_topology() {
    let listing = plist_doc(
        "<dict><key>AllDisksAndPartitions</key><array>\
         <dict><key>DeviceIdentifier</key><string>disk0</string></dict></array></dict>",
    );
    let apfs = plist_doc(
        "<dict><key>Containers</key><array><dict>\
         <key>ContainerReference</key><string>disk3</string>\
         <key>PhysicalStores</key><array><dict><key>DeviceIdentifier</key><string>disk0s2</string></dict></array>\
         </dict></array></dict>",
    );
    let disks = disk_ids_from_listing(&listing)
        .map(|ids| ids.into_iter().map(|id| physical_disk_from(id, Err("no dict".to_string()))).collect());
    let topo = build_topology(disks, containers_from_listing(&apfs)).unwrap();
    assert_eq!(topo.len(), 1);
    assert_eq!(topo[0].device, "disk0");
    assert_eq!(topo[0].containers.len(), 1);
    assert_eq!(topo[0].containers[0].container_ref, "disk3");
}
