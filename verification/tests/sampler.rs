use monitor_app::cmd::CmdOutput;
use monitor_app::sampler::{
    cadence_interval_ms, device_uid_for, display_name, display_name_or_unknown, gpu_name, disk_infos, effective_page_size, gpu_stats_from_ioreg,
    iostat_mb_columns, memory_figures, page_counts, parse_memsize, read_sysctl_text, read_sysctl_u32,
    remaining_sleep_nanos, set_window_visible, snapshot_rows, DiskInfo, ObjectRef, PageCounts,
    RowValue, SchedulerState,
};
use monitor_app::json_doc::JsonValue;
use monitor_app::settings::Settings;
use monitor_app::storage::PhysicalDisk;
use std::collections::HashMap;

/// Reads the MB columns as numbers, the way the caller does.
fn cumulative_mb(stdout: &str) -> HashMap<String, f64> {
    let mut m = HashMap::new();
    for (name, mb) in iostat_mb_columns(stdout) {
        if let Ok(x) = mb.parse::<f64>() {
            m.insert(name, x);
        }
    }
    m
}

const TWO_DISKS: &str = "              disk0               disk1 \n    KB/t xfrs   MB     KB/t xfrs   MB \n    6.89 75957 510.89  5.00 100    20.5 \n";

#[test]
fn parses_cumulative_mb_per_device() {
    let m = cumulative_mb(TWO_DISKS);
    assert_eq!(m.get("disk0"), Some(&510.89));
    assert_eq!(m.get("disk1"), Some(&20.5));
}

#[test]
fn handles_single_disk_and_missing_columns() {
    let one = "              disk0 \n    KB/t xfrs   MB \n    6.89 75957 510.89 \n";
    let m = cumulative_mb(one);
    assert_eq!(m.get("disk0"), Some(&510.89));
    assert_eq!(m.len(), 1);
    assert!(cumulative_mb("").is_empty());
    assert!(cumulative_mb("garbage\n").is_empty());
}

#[test]
fn iostat_columns_are_text_pairs() {
    let cols = iostat_mb_columns(TWO_DISKS);
    assert_eq!(
        cols,
        vec![
            ("disk0".to_string(), "510.89".to_string()),
            ("disk1".to_string(), "20.5".to_string())
        ]
    );
    // A data line short of a device's three columns drops that device.
    let short = "disk0 disk1\nKB/t xfrs MB KB/t xfrs MB\n1 2 3 4 5\n";
    assert_eq!(iostat_mb_columns(short), vec![("disk0".to_string(), "3".to_string())]);
}

#[test]
fn iostat_uses_last_nonblank_line() {
    let s = "disk0\nKB/t xfrs MB\n1 2 3\n4 5 6\n\n   \n";
    assert_eq!(iostat_mb_columns(s), vec![("disk0".to_string(), "6".to_string())]);
}

#[test]
fn window_visibility_selects_cadence() {
    let mut st = SchedulerState::new();
    assert!(st.window_visible);
    let s = Settings::default();
    assert_eq!(cadence_interval_ms(&s, st.window_visible), s.foreground_interval_ms);
    set_window_visible(&mut st, false);
    assert!(!st.window_visible);
    assert_eq!(cadence_interval_ms(&s, st.window_visible), s.background_interval_ms);
}

#[test]
fn sleep_is_anchored_to_deadline() {
    assert_eq!(remaining_sleep_nanos(1000, 300, true), 700);
    assert_eq!(remaining_sleep_nanos(1000, 1000, true), 0);
    assert_eq!(remaining_sleep_nanos(1000, 5000, true), 0);
    assert_eq!(remaining_sleep_nanos(1000, 300, false), 1000);
}

#[test]
fn sysctl_value_is_trimmed_and_checked() {
    let ok = |s: &str, success: bool| {
        Ok(CmdOutput { status_success: success, stdout: s.as_bytes().to_vec(), timed_out: false })
    };
    assert_eq!(read_sysctl_u32(ok(" 16384\n", true)), Some(16384));
    assert_eq!(read_sysctl_u32(ok("16384\n", false)), None);
    assert_eq!(read_sysctl_u32(ok("abc", true)), None);
    assert_eq!(read_sysctl_u32(ok("4294967296", true)), None);
    assert_eq!(read_sysctl_u32(Err("spawn failed".to_string())), None);
}

#[test]
fn page_size_falls_back_to_16k() {
    assert_eq!(effective_page_size(Some(4096)), 4096);
    assert_eq!(effective_page_size(Some(0)), 16384);
    assert_eq!(effective_page_size(None), 16384);
}

#[test]
fn memsize_must_be_positive_number() {
    assert_eq!(parse_memsize(Ok("17179869184\n".to_string())), Ok(17179869184));
    assert_eq!(parse_memsize(Ok("0\n".to_string())), Err("hw.memsize is zero".to_string()));
    assert_eq!(parse_memsize(Ok("lots".to_string())), Err("hw.memsize not a number".to_string()));
    assert_eq!(parse_memsize(Err("boom".to_string())), Err("boom".to_string()));
}

const MEM_PRESSURE: &str = "\
System-wide memory free percentage: 42%
Pages free:          1000.
Pages active:        2000.
Pages inactive:      3000.
Pages speculative:   400.
Pages throttled:     0.
Pages wired down:    5000.
Pages purgeable:     60.
Pages used by compressor: 7000.
";

fn counts() -> PageCounts {
    match page_counts(MEM_PRESSURE) {
        Ok(c) => c,
        Err(e) => panic!("{}", e),
    }
}

#[test]
fn page_counts_reads_all_labels() {
    let c = counts();
    assert_eq!(
        (c.free, c.active, c.inactive, c.wired, c.compressor, c.speculative, c.purgeable),
        (1000, 2000, 3000, 5000, 7000, 400, 60)
    );
}

#[test]
fn page_counts_reports_first_missing_label() {
    let text = "Pages free: 1.\nPages active: 2.\n";
    match page_counts(text) {
        Ok(_) => panic!("inactive is missing"),
        Err(e) => assert_eq!(e, "memory_pressure missing 'Pages inactive:'"),
    }
}

#[test]
fn memory_figures_multiply_by_page_size() {
    let m = memory_figures(1 << 34, 16384, &counts()).expect("fits");
    assert_eq!(m.total_bytes, 1 << 34);
    assert_eq!(m.used_bytes, (2000 + 5000 + 7000) * 16384);
    assert_eq!(m.available_bytes, (1000 + 3000 + 400 + 60) * 16384);
}

#[test]
fn memory_figures_overflow_is_none() {
    let mut c = counts();
    c.active = u64::MAX / 2;
    assert!(memory_figures(1, 16384, &c).is_none());
}

const IOREG: &str = "  | |   \"PerformanceStatistics\" = {\"Device Utilization %\"=27,\"In use system memory\"=1041350656,\"In use system memory (driver)\"=0,\"Alloc system memory\"=2000000000}\n";

#[test]
fn gpu_stats_read_from_block() {
    let g = gpu_stats_from_ioreg(IOREG).ok().expect("stats");
    assert_eq!(g.utilization, 27);
    assert_eq!(g.memory_used_bytes, 1041350656);
    assert_eq!(g.memory_allocated_bytes, 2000000000);
}

#[test]
fn gpu_stats_errors() {
    assert_eq!(gpu_stats_from_ioreg("nothing").err(), Some("no PerformanceStatistics block".to_string()));
    assert_eq!(
        gpu_stats_from_ioreg("\"PerformanceStatistics\" = {\"Device Utilization %\"=1").err(),
        Some("unterminated PerformanceStatistics block".to_string())
    );
    assert_eq!(
        gpu_stats_from_ioreg("\"PerformanceStatistics\" = {\"Device Utilization %\"=1}").err(),
        Some("missing In use system memory".to_string())
    );
}

fn physical(device: &str, uid: Option<&str>, temp: Option<u64>) -> PhysicalDisk {
    PhysicalDisk {
        device: device.to_string(),
        name: "APPLE SSD".to_string(),
        size_bytes: 500_000_000_000,
        smart_status: "Verified".to_string(),
        temperature_kelvin: temp,
        power_on_hours: Some(10),
        containers: Vec::new(),
        device_uid: uid.map(|u| u.to_string()),
        generation: 2,
    }
}

#[test]
fn disk_list_mirrors_topology() {
    let d = disk_infos(&vec![physical("disk0", Some("d-1"), Some(310)), physical("disk4", None, None)]);
    assert_eq!(d.len(), 2);
    assert_eq!(d[0].device, "disk0");
    assert_eq!(d[0].device_uid, "d-1");
    assert_eq!(d[0].generation, 2);
    assert_eq!(d[0].temperature_kelvin, Some(310));
    assert_eq!(d[1].device_uid, "");
    assert_eq!(device_uid_for(&d, "disk0"), Some("d-1".to_string()));
    assert_eq!(device_uid_for(&d, "disk9"), None);
}

fn info(device: &str, uid: &str, temp: Option<u64>) -> DiskInfo {
    DiskInfo {
        device: device.to_string(),
        device_uid: uid.to_string(),
        generation: 0,
        name: "SSD".to_string(),
        size_bytes: 1,
        smart_status: "Verified".to_string(),
        temperature_kelvin: temp,
        power_on_hours: None,
    }
}

#[test]
fn snapshot_rows_in_write_order() {
    let tps = vec![
        ObjectRef { device: "disk0".to_string(), device_uid: "d-1".to_string() },
        ObjectRef { device: "disk2".to_string(), device_uid: String::new() },
    ];
    let disks = vec![info("disk0", "d-1", Some(300)), info("disk2", "", None), info("disk3", "", Some(310))];
    let rows = snapshot_rows(2, &tps, &disks);
    let ids: Vec<(String, String, String)> =
        rows.iter().map(|r| (r.metric_id.clone(), r.object_id.clone(), r.unit.clone())).collect();
    let expect = [
        ("cpu.total_usage", "system", "%"),
        ("memory.used_percent", "system", "%"),
        ("gpu.utilization", "gpu0", "%"),
        ("cpu.per_core", "core0", "%"),
        ("cpu.per_core", "core1", "%"),
        ("disk.throughput", "d-1", "MB/s"),
        ("disk.throughput", "disk2", "MB/s"),
        ("disk.temperature", "d-1", "°C"),
        ("disk.temperature", "disk3", "°C"),
    ];
    let expect: Vec<(String, String, String)> =
        expect.iter().map(|(a, b, c)| (a.to_string(), b.to_string(), c.to_string())).collect();
    assert_eq!(ids, expect);
    assert!(rows[4].value == RowValue::CoreUsage(1));
    assert!(rows[6].value == RowValue::Throughput(1));
    assert!(rows[8].value == RowValue::DiskTemperature(2));
}

#[test]
fn sysctl_text_is_trimmed_lossy_output() {
    let out = |b: &[u8], success: bool| Ok(CmdOutput { status_success: success, stdout: b.to_vec(), timed_out: false });
    assert_eq!(read_sysctl_text(out(b"  Apple M4\n", true)), Some("Apple M4".to_string()));
    assert_eq!(read_sysctl_text(out(b"Apple M4\n", false)), None);
    assert_eq!(read_sysctl_text(out(b"M\xff4", true)), Some("M\u{FFFD}4".to_string()));
    assert_eq!(read_sysctl_text(Err("spawn".to_string())), None);
}

fn profiler(json: &str) -> Result<CmdOutput, String> {
    Ok(CmdOutput { status_success: true, stdout: json.as_bytes().to_vec(), timed_out: false })
}

#[test]
fn gpu_name_from_profiler_json() {
    assert_eq!(gpu_name(profiler("{\"SPDisplaysDataType\":[{\"_name\":\"Apple M4\",\"x\":1}]}")), "Apple M4");
    assert_eq!(gpu_name(profiler("{\"SPDisplaysDataType\":[]}")), "Unknown");
    assert_eq!(gpu_name(profiler("{\"SPDisplaysDataType\":[{\"_name\":7}]}")), "Unknown");
    assert_eq!(gpu_name(profiler("not json")), "Unknown");
    assert_eq!(gpu_name(Err("spawn".to_string())), "Unknown");
    let timed_out = CmdOutput { status_success: false, stdout: b"{}".to_vec(), timed_out: true };
    assert_eq!(gpu_name(Ok(timed_out)), "Unknown");
    assert_eq!(display_name_or_unknown(Some("GPU".to_string())), "GPU");
    assert_eq!(display_name_or_unknown(None), "Unknown");
}

#[test]
fn display_name_reads_the_first_adapter() {
    let adapter = |name: JsonValue| JsonValue::Object(vec![("_name".to_string(), name)]);
    let doc = |first: Vec<JsonValue>| JsonValue::Object(vec![
        ("other".to_string(), JsonValue::Other),
        ("SPDisplaysDataType".to_string(), JsonValue::Array(first)),
    ]);
    let d = doc(vec![adapter(JsonValue::Text("Apple M4".to_string())), adapter(JsonValue::Text("eGPU".to_string()))]);
    assert_eq!(display_name(Some(&d)), Some("Apple M4".to_string()));
    assert_eq!(display_name(Some(&doc(vec![adapter(JsonValue::Other)]))), None);
    assert_eq!(display_name(Some(&doc(vec![]))), None);
    assert_eq!(display_name(Some(&JsonValue::Array(vec![d]))), None);
    assert_eq!(display_name(None), None);
}
