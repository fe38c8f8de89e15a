use monitor_app::parse::{parse_ioreg_stat, parse_labeled_number};

const MEM_PRESSURE: &str = "\
System-wide memory free percentage: 42%
Pages free:          1000.
Pages active:        2000.
Pages inactive:      3000.
Pages speculative:   400.
Pages throttled:     0.
Pages wired down:    5000.
Pages purgeable:     60.
Pages used by compressor: 7000.
";

#[test]
fn parses_simple_field() {
    assert_eq!(parse_labeled_number(MEM_PRESSURE, "Pages active:"), Some(2000));
}

#[test]
fn parses_multiword_wired() {
    assert_eq!(parse_labeled_number(MEM_PRESSURE, "Pages wired down:"), Some(5000));
}

#[test]
fn parses_multiword_compressor() {
    assert_eq!(parse_labeled_number(MEM_PRESSURE, "Pages used by compressor:"), Some(7000));
}

#[test]
fn missing_key_is_none_not_zero() {
    assert_eq!(parse_labeled_number(MEM_PRESSURE, "Pages nonexistent:"), None);
}

#[test]
fn does_not_match_prefix_of_longer_key() {
    let text = "Pages wired down: 1234.\n";
    assert_eq!(parse_labeled_number(text, "Pages wired:"), None);
}

const PERF_STATS: &str = r#""PerformanceStatistics" = {"Device Utilization %"=27, "In use system memory (driver)"=0, "In use system memory"=1041350656, "Alloc system memory"=3850000000}"#;

#[test]
fn gpu_in_use_exact_match() {
    assert_eq!(parse_ioreg_stat(PERF_STATS, "In use system memory"), Some(1041350656));
}

#[test]
fn gpu_driver_key_is_separate() {
    assert_eq!(parse_ioreg_stat(PERF_STATS, "In use system memory (driver)"), Some(0));
}

#[test]
fn gpu_utilization() {
    assert_eq!(parse_ioreg_stat(PERF_STATS, "Device Utilization %"), Some(27));
}

#[test]
fn gpu_missing_key_none() {
    assert_eq!(parse_ioreg_stat(PERF_STATS, "No such key"), None);
}

#[test]
fn labeled_number_edge_cases() {
    // CRLF line endings are stripped like `str::lines` does.
    assert_eq!(parse_labeled_number("Pages free: 12.\r\nx", "Pages free:"), Some(12));
    // A key followed by nothing keeps looking on later lines.
    assert_eq!(parse_labeled_number("Pages free:\nPages free: 5.\n", "Pages free:"), Some(5));
    assert_eq!(parse_labeled_number("Pages free:   \n", "Pages free:"), None);
    // A key followed by a non-number keeps looking on later lines.
    assert_eq!(parse_labeled_number("Pages free: n/a\nPages free: 5", "Pages free:"), Some(5));
    // A leading '+' is accepted, overflow is not.
    assert_eq!(parse_labeled_number("k: +7", "k:"), Some(7));
    assert_eq!(parse_labeled_number("k: 18446744073709551616", "k:"), None);
    assert_eq!(parse_labeled_number("k: 18446744073709551615", "k:"), Some(u64::MAX));
    assert_eq!(parse_labeled_number("", "k:"), None);
}

#[test]
fn ioreg_stat_edge_cases() {
    // An entry without '=' ends the parse without a value.
    assert_eq!(parse_ioreg_stat("{a=1,b,c=3}", "c"), None);
    assert_eq!(parse_ioreg_stat("{a=1,b,c=3}", "b"), None);
    assert_eq!(parse_ioreg_stat("{a=1,b,c=3}", "a"), Some(1));
    assert_eq!(parse_ioreg_stat("{c=3,b}", "c"), Some(3));
    // Braces in the wrong order are malformed output, not a crash.
    assert_eq!(parse_ioreg_stat("}{", "k"), None);
    assert_eq!(parse_ioreg_stat("} a=1 {", "a"), None);
    assert_eq!(parse_ioreg_stat("{a=1,b,c=3}", "a"), Some(1));
    // No braces at all.
    assert_eq!(parse_ioreg_stat("a=1", "a"), None);
    // Quotes and spaces around keys are trimmed.
    assert_eq!(parse_ioreg_stat("{ \"x y\" = 42 }", "x y"), Some(42));
}
