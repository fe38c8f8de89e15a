use monitor_app::query::{validate_query, QueryError, MAX_POINTS, MAX_RANGE_SECS};

const NOW: i64 = 1_800_000_000;

#[test]
fn valid_query_ok() {
    let q = validate_query("cpu.total_usage", "system", 3600, NOW).unwrap();
    assert_eq!(q.start_secs, NOW - 3600);
    assert_eq!(q.end_secs, NOW);
    assert_eq!(q.max_points, MAX_POINTS);
}

#[test]
fn rejects_unknown_metric() {
    assert!(matches!(
        validate_query("cpu.hacked", "system", 60, NOW),
        Err(QueryError::UnknownMetric(_))
    ));
}

#[test]
fn rejects_zero_and_negative() {
    assert_eq!(
        validate_query("cpu.total_usage", "system", 0, NOW),
        Err(QueryError::NonPositiveDuration)
    );
    assert_eq!(
        validate_query("cpu.total_usage", "system", -500, NOW),
        Err(QueryError::NonPositiveDuration)
    );
}

#[test]
fn rejects_over_seven_days() {
    assert_eq!(
        validate_query("cpu.total_usage", "system", MAX_RANGE_SECS + 1, NOW),
        Err(QueryError::RangeTooLarge)
    );
    assert!(validate_query("cpu.total_usage", "system", MAX_RANGE_SECS, NOW).is_ok());
}

#[test]
fn rejects_extreme_i64_without_overflow() {
    assert!(matches!(
        validate_query("cpu.total_usage", "system", i64::MIN, NOW),
        Err(QueryError::NonPositiveDuration) | Err(QueryError::RangeTooLarge)
    ));
}

#[test]
fn unknown_metric_carries_its_name_and_start_underflow_is_rejected() {
    assert_eq!(
        validate_query("gpu.hacked", "gpu0", 60, NOW),
        Err(QueryError::UnknownMetric("gpu.hacked".to_string()))
    );
    assert_eq!(
        validate_query("disk.temperature", "dev-00000001", 60, i64::MIN + 10),
        Err(QueryError::RangeTooLarge)
    );
    let q = validate_query("disk.throughput", "dev-00000002", 1, NOW).unwrap();
    assert_eq!(q.metric_id, "disk.throughput");
    assert_eq!(q.object_id, "dev-00000002");
    assert_eq!(q.end_secs - q.start_secs, 1);
}
