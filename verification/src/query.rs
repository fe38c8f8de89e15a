//! Typed history query parameters with validation.
//!
//! The IPC boundary must not accept arbitrary i64 durations or unbounded
//! result sets; raw IPC arguments are turned into these validated types.

use crate::sampler::{snapshot_row_views, temperature_rows, DiskInfo, ObjectRef};
use crate::text::{str_eq, string_from};
use vstd::prelude::*;

verus! {

/// Maximum retention window ever served: 7 days.
pub const MAX_RANGE_SECS: i64 = 604_800;

/// Hard cap on points returned in one query, to bound IPC and render cost.
pub const MAX_POINTS: usize = 2_000;

#[derive(Debug, Clone, PartialEq)]
pub struct HistoryQuery {
    pub metric_id: String,
    pub object_id: String,
    pub start_secs: i64,
    pub end_secs: i64,
    pub max_points: usize,
}

#[derive(Debug, PartialEq)]
pub enum QueryError {
    UnknownMetric(String),
    NonPositiveDuration,
    RangeTooLarge,
    /// Reserved for an explicit end time; the duration-only path never builds it.
    EndBeforeStart,
    /// Reserved for an explicit point budget; the duration-only path never builds it.
    TooManyPoints { requested: usize, max: usize },
}

/// The metrics that are actually recorded.  Anything else is rejected
/// rather than silently answered with an empty series.
pub open spec fn known_metric(m: Seq<char>) -> bool {
    ||| m == "cpu.total_usage"@
    ||| m == "cpu.per_core"@
    ||| m == "memory.used_percent"@
    ||| m == "gpu.utilization"@
    ||| m == "disk.throughput"@
    ||| m == "disk.temperature"@
}

/// Is `metric_id` one of the recorded metrics?
pub fn is_known_metric(metric_id: &str) -> (b: bool)
    ensures
        b == known_metric(metric_id@),
{
    str_eq(metric_id, "cpu.total_usage") || str_eq(metric_id, "cpu.per_core") || str_eq(
        metric_id,
        "memory.used_percent",
    ) || str_eq(metric_id, "gpu.utilization") || str_eq(metric_id, "disk.throughput") || str_eq(
        metric_id,
        "disk.temperature",
    )
}

/// Validate a "last `duration_secs` seconds up to `now_secs`" history
/// request: the metric must be known, the duration positive and at most
/// seven days, and the start time representable.
pub fn validate_query(metric_id: &str, object_id: &str, duration_secs: i64, now_secs: i64) -> (r:
    Result<HistoryQuery, QueryError>)
    ensures
        match r {
            Ok(q) => {
                &&& known_metric(metric_id@)
                &&& 0 < duration_secs <= MAX_RANGE_SECS
                &&& now_secs - duration_secs >= i64::MIN
                &&& q.metric_id@ == metric_id@
                &&& q.object_id@ == object_id@
                &&& q.start_secs == now_secs - duration_secs
                &&& q.end_secs == now_secs
                &&& q.max_points == MAX_POINTS
            },
            Err(QueryError::UnknownMetric(m)) => !known_metric(metric_id@) && m@ == metric_id@,
            Err(QueryError::NonPositiveDuration) => known_metric(metric_id@) && duration_secs <= 0,
            Err(QueryError::RangeTooLarge) => {
                &&& known_metric(metric_id@)
                &&& duration_secs > 0
                &&& (duration_secs > MAX_RANGE_SECS || now_secs - duration_secs < i64::MIN)
            },
            Err(_) => false,
        },
{
    if !is_known_metric(metric_id) {
        return Err(QueryError::UnknownMetric(string_from(metric_id)));
    }
    if duration_secs <= 0 {
        return Err(QueryError::NonPositiveDuration);
    }
    if duration_secs > MAX_RANGE_SECS {
        return Err(QueryError::RangeTooLarge);
    }
    // Checked subtraction: no underflow on extreme inputs.
    let start = match now_secs.checked_sub(duration_secs) {
        Some(s) => s,
        None => {
            return Err(QueryError::RangeTooLarge);
        },
    };
    Ok(
        HistoryQuery {
            metric_id: string_from(metric_id),
            object_id: string_from(object_id),
            start_secs: start,
            end_secs: now_secs,
            max_points: MAX_POINTS,
        },
    )
}

proof fn lemma_temperature_rows_are_known(disks: Seq<DiskInfo>)
    ensures
        forall|i: int|
            0 <= i < temperature_rows(disks).len() ==> known_metric(
                (#[trigger] temperature_rows(disks)[i]).metric_id,
            ),
    decreases disks.len(),
{
    if disks.len() > 0 {
        lemma_temperature_rows_are_known(disks.drop_last());
    }
}

/// Every metric a snapshot records can be queried: the metric of each row
/// [`crate::sampler::snapshot_rows`] writes is a known metric, so
/// [`validate_query`] accepts it with any duration of one second to seven
/// days whose start is representable.
pub proof fn law_recorded_metrics_are_queryable(
    core_count: nat,
    throughputs: Seq<ObjectRef>,
    disks: Seq<DiskInfo>,
)
    ensures
        forall|i: int|
            0 <= i < snapshot_row_views(core_count, throughputs, disks).len() ==> known_metric(
                (#[trigger] snapshot_row_views(core_count, throughputs, disks)[i]).metric_id,
            ),
{
    lemma_temperature_rows_are_known(disks);
    let rows = snapshot_row_views(core_count, throughputs, disks);
    let n1 = 3 + core_count;
    let n2 = n1 + throughputs.len();
    assert forall|i: int| 0 <= i < rows.len() implies known_metric((#[trigger] rows[i]).metric_id) by {
        if i >= n2 {
            assert(rows[i] == temperature_rows(disks)[i - n2]);
        }
    }
}

/// The known metrics are exactly the metrics a snapshot records: every
/// known metric is the metric of some row of some snapshot, and (see
/// [`law_recorded_metrics_are_queryable`]) every recorded metric is known.
pub proof fn law_known_metrics_are_the_recorded_ones(m: Seq<char>)
    ensures
        known_metric(m) <==> exists|core_count: nat, throughputs: Seq<ObjectRef>, disks: Seq<DiskInfo>, i: int|
            0 <= i < snapshot_row_views(core_count, throughputs, disks).len()
                && (#[trigger] snapshot_row_views(core_count, throughputs, disks)[i]).metric_id == m,
{
    if known_metric(m) {
        let t: ObjectRef = vstd::pervasive::arbitrary();
        let d = DiskInfo { temperature_kelvin: Some(300u64), ..vstd::pervasive::arbitrary() };
        let none_t = Seq::<ObjectRef>::empty();
        let none_d = Seq::<DiskInfo>::empty();
        if m == "cpu.total_usage"@ {
            assert(snapshot_row_views(0, none_t, none_d)[0].metric_id == m);
        } else if m == "memory.used_percent"@ {
            assert(snapshot_row_views(0, none_t, none_d)[1].metric_id == m);
        } else if m == "gpu.utilization"@ {
            assert(snapshot_row_views(0, none_t, none_d)[2].metric_id == m);
        } else if m == "cpu.per_core"@ {
            assert(snapshot_row_views(1, none_t, none_d)[3].metric_id == m);
        } else if m == "disk.throughput"@ {
            assert(snapshot_row_views(0, seq![t], none_d)[3].metric_id == m);
        } else {
            let ds = seq![d];
            assert(ds.drop_last() =~= none_d);
            assert(temperature_rows(ds).len() == 1);
            assert(snapshot_row_views(0, none_t, ds)[3].metric_id == m);
        }
    }
    if exists|core_count: nat, throughputs: Seq<ObjectRef>, disks: Seq<DiskInfo>, i: int|
        0 <= i < snapshot_row_views(core_count, throughputs, disks).len()
            && (#[trigger] snapshot_row_views(core_count, throughputs, disks)[i]).metric_id == m {
        let (c, t, d, i) = choose|core_count: nat, throughputs: Seq<ObjectRef>, disks: Seq<DiskInfo>, i: int|
            0 <= i < snapshot_row_views(core_count, throughputs, disks).len()
                && (#[trigger] snapshot_row_views(core_count, throughputs, disks)[i]).metric_id == m;
        law_recorded_metrics_are_queryable(c, t, d);
    }
}

} // verus!
