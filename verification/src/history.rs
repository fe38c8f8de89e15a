//! Tiered metrics history: the time arithmetic.
//!
//! Retention tiers: raw samples for the last hour, 10 s buckets up to 24 h,
//! 60 s buckets up to 7 days.  The database work runs elsewhere; this
//! module decides which rows each aggregation pass may migrate (only whole,
//! closed buckets), which tier answers which part of a query, and how a
//! query result is thinned to its point cap.  All times are Unix seconds.

use vstd::prelude::*;

verus! {

/// Raw retention before aggregation to 10 s buckets.
pub const RAW_TTL_SECS: i64 = 3_600;

/// 10 s bucket retention before aggregation to 60 s buckets.
pub const BUCKET_10S_TTL_SECS: i64 = 86_400;

/// 60 s bucket (and pre-aggregation raw) retention: the full 7-day window.
pub const RETENTION_SECS: i64 = 604_800;

/// Disk-budget stop-loss: past this many bytes new history writes stop.
pub const DB_BUDGET_BYTES: i64 = 536_870_912;

/// Fixed reference time so tier boundaries are deterministic in tests.
pub fn test_now() -> (t: i64)
    ensures
        t == 1_800_000_000,
{
    1_800_000_000
}

/// Counts from one aggregation and retention pass.
#[derive(Debug, Default)]
pub struct AggregateReport {
    pub buckets_10s_written: usize,
    pub buckets_60s_written: usize,
    pub raw_deleted: usize,
    pub buckets_10s_deleted: usize,
    pub raw_expired: usize,
    pub buckets_expired: usize,
    /// Rows past the raw TTL whose 10 s bucket is not yet closed.  Zero with
    /// the aligned cutoff; anything else signals a boundary bug or clock skew.
    pub pending_raw_samples: i64,
    /// 10 s buckets past the 24 h TTL whose 60 s window is not yet closed.
    pub pending_buckets_10s: i64,
}

/// Integer division rounding toward zero, as Rust and SQLite divide.
pub open spec fn trunc_div(x: int, d: int) -> int {
    if x >= 0 {
        x / d
    } else {
        -((-x) / d)
    }
}

/// `x` aligned down to a multiple of `width` the way the aggregation query
/// writes it, `(x / width) * width` with truncating division.
pub open spec fn align(x: int, width: int) -> int {
    trunc_div(x, width) * width
}

/// The time boundaries of one aggregation pass at `now`.
pub struct AggregationCutoffs {
    /// Raw samples strictly before this are folded into 10 s buckets.
    pub raw_cutoff: i64,
    /// Raw samples strictly before this are past the raw TTL.
    pub raw_ttl_boundary: i64,
    /// 10 s buckets starting strictly before this are folded into 60 s buckets.
    pub bucket_10s_cutoff: i64,
    /// 10 s buckets starting strictly before this are past their TTL.
    pub bucket_10s_ttl_boundary: i64,
    /// Anything strictly before this is dropped regardless.
    pub retention_cutoff: i64,
}

/// No subtraction in the cutoffs overflows.
pub open spec fn cutoffs_representable(now: i64) -> bool {
    now - RETENTION_SECS >= i64::MIN
}

/// The boundaries for a pass at `now`: the raw cutoff is `now - RAW_TTL`
/// aligned to 10 s, the 10 s cutoff is `now - BUCKET_10S_TTL` aligned to
/// 60 s, so only buckets whose whole window has aged out are migrated.
pub fn aggregation_cutoffs(now: i64) -> (c: AggregationCutoffs)
    requires
        cutoffs_representable(now),
    ensures
        c.raw_ttl_boundary == now - RAW_TTL_SECS,
        c.raw_cutoff == align(now - RAW_TTL_SECS, 10),
        c.bucket_10s_ttl_boundary == now - BUCKET_10S_TTL_SECS,
        c.bucket_10s_cutoff == align(now - BUCKET_10S_TTL_SECS, 60),
        c.retention_cutoff == now - RETENTION_SECS,
{
    let raw_ttl_boundary = now - RAW_TTL_SECS;
    let b10_ttl_boundary = now - BUCKET_10S_TTL_SECS;
    AggregationCutoffs {
        raw_cutoff: (raw_ttl_boundary / 10) * 10,
        raw_ttl_boundary,
        bucket_10s_cutoff: (b10_ttl_boundary / 60) * 60,
        bucket_10s_ttl_boundary: b10_ttl_boundary,
        retention_cutoff: now - RETENTION_SECS,
    }
}

/// A source row is migrated only inside a closed bucket: when the TTL
/// boundary is not negative and a timestamp `t >= 0` lies before the aligned
/// cutoff, the whole `width`-second bucket containing `t` ends no later than
/// the cutoff, which is itself no later than the TTL boundary.  So no
/// still-raw row of a migrated bucket can remain to be recomputed later.
pub proof fn law_migrated_buckets_are_closed(boundary: int, width: int, t: int)
    requires
        boundary >= 0,
        width > 0,
        0 <= t < align(boundary, width),
    ensures
        align(t, width) + width <= align(boundary, width),
        align(boundary, width) <= boundary,
        align(boundary, width) % width == 0,
{
    let q = boundary / width;
    let s = t / width;
    assert(align(boundary, width) == q * width);
    assert(align(t, width) == s * width);
    assert(q * width <= boundary) by (nonlinear_arith)
        requires
            q == boundary / width,
            width > 0,
            boundary >= 0,
    ;
    assert((q * width) % width == 0) by (nonlinear_arith)
        requires
            width > 0,
    ;
    assert(s * width <= t) by (nonlinear_arith)
        requires
            s == t / width,
            width > 0,
            t >= 0,
    ;
    assert(s < q) by (nonlinear_arith)
        requires
            s * width <= t,
            t < q * width,
            width > 0,
    ;
    assert(s * width + width <= q * width) by (nonlinear_arith)
        requires
            s < q,
            width > 0,
    ;
}

/// Which rows of each tier a query for `[start, end)` reads.  A pass moves
/// rows to the next tier and deletes their sources in one transaction, so
/// every stored point sits in exactly one tier; each tier is therefore read
/// over the whole range.  Rows that no pass has aggregated yet stay visible,
/// and a bucket is read whenever its window meets the range, even when it
/// starts before `start`.
pub struct TierWindows {
    /// Range `[lo, hi)` of the `bucket_start` of the 60 s buckets read.
    pub coarse: (i64, i64),
    /// Range `[lo, hi)` of the `bucket_start` of the 10 s buckets read.
    pub fine: (i64, i64),
    /// Range `[lo, hi)` of the `timestamp` of the raw samples read.
    pub raw: (i64, i64),
}

/// Does the `width`-second window starting at `bucket_start` share a
/// moment with `[start, end)`?
pub open spec fn window_meets(bucket_start: int, width: int, start: int, end: int) -> bool {
    bucket_start < end && bucket_start + width > start
}

/// Is `x` a value an `i64` column can hold?
pub open spec fn is_i64(x: int) -> bool {
    i64::MIN <= x <= i64::MAX
}

/// The earliest bucket start whose `width`-second window reaches `start`.
fn earliest_reaching(start: i64, width: i64) -> (lo: i64)
    requires
        1 <= width,
    ensures
        forall|b: int| is_i64(b) ==> (lo <= b <==> b + width > start),
{
    if start >= i64::MIN + (width - 1) {
        start - (width - 1)
    } else {
        i64::MIN
    }
}

/// The rows each tier contributes to a query for `[start, end)`: a bucket
/// exactly when its window meets the range, a raw sample exactly when its
/// timestamp lies in it.
pub fn tier_windows(start: i64, end: i64) -> (w: TierWindows)
    ensures
        forall|b: int|
            #![trigger window_meets(b, 60, start as int, end as int)]
            is_i64(b) ==> (w.coarse.0 <= b < w.coarse.1 <==> window_meets(b, 60, start as int, end as int)),
        forall|b: int|
            #![trigger window_meets(b, 10, start as int, end as int)]
            is_i64(b) ==> (w.fine.0 <= b < w.fine.1 <==> window_meets(b, 10, start as int, end as int)),
        w.raw == (start, end),
{
    TierWindows {
        coarse: (earliest_reaching(start, 60), end),
        fine: (earliest_reaching(start, 10), end),
        raw: (start, end),
    }
}

/// Are the points in time order (oldest first)?
pub open spec fn time_ordered<T>(s: Seq<(i64, T)>) -> bool {
    forall|i: int, j: int| 0 <= i <= j < s.len() ==> #[trigger] s[i].0 <= #[trigger] s[j].0
}

/// Two point lists merged oldest first; on equal times the left one first.
pub open spec fn merged<T>(a: Seq<(i64, T)>, b: Seq<(i64, T)>) -> Seq<(i64, T)>
    decreases a.len() + b.len(),
{
    if a.len() == 0 {
        b
    } else if b.len() == 0 {
        a
    } else if a[0].0 <= b[0].0 {
        seq![a[0]] + merged(a.drop_first(), b)
    } else {
        seq![b[0]] + merged(a, b.drop_first())
    }
}

/// Merge two point lists by time.
pub fn merge_by_time<T: Copy>(a: Vec<(i64, T)>, b: Vec<(i64, T)>) -> (r: Vec<(i64, T)>)
    ensures
        r@ == merged(a@, b@),
{
    let mut out: Vec<(i64, T)> = Vec::new();
    let mut i: usize = 0;
    let mut j: usize = 0;
    assert(a@.skip(0) =~= a@ && b@.skip(0) =~= b@ && Seq::<(i64, T)>::empty() + merged(a@, b@)
        =~= merged(a@, b@));
    while i < a.len() || j < b.len()
        invariant
            i <= a@.len(),
            j <= b@.len(),
            merged(a@, b@) == out@ + merged(a@.skip(i as int), b@.skip(j as int)),
        decreases a@.len() - i + b@.len() - j,
    {
        let ghost ra = a@.skip(i as int);
        let ghost rb = b@.skip(j as int);
        if j >= b.len() || (i < a.len() && a[i].0 <= b[j].0) {
            proof {
                assert(ra[0] == a@[i as int]);
                assert(ra.drop_first() =~= a@.skip(i + 1));
                if rb.len() == 0 {
                    assert(merged(ra, rb) == ra);
                    assert(ra =~= seq![ra[0]] + ra.drop_first());
                    assert(merged(ra.drop_first(), rb) == ra.drop_first());
                }
            }
            out.push(a[i]);
            proof {
                assert(out@ + merged(a@.skip(i + 1), rb) =~= out@.drop_last() + (seq![a@[i as int]]
                    + merged(a@.skip(i + 1), rb)));
            }
            i = i + 1;
        } else {
            proof {
                assert(rb[0] == b@[j as int]);
                assert(rb.drop_first() =~= b@.skip(j + 1));
                if ra.len() == 0 {
                    assert(merged(ra, rb) == rb);
                    assert(rb =~= seq![rb[0]] + rb.drop_first());
                    assert(merged(ra, rb.drop_first()) == rb.drop_first());
                }
            }
            out.push(b[j]);
            proof {
                assert(out@ + merged(ra, b@.skip(j + 1)) =~= out@.drop_last() + (seq![b@[j as int]]
                    + merged(ra, b@.skip(j + 1))));
            }
            j = j + 1;
        }
    }
    proof {
        assert(a@.skip(i as int) =~= Seq::<(i64, T)>::empty());
        assert(b@.skip(j as int) =~= Seq::<(i64, T)>::empty());
        assert(out@ + Seq::<(i64, T)>::empty() =~= out@);
    }
    out
}

/// Every point of `merged(a, b)` is at least as late as `t` when every
/// point of `a` and of `b` is.
proof fn lemma_merged_not_before<T>(a: Seq<(i64, T)>, b: Seq<(i64, T)>, t: int)
    requires
        forall|k: int| 0 <= k < a.len() ==> t <= #[trigger] a[k].0,
        forall|k: int| 0 <= k < b.len() ==> t <= #[trigger] b[k].0,
    ensures
        forall|k: int| 0 <= k < merged(a, b).len() ==> t <= #[trigger] merged(a, b)[k].0,
    decreases a.len() + b.len(),
{
    if a.len() > 0 && b.len() > 0 {
        if a[0].0 <= b[0].0 {
            lemma_merged_not_before(a.drop_first(), b, t);
            assert forall|k: int| 0 <= k < merged(a, b).len() implies t <= #[trigger] merged(a, b)[k].0 by {
                if k > 0 {
                    assert(merged(a, b)[k] == merged(a.drop_first(), b)[k - 1]);
                }
            }
        } else {
            lemma_merged_not_before(a, b.drop_first(), t);
            assert forall|k: int| 0 <= k < merged(a, b).len() implies t <= #[trigger] merged(a, b)[k].0 by {
                if k > 0 {
                    assert(merged(a, b)[k] == merged(a, b.drop_first())[k - 1]);
                }
            }
        }
    }
}

/// Merging loses and invents no point, and two time-ordered lists merge
/// into a time-ordered list: a query result holds exactly the stored points
/// of every tier, oldest first.
pub proof fn law_merge_keeps_every_point_in_time_order<T>(a: Seq<(i64, T)>, b: Seq<(i64, T)>)
    ensures
        merged(a, b).to_multiset() == a.to_multiset().add(b.to_multiset()),
        time_ordered(a) && time_ordered(b) ==> time_ordered(merged(a, b)),
    decreases a.len() + b.len(),
{
    broadcast use vstd::seq_lib::lemma_multiset_commutative;
    broadcast use vstd::multiset::group_multiset_axioms;

    if a.len() == 0 {
        assert(a.to_multiset() =~= vstd::multiset::Multiset::empty()) by {
            vstd::seq_lib::to_multiset_len(a);
            vstd::multiset::lemma_multiset_empty_len(a.to_multiset());
        }
        assert(merged(a, b).to_multiset() =~= a.to_multiset().add(b.to_multiset()));
    } else if b.len() == 0 {
        assert(b.to_multiset() =~= vstd::multiset::Multiset::empty()) by {
            vstd::seq_lib::to_multiset_len(b);
            vstd::multiset::lemma_multiset_empty_len(b.to_multiset());
        }
        assert(merged(a, b).to_multiset() =~= a.to_multiset().add(b.to_multiset()));
    } else if a[0].0 <= b[0].0 {
        let rest = merged(a.drop_first(), b);
        law_merge_keeps_every_point_in_time_order(a.drop_first(), b);
        assert(a =~= seq![a[0]] + a.drop_first());
        assert(merged(a, b).to_multiset() =~= a.to_multiset().add(b.to_multiset())) by {
            assert((seq![a[0]] + rest).to_multiset() =~= seq![a[0]].to_multiset().add(rest.to_multiset()));
            assert((seq![a[0]] + a.drop_first()).to_multiset() =~= seq![a[0]].to_multiset().add(
                a.drop_first().to_multiset(),
            ));
        }
        if time_ordered(a) && time_ordered(b) {
            assert(time_ordered(a.drop_first()));
            lemma_merged_not_before(a.drop_first(), b, a[0].0 as int);
            let m = merged(a, b);
            assert forall|i: int, j: int| 0 <= i <= j < m.len() implies #[trigger] m[i].0 <= #[trigger] m[j].0 by {
                if i > 0 {
                    assert(m[i] == rest[i - 1]);
                    assert(m[j] == rest[j - 1]);
                } else if j > 0 {
                    assert(m[j] == rest[j - 1]);
                }
            }
        }
    } else {
        let rest = merged(a, b.drop_first());
        law_merge_keeps_every_point_in_time_order(a, b.drop_first());
        assert(b =~= seq![b[0]] + b.drop_first());
        assert(merged(a, b).to_multiset() =~= a.to_multiset().add(b.to_multiset())) by {
            assert((seq![b[0]] + rest).to_multiset() =~= seq![b[0]].to_multiset().add(rest.to_multiset()));
            assert((seq![b[0]] + b.drop_first()).to_multiset() =~= seq![b[0]].to_multiset().add(
                b.drop_first().to_multiset(),
            ));
        }
        if time_ordered(a) && time_ordered(b) {
            assert(time_ordered(b.drop_first()));
            lemma_merged_not_before(a, b.drop_first(), b[0].0 as int);
            let m = merged(a, b);
            assert forall|i: int, j: int| 0 <= i <= j < m.len() implies #[trigger] m[i].0 <= #[trigger] m[j].0 by {
                if i > 0 {
                    assert(m[i] == rest[i - 1]);
                    assert(m[j] == rest[j - 1]);
                } else if j > 0 {
                    assert(m[j] == rest[j - 1]);
                }
            }
        }
    }
}

/// The stride by which an over-long result is thinned to `max_points`.
pub open spec fn stride_for(len: nat, max_points: nat) -> nat {
    ((len + max_points - 1) / (max_points as int)) as nat
}

/// The points of a result thinned to its cap: unchanged when within the
/// cap, otherwise every `stride`-th point starting with the first.
pub open spec fn thinned<T>(points: Seq<T>, max_points: nat) -> Seq<T> {
    if points.len() <= max_points {
        points
    } else {
        let stride = stride_for(points.len(), max_points);
        Seq::new(
            ((points.len() - 1) / (stride as int) + 1) as nat,
            |k: int| points[k * stride],
        )
    }
}

/// Thinning is possible: a zero cap panics in the stride division unless
/// there is nothing to thin.
pub open spec fn thinnable(len: nat, max_points: nat) -> bool {
    &&& max_points == 0 ==> len == 0
    &&& len + max_points <= usize::MAX
}

proof fn lemma_stride_facts(len: nat, max: nat)
    requires
        max > 0,
        len > max,
    ensures
        stride_for(len, max) >= 1,
        stride_for(len, max) * max >= len,
        (len - 1) / (stride_for(len, max) as int) + 1 <= max,
        ((len - 1) / (stride_for(len, max) as int)) * stride_for(len, max) <= len - 1,
{
    let s = stride_for(len, max);
    assert(s == (len + max - 1) / (max as int));
    assert(s >= 1) by (nonlinear_arith)
        requires
            s == (len + max - 1) / (max as int),
            len > max,
            max > 0,
    ;
    assert(s * max >= len) by (nonlinear_arith)
        requires
            s == (len + max - 1) / (max as int),
            max > 0,
    ;
    let c = (len - 1) / (s as int);
    assert(c * s <= len - 1) by (nonlinear_arith)
        requires
            c == (len - 1) / (s as int),
            s >= 1,
            len >= 1,
    ;
    assert(c < max) by (nonlinear_arith)
        requires
            c * s <= len - 1,
            s * max >= len,
            s >= 1,
            c >= 0,
    ;
}

/// Which input point the `j`-th thinned point is.
pub open spec fn thin_index(len: nat, max_points: nat, j: int) -> int {
    if len <= max_points {
        j
    } else {
        j * stride_for(len, max_points)
    }
}

/// A thinned result never exceeds its cap and holds only real points, in
/// their input order: nothing is fabricated for the gaps.
pub proof fn law_thinning_keeps_real_points_in_order<T>(points: Seq<T>, max_points: nat)
    requires
        thinnable(points.len(), max_points),
    ensures
        thinned(points, max_points).len() <= max_points,
        forall|j: int|
            0 <= j < thinned(points, max_points).len() ==> 0 <= #[trigger] thin_index(
                points.len(),
                max_points,
                j,
            ) < points.len(),
        forall|j: int|
            0 <= j < thinned(points, max_points).len() ==> #[trigger] thinned(points, max_points)[j]
                == points[thin_index(points.len(), max_points, j)],
        forall|i: int, j: int|
            0 <= i < j < thinned(points, max_points).len() ==> thin_index(points.len(), max_points, i)
                < thin_index(points.len(), max_points, j),
{
    let len = points.len();
    if len > max_points {
        lemma_stride_facts(len, max_points);
    }
    assert forall|j: int| 0 <= j < thinned(points, max_points).len() implies {
        &&& 0 <= #[trigger] thin_index(points.len(), max_points, j) < points.len()
        &&& thinned(points, max_points)[j] == points[thin_index(points.len(), max_points, j)]
    } by {
        if len > max_points {
            let s = stride_for(len, max_points);
            lemma_within_count(len as int, s as int, j);
            assert(0 <= j * s) by (nonlinear_arith)
                requires
                    j >= 0,
                    s >= 1,
            ;
        }
    }
    assert forall|i: int, j: int| 0 <= i < j < thinned(points, max_points).len() implies thin_index(
        points.len(),
        max_points,
        i,
    ) < thin_index(points.len(), max_points, j) by {
        if len > max_points {
            let s = stride_for(len, max_points);
            assert(i * s < j * s) by (nonlinear_arith)
                requires
                    0 <= i < j,
                    s >= 1,
            ;
        }
    }
}

/// Thin a query result to at most `max_points` by uniform stride.
pub fn downsample<T: Copy>(points: Vec<T>, max_points: usize) -> (r: Vec<T>)
    requires
        thinnable(points@.len(), max_points as nat),
    ensures
        r@ == thinned(points@, max_points as nat),
        r@.len() <= max_points,
{
    proof {
        law_thinning_keeps_real_points_in_order(points@, max_points as nat);
    }
    if points.len() <= max_points {
        return points;
    }
    let len = points.len();
    let stride = (len + max_points - 1) / max_points;
    proof {
        lemma_stride_facts(len as nat, max_points as nat);
    }
    let ghost count = ((len - 1) / (stride as int) + 1) as nat;
    let mut out: Vec<T> = Vec::new();
    let mut idx: usize = 0;
    let mut k: usize = 0;
    while idx < len
        invariant
            len == points@.len(),
            len >= 1,
            len > max_points,
            stride == stride_for(len as nat, max_points as nat),
            stride >= 1,
            count == (len - 1) / (stride as int) + 1,
            count <= max_points,
            idx == k * stride,
            k < count,
            out@.len() == k,
            forall|j: int| 0 <= j < k ==> out@[j] == points@[j * stride],
        decreases len - idx,
    {
        out.push(points[idx]);
        proof {
            assert((k + 1) * stride == k * stride + stride) by (nonlinear_arith);
            lemma_within_count(len as int, stride as int, k + 1);
        }
        if len - idx <= stride {
            proof {
                assert(!((k + 1) * stride <= len - 1));
                assert(out@.len() == count);
                let t = thinned(points@, max_points as nat);
                assert(points@.len() > max_points);
                assert(t.len() == count);
                assert forall|j: int| 0 <= j < count implies out@[j] == t[j] by {
                    assert(t[j] == points@[j * stride]);
                }
                assert(out@ =~= t);
            }
            return out;
        }
        idx = idx + stride;
        k = k + 1;
    }
    proof {
        lemma_within_count(len as int, stride as int, k as int);
    }
    out
}

/// `j * stride` is a valid index exactly when `j` is below the thinned count.
proof fn lemma_within_count(len: int, stride: int, j: int)
    requires
        len >= 1,
        stride >= 1,
        j >= 0,
    ensures
        (j * stride <= len - 1) == (j < (len - 1) / stride + 1),
{
    let c = (len - 1) / stride;
    assert(c * stride <= len - 1) by (nonlinear_arith)
        requires
            c == (len - 1) / stride,
            stride >= 1,
            len >= 1,
    ;
    assert((len - 1) < (c + 1) * stride) by (nonlinear_arith)
        requires
            c == (len - 1) / stride,
            stride >= 1,
            len >= 1,
    ;
    if j <= c {
        assert(j * stride <= c * stride) by (nonlinear_arith)
            requires
                j <= c,
                stride >= 1,
        ;
    } else {
        assert(j * stride >= (c + 1) * stride) by (nonlinear_arith)
            requires
                j >= c + 1,
                stride >= 1,
        ;
    }
}

/// Is the history database file over its byte budget?  New writes stop
/// then; reads and aggregation continue.
pub fn over_budget_with(disk_bytes: i64, budget_bytes: i64) -> (b: bool)
    ensures
        b == (disk_bytes > budget_bytes),
{
    disk_bytes > budget_bytes
}

/// A query result from the points each tier returned (each oldest first):
/// merged by time, coarser tier first on equal times, then thinned to
/// `max_points`.
pub fn assemble_points<T: Copy>(
    coarse: Vec<(i64, T)>,
    fine: Vec<(i64, T)>,
    raw: Vec<(i64, T)>,
    max_points: usize,
) -> (r: Vec<(i64, T)>)
    requires
        thinnable(coarse@.len() + fine@.len() + raw@.len(), max_points as nat),
    ensures
        r@ == thinned(merged(merged(coarse@, fine@), raw@), max_points as nat),
        r@.len() <= max_points,
{
    let cf = merge_by_time(coarse, fine);
    proof {
        law_merge_keeps_every_point_in_time_order(coarse@, fine@);
        vstd::seq_lib::to_multiset_len(cf@);
        vstd::seq_lib::to_multiset_len(coarse@);
        vstd::seq_lib::to_multiset_len(fine@);
    }
    let all = merge_by_time(cf, raw);
    proof {
        law_merge_keeps_every_point_in_time_order(cf@, raw@);
        vstd::seq_lib::to_multiset_len(all@);
        vstd::seq_lib::to_multiset_len(raw@);
    }
    downsample(all, max_points)
}

} // verus!
