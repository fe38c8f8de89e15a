//! Process list derivations.
//!
//! Per-process disk I/O rates come from differencing cumulative counters
//! against the previous scan of the same process instance, so a reused pid
//! never produces a spurious spike; the process list shown first is the
//! one ordered by resident memory.  Reading the process table and the clock
//! is the caller's.

use std::collections::HashMap;
use vstd::prelude::*;

verus! {

broadcast use vstd::std_specs::hash::group_hash_axioms;

/// Cumulative disk bytes read and written by a process.
#[derive(Clone, Copy, PartialEq, Eq, Structural)]
pub struct IoCounters {
    pub read: u64,
    pub write: u64,
}

/// Bytes read and written since the previous scan of the same process
/// instance; `None` on first sight or when a counter went backwards.
pub fn io_delta(prev: Option<IoCounters>, cur: IoCounters) -> (r: Option<IoCounters>)
    ensures
        match prev {
            Some(p) => if cur.read >= p.read && cur.write >= p.write {
                r == Some(IoCounters { read: (cur.read - p.read) as u64, write: (cur.write - p.write) as u64 })
            } else {
                r is None
            },
            None => r is None,
        },
{
    match prev {
        Some(p) => if cur.read >= p.read && cur.write >= p.write {
            Some(IoCounters { read: cur.read - p.read, write: cur.write - p.write })
        } else {
            None
        },
        None => None,
    }
}

/// The cumulative counters of one process instance (pid and start-time
/// marker) read by a scan.
pub struct IoSample {
    pub pid: u32,
    pub start_marker: u64,
    pub counters: IoCounters,
}

/// Bytes moved since the previous scan of the same process instance, and
/// the time between the two scans.
#[derive(Clone, Copy, PartialEq, Eq, Structural)]
pub struct IoRate {
    pub read_bytes: u64,
    pub write_bytes: u64,
    pub elapsed_nanos: u64,
}

/// The key of a process instance in the baseline table: the pid above the
/// 64 bits of the start-time marker, so distinct instances never share a
/// key.
pub open spec fn instance_key(pid: u32, start_marker: u64) -> u128 {
    (pid as int * 0x1_0000_0000_0000_0000 + start_marker as int) as u128
}

proof fn lemma_instance_key_injective(p1: u32, s1: u64, p2: u32, s2: u64)
    requires
        instance_key(p1, s1) == instance_key(p2, s2),
    ensures
        p1 == p2 && s1 == s2,
{
    let b: int = 0x1_0000_0000_0000_0000;
    assert(p1 as int * b + s1 as int <= u128::MAX && p2 as int * b + s2 as int <= u128::MAX) by (nonlinear_arith)
        requires
            b == 0x1_0000_0000_0000_0000,
            p1 <= u32::MAX,
            p2 <= u32::MAX,
            s1 <= u64::MAX,
            s2 <= u64::MAX,
    ;
    assert(p1 as int * b + s1 as int == p2 as int * b + s2 as int);
    assert(p1 == p2 && s1 == s2) by (nonlinear_arith)
        requires
            b == 0x1_0000_0000_0000_0000,
            p1 as int * b + s1 as int == p2 as int * b + s2 as int,
            0 <= s1 < b,
            0 <= s2 < b,
            p1 >= 0,
            p2 >= 0,
    ;
}

fn key_of(pid: u32, start_marker: u64) -> (k: u128)
    ensures
        k == instance_key(pid, start_marker),
{
    assert(pid as int * 0x1_0000_0000_0000_0000 + start_marker as int <= u128::MAX) by (nonlinear_arith)
        requires
            pid <= u32::MAX,
            start_marker <= u64::MAX,
    ;
    (pid as u128) * 0x1_0000_0000_0000_0000u128 + start_marker as u128
}

/// The readings of the previous scan, keyed by (pid, start-time marker) so
/// a reused pid is never joined to the previous owner's counters.  The
/// table is a `HashMap` keyed by [`instance_key`]: vstd specifies `HashMap`
/// for integer keys, and the encoding keeps the pair apart exactly.
pub struct IoBaselines {
    table: HashMap<u128, (IoCounters, u64)>,
}

pub open spec fn sample_key(s: IoSample) -> (u32, u64) {
    (s.pid, s.start_marker)
}

/// The baselines after a scan at `now` that read `samples`: exactly the
/// instances seen in that scan, each with its latest reading.
pub open spec fn scanned_map(samples: Seq<IoSample>, now: u64) -> Map<(u32, u64), (IoCounters, u64)>
    decreases samples.len(),
{
    if samples.len() == 0 {
        Map::empty()
    } else {
        scanned_map(samples.drop_last(), now).insert(
            sample_key(samples.last()),
            (samples.last().counters, now),
        )
    }
}

/// The rate of one instance against its baseline: only with a baseline of
/// the same instance, time having passed, and no counter having gone
/// backwards.
pub open spec fn rate_since(base: Option<(IoCounters, u64)>, cur: IoCounters, now: u64) -> Option<IoRate> {
    match base {
        Some((prev, at)) => if now > at && cur.read >= prev.read && cur.write >= prev.write {
            Some(
                IoRate {
                    read_bytes: (cur.read - prev.read) as u64,
                    write_bytes: (cur.write - prev.write) as u64,
                    elapsed_nanos: (now - at) as u64,
                },
            )
        } else {
            None
        },
        None => None,
    }
}

pub open spec fn lookup(m: Map<(u32, u64), (IoCounters, u64)>, k: (u32, u64)) -> Option<(IoCounters, u64)> {
    if m.dom().contains(k) {
        Some(m[k])
    } else {
        None
    }
}

impl View for IoBaselines {
    type V = Map<(u32, u64), (IoCounters, u64)>;

    closed spec fn view(&self) -> Self::V {
        Map::new(
            |k: (u32, u64)| self.table@.contains_key(instance_key(k.0, k.1)),
            |k: (u32, u64)| self.table@[instance_key(k.0, k.1)],
        )
    }
}

impl IoBaselines {
    /// No baselines yet: every process is seen for the first time.
    pub fn new() -> (b: Self)
        ensures
            b@ == Map::<(u32, u64), (IoCounters, u64)>::empty(),
    {
        let b = IoBaselines { table: HashMap::new() };
        assert(b@ =~= Map::<(u32, u64), (IoCounters, u64)>::empty());
        b
    }

    /// The latest reading remembered for an instance.
    fn find(&self, pid: u32, start_marker: u64) -> (r: Option<(IoCounters, u64)>)
        ensures
            r == lookup(self@, (pid, start_marker)),
    {
        match self.table.get(&key_of(pid, start_marker)) {
            Some(v) => Some(*v),
            None => None,
        }
    }

    /// One scan at `now` (monotonic nanoseconds): the rate of each sampled
    /// instance against its baseline, in sample order; afterwards the
    /// baselines are exactly this scan's readings, so processes that no
    /// longer exist are forgotten.
    pub fn advance(&mut self, samples: &Vec<IoSample>, now: u64) -> (rates: Vec<Option<IoRate>>)
        ensures
            rates@.len() == samples@.len(),
            forall|i: int|
                0 <= i < samples@.len() ==> #[trigger] rates@[i] == rate_since(
                    lookup(old(self)@, sample_key(samples@[i])),
                    samples@[i].counters,
                    now,
                ),
            final(self)@ == scanned_map(samples@, now),
    {
        let mut rates: Vec<Option<IoRate>> = Vec::new();
        let mut seen: HashMap<u128, (IoCounters, u64)> = HashMap::new();
        let mut i: usize = 0;
        proof {
            assert(samples@.take(0) =~= Seq::<IoSample>::empty());
        }
        while i < samples.len()
            invariant
                i <= samples@.len(),
                rates@.len() == i,
                forall|k: int|
                    0 <= k < i ==> #[trigger] rates@[k] == rate_since(
                        lookup(self@, sample_key(samples@[k])),
                        samples@[k].counters,
                        now,
                    ),
                forall|k: (u32, u64)|
                    #![trigger scanned_map(samples@.take(i as int), now).contains_key(k)]
                    seen@.contains_key(instance_key(k.0, k.1)) <==> scanned_map(
                        samples@.take(i as int),
                        now,
                    ).contains_key(k),
                forall|k: (u32, u64)|
                    #![trigger scanned_map(samples@.take(i as int), now)[k]]
                    scanned_map(samples@.take(i as int), now).contains_key(k) ==> seen@[instance_key(
                        k.0,
                        k.1,
                    )] == scanned_map(samples@.take(i as int), now)[k],
            decreases samples@.len() - i,
        {
            let s = &samples[i];
            let base = self.find(s.pid, s.start_marker);
            let rate = match base {
                Some((prev, at)) => if now > at && s.counters.read >= prev.read && s.counters.write
                    >= prev.write {
                    Some(
                        IoRate {
                            read_bytes: s.counters.read - prev.read,
                            write_bytes: s.counters.write - prev.write,
                            elapsed_nanos: now - at,
                        },
                    )
                } else {
                    None
                },
                None => None,
            };
            rates.push(rate);
            let ghost before = seen@;
            let key = key_of(s.pid, s.start_marker);
            seen.insert(key, (s.counters, now));
            proof {
                assert(samples@.take(i + 1).drop_last() =~= samples@.take(i as int));
                let prev = scanned_map(samples@.take(i as int), now);
                let next = scanned_map(samples@.take(i + 1), now);
                assert(next == prev.insert(sample_key(samples@[i as int]), (s.counters, now)));
                assert forall|k: (u32, u64)| #![trigger next.contains_key(k)]
                    seen@.contains_key(instance_key(k.0, k.1)) <==> next.contains_key(k) by {
                    if instance_key(k.0, k.1) == key {
                        lemma_instance_key_injective(k.0, k.1, s.pid, s.start_marker);
                    }
                    assert(prev.contains_key(k) <==> before.contains_key(instance_key(k.0, k.1)));
                }
                assert forall|k: (u32, u64)| #![trigger next[k]]
                    next.contains_key(k) implies seen@[instance_key(k.0, k.1)] == next[k] by {
                    if instance_key(k.0, k.1) == key {
                        lemma_instance_key_injective(k.0, k.1, s.pid, s.start_marker);
                    } else {
                        assert(prev.contains_key(k));
                        assert(prev[k] == before[instance_key(k.0, k.1)]);
                    }
                }
            }
            i = i + 1;
        }
        proof {
            assert(samples@.take(samples@.len() as int) =~= samples@);
        }
        self.table = seen;
        proof {
            assert(self@ =~= scanned_map(samples@, now));
        }
        rates
    }
}

/// A rate needs a baseline of the very same process instance: a process
/// seen for the first time, or a new process that reuses an old pid, has
/// no rate.
pub proof fn law_rate_requires_same_instance(
    base: Map<(u32, u64), (IoCounters, u64)>,
    s: IoSample,
    now: u64,
)
    requires
        !base.dom().contains(sample_key(s)),
    ensures
        rate_since(lookup(base, sample_key(s)), s.counters, now) is None,
{
}

/// After a scan the baselines hold exactly the instances that scan saw,
/// each with its last reading in that scan.
pub proof fn law_scan_keeps_only_seen_instances(samples: Seq<IoSample>, now: u64, k: (u32, u64))
    ensures
        scanned_map(samples, now).dom().contains(k) <==> exists|i: int|
            0 <= i < samples.len() && sample_key(#[trigger] samples[i]) == k,
        scanned_map(samples, now).dom().contains(k) ==> scanned_map(samples, now)[k].1 == now,
    decreases samples.len(),
{
    if samples.len() > 0 {
        let rest = samples.drop_last();
        law_scan_keeps_only_seen_instances(rest, now, k);
        if exists|i: int| 0 <= i < rest.len() && sample_key(#[trigger] rest[i]) == k {
            let i = choose|i: int| 0 <= i < rest.len() && sample_key(#[trigger] rest[i]) == k;
            assert(samples[i] == rest[i]);
        }
        if exists|i: int| 0 <= i < samples.len() && sample_key(#[trigger] samples[i]) == k {
            let i = choose|i: int| 0 <= i < samples.len() && sample_key(#[trigger] samples[i]) == k;
            if i < rest.len() {
                assert(rest[i] == samples[i]);
            }
        }
    }
}

/// The baseline a scan leaves for an instance is its last reading in that
/// scan, stamped with the scan's time.
proof fn lemma_scan_keeps_last_reading(samples: Seq<IoSample>, now: u64, i: int)
    requires
        0 <= i < samples.len(),
        forall|j: int| i < j < samples.len() ==> sample_key(#[trigger] samples[j]) != sample_key(samples[i]),
    ensures
        lookup(scanned_map(samples, now), sample_key(samples[i])) == Some((samples[i].counters, now)),
    decreases samples.len(),
{
    let rest = samples.drop_last();
    if i < rest.len() {
        assert forall|j: int| i < j < rest.len() implies sample_key(#[trigger] rest[j]) != sample_key(
            rest[i],
        ) by {
            assert(rest[j] == samples[j]);
        }
        assert(sample_key(samples[samples.len() - 1]) != sample_key(samples[i]));
        lemma_scan_keeps_last_reading(rest, now, i);
    }
}

/// Between two scans of the same process instance, when time has passed
/// and neither counter went backwards, the rate is exactly the bytes read
/// and written since the earlier reading (either may be zero) over the
/// time between the scans; when a counter went backwards or no time
/// passed, there is no rate.  `first` is the earlier scan at `t0`, in which
/// `first[i]` is the instance's last reading; `cur` is what the later scan
/// at `t1` reads for it.
pub proof fn law_rate_between_scans(
    first: Seq<IoSample>,
    t0: u64,
    i: int,
    cur: IoCounters,
    t1: u64,
)
    requires
        0 <= i < first.len(),
        forall|j: int| i < j < first.len() ==> sample_key(#[trigger] first[j]) != sample_key(first[i]),
    ensures
        ({
            let prev = first[i].counters;
            let rate = rate_since(lookup(scanned_map(first, t0), sample_key(first[i])), cur, t1);
            &&& (t1 > t0 && cur.read >= prev.read && cur.write >= prev.write) ==> rate == Some(
                IoRate {
                    read_bytes: (cur.read - prev.read) as u64,
                    write_bytes: (cur.write - prev.write) as u64,
                    elapsed_nanos: (t1 - t0) as u64,
                },
            )
            &&& (t1 <= t0 || cur.read < prev.read || cur.write < prev.write) ==> rate is None
        }),
{
    lemma_scan_keeps_last_reading(first, t0, i);
}

/// Process `a` is listed before process `b`: more memory first, and the
/// earlier one first among equals (a stable sort).
pub open spec fn listed_before(mem: Seq<u64>, a: int, b: int) -> bool {
    mem[a] > mem[b] || (mem[a] == mem[b] && a < b)
}

/// Is `r` the first `min(n, limit)` entries of the processes ordered by
/// memory, descending, stably?
pub open spec fn is_top_by_memory(mem: Seq<u64>, limit: nat, r: Seq<usize>) -> bool {
    &&& r.len() == if mem.len() < limit {
        mem.len()
    } else {
        limit
    }
    &&& forall|k: int| 0 <= k < r.len() ==> (#[trigger] r[k]) < mem.len()
    &&& forall|k: int|
        0 <= k < r.len() - 1 ==> listed_before(mem, #[trigger] r[k] as int, r[k + 1] as int)
    &&& forall|k: int, x: usize|
        0 <= k < r.len() && x < mem.len() && !r.contains(x) ==> #[trigger] listed_before(
            mem,
            r[k] as int,
            x as int,
        )
}

/// Indices of the processes with the most memory, largest first (ties in
/// list order), at most `limit` of them.
pub fn top_by_memory(mems: &Vec<u64>, limit: usize) -> (r: Vec<usize>)
    ensures
        is_top_by_memory(mems@, limit as nat, r@),
{
    let n = mems.len();
    let want = if n < limit {
        n
    } else {
        limit
    };
    let mut remaining: Vec<usize> = Vec::new();
    let mut i: usize = 0;
    while i < n
        invariant
            i <= n,
            n == mems.len(),
            remaining@ == Seq::new(i as nat, |x: int| x as usize),
        decreases n - i,
    {
        remaining.push(i);
        proof {
            assert(remaining@ =~= Seq::new((i + 1) as nat, |x: int| x as usize));
        }
        i = i + 1;
    }
    proof {
        assert forall|x: usize| x < n implies remaining@.contains(x) by {
            assert(remaining@[x as int] == x);
        }
    }
    let mut r: Vec<usize> = Vec::new();
    let mut t: usize = 0;
    while t < want
        invariant
            n == mems.len(),
            want <= n,
            t <= want,
            r@.len() == t,
            remaining@.len() == n - t,
            remaining@.no_duplicates(),
            forall|k: int| 0 <= k < remaining@.len() ==> (#[trigger] remaining@[k]) < n,
            forall|k: int| 0 <= k < r@.len() ==> (#[trigger] r@[k]) < n,
            forall|x: usize| x < n ==> (r@.contains(x) || remaining@.contains(x)),
            forall|x: usize| r@.contains(x) ==> !remaining@.contains(x),
            forall|k: int|
                0 <= k < r@.len() - 1 ==> listed_before(mems@, #[trigger] r@[k] as int, r@[k + 1] as int),
            forall|k: int, j: int|
                0 <= k < r@.len() && 0 <= j < remaining@.len() ==> listed_before(
                    mems@,
                    #[trigger] r@[k] as int,
                    #[trigger] remaining@[j] as int,
                ),
        decreases want - t,
    {
        // The best remaining process.
        let mut best_pos: usize = 0;
        let mut j: usize = 1;
        while j < remaining.len()
            invariant
                remaining@.len() == n - t,
                n - t >= 1,
                best_pos < remaining@.len(),
                1 <= j <= remaining@.len(),
                best_pos < j,
                n == mems.len(),
                forall|k: int| 0 <= k < remaining@.len() ==> (#[trigger] remaining@[k]) < n,
                forall|k: int|
                    0 <= k < j && k != best_pos ==> listed_before(
                        mems@,
                        remaining@[best_pos as int] as int,
                        #[trigger] remaining@[k] as int,
                    ),
                remaining@.no_duplicates(),
            decreases remaining@.len() - j,
        {
            let x = remaining[j];
            let b = remaining[best_pos];
            if mems[x] > mems[b] || (mems[x] == mems[b] && x < b) {
                proof {
                    assert forall|k: int| 0 <= k < j + 1 && k != j implies listed_before(
                        mems@,
                        remaining@[j as int] as int,
                        #[trigger] remaining@[k] as int,
                    ) by {
                        if k != best_pos {
                            assert(listed_before(mems@, b as int, remaining@[k] as int));
                        }
                    }
                }
                best_pos = j;
            } else {
                proof {
                    assert(x != b);
                }
            }
            j = j + 1;
        }
        let ghost old_rem = remaining@;
        let best = remaining.remove(best_pos);
        assert(remaining@ == old_rem.remove(best_pos as int));
        assert(best == old_rem[best_pos as int]);
        proof {
            assert forall|k: int| 0 <= k < remaining@.len() implies #[trigger] listed_before(
                mems@,
                best as int,
                remaining@[k] as int,
            ) by {
                if k < best_pos {
                    assert(remaining@[k] == old_rem[k]);
                } else {
                    assert(remaining@[k] == old_rem[k + 1]);
                }
            }
        }
        let ghost old_r = r@;
        r.push(best);
        proof {
            assert forall|x: usize| r@.contains(x) implies !remaining@.contains(x) by {
                if x == best {
                    if remaining@.contains(x) {
                        let k = choose|k: int| 0 <= k < remaining@.len() && remaining@[k] == x;
                        if k < best_pos {
                            assert(old_rem[k] == x && old_rem[best_pos as int] == x);
                        } else {
                            assert(old_rem[k + 1] == x && old_rem[best_pos as int] == x);
                        }
                    }
                } else {
                    let k = choose|k: int| 0 <= k < r@.len() && r@[k] == x;
                    assert(old_r.contains(x)) by {
                        assert(old_r[k] == x);
                    }
                    if remaining@.contains(x) {
                        let m = choose|m: int| 0 <= m < remaining@.len() && remaining@[m] == x;
                        if m < best_pos {
                            assert(old_rem.contains(x)) by {
                                assert(old_rem[m] == x);
                            }
                        } else {
                            assert(old_rem.contains(x)) by {
                                assert(old_rem[m + 1] == x);
                            }
                        }
                    }
                }
            }
            assert forall|x: usize| x < n implies (r@.contains(x) || remaining@.contains(x)) by {
                if old_r.contains(x) {
                    let k = choose|k: int| 0 <= k < old_r.len() && old_r[k] == x;
                    assert(r@[k] == x);
                } else {
                    let m = choose|m: int| 0 <= m < old_rem.len() && old_rem[m] == x;
                    if m == best_pos {
                        assert(r@[t as int] == x);
                    } else if m < best_pos {
                        assert(remaining@[m] == x);
                    } else {
                        assert(remaining@[m - 1] == x);
                    }
                }
            }
            assert forall|k: int, j: int|
                0 <= k < r@.len() && 0 <= j < remaining@.len() implies listed_before(
                mems@,
                #[trigger] r@[k] as int,
                #[trigger] remaining@[j] as int,
            ) by {
                if k < t {
                    if j < best_pos {
                        assert(remaining@[j] == old_rem[j]);
                    } else {
                        assert(remaining@[j] == old_rem[j + 1]);
                    }
                }
            }
            if t > 0 {
                assert(listed_before(mems@, r@[t - 1] as int, best as int)) by {
                    assert(old_rem[best_pos as int] == best);
                }
            }
        }
        t = t + 1;
    }
    proof {
        assert forall|k: int, x: usize|
            0 <= k < r@.len() && x < n && !r@.contains(x) implies #[trigger] listed_before(
            mems@,
            r@[k] as int,
            x as int,
        ) by {
            let m = choose|m: int| 0 <= m < remaining@.len() && remaining@[m] == x;
            assert(listed_before(mems@, r@[k] as int, remaining@[m] as int));
        }
    }
    r
}

} // verus!
