//! Sampling health and staleness tracking.
//!
//! A successful poll of the cached snapshot is not the same as a fresh
//! collection.  This state records when a collection pass was last
//! attempted and last succeeded, so a stale cached value can be told apart
//! from a fresh one without ever fabricating a reading.  Times are Unix
//! seconds supplied by the caller.

use vstd::prelude::*;

verus! {

/// When collection was last attempted and last succeeded.
#[derive(Debug, Default)]
pub struct SamplingState {
    pub last_attempt: Option<i64>,
    pub last_success: Option<i64>,
    /// Consecutive failures since the last success.
    pub consecutive_failures: u32,
}

/// Health view handed out alongside the snapshot.
#[derive(Debug, Clone)]
pub struct SamplingHealth {
    /// Unix seconds of the last successful snapshot; `None` if never succeeded.
    pub last_success_at: Option<i64>,
    /// `now - last_success`, never negative; `None` if never succeeded.
    pub success_age_secs: Option<i64>,
    /// Consecutive failed collection passes since the last success.
    pub consecutive_failures: u32,
    /// True once at least one snapshot has succeeded (past warm-up).
    pub ever_succeeded: bool,
}

impl SamplingState {
    /// The state before any collection pass.
    pub fn new() -> (s: Self)
        ensures
            s.last_attempt is None,
            s.last_success is None,
            s.consecutive_failures == 0,
    {
        SamplingState { last_attempt: None, last_success: None, consecutive_failures: 0 }
    }
}

/// The state after an attempt at `now`.
pub open spec fn after_attempt(s: SamplingState, now: i64) -> SamplingState {
    SamplingState { last_attempt: Some(now), ..s }
}

/// The state after a success at `now`: fresh, with no failure streak.
pub open spec fn after_success(s: SamplingState, now: i64) -> SamplingState {
    SamplingState { last_attempt: Some(now), last_success: Some(now), consecutive_failures: 0 }
}

/// The state after a failure at `now`: the streak grows by one, saturating.
pub open spec fn after_failure(s: SamplingState, now: i64) -> SamplingState {
    SamplingState {
        last_attempt: Some(now),
        last_success: s.last_success,
        consecutive_failures: if s.consecutive_failures == u32::MAX {
            u32::MAX
        } else {
            (s.consecutive_failures + 1) as u32
        },
    }
}

/// Record that a collection pass was attempted (success or not).
pub fn note_attempt(state: &mut SamplingState, now: i64)
    ensures
        *final(state) == after_attempt(*old(state), now),
{
    state.last_attempt = Some(now);
}

/// Record a successful snapshot.  Resets the failure streak.
pub fn note_success(state: &mut SamplingState, now: i64)
    ensures
        *final(state) == after_success(*old(state), now),
{
    state.last_attempt = Some(now);
    state.last_success = Some(now);
    state.consecutive_failures = 0;
}

/// Record a failed collection pass.  Extends the failure streak (saturating).
pub fn note_failure(state: &mut SamplingState, now: i64)
    ensures
        *final(state) == after_failure(*old(state), now),
{
    state.last_attempt = Some(now);
    state.consecutive_failures = state.consecutive_failures.saturating_add(1);
}

/// The state after failures at each of `times`, in order.
pub open spec fn after_failures(s: SamplingState, times: Seq<i64>) -> SamplingState
    decreases times.len(),
{
    if times.len() == 0 {
        s
    } else {
        after_failure(after_failures(s, times.drop_last()), times.last())
    }
}

/// A success followed by any run of failures: the streak counts the failures
/// (up to `u32::MAX`) and the success is still the last one on record.
pub proof fn law_failure_streak_counts_failures_since_success(s: SamplingState, t: i64, times: Seq<i64>)
    ensures
        after_failures(after_success(s, t), times).consecutive_failures == if times.len()
            < u32::MAX {
            times.len()
        } else {
            u32::MAX as nat
        },
        after_failures(after_success(s, t), times).last_success == Some(t),
    decreases times.len(),
{
    if times.len() > 0 {
        law_failure_streak_counts_failures_since_success(s, t, times.drop_last());
    }
}

/// The age `health` reports, with the subtraction representable.
pub open spec fn age_computable(state: SamplingState, now: i64) -> bool {
    state.last_success matches Some(t) ==> i64::MIN <= now - t <= i64::MAX
}

/// Current health as of `now`.
pub fn health(state: &SamplingState, now: i64) -> (h: SamplingHealth)
    requires
        age_computable(*state, now),
    ensures
        h.last_success_at == state.last_success,
        h.consecutive_failures == state.consecutive_failures,
        h.ever_succeeded == state.last_success is Some,
        match state.last_success {
            Some(t) => h.success_age_secs == Some(if now - t > 0 { (now - t) as i64 } else { 0i64 }),
            None => h.success_age_secs is None,
        },
{
    let age = match state.last_success {
        Some(t) => {
            let d = now - t;
            Some(if d > 0 { d } else { 0 })
        },
        None => None,
    };
    SamplingHealth {
        last_success_at: state.last_success,
        success_age_secs: age,
        consecutive_failures: state.consecutive_failures,
        ever_succeeded: state.last_success.is_some(),
    }
}

} // verus!
