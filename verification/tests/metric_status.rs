use monitor_app::metric_status::{health, note_attempt, note_failure, note_success, SamplingState};
use std::time::{SystemTime, UNIX_EPOCH};

fn now_secs() -> i64 {
    SystemTime::now().duration_since(UNIX_EPOCH).map(|d| d.as_secs() as i64).unwrap_or(0)
}

#[test]
fn warmup_then_success_then_failure() {
    let mut s = SamplingState::new();
    note_attempt(&mut s, now_secs());
    let h0 = health(&s, now_secs());
    note_success(&mut s, now_secs());
    let h1 = health(&s, now_secs());
    assert!(h1.ever_succeeded);
    assert_eq!(h1.consecutive_failures, 0);
    assert!(h1.success_age_secs.unwrap() <= 1, "fresh success age ~0");

    note_failure(&mut s, now_secs());
    note_failure(&mut s, now_secs());
    let h2 = health(&s, now_secs());
    assert_eq!(h2.consecutive_failures, 2, "failure streak increments");
    assert!(h2.ever_succeeded, "still past warm-up");
    let _ = h0;
}

#[test]
fn health_before_any_success_and_age_clamping() {
    let mut s = SamplingState::new();
    note_attempt(&mut s, 100);
    note_failure(&mut s, 101);
    let h = health(&s, 102);
    assert!(!h.ever_succeeded);
    assert_eq!(h.success_age_secs, None);
    assert_eq!(h.last_success_at, None);
    assert_eq!(h.consecutive_failures, 1);
    note_success(&mut s, 200);
    assert_eq!(health(&s, 260).success_age_secs, Some(60));
    // A clock that went backwards never yields a negative age.
    assert_eq!(health(&s, 150).success_age_secs, Some(0));
    s.consecutive_failures = u32::MAX;
    note_failure(&mut s, 300);
    assert_eq!(s.consecutive_failures, u32::MAX);
}
