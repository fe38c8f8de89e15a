use monitor_app::history::{
    aggregation_cutoffs, assemble_points, downsample, merge_by_time, over_budget_with, test_now, tier_windows,
};

#[test]
fn cutoffs_are_aligned_to_closed_buckets() {
    let now = test_now();
    let c = aggregation_cutoffs(now + 7);
    assert_eq!(c.raw_ttl_boundary, now + 7 - 3600);
    assert_eq!(c.raw_cutoff, 1_799_996_400);
    assert_eq!(c.raw_cutoff % 10, 0);
    assert_eq!(c.bucket_10s_ttl_boundary, now + 7 - 86_400);
    assert_eq!(c.bucket_10s_cutoff % 60, 0);
    assert!(c.bucket_10s_cutoff <= c.bucket_10s_ttl_boundary);
    assert_eq!(c.retention_cutoff, now + 7 - 604_800);
    // Truncating division, as the database computes it, for early clocks.
    let early = aggregation_cutoffs(3595);
    assert_eq!(early.raw_cutoff, 0);
}

#[test]
fn tiers_are_read_by_window_over_the_whole_range() {
    // A raw sample older than the raw tier that no pass has aggregated yet
    // is still read.
    let w = tier_windows(900, 4601);
    assert_eq!(w.raw, (900, 4601));
    assert!(w.raw.0 <= 1000 && 1000 < w.raw.1);
    // The 10 s bucket [1000, 1010) covers a query starting at 1005.
    let w = tier_windows(1005, 4610);
    assert_eq!(w.fine, (996, 4610));
    assert!(w.fine.0 <= 1000);
    // A 60 s bucket is read when its window reaches the start.
    assert_eq!(w.coarse, (946, 4610));
    // No underflow at the bottom of the clock.
    let w = tier_windows(i64::MIN + 3, 0);
    assert_eq!(w.fine.0, i64::MIN);
    assert_eq!(w.coarse.0, i64::MIN);
}

#[test]
fn merging_tiers_keeps_every_point_oldest_first() {
    let coarse = vec![(0i64, 'a'), (60, 'b')];
    let fine = vec![(60i64, 'c'), (70, 'd')];
    let raw = vec![(5i64, 'e'), (100, 'f')];
    let out = merge_by_time(merge_by_time(coarse, fine), raw);
    assert_eq!(out, vec![(0, 'a'), (5, 'e'), (60, 'b'), (60, 'c'), (70, 'd'), (100, 'f')]);
    assert!(merge_by_time(Vec::<(i64, u8)>::new(), Vec::new()).is_empty());
}

#[test]
fn downsample_respects_cap_and_keeps_first_point() {
    let points: Vec<(i64, u32)> = (0..100).map(|i| (i as i64, i)).collect();
    let out = downsample(points.clone(), 10);
    assert!(out.len() <= 10, "got {} points, cap was 10", out.len());
    assert_eq!(out.len(), 10);
    assert_eq!(out[0], (0, 0));
    assert_eq!(out[1], (10, 10));
    let out = downsample(points.clone(), 2000);
    assert_eq!(out, points);
    let out = downsample((0..7).collect::<Vec<u8>>(), 3);
    assert_eq!(out, vec![0, 3, 6]);
    let none: Vec<u8> = Vec::new();
    assert!(downsample(none, 0).is_empty());
}

#[test]
fn budget_check_is_strict() {
    assert!(!over_budget_with(100, 100));
    assert!(over_budget_with(101, 100));
}

#[test]
fn query_result_is_merged_then_capped() {
    let coarse: Vec<(i64, u32)> = (0..5).map(|i| (i * 60, i as u32)).collect();
    let fine: Vec<(i64, u32)> = (0..5).map(|i| (300 + i * 10, 100 + i as u32)).collect();
    let raw: Vec<(i64, u32)> = vec![(10, 200), (400, 201)];
    let all = assemble_points(coarse.clone(), fine.clone(), raw.clone(), 2000);
    assert_eq!(all.len(), 12);
    assert!(all.windows(2).all(|w| w[0].0 <= w[1].0));
    assert_eq!(all[1], (10, 200));
    let capped = assemble_points(coarse, fine, raw, 5);
    assert!(capped.len() <= 5);
    assert_eq!(capped[0], (0, 0));
}
