//! Downsampling, caching, culling, filtering and SPC rule tests.

use plotoxide::SCALE;
use plotoxide::cache::{zoom_bucket, LttbCache};
use plotoxide::downsample::{lttb_downsample, AdaptiveDownsampler, Point};
use plotoxide::filters::{passes_filters, FilterConfig};
use plotoxide::lod::{tier_detail_level, LodTier};
use plotoxide::perf::{cull_points, PlotBuffer};
use plotoxide::spc::{detect_western_electric_violations_detailed, WERule};
use plotoxide::charts::linear_regression;

fn ramp(n: i64) -> Vec<Point> {
    (0..n).map(|i| Point { x: i, y: i }).collect()
}

#[test]
fn test_adaptive_fast_mode() {
    let mut ds = AdaptiveDownsampler::new();
    let data = ramp(1000);

    // Fast mode during drag
    let _ = ds.downsample(&data, 100, true);
    assert!(ds.is_fast_mode());

    // Still fast while settling
    let _ = ds.downsample(&data, 100, false);
    assert!(ds.is_fast_mode());

    // After settle frames, should use full LTTB
    for _ in 0..15 {
        ds.downsample(&data, 100, false);
    }
    assert!(!ds.is_fast_mode());
}

#[test]
fn test_lttb_endpoints() {
    let data = ramp(100);
    let result = lttb_downsample(&data, 10);

    assert_eq!(result[0].x, 0);
    assert_eq!(result[9].x, 99);
}

#[test]
fn test_lttb_basic() {
    let data: Vec<Point> = (0..1000)
        .map(|i| Point { x: i, y: ((i as f64).sin() * SCALE as f64) as i64 })
        .collect();
    let result = lttb_downsample(&data, 100);

    assert_eq!(result.len(), 100);
    assert_eq!(result[0].x, 0);
    assert_eq!(result[99].x, 999);
}

#[test]
fn lttb_no_op_below_target() {
    let data = ramp(50);
    assert_eq!(lttb_downsample(&data, 100), data);
    assert_eq!(lttb_downsample(&data, 50), data);
    // a target below three is also a no-op
    assert_eq!(lttb_downsample(&data, 2), data);
}

#[test]
fn lttb_keeps_x_order() {
    let data: Vec<Point> = (0..500)
        .map(|i| Point { x: i * 3, y: (i * 37) % 101 - 50 })
        .collect();
    let result = lttb_downsample(&data, 20);
    assert_eq!(result.len(), 20);
    for w in result.windows(2) {
        assert!(w[0].x <= w[1].x);
    }
}

#[test]
fn test_zoom_bucket_quantization() {
    // Similar zoom levels should map to same bucket
    let bucket1 = zoom_bucket(100 * SCALE);
    let bucket2 = zoom_bucket(110 * SCALE);
    assert_eq!(bucket1, bucket2);

    // Very different zoom levels should map to different buckets
    let bucket3 = zoom_bucket(1000 * SCALE);
    assert_ne!(bucket1, bucket3);
}

#[test]
fn cache_test_zoom_bucket_quantization() {
    let b1 = zoom_bucket(100 * SCALE);
    let b2 = zoom_bucket(110 * SCALE);
    assert_eq!(b1, b2, "10% zoom change should stay in same bucket");

    let b3 = zoom_bucket(200 * SCALE);
    assert_ne!(b1, b3, "2x zoom should change bucket");
}

#[test]
fn test_cache_basic() {
    let mut cache = LttbCache::new(100);
    let raw_data = ramp(1000);

    // First call should compute
    let data1 = raw_data.clone();
    let result1 = cache.get_or_compute(0, (0, 100 * SCALE), move |target| {
        plotoxide::downsample::nth_point_sample(&data1, target)
    });
    let len1 = result1.len();
    assert!(!result1.is_empty());

    // Second call with same range should use cache
    let result2 = cache.get_or_compute(0, (0, 100 * SCALE), |_| Vec::new());
    assert_eq!(len1, result2.len());
}

#[test]
fn test_cache_hit() {
    let mut cache = LttbCache::new(100);

    // First call computes
    let mut computed = false;
    cache.get_or_compute(0, (0, 100 * SCALE), |_| {
        computed = true;
        vec![Point { x: 0, y: 0 }, Point { x: 1, y: 1 }]
    });
    assert!(computed);

    // Second call with similar range should hit cache
    computed = false;
    cache.get_or_compute(0, (0, 105 * SCALE), |_| {
        computed = true;
        Vec::new()
    });
    assert!(!computed, "Should have hit cache");
}

#[test]
fn test_cache_invalidation() {
    let mut cache = LttbCache::new(100);
    let raw_data = ramp(1000);

    cache.get_or_compute(0, (0, 100 * SCALE), move |target| {
        plotoxide::downsample::nth_point_sample(&raw_data, target)
    });
    assert!(!cache.is_empty());

    cache.invalidate();
    assert!(cache.is_empty());
}

#[test]
fn test_series_invalidation() {
    let mut cache = LttbCache::new(100);
    let raw_data = ramp(1000);

    let d1 = raw_data.clone();
    cache.get_or_compute(0, (0, 100 * SCALE), move |target| {
        plotoxide::downsample::nth_point_sample(&d1, target)
    });
    let d2 = raw_data.clone();
    cache.get_or_compute(1, (0, 100 * SCALE), move |target| {
        plotoxide::downsample::nth_point_sample(&d2, target)
    });

    assert_eq!(cache.len(), 2);

    cache.invalidate_series(0);
    assert_eq!(cache.len(), 1);
}

#[test]
fn test_cache_limit() {
    let mut cache = LttbCache::new(100);
    let raw_data = ramp(1000);

    // Fill cache with many entries
    for i in 0..100 {
        let d = raw_data.clone();
        cache.get_or_compute(i, (0, 100 * SCALE), move |target| {
            plotoxide::downsample::nth_point_sample(&d, target)
        });
    }

    assert_eq!(cache.len(), 100);

    // Enforce limit
    cache.enforce_limit(50);
    assert_eq!(cache.len(), 50);
}

#[test]
fn cache_stats_counts() {
    let mut cache = LttbCache::new(10);
    cache.get_or_compute(3, (0, 10 * SCALE), |_| vec![Point { x: 1, y: 2 }]);
    let stats = cache.stats();
    assert_eq!(stats.entries, 1);
    assert_eq!(stats.total_points, 1);
    assert_eq!(stats.estimated_bytes, 16);
}

#[test]
fn test_cull_points() {
    let data: Vec<Point> = (0..1000)
        .map(|i| Point { x: i * SCALE, y: ((i as f64).sin() * SCALE as f64) as i64 })
        .collect();

    let (start, end) = cull_points(&data, 100 * SCALE, 200 * SCALE);
    let culled = end - start;

    // Should have ~100 points plus margins
    assert!(culled >= 100);
    assert!(culled <= 130);
}

#[test]
fn test_plot_buffer() {
    let mut buf = PlotBuffer::new();
    let source = vec![Point { x: 1, y: 2 }, Point { x: 3, y: 4 }];

    buf.fill_from(&source);
    assert_eq!(buf.points.len(), 2);
    assert_eq!(buf.points[0], Point { x: 1, y: 2 });
}

#[test]
fn test_tier_selection() {
    assert!(matches!(LodTier::for_zoom(8 * SCALE / 10), LodTier::Low));
    assert!(matches!(LodTier::for_zoom(3 * SCALE / 10), LodTier::Medium));
    assert!(matches!(LodTier::for_zoom(5 * SCALE / 100), LodTier::High));
    assert!(matches!(LodTier::for_zoom(5 * SCALE / 1000), LodTier::Raw));
}

#[test]
fn test_tier_target_points() {
    assert_eq!(LodTier::Raw.target_points(), None);
    assert_eq!(LodTier::High.target_points(), Some(100_000));
    assert_eq!(LodTier::Medium.target_points(), Some(10_000));
    assert_eq!(LodTier::Low.target_points(), Some(1_000));
}

#[test]
fn test_tier_detail_level() {
    assert!(tier_detail_level(LodTier::Raw) > tier_detail_level(LodTier::High));
    assert!(tier_detail_level(LodTier::High) > tier_detail_level(LodTier::Medium));
    assert!(tier_detail_level(LodTier::Medium) > tier_detail_level(LodTier::Low));
}

#[test]
fn filter_fails_on_any_active_condition() {
    let mut cfg = FilterConfig::new();
    let x = Some(5 * SCALE);
    let y = Some(5 * SCALE);

    // x-range failure
    cfg.set_x_range(6 * SCALE, 9 * SCALE);
    assert!(!passes_filters(&cfg, x, y, false, true, None));
    cfg.clear_x_range();

    // y-range failure
    cfg.set_y_range(0, 4 * SCALE);
    assert!(!passes_filters(&cfg, x, y, false, true, None));
    cfg.clear_y_range();

    // empty-cell failure, only when the column is a selected Y column
    cfg.filter_empty = true;
    assert!(!passes_filters(&cfg, x, y, true, true, None));
    assert!(passes_filters(&cfg, x, y, true, false, None));
    cfg.filter_empty = false;

    // outlier failure: |y - mean| exceeds sigma * stddev
    cfg.filter_outliers = true;
    cfg.filter_outlier_sigma = 2 * SCALE;
    let stats = Some((0, SCALE));
    assert!(!passes_filters(&cfg, x, y, false, true, stats));
}

#[test]
fn filter_passes_when_all_active_conditions_hold() {
    let mut cfg = FilterConfig::new();
    cfg.set_x_range(0, 10 * SCALE);
    cfg.set_y_range(0, 10 * SCALE);
    cfg.filter_empty = true;
    cfg.filter_outliers = true;
    cfg.filter_outlier_sigma = 3 * SCALE;
    let x = Some(5 * SCALE);
    let y = Some(5 * SCALE);
    let stats = Some((5 * SCALE, SCALE));
    assert!(passes_filters(&cfg, x, y, false, true, stats));

    // with every filter inactive everything passes
    let empty_cfg = FilterConfig::new();
    assert!(passes_filters(&empty_cfg, None, None, true, true, None));
}

#[test]
fn filter_validate_swaps_reversed_ranges() {
    let mut cfg = FilterConfig::new();
    cfg.set_y_range(9 * SCALE, 2 * SCALE);
    cfg.validate();
    assert_eq!(cfg.y_range(), Some((2 * SCALE, 9 * SCALE)));
}

#[test]
fn we_rule_four_run_of_eight_fires() {
    // sixteen points: eight high, eight low; the mean sits between
    let mut values: Vec<i64> = Vec::new();
    for _ in 0..8 {
        values.push(2 * SCALE);
    }
    for _ in 0..8 {
        values.push(0);
    }
    let violations = detect_western_electric_violations_detailed(&values);
    for idx in 0..8 {
        let entry = violations.iter().find(|v| v.point_index == idx);
        assert!(entry.is_some(), "index {} should be tagged", idx);
        assert!(entry.unwrap().rules.contains(&WERule::RuleFour));
    }
}

#[test]
fn we_rule_four_run_of_seven_does_not_fire() {
    // seven high points, nine low ones: no eight-window on the high side
    let mut values: Vec<i64> = Vec::new();
    for _ in 0..7 {
        values.push(2 * SCALE);
    }
    for _ in 0..9 {
        values.push(0);
    }
    let violations = detect_western_electric_violations_detailed(&values);
    for idx in 0..7 {
        if let Some(entry) = violations.iter().find(|v| v.point_index == idx) {
            assert!(
                !entry.rules.contains(&WERule::RuleFour),
                "index {} should not be tagged with rule four",
                idx
            );
        }
    }
}

#[test]
fn we_needs_eight_points() {
    let values = vec![SCALE; 7];
    assert!(detect_western_electric_violations_detailed(&values).is_empty());
}

#[test]
fn we_rule_five_trend() {
    // a strictly increasing run of six fires rule five
    let values: Vec<i64> = (0..12).map(|i| i * SCALE).collect();
    let violations = detect_western_electric_violations_detailed(&values);
    assert!(violations
        .iter()
        .any(|v| v.rules.contains(&WERule::RuleFive)));
}

#[test]
fn rule_names() {
    assert_eq!(WERule::RuleFour.name(), "Rule 4: 8 consecutive on same side");
    assert_eq!(WERule::RuleFive.name(), "Rule 5: 6 trending");
}

#[test]
fn linear_regression_exact_line() {
    let pts: Vec<Point> = (0..5).map(|i| Point { x: i * SCALE, y: 2 * i * SCALE }).collect();
    let (slope, intercept, r2) = linear_regression(&pts).unwrap();
    assert_eq!(slope, 2 * SCALE);
    assert_eq!(intercept, 0);
    assert_eq!(r2, SCALE);

    assert!(linear_regression(&vec![Point { x: 0, y: 0 }]).is_none());
    // all x equal: the normal equations are singular
    let flat: Vec<Point> = (0..4).map(|i| Point { x: SCALE, y: i * SCALE }).collect();
    assert!(linear_regression(&flat).is_none());
}
