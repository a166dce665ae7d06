//! Statistics engine tests. Values are fixed point: a measurement times
//! `plotoxide::SCALE`.

use plotoxide::SCALE;
use plotoxide::charts::{
    calculate_boxplot_stats, calculate_ewma, calculate_pareto, calculate_pchart,
    calculate_sma, calculate_xbarr, get_xbarr_constants,
};
use plotoxide::uistate::UiState;
use plotoxide::stats::{
    calculate_full_stats, calculate_histogram, calculate_median,
    calculate_process_capability, calculate_statistics, detect_outliers, sort_values,
};

fn fp(v: i64) -> i64 {
    v * SCALE
}

fn scaled(values: &[i64]) -> Vec<i64> {
    values.iter().map(|v| v * SCALE).collect()
}

#[test]
fn test_calculate_stats() {
    let data = scaled(&[1, 2, 3, 4, 5]);
    let stats = calculate_full_stats(&data);

    assert_eq!(stats.mean, fp(3));
    assert_eq!(stats.median, fp(3));
    assert_eq!(stats.min, fp(1));
    assert_eq!(stats.max, fp(5));
    assert_eq!(stats.count, 5);
}

#[test]
fn test_detect_outliers() {
    let data = scaled(&[1, 2, 3, 4, 5, 100]); // 100 is an outlier
    let outliers = detect_outliers(&data, 2 * SCALE);

    assert_eq!(outliers, vec![5]);
}

#[test]
fn test_empty_series() {
    let data: Vec<i64> = vec![];
    let stats = calculate_full_stats(&data);

    assert_eq!(stats.mean, 0);
    assert_eq!(stats.count, 0);
}

#[test]
fn mean_stddev_exact_values() {
    let data = scaled(&[1, 2, 3, 4, 5]);
    let (mean, sd) = calculate_statistics(&data);
    assert_eq!(mean, fp(3));
    // population stddev of [1..5] is sqrt(2); in fixed point, the floor of
    // sqrt(2) * SCALE
    assert_eq!(sd, 1482910);
    let as_real = sd as f64 / SCALE as f64;
    assert!((as_real - 1.4142).abs() < 0.001);

    let empty: Vec<i64> = vec![];
    assert_eq!(calculate_statistics(&empty), (0, 0));
}

#[test]
fn median_odd_and_even() {
    assert_eq!(calculate_median(&scaled(&[1, 2, 3, 4, 5])), fp(3));
    // even length: the mean of the two middle values, 2.5
    assert_eq!(calculate_median(&scaled(&[1, 2, 3, 4])), fp(2) + SCALE / 2);
    assert_eq!(calculate_median(&vec![]), 0);
}

#[test]
fn sort_is_ascending_permutation() {
    let data = scaled(&[5, 1, 4, 1, 3]);
    let sorted = sort_values(&data);
    assert_eq!(sorted, scaled(&[1, 1, 3, 4, 5]));
}

#[test]
fn outliers_constant_series_none() {
    // zero spread leaves the z-score undefined: no outliers
    let data = scaled(&[7, 7, 7, 7]);
    assert!(detect_outliers(&data, SCALE).is_empty());
}

#[test]
fn histogram_counts_conserved() {
    let data = scaled(&[1, 2, 2, 3, 9, 9, 9, 4]);
    let (hist, min, width) = calculate_histogram(&data, 4);
    assert_eq!(min, fp(1));
    assert_eq!(width, fp(2));
    assert_eq!(hist.len(), 4);
    let total: i64 = hist.iter().map(|(_, c)| c).sum();
    assert_eq!(total, data.len() as i64);
    // the maximum is clamped into the last bin
    assert_eq!(hist[3].1, 3);
}

#[test]
fn histogram_degenerate_inputs() {
    let (hist, a, b) = calculate_histogram(&vec![], 5);
    assert!(hist.is_empty());
    assert_eq!((a, b), (0, 0));
    // zero spread: counts are conserved in the middle of zero-width bins
    let (hist2, mn, width) = calculate_histogram(&scaled(&[5, 5]), 3);
    assert_eq!(hist2, vec![(fp(5), 0), (fp(5), 2), (fp(5), 0)]);
    assert_eq!((mn, width), (fp(5), 0));
    let total: i64 = hist2.iter().map(|(_, c)| c).sum();
    assert_eq!(total, 2);
    // a single constant value with one bin
    let (hist3, _, _) = calculate_histogram(&scaled(&[5]), 1);
    assert_eq!(hist3, vec![(fp(5), 1)]);
}

#[test]
fn capability_degenerate_and_normal() {
    // usl <= lsl or empty input give (0, 0)
    assert_eq!(calculate_process_capability(&scaled(&[1, 2, 3]), fp(5), fp(5)), (0, 0));
    assert_eq!(calculate_process_capability(&scaled(&[1, 2, 3]), fp(7), fp(2)), (0, 0));
    assert_eq!(calculate_process_capability(&vec![], fp(0), fp(10)), (0, 0));

    let data = scaled(&[1, 2, 3, 4, 5]);
    let (cp, cpk) = calculate_process_capability(&data, fp(0), fp(6));
    // Cp = 6 / (6 * sqrt(2)) ~ 0.707
    let cp_real = cp as f64 / SCALE as f64;
    assert!((cp_real - 0.707).abs() < 0.001);
    assert!(cpk <= cp);
}

#[test]
fn boxplot_summary() {
    let data = scaled(&[1, 2, 3, 4, 5]);
    let (lw, q1, med, q3, uw) = calculate_boxplot_stats(&data).unwrap();
    // index quartiles: sorted[5/4] and sorted[15/4]
    assert_eq!(q1, fp(2));
    assert_eq!(med, fp(3));
    assert_eq!(q3, fp(4));
    assert_eq!(lw, fp(1));
    assert_eq!(uw, fp(5));
    assert!(calculate_boxplot_stats(&vec![]).is_none());
}

#[test]
fn sma_window_means() {
    let data = scaled(&[2, 4, 6]);
    let sma = calculate_sma(&data, 2);
    assert_eq!(sma, vec![(1, fp(3)), (2, fp(5))]);
    assert!(calculate_sma(&data, 0).is_empty());
}

#[test]
fn ewma_recurrence() {
    let data = scaled(&[4, 8]);
    // lambda one half: e1 = (v1 + e0) / 2
    let ewma = calculate_ewma(&data, SCALE / 2);
    assert_eq!(ewma, vec![(0, fp(4)), (1, fp(6))]);
}

#[test]
fn xbarr_constants_table() {
    assert!(get_xbarr_constants(1).is_none());
    assert!(get_xbarr_constants(11).is_none());
    let (a2, d3, d4) = get_xbarr_constants(2).unwrap();
    assert_eq!(d3, 0);
    assert!((a2 as f64 / SCALE as f64 - 1.880).abs() < 0.001);
    assert!((d4 as f64 / SCALE as f64 - 3.267).abs() < 0.001);
}

#[test]
fn xbarr_chart_values() {
    // two subgroups of two: means 2 and 6, ranges 2 and 2
    let data = scaled(&[1, 3, 5, 7]);
    let chart = calculate_xbarr(&data, 2);
    assert_eq!(chart.xbar_points, vec![(0, fp(2)), (1, fp(6))]);
    assert_eq!(chart.r_points, vec![(0, fp(2)), (1, fp(2))]);
    assert_eq!(chart.xbar_mean, fp(4));
    assert_eq!(chart.r_mean, fp(2));
    assert!(chart.xbar_ucl > chart.xbar_mean);
    assert!(chart.xbar_lcl < chart.xbar_mean);
    // remainder rows are dropped
    let chart2 = calculate_xbarr(&scaled(&[1, 3, 5, 7, 9]), 2);
    assert_eq!(chart2.xbar_points.len(), 2);
}

#[test]
fn pchart_proportions() {
    // defect counts 5 and 10 in samples of 50
    let data = scaled(&[5, 10]);
    let chart = calculate_pchart(&data, 50);
    assert_eq!(chart.proportions.len(), 2);
    assert_eq!(chart.proportions[0], (0, SCALE / 10));
    assert_eq!(chart.proportions[1], (1, SCALE / 5));
    // p_bar = 15 / 100
    assert_eq!(chart.p_bar, 15 * SCALE / 100);
    assert!(chart.ucl > chart.p_bar);
    assert!(chart.lcl >= 0);
}

#[test]
fn full_stats_percentiles() {
    let data = scaled(&[1, 2, 3, 4, 5]);
    let stats = calculate_full_stats(&data);
    assert_eq!(stats.p25, fp(2));
    assert_eq!(stats.p75, fp(4));
    // p5 interpolates between the first two values: 1.2
    assert_eq!(stats.p5, (12 * SCALE) / 10);
    assert_eq!(stats.histogram.len(), 20);
    let total: i64 = stats.histogram.iter().sum();
    assert_eq!(total, 5);
}

#[test]
fn pareto_frequency_and_cumulative() {
    // values group to two-decimal keys (hundredths): 1.00 x3, 2.00 x1
    let data = scaled(&[1, 2, 1, 1]);
    let (freq, cum) = calculate_pareto(&data);
    assert_eq!(freq, vec![(100, 3), (200, 1)]);
    // cumulative percentages in fixed point: 75% then 100%
    assert_eq!(cum, vec![75 * SCALE, 100 * SCALE]);

    // ties in count break by ascending key
    let (freq2, _) = calculate_pareto(&scaled(&[5, 3]));
    assert_eq!(freq2, vec![(300, 1), (500, 1)]);
}

#[test]
fn stats_cache_serves_and_invalidates() {
    let mut ui = UiState::new();
    let s1 = calculate_full_stats(&scaled(&[1, 2, 3]));
    let s2 = calculate_full_stats(&scaled(&[4, 5, 6]));

    assert!(ui.get_cached_stats(0).is_none());
    ui.cache_stats(0, s1);
    assert_eq!(ui.get_cached_stats(0).unwrap().mean, fp(2));

    // re-caching the same column replaces its entry
    ui.cache_stats(0, s2);
    assert_eq!(ui.get_cached_stats(0).unwrap().mean, fp(5));

    // a data-version bump makes the cache stale: nothing is served
    ui.on_data_loaded();
    assert!(ui.get_cached_stats(0).is_none());
}
