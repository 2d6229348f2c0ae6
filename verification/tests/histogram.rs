use gbdt_core::histogram::Histogram;
use gbdt_core::histogram::HistogramError;

/// Maps an `f32` to a `u64` key whose integer order matches the float
/// order (for non-NaN values): the sign bit decides whether the bits are
/// flipped wholesale or only the sign bit is set.
fn key_of(x: f32) -> u64 {
    let b = x.to_bits();
    let k = if b & 0x8000_0000 != 0 { !b } else { b | 0x8000_0000 };
    k as u64
}

fn float_of(k: u64) -> f32 {
    let b = k as u32;
    let bits = if b & 0x8000_0000 != 0 { b & 0x7fff_ffff } else { !b };
    f32::from_bits(bits)
}

fn keys_of(xs: &[f32]) -> Vec<u64> {
    xs.iter().map(|&x| key_of(x)).collect()
}

/// Fixed-point statistic encoding: micro-units.
fn stat_of(x: f32) -> i64 {
    (x as f64 * 1_000_000.0).round() as i64
}

fn stat_float(s: i64) -> f32 {
    (s as f64 / 1_000_000.0) as f32
}

fn stats_of(xs: &[f32]) -> Vec<i64> {
    xs.iter().map(|&x| stat_of(x)).collect()
}

fn close(a: f32, b: f32) -> bool {
    (a - b).abs() <= 1e-6
}

#[test]
fn test_from_feature_normal_case() {
    let feature_vec = keys_of(&[0.0, 1.0, 2.0, 3.0, 4.0, 5.0, 6.0, 7.0, 8.0, 9.0]);

    let hist = Histogram::from_feature(&feature_vec, 4);

    assert_eq!(hist.bins.len(), 5);
    assert_eq!(hist.bins, keys_of(&[0.0, 2.0, 4.0, 6.0, 9.0]));
    assert_eq!(hist.gradients.len(), 4);
    assert_eq!(hist.hessians.len(), 4);
}

#[test]
fn test_from_feature_fewer_unique_values() {
    // Only 3 unique values, but requesting 10 bins
    let feature_vec = keys_of(&[1.0, 5.0, 10.0, 1.0, 5.0, 10.0]);
    let hist = Histogram::from_feature(&feature_vec, 10);

    // With 3 unique values, we only create 2 bins (3 boundaries)
    assert_eq!(hist.bins.len(), 3);
    assert_eq!(hist.bins, keys_of(&[1.0, 5.0, 10.0]));
    assert_eq!(hist.gradients.len(), 2);
    assert_eq!(hist.hessians.len(), 2);
}

#[test]
fn test_from_feature_single_value() {
    let feature_vec = keys_of(&[42.0, 42.0, 42.0, 42.0, 42.0]);
    let hist = Histogram::from_feature(&feature_vec, 5);

    // A single unique value gives the degenerate one-bin histogram
    assert_eq!(hist.bins.len(), 1);
    assert_eq!(float_of(hist.bins[0]), 42.0);
    assert_eq!(hist.gradients.len(), 1);
    assert_eq!(hist.hessians.len(), 1);
}

#[test]
fn test_from_feature_empty() {
    let feature_vec: Vec<u64> = vec![];
    let hist = Histogram::from_feature(&feature_vec, 5);

    // No values at all: every sequence is empty
    assert_eq!(hist.bins.len(), 0);
    assert_eq!(hist.gradients.len(), 0);
    assert_eq!(hist.hessians.len(), 0);
}

#[test]
fn test_search_bin_index() {
    let feature_values = keys_of(&[0.0, 2.0, 4.0, 6.0, 9.0]);
    let hist = Histogram::from_feature(&feature_values, 4);

    // test values that fall cleanly in bins
    assert_eq!(hist.search_bin_index(key_of(1.0)), 0);
    assert_eq!(hist.search_bin_index(key_of(3.0)), 1);
    assert_eq!(hist.search_bin_index(key_of(5.0)), 2);
    assert_eq!(hist.search_bin_index(key_of(7.0)), 3);

    assert_eq!(hist.search_bin_index(key_of(2.0)), 1);
    assert_eq!(hist.search_bin_index(key_of(4.0)), 2);

    assert_eq!(hist.search_bin_index(key_of(0.0)), 0);
    assert_eq!(hist.search_bin_index(key_of(9.0)), 3);
    assert_eq!(hist.search_bin_index(key_of(10.0)), 3);
}

#[test]
fn test_accumulate() {
    let feature_values = keys_of(&[1.0, 2.0, 3.0, 5.0, 7.0]);
    let mut hist = Histogram::from_feature(&feature_values, 2);

    let gradients = stats_of(&[-0.5, 0.3, -0.2, 0.4, 0.1]);
    let hessians = stats_of(&[1.0, 1.2, 0.9, 1.1, 1.0]);

    let outcome = hist.accumulate(&feature_values, &gradients, &hessians);
    assert!(outcome.is_ok());

    assert!(close(stat_float(hist.gradients[0]), -0.2));
    assert!(close(stat_float(hist.gradients[1]), 0.3));

    assert!(close(stat_float(hist.hessians[0]), 2.2));
    assert!(close(stat_float(hist.hessians[1]), 3.0));
}

#[test]
fn stats_are_one_per_interval() {
    // A non-degenerate column: one statistic pair per interval between
    // consecutive boundaries.
    let feature_vec = keys_of(&[3.5, -1.25, 0.0, 7.5, 3.5]);
    let hist = Histogram::from_feature(&feature_vec, 3);

    assert!(hist.bins.len() >= 2);
    assert_eq!(hist.bins.len() - 1, hist.gradients.len());
    assert_eq!(hist.bins.len() - 1, hist.hessians.len());
}

#[test]
fn ample_budget_gives_one_bin_per_gap() {
    // 4 unique values and a budget of 99: exactly 3 bins, and the
    // boundaries are the unique values themselves.
    let feature_vec = keys_of(&[8.0, 2.0, 6.0, 4.0]);
    let hist = Histogram::from_feature(&feature_vec, 99);

    assert_eq!(hist.bins, keys_of(&[2.0, 4.0, 6.0, 8.0]));
    assert_eq!(hist.gradients.len(), 3);
    assert_eq!(hist.hessians.len(), 3);
}

#[test]
fn construction_is_order_independent() {
    let a = keys_of(&[3.0, 1.0, 2.0, 3.0, 1.0]);
    let b = keys_of(&[1.0, 3.0, 2.0, 1.0, 3.0]);

    let ha = Histogram::from_feature(&a, 2);
    let hb = Histogram::from_feature(&b, 2);

    assert_eq!(ha.bins, hb.bins);
    assert_eq!(ha.gradients, hb.gradients);
    assert_eq!(ha.hessians, hb.hessians);
}

#[test]
fn accumulating_twice_doubles_every_bin() {
    let feature_values = keys_of(&[1.0, 2.0, 3.0, 5.0, 7.0]);
    let gradients = stats_of(&[-0.5, 0.3, -0.2, 0.4, 0.1]);
    let hessians = stats_of(&[1.0, 1.2, 0.9, 1.1, 1.0]);

    let mut once = Histogram::from_feature(&feature_values, 2);
    assert!(once.accumulate(&feature_values, &gradients, &hessians).is_ok());

    let mut twice = Histogram::from_feature(&feature_values, 2);
    assert!(twice.accumulate(&feature_values, &gradients, &hessians).is_ok());
    assert!(twice.accumulate(&feature_values, &gradients, &hessians).is_ok());

    for j in 0..once.gradients.len() {
        assert_eq!(twice.gradients[j], 2 * once.gradients[j]);
        assert_eq!(twice.hessians[j], 2 * once.hessians[j]);
    }
}

#[test]
fn lookup_clamps_at_both_ends() {
    let feature_values = keys_of(&[0.0, 2.0, 4.0, 6.0, 9.0]);
    let hist = Histogram::from_feature(&feature_values, 4);

    // below the smallest boundary
    assert_eq!(hist.search_bin_index(key_of(-100.0)), 0);
    assert_eq!(hist.search_bin_index(key_of(-0.5)), 0);
    // at and above the largest boundary
    assert_eq!(hist.search_bin_index(key_of(9.0)), 3);
    assert_eq!(hist.search_bin_index(key_of(1000.0)), 3);
}

#[test]
fn accumulate_rejects_mismatched_lengths() {
    let feature_values = keys_of(&[1.0, 2.0, 3.0]);
    let mut hist = Histogram::from_feature(&feature_values, 2);

    let gradients = stats_of(&[0.5, 0.5]);
    let hessians = stats_of(&[1.0, 1.0, 1.0]);

    let outcome = hist.accumulate(&feature_values, &gradients, &hessians);
    assert_eq!(outcome, Err(HistogramError::InputLengthMismatch));
    // nothing was touched
    assert!(hist.gradients.iter().all(|&g| g == 0));
    assert!(hist.hessians.iter().all(|&h| h == 0));
}

#[test]
fn accumulate_rejects_empty_histogram() {
    let empty: Vec<u64> = vec![];
    let mut hist = Histogram::from_feature(&empty, 5);

    let feature_values = keys_of(&[1.0]);
    let gradients = stats_of(&[0.5]);
    let hessians = stats_of(&[1.0]);

    let outcome = hist.accumulate(&feature_values, &gradients, &hessians);
    assert_eq!(outcome, Err(HistogramError::EmptyHistogram));
}

#[test]
fn single_value_histogram_takes_every_sample() {
    // The degenerate one-boundary histogram has one statistic pair, and
    // every value falls into that bin.
    let feature_vec = keys_of(&[42.0, 42.0, 42.0]);
    let mut hist = Histogram::from_feature(&feature_vec, 7);

    assert_eq!(hist.search_bin_index(key_of(-5.0)), 0);
    assert_eq!(hist.search_bin_index(key_of(42.0)), 0);
    assert_eq!(hist.search_bin_index(key_of(99.0)), 0);

    let samples = keys_of(&[41.0, 42.0, 43.0]);
    let gradients = stats_of(&[1.0, 1.0, 1.0]);
    let hessians = stats_of(&[2.0, 2.0, 2.0]);
    assert!(hist.accumulate(&samples, &gradients, &hessians).is_ok());
    assert!(close(stat_float(hist.gradients[0]), 3.0));
    assert!(close(stat_float(hist.hessians[0]), 6.0));
}

#[test]
fn boundaries_span_observed_range() {
    let feature_vec = keys_of(&[5.5, -3.0, 12.0, 0.25, 7.0, -3.0]);
    let hist = Histogram::from_feature(&feature_vec, 3);

    assert_eq!(float_of(*hist.bins.first().unwrap()), -3.0);
    assert_eq!(float_of(*hist.bins.last().unwrap()), 12.0);
}
