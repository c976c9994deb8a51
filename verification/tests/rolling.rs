use neurofinance::rolling::{rolling_apply, trailing_windows};

fn apply(values: &[f64], window: usize, min_periods: usize, f: impl Fn(&[f64]) -> f64) -> Vec<Option<f64>> {
    rolling_apply(values, window, min_periods, f)
}

fn mean(s: &[f64]) -> f64 {
    s.iter().sum::<f64>() / s.len() as f64
}

#[test]
fn window_never_includes_future_values() {
    let values = vec![1.0, 2.0, 3.0, 4.0, 5.0];
    let result = apply(&values, 3, 1, |w| w.iter().cloned().fold(f64::MIN, f64::max));
    assert_eq!(result, vec![Some(1.0), Some(2.0), Some(3.0), Some(4.0), Some(5.0)]);
}

#[test]
fn respects_window_size() {
    let values = vec![1.0, 1.0, 1.0, 100.0, 1.0, 1.0];
    let result = apply(&values, 2, 1, |w| w.iter().sum());
    assert_eq!(
        result,
        vec![Some(1.0), Some(2.0), Some(2.0), Some(101.0), Some(101.0), Some(2.0)]
    );
}

#[test]
fn below_min_periods_is_none() {
    let values = vec![1.0, 2.0, 3.0];
    let result = apply(&values, 3, 3, |w| w.iter().sum());
    assert_eq!(result, vec![None, None, Some(6.0)]);
}

#[test]
fn rolling_prefix_computation_matches_full_computation() {
    let values = vec![3.0, 1.0, 4.0, 1.0, 5.0, 9.0, 2.0, 6.0];
    let full = apply(&values, 3, 2, mean);
    for prefix_len in 1..=values.len() {
        let prefix = apply(&values[..prefix_len], 3, 2, mean);
        assert_eq!(prefix, full[..prefix_len], "mismatch at prefix_len={prefix_len}");
    }
}

#[test]
fn window_ranges_are_exact() {
    assert_eq!(
        trailing_windows(5, 3, 2),
        vec![None, Some((0, 2)), Some((0, 3)), Some((1, 4)), Some((2, 5))]
    );
    assert!(trailing_windows(0, 3, 1).is_empty());
}

#[test]
fn rolling_apply_works_on_integers_too() {
    let values: Vec<i64> = vec![5, -1, 7, 2];
    let sums = rolling_apply(&values, 2, 2, |w: &[i64]| w.iter().sum());
    assert_eq!(sums, vec![None, Some(4), Some(6), Some(9)]);
}
