use spectral_shape::order::order_key;
use spectral_shape::scale::{detect_extrema, mirror_pair, ScaleInvariance};
use spectral_shape::wave::find_peaks;

fn key(x: f64) -> i64 {
    order_key(x.to_bits())
}

fn maybe_key(x: f64) -> Option<i64> {
    if x.is_nan() {
        None
    } else {
        Some(key(x))
    }
}

fn keys(rows: &[Vec<f64>]) -> Vec<Vec<Option<i64>>> {
    rows.iter().map(|r| r.iter().map(|x| maybe_key(*x)).collect()).collect()
}

#[test]
fn mirror_reflects_at_both_ends() {
    assert_eq!(mirror_pair(2, 1, 5), (1, 3));
    assert_eq!(mirror_pair(0, 2, 5), (2, 2));
    assert_eq!(mirror_pair(4, 1, 5), (3, 3));
    assert_eq!(mirror_pair(4, 4, 5), (0, 0));
    assert_eq!(mirror_pair(1, 4, 5), (3, 3));
}

#[test]
fn flat_scale_space_has_no_extrema() {
    let rows = vec![vec![1.0; 20]; 5];
    assert!(detect_extrema(&keys(&rows), 20).is_empty());
    // rows constant along the signal but different across scales
    let rows: Vec<Vec<f64>> = (0..5).map(|s| vec![s as f64 * 0.5; 20]).collect();
    assert!(detect_extrema(&keys(&rows), 20).is_empty());
}

#[test]
fn undefined_samples_compare_with_nothing() {
    let rows = vec![
        vec![0.0, 0.2, 0.4, 0.2, 0.0],
        vec![0.0, 0.5, 1.0, 0.5, 0.0],
        vec![0.0, 0.3, f64::NAN, 0.3, 0.0],
    ];
    assert!(detect_extrema(&keys(&rows), 5).is_empty());
    let mags: Vec<Option<i64>> = [0.0, 3.0, f64::NAN, 2.0, 1.0].iter().map(|x| maybe_key(*x)).collect();
    assert_eq!(find_peaks(&mags, maybe_key(0.5)), Vec::<usize>::new());
    let mags: Vec<Option<i64>> = [0.0, 3.0, 1.0].iter().map(|x| maybe_key(*x)).collect();
    assert_eq!(find_peaks(&mags, maybe_key(f64::NAN)), Vec::<usize>::new());
    assert_eq!(find_peaks(&mags, maybe_key(0.5)), vec![1]);
}

#[test]
fn extremum_in_space_and_scale() {
    let rows = vec![
        vec![0.0, 0.2, 0.4, 0.2, 0.0],
        vec![0.0, 0.5, 1.0, 0.5, 0.0],
        vec![0.0, 0.3, 0.6, 0.3, 0.0],
    ];
    assert_eq!(detect_extrema(&keys(&rows), 5), vec![(2, 1)]);
    // a minimum in space that is a maximum in scale counts too
    let rows = vec![
        vec![0.0, 0.0, -1.0, 0.0, 0.0],
        vec![1.0, 1.0, 0.5, 1.0, 1.0],
        vec![0.0, 0.0, -1.0, 0.0, 0.0],
    ];
    assert_eq!(detect_extrema(&keys(&rows), 5), vec![(2, 1)]);
    // too few scales
    assert!(detect_extrema(&keys(&rows[..2]), 5).is_empty());
}

#[test]
fn max_normalizer_picks_largest() {
    let t = key(1e-15);
    let d = vec![key(2.0), key(-4.0), key(1.0)];
    assert_eq!(ScaleInvariance::max_normalizer(&d, t), Some(0));
    let small = vec![key(-3.0), key(0.0)];
    assert_eq!(ScaleInvariance::max_normalizer(&small, t), None);
    assert_eq!(ScaleInvariance::max_normalizer(&vec![], t), None);
}

#[test]
fn peaks_above_neighbors_and_threshold() {
    let mags: Vec<Option<i64>> =
        [0.0, 3.0, 1.0, 2.0, 1.0, 5.0, 5.0, 0.0].iter().map(|x| maybe_key(*x)).collect();
    assert_eq!(find_peaks(&mags, maybe_key(1.5)), vec![1, 3]);
    assert_eq!(find_peaks(&mags, maybe_key(2.5)), vec![1]);
    assert!(find_peaks(&vec![maybe_key(0.0), maybe_key(1.0)], maybe_key(0.0)).is_empty());
}
