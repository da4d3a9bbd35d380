use spectral_shape::laplacian::{
    columns_in_order, diagonal, fiedler_index, is_square, permute, sort_eigenpairs,
    spectral_gap_indices,
};
use spectral_shape::order::order_key;

fn key(x: f64) -> i64 {
    order_key(x.to_bits())
}

#[test]
fn test_spectral_gap() {
    let evals = vec![0.0, 1.0, 3.5];
    let nonzero: Vec<bool> = evals.iter().map(|e: &f64| e.abs() > 1e-10).collect();
    let (a, b) = spectral_gap_indices(&nonzero).unwrap();
    let gap = (evals[b] - evals[a]).abs();
    // Non-zero eigenvalues are 1.0, 3.5; gap = |3.5 - 1.0| = 2.5
    assert!((gap - 2.5).abs() < 1e-10);
}

#[test]
fn test_spectral_gap_too_few() {
    let evals = vec![0.0];
    let nonzero: Vec<bool> = evals.iter().map(|e: &f64| e.abs() > 1e-10).collect();
    assert!(spectral_gap_indices(&nonzero).is_none());
}

#[test]
fn spectral_gap_skips_zeros_between() {
    let nonzero = vec![false, true, false, false, true, true];
    assert_eq!(spectral_gap_indices(&nonzero), Some((1, 4)));
    assert_eq!(spectral_gap_indices(&vec![true, false]), None);
    assert_eq!(spectral_gap_indices(&vec![]), None);
}

#[test]
fn square_check_refuses_ragged_and_empty() {
    let adj = vec![vec![0.0, 1.0], vec![1.0, 0.0, 1.0]];
    assert!(!is_square(&adj));
    let empty: Vec<Vec<f64>> = vec![];
    assert!(!is_square(&empty));
    let k3 = vec![vec![0.0, 1.0, 1.0], vec![1.0, 0.0, 1.0], vec![1.0, 1.0, 0.0]];
    assert!(is_square(&k3));
}

#[test]
fn diagonal_reads_degrees() {
    // Laplacian of the path 0-1-2
    let lap = vec![vec![1.0, -1.0, 0.0], vec![-1.0, 2.0, -1.0], vec![0.0, -1.0, 1.0]];
    assert_eq!(diagonal(&lap, 3), vec![1.0, 2.0, 1.0]);
    assert_eq!(diagonal(&lap, 2), vec![1.0, 2.0]);
}

#[test]
fn eigenpairs_sorted_ascending_with_columns() {
    let values = vec![2.0, 0.0, 1.0];
    let keys: Vec<i64> = values.iter().map(|v: &f64| key(*v)).collect();
    let q = vec![vec![1.0, 2.0, 3.0], vec![4.0, 5.0, 6.0], vec![7.0, 8.0, 9.0]];
    let (vals, vecs) = sort_eigenpairs(&values, &keys, &q);
    assert_eq!(vals, vec![0.0, 1.0, 2.0]);
    assert_eq!(vecs, vec![vec![2.0, 5.0, 8.0], vec![3.0, 6.0, 9.0], vec![1.0, 4.0, 7.0]]);
}

#[test]
fn permute_and_columns() {
    assert_eq!(permute(&vec![10, 20, 30], &vec![2, 2, 0]), vec![30, 30, 10]);
    let m = vec![vec![1, 2], vec![3, 4]];
    assert_eq!(columns_in_order(&m, &vec![1]), vec![vec![2, 4]]);
}

#[test]
fn fiedler_pair_is_second() {
    assert_eq!(fiedler_index(3), 1);
    assert_eq!(fiedler_index(2), 1);
    assert_eq!(fiedler_index(1), 0);
    assert_eq!(fiedler_index(0), 0);
}
