use spectral_shape::embedding::{embedding_points, embedding_window, nearest_neighbors};
use spectral_shape::order::order_key;

fn key(x: f64) -> i64 {
    order_key(x.to_bits())
}

#[test]
fn window_skips_trivial_eigenpair() {
    assert_eq!(embedding_window(&vec![false, true, true], 2), (1, 2));
    assert_eq!(embedding_window(&vec![false, true, true], 5), (1, 2));
    assert_eq!(embedding_window(&vec![true, true, true], 5), (0, 3));
    assert_eq!(embedding_window(&vec![], 2), (0, 0));
    assert_eq!(embedding_window(&vec![false, false], 2), (2, 0));
}

#[test]
fn window_skips_every_zero_eigenvalue() {
    // eigenvalues 0, 0, 2, 2 with dim 1: the eigenpair of the first 2.0
    let evals = vec![0.0, 0.0, 2.0, 2.0];
    let nonzero: Vec<bool> = evals.iter().map(|e: &f64| !(e.abs() < 1e-8)).collect();
    let (start, dim) = embedding_window(&nonzero, 1);
    assert_eq!((start, dim), (2, 1));
    let evecs = vec![
        vec![1.0, 0.0, 0.0, 0.0],
        vec![0.0, 1.0, 0.0, 0.0],
        vec![0.0, 0.0, 1.0, 0.0],
        vec![0.0, 0.0, 0.0, 1.0],
    ];
    let points = embedding_points(&evecs, start, dim);
    assert_eq!(evals[start..start + dim].to_vec(), vec![2.0]);
    assert_eq!(points, vec![vec![0.0], vec![0.0], vec![1.0], vec![0.0]]);
}

#[test]
fn points_transpose_selected_eigenvectors() {
    let evecs = vec![vec![0.1, 0.1, 0.1], vec![1.0, 2.0, 3.0], vec![4.0, 5.0, 6.0]];
    let points = embedding_points(&evecs, 1, 2);
    assert_eq!(points, vec![vec![1.0, 4.0], vec![2.0, 5.0], vec![3.0, 6.0]]);
    let none: Vec<Vec<f64>> = vec![];
    assert!(embedding_points(&none, 0, 0).is_empty());
}

#[test]
fn neighbors_exclude_self_and_sort_by_distance() {
    let dists = vec![0.0, 2.0, 0.5, 2.0, 1.0];
    let keys: Vec<i64> = dists.iter().map(|d: &f64| key(*d)).collect();
    assert_eq!(nearest_neighbors(&keys, 0, 3), vec![2, 4, 1]);
    assert_eq!(nearest_neighbors(&keys, 2, 10), vec![0, 4, 1, 3]);
}

#[test]
fn neighbor_count_capped_by_other_vertices() {
    // k-NN of a triangle with k = 2 gives both other vertices
    let keys = vec![key(0.0), key(1.0), key(1.0)];
    assert_eq!(nearest_neighbors(&keys, 0, 2).len(), 2);
    assert_eq!(nearest_neighbors(&vec![key(0.0)], 0, 2).len(), 0);
    assert_eq!(nearest_neighbors(&vec![], 0, 2).len(), 0);
}
