use spectral_shape::order::{first_argmax_above, first_argmin_below, order_key, stable_argsort};

fn key(x: f64) -> i64 {
    order_key(x.to_bits())
}

#[test]
fn order_key_follows_value_order() {
    let values = [-f64::INFINITY, -3.5, -1.0, -1e-300, 0.0, 1e-300, 0.5, 2.0, f64::INFINITY];
    for w in values.windows(2) {
        assert!(key(w[0]) < key(w[1]), "{} vs {}", w[0], w[1]);
    }
}

#[test]
fn order_key_merges_the_zeros() {
    assert_eq!(key(0.0), 0);
    assert_eq!(key(-0.0), 0);
    assert_eq!(key(1.0), 1.0f64.to_bits() as i64);
    assert_eq!(key(-1.0), -(1.0f64.to_bits() as i64));
}

#[test]
fn stable_argsort_orders_and_keeps_ties() {
    let keys = vec![key(3.0), key(1.0), key(2.0), key(1.0), key(-5.0)];
    assert_eq!(stable_argsort(&keys), vec![4, 1, 3, 2, 0]);
}

#[test]
fn stable_argsort_empty_and_single() {
    assert_eq!(stable_argsort(&vec![]), Vec::<usize>::new());
    assert_eq!(stable_argsort(&vec![7]), vec![0]);
}

#[test]
fn argmin_takes_first_smallest_below_bound() {
    let keys = vec![5, 2, 9, 2, 3];
    assert_eq!(first_argmin_below(&keys, i64::MAX), 1);
    // nothing below the bound: cluster 0
    assert_eq!(first_argmin_below(&keys, 2), 0);
    assert_eq!(first_argmin_below(&vec![], 10), 0);
    let inf = key(f64::INFINITY);
    assert_eq!(first_argmin_below(&vec![inf, inf], inf), 0);
    assert_eq!(first_argmin_below(&vec![inf, key(4.0)], inf), 1);
}

#[test]
fn argmax_takes_first_largest_above_bound() {
    let keys = vec![1, 8, 3, 8, 0];
    assert_eq!(first_argmax_above(&keys, i64::MIN), 1);
    assert_eq!(first_argmax_above(&keys, 8), 0);
    assert_eq!(first_argmax_above(&vec![], 0), 0);
}
