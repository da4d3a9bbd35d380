use spectral_shape::descriptor::{
    assign_to_nearest, cluster_sizes, concat_features, feature_dim, initial_centroid_vertices,
    BehaviorPattern, ShapeClustering, ShapeDistance, SpectralTests,
};
use spectral_shape::order::order_key;

fn key(x: f64) -> i64 {
    order_key(x.to_bits())
}

fn tests_for(gap: f64, conn: f64) -> SpectralTests {
    SpectralTests {
        gap_above_two: gap > 2.0,
        connectivity_above_one: conn > 1.0,
        gap_above_one: gap > 1.0,
        connectivity_above_half: conn > 0.5,
        gap_below_half: gap < 0.5,
        connectivity_below_three_tenths: conn < 0.3,
    }
}

#[test]
fn classification_rule_order() {
    assert_eq!(BehaviorPattern::from_tests(&tests_for(3.0, 2.0)), BehaviorPattern::Stable);
    assert_eq!(BehaviorPattern::from_tests(&tests_for(1.5, 0.6)), BehaviorPattern::Oscillating);
    assert_eq!(BehaviorPattern::from_tests(&tests_for(3.0, 0.6)), BehaviorPattern::Oscillating);
    assert_eq!(BehaviorPattern::from_tests(&tests_for(0.1, 0.1)), BehaviorPattern::Chaotic);
    assert_eq!(BehaviorPattern::from_tests(&tests_for(0.1, 0.4)), BehaviorPattern::Transitioning);
    assert_eq!(BehaviorPattern::from_tests(&tests_for(1.0, 3.0)), BehaviorPattern::Transitioning);
}

#[test]
fn features_concatenate_per_vertex() {
    let hks = vec![vec![1.0, 2.0], vec![3.0, 4.0]];
    let wks = vec![vec![5.0], vec![6.0]];
    let emb = vec![vec![7.0, 8.0, 9.0], vec![10.0, 11.0, 12.0]];
    let f = concat_features(&hks, &wks, &emb);
    assert_eq!(f[0], vec![1.0, 2.0, 5.0, 7.0, 8.0, 9.0]);
    assert_eq!(f[1], vec![3.0, 4.0, 6.0, 10.0, 11.0, 12.0]);
    // 2 HKS + 1 WKS + 3 embedding
    assert_eq!(feature_dim(&f), 6);
    let empty: Vec<Vec<f64>> = vec![];
    assert_eq!(feature_dim(&empty), 0);
}

#[test]
fn emd_picks_sorted_median() {
    let d = vec![key(4.0), key(1.0), key(3.0), key(2.0)];
    // sorted: 1, 2, 3, 4; position 2 holds 3.0, index 2
    assert_eq!(ShapeDistance::emd_median_index(&d), Some(2));
    assert_eq!(ShapeDistance::emd_median_index(&vec![key(9.0)]), Some(0));
    assert_eq!(ShapeDistance::emd_median_index(&vec![]), None);
}

#[test]
fn cluster_members_list_assigned_vertices() {
    let cl = ShapeClustering { assignments: vec![0, 1, 0, 2, 1], k: 3 };
    assert_eq!(cl.cluster_members(0), vec![0, 2]);
    assert_eq!(cl.cluster_members(1), vec![1, 4]);
    assert_eq!(cl.cluster_members(2), vec![3]);
    assert!(cl.cluster_members(5).is_empty());
}

#[test]
fn clusters_partition_vertices() {
    let cl = ShapeClustering { assignments: vec![1, 1, 0, 2, 0, 1], k: 3 };
    let mut seen = vec![0usize; cl.assignments.len()];
    for c in 0..cl.k {
        for v in cl.cluster_members(c) {
            assert_eq!(cl.assignments[v], c);
            seen[v] += 1;
        }
    }
    assert!(seen.iter().all(|&s| s == 1));
    assert_eq!(cluster_sizes(&cl.assignments, 3), vec![2, 3, 1]);
}

#[test]
fn seeds_evenly_spaced() {
    assert_eq!(initial_centroid_vertices(4, 2), vec![0, 2]);
    assert_eq!(initial_centroid_vertices(3, 2), vec![0, 1]);
    assert_eq!(initial_centroid_vertices(2, 5), vec![0, 1]);
    assert_eq!(initial_centroid_vertices(0, 3), Vec::<usize>::new());
    assert_eq!(initial_centroid_vertices(10, 3), vec![0, 3, 6]);
}

#[test]
fn assignment_moves_to_nearest_centroid() {
    let inf = key(f64::INFINITY);
    let mut a = vec![0, 0, 0];
    let d = vec![
        vec![key(1.0), key(2.0)],
        vec![key(3.0), key(0.5)],
        vec![key(2.0), key(2.0)],
    ];
    assert!(assign_to_nearest(&mut a, &d, inf));
    assert_eq!(a, vec![0, 1, 0]);
    // a second pass changes nothing
    assert!(!assign_to_nearest(&mut a, &d, inf));
}
