//! Shape descriptors: the layout of the combined feature vectors, the
//! behaviour classification rule, the median pick of the approximate earth
//! mover's distance, and the discrete half of k-means clustering.
use vstd::prelude::*;
use vstd::arithmetic::div_mod::{
    lemma_div_by_multiple, lemma_div_by_multiple_is_strongly_ordered, lemma_div_is_ordered,
    lemma_div_plus_one,
};
use crate::order::{
    first_argmin_below, is_first_min, is_index_permutation, some_below, stable_argsort,
    stably_sorted,
};

verus! {

// ---- feature vectors ----

/// Appends `row` to `out`.
fn append_row<T: Copy>(out: &mut Vec<T>, row: &Vec<T>)
    ensures
        final(out)@ == old(out)@ + row@,
{
    let mut i: usize = 0;
    while i < row.len()
        invariant
            i <= row@.len(),
            out@ == old(out)@ + row@.take(i as int),
        decreases row@.len() - i,
    {
        out.push(row[i]);
        i = i + 1;
        assert(out@ =~= old(out)@ + row@.take(i as int));
    }
    assert(row@.take(row@.len() as int) =~= row@);
}

/// The combined feature vector of every vertex: its heat kernel signature,
/// then its wave kernel signature, then its embedding coordinates.
pub fn concat_features<T: Copy>(hks: &Vec<Vec<T>>, wks: &Vec<Vec<T>>, points: &Vec<Vec<T>>) -> (features:
    Vec<Vec<T>>)
    requires
        wks@.len() == hks@.len(),
        points@.len() == hks@.len(),
    ensures
        features@.len() == hks@.len(),
        forall|v: int|
            0 <= v < hks@.len() ==> (#[trigger] features@[v])@ == hks@[v]@ + wks@[v]@ + points@[v]@,
{
    let n = hks.len();
    let mut features: Vec<Vec<T>> = Vec::new();
    let mut v: usize = 0;
    while v < n
        invariant
            n == hks@.len(),
            wks@.len() == n,
            points@.len() == n,
            v <= n,
            features@.len() == v,
            forall|u: int|
                0 <= u < v ==> (#[trigger] features@[u])@ == hks@[u]@ + wks@[u]@ + points@[u]@,
        decreases n - v,
    {
        let mut feat: Vec<T> = Vec::new();
        append_row(&mut feat, &hks[v]);
        append_row(&mut feat, &wks[v]);
        append_row(&mut feat, &points[v]);
        assert(feat@ =~= hks@[v as int]@ + wks@[v as int]@ + points@[v as int]@);
        features.push(feat);
        v = v + 1;
    }
    features
}

/// The dimension of a feature table: the length of its first row, or 0
/// when it has no rows.
pub open spec fn spec_feature_dim<T>(features: Seq<Vec<T>>) -> nat {
    if features.len() > 0 { features[0]@.len() } else { 0 }
}

/// Total dimensionality of the feature vectors.
pub fn feature_dim<T>(features: &Vec<Vec<T>>) -> (dim: usize)
    ensures
        dim == spec_feature_dim(features@),
{
    if features.len() > 0 { features[0].len() } else { 0 }
}

/// The feature dimension of a combined table is the sum of the
/// dimensions of its three parts.
pub proof fn lemma_feature_dim_adds<T>(
    hks: Seq<Vec<T>>,
    wks: Seq<Vec<T>>,
    points: Seq<Vec<T>>,
    features: Seq<Vec<T>>,
)
    requires
        wks.len() == hks.len(),
        points.len() == hks.len(),
        features.len() == hks.len(),
        forall|v: int| 0 <= v < hks.len() ==> (#[trigger] features[v])@ == hks[v]@ + wks[v]@ + points[v]@,
    ensures
        spec_feature_dim(features) == spec_feature_dim(hks) + spec_feature_dim(wks)
            + spec_feature_dim(points),
{
    if hks.len() > 0 {
        assert(features[0]@ == hks[0]@ + wks[0]@ + points[0]@);
    }
}

// ---- classification ----

/// Behavior pattern classification.
#[derive(Debug, Clone, Copy, PartialEq, Eq, Structural)]
pub enum BehaviorPattern {
    /// Stable, well-connected behavior
    Stable,
    /// Oscillating between states
    Oscillating,
    /// Chaotic, irregular behavior
    Chaotic,
    /// Transitioning between patterns
    Transitioning,
}

/// The threshold tests on the spectral gap and the algebraic connectivity
/// that the classification rule reads.
#[derive(Debug, Clone, Copy, PartialEq, Eq, Structural)]
pub struct SpectralTests {
    /// spectral gap > 2
    pub gap_above_two: bool,
    /// algebraic connectivity > 1
    pub connectivity_above_one: bool,
    /// spectral gap > 1
    pub gap_above_one: bool,
    /// algebraic connectivity > 1/2
    pub connectivity_above_half: bool,
    /// spectral gap < 1/2
    pub gap_below_half: bool,
    /// algebraic connectivity < 3/10
    pub connectivity_below_three_tenths: bool,
}

/// The classification rule: large gap and high connectivity is stable;
/// else medium gap and moderate connectivity is oscillating; else small
/// gap and low connectivity is chaotic; anything else is transitioning.
pub open spec fn classification_rule(t: SpectralTests) -> BehaviorPattern {
    if t.gap_above_two && t.connectivity_above_one {
        BehaviorPattern::Stable
    } else if t.gap_above_one && t.connectivity_above_half {
        BehaviorPattern::Oscillating
    } else if t.gap_below_half && t.connectivity_below_three_tenths {
        BehaviorPattern::Chaotic
    } else {
        BehaviorPattern::Transitioning
    }
}

/// What each pattern means: stable exactly on a large gap with high
/// connectivity; oscillating exactly when not stable but with a medium gap
/// and moderate connectivity; chaotic only on a small gap with low
/// connectivity; and transitioning whenever no rule applies, in particular
/// whenever the gap is not small and neither of the first two rules holds.
pub proof fn lemma_classification(t: SpectralTests)
    ensures
        classification_rule(t) == BehaviorPattern::Stable <==> t.gap_above_two
            && t.connectivity_above_one,
        classification_rule(t) == BehaviorPattern::Oscillating <==> !(t.gap_above_two
            && t.connectivity_above_one) && t.gap_above_one && t.connectivity_above_half,
        classification_rule(t) == BehaviorPattern::Chaotic ==> t.gap_below_half
            && t.connectivity_below_three_tenths,
        classification_rule(t) == BehaviorPattern::Chaotic <==> !(t.gap_above_two
            && t.connectivity_above_one) && !(t.gap_above_one && t.connectivity_above_half)
            && t.gap_below_half && t.connectivity_below_three_tenths,
        !(t.gap_above_two && t.connectivity_above_one) && !(t.gap_above_one
            && t.connectivity_above_half) && !t.gap_below_half ==> classification_rule(t)
            == BehaviorPattern::Transitioning,
        !(t.gap_above_two && t.connectivity_above_one) && !(t.gap_above_one
            && t.connectivity_above_half) && !t.connectivity_below_three_tenths
            ==> classification_rule(t) == BehaviorPattern::Transitioning,
{
}

impl BehaviorPattern {
    /// Classify from the threshold tests.
    pub fn from_tests(t: &SpectralTests) -> (p: BehaviorPattern)
        ensures
            p == classification_rule(*t),
            p == BehaviorPattern::Stable <==> t.gap_above_two && t.connectivity_above_one,
            p == BehaviorPattern::Oscillating <==> !(t.gap_above_two && t.connectivity_above_one)
                && t.gap_above_one && t.connectivity_above_half,
            p == BehaviorPattern::Chaotic ==> t.gap_below_half && t.connectivity_below_three_tenths,
            p == BehaviorPattern::Chaotic <==> !(t.gap_above_two && t.connectivity_above_one)
                && !(t.gap_above_one && t.connectivity_above_half) && t.gap_below_half
                && t.connectivity_below_three_tenths,
            !(t.gap_above_two && t.connectivity_above_one) && !(t.gap_above_one
                && t.connectivity_above_half) && !(t.gap_below_half
                && t.connectivity_below_three_tenths) ==> p == BehaviorPattern::Transitioning,
    {
        if t.gap_above_two && t.connectivity_above_one {
            BehaviorPattern::Stable
        } else if t.gap_above_one && t.connectivity_above_half {
            BehaviorPattern::Oscillating
        } else if t.gap_below_half && t.connectivity_below_three_tenths {
            BehaviorPattern::Chaotic
        } else {
            BehaviorPattern::Transitioning
        }
    }
}

/// Distance between two shape descriptors.
pub struct ShapeDistance;

impl ShapeDistance {
    /// The pairwise distance that stands for the approximate earth mover's
    /// distance: the one at position `len / 2` once the distances are sorted
    /// stably, or `None` when there are no pairs.
    pub fn emd_median_index(dist_keys: &Vec<i64>) -> (r: Option<usize>)
        ensures
            r is None <==> dist_keys@.len() == 0,
            r matches Some(i) ==> exists|order: Seq<usize>|
                {
                    &&& is_index_permutation(order, dist_keys@.len())
                    &&& stably_sorted(dist_keys@, order)
                    &&& order[(dist_keys@.len() / 2) as int] == i
                },
    {
        if dist_keys.len() == 0 {
            return None;
        }
        let order = stable_argsort(dist_keys);
        let mid = dist_keys.len() / 2;
        let i = order[mid];
        assert(order@[(dist_keys@.len() / 2) as int] == i);
        Some(i)
    }
}


// ---- clustering ----

/// The vertices assigned to `cluster`, in ascending order.
pub open spec fn members_of(assignments: Seq<usize>, cluster: usize) -> Seq<usize>
    decreases assignments.len(),
{
    if assignments.len() == 0 {
        Seq::empty()
    } else {
        let rest = members_of(assignments.drop_last(), cluster);
        if assignments.last() == cluster {
            rest.push((assignments.len() - 1) as usize)
        } else {
            rest
        }
    }
}

/// A vertex is listed for a cluster exactly when it is assigned to it, and
/// the list is strictly ascending.
pub proof fn lemma_members_of(assignments: Seq<usize>, cluster: usize)
    requires
        assignments.len() <= usize::MAX,
    ensures
        forall|v: usize|
            #[trigger] members_of(assignments, cluster).contains(v) <==> (v < assignments.len()
                && assignments[v as int] == cluster),
        forall|t: int, u: int|
            0 <= t < u < members_of(assignments, cluster).len() ==> members_of(assignments, cluster)[t]
                < members_of(assignments, cluster)[u],
        forall|t: int|
            0 <= t < members_of(assignments, cluster).len() ==> #[trigger] members_of(
                assignments,
                cluster,
            )[t] < assignments.len(),
        members_of(assignments, cluster).len() <= assignments.len(),
    decreases assignments.len(),
{
    if assignments.len() > 0 {
        let init = assignments.drop_last();
        lemma_members_of(init, cluster);
        let rest = members_of(init, cluster);
        let last = (assignments.len() - 1) as usize;
        assert forall|v: usize|
            #[trigger] members_of(assignments, cluster).contains(v) <==> (v < assignments.len()
                && assignments[v as int] == cluster) by {
            if v < last {
                assert(init[v as int] == assignments[v as int]);
            }
            if assignments.last() == cluster {
                let m = rest.push(last);
                if rest.contains(v) {
                    let t = choose|t: int| 0 <= t < rest.len() && rest[t] == v;
                    assert(m[t] == v);
                }
                if m.contains(v) && v != last {
                    let t = choose|t: int| 0 <= t < m.len() && m[t] == v;
                    assert(rest[t] == v);
                }
                if v == last {
                    assert(m[rest.len() as int] == v);
                }
            }
        }
    }
}

/// Every vertex belongs to exactly one cluster: the one it is assigned to.
pub proof fn lemma_clusters_partition(assignments: Seq<usize>, v: usize, cluster: usize)
    requires
        assignments.len() <= usize::MAX,
        v < assignments.len(),
    ensures
        members_of(assignments, assignments[v as int]).contains(v),
        cluster != assignments[v as int] ==> !members_of(assignments, cluster).contains(v),
{
    lemma_members_of(assignments, assignments[v as int]);
    lemma_members_of(assignments, cluster);
}

/// Cluster assignments of the vertices, as k-means leaves them.
pub struct ShapeClustering {
    /// Cluster assignments for each vertex
    pub assignments: Vec<usize>,
    /// Number of clusters
    pub k: usize,
}

impl ShapeClustering {
    /// Get the vertices belonging to a specific cluster.
    pub fn cluster_members(&self, cluster: usize) -> (members: Vec<usize>)
        ensures
            members@ == members_of(self.assignments@, cluster),
    {
        let mut members: Vec<usize> = Vec::new();
        let mut i: usize = 0;
        while i < self.assignments.len()
            invariant
                i <= self.assignments@.len(),
                members@ == members_of(self.assignments@.take(i as int), cluster),
            decreases self.assignments@.len() - i,
        {
            assert(self.assignments@.take(i + 1).drop_last() =~= self.assignments@.take(i as int));
            if self.assignments[i] == cluster {
                members.push(i);
            }
            i = i + 1;
        }
        assert(self.assignments@.take(self.assignments@.len() as int) =~= self.assignments@);
        members
    }
}

/// The number of clusters k-means works with: `k`, but no more than there
/// are vertices.
pub open spec fn kmeans_cluster_count(n: nat, k: nat) -> nat {
    if k <= n { k } else { n }
}

/// The vertex whose features seed centroid `i`: vertices evenly spaced
/// over `0..n`.
pub open spec fn seed_vertex(i: nat, n: nat, count: nat) -> int {
    let q: int = ((i * n) as int) / (count as int);
    if q <= n - 1 { q } else { n - 1 }
}

/// Evenly spaced seeds are strictly increasing, so no vertex seeds two
/// centroids.
pub proof fn lemma_seeds_increase(i: nat, j: nat, n: nat, count: nat)
    requires
        i < j < count,
        count <= n,
    ensures
        seed_vertex(i, n, count) < seed_vertex(j, n, count),
{
    let a: int = (i * n) as int;
    let b: int = (j * n) as int;
    assert(a + count <= b) by (nonlinear_arith)
        requires
            i < j,
            count <= n,
            a == i * n,
            b == j * n,
    ;
    assert(b < n * count) by (nonlinear_arith)
        requires
            j < count,
            b == j * n,
            n > 0,
    ;
    lemma_div_plus_one(a, count as int);
    lemma_div_is_ordered(a + count, b, count as int);
    lemma_div_by_multiple_is_strongly_ordered(b, (n * count) as int, n as int, count as int);
    lemma_div_by_multiple(n as int, count as int);
}

/// The vertices whose feature vectors seed the centroids, one per cluster.
pub fn initial_centroid_vertices(n: usize, k: usize) -> (seeds: Vec<usize>)
    ensures
        seeds@.len() == kmeans_cluster_count(n as nat, k as nat),
        forall|i: int|
            0 <= i < seeds@.len() ==> #[trigger] seeds@[i] == seed_vertex(
                i as nat,
                n as nat,
                seeds@.len(),
            ),
        forall|i: int| 0 <= i < seeds@.len() ==> #[trigger] seeds@[i] < n,
        forall|i: int, j: int| #![trigger seeds@[i], seeds@[j]] 0 <= i < j < seeds@.len() ==> seeds@[i] < seeds@[j],
{
    let count: usize = if k <= n { k } else { n };
    let mut seeds: Vec<usize> = Vec::new();
    let mut i: usize = 0;
    while i < count
        invariant
            count == kmeans_cluster_count(n as nat, k as nat),
            count <= n,
            i <= count,
            seeds@.len() == i,
            forall|j: int|
                0 <= j < i ==> #[trigger] seeds@[j] == seed_vertex(j as nat, n as nat, count as nat),
            forall|j: int| 0 <= j < i ==> #[trigger] seeds@[j] < n,
        decreases count - i,
    {
        let wide_i = i as u128;
        let wide_n = n as u128;
        assert(wide_i * wide_n <= u128::MAX) by (nonlinear_arith)
            requires
                wide_i < 0x1_0000_0000_0000_0000,
                wide_n < 0x1_0000_0000_0000_0000,
        ;
        let q = wide_i * wide_n / (count as u128);
        let last = n - 1;
        let seed: usize = if q <= last as u128 { q as usize } else { last };
        seeds.push(seed);
        i = i + 1;
    }
    proof {
        assert forall|a: int, b: int| #![trigger seeds@[a], seeds@[b]] 0 <= a < b < seeds@.len()
            implies seeds@[a] < seeds@[b] by {
            lemma_seeds_increase(a as nat, b as nat, n as nat, count as nat);
        }
    }
    seeds
}

/// The cluster a vertex joins: the first closest centroid, when its
/// distance key lies below `bound`; cluster 0 otherwise.
pub open spec fn nearest_below(keys: Seq<i64>, bound: i64) -> int {
    if some_below(keys, bound) {
        choose|r: int| is_first_min(keys, r)
    } else {
        0
    }
}

/// There is only one first position of the smallest key.
proof fn lemma_first_min_unique(keys: Seq<i64>, r: int, s: int)
    requires
        is_first_min(keys, r),
        is_first_min(keys, s),
    ensures
        r == s,
{
    if r < s {
        assert(keys[s] < keys[r]);
    } else if s < r {
        assert(keys[r] < keys[s]);
    }
}

/// The assignment step of k-means: every vertex moves to its nearest
/// centroid. `dist_keys[i][c]` orders the distance from vertex `i` to
/// centroid `c`; `bound` orders the starting distance of the scan.
/// Returns whether any vertex changed cluster.
pub fn assign_to_nearest(assignments: &mut Vec<usize>, dist_keys: &Vec<Vec<i64>>, bound: i64) -> (changed: bool)
    requires
        dist_keys@.len() == old(assignments)@.len(),
    ensures
        final(assignments)@.len() == old(assignments)@.len(),
        forall|i: int|
            0 <= i < dist_keys@.len() ==> #[trigger] final(assignments)@[i] == nearest_below(
                dist_keys@[i]@,
                bound,
            ),
        forall|i: int|
            0 <= i < dist_keys@.len() && dist_keys@[i]@.len() > 0 ==> #[trigger] final(assignments)@[i]
                < dist_keys@[i]@.len(),
        changed <==> exists|i: int|
            0 <= i < dist_keys@.len() && #[trigger] old(assignments)@[i] != final(assignments)@[i],
{
    let n = assignments.len();
    let mut changed = false;
    let mut i: usize = 0;
    while i < n
        invariant
            n == old(assignments)@.len(),
            n == dist_keys@.len(),
            assignments@.len() == n,
            i <= n,
            forall|j: int|
                0 <= j < i ==> #[trigger] assignments@[j] == nearest_below(dist_keys@[j]@, bound),
            forall|j: int|
                0 <= j < i && dist_keys@[j]@.len() > 0 ==> #[trigger] assignments@[j]
                    < dist_keys@[j]@.len(),
            forall|j: int| i <= j < n ==> #[trigger] assignments@[j] == old(assignments)@[j],
            changed <==> exists|j: int|
                0 <= j < i && #[trigger] old(assignments)@[j] != assignments@[j],
        decreases n - i,
    {
        let best = first_argmin_below(&dist_keys[i], bound);
        proof {
            if some_below(dist_keys@[i as int]@, bound) {
                let r = choose|r: int| is_first_min(dist_keys@[i as int]@, r);
                lemma_first_min_unique(dist_keys@[i as int]@, r, best as int);
            }
        }
        if assignments[i] != best {
            changed = true;
            assignments.set(i, best);
            assert(old(assignments)@[i as int] != assignments@[i as int]);
        }
        i = i + 1;
    }
    changed
}

/// How many vertices each of the `k` clusters holds.
pub fn cluster_sizes(assignments: &Vec<usize>, k: usize) -> (sizes: Vec<usize>)
    requires
        forall|i: int| 0 <= i < assignments@.len() ==> #[trigger] assignments@[i] < k,
    ensures
        sizes@.len() == k,
        forall|c: int| 0 <= c < k ==> #[trigger] sizes@[c] == members_of(assignments@, c as usize).len(),
{
    let mut sizes: Vec<usize> = Vec::new();
    let mut c: usize = 0;
    while c < k
        invariant
            c <= k,
            sizes@.len() == c,
            forall|d: int| 0 <= d < c ==> #[trigger] sizes@[d] == 0,
        decreases k - c,
    {
        sizes.push(0);
        c = c + 1;
    }
    let mut i: usize = 0;
    while i < assignments.len()
        invariant
            i <= assignments@.len(),
            sizes@.len() == k,
            forall|j: int| 0 <= j < assignments@.len() ==> #[trigger] assignments@[j] < k,
            forall|d: int|
                0 <= d < k ==> #[trigger] sizes@[d] == members_of(
                    assignments@.take(i as int),
                    d as usize,
                ).len(),
        decreases assignments@.len() - i,
    {
        let ghost prefix = assignments@.take(i as int);
        let ghost next = assignments@.take(i + 1);
        assert(next.drop_last() =~= prefix);
        let a = assignments[i];
        proof {
            lemma_members_of(prefix, a);
        }
        sizes.set(a, sizes[a] + 1);
        i = i + 1;
    }
    assert(assignments@.take(assignments@.len() as int) =~= assignments@);
    sizes
}

} // verus!
