//! Scale-space analysis: the mirrored stencil of Gaussian smoothing, the
//! detection of extrema across space and scale, and the choice of the
//! divisor in max-normalisation.
use vstd::prelude::*;
use crate::order::{defined_above, first_argmax_above, is_above, is_first_max, some_above};

verus! {

/// The two samples that sit `d` steps left and right of sample `i` in a
/// signal of length `n` mirrored at both ends (the end samples are not
/// repeated).
pub open spec fn mirrored(i: int, d: int, n: int) -> (int, int) {
    (if i >= d { i - d } else { d - i }, if i + d < n { i + d } else { 2 * n - 2 - (i + d) })
}

/// The samples at distance `d` from sample `i` under mirrored boundaries,
/// for a smoothing radius below the signal length.
pub fn mirror_pair(i: usize, d: usize, n: usize) -> (r: (usize, usize))
    requires
        i < n,
        1 <= d < n,
    ensures
        r.0 < n,
        r.1 < n,
        (r.0 as int, r.1 as int) == mirrored(i as int, d as int, n as int),
{
    let left = if i >= d { i - d } else { d - i };
    let right = if i < n - d { i + d } else { (n - 1) - (d - (n - 1 - i)) };
    (left, right)
}

/// The smoothed sample `i` at scale `s` is a strict extremum among its two
/// spatial neighbours and among its two neighbours in scale.
pub open spec fn is_extremum(scales: Seq<Vec<Option<i64>>>, i: int, s: int) -> bool {
    let curr = scales[s]@;
    let prev = scales[s - 1]@;
    let next = scales[s + 1]@;
    let val = curr[i];
    &&& 1 <= s < scales.len() - 1
    &&& 1 <= i < curr.len() - 1
    &&& (defined_above(val, curr[i - 1]) && defined_above(val, curr[i + 1])) || (defined_above(
        curr[i - 1],
        val,
    ) && defined_above(curr[i + 1], val))
    &&& (defined_above(val, prev[i]) && defined_above(val, next[i])) || (defined_above(prev[i], val)
        && defined_above(next[i], val))
}

/// What an extremum is: an interior sample at an interior scale, defined
/// together with its four neighbours, strictly above both spatial
/// neighbours or strictly below both, and strictly above both scale
/// neighbours or strictly below both; a sample that lies between its two
/// scale neighbours is no extremum.
pub proof fn lemma_extremum_meaning(scales: Seq<Vec<Option<i64>>>, i: int, s: int)
    ensures
        is_extremum(scales, i, s) <==> {
                let v = scales[s]@[i];
                let left = scales[s]@[i - 1];
                let right = scales[s]@[i + 1];
                let below = scales[s - 1]@[i];
                let above = scales[s + 1]@[i];
                &&& 1 <= s < scales.len() - 1
                &&& 1 <= i < scales[s]@.len() - 1
                &&& v is Some && left is Some && right is Some && below is Some && above is Some
                &&& (v->0 > left->0 && v->0 > right->0) || (v->0 < left->0 && v->0 < right->0)
                &&& (v->0 > below->0 && v->0 > above->0) || (v->0 < below->0 && v->0 < above->0)
            },
{
}

/// `(i, s)` comes before `(j, t)`: by scale first, then by position.
pub open spec fn grid_before(a: (usize, usize), b: (usize, usize)) -> bool {
    a.1 < b.1 || (a.1 == b.1 && a.0 < b.0)
}

/// Every row of the scale space has one sample per signal position.
pub open spec fn rows_have_len(scales: Seq<Vec<Option<i64>>>, n: nat) -> bool {
    forall|s: int| 0 <= s < scales.len() ==> (#[trigger] scales[s])@.len() == n
}

/// `found` lists, by scale and then by position, exactly the scale-space
/// extrema `(position, scale)`.
pub open spec fn lists_extrema(scales: Seq<Vec<Option<i64>>>, found: Seq<(usize, usize)>) -> bool {
    &&& forall|t: int| 0 <= t < found.len() ==> is_extremum(scales, (#[trigger] found[t]).0 as int, found[t].1 as int)
    &&& forall|t: int, u: int| #![trigger found[t], found[u]] 0 <= t < u < found.len() ==> grid_before(found[t], found[u])
    &&& forall|i: usize, s: usize| #[trigger] is_extremum(scales, i as int, s as int) ==> found.contains((i, s))
}

/// Detect scale-space extrema: `scales[s][i]` orders the signal smoothed at
/// the `s`-th scale, at position `i` (`None` where that sample is NaN);
/// every row has length `n`.
pub fn detect_extrema(scales: &Vec<Vec<Option<i64>>>, n: usize) -> (found: Vec<(usize, usize)>)
    requires
        rows_have_len(scales@, n as nat),
    ensures
        lists_extrema(scales@, found@),
        forall|t: int|
            0 <= t < found@.len() ==> {
                let i = (#[trigger] found@[t]).0 as int;
                let s = found@[t].1 as int;
                let v = scales@[s]@[i];
                let left = scales@[s]@[i - 1];
                let right = scales@[s]@[i + 1];
                let below = scales@[s - 1]@[i];
                let above = scales@[s + 1]@[i];
                &&& 1 <= s < scales@.len() - 1
                &&& 1 <= i < n - 1
                &&& v is Some && left is Some && right is Some && below is Some && above is Some
                &&& (v->0 > left->0 && v->0 > right->0) || (v->0 < left->0 && v->0 < right->0)
                &&& (v->0 > below->0 && v->0 > above->0) || (v->0 < below->0 && v->0 < above->0)
            },
{
    let n_scales = scales.len();
    let mut found: Vec<(usize, usize)> = Vec::new();
    if n_scales < 3 || n < 3 {
        proof {
            assert forall|i: usize, s: usize| #[trigger] is_extremum(scales@, i as int, s as int)
                implies found@.contains((i, s)) by {
                if n_scales >= 3 {
                    assert(scales@[s as int]@.len() == n);
                }
            }
        }
        return found;
    }
    let mut s: usize = 1;
    while s < n_scales - 1
        invariant
            n_scales == scales@.len(),
            n_scales >= 3,
            n >= 3,
            1 <= s <= n_scales - 1,
            rows_have_len(scales@, n as nat),
            forall|t: int| 0 <= t < found@.len() ==> is_extremum(scales@, (#[trigger] found@[t]).0 as int, found@[t].1 as int),
            forall|t: int, u: int| #![trigger found@[t], found@[u]] 0 <= t < u < found@.len() ==> grid_before(found@[t], found@[u]),
            forall|t: int| 0 <= t < found@.len() ==> (#[trigger] found@[t]).1 < s,
            forall|i: usize, r: usize| r < s && #[trigger] is_extremum(scales@, i as int, r as int) ==> found@.contains((i, r)),
        decreases n_scales - s,
    {
        let prev = &scales[s - 1];
        let curr = &scales[s];
        let next = &scales[s + 1];
        let ghost before = found@;
        let mut i: usize = 1;
        while i < n - 1
            invariant
                n_scales == scales@.len(),
                n >= 3,
                1 <= s < n_scales - 1,
                1 <= i <= n - 1,
                rows_have_len(scales@, n as nat),
                prev@ == scales@[s - 1]@,
                curr@ == scales@[s as int]@,
                next@ == scales@[s + 1]@,
                forall|t: int| 0 <= t < found@.len() ==> is_extremum(scales@, (#[trigger] found@[t]).0 as int, found@[t].1 as int),
                forall|t: int, u: int| #![trigger found@[t], found@[u]] 0 <= t < u < found@.len() ==> grid_before(found@[t], found@[u]),
                forall|t: int| 0 <= t < found@.len() ==> grid_before(#[trigger] found@[t], (i, s)),
                forall|j: usize, r: usize|
                    (r < s || (r == s && j < i)) && #[trigger] is_extremum(scales@, j as int, r as int) ==> found@.contains((j, r)),
            decreases n - i,
        {
            assert(prev@.len() == n && curr@.len() == n && next@.len() == n);
            let val = curr[i];
            let is_pos_max = is_above(val, curr[i - 1]) && is_above(val, curr[i + 1]);
            let is_pos_min = is_above(curr[i - 1], val) && is_above(curr[i + 1], val);
            if is_pos_max || is_pos_min {
                let is_scale_ext = is_above(val, prev[i]) && is_above(val, next[i]) || is_above(
                    prev[i],
                    val,
                ) && is_above(next[i], val);
                if is_scale_ext {
                    let ghost old_found = found@;
                    found.push((i, s));
                    proof {
                        assert forall|j: usize, r: usize|
                            (r < s || (r == s && j < i + 1)) && #[trigger] is_extremum(scales@, j as int, r as int)
                            implies found@.contains((j, r)) by {
                            if r == s && j == i {
                                assert(found@[old_found.len() as int] == (j, r));
                            } else {
                                assert(old_found.contains((j, r)));
                                let t = choose|t: int| 0 <= t < old_found.len() && old_found[t] == (j, r);
                                assert(found@[t] == (j, r));
                            }
                        }
                    }
                } else {
                    proof {
                        assert(!is_extremum(scales@, i as int, s as int));
                    }
                }
            } else {
                proof {
                    assert(!is_extremum(scales@, i as int, s as int));
                }
            }
            i = i + 1;
        }
        proof {
            assert forall|j: usize, r: usize| r < s + 1 && #[trigger] is_extremum(scales@, j as int, r as int)
                implies found@.contains((j, r)) by {
                if r == s {
                    assert(scales@[s as int]@.len() == n);
                }
            }
        }
        s = s + 1;
    }
    proof {
        assert forall|i: usize, r: usize| #[trigger] is_extremum(scales@, i as int, r as int)
            implies found@.contains((i, r)) by {
        }
    }
    found
}

/// A scale space whose every row is constant along the signal has no
/// extrema, whatever values the rows hold at the different scales.
pub proof fn lemma_flat_has_no_extrema(scales: Seq<Vec<Option<i64>>>, i: int, s: int)
    requires
        forall|r: int, j: int|
            0 <= r < scales.len() && 0 <= j < scales[r]@.len() ==> #[trigger] scales[r]@[j]
                == scales[r]@[0],
    ensures
        !is_extremum(scales, i, s),
{
    if 1 <= s < scales.len() - 1 && 1 <= i < scales[s]@.len() - 1 {
        assert(scales[s]@[i] == scales[s]@[0]);
        assert(scales[s]@[i - 1] == scales[s]@[0]);
        assert(scales[s]@[i + 1] == scales[s]@[0]);
    }
}

/// Scale-invariant normalization of descriptors.
pub struct ScaleInvariance;

impl ScaleInvariance {
    /// Max-normalisation divides by the largest value, unless every value
    /// lies below the cut-off: the position of the first largest value, or
    /// `None` when the descriptor is left as it is. `threshold_key` orders
    /// the cut-off, a positive value.
    pub fn max_normalizer(keys: &Vec<i64>, threshold_key: i64) -> (r: Option<usize>)
        requires
            threshold_key > i64::MIN,
        ensures
            r is None <==> !some_above(keys@, (threshold_key - 1) as i64),
            r matches Some(i) ==> is_first_max(keys@, i as int) && keys@[i as int] >= threshold_key,
            r is None <==> forall|q: int| 0 <= q < keys@.len() ==> #[trigger] keys@[q] < threshold_key,
            r matches Some(i) ==> {
                &&& i < keys@.len()
                &&& keys@[i as int] >= threshold_key
                &&& forall|q: int| 0 <= q < keys@.len() ==> keys@[i as int] >= #[trigger] keys@[q]
                &&& forall|q: int| 0 <= q < i ==> keys@[i as int] > #[trigger] keys@[q]
            },
    {
        let i = first_argmax_above(keys, threshold_key - 1);
        if i < keys.len() && keys[i] >= threshold_key {
            Some(i)
        } else {
            None
        }
    }
}

} // verus!
