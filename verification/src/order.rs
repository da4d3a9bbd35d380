//! Orderings over order keys.
//!
//! Every real value that the spectral pipeline compares (eigenvalues,
//! distances, smoothed samples) reaches this module as an `i64` order key:
//! a key that compares the way the value does. The functions here decide
//! everything that depends only on those comparisons.
use vstd::prelude::*;

verus! {

/// The order key of an IEEE 754 double given by its bit pattern: the bit
/// pattern itself for a non-negative value, the negated magnitude bits for
/// a negative one, so that both zeros share the key 0.
pub open spec fn spec_order_key(bits: u64) -> int {
    if bits >= 0x8000_0000_0000_0000 {
        -(bits - 0x8000_0000_0000_0000)
    } else {
        bits as int
    }
}

/// The order key of the double with bit pattern `bits`. For values that
/// are not NaN, keys compare as the values do.
pub fn order_key(bits: u64) -> (key: i64)
    ensures
        key == spec_order_key(bits),
{
    if bits >= 0x8000_0000_0000_0000 {
        let magnitude = bits - 0x8000_0000_0000_0000;
        -(magnitude as i64)
    } else {
        bits as i64
    }
}

/// Two bit patterns share an order key only when they are equal or are the
/// two zeros; non-negative patterns keep their order, negative patterns
/// reverse the order of their magnitudes, and negatives come first.
pub proof fn lemma_order_key(a: u64, b: u64)
    ensures
        spec_order_key(a) == spec_order_key(b) ==> a == b || (a & 0x7fff_ffff_ffff_ffff == 0
            && b & 0x7fff_ffff_ffff_ffff == 0),
        a < 0x8000_0000_0000_0000 && b < 0x8000_0000_0000_0000 ==> (spec_order_key(a)
            < spec_order_key(b) <==> a < b),
        a > 0x8000_0000_0000_0000 && b > 0x8000_0000_0000_0000 ==> (spec_order_key(a)
            < spec_order_key(b) <==> a > b),
        a > 0x8000_0000_0000_0000 && b < 0x8000_0000_0000_0000 ==> spec_order_key(a)
            < spec_order_key(b),
{
    if spec_order_key(a) == spec_order_key(b) && a != b {
        assert(a & 0x7fff_ffff_ffff_ffff == 0 && b & 0x7fff_ffff_ffff_ffff == 0) by (bit_vector)
            requires
                a != b,
                (a >= 0x8000_0000_0000_0000 && b < 0x8000_0000_0000_0000 && a - 0x8000_0000_0000_0000 == 0 && b == 0)
                || (b >= 0x8000_0000_0000_0000 && a < 0x8000_0000_0000_0000 && b - 0x8000_0000_0000_0000 == 0 && a == 0),
        ;
    }
}

/// A possibly undefined value (`None` for NaN) is strictly above another:
/// both are defined and the first key is larger. Every comparison that
/// involves an undefined value fails, as comparisons with NaN do.
pub open spec fn defined_above(a: Option<i64>, b: Option<i64>) -> bool {
    match (a, b) {
        (Some(x), Some(y)) => x > y,
        _ => false,
    }
}

/// Whether `a` is strictly above `b`, both being defined.
pub fn is_above(a: Option<i64>, b: Option<i64>) -> (r: bool)
    ensures
        r == defined_above(a, b),
{
    match (a, b) {
        (Some(x), Some(y)) => x > y,
        _ => false,
    }
}

/// `a` comes before `b` in the stable order by key: smaller key first,
/// and among equal keys the smaller index first.
pub open spec fn precedes(keys: Seq<i64>, a: usize, b: usize) -> bool {
    keys[a as int] < keys[b as int] || (keys[a as int] == keys[b as int] && a < b)
}

/// `order` lists indices strictly increasing in the stable order by key.
pub open spec fn stably_sorted(keys: Seq<i64>, order: Seq<usize>) -> bool {
    forall|p: int, q: int|
        #![trigger order[p], order[q]]
        0 <= p < q < order.len() ==> precedes(keys, order[p], order[q])
}

/// `order` is a rearrangement of `0..n`.
pub open spec fn is_index_permutation(order: Seq<usize>, n: nat) -> bool {
    &&& order.len() == n
    &&& forall|p: int| 0 <= p < n ==> #[trigger] order[p] < n
    &&& forall|p: int, q: int| 0 <= p < q < n ==> order[p] != order[q]
    &&& forall|v: usize| v < n ==> #[trigger] order.contains(v)
}


/// The indices `0..keys.len()` in stable ascending order of their keys:
/// what a stable sort by key does to the positions of the values.
pub fn stable_argsort(keys: &Vec<i64>) -> (order: Vec<usize>)
    ensures
        is_index_permutation(order@, keys@.len()),
        stably_sorted(keys@, order@),
{
    let n = keys.len();
    let mut order: Vec<usize> = Vec::new();
    let mut i: usize = 0;
    while i < n
        invariant
            i <= n,
            n == keys@.len(),
            is_index_permutation(order@, i as nat),
            stably_sorted(keys@, order@),
        decreases n - i,
    {
        let ki = keys[i];
        let mut p: usize = 0;
        while p < order.len() && keys[order[p]] <= ki
            invariant
                p <= order@.len(),
                n == keys@.len(),
                i < n,
                ki == keys@[i as int],
                is_index_permutation(order@, i as nat),
                forall|q: int| 0 <= q < p ==> keys@[#[trigger] order@[q] as int] <= ki,
            decreases order@.len() - p,
        {
            p = p + 1;
        }
        let ghost old_order = order@;
        proof {
            // every element from position `p` on has a larger key than `i`
            assert forall|q: int| p <= q < old_order.len() implies keys@[#[trigger] old_order[q] as int] > ki by {
                if q > p {
                    assert(precedes(keys@, old_order[p as int], old_order[q]));
                }
            }
        }
        order.insert(p, i);
        proof {
            let new_order = order@;
            assert(new_order.len() == i + 1);
            assert forall|a: int, b: int| #![trigger new_order[a], new_order[b]]
                0 <= a < b < new_order.len() implies precedes(keys@, new_order[a], new_order[b]) by {
                if a < p && b < p {
                    assert(precedes(keys@, old_order[a], old_order[b]));
                } else if a < p && b == p {
                } else if a < p && b > p {
                    assert(precedes(keys@, old_order[a], old_order[b - 1]));
                } else if a == p {
                } else {
                    assert(precedes(keys@, old_order[a - 1], old_order[b - 1]));
                }
            }
            assert forall|v: usize| v < i + 1 implies #[trigger] new_order.contains(v) by {
                if v == i {
                    assert(new_order[p as int] == v);
                } else {
                    assert(old_order.contains(v));
                    let q = choose|q: int| 0 <= q < old_order.len() && old_order[q] == v;
                    if q < p {
                        assert(new_order[q] == v);
                    } else {
                        assert(new_order[q + 1] == v);
                    }
                }
            }
        }
        i = i + 1;
    }
    order
}


/// Some key lies strictly below `bound`.
pub open spec fn some_below(keys: Seq<i64>, bound: i64) -> bool {
    exists|q: int| 0 <= q < keys.len() && #[trigger] keys[q] < bound
}

/// Some key lies strictly above `bound`.
pub open spec fn some_above(keys: Seq<i64>, bound: i64) -> bool {
    exists|q: int| 0 <= q < keys.len() && #[trigger] keys[q] > bound
}

/// `r` is the first position of the smallest key.
pub open spec fn is_first_min(keys: Seq<i64>, r: int) -> bool {
    &&& 0 <= r < keys.len()
    &&& forall|q: int| 0 <= q < keys.len() ==> keys[r] <= #[trigger] keys[q]
    &&& forall|q: int| 0 <= q < r ==> keys[r] < #[trigger] keys[q]
}

/// `r` is the first position of the largest key.
pub open spec fn is_first_max(keys: Seq<i64>, r: int) -> bool {
    &&& 0 <= r < keys.len()
    &&& forall|q: int| 0 <= q < keys.len() ==> keys[r] >= #[trigger] keys[q]
    &&& forall|q: int| 0 <= q < r ==> keys[r] > #[trigger] keys[q]
}

/// What the scans look for: some key beyond the bound anywhere in the
/// sequence, and the first position of an extreme key, compared with every
/// position.
pub proof fn lemma_scan_targets(keys: Seq<i64>, bound: i64, r: int)
    ensures
        some_above(keys, bound) <==> exists|q: int| 0 <= q < keys.len() && keys[q] > bound,
        some_below(keys, bound) <==> exists|q: int| 0 <= q < keys.len() && keys[q] < bound,
        is_first_max(keys, r) <==> {
            &&& 0 <= r < keys.len()
            &&& forall|q: int| 0 <= q < keys.len() ==> keys[r] >= #[trigger] keys[q]
            &&& forall|q: int| 0 <= q < r ==> keys[r] > #[trigger] keys[q]
        },
        is_first_min(keys, r) <==> {
            &&& 0 <= r < keys.len()
            &&& forall|q: int| 0 <= q < keys.len() ==> keys[r] <= #[trigger] keys[q]
            &&& forall|q: int| 0 <= q < r ==> keys[r] < #[trigger] keys[q]
        },
{
}

/// A scan that starts from `bound` and moves to each strictly smaller key
/// it meets: the first position of the smallest key when that key is below
/// `bound`, and 0 otherwise.
pub fn first_argmin_below(keys: &Vec<i64>, bound: i64) -> (r: usize)
    ensures
        some_below(keys@, bound) ==> is_first_min(keys@, r as int) && keys@[r as int] < bound,
        !some_below(keys@, bound) ==> r == 0,
        forall|q: int|
            0 <= q < keys@.len() && keys@[q] < bound ==> {
                &&& r < keys@.len()
                &&& keys@[r as int] < bound
                &&& forall|p: int| 0 <= p < keys@.len() ==> keys@[r as int] <= #[trigger] keys@[p]
                &&& forall|p: int| 0 <= p < r ==> keys@[r as int] < #[trigger] keys@[p]
            },
        (forall|q: int| 0 <= q < keys@.len() ==> #[trigger] keys@[q] >= bound) ==> r == 0,
{
    let mut best = bound;
    let mut r: usize = 0;
    let mut found = false;
    let mut i: usize = 0;
    while i < keys.len()
        invariant
            i <= keys@.len(),
            found == some_below(keys@.take(i as int), bound),
            found ==> is_first_min(keys@.take(i as int), r as int) && best == keys@[r as int]
                && best < bound,
            !found ==> r == 0 && best == bound,
        decreases keys@.len() - i,
    {
        let ghost prefix = keys@.take(i as int);
        let ghost next = keys@.take(i + 1);
        assert(next.drop_last() =~= prefix);
        if keys[i] < best {
            best = keys[i];
            r = i;
            found = true;
            assert(next[i as int] < bound);
        } else {
            proof {
                if !found {
                    assert forall|q: int| 0 <= q < next.len() implies !(#[trigger] next[q] < bound) by {
                        if q < i {
                            assert(prefix[q] == next[q]);
                        }
                    }
                }
            }
        }
        proof {
            if found {
                assert forall|q: int| 0 <= q < next.len() implies next[r as int] <= #[trigger] next[q] by {
                    if q < i {
                        assert(prefix[q] == next[q]);
                    }
                }
                assert forall|q: int| 0 <= q < r implies next[r as int] < #[trigger] next[q] by {
                    assert(prefix[q] == next[q]);
                }
            }
        }
        i = i + 1;
    }
    assert(keys@.take(keys@.len() as int) =~= keys@);
    r
}

/// A scan that starts from `bound` and moves to each strictly larger key
/// it meets: the first position of the largest key when that key is above
/// `bound`, and 0 otherwise.
pub fn first_argmax_above(keys: &Vec<i64>, bound: i64) -> (r: usize)
    ensures
        some_above(keys@, bound) ==> is_first_max(keys@, r as int) && keys@[r as int] > bound,
        !some_above(keys@, bound) ==> r == 0,
        forall|q: int|
            0 <= q < keys@.len() && keys@[q] > bound ==> {
                &&& r < keys@.len()
                &&& keys@[r as int] > bound
                &&& forall|p: int| 0 <= p < keys@.len() ==> keys@[r as int] >= #[trigger] keys@[p]
                &&& forall|p: int| 0 <= p < r ==> keys@[r as int] > #[trigger] keys@[p]
            },
        (forall|q: int| 0 <= q < keys@.len() ==> #[trigger] keys@[q] <= bound) ==> r == 0,
{
    let mut best = bound;
    let mut r: usize = 0;
    let mut found = false;
    let mut i: usize = 0;
    while i < keys.len()
        invariant
            i <= keys@.len(),
            found == some_above(keys@.take(i as int), bound),
            found ==> is_first_max(keys@.take(i as int), r as int) && best == keys@[r as int]
                && best > bound,
            !found ==> r == 0 && best == bound,
        decreases keys@.len() - i,
    {
        let ghost prefix = keys@.take(i as int);
        let ghost next = keys@.take(i + 1);
        assert(next.drop_last() =~= prefix);
        if keys[i] > best {
            best = keys[i];
            r = i;
            found = true;
            assert(next[i as int] > bound);
        } else {
            proof {
                if !found {
                    assert forall|q: int| 0 <= q < next.len() implies !(#[trigger] next[q] > bound) by {
                        if q < i {
                            assert(prefix[q] == next[q]);
                        }
                    }
                }
            }
        }
        proof {
            if found {
                assert forall|q: int| 0 <= q < next.len() implies next[r as int] >= #[trigger] next[q] by {
                    if q < i {
                        assert(prefix[q] == next[q]);
                    }
                }
                assert forall|q: int| 0 <= q < r implies next[r as int] > #[trigger] next[q] by {
                    assert(prefix[q] == next[q]);
                }
            }
        }
        i = i + 1;
    }
    assert(keys@.take(keys@.len() as int) =~= keys@);
    r
}

} // verus!
