//! Layout of the spectral embedding and choice of nearest neighbours.
use vstd::prelude::*;
use crate::order::{precedes, stably_sorted, stable_argsort, is_index_permutation};

verus! {

/// The position of the first eigenvalue marked non-zero, or `marked.len()`
/// when none is.
pub open spec fn first_nonzero(marked: Seq<bool>, p: int) -> bool {
    &&& 0 <= p <= marked.len()
    &&& forall|q: int| 0 <= q < p ==> !(#[trigger] marked[q])
    &&& p < marked.len() ==> marked[p]
}

/// Which eigenpairs the embedding uses, given the eigenvalues in ascending
/// order with `nonzero[i]` marking those that are not zero: from the first
/// non-zero eigenvalue on, at most `dim` of them. Returns the first position
/// and the number of eigenpairs taken.
pub fn embedding_window(nonzero: &Vec<bool>, dim: usize) -> (r: (usize, usize))
    ensures
        first_nonzero(nonzero@, r.0 as int),
        r.1 == if dim <= nonzero@.len() - r.0 { dim as int } else { nonzero@.len() - r.0 },
        r.0 + r.1 <= nonzero@.len(),
{
    let count = nonzero.len();
    let mut start: usize = 0;
    while start < count && !nonzero[start]
        invariant
            count == nonzero@.len(),
            start <= count,
            forall|q: int| 0 <= q < start ==> !(#[trigger] nonzero@[q]),
        decreases count - start,
    {
        start = start + 1;
    }
    let available = count - start;
    let used = if dim <= available { dim } else { available };
    (start, used)
}

/// The vertex count of an eigenvector list: the length of its first
/// eigenvector, or 0 when there is none.
pub open spec fn vertex_count<T>(eigenvectors: Seq<Vec<T>>) -> nat {
    if eigenvectors.len() > 0 { eigenvectors[0]@.len() } else { 0 }
}

/// The embedded points: vertex `v` is mapped to the `v`-th coordinates of
/// the `dim` eigenvectors from `start` on, `points[v][d] == eigenvectors[start + d][v]`.
pub fn embedding_points<T: Copy>(eigenvectors: &Vec<Vec<T>>, start: usize, dim: usize) -> (points:
    Vec<Vec<T>>)
    requires
        start + dim <= eigenvectors@.len(),
        forall|d: int|
            start <= d < start + dim ==> (#[trigger] eigenvectors@[d])@.len() >= vertex_count(
                eigenvectors@,
            ),
    ensures
        points@.len() == vertex_count(eigenvectors@),
        forall|v: int| 0 <= v < points@.len() ==> (#[trigger] points@[v])@.len() == dim,
        forall|v: int, d: int|
            #![trigger points@[v]@[d]]
            0 <= v < points@.len() && 0 <= d < dim ==> points@[v]@[d] == eigenvectors@[start
                + d]@[v],
{
    let n: usize = if eigenvectors.len() > 0 { eigenvectors[0].len() } else { 0 };
    let total = eigenvectors.len();
    let mut points: Vec<Vec<T>> = Vec::new();
    let mut v: usize = 0;
    while v < n
        invariant
            n == vertex_count(eigenvectors@),
            v <= n,
            total == eigenvectors@.len(),
            start + dim <= total,
            forall|d: int|
                start <= d < start + dim ==> (#[trigger] eigenvectors@[d])@.len() >= n,
            points@.len() == v,
            forall|u: int| 0 <= u < v ==> (#[trigger] points@[u])@.len() == dim,
            forall|u: int, d: int|
                #![trigger points@[u]@[d]]
                0 <= u < v && 0 <= d < dim ==> points@[u]@[d] == eigenvectors@[start + d]@[u],
        decreases n - v,
    {
        let mut point: Vec<T> = Vec::new();
        let mut d: usize = 0;
        while d < dim
            invariant
                v < n,
                d <= dim,
                total == eigenvectors@.len(),
                start + dim <= total,
                forall|e: int|
                    start <= e < start + dim ==> (#[trigger] eigenvectors@[e])@.len() >= n,
                point@.len() == d,
                forall|e: int| 0 <= e < d ==> #[trigger] point@[e] == eigenvectors@[start + e]@[v as int],
            decreases dim - d,
        {
            let vector = &eigenvectors[start + d];
            assert(vector@.len() >= n);
            point.push(vector[v]);
            d = d + 1;
        }
        points.push(point);
        v = v + 1;
    }
    points
}

/// How many neighbours each vertex gets: `k`, but no more than there are
/// other vertices.
pub open spec fn neighbor_count(n: nat, k: nat) -> nat {
    let others: nat = if n > 0 { (n - 1) as nat } else { 0 };
    if k <= others { k } else { others }
}

/// `list` holds the `neighbor_count` vertices other than `vertex` that come
/// first in the stable order by distance key, in that order.
pub open spec fn is_nearest_list(keys: Seq<i64>, vertex: usize, k: nat, list: Seq<usize>) -> bool {
    &&& list.len() == neighbor_count(keys.len(), k)
    &&& forall|t: int| 0 <= t < list.len() ==> #[trigger] list[t] < keys.len() && list[t] != vertex
    &&& stably_sorted(keys, list)
    &&& forall|j: usize, t: int|
        j < keys.len() && j != vertex && !list.contains(j) && 0 <= t < list.len()
            ==> #[trigger] precedes(keys, list[t], j)
}

/// The `k` nearest neighbours of `vertex`, given the distance key from
/// `vertex` to every vertex (its own entry is ignored): the other vertices
/// stably sorted by distance and cut to at most `k`.
pub fn nearest_neighbors(dist_keys: &Vec<i64>, vertex: usize, k: usize) -> (list: Vec<usize>)
    ensures
        is_nearest_list(dist_keys@, vertex, k as nat, list@),
{
    let n = dist_keys.len();
    let others: usize = if n > 0 { n - 1 } else { 0 };
    let m: usize = if k <= others { k } else { others };
    let order = stable_argsort(dist_keys);
    let mut list: Vec<usize> = Vec::new();
    let ghost mut pos: Seq<int> = Seq::empty();
    let ghost mut skipped: bool = false;
    let mut p: usize = 0;
    while p < n && list.len() < m
        invariant
            n == dist_keys@.len(),
            m == neighbor_count(n as nat, k as nat),
            is_index_permutation(order@, n as nat),
            stably_sorted(dist_keys@, order@),
            p <= n,
            list@.len() <= m,
            pos.len() == list@.len(),
            forall|t: int| 0 <= t < pos.len() ==> 0 <= #[trigger] pos[t] < p,
            forall|t: int, u: int| 0 <= t < u < pos.len() ==> pos[t] < pos[u],
            forall|t: int| 0 <= t < list@.len() ==> #[trigger] list@[t] == order@[pos[t]],
            forall|t: int| 0 <= t < list@.len() ==> #[trigger] list@[t] != vertex,
            forall|q: int|
                0 <= q < p && order@[q] != vertex ==> #[trigger] list@.contains(order@[q]),
            skipped ==> list@.len() + 1 == p && exists|q: int| 0 <= q < p && order@[q] == vertex,
            !skipped ==> list@.len() == p,
        decreases n - p,
    {
        let j = order[p];
        if j != vertex {
            let ghost old_list = list@;
            proof {
                pos = pos.push(p as int);
            }
            list.push(j);
            proof {
                assert(list@[list@.len() - 1] == order@[p as int]);
                assert forall|q: int|
                    0 <= q < p + 1 && order@[q] != vertex implies #[trigger] list@.contains(order@[q]) by {
                    if q == p {
                        assert(list@[list@.len() - 1] == order@[q]);
                    } else {
                        assert(old_list.contains(order@[q]));
                        let t = choose|t: int| 0 <= t < old_list.len() && old_list[t] == order@[q];
                        assert(list@[t] == order@[q]);
                    }
                }
            }
        } else {
            proof {
                if skipped {
                    let q = choose|q: int| 0 <= q < p && order@[q] == vertex;
                    assert(order@[q] != order@[p as int]);
                }
                skipped = true;
            }
        }
        p = p + 1;
    }
    proof {
        assert(list@.len() == m);
        assert forall|t: int, u: int|
            #![trigger list@[t], list@[u]]
            0 <= t < u < list@.len() implies precedes(dist_keys@, list@[t], list@[u]) by {
            assert(order@[pos[t]] == list@[t]);
            assert(order@[pos[u]] == list@[u]);
        }
        assert forall|j: usize, t: int|
            j < n && j != vertex && !list@.contains(j) && 0 <= t < list@.len()
                implies #[trigger] precedes(dist_keys@, list@[t], j) by {
            assert(order@.contains(j));
            let q = choose|q: int| 0 <= q < order@.len() && order@[q] == j;
            if q < p {
                assert(list@.contains(order@[q]));
            }
            assert(pos[t] < q);
            assert(order@[pos[t]] == list@[t]);
        }
    }
    list
}

} // verus!
