//! Shape checks and index bookkeeping of the graph Laplacian and of its
//! eigendecomposition: which matrices are accepted, where the degrees sit,
//! how eigenpairs are put in ascending order, and which of them define the
//! spectral gap and the Fiedler pair.
use vstd::prelude::*;
use crate::order::{is_index_permutation, stably_sorted, stable_argsort};

verus! {

/// A non-empty square matrix.
pub open spec fn is_square_matrix<T>(m: Seq<Vec<T>>) -> bool {
    &&& m.len() > 0
    &&& forall|i: int| 0 <= i < m.len() ==> (#[trigger] m[i])@.len() == m.len()
}

/// Whether `matrix` is accepted as an adjacency matrix: it has at least one
/// row, and every row is as long as there are rows.
pub fn is_square<T>(matrix: &Vec<Vec<T>>) -> (ok: bool)
    ensures
        ok == is_square_matrix(matrix@),
{
    let n = matrix.len();
    if n == 0 {
        return false;
    }
    let mut i: usize = 0;
    while i < n
        invariant
            n == matrix@.len(),
            i <= n,
            forall|j: int| 0 <= j < i ==> (#[trigger] matrix@[j])@.len() == n,
        decreases n - i,
    {
        if matrix[i].len() != n {
            return false;
        }
        i = i + 1;
    }
    true
}

/// The first `n` diagonal entries of a matrix, row by row: the vertex
/// degrees of an `n`-vertex Laplacian, or the eigenvalue estimates of a
/// converged QR iterate.
pub fn diagonal<T: Copy>(matrix: &Vec<Vec<T>>, n: usize) -> (d: Vec<T>)
    requires
        n <= matrix@.len(),
        forall|i: int| 0 <= i < n ==> (#[trigger] matrix@[i])@.len() > i,
    ensures
        d@.len() == n,
        forall|i: int| 0 <= i < n ==> #[trigger] d@[i] == matrix@[i]@[i],
{
    let mut d: Vec<T> = Vec::new();
    let mut i: usize = 0;
    while i < n
        invariant
            n <= matrix@.len(),
            i <= n,
            forall|j: int| 0 <= j < n ==> (#[trigger] matrix@[j])@.len() > j,
            d@.len() == i,
            forall|j: int| 0 <= j < i ==> #[trigger] d@[j] == matrix@[j]@[j],
        decreases n - i,
    {
        let row = &matrix[i];
        d.push(row[i]);
        i = i + 1;
    }
    d
}

/// The values taken in the given order: `out[p] == values[order[p]]`.
pub fn permute<T: Copy>(values: &Vec<T>, order: &Vec<usize>) -> (out: Vec<T>)
    requires
        forall|p: int| 0 <= p < order@.len() ==> (#[trigger] order@[p]) < values@.len(),
    ensures
        out@.len() == order@.len(),
        forall|p: int| 0 <= p < order@.len() ==> #[trigger] out@[p] == values@[order@[p] as int],
{
    let mut out: Vec<T> = Vec::new();
    let mut p: usize = 0;
    while p < order.len()
        invariant
            p <= order@.len(),
            forall|q: int| 0 <= q < order@.len() ==> (#[trigger] order@[q]) < values@.len(),
            out@.len() == p,
            forall|q: int| 0 <= q < p ==> #[trigger] out@[q] == values@[order@[q] as int],
        decreases order@.len() - p,
    {
        out.push(values[order[p]]);
        p = p + 1;
    }
    out
}

/// The columns of a square matrix, in the given order, each returned as a
/// row: `out[c][row] == matrix[row][order[c]]`. This turns the accumulated
/// QR factor into eigenvectors listed in eigenvalue order.
pub fn columns_in_order<T: Copy>(matrix: &Vec<Vec<T>>, order: &Vec<usize>) -> (out: Vec<Vec<T>>)
    requires
        forall|i: int| 0 <= i < matrix@.len() ==> (#[trigger] matrix@[i])@.len() == matrix@.len(),
        forall|p: int| 0 <= p < order@.len() ==> (#[trigger] order@[p]) < matrix@.len(),
    ensures
        out@.len() == order@.len(),
        forall|c: int| 0 <= c < order@.len() ==> (#[trigger] out@[c])@.len() == matrix@.len(),
        forall|c: int, row: int|
            #![trigger out@[c]@[row]]
            0 <= c < order@.len() && 0 <= row < matrix@.len() ==> out@[c]@[row]
                == matrix@[row]@[order@[c] as int],
{
    let n = matrix.len();
    let mut out: Vec<Vec<T>> = Vec::new();
    let mut c: usize = 0;
    while c < order.len()
        invariant
            n == matrix@.len(),
            c <= order@.len(),
            forall|i: int| 0 <= i < n ==> (#[trigger] matrix@[i])@.len() == n,
            forall|p: int| 0 <= p < order@.len() ==> (#[trigger] order@[p]) < n,
            out@.len() == c,
            forall|b: int| 0 <= b < c ==> (#[trigger] out@[b])@.len() == n,
            forall|b: int, row: int|
                #![trigger out@[b]@[row]]
                0 <= b < c && 0 <= row < n ==> out@[b]@[row] == matrix@[row]@[order@[b] as int],
        decreases order@.len() - c,
    {
        let col = order[c];
        let mut column: Vec<T> = Vec::new();
        let mut row: usize = 0;
        while row < n
            invariant
                n == matrix@.len(),
                row <= n,
                col < n,
                forall|i: int| 0 <= i < n ==> (#[trigger] matrix@[i])@.len() == n,
                column@.len() == row,
                forall|r: int| 0 <= r < row ==> #[trigger] column@[r] == matrix@[r]@[col as int],
            decreases n - row,
        {
            let line = &matrix[row];
            column.push(line[col]);
            row = row + 1;
        }
        out.push(column);
        c = c + 1;
    }
    out
}

/// Two marked positions `a < b` exist.
pub open spec fn has_two_marked(marked: Seq<bool>) -> bool {
    exists|a: int, b: int| 0 <= a < b < marked.len() && #[trigger] marked[a] && #[trigger] marked[b]
}

/// `(a, b)` are the first two marked positions.
pub open spec fn first_two_marked(marked: Seq<bool>, a: int, b: int) -> bool {
    &&& 0 <= a < b < marked.len()
    &&& marked[a] && marked[b]
    &&& forall|q: int| 0 <= q < b && q != a ==> !(#[trigger] marked[q])
}

/// The positions of the two eigenvalues that define the spectral gap: the
/// first two eigenvalues marked as non-zero, or `None` when fewer than two
/// are. The gap itself is the distance between the two values.
pub fn spectral_gap_indices(nonzero: &Vec<bool>) -> (r: Option<(usize, usize)>)
    ensures
        r is None <==> !has_two_marked(nonzero@),
        r matches Some((a, b)) ==> first_two_marked(nonzero@, a as int, b as int),
{
    let mut first: Option<usize> = None;
    let mut i: usize = 0;
    while i < nonzero.len()
        invariant
            i <= nonzero@.len(),
            first is None ==> forall|q: int| 0 <= q < i ==> !(#[trigger] nonzero@[q]),
            first matches Some(a) ==> a < i && nonzero@[a as int] && forall|q: int|
                0 <= q < i && q != a ==> !(#[trigger] nonzero@[q]),
        decreases nonzero@.len() - i,
    {
        if nonzero[i] {
            match first {
                None => {
                    first = Some(i);
                },
                Some(a) => {
                    return Some((a, i));
                },
            }
        }
        i = i + 1;
    }
    proof {
        if has_two_marked(nonzero@) {
            let (a, b) = choose|a: int, b: int|
                0 <= a < b < nonzero@.len() && #[trigger] nonzero@[a] && #[trigger] nonzero@[b];
            assert(nonzero@[a] && nonzero@[b]);
        }
    }
    None
}

/// Which eigenpair, in ascending eigenvalue order, is the Fiedler pair:
/// the second one, or the only one when there is a single eigenvalue.
pub fn fiedler_index(count: usize) -> (idx: usize)
    ensures
        idx == if count > 1 { 1usize } else { 0usize },
{
    if count > 1 { 1 } else { 0 }
}

/// Eigenvalues and eigenvectors in ascending eigenvalue order, as a stable
/// sort by eigenvalue leaves them: `keys[i]` orders eigenvalue `values[i]`,
/// and column `i` of `q` is its eigenvector.
pub fn sort_eigenpairs<T: Copy>(values: &Vec<T>, keys: &Vec<i64>, q: &Vec<Vec<T>>) -> (r: (
    Vec<T>,
    Vec<Vec<T>>,
))
    requires
        keys@.len() == values@.len(),
        q@.len() == values@.len(),
        forall|i: int| 0 <= i < q@.len() ==> (#[trigger] q@[i])@.len() == q@.len(),
    ensures
        exists|order: Seq<usize>|
            {
                &&& is_index_permutation(order, values@.len())
                &&& stably_sorted(keys@, order)
                &&& r.0@.len() == values@.len()
                &&& r.1@.len() == values@.len()
                &&& forall|p: int| 0 <= p < values@.len() ==> #[trigger] r.0@[p] == values@[order[p] as int]
                &&& forall|p: int| 0 <= p < values@.len() ==> (#[trigger] r.1@[p])@.len() == values@.len()
                &&& forall|p: int, row: int|
                    #![trigger r.1@[p]@[row]]
                    0 <= p < values@.len() && 0 <= row < values@.len() ==> r.1@[p]@[row]
                        == q@[row]@[order[p] as int]
            },
{
    let order = stable_argsort(keys);
    let sorted_values = permute(values, &order);
    let sorted_vectors = columns_in_order(q, &order);
    (sorted_values, sorted_vectors)
}

} // verus!
