//! Peak detection on the wave trace.
use vstd::prelude::*;
use crate::order::{defined_above, is_above};

verus! {

/// Position `i` is a peak: strictly above both neighbours and above the
/// threshold.
pub open spec fn is_peak(mags: Seq<Option<i64>>, threshold: Option<i64>, i: int) -> bool {
    &&& 1 <= i < mags.len() - 1
    &&& defined_above(mags[i], mags[i - 1])
    &&& defined_above(mags[i], mags[i + 1])
    &&& defined_above(mags[i], threshold)
}

/// What a peak is: an interior sample, never the first or the last, that
/// is defined, as are its two neighbours and the threshold, and strictly
/// exceeds all three.
pub proof fn lemma_peak_meaning(mags: Seq<Option<i64>>, threshold: Option<i64>, i: int)
    ensures
        is_peak(mags, threshold, i) <==> {
            &&& 1 <= i <= mags.len() - 2
            &&& mags[i] is Some && mags[i - 1] is Some && mags[i + 1] is Some && threshold is Some
            &&& mags[i]->0 > mags[i - 1]->0
            &&& mags[i]->0 > mags[i + 1]->0
            &&& mags[i]->0 > threshold->0
        },
{
}

/// `peaks` lists, in ascending order, exactly the peaks of a trace of at
/// least three samples, and nothing for a shorter trace.
pub open spec fn lists_peaks(mags: Seq<Option<i64>>, threshold: Option<i64>, peaks: Seq<usize>) -> bool {
    &&& forall|t: int| 0 <= t < peaks.len() ==> is_peak(mags, threshold, #[trigger] peaks[t] as int)
    &&& forall|t: int, u: int| #![trigger peaks[t], peaks[u]] 0 <= t < u < peaks.len() ==> peaks[t] < peaks[u]
    &&& forall|i: usize| #[trigger] is_peak(mags, threshold, i as int) ==> peaks.contains(i)
}

/// The peaks of the wave trace magnitude: `mags[i]` orders the magnitude
/// at the `i`-th time point and `threshold` orders the fraction of the
/// largest magnitude that a peak must exceed (`None` stands for NaN).
pub fn find_peaks(mags: &Vec<Option<i64>>, threshold: Option<i64>) -> (peaks: Vec<usize>)
    ensures
        lists_peaks(mags@, threshold, peaks@),
        forall|t: int|
            0 <= t < peaks@.len() ==> {
                let p = #[trigger] peaks@[t] as int;
                &&& 1 <= p <= mags@.len() - 2
                &&& mags@[p] is Some && mags@[p - 1] is Some && mags@[p + 1] is Some
                &&& threshold is Some
                &&& mags@[p]->0 > mags@[p - 1]->0
                &&& mags@[p]->0 > mags@[p + 1]->0
                &&& mags@[p]->0 > threshold->0
            },
{
    let n = mags.len();
    let mut peaks: Vec<usize> = Vec::new();
    if n < 3 {
        return peaks;
    }
    let mut i: usize = 1;
    while i < n - 1
        invariant
            n == mags@.len(),
            n >= 3,
            1 <= i <= n - 1,
            forall|t: int| 0 <= t < peaks@.len() ==> is_peak(mags@, threshold, #[trigger] peaks@[t] as int),
            forall|t: int, u: int| #![trigger peaks@[t], peaks@[u]] 0 <= t < u < peaks@.len() ==> peaks@[t] < peaks@[u],
            forall|t: int| 0 <= t < peaks@.len() ==> #[trigger] peaks@[t] < i,
            forall|j: usize| j < i && #[trigger] is_peak(mags@, threshold, j as int) ==> peaks@.contains(j),
        decreases n - i,
    {
        if is_above(mags[i], mags[i - 1]) && is_above(mags[i], mags[i + 1]) && is_above(mags[i], threshold) {
            let ghost old_peaks = peaks@;
            peaks.push(i);
            proof {
                assert forall|j: usize| j < i + 1 && #[trigger] is_peak(mags@, threshold, j as int)
                    implies peaks@.contains(j) by {
                    if j == i {
                        assert(peaks@[old_peaks.len() as int] == j);
                    } else {
                        assert(old_peaks.contains(j));
                        let t = choose|t: int| 0 <= t < old_peaks.len() && old_peaks[t] == j;
                        assert(peaks@[t] == j);
                    }
                }
            }
        }
        i = i + 1;
    }
    peaks
}

} // verus!
