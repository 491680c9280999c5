//! Echo peak selection: which candidate samples become detected echoes.

use vstd::prelude::*;

verus! {

/// Scan of samples `1..hi`: the peaks selected so far and the index of the last one
/// (0 before any). A candidate is selected when it lies at least `min_sep` samples
/// after the last selected index.
pub open spec fn peak_scan(candidates: Seq<bool>, min_sep: nat, hi: int) -> (Seq<usize>, int)
    decreases hi,
{
    if hi <= 1 {
        (Seq::empty(), 0)
    } else {
        let prev = peak_scan(candidates, min_sep, hi - 1);
        let i = hi - 1;
        if candidates[i] && i - prev.1 >= min_sep {
            (prev.0.push(i as usize), i)
        } else {
            prev
        }
    }
}

/// The peaks selected among samples `1..len - 1` (the first and last sample are never
/// peaks).
pub open spec fn selected_peaks(candidates: Seq<bool>, min_sep: nat) -> Seq<usize> {
    peak_scan(candidates, min_sep, candidates.len() - 1).0
}

/// Select peaks: scanning samples `1..len - 1` in order, sample `i` is selected when
/// `candidates[i]` holds and `i` is at least `min_sep` past the last selected index,
/// which starts at 0.
pub fn select_peaks(candidates: &Vec<bool>, min_sep: usize) -> (peaks: Vec<usize>)
    ensures
        peaks@ == selected_peaks(candidates@, min_sep as nat),
{
    let n = candidates.len();
    let end: usize = if n >= 1 { n - 1 } else { 0 };
    let mut peaks: Vec<usize> = Vec::new();
    let mut last: usize = 0;
    let mut i: usize = 1;
    while i < end
        invariant
            n == candidates@.len(),
            end == if n >= 1 { n - 1 } else { 0 },
            1 <= i,
            i <= end || i == 1,
            last < i,
            (peaks@, last as int) == peak_scan(candidates@, min_sep as nat, i as int),
        decreases end - i,
    {
        if candidates[i] && i - last >= min_sep {
            peaks.push(i);
            last = i;
        }
        i = i + 1;
    }
    proof {
        if end < 1 {
            assert(peak_scan(candidates@, min_sep as nat, candidates@.len() - 1) == peak_scan(
                candidates@,
                min_sep as nat,
                1,
            ));
        }
    }
    peaks
}

/// What every scan keeps: the peaks are candidates inside `1..hi`, in increasing order,
/// each at least `min_sep` past the one before and the first at least `min_sep` past 0;
/// the last index is the last peak, or 0 when there is none.
pub proof fn lemma_peak_scan(candidates: Seq<bool>, min_sep: nat, hi: int)
    requires
        hi <= candidates.len() <= usize::MAX,
    ensures
        ({
            let (s, last) = peak_scan(candidates, min_sep, hi);
            &&& s.len() == 0 ==> last == 0
            &&& s.len() > 0 ==> last == s.last() && s[0] >= min_sep
            &&& forall|k: int| 0 <= k < s.len() ==> 1 <= #[trigger] s[k] < hi && candidates[s[k] as int]
            &&& forall|k: int| 0 < k < s.len() ==> #[trigger] s[k] >= s[k - 1] + min_sep && s[k] > s[k - 1]
        }),
    decreases hi,
{
    if hi > 1 {
        lemma_peak_scan(candidates, min_sep, hi - 1);
        let prev = peak_scan(candidates, min_sep, hi - 1);
        let i = hi - 1;
        if candidates[i] && i - prev.1 >= min_sep {
            let s = prev.0.push(i as usize);
            assert(s[s.len() - 1] == i);
            assert forall|k: int| 0 <= k < s.len() implies 1 <= #[trigger] s[k] < hi
                && candidates[s[k] as int] by {
                if k < prev.0.len() {
                    assert(s[k] == prev.0[k]);
                }
            }
            assert forall|k: int| 0 < k < s.len() implies #[trigger] s[k] >= s[k - 1] + min_sep
                && s[k] > s[k - 1] by {
                if k < prev.0.len() {
                    assert(s[k] == prev.0[k]);
                    assert(s[k - 1] == prev.0[k - 1]);
                } else {
                    assert(s[k - 1] == prev.0.last());
                }
            }
            if prev.0.len() > 0 {
                assert(s[0] == prev.0[0]);
            }
        }
    }
}

/// Detected peaks are candidates strictly inside the signal, in increasing order, and
/// each lies at least `min_sep` samples after the previous one (the first at least
/// `min_sep` after sample 0).
pub proof fn peaks_are_separated(candidates: Seq<bool>, min_sep: nat)
    requires
        candidates.len() <= usize::MAX,
    ensures
        ({
            let s = selected_peaks(candidates, min_sep);
            &&& forall|k: int|
                0 <= k < s.len() ==> 1 <= #[trigger] s[k] < candidates.len() - 1
                    && candidates[s[k] as int]
            &&& forall|k: int| 0 < k < s.len() ==> #[trigger] s[k] >= s[k - 1] + min_sep
            &&& forall|j: int, k: int| 0 <= j < k < s.len() ==> #[trigger] s[j] < #[trigger] s[k]
            &&& s.len() > 0 ==> s[0] >= min_sep
        }),
{
    lemma_peak_scan(candidates, min_sep, candidates.len() - 1);
    let s = selected_peaks(candidates, min_sep);
    assert forall|j: int, k: int| 0 <= j < k < s.len() implies #[trigger] s[j] < #[trigger] s[k] by {
        lemma_increasing(s, j, k);
    }
}

/// The scan skips a candidate only when it is closer than `min_sep` to the last peak
/// selected before it (or to sample 0 when there is none).
proof fn lemma_peak_scan_skips(candidates: Seq<bool>, min_sep: nat, hi: int)
    requires
        hi <= candidates.len() <= usize::MAX,
    ensures
        ({
            let s = peak_scan(candidates, min_sep, hi).0;
            forall|i: int|
                1 <= i < hi && #[trigger] candidates[i] && !s.contains(i as usize) ==> i < min_sep || exists|k: int|
                    0 <= k < s.len() && s[k] < i && i - s[k] < min_sep
        }),
    decreases hi,
{
    if hi > 1 {
        lemma_peak_scan_skips(candidates, min_sep, hi - 1);
        lemma_peak_scan(candidates, min_sep, hi - 1);
        let prev = peak_scan(candidates, min_sep, hi - 1);
        let s = peak_scan(candidates, min_sep, hi).0;
        let j = hi - 1;
        assert forall|i: int|
            1 <= i < hi && #[trigger] candidates[i] && !s.contains(i as usize) implies i < min_sep || exists|k: int|
                0 <= k < s.len() && s[k] < i && i - s[k] < min_sep by {
            let pushed = candidates[j] && j - prev.1 >= min_sep;
            if pushed {
                assert(s =~= prev.0.push(j as usize));
                assert(s[s.len() - 1] == j as usize);
            } else {
                assert(s == prev.0);
            }
            if i < j {
                if prev.0.contains(i as usize) {
                    let k = choose|k: int| 0 <= k < prev.0.len() && prev.0[k] == i as usize;
                    assert(s[k] == prev.0[k]);
                    assert(s.contains(i as usize));
                }
                if i >= min_sep {
                    let k = choose|k: int| 0 <= k < prev.0.len() && prev.0[k] < i && i - prev.0[k] < min_sep;
                    assert(s[k] == prev.0[k]);
                    assert(0 <= k < s.len() && s[k] < i && i - s[k] < min_sep);
                }
            } else {
                assert(!pushed);
                if prev.0.len() > 0 && i >= min_sep {
                    let k = prev.0.len() - 1;
                    assert(prev.0[k] == prev.1);
                    assert(s[k] == prev.0[k]);
                    assert(0 <= k < s.len() && s[k] < i && i - s[k] < min_sep);
                }
            }
        }
    }
}

/// No candidate is missed: a candidate strictly inside the signal that is not detected
/// lies closer than `min_sep` after an earlier detected peak, or closer than `min_sep`
/// to sample 0.
pub proof fn peaks_are_complete(candidates: Seq<bool>, min_sep: nat)
    requires
        candidates.len() <= usize::MAX,
    ensures
        ({
            let s = selected_peaks(candidates, min_sep);
            forall|i: int|
                1 <= i < candidates.len() - 1 && #[trigger] candidates[i] && !s.contains(i as usize) ==> i < min_sep
                    || exists|k: int| 0 <= k < s.len() && s[k] < i && i - s[k] < min_sep
        }),
{
    lemma_peak_scan_skips(candidates, min_sep, candidates.len() - 1);
}

proof fn lemma_increasing(s: Seq<usize>, j: int, k: int)
    requires
        0 <= j < k < s.len(),
        forall|i: int| 0 < i < s.len() ==> #[trigger] s[i] > s[i - 1],
    ensures
        s[j] < s[k],
    decreases k - j,
{
    if k > j + 1 {
        lemma_increasing(s, j, k - 1);
    }
    assert(s[k] > s[k - 1]);
}

} // verus!
