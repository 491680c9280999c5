//! Delay-and-sum alignment: which sample of which channel lands on each output index
//! once every channel is shifted by its delay (in samples).

use vstd::prelude::*;

verus! {

/// Length of the longest channel.
pub open spec fn longest(lens: Seq<usize>) -> nat
    decreases lens.len(),
{
    if lens.len() == 0 {
        0
    } else {
        let rest = longest(lens.drop_last());
        if lens.last() > rest {
            lens.last() as nat
        } else {
            rest
        }
    }
}

/// Length of the aligned output: the longest channel, or nothing when there are no
/// channels or the shifts do not match the channels one for one.
pub open spec fn aligned_len(lens: Seq<usize>, shifts: Seq<isize>) -> nat {
    if lens.len() == 0 || shifts.len() != lens.len() {
        0
    } else {
        longest(lens)
    }
}

/// The `(channel, sample)` pairs of the first `k` channels that land on output index
/// `j`, in channel order: channel `s` contributes its sample `j - shifts[s]` when that
/// sample exists.
pub open spec fn landing(lens: Seq<usize>, shifts: Seq<isize>, j: int, k: int) -> Seq<(usize, usize)>
    decreases k,
{
    if k <= 0 {
        Seq::empty()
    } else {
        let prev = landing(lens, shifts, j, k - 1);
        let s = k - 1;
        let i = j - shifts[s];
        if 0 <= i < lens[s] {
            prev.push((s as usize, i as usize))
        } else {
            prev
        }
    }
}

/// Whether shifting every sample index of every channel stays within `isize`.
pub open spec fn shifts_fit(lens: Seq<usize>, shifts: Seq<isize>) -> bool {
    forall|s: int|
        0 <= s < lens.len() ==> #[trigger] lens[s] <= isize::MAX && (lens[s] > 0 ==> lens[s] - 1
            + shifts[s] <= isize::MAX)
}

/// For each output index, the `(channel, sample)` pairs that land on it, in channel
/// order. Channel `s` of length `lens[s]` is shifted by `shifts[s]` samples.
pub fn beam_plan(lens: &Vec<usize>, shifts: &Vec<isize>) -> (plan: Vec<Vec<(usize, usize)>>)
    requires
        lens@.len() == shifts@.len() ==> shifts_fit(lens@, shifts@),
    ensures
        plan@.len() == aligned_len(lens@, shifts@),
        forall|j: int|
            0 <= j < plan@.len() ==> #[trigger] plan@[j]@ == landing(lens@, shifts@, j, lens@.len() as int),
{
    let mut plan: Vec<Vec<(usize, usize)>> = Vec::new();
    let n = lens.len();
    if n == 0 || shifts.len() != n {
        return plan;
    }
    let mut out_len: usize = 0;
    let mut s: usize = 0;
    while s < n
        invariant
            n == lens@.len(),
            s <= n,
            out_len == longest(lens@.take(s as int)),
        decreases n - s,
    {
        assert(lens@.take(s + 1).drop_last() =~= lens@.take(s as int));
        if lens[s] > out_len {
            out_len = lens[s];
        }
        s = s + 1;
    }
    assert(lens@.take(n as int) =~= lens@);
    let mut j: usize = 0;
    while j < out_len
        invariant
            n == lens@.len(),
            n == shifts@.len(),
            n >= 1,
            out_len == longest(lens@),
            j <= out_len,
            plan@.len() == j,
            forall|k: int| 0 <= k < j ==> #[trigger] plan@[k]@ == landing(lens@, shifts@, k, n as int),
        decreases out_len - j,
    {
        let mut here: Vec<(usize, usize)> = Vec::new();
        let mut s: usize = 0;
        while s < n
            invariant
                n == lens@.len(),
                n == shifts@.len(),
                j < out_len,
                s <= n,
                here@ == landing(lens@, shifts@, j as int, s as int),
            decreases n - s,
        {
            let i: i128 = j as i128 - shifts[s] as i128;
            if 0 <= i && i < lens[s] as i128 {
                here.push((s, i as usize));
            }
            s = s + 1;
        }
        plan.push(here);
        j = j + 1;
    }
    plan
}

/// Each channel puts at most one sample on an output index, and every pair named for an
/// index is a real sample of its channel that lands there.
pub proof fn landing_is_sound(lens: Seq<usize>, shifts: Seq<isize>, j: int, k: int)
    requires
        0 <= k <= lens.len(),
        k <= shifts.len(),
        lens.len() <= usize::MAX,
    ensures
        landing(lens, shifts, j, k).len() <= k,
        forall|m: int|
            0 <= m < landing(lens, shifts, j, k).len() ==> {
                let (s, i) = #[trigger] landing(lens, shifts, j, k)[m];
                &&& s < k
                &&& i < lens[s as int]
                &&& i + shifts[s as int] == j
            },
        forall|m: int, q: int|
            0 <= m < q < landing(lens, shifts, j, k).len() ==> #[trigger] landing(lens, shifts, j, k)[m].0
                < #[trigger] landing(lens, shifts, j, k)[q].0,
    decreases k,
{
    if k > 0 {
        landing_is_sound(lens, shifts, j, k - 1);
        let prev = landing(lens, shifts, j, k - 1);
        let cur = landing(lens, shifts, j, k);
        assert forall|m: int| 0 <= m < prev.len() implies #[trigger] cur[m] == prev[m] by {}
    }
}

/// The longest channel is at least as long as every channel, is the length of one of
/// them when there are any, and is 0 exactly when every channel is empty.
pub proof fn longest_is_max(lens: Seq<usize>)
    ensures
        forall|s: int| 0 <= s < lens.len() ==> #[trigger] lens[s] <= longest(lens),
        lens.len() > 0 ==> exists|s: int| 0 <= s < lens.len() && lens[s] == longest(lens),
        (longest(lens) == 0) == (forall|s: int| 0 <= s < lens.len() ==> #[trigger] lens[s] == 0),
    decreases lens.len(),
{
    if lens.len() > 0 {
        let front = lens.drop_last();
        longest_is_max(front);
        assert forall|s: int| 0 <= s < lens.len() implies #[trigger] lens[s] <= longest(lens) by {
            if s < front.len() {
                assert(front[s] == lens[s]);
            }
        }
        if lens.last() > longest(front) {
            assert(lens[lens.len() - 1] == longest(lens));
        } else if front.len() > 0 {
            let s = choose|s: int| 0 <= s < front.len() && front[s] == longest(front);
            assert(lens[s] == longest(lens));
        } else {
            assert(lens[0] == longest(lens));
        }
        if longest(lens) == 0 {
            assert forall|s: int| 0 <= s < lens.len() implies #[trigger] lens[s] == 0 by {}
        }
        if forall|s: int| 0 <= s < lens.len() ==> #[trigger] lens[s] == 0 {
            assert forall|s: int| 0 <= s < front.len() implies #[trigger] front[s] == 0 by {
                assert(front[s] == lens[s]);
            }
            assert(lens[lens.len() - 1] == 0);
        }
    }
}

/// Every sample of the first `k` channels that lands on index `j` is listed for `j`.
pub proof fn landing_is_complete(lens: Seq<usize>, shifts: Seq<isize>, j: int, k: int)
    requires
        0 <= k <= lens.len(),
        k <= shifts.len(),
        lens.len() <= usize::MAX,
    ensures
        forall|s: int, i: int|
            0 <= s < k && 0 <= i < lens[s] && i + shifts[s] == j ==> #[trigger] landing(
                lens,
                shifts,
                j,
                k,
            ).contains((s as usize, i as usize)),
    decreases k,
{
    if k > 0 {
        landing_is_complete(lens, shifts, j, k - 1);
        let prev = landing(lens, shifts, j, k - 1);
        let cur = landing(lens, shifts, j, k);
        assert forall|s: int, i: int|
            0 <= s < k && 0 <= i < lens[s] && i + shifts[s] == j implies #[trigger] landing(
                lens,
                shifts,
                j,
                k,
            ).contains((s as usize, i as usize)) by {
            if s < k - 1 {
                assert(prev.contains((s as usize, i as usize)));
                let m = choose|m: int| 0 <= m < prev.len() && prev[m] == (s as usize, i as usize);
                assert(cur[m] == prev[m]);
            } else {
                assert(cur[cur.len() - 1] == (s as usize, i as usize));
            }
        }
    }
}

/// The aligned output has one index per sample of the longest channel, and is empty
/// exactly when there are no channels, the shifts do not match the channels, or every
/// channel is empty. Each output index lists exactly the samples that land on it: every
/// listed pair is a real sample landing there, at most one per channel, and every
/// sample landing there is listed.
pub proof fn beam_alignment_law(lens: Seq<usize>, shifts: Seq<isize>, j: int)
    requires
        lens.len() == shifts.len(),
        lens.len() <= usize::MAX,
    ensures
        (aligned_len(lens, shifts) == 0) == (lens.len() == 0 || forall|s: int|
            0 <= s < lens.len() ==> #[trigger] lens[s] == 0),
        forall|s: int| 0 <= s < lens.len() ==> #[trigger] lens[s] <= aligned_len(lens, shifts),
        forall|m: int|
            0 <= m < landing(lens, shifts, j, lens.len() as int).len() ==> {
                let (s, i) = #[trigger] landing(lens, shifts, j, lens.len() as int)[m];
                &&& s < lens.len()
                &&& i < lens[s as int]
                &&& i + shifts[s as int] == j
            },
        forall|m: int, q: int|
            0 <= m < q < landing(lens, shifts, j, lens.len() as int).len() ==> #[trigger] landing(
                lens,
                shifts,
                j,
                lens.len() as int,
            )[m].0 < #[trigger] landing(lens, shifts, j, lens.len() as int)[q].0,
        forall|s: int, i: int|
            0 <= s < lens.len() && 0 <= i < lens[s] && i + shifts[s] == j ==> #[trigger] landing(
                lens,
                shifts,
                j,
                lens.len() as int,
            ).contains((s as usize, i as usize)),
{
    longest_is_max(lens);
    landing_is_sound(lens, shifts, j, lens.len() as int);
    landing_is_complete(lens, shifts, j, lens.len() as int);
}

} // verus!
