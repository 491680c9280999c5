//! Sample windows used by the filters: which samples each output sample is computed
//! from. A span `(start, end)` names the samples `start..end`.

use vstd::prelude::*;

verus! {

/// Window length of a moving-average filter: `ratio * order`, clipped to at most `len`
/// samples and at least one.
pub open spec fn smoothing_window_of(len: nat, ratio: nat, order: nat) -> nat {
    let w = ratio * order;
    let clipped = if w < len { w } else { len };
    if clipped >= 1 { clipped } else { 1 }
}

/// Span of a centred window of half-width `half` around sample `i` of `len` samples.
pub open spec fn centred_span(len: nat, half: nat, i: nat) -> (usize, usize) {
    (
        if i >= half { (i - half) as usize } else { 0usize },
        if i + half + 1 < len { (i + half + 1) as usize } else { len as usize },
    )
}

/// Span of the trailing window of `window` samples before sample `i`, and `i` itself.
pub open spec fn trailing_span(i: nat, window: nat) -> (usize, usize) {
    (if i >= window { (i - window) as usize } else { 0usize }, (i + 1) as usize)
}

/// Window length of a moving-average filter over `len` samples.
pub fn smoothing_window(len: usize, ratio: usize, order: usize) -> (w: usize)
    requires
        ratio * order <= usize::MAX,
    ensures
        w == smoothing_window_of(len as nat, ratio as nat, order as nat),
        1 <= ratio * order <= len ==> w == ratio * order,
        ratio * order > len && len >= 1 ==> w == len,
        ratio * order == 0 || len == 0 ==> w == 1,
{
    let w = ratio * order;
    let clipped = if w < len { w } else { len };
    if clipped >= 1 { clipped } else { 1 }
}

/// Centred spans for each of `len` samples, using half of `window` on each side,
/// clipped to the signal.
pub fn centred_spans(len: usize, window: usize) -> (spans: Vec<(usize, usize)>)
    ensures
        spans@.len() == len,
        forall|i: int| 0 <= i < len ==> #[trigger] spans@[i] == centred_span(
            len as nat,
            (window / 2) as nat,
            i as nat,
        ),
        forall|i: int|
            0 <= i < len ==> {
                &&& (#[trigger] spans@[i]).0 == if i >= window / 2 { i - window / 2 } else { 0 }
                &&& spans@[i].1 == if i + window / 2 + 1 < len { i + window / 2 + 1 } else { len as int }
            },
{
    let half = window / 2;
    let mut spans: Vec<(usize, usize)> = Vec::new();
    let mut i: usize = 0;
    while i < len
        invariant
            i <= len,
            half == window / 2,
            spans@.len() == i,
            forall|k: int| 0 <= k < i ==> #[trigger] spans@[k] == centred_span(len as nat, half as nat, k as nat),
        decreases len - i,
    {
        let start = if i >= half { i - half } else { 0 };
        let end = if half < len - i - 1 { i + half + 1 } else { len };
        spans.push((start, end));
        i = i + 1;
    }
    spans
}

/// Trailing spans for each of `len` samples: sample `i` with the `window` samples
/// before it, clipped at the start of the signal.
pub fn trailing_spans(len: usize, window: usize) -> (spans: Vec<(usize, usize)>)
    ensures
        spans@.len() == len,
        forall|i: int| 0 <= i < len ==> #[trigger] spans@[i] == trailing_span(i as nat, window as nat),
        forall|i: int|
            0 <= i < len ==> (#[trigger] spans@[i]).0 == (if i >= window { i - window } else { 0 })
                && spans@[i].1 == i + 1,
{
    let mut spans: Vec<(usize, usize)> = Vec::new();
    let mut i: usize = 0;
    while i < len
        invariant
            i <= len,
            spans@.len() == i,
            forall|k: int| 0 <= k < i ==> #[trigger] spans@[k] == trailing_span(k as nat, window as nat),
        decreases len - i,
    {
        let start = if i >= window { i - window } else { 0 };
        spans.push((start, i + 1));
        i = i + 1;
    }
    spans
}

/// Spans of a template of `width` samples slid along `len` samples: one span
/// `(i, i + width)` for each offset `i` at which the template fits, none when it never
/// fits.
pub fn sliding_spans(len: usize, width: usize) -> (spans: Vec<(usize, usize)>)
    requires
        len - width < usize::MAX,
    ensures
        len < width ==> spans@.len() == 0,
        len >= width ==> spans@.len() == len - width + 1,
        forall|i: int| 0 <= i < spans@.len() ==> #[trigger] spans@[i] == (i as usize, (i + width) as usize),
{
    let mut spans: Vec<(usize, usize)> = Vec::new();
    if len < width {
        return spans;
    }
    let count = len - width + 1;
    let mut i: usize = 0;
    while i < count
        invariant
            len >= width,
            count == len - width + 1,
            i <= count,
            spans@.len() == i,
            forall|k: int| 0 <= k < i ==> #[trigger] spans@[k] == (k as usize, (k + width) as usize),
        decreases count - i,
    {
        spans.push((i, i + width));
        i = i + 1;
    }
    spans
}

/// Every span lies inside the signal and is not empty: the filters never read past
/// the samples nor average over nothing.
pub proof fn spans_stay_inside(len: nat, half: nat, window: nat, i: nat)
    requires
        i < len <= usize::MAX,
    ensures
        centred_span(len, half, i).0 <= i < centred_span(len, half, i).1 <= len,
        trailing_span(i, window).0 <= i < trailing_span(i, window).1 <= len,
{
}

} // verus!
