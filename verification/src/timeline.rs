//! Index windows of the render: which frames are rendered, which samples
//! are kept, which region is looped and how much of it is faded.

use vstd::prelude::*;
use crate::framing::{frames_of, lemma_frames_fit};

verus! {

/// `a - b`, or zero where `b` is the larger.
pub open spec fn monus(a: int, b: int) -> int {
    if a >= b {
        a - b
    } else {
        0
    }
}

/// The frames to render, as a half-open range of the stretched grid.
///
/// `first` is the frame at which the note starts and `needed` the frames
/// that the note takes from the grid's start to its end; `margin` frames of
/// context are kept on each side, as far as the grid has them.
pub open spec fn window_of(frames: int, first: int, needed: int, margin: int) -> (int, int) {
    let cut_left = monus(first, margin);
    let cut_right = monus(monus(frames, needed), margin);
    (cut_left, frames - cut_right)
}

/// `start` and `end` brought into `0..=len`, with the end no lower than the
/// start.
pub open spec fn clamped_range_of(start: int, end: int, len: int) -> (int, int) {
    let s = if start < len {
        start
    } else {
        len
    };
    let e = if end < s {
        s
    } else if end < len {
        end
    } else {
        len
    };
    (s, e)
}

/// Where the kept region of a trimmed signal ends: the frame of the last
/// loud gate, `extra` whole hops and one gate more, but no further than the
/// signal's end.
pub open spec fn trim_end_of(last: int, hop: int, gate: int, extra: int, len: int) -> int
    recommends
        hop > 0,
{
    let reach = (last / hop + 1 + extra) * hop + gate;
    if reach < len {
        reach
    } else {
        len
    }
}

/// Samples over which a region of `length` samples is faded: the nominal
/// fade, but no more than a quarter of the region.
pub open spec fn fade_len_of(length: int, nominal: int) -> int {
    if nominal < length / 4 {
        nominal
    } else {
        length / 4
    }
}

/// The frames to render: start and end of the window, and the number of
/// frames in it, which is zero where the end is not after the start.
pub fn render_window(frames: usize, first: usize, needed: usize, margin: usize) -> (r: (
    usize,
    usize,
    usize,
))
    ensures
        (r.0 as int, r.1 as int) == window_of(
            frames as int,
            first as int,
            needed as int,
            margin as int,
        ),
        r.2 == monus(r.1 as int, r.0 as int),
        r.1 <= frames,
{
    let cut_left: usize = if first >= margin {
        first - margin
    } else {
        0
    };
    let end_right: usize = if frames >= needed {
        frames - needed
    } else {
        0
    };
    let cut_right: usize = if end_right >= margin {
        end_right - margin
    } else {
        0
    };
    let end: usize = frames - cut_right;
    let count: usize = if end >= cut_left {
        end - cut_left
    } else {
        0
    };
    (cut_left, end, count)
}

/// Brings a range into a buffer of `len` places: the start no higher than
/// `len`, the end between the start and `len`.
pub fn clamp_range(start: usize, end: usize, len: usize) -> (r: (usize, usize))
    ensures
        (r.0 as int, r.1 as int) == clamped_range_of(start as int, end as int, len as int),
        r.0 <= r.1 <= len,
{
    let s: usize = if start < len {
        start
    } else {
        len
    };
    let e: usize = if end < s {
        s
    } else if end < len {
        end
    } else {
        len
    };
    (s, e)
}

/// Clamping a range that already lies in the buffer changes nothing, and
/// clamping twice is clamping once.
pub proof fn lemma_clamp_range_idempotent(start: int, end: int, len: int)
    requires
        0 <= len,
    ensures
        0 <= start <= end <= len ==> clamped_range_of(start, end, len) == (start, end),
        ({
            let once = clamped_range_of(start, end, len);
            clamped_range_of(once.0, once.1, len) == once
        }),
{
}

/// End of the region that silence trimming keeps.
pub fn trim_end(last: usize, hop: usize, gate: usize, extra: usize, len: usize) -> (r: usize)
    requires
        hop > 0,
    ensures
        r == trim_end_of(last as int, hop as int, gate as int, extra as int, len as int),
        r <= len,
{
    let whole: usize = last / hop;
    let steps: usize = match whole.checked_add(1) {
        Some(v) => match v.checked_add(extra) {
            Some(w) => w,
            None => {
                proof {
                    lemma_reach_is_large(whole + 1 + extra, hop as int, gate as int);
                }
                return len;
            },
        },
        None => {
            proof {
                lemma_reach_is_large(whole + 1 + extra, hop as int, gate as int);
            }
            return len;
        },
    };
    let reach: usize = match steps.checked_mul(hop) {
        Some(v) => match v.checked_add(gate) {
            Some(w) => w,
            None => {
                return len;
            },
        },
        None => {
            return len;
        },
    };
    if reach < len {
        reach
    } else {
        len
    }
}

/// More steps than the machine word counts reach beyond any buffer.
proof fn lemma_reach_is_large(steps: int, hop: int, gate: int)
    requires
        steps > usize::MAX,
        hop > 0,
        gate >= 0,
    ensures
        steps * hop + gate > usize::MAX,
{
    assert(steps * hop >= steps) by (nonlinear_arith)
        requires
            steps > 0,
            hop >= 1,
    ;
}

/// Length of the fade at the edge of a region of `length` samples.
pub fn fade_len(length: usize, nominal: usize) -> (r: usize)
    ensures
        r == fade_len_of(length as int, nominal as int),
        r <= length,
{
    let quarter: usize = length / 4;
    if nominal < quarter {
        nominal
    } else {
        quarter
    }
}

/// `i` is the first loud gate and `j` the last.
pub open spec fn is_loud_span(loud: Seq<bool>, i: int, j: int) -> bool {
    &&& 0 <= i <= j < loud.len()
    &&& loud[i]
    &&& loud[j]
    &&& forall|k: int| 0 <= k < i ==> !loud[k]
    &&& forall|k: int| j < k < loud.len() ==> !loud[k]
}

/// The first and the last gate that is loud, if any is.
pub fn loud_span(loud: &[bool]) -> (r: Option<(usize, usize)>)
    ensures
        match r {
            Some((first, last)) => is_loud_span(loud@, first as int, last as int),
            None => forall|k: int| 0 <= k < loud@.len() ==> !loud@[k],
        },
{
    let mut first: usize = 0;
    while first < loud.len() && !loud[first]
        invariant
            first <= loud.len(),
            forall|k: int| 0 <= k < first ==> !loud@[k],
        decreases loud.len() - first,
    {
        first += 1;
    }
    if first == loud.len() {
        return None;
    }
    let mut last: usize = loud.len() - 1;
    while !loud[last]
        invariant
            first <= last < loud.len(),
            loud@[first as int],
            forall|k: int| last < k < loud@.len() ==> !loud@[k],
        decreases last,
    {
        last -= 1;
    }
    Some((first, last))
}

/// The region that silence trimming keeps of a signal of `len` samples,
/// given for each of its gates, or for the first of them, whether it is
/// loud: from the first loud gate to the trimmed end behind the last one.
/// Without a loud gate nothing is trimmed.
pub fn trim_region(loud: &[bool], hop: usize, gate: usize, extra: usize, len: usize) -> (r: Option<
    (usize, usize),
>)
    requires
        hop > 0,
        gate > 0,
        loud@.len() <= frames_of(len as int, gate as int, hop as int),
    ensures
        match r {
            Some((from, to)) => exists|first: int, last: int|
                #![trigger is_loud_span(loud@, first, last)]
                is_loud_span(loud@, first, last) && from == first * hop && to == trim_end_of(
                    last * hop,
                    hop as int,
                    gate as int,
                    extra as int,
                    len as int,
                ) && from < to <= len,
            None => forall|k: int| 0 <= k < loud@.len() ==> !loud@[k],
        },
{
    match loud_span(loud) {
        None => None,
        Some((first, last)) => {
            proof {
                lemma_frames_fit(len as int, gate as int, hop as int, first as int);
                lemma_frames_fit(len as int, gate as int, hop as int, last as int);
                assert(first * hop <= last * hop) by (nonlinear_arith)
                    requires
                        first <= last,
                        hop > 0,
                ;
                let at = (last * hop) as int;
                assert(at / (hop as int) == last) by {
                    vstd::arithmetic::div_mod::lemma_fundamental_div_mod_converse(
                        at,
                        hop as int,
                        last as int,
                        0,
                    );
                }
                assert((last + 1 + extra) * hop + gate > last * hop) by (nonlinear_arith)
                    requires
                        hop > 0,
                        gate > 0,
                        extra >= 0,
                        last >= 0,
                ;
            }
            let from: usize = first * hop;
            let to: usize = trim_end(last * hop, hop, gate, extra, len);
            assert(is_loud_span(loud@, first as int, last as int));
            Some((from, to))
        },
    }
}

/// How a trimmed and normalised region is put back into a signal of `len`
/// samples: the samples of the region that fit behind `start`, and the
/// samples of the signal that are left behind those.
pub open spec fn restore_plan_of(len: int, start: int, region: int) -> (int, int) {
    let fits = if region < len - start {
        region
    } else {
        len - start
    };
    (fits, len - start - fits)
}

/// Plans how a region of `region` samples is put back at `start`.
pub fn restore_plan(len: usize, start: usize, region: usize) -> (r: (usize, usize))
    requires
        start <= len,
    ensures
        (r.0 as int, r.1 as int) == restore_plan_of(len as int, start as int, region as int),
        start + r.0 + r.1 == len,
        r.0 <= region,
{
    let room: usize = len - start;
    let fits: usize = if region < room {
        region
    } else {
        room
    };
    (fits, room - fits)
}

/// The two samples between which the slope at sample `i` of `n` is taken:
/// its neighbours, or itself in place of the neighbour that an end lacks.
pub open spec fn slope_span_of(i: int, n: int) -> (int, int) {
    if i == 0 {
        (0, 1)
    } else if i == n - 1 {
        (i - 1, i)
    } else {
        (i - 1, i + 1)
    }
}

/// The samples between which the slope at sample `i` is taken.
pub fn slope_span(i: usize, n: usize) -> (r: (usize, usize))
    requires
        n >= 2,
        i < n,
    ensures
        (r.0 as int, r.1 as int) == slope_span_of(i as int, n as int),
        r.0 < r.1 < n,
{
    if i == 0 {
        (0, 1)
    } else if i == n - 1 {
        (i - 1, i)
    } else {
        (i - 1, i + 1)
    }
}

/// Whether a square wave of `period` samples is high at sample `n`: it is in
/// the first half of each period.
pub open spec fn square_high_of(n: int, period: int) -> bool
    recommends
        period > 0,
{
    2 * (n % period) < period
}

/// Whether a square wave of `period` samples is high at sample `n`.
pub fn square_high(n: usize, period: usize) -> (r: bool)
    requires
        period > 0,
    ensures
        r == square_high_of(n as int, period as int),
{
    let phase: usize = n % period;
    phase < period - phase
}

} // verus!
