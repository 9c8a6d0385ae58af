//! Frame and hop bookkeeping of the short-time transform and of the
//! separation model's padding.

use vstd::prelude::*;
use vstd::arithmetic::div_mod::{
    lemma_fundamental_div_mod, lemma_fundamental_div_mod_converse, lemma_mod_multiples_basic,
};
use vstd::string::*;
use crate::consts::{FRAME_MULTIPLE, HOP_SIZE, SEGMENT_FRAMES};
use crate::text::{list_text, push_list};

verus! {

/// Bins kept of a real signal's spectrum.
pub open spec fn bins_of(fft_size: int) -> int {
    fft_size / 2 + 1
}

/// Frames of `fft_size` samples, `hop_size` apart, that fit a signal of
/// `len` samples. A degenerate grid has none.
pub open spec fn frames_of(len: int, fft_size: int, hop_size: int) -> int {
    if fft_size <= 0 || hop_size <= 0 || len < fft_size {
        0
    } else {
        (len - fft_size) / hop_size + 1
    }
}

/// Samples that `n_frames` overlapping frames cover.
pub open spec fn overlap_len_of(n_frames: int, fft_size: int, hop_size: int) -> int {
    if n_frames <= 0 {
        0
    } else {
        fft_size + (n_frames - 1) * hop_size
    }
}

/// The least multiple of `unit` that is at least `n`.
pub open spec fn round_up_of(n: int, unit: int) -> int
    recommends
        unit > 0,
{
    ((n + unit - 1) / unit) * unit
}

/// Number of bins kept of a spectrum of `fft_size` points.
pub fn freq_bins(fft_size: usize) -> (r: usize)
    ensures
        r == bins_of(fft_size as int),
{
    fft_size / 2 + 1
}

/// Number of whole frames in a signal of `len` samples.
pub fn frame_count(len: usize, fft_size: usize, hop_size: usize) -> (r: usize)
    ensures
        r == frames_of(len as int, fft_size as int, hop_size as int),
        r <= len,
{
    if fft_size == 0 || hop_size == 0 || len < fft_size {
        0
    } else {
        let room: usize = len - fft_size;
        assert(room / hop_size <= room) by (nonlinear_arith)
            requires
                hop_size >= 1,
                room >= 0,
        ;
        room / hop_size + 1
    }
}

/// First sample of frame `k`.
pub fn frame_start(k: usize, len: usize, fft_size: usize, hop_size: usize) -> (r: usize)
    requires
        k < frames_of(len as int, fft_size as int, hop_size as int),
    ensures
        r == k * hop_size,
        r + fft_size <= len,
{
    proof {
        lemma_frames_fit(len as int, fft_size as int, hop_size as int, k as int);
    }
    k * hop_size
}

/// Every frame of the grid lies inside the signal, and one more would not.
pub proof fn lemma_frames_fit(len: int, fft_size: int, hop_size: int, k: int)
    requires
        0 <= k < frames_of(len, fft_size, hop_size),
    ensures
        k * hop_size + fft_size <= len,
        frames_of(len, fft_size, hop_size) * hop_size + fft_size > len,
{
    let room = len - fft_size;
    let n = frames_of(len, fft_size, hop_size);
    assert(n == room / hop_size + 1);
    assert((room / hop_size) * hop_size <= room && room < (room / hop_size + 1) * hop_size)
        by (nonlinear_arith)
        requires
            hop_size > 0,
    ;
    assert(k * hop_size <= (room / hop_size) * hop_size) by (nonlinear_arith)
        requires
            k <= room / hop_size,
            hop_size > 0,
    ;
}

/// The frames of a signal whose length is a window plus a whole number of
/// hops cover it exactly: analysis followed by overlap-add gives back the
/// length it started from.
pub proof fn lemma_round_trip_length(fft_size: int, hop_size: int, hops: int)
    requires
        fft_size > 0,
        hop_size > 0,
        hops >= 0,
    ensures
        frames_of(fft_size + hops * hop_size, fft_size, hop_size) == hops + 1,
        overlap_len_of(
            frames_of(fft_size + hops * hop_size, fft_size, hop_size),
            fft_size,
            hop_size,
        ) == fft_size + hops * hop_size,
{
    assert((hops * hop_size) / hop_size == hops && hops * hop_size >= 0) by (nonlinear_arith)
        requires
            hop_size > 0,
            hops >= 0,
    ;
}

/// For any signal that holds a frame, overlap-add covers all of it but less
/// than one hop at its end.
pub proof fn lemma_overlap_covers(len: int, fft_size: int, hop_size: int)
    requires
        fft_size > 0,
        hop_size > 0,
        len >= fft_size,
    ensures
        overlap_len_of(frames_of(len, fft_size, hop_size), fft_size, hop_size) <= len,
        len < overlap_len_of(frames_of(len, fft_size, hop_size), fft_size, hop_size) + hop_size,
{
    let room = len - fft_size;
    assert((room / hop_size) * hop_size <= room && room < (room / hop_size + 1) * hop_size)
        by (nonlinear_arith)
        requires
            hop_size > 0,
    ;
    assert((room / hop_size + 1) * hop_size == (room / hop_size) * hop_size + hop_size)
        by (nonlinear_arith);
}

/// The frame that covers sample `j` of an overlap-add buffer of `n_frames`
/// frames: the one that starts last at or before it.
pub open spec fn covering_frame_of(j: int, n_frames: int, hop_size: int) -> int
    recommends
        hop_size > 0,
{
    if j / hop_size < n_frames - 1 {
        j / hop_size
    } else {
        n_frames - 1
    }
}

/// Where hops are no longer than windows, every sample of the overlap-add
/// buffer lies in at least one frame, so the sum of window energy that a
/// sample is divided by always has a term.
pub proof fn lemma_every_sample_covered(j: int, n_frames: int, fft_size: int, hop_size: int)
    requires
        n_frames >= 1,
        0 < hop_size <= fft_size,
        0 <= j < overlap_len_of(n_frames, fft_size, hop_size),
    ensures
        ({
            let k = covering_frame_of(j, n_frames, hop_size);
            &&& 0 <= k < n_frames
            &&& k * hop_size <= j < k * hop_size + fft_size
        }),
{
    let q = j / hop_size;
    lemma_fundamental_div_mod(j, hop_size);
    assert(hop_size * q == q * hop_size) by (nonlinear_arith);
    assert(0 <= j % hop_size < hop_size) by (nonlinear_arith)
        requires
            hop_size > 0,
    ;
    assert(q >= 0) by (nonlinear_arith)
        requires
            q * hop_size + j % hop_size == j,
            j >= 0,
            0 <= j % hop_size < hop_size,
            hop_size > 0,
    ;
    if q >= n_frames - 1 {
        assert((n_frames - 1) * hop_size <= q * hop_size) by (nonlinear_arith)
            requires
                n_frames - 1 <= q,
                hop_size > 0,
        ;
    }
}

/// Sample `i` of frame `k` has its place in the overlap-add buffer.
pub proof fn lemma_overlap_place(k: int, i: int, n_frames: int, fft_size: int, hop_size: int)
    requires
        0 <= k < n_frames,
        0 <= i < fft_size,
        hop_size >= 0,
    ensures
        0 <= k * hop_size + i < overlap_len_of(n_frames, fft_size, hop_size),
{
    assert(0 <= k * hop_size <= (n_frames - 1) * hop_size) by (nonlinear_arith)
        requires
            0 <= k <= n_frames - 1,
            hop_size >= 0,
    ;
}

/// The place in the overlap-add buffer of sample `i` of frame `k`.
pub fn overlap_place(k: usize, i: usize, n_frames: usize, fft_size: usize, hop_size: usize) -> (r:
    usize)
    requires
        k < n_frames,
        i < fft_size,
        overlap_len_of(n_frames as int, fft_size as int, hop_size as int) <= usize::MAX,
    ensures
        r == k * hop_size + i,
        r < overlap_len_of(n_frames as int, fft_size as int, hop_size as int),
{
    proof {
        lemma_overlap_place(k as int, i as int, n_frames as int, fft_size as int, hop_size as int);
        assert(0 <= k * hop_size) by (nonlinear_arith)
            requires
                k >= 0,
                hop_size >= 0,
        ;
    }
    k * hop_size + i
}

/// The bin that mirrors bin `i` when the full spectrum of a real signal is
/// rebuilt: bins 1 up to the one before the last kept are mirrored, and no
/// mirror falls on a kept bin.
pub fn mirror_bin(i: usize, fft_size: usize) -> (r: usize)
    requires
        1 <= i,
        i + 1 < bins_of(fft_size as int),
    ensures
        r == fft_size - i,
        bins_of(fft_size as int) <= r < fft_size,
{
    fft_size - i
}

/// The zeros put before and after a signal so that frame centres fall on
/// sample centres: the window less one hop, halved, with the odd sample on
/// the right.
pub open spec fn center_padding_of(fft_size: int, hop_size: int) -> (int, int) {
    ((fft_size - hop_size) / 2, (fft_size - hop_size + 1) / 2)
}

/// The padding that centres the frames of a transform.
pub fn center_padding(fft_size: usize, hop_size: usize) -> (r: (usize, usize))
    requires
        hop_size <= fft_size,
    ensures
        (r.0 as int, r.1 as int) == center_padding_of(fft_size as int, hop_size as int),
        r.0 + r.1 == fft_size - hop_size,
        r.0 <= r.1 <= r.0 + 1,
{
    let slack: usize = fft_size - hop_size;
    (slack / 2, slack - slack / 2)
}

/// A centred signal of at least one hop has one frame per whole hop.
pub proof fn lemma_centered_frames(len: int, fft_size: int, hop_size: int)
    requires
        0 < hop_size <= fft_size,
        len >= hop_size,
    ensures
        ({
            let (left, right) = center_padding_of(fft_size, hop_size);
            frames_of(left + len + right, fft_size, hop_size) == len / hop_size
        }),
{
    let (left, right) = center_padding_of(fft_size, hop_size);
    assert(left + right == fft_size - hop_size);
    let q = len / hop_size;
    lemma_fundamental_div_mod(len, hop_size);
    assert(hop_size * q == q * hop_size) by (nonlinear_arith);
    assert(0 <= len % hop_size < hop_size) by (nonlinear_arith)
        requires
            hop_size > 0,
    ;
    assert(len - hop_size == (q - 1) * hop_size + len % hop_size) by (nonlinear_arith)
        requires
            len == q * hop_size + len % hop_size,
    ;
    lemma_fundamental_div_mod_converse(len - hop_size, hop_size, q - 1, len % hop_size);
}

/// Length of the buffer that overlap-add of `n_frames` frames fills, where
/// there is a frame and the length fits the machine word.
pub fn overlap_add_len(n_frames: usize, fft_size: usize, hop_size: usize) -> (r: Option<usize>)
    ensures
        match r {
            Some(len) => n_frames > 0 && len == overlap_len_of(
                n_frames as int,
                fft_size as int,
                hop_size as int,
            ),
            None => n_frames == 0 || overlap_len_of(
                n_frames as int,
                fft_size as int,
                hop_size as int,
            ) > usize::MAX,
        },
{
    if n_frames == 0 {
        return None;
    }
    match (n_frames - 1).checked_mul(hop_size) {
        Some(advance) => fft_size.checked_add(advance),
        None => None,
    }
}

/// Rounds `n` up to a multiple of `unit`, where that fits the machine word.
pub fn round_up_to_multiple(n: usize, unit: usize) -> (r: Option<usize>)
    requires
        unit > 0,
    ensures
        match r {
            Some(m) => m == round_up_of(n as int, unit as int) && m % unit == 0 && n <= m < n
                + unit,
            None => round_up_of(n as int, unit as int) > usize::MAX,
        },
{
    proof {
        lemma_round_up(n as int, unit as int);
    }
    let whole: usize = n / unit;
    let part: usize = n % unit;
    assert(whole * unit <= n) by (nonlinear_arith)
        requires
            whole == n / unit,
            unit > 0,
    ;
    let floor: usize = whole * unit;
    if part == 0 {
        Some(floor)
    } else {
        floor.checked_add(unit)
    }
}

/// What rounding up comes to: `n` itself where it is a multiple, and the
/// next multiple else.
pub proof fn lemma_round_up(n: int, unit: int)
    requires
        n >= 0,
        unit > 0,
    ensures
        round_up_of(n, unit) % unit == 0,
        n <= round_up_of(n, unit) < n + unit,
        round_up_of(n, unit) == if n % unit == 0 {
            (n / unit) * unit
        } else {
            (n / unit) * unit + unit
        },
{
    let q = n / unit;
    let r = n % unit;
    lemma_fundamental_div_mod(n, unit);
    assert(unit * q == q * unit) by (nonlinear_arith);
    assert((q + 1) * unit == q * unit + unit) by (nonlinear_arith);
    lemma_mod_multiples_basic(q, unit);
    lemma_mod_multiples_basic(q + 1, unit);
    if r == 0 {
        lemma_fundamental_div_mod_converse(n + unit - 1, unit, q, unit - 1);
    } else {
        lemma_fundamental_div_mod_converse(n + unit - 1, unit, q + 1, r - 1);
    }
}

/// Samples in one segment of the separation model.
pub open spec fn segment_len() -> int {
    (SEGMENT_FRAMES * HOP_SIZE) as int
}

/// Samples, one hop included, that a signal of `len` samples is padded to:
/// the least whole number of segments that is more than `len` and a hop less
/// one.
pub open spec fn padded_total(len: int) -> int {
    segment_len() * ((len + HOP_SIZE - 1) / segment_len() + 1)
}

/// Zeros put before the signal: half of the slack, as whole hops.
pub open spec fn left_pad_of(len: int) -> int {
    (padded_total(len) - (len + HOP_SIZE)) / 2 / (HOP_SIZE as int) * HOP_SIZE
}

/// Zeros put after the signal: the rest of the slack.
pub open spec fn right_pad_of(len: int) -> int {
    padded_total(len) - (len + HOP_SIZE) - left_pad_of(len)
}

/// The slack is never negative, the left pad is a whole number of hops and
/// no more than the right pad, and signal, pads and one hop fill whole
/// segments.
pub proof fn lemma_segment_padding(len: int)
    requires
        len >= 0,
    ensures
        padded_total(len) >= len + HOP_SIZE,
        padded_total(len) < len + HOP_SIZE + segment_len(),
        padded_total(len) % segment_len() == 0,
        left_pad_of(len) % (HOP_SIZE as int) == 0,
        left_pad_of(len) <= right_pad_of(len),
        left_pad_of(len) + len + right_pad_of(len) + HOP_SIZE == padded_total(len),
{
    let seg = segment_len();
    let hop = HOP_SIZE as int;
    assert(seg == 16384 && hop == 512);
    let q = (len + hop - 1) / seg;
    lemma_fundamental_div_mod(len + hop - 1, seg);
    assert(seg * (q + 1) == seg * q + seg) by (nonlinear_arith);
    assert(seg * (q + 1) == (q + 1) * seg) by (nonlinear_arith);
    lemma_mod_multiples_basic(q + 1, seg);
    let slack = padded_total(len) - (len + hop);
    let half_hops = slack / 2 / hop;
    lemma_fundamental_div_mod(slack / 2, hop);
    assert(hop * half_hops == half_hops * hop) by (nonlinear_arith);
    lemma_mod_multiples_basic(half_hops, hop);
}

/// The zeros to put before and after a signal of `len` samples so that it
/// fills whole segments of the separation model, where the padded length
/// fits the machine word.
pub fn segment_padding(len: usize) -> (r: Option<(usize, usize)>)
    ensures
        match r {
            Some((left, right)) => left == left_pad_of(len as int) && right == right_pad_of(
                len as int,
            ),
            None => padded_total(len as int) > usize::MAX,
        },
{
    proof {
        lemma_segment_padding(len as int);
    }
    let seg: usize = SEGMENT_FRAMES * HOP_SIZE;
    let with_hop: usize = match len.checked_add(HOP_SIZE) {
        Some(v) => v,
        None => {
            return None;
        },
    };
    let whole: usize = (with_hop - 1) / seg;
    assert(whole * seg <= with_hop - 1) by (nonlinear_arith)
        requires
            whole == (with_hop - 1) / (seg as int),
            seg == 16384,
            with_hop >= 1,
    ;
    let total: usize = match (whole * seg).checked_add(seg) {
        Some(v) => v,
        None => {
            assert(seg * (whole + 1) == whole * seg + seg) by (nonlinear_arith);
            return None;
        },
    };
    assert(total == padded_total(len as int)) by {
        assert(seg * (whole + 1) == whole * seg + seg) by (nonlinear_arith);
    }
    let slack: usize = total - with_hop;
    let left: usize = slack / 2 / HOP_SIZE * HOP_SIZE;
    Some((left, slack - left))
}

/// Why a shape was rejected.
#[derive(Debug, PartialEq, Eq)]
pub struct ShapeError {
    /// What the shape belongs to.
    pub name: String,
    /// The dimensions that were asked for.
    pub expected: Vec<usize>,
    /// The dimensions that were found.
    pub actual: Vec<usize>,
}

/// The text of a rejected shape: what it belongs to, the dimensions asked
/// for and the dimensions found.
pub open spec fn shape_message_of(name: Seq<char>, expected: Seq<usize>, actual: Seq<usize>) -> Seq<
    char,
> {
    "Invalid "@ + name + " shape: expected "@ + list_text(expected) + ", got "@ + list_text(actual)
}

impl ShapeError {
    /// The error as a sentence, such as
    /// `Invalid STFT frequency bins shape: expected [1025], got [1024]`.
    pub fn message(&self) -> (r: String)
        ensures
            r@ == shape_message_of(self.name@, self.expected@, self.actual@),
    {
        let mut out = String::from_str("Invalid ");
        out.append(self.name.as_str());
        out.append(" shape: expected ");
        push_list(&mut out, self.expected.as_slice());
        out.append(", got ");
        push_list(&mut out, self.actual.as_slice());
        out
    }
}

/// Accepts `actual` where it has the dimensions of `expected`, in number and
/// in value, and reports both, under `name`, where it has not.
pub fn validate_shape(actual: &[usize], expected: &[usize], name: &str) -> (r: Result<
    (),
    ShapeError,
>)
    ensures
        r.is_ok() <==> actual@ == expected@,
        match r {
            Ok(_) => true,
            Err(e) => e.name@ == name@ && e.expected@ == expected@ && e.actual@ == actual@,
        },
{
    let mut same: bool = actual.len() == expected.len();
    let mut i: usize = 0;
    while same && i < actual.len()
        invariant
            i <= actual.len(),
            same ==> actual.len() == expected.len(),
            same ==> forall|j: int| 0 <= j < i ==> actual@[j] == expected@[j],
            !same ==> actual@ != expected@,
        decreases actual.len() - i,
    {
        if actual[i] != expected[i] {
            same = false;
        }
        i += 1;
    }
    if same {
        assert(actual@ =~= expected@);
        Ok(())
    } else {
        Err(
            ShapeError {
                name: name.to_owned(),
                expected: copy_dims(expected),
                actual: copy_dims(actual),
            },
        )
    }
}

/// A copy of the dimensions in `dims`.
fn copy_dims(dims: &[usize]) -> (r: Vec<usize>)
    ensures
        r@ == dims@,
{
    let mut out: Vec<usize> = Vec::new();
    let mut i: usize = 0;
    while i < dims.len()
        invariant
            i <= dims.len(),
            out@ == dims@.subrange(0, i as int),
        decreases dims.len() - i,
    {
        out.push(dims[i]);
        assert(out@ =~= dims@.subrange(0, i + 1));
        i += 1;
    }
    assert(dims@.subrange(0, i as int) =~= dims@);
    out
}

/// Frames that the separation model is given for a spectrogram of `frames`
/// frames: the next multiple of sixteen.
pub fn model_frames(frames: usize) -> (r: Option<usize>)
    ensures
        match r {
            Some(m) => m == round_up_of(frames as int, FRAME_MULTIPLE as int) && m
                % FRAME_MULTIPLE == 0 && frames <= m < frames + FRAME_MULTIPLE,
            None => round_up_of(frames as int, FRAME_MULTIPLE as int) > usize::MAX,
        },
{
    round_up_to_multiple(frames, FRAME_MULTIPLE)
}

/// Whether a spectrogram of `bins` rows belongs to a transform of
/// `fft_size` points.
pub fn bins_match(bins: usize, fft_size: usize) -> (r: bool)
    ensures
        r == (bins == bins_of(fft_size as int)),
{
    bins == freq_bins(fft_size)
}

} // verus!
