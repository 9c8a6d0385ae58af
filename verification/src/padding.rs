//! Reflect padding: which sample or column of the source each padded place
//! repeats.

use vstd::prelude::*;

verus! {

/// The sample that place `i` of the left pad repeats, in a signal of `len`
/// samples, `len` at least 2: the samples after the first, in order, again
/// and again.
pub open spec fn left_source(i: int, len: int) -> int {
    1 + i % (len - 1)
}

/// The sample that place `i` of the right pad repeats, in a signal of `len`
/// samples, `len` at least 2: the samples before the last, backwards, again
/// and again.
pub open spec fn right_source(i: int, len: int) -> int {
    (len - 2) - i % (len - 1)
}

/// The padded signal. An empty signal is padded with `fill`, a single sample
/// with itself, a longer one with its own samples as `left_source` and
/// `right_source` say.
pub open spec fn reflect_pad_of<T>(signal: Seq<T>, left: int, right: int, fill: T) -> Seq<T>
    recommends
        left >= 0,
        right >= 0,
{
    let len = signal.len() as int;
    Seq::new(
        (left + len + right) as nat,
        |i: int|
            if len == 0 {
                fill
            } else if left <= i < left + len {
                signal[i - left]
            } else if len == 1 {
                signal[0]
            } else if i < left {
                signal[left_source(i, len)]
            } else {
                signal[right_source(i - left - len, len)]
            },
    )
}

/// The column that each column of a padded grid repeats: the grid's own
/// columns, then `pad` more that walk backwards from the column before the
/// last, again and again. A grid without columns, or a pad of none, stays as
/// it is; a single column is repeated.
pub open spec fn reflect_columns_of(cols: int, pad: int) -> Seq<int>
    recommends
        cols >= 0,
        pad >= 0,
{
    if cols == 0 || pad == 0 {
        Seq::new(cols as nat, |c: int| c)
    } else {
        Seq::new(
            (cols + pad) as nat,
            |c: int|
                if c < cols {
                    c
                } else if cols == 1 {
                    0
                } else {
                    right_source(c - cols, cols)
                },
        )
    }
}

/// The source of a pad place lies inside the signal.
pub proof fn lemma_sources_in_range(i: int, len: int)
    requires
        i >= 0,
        len >= 2,
    ensures
        1 <= left_source(i, len) <= len - 1,
        0 <= right_source(i, len) <= len - 2,
{
    assert(0 <= i % (len - 1) < len - 1) by (nonlinear_arith)
        requires
            i >= 0,
            len - 1 > 0,
    ;
}

/// Padding keeps the signal: it stands unchanged behind the left pad, and
/// every other place repeats one of its samples, or the fill where it has
/// none.
pub proof fn lemma_pad_keeps_signal<T>(signal: Seq<T>, left: int, right: int, fill: T)
    requires
        left >= 0,
        right >= 0,
    ensures
        reflect_pad_of(signal, left, right, fill).len() == left + signal.len() + right,
        reflect_pad_of(signal, left, right, fill).subrange(left, left + signal.len()) == signal,
        forall|i: int|
            0 <= i < left + signal.len() + right ==> signal.len() == 0 || signal.contains(
                #[trigger] reflect_pad_of(signal, left, right, fill)[i],
            ),
{
    let padded = reflect_pad_of(signal, left, right, fill);
    let len = signal.len() as int;
    assert(padded.subrange(left, left + len) =~= signal);
    assert forall|i: int| 0 <= i < left + len + right implies len == 0 || signal.contains(
        #[trigger] padded[i],
    ) by {
        if len >= 2 {
            if i < left {
                lemma_sources_in_range(i, len);
                assert(padded[i] == signal[left_source(i, len)]);
            } else if i >= left + len {
                lemma_sources_in_range(i - left - len, len);
                assert(padded[i] == signal[right_source(i - left - len, len)]);
            } else {
                assert(padded[i] == signal[i - left]);
            }
        } else if len == 1 {
            assert(padded[i] == signal[0]);
        }
    }
}

/// Pads `signal` with `pad_left` places before it and `pad_right` after it.
pub fn reflect_pad_1d<T: Copy>(signal: &[T], pad_left: usize, pad_right: usize, fill: T) -> (r:
    Vec<T>)
    requires
        pad_left + signal.len() + pad_right <= usize::MAX,
    ensures
        r@ == reflect_pad_of(signal@, pad_left as int, pad_right as int, fill),
        r@.len() == pad_left + signal.len() + pad_right,
{
    let len = signal.len();
    let total: usize = pad_left + len + pad_right;
    let ghost want = reflect_pad_of(signal@, pad_left as int, pad_right as int, fill);
    let mut out: Vec<T> = Vec::new();
    let mut i: usize = 0;
    while i < total
        invariant
            i <= total,
            len == signal.len(),
            total == pad_left + len + pad_right,
            want == reflect_pad_of(signal@, pad_left as int, pad_right as int, fill),
            out@.len() == i,
            forall|j: int| 0 <= j < i ==> out@[j] == want[j],
        decreases total - i,
    {
        let value: T = if len == 0 {
            fill
        } else if pad_left <= i && i < pad_left + len {
            signal[i - pad_left]
        } else if len == 1 {
            signal[0]
        } else if i < pad_left {
            proof {
                lemma_sources_in_range(i as int, len as int);
            }
            signal[1 + i % (len - 1)]
        } else {
            let k: usize = i - pad_left - len;
            proof {
                lemma_sources_in_range(k as int, len as int);
            }
            signal[(len - 2) - k % (len - 1)]
        };
        out.push(value);
        i += 1;
    }
    assert(out@ =~= want);
    out
}

/// Lists, for a grid of `cols` columns padded by `pad`, the column of the
/// grid that each column of the result repeats.
pub fn reflect_pad_columns(cols: usize, pad: usize) -> (r: Vec<usize>)
    requires
        cols + pad <= usize::MAX,
    ensures
        r@.len() == reflect_columns_of(cols as int, pad as int).len(),
        forall|c: int|
            0 <= c < r@.len() ==> #[trigger] r@[c] == reflect_columns_of(
                cols as int,
                pad as int,
            )[c],
        forall|c: int| 0 <= c < r@.len() ==> #[trigger] r@[c] < cols,
{
    let ghost want = reflect_columns_of(cols as int, pad as int);
    let total: usize = if cols == 0 || pad == 0 {
        cols
    } else {
        cols + pad
    };
    let mut out: Vec<usize> = Vec::new();
    let mut c: usize = 0;
    while c < total
        invariant
            c <= total,
            total == want.len(),
            total >= cols,
            total > 0 ==> cols > 0,
            want == reflect_columns_of(cols as int, pad as int),
            out@.len() == c,
            forall|j: int| 0 <= j < c ==> #[trigger] out@[j] == want[j],
            forall|j: int| 0 <= j < c ==> #[trigger] out@[j] < cols,
        decreases total - c,
    {
        let source: usize = if c < cols {
            c
        } else if cols == 1 {
            0
        } else {
            let k: usize = c - cols;
            proof {
                lemma_sources_in_range(k as int, cols as int);
            }
            (cols - 2) - k % (cols - 1)
        };
        out.push(source);
        c += 1;
    }
    out
}

} // verus!
