//! Layout of the spectrogram planes that the separation model takes and of
//! the waveform that comes back.

use vstd::prelude::*;

verus! {

/// The flat tensor of two planes, `bins` rows each and `target` frames wide,
/// filled from `re_plane` and `im_plane`, which hold `frames` frames of `bins`
/// values each, frame after frame. Frames beyond `frames` hold `zero`.
pub open spec fn packed_planes_of<T>(
    re_plane: Seq<T>,
    im_plane: Seq<T>,
    bins: int,
    frames: int,
    target: int,
    zero: T,
) -> Seq<T> {
    Seq::new(
        (2 * bins * target) as nat,
        |i: int|
            {
                let plane = i / (bins * target);
                let row = (i % (bins * target)) / target;
                let frame = i % target;
                if frame >= frames {
                    zero
                } else if plane == 0 {
                    re_plane[row + frame * bins]
                } else {
                    im_plane[row + frame * bins]
                }
            },
    )
}

/// Why the model's waveform could not be cut back to the input's length.
#[derive(Debug, Clone, Copy, PartialEq, Eq)]
pub enum CropError {
    /// The waveform ends before the input's last sample.
    TooShort,
}

/// Lays out the real and the imaginary plane of a spectrogram as the model
/// takes them, padded with `zero` from `frames` to `target` frames.
pub fn pack_planes<T: Copy>(
    re_plane: &[T],
    im_plane: &[T],
    bins: usize,
    frames: usize,
    target: usize,
    zero: T,
) -> (r: Vec<T>)
    requires
        frames <= target,
        re_plane.len() == bins * frames,
        im_plane.len() == bins * frames,
        2 * bins * target <= usize::MAX,
    ensures
        r@ == packed_planes_of(
            re_plane@,
            im_plane@,
            bins as int,
            frames as int,
            target as int,
            zero,
        ),
{
    let ghost want = packed_planes_of(
        re_plane@,
        im_plane@,
        bins as int,
        frames as int,
        target as int,
        zero,
    );
    let mut out: Vec<T> = Vec::new();
    let mut plane: usize = 0;
    assert(2 * bins * target == 2 * (bins * target)) by (nonlinear_arith);
    while plane < 2
        invariant
            plane <= 2,
            frames <= target,
            re_plane.len() == bins * frames,
            im_plane.len() == bins * frames,
            2 * (bins * target) <= usize::MAX,
            want.len() == 2 * (bins * target),
            want == packed_planes_of(
                re_plane@,
                im_plane@,
                bins as int,
                frames as int,
                target as int,
                zero,
            ),
            out@.len() == plane * (bins * target),
            forall|i: int| 0 <= i < out@.len() ==> out@[i] == want[i],
        decreases 2 - plane,
    {
        let mut row: usize = 0;
        while row < bins
            invariant
                plane < 2,
                row <= bins,
                frames <= target,
                re_plane.len() == bins * frames,
                im_plane.len() == bins * frames,
                2 * (bins * target) <= usize::MAX,
                want.len() == 2 * (bins * target),
                want == packed_planes_of(
                    re_plane@,
                    im_plane@,
                    bins as int,
                    frames as int,
                    target as int,
                    zero,
                ),
                out@.len() == plane * (bins * target) + row * target,
                forall|i: int| 0 <= i < out@.len() ==> out@[i] == want[i],
            decreases bins - row,
        {
            let mut frame: usize = 0;
            while frame < target
                invariant
                    plane < 2,
                    row < bins,
                    frame <= target,
                    frames <= target,
                    re_plane.len() == bins * frames,
                    im_plane.len() == bins * frames,
                    2 * (bins * target) <= usize::MAX,
                    want.len() == 2 * (bins * target),
                    want == packed_planes_of(
                        re_plane@,
                        im_plane@,
                        bins as int,
                        frames as int,
                        target as int,
                        zero,
                    ),
                    out@.len() == plane * (bins * target) + row * target + frame,
                    forall|i: int| 0 <= i < out@.len() ==> out@[i] == want[i],
                decreases target - frame,
            {
                let ghost at = out@.len() as int;
                proof {
                    lemma_place(
                        plane as int,
                        row as int,
                        frame as int,
                        bins as int,
                        target as int,
                    );
                    if frame < frames {
                        lemma_source_in_range(row as int, frame as int, bins as int, frames as int);
                    }
                }
                let value: T = if frame >= frames {
                    zero
                } else if plane == 0 {
                    re_plane[row + frame * bins]
                } else {
                    im_plane[row + frame * bins]
                };
                out.push(value);
                assert(out@[at] == want[at]);
                frame += 1;
            }
            proof {
                assert(row * target + target == (row + 1) * target) by (nonlinear_arith);
            }
            row += 1;
        }
        proof {
            assert(plane * (bins * target) + bins * target == (plane + 1) * (bins * target))
                by (nonlinear_arith);
        }
        plane += 1;
    }
    assert(out@ =~= want);
    out
}

/// Place `frame` of row `row` of plane `plane` is a place of the tensor, and
/// plane, row and frame are read back from it by division.
proof fn lemma_place(plane: int, row: int, frame: int, bins: int, target: int)
    requires
        0 <= plane < 2,
        0 <= row < bins,
        0 <= frame < target,
    ensures
        ({
            let i = plane * (bins * target) + row * target + frame;
            &&& 0 <= i < 2 * (bins * target)
            &&& i / (bins * target) == plane
            &&& (i % (bins * target)) / target == row
            &&& i % target == frame
        }),
{
    let size = bins * target;
    let inner = row * target + frame;
    assert(0 <= inner < size) by (nonlinear_arith)
        requires
            inner == row * target + frame,
            size == bins * target,
            0 <= row < bins,
            0 <= frame < target,
    ;
    let i = plane * size + inner;
    vstd::arithmetic::div_mod::lemma_fundamental_div_mod_converse(i, size, plane, inner);
    vstd::arithmetic::div_mod::lemma_fundamental_div_mod_converse(inner, target, row, frame);
    assert(i == (plane * bins + row) * target + frame) by (nonlinear_arith)
        requires
            i == plane * size + row * target + frame,
            size == bins * target,
    ;
    vstd::arithmetic::div_mod::lemma_fundamental_div_mod_converse(
        i,
        target,
        plane * bins + row,
        frame,
    );
    assert(0 <= i < 2 * size) by (nonlinear_arith)
        requires
            i == plane * size + inner,
            0 <= plane < 2,
            0 <= inner < size,
    ;
}

/// The place in the flat tensor of frame `frame` of row `row` of plane
/// `plane`: planes follow each other, rows within a plane, frames within a
/// row.
pub open spec fn tensor_index_of(plane: int, row: int, frame: int, bins: int, target: int) -> int {
    plane * (bins * target) + row * target + frame
}

/// Finds a value's place in the flat tensor.
pub fn tensor_index(plane: usize, row: usize, frame: usize, bins: usize, target: usize) -> (r:
    usize)
    requires
        plane < 2,
        row < bins,
        frame < target,
        2 * bins * target <= usize::MAX,
    ensures
        r == tensor_index_of(plane as int, row as int, frame as int, bins as int, target as int),
        r < 2 * bins * target,
{
    proof {
        lemma_place(plane as int, row as int, frame as int, bins as int, target as int);
        assert(2 * bins * target == 2 * (bins * target)) by (nonlinear_arith);
        assert(0 <= row * target && row * target + frame < bins * target) by (nonlinear_arith)
            requires
                0 <= row < bins,
                0 <= frame < target,
        ;
        assert(0 <= plane * (bins * target) <= bins * target) by (nonlinear_arith)
            requires
                0 <= plane < 2,
                0 <= bins * target,
        ;
    }
    plane * (bins * target) + row * target + frame
}

/// Value `row` of frame `frame` is a place of a plane.
proof fn lemma_source_in_range(row: int, frame: int, bins: int, frames: int)
    requires
        0 <= row < bins,
        0 <= frame < frames,
    ensures
        0 <= row + frame * bins < bins * frames,
{
    assert(0 <= row + frame * bins < bins * frames) by (nonlinear_arith)
        requires
            0 <= row < bins,
            0 <= frame < frames,
    ;
}

/// A grid of `rows` rows and `cols` columns, stored row after row, stored
/// column after column instead.
pub open spec fn transposed_of<T>(grid: Seq<T>, rows: int, cols: int) -> Seq<T> {
    Seq::new((rows * cols) as nat, |i: int| grid[(i % rows) * cols + i / rows])
}

/// Turns a grid that is stored row after row into one that is stored column
/// after column: the vocoder takes its mel frames so.
pub fn transpose_flat<T: Copy>(grid: &[T], rows: usize, cols: usize) -> (r: Vec<T>)
    requires
        grid.len() == rows * cols,
    ensures
        r@ == transposed_of(grid@, rows as int, cols as int),
        r@.len() == rows * cols,
{
    let ghost want = transposed_of(grid@, rows as int, cols as int);
    let mut out: Vec<T> = Vec::new();
    let mut col: usize = 0;
    assert(rows * cols >= 0) by (nonlinear_arith)
        requires
            rows >= 0,
            cols >= 0,
    ;
    while col < cols
        invariant
            col <= cols,
            grid.len() == rows * cols,
            want == transposed_of(grid@, rows as int, cols as int),
            want.len() == rows * cols,
            out@.len() == col * rows,
            forall|i: int| 0 <= i < out@.len() ==> out@[i] == want[i],
        decreases cols - col,
    {
        let mut row: usize = 0;
        while row < rows
            invariant
                col < cols,
                row <= rows,
                grid.len() == rows * cols,
                want == transposed_of(grid@, rows as int, cols as int),
                want.len() == rows * cols,
                out@.len() == col * rows + row,
                forall|i: int| 0 <= i < out@.len() ==> out@[i] == want[i],
            decreases rows - row,
        {
            let ghost at = out@.len() as int;
            proof {
                lemma_cell(row as int, col as int, rows as int, cols as int);
            }
            out.push(grid[row * cols + col]);
            assert(out@[at] == want[at]);
            row += 1;
        }
        proof {
            assert(col * rows + rows == (col + 1) * rows) by (nonlinear_arith);
        }
        col += 1;
    }
    proof {
        assert(cols * rows == rows * cols) by (nonlinear_arith);
    }
    assert(out@ =~= want);
    out
}

/// Cell `row`, `col` of a grid has a place in both ways of storing it, and
/// row and column are read back from the place in the second.
proof fn lemma_cell(row: int, col: int, rows: int, cols: int)
    requires
        0 <= row < rows,
        0 <= col < cols,
    ensures
        0 <= row * cols + col < rows * cols,
        0 <= col * rows + row < rows * cols,
        (col * rows + row) % rows == row,
        (col * rows + row) / rows == col,
{
    assert(0 <= row * cols + col < rows * cols) by (nonlinear_arith)
        requires
            0 <= row < rows,
            0 <= col < cols,
    ;
    assert(0 <= col * rows + row < rows * cols) by (nonlinear_arith)
        requires
            0 <= row < rows,
            0 <= col < cols,
    ;
    vstd::arithmetic::div_mod::lemma_fundamental_div_mod_converse(
        col * rows + row,
        rows,
        col,
        row,
    );
}

/// The samples of the model's waveform that answer the input: `len` samples
/// from `left_pad` on. A waveform that ends before them is rejected.
pub fn crop_prediction(predicted_len: usize, left_pad: usize, len: usize) -> (r: Result<
    (usize, usize),
    CropError,
>)
    ensures
        match r {
            Ok((from, to)) => from == left_pad && to == left_pad + len && to <= predicted_len,
            Err(_) => left_pad + len > predicted_len,
        },
{
    match left_pad.checked_add(len) {
        Some(end) => if end > predicted_len {
            Err(CropError::TooShort)
        } else {
            Ok((left_pad, end))
        },
        None => Err(CropError::TooShort),
    }
}

} // verus!
