//! Layout of the rendered image: an RGBA buffer of four floats per pixel,
//! pixels stored row by row from the top-left one.

use vstd::prelude::*;

verus! {

/// Floats per pixel: red, green, blue, alpha.
pub const CHANNELS: usize = 4;

/// Number of floats in the buffer of a `width` by `height` image.
pub open spec fn spec_buffer_len(width: nat, height: nat) -> nat {
    width * height * 4
}

/// Index of pixel `(i, j)` (column `i`, row `j`) in row-major order.
pub open spec fn spec_pixel_index(i: nat, j: nat, width: nat) -> nat {
    j * width + i
}

/// Number of floats in the buffer of a `width` by `height` image, or `None`
/// where that number does not fit in a `usize`.
pub fn buffer_len(width: usize, height: usize) -> (r: Option<usize>)
    ensures
        spec_buffer_len(width as nat, height as nat) <= usize::MAX ==> r == Some(
            spec_buffer_len(width as nat, height as nat) as usize,
        ),
        spec_buffer_len(width as nat, height as nat) > usize::MAX ==> r is None,
{
    match width.checked_mul(height) {
        Some(pixels) => match pixels.checked_mul(CHANNELS) {
            Some(n) => Some(n),
            None => None,
        },
        None => {
            proof {
                assert(width * height * 4 >= width * height) by (nonlinear_arith);
            }
            None
        },
    }
}

/// Offset in the buffer of the first float of pixel `(i, j)`.
pub fn pixel_offset(i: usize, j: usize, width: usize, height: usize) -> (r: usize)
    requires
        i < width,
        j < height,
        spec_buffer_len(width as nat, height as nat) <= usize::MAX,
    ensures
        r == spec_pixel_index(i as nat, j as nat, width as nat) * 4,
        r + 4 <= spec_buffer_len(width as nat, height as nat),
{
    proof {
        assert(j * width + i < width * height) by (nonlinear_arith)
            requires
                i < width,
                j < height,
        ;
        assert((j * width + i) * 4 + 4 <= width * height * 4) by (nonlinear_arith)
            requires
                j * width + i < width * height,
        ;
    }
    (j * width + i) * CHANNELS
}

/// Pixel `(i, j)` at row-major index `idx` of a row `width` pixels wide.
pub fn pixel_of_index(idx: usize, width: usize) -> (r: (usize, usize))
    requires
        0 < width,
    ensures
        r.0 == idx % width,
        r.1 == idx / width,
        r.0 < width,
        spec_pixel_index(r.0 as nat, r.1 as nat, width as nat) == idx,
{
    proof {
        assert(idx == (idx / width) * width + idx % width) by (nonlinear_arith)
            requires
                0 < width,
        ;
    }
    (idx % width, idx / width)
}

/// Distinct pixels of an image own disjoint four-float slots of its buffer,
/// each inside the buffer: no two writers of distinct pixels touch the same
/// float.
pub proof fn lemma_pixel_slots_disjoint(width: nat, height: nat, i1: nat, j1: nat, i2: nat, j2: nat)
    requires
        i1 < width,
        j1 < height,
        i2 < width,
        j2 < height,
        i1 != i2 || j1 != j2,
    ensures
        spec_pixel_index(i1, j1, width) * 4 + 4 <= spec_pixel_index(i2, j2, width) * 4
            || spec_pixel_index(i2, j2, width) * 4 + 4 <= spec_pixel_index(i1, j1, width) * 4,
        spec_pixel_index(i1, j1, width) * 4 + 4 <= spec_buffer_len(width, height),
{
    lemma_pixel_index_injective(width, i1, j1, i2, j2);
    assert(j1 * width + i1 < width * height) by (nonlinear_arith)
        requires
            i1 < width,
            j1 < height,
    ;
    assert((j1 * width + i1) * 4 + 4 <= width * height * 4) by (nonlinear_arith)
        requires
            j1 * width + i1 < width * height,
    ;
}

proof fn lemma_pixel_index_injective(width: nat, i1: nat, j1: nat, i2: nat, j2: nat)
    requires
        i1 < width,
        i2 < width,
        i1 != i2 || j1 != j2,
    ensures
        spec_pixel_index(i1, j1, width) != spec_pixel_index(i2, j2, width),
{
    if j1 == j2 {
    } else if j1 < j2 {
        assert(j1 * width + width <= j2 * width) by (nonlinear_arith)
            requires
                j1 < j2,
        ;
    } else {
        assert(j2 * width + width <= j1 * width) by (nonlinear_arith)
            requires
                j2 < j1,
        ;
    }
}

/// Reading a pixel index back into a column and row and laying that pixel out
/// again gives back the index: a parallel walk over pixel indices visits
/// every pixel of the image exactly once.
pub proof fn lemma_index_round_trip(idx: nat, width: nat, height: nat)
    requires
        0 < width,
        idx < width * height,
    ensures
        idx % width < width,
        idx / width < height,
        spec_pixel_index(idx % width, idx / width, width) == idx,
{
    assert(idx == (idx / width) * width + idx % width) by (nonlinear_arith)
        requires
            0 < width,
    ;
    assert(idx / width < height) by (nonlinear_arith)
        requires
            0 < width,
            idx < width * height,
    ;
}

} // verus!
