//! Index arithmetic shared by all filters.
//!
//! A buffer of `width * height` pixels is laid out row by row. Within a
//! single-channel buffer the pixel at column `x`, row `y` is cell
//! `y * width + x`; an interleaved buffer stores the channels of that pixel
//! from four times that position on.

use vstd::arithmetic::div_mod::{
    lemma_fundamental_div_mod, lemma_fundamental_div_mod_converse, lemma_mod_pos_bound,
};
use vstd::prelude::*;

verus! {

/// Position of the pixel at column `x`, row `y` among the pixels of an image
/// of the given width.
pub open spec fn cell(width: int, x: int, y: int) -> int {
    y * width + x
}

/// Column of the pixel at position `p`.
pub open spec fn column_of(width: int, p: int) -> int {
    p % width
}

/// Row of the pixel at position `p`.
pub open spec fn row_of(width: int, p: int) -> int {
    p / width
}

/// Position of channel `c` of the pixel at column `x`, row `y` in an
/// interleaved four-channel buffer.
pub open spec fn sample_index(width: int, x: int, y: int, c: int) -> int {
    cell(width, x, y) * 4 + c
}

/// A pixel inside the image has its cell inside the buffer.
pub proof fn lemma_cell_in_bounds(width: int, height: int, x: int, y: int)
    requires
        0 <= x < width,
        0 <= y < height,
    ensures
        0 <= cell(width, x, y) < width * height,
        y * width + width <= width * height,
        0 <= y * width,
{
    assert(y * width >= 0) by (nonlinear_arith)
        requires
            y >= 0,
            width >= 0,
    ;
    assert(y * width + width <= width * height) by (nonlinear_arith)
        requires
            y + 1 <= height,
            width >= 0,
    ;
}

/// Column and row are recovered from a cell.
pub proof fn lemma_cell_coordinates(width: int, x: int, y: int)
    requires
        0 <= x < width,
    ensures
        column_of(width, cell(width, x, y)) == x,
        row_of(width, cell(width, x, y)) == y,
{
    lemma_fundamental_div_mod_converse(cell(width, x, y), width, y, x);
}

/// Every position inside the buffer is the cell of exactly the pixel at its
/// column and row, and that pixel is inside the image.
pub proof fn lemma_position_coordinates(width: int, height: int, p: int)
    requires
        0 <= p < width * height,
        0 <= height,
    ensures
        0 <= column_of(width, p) < width,
        0 <= row_of(width, p) < height,
        cell(width, column_of(width, p), row_of(width, p)) == p,
{
    assert(width > 0) by (nonlinear_arith)
        requires
            0 < width * height,
            0 <= height,
    ;
    lemma_fundamental_div_mod(p, width);
    lemma_mod_pos_bound(p, width);
    let q = p / width;
    let r = p % width;
    assert(width * q == q * width) by (nonlinear_arith);
    assert(q >= 0) by (nonlinear_arith)
        requires
            q * width + r == p,
            p >= 0,
            0 <= r < width,
    ;
    assert(q < height) by (nonlinear_arith)
        requires
            q * width + r == p,
            p < width * height,
            0 <= r < width,
            0 <= height,
    ;
}

} // verus!
