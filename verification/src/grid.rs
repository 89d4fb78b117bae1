//! Row-major positions.

use vstd::arithmetic::div_mod::lemma_fundamental_div_mod_converse;
use vstd::prelude::*;

verus! {

/// The position of row `y`, column `x` in rows of `w`.
pub open spec fn cell(w: int, y: int, x: int) -> int {
    y * w + x
}

/// A cell inside an `h` by `w` grid lies before the grid's end, and its row and
/// column are what division by the width gives.
pub proof fn lemma_cell(h: int, w: int, y: int, x: int)
    requires
        0 <= y < h,
        0 <= x < w,
    ensures
        0 <= cell(w, y, x) < h * w,
        cell(w, y, x) / w == y,
        cell(w, y, x) % w == x,
        y * w >= 0,
{
    lemma_fundamental_div_mod_converse(cell(w, y, x), w, y, x);
    assert(0 <= y * w && (y + 1) * w <= h * w && (y + 1) * w == y * w + w) by (nonlinear_arith)
        requires
            0 <= y < h,
            0 < w,
    ;
}

/// The end of one row is the start of the next.
pub proof fn lemma_next_row(w: int, y: int)
    ensures
        cell(w, y, w) == cell(w, y + 1, 0),
{
    assert(y * w + w == (y + 1) * w) by (nonlinear_arith);
}

/// The start of row `y` lies within the grid.
pub proof fn lemma_row_start(h: int, w: int, y: int)
    requires
        0 <= y <= h,
        0 <= w,
    ensures
        0 <= cell(w, y, 0) <= h * w,
{
    assert(0 <= y * w <= h * w) by (nonlinear_arith)
        requires
            0 <= y <= h,
            0 <= w,
    ;
}

/// Every position of an `h` by `w` grid has its row and column.
pub proof fn lemma_position(h: int, w: int, k: int)
    requires
        0 <= k < h * w,
        0 <= h,
        0 <= w,
    ensures
        w > 0,
        0 <= k / w < h,
        0 <= k % w < w,
        cell(w, k / w, k % w) == k,
{
    assert(w > 0) by (nonlinear_arith)
        requires
            0 <= k < h * w,
            0 <= h,
            0 <= w,
    ;
    vstd::arithmetic::div_mod::lemma_fundamental_div_mod(k, w);
    assert(k / w < h) by (nonlinear_arith)
        requires
            0 <= k < h * w,
            w > 0,
            k == w * (k / w) + k % w,
            0 <= k % w,
    ;
    assert(w * (k / w) == (k / w) * w) by (nonlinear_arith);
    assert(0 <= k / w) by (nonlinear_arith)
        requires
            0 <= k,
            w > 0,
    ;
}

} // verus!
