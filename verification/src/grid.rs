use vstd::prelude::*;

verus! {

/// Position of column `x` of row `y` in a row-major buffer `w` wide.
pub open spec fn cell(x: int, y: int, w: int) -> int {
    y * w + x
}

/// Cells of a `w` by `h` grid lie inside its buffer.
pub proof fn lemma_cell_bound(x: int, y: int, w: int, h: int)
    requires
        0 <= x < w,
        0 <= y < h,
    ensures
        0 <= cell(x, y, w) < w * h,
        y * w <= cell(x, y, w) < (y + 1) * w <= w * h,
        (y + 1) * w == y * w + w,
{
    assert(y * w >= 0) by (nonlinear_arith)
        requires
            0 <= y,
            0 <= w,
    ;
    assert((y + 1) * w == y * w + w) by (nonlinear_arith);
    assert((y + 1) * w <= w * h) by (nonlinear_arith)
        requires
            y + 1 <= h,
            0 <= w,
    ;
}

/// Two cells share a buffer position only when they are the same cell.
pub proof fn lemma_cell_injective(x0: int, y0: int, x1: int, y1: int, w: int)
    requires
        0 <= x0 < w,
        0 <= x1 < w,
        cell(x0, y0, w) == cell(x1, y1, w),
    ensures
        x0 == x1,
        y0 == y1,
{
    assert(y0 == y1) by (nonlinear_arith)
        requires
            0 <= x0 < w,
            0 <= x1 < w,
            y0 * w + x0 == y1 * w + x1,
    ;
}

/// A buffer position splits back into its column and row.
pub proof fn lemma_cell_split(i: int, w: int, h: int)
    requires
        0 <= i < w * h,
        0 < w,
    ensures
        0 <= i % w < w,
        0 <= i / w < h,
        cell(i % w, i / w, w) == i,
{
    vstd::arithmetic::div_mod::lemma_fundamental_div_mod(i, w);
    vstd::arithmetic::div_mod::lemma_mod_bound(i, w);
    let q = i / w;
    let m = i % w;
    assert(w * q == q * w) by (nonlinear_arith);
    assert(0 <= q < h) by (nonlinear_arith)
        requires
            i == w * q + m,
            0 <= m < w,
            0 <= i < w * h,
    ;
}

/// Column and row of a cell come back out of its buffer position.
pub proof fn lemma_cell_div_mod(x: int, y: int, w: int)
    requires
        0 <= x < w,
    ensures
        cell(x, y, w) % w == x,
        cell(x, y, w) / w == y,
{
    vstd::arithmetic::div_mod::lemma_fundamental_div_mod_converse(cell(x, y, w), w, y, x);
}

} // verus!
