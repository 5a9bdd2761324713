//! Pooling: a picture cut into a coarser grid of blocks, and the least value of each block.

use vstd::prelude::*;

use crate::blur::RowBlur;
use crate::grid;
use crate::raster::Raster;

verus! {

/// Which of `k` blocks position `i` of `n` falls in.
pub open spec fn block_of(i: int, n: int, k: int) -> int {
    let b = i * k / n;
    if b > k - 1 {
        k - 1
    } else {
        b
    }
}

/// Position `(x, y)` of a `w` by `h` grid falls in block `(bx, by)` of a `cols` by `rows` one.
pub open spec fn in_block(
    x: int,
    y: int,
    w: int,
    h: int,
    cols: int,
    rows: int,
    bx: int,
    by: int,
) -> bool {
    0 <= x < w && 0 <= y < h && block_of(x, w, cols) == bx && block_of(y, h, rows) == by
}

/// `v` is the least value of a block over the first `done` rows, `top` where that is empty.
pub open spec fn is_block_min(
    val: spec_fn(int, int) -> int,
    w: int,
    h: int,
    done: int,
    cols: int,
    rows: int,
    top: int,
    bx: int,
    by: int,
    v: int,
) -> bool {
    &&& v <= top
    &&& forall|x: int, y: int|
        y < done && #[trigger] in_block(x, y, w, h, cols, rows, bx, by) ==> v <= val(x, y)
    &&& v == top || exists|x: int, y: int|
        y < done && #[trigger] in_block(x, y, w, h, cols, rows, bx, by) && v == val(x, y)
}

/// `out` holds the least value of every block over the first `done` rows.
pub open spec fn is_pooled(
    val: spec_fn(int, int) -> int,
    w: int,
    h: int,
    done: int,
    cols: int,
    rows: int,
    top: int,
    out: Seq<u32>,
) -> bool {
    &&& out.len() == cols * rows
    &&& forall|bx: int, by: int|
        0 <= bx < cols && 0 <= by < rows ==> is_block_min(
            val,
            w,
            h,
            done,
            cols,
            rows,
            top,
            bx,
            by,
            out[#[trigger] grid::cell(bx, by, cols)] as int,
        )
}

/// The block that a position falls in.
pub fn block_index(i: usize, n: usize, k: usize) -> (b: usize)
    requires
        i < n,
        k > 0,
        n * k <= u64::MAX,
    ensures
        b == block_of(i as int, n as int, k as int),
        b < k,
{
    assert(0 <= i * k <= n * k) by (nonlinear_arith)
        requires
            i < n,
    ;
    let b: u64 = i as u64 * k as u64 / n as u64;
    assert(0 <= i * k / (n as int)) by (nonlinear_arith)
        requires
            n > 0,
            i >= 0,
            k > 0,
    ;
    if b > k as u64 - 1 {
        k - 1
    } else {
        b as usize
    }
}

/// Takes row `y` into the pooled values.
fn pool_row(
    val: Ghost<spec_fn(int, int) -> int>,
    row: &Vec<u32>,
    y: usize,
    h: usize,
    cols: usize,
    rows: usize,
    top: Ghost<int>,
    out: &mut Vec<u32>,
)
    requires
        y < h,
        cols > 0,
        rows > 0,
        row@.len() * cols <= u64::MAX,
        h * rows <= u64::MAX,
        forall|x: int| 0 <= x < row@.len() ==> #[trigger] row@[x] == (val@)(x, y as int),
        is_pooled(
            val@,
            row@.len() as int,
            h as int,
            y as int,
            cols as int,
            rows as int,
            top@,
            old(out)@,
        ),
    ensures
        is_pooled(
            val@,
            row@.len() as int,
            h as int,
            y + 1,
            cols as int,
            rows as int,
            top@,
            final(out)@,
        ),
{
    let w: usize = row.len();
    let ty: usize = block_index(y, h, rows);
    let n: usize = out.len();
    let ghost out0 = out@;
    let ghost ci = cols as int;
    let ghost ri = rows as int;
    let ghost wi = w as int;
    let ghost hi = h as int;
    let ghost f = val@;
    proof {
        grid::lemma_cell_bound(0, ty as int, ci, ri);
    }
    let base: usize = ty * cols;
    let mut x: usize = 0;
    while x < w
        invariant
            x <= w,
            w == row@.len(),
            y < h,
            cols > 0,
            rows > 0,
            w * cols <= u64::MAX,
            ci == cols,
            ri == rows,
            wi == w,
            hi == h,
            ty < rows,
            ty == block_of(y as int, hi, ri),
            base == ty * cols,
            n == cols * rows,
            f == val@,
            out@.len() == n,
            out0.len() == n,
            forall|x: int| 0 <= x < row@.len() ==> #[trigger] row@[x] == f(x, y as int),
            is_pooled(f, wi, hi, y as int, ci, ri, top@, out0),
            forall|bx: int, by: int|
                0 <= bx < ci && 0 <= by < ri ==> part_min(
                    f,
                    wi,
                    hi,
                    y as int,
                    x as int,
                    ci,
                    ri,
                    bx,
                    by,
                    out0[grid::cell(bx, by, ci)] as int,
                    out@[#[trigger] grid::cell(bx, by, ci)] as int,
                ),
        decreases w - x,
    {
        let tx: usize = block_index(x, w, cols);
        proof {
            grid::lemma_cell_bound(tx as int, ty as int, ci, ri);
        }
        let ghost was = out@;
        let i: usize = base + tx;
        let ghost low = row@[x as int] < was[i as int];
        if row[x] < out[i] {
            out.set(i, row[x]);
        }
        proof {
            assert forall|bx: int, by: int| 0 <= bx < ci && 0 <= by < ri implies part_min(
                f,
                wi,
                hi,
                y as int,
                x + 1,
                ci,
                ri,
                bx,
                by,
                out0[grid::cell(bx, by, ci)] as int,
                out@[#[trigger] grid::cell(bx, by, ci)] as int,
            ) by {
                let j = grid::cell(bx, by, ci);
                grid::lemma_cell_bound(bx, by, ci, ri);
                assert(part_min(f, wi, hi, y as int, x as int, ci, ri, bx, by, out0[j] as int, was[j] as int));
                if j == i {
                    grid::lemma_cell_injective(bx, by, tx as int, ty as int, ci);
                    assert(in_block(x as int, y as int, wi, hi, ci, ri, bx, by));
                    if low {
                        assert(out@[j] == f(x as int, y as int));
                    } else {
                        assert(out@[j] == was[j]);
                    }
                } else {
                    assert(out@[j] == was[j]);
                    assert(!in_block(x as int, y as int, wi, hi, ci, ri, bx, by));
                }
            }
        }
        x += 1;
    }
    proof {
        assert forall|bx: int, by: int| 0 <= bx < ci && 0 <= by < ri implies is_block_min(
            f,
            wi,
            hi,
            y + 1,
            ci,
            ri,
            top@,
            bx,
            by,
            out@[#[trigger] grid::cell(bx, by, ci)] as int,
        ) by {
            let j = grid::cell(bx, by, ci);
            let v = out@[j] as int;
            let u = out0[j] as int;
            assert(is_block_min(f, wi, hi, y as int, ci, ri, top@, bx, by, u));
            assert(part_min(f, wi, hi, y as int, w as int, ci, ri, bx, by, u, v));
            assert forall|xx: int, yy: int|
                yy < y + 1 && #[trigger] in_block(xx, yy, wi, hi, ci, ri, bx, by) implies v <= f(
                xx,
                yy,
            ) by {
                if yy < y {
                    assert(u <= f(xx, yy));
                }
            }
            if v != top@ {
                if v == u {
                    let (xx, yy) = choose|xx: int, yy: int|
                        yy < y && #[trigger] in_block(xx, yy, wi, hi, ci, ri, bx, by) && u == f(
                            xx,
                            yy,
                        );
                    assert(yy < y + 1 && in_block(xx, yy, wi, hi, ci, ri, bx, by) && v == f(xx, yy));
                } else {
                    let xx = choose|xx: int|
                        xx < w && #[trigger] in_block(xx, y as int, wi, hi, ci, ri, bx, by) && v == f(
                            xx,
                            y as int,
                        );
                    assert(in_block(xx, y as int, wi, hi, ci, ri, bx, by) && v == f(xx, y as int));
                }
            }
        }
    }
}

/// `v` is the lesser of `u` and the least of the first `upto` columns of row `y` that fall in the
/// block.
spec fn part_min(
    val: spec_fn(int, int) -> int,
    w: int,
    h: int,
    y: int,
    upto: int,
    cols: int,
    rows: int,
    bx: int,
    by: int,
    u: int,
    v: int,
) -> bool {
    &&& v <= u
    &&& forall|x: int|
        x < upto && #[trigger] in_block(x, y, w, h, cols, rows, bx, by) ==> v <= val(x, y)
    &&& v == u || exists|x: int|
        x < upto && #[trigger] in_block(x, y, w, h, cols, rows, bx, by) && v == val(x, y)
}

/// A grid of blocks before any row was taken in.
fn pool_start(cols: usize, rows: usize, top: u32, val: Ghost<spec_fn(int, int) -> int>, w: Ghost<int>, h: Ghost<int>) -> (out: Vec<u32>)
    requires
        cols * rows <= usize::MAX,
    ensures
        is_pooled(val@, w@, h@, 0, cols as int, rows as int, top as int, out@),
{
    let n: usize = cols * rows;
    let out: Vec<u32> = vec![top; n];
    proof {
        assert forall|bx: int, by: int|
            0 <= bx < cols && 0 <= by < rows implies is_block_min(
            val@,
            w@,
            h@,
            0,
            cols as int,
            rows as int,
            top as int,
            bx,
            by,
            out@[#[trigger] grid::cell(bx, by, cols as int)] as int,
        ) by {
            grid::lemma_cell_bound(bx, by, cols as int, rows as int);
        }
    }
    out
}

/// The blurred value of channel `c`, pixel by pixel.
pub open spec fn blurred(p: crate::raster::Picture, r: int, c: int) -> spec_fn(int, int) -> int {
    |x: int, y: int| crate::blur::box_mean(p, r, x, y, c)
}

/// The least blurred value of each channel in each of `ww` by `wh` blocks, channel by channel; 255
/// in a block that no pixel falls in. The blur keeps single noisy pixels from setting a block's
/// minimum.
pub fn block_minima(img: &Raster, ww: usize, wh: usize, r: usize) -> (out: Vec<Vec<u32>>)
    requires
        img@.wf(),
        img.w > 0,
        img.h > 0,
        ww > 0,
        wh > 0,
        img.w * ww <= u64::MAX,
        img.h * wh <= u64::MAX,
        ww * wh <= usize::MAX,
        crate::blur::fits(r as int),
    ensures
        out@.len() == 3,
        forall|c: int|
            0 <= c < 3 ==> is_pooled(
                blurred(img@, r as int, c),
                img@.w,
                img@.h,
                img@.h,
                ww as int,
                wh as int,
                255,
                (#[trigger] out@[c])@,
            ),
{
    let w: usize = img.w;
    let h: usize = img.h;
    let ghost f0 = blurred(img@, r as int, 0);
    let ghost f1 = blurred(img@, r as int, 1);
    let ghost f2 = blurred(img@, r as int, 2);
    let mut o0 = pool_start(ww, wh, 255, Ghost(f0), Ghost(w as int), Ghost(h as int));
    let mut o1 = pool_start(ww, wh, 255, Ghost(f1), Ghost(w as int), Ghost(h as int));
    let mut o2 = pool_start(ww, wh, 255, Ghost(f2), Ghost(w as int), Ghost(h as int));
    let mut blur = RowBlur::new(img, r);
    let mut y: usize = 0;
    while y < h
        invariant
            img@.wf(),
            w == img.w,
            h == img.h,
            w > 0,
            ww > 0,
            wh > 0,
            w * ww <= u64::MAX,
            h * wh <= u64::MAX,
            y <= h,
            blur.wf(),
            blur.image() == img@,
            blur.radius() == r,
            blur.upcoming() == y,
            f0 == blurred(img@, r as int, 0),
            f1 == blurred(img@, r as int, 1),
            f2 == blurred(img@, r as int, 2),
            is_pooled(f0, w as int, h as int, y as int, ww as int, wh as int, 255, o0@),
            is_pooled(f1, w as int, h as int, y as int, ww as int, wh as int, 255, o1@),
            is_pooled(f2, w as int, h as int, y as int, ww as int, wh as int, 255, o2@),
        decreases h - y,
    {
        let row = blur.row();
        let r0 = channel(&row, w, 0);
        let r1 = channel(&row, w, 1);
        let r2 = channel(&row, w, 2);
        proof {
            assert forall|x: int| 0 <= x < w implies #[trigger] r0@[x] == f0(x, y as int) by {
                assert(row@[x * 3 + 0] == crate::blur::box_mean(img@, r as int, x, y as int, 0));
            }
            assert forall|x: int| 0 <= x < w implies #[trigger] r1@[x] == f1(x, y as int) by {
                assert(row@[x * 3 + 1] == crate::blur::box_mean(img@, r as int, x, y as int, 1));
            }
            assert forall|x: int| 0 <= x < w implies #[trigger] r2@[x] == f2(x, y as int) by {
                assert(row@[x * 3 + 2] == crate::blur::box_mean(img@, r as int, x, y as int, 2));
            }
        }
        pool_row(Ghost(f0), &r0, y, h, ww, wh, Ghost(255), &mut o0);
        pool_row(Ghost(f1), &r1, y, h, ww, wh, Ghost(255), &mut o1);
        pool_row(Ghost(f2), &r2, y, h, ww, wh, Ghost(255), &mut o2);
        y += 1;
    }
    let mut out: Vec<Vec<u32>> = Vec::new();
    out.push(o0);
    out.push(o1);
    out.push(o2);
    out
}

/// One channel of a row of bytes.
fn channel(row: &Vec<u8>, w: usize, c: usize) -> (out: Vec<u32>)
    requires
        row@.len() == w * 3,
        c < 3,
    ensures
        out@.len() == w,
        forall|x: int| 0 <= x < w ==> #[trigger] out@[x] == row@[x * 3 + c],
{
    let n: usize = row.len();
    let mut out: Vec<u32> = Vec::new();
    let mut x: usize = 0;
    while x < w
        invariant
            x <= w,
            c < 3,
            n == w * 3,
            n == row@.len(),
            out@.len() == x,
            forall|k: int| 0 <= k < x ==> #[trigger] out@[k] == row@[k * 3 + c],
        decreases w - x,
    {
        out.push(row[x * 3 + c] as u32);
        x += 1;
    }
    out
}

/// Columns of a brightness thumbnail.
pub const THUMB_COLS: usize = 64;

/// Brightness of white, in the weights of [`weighed`].
pub const THUMB_WHITE: u32 = 65280;

/// Brightness of a pixel: its channels weighed 77, 150 and 29.
pub open spec fn weighed(p: crate::raster::Picture) -> spec_fn(int, int) -> int {
    |x: int, y: int| p.at(x, y, 0) * 77 + p.at(x, y, 1) * 150 + p.at(x, y, 2) * 29
}

/// Rows of a picture's thumbnail: as many as keep its shape, at least 1 and at most the columns.
pub open spec fn thumb_rows(p: crate::raster::Picture) -> int {
    let n = 64 * p.h / p.w;
    if n < 1 {
        1
    } else if n > 64 {
        64
    } else {
        n
    }
}

/// A thumbnail of a picture's brightness: the least brightness of each block, so that thin bright
/// streaks leave no trace in it. Empty for an empty picture.
pub fn luma_thumb(img: &Raster) -> (out: Vec<u32>)
    requires
        img@.wf(),
        img.w * 64 <= usize::MAX,
        img.h * 64 <= usize::MAX,
    ensures
        img.w == 0 || img.h == 0 ==> out@.len() == 0,
        img.w > 0 && img.h > 0 ==> is_pooled(
            weighed(img@),
            img@.w,
            img@.h,
            img@.h,
            64,
            thumb_rows(img@),
            65280,
            out@,
        ),
{
    let w: usize = img.w;
    let h: usize = img.h;
    if w == 0 || h == 0 {
        return Vec::new();
    }
    let n: usize = 64 * h / w;
    let rows: usize = if n < 1 {
        1
    } else if n > 64 {
        64
    } else {
        n
    };
    let ghost f = weighed(img@);
    assert(h * rows <= u64::MAX) by (nonlinear_arith)
        requires
            h * 64 <= usize::MAX,
            1 <= rows <= 64,
    ;
    let mut out = pool_start(
        THUMB_COLS,
        rows,
        THUMB_WHITE,
        Ghost(f),
        Ghost(w as int),
        Ghost(h as int),
    );
    let mut y: usize = 0;
    while y < h
        invariant
            img@.wf(),
            w == img.w,
            h == img.h,
            w > 0,
            1 <= rows <= 64,
            w * 64 <= usize::MAX,
            h * rows <= u64::MAX,
            y <= h,
            f == weighed(img@),
            is_pooled(f, w as int, h as int, y as int, 64, rows as int, 65280, out@),
        decreases h - y,
    {
        let mut row: Vec<u32> = Vec::new();
        let mut x: usize = 0;
        while x < w
            invariant
                img@.wf(),
                w == img.w,
                h == img.h,
                x <= w,
                y < h,
                f == weighed(img@),
                row@.len() == x,
                forall|k: int| 0 <= k < x ==> #[trigger] row@[k] == f(k, y as int),
            decreases w - x,
        {
            let l: u32 = img.get(x, y, 0) as u32 * 77 + img.get(x, y, 1) as u32 * 150 + img.get(
                x,
                y,
                2,
            ) as u32 * 29;
            row.push(l);
            x += 1;
        }
        pool_row(Ghost(f), &row, y, h, THUMB_COLS, rows, Ghost(65280), &mut out);
        y += 1;
    }
    out
}

/// The least blurred values of channel `c` in each of `ww` by `wh` blocks.
pub open spec fn lows(p: crate::raster::Picture, r: int, c: int, ww: int, wh: int) -> Seq<u32> {
    choose|out: Seq<u32>| is_pooled(blurred(p, r, c), p.w, p.h, p.h, ww, wh, 255, out)
}

/// There is but one list of least values, and none of them passes 255.
pub proof fn law_lows_unique(
    p: crate::raster::Picture,
    r: int,
    c: int,
    ww: int,
    wh: int,
    out: Seq<u32>,
)
    requires
        0 < ww,
        0 < wh,
        is_pooled(blurred(p, r, c), p.w, p.h, p.h, ww, wh, 255, out),
    ensures
        out == lows(p, r, c, ww, wh),
        out.len() == ww * wh,
        forall|i: int| 0 <= i < out.len() ==> #[trigger] out[i] <= 255,
{
    let q = lows(p, r, c, ww, wh);
    let val = blurred(p, r, c);
    assert(is_pooled(val, p.w, p.h, p.h, ww, wh, 255, q));
    assert forall|i: int| 0 <= i < out.len() implies #[trigger] out[i] <= 255 && out[i] == q[i] by {
        grid::lemma_cell_split(i, ww, wh);
        let (bx, by) = (i % ww, i / ww);
        assert(grid::cell(bx, by, ww) == i);
        assert(is_block_min(val, p.w, p.h, p.h, ww, wh, 255, bx, by, out[i] as int));
        assert(is_block_min(val, p.w, p.h, p.h, ww, wh, 255, bx, by, q[i] as int));
    }
    assert(out =~= q);
}

} // verus!
