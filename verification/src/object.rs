//! Picking an object out of a photo: where to look, at which size, and what shape comes out.

use vstd::prelude::*;

use crate::blobs::{fill_holes, keep_cored};
use crate::grid;
use crate::morph::{max_filter, min_filter, Plane};
use crate::scale::share_of;
use crate::single::{ratio, Single};
use crate::smoke::Region;

verus! {

/// Long edge of the grid that an object is picked out on.
pub const OBJECT_WORK_EDGE: u32 = 384;

/// Shortest side of that grid.
pub const OBJECT_LEAST_SIDE: u64 = 8;

/// Two cells are at most `r` columns and `r` rows apart.
pub open spec fn close_by(w: int, i: int, j: int, r: int) -> bool {
    &&& i % w - r <= j % w <= i % w + r
    &&& i / w - r <= j / w <= i / w + r
}

/// A cell of the mask is close by.
pub open spec fn touches(on: Seq<bool>, w: int, r: int, i: int) -> bool {
    exists|j: int| 0 <= j < on.len() && #[trigger] on[j] && close_by(w, i, j, r)
}

/// All cells close by belong to the mask.
pub open spec fn surrounded(on: Seq<bool>, w: int, r: int, i: int) -> bool {
    forall|j: int| 0 <= j < on.len() && close_by(w, i, j, r) ==> #[trigger] on[j]
}

/// The mask, grown by `r` cells each way.
pub open spec fn grown(on: Seq<bool>, w: int, r: int) -> Seq<bool> {
    Seq::new(on.len(), |i: int| touches(on, w, r, i))
}

/// The mask, shrunk by `r` cells each way.
pub open spec fn shrunk(on: Seq<bool>, w: int, r: int) -> Seq<bool> {
    Seq::new(on.len(), |i: int| surrounded(on, w, r, i))
}

spec fn level(b: bool) -> i64 {
    if b {
        1
    } else {
        0
    }
}

fn to_plane(on: &Vec<bool>, w: usize, h: usize) -> (p: Plane)
    requires
        crate::blobs::is_mask(on@, w as int, h as int),
    ensures
        p@.wf(),
        p@.w == w,
        p@.h == h,
        forall|i: int| 0 <= i < on@.len() ==> #[trigger] p@.d[i] == level(on@[i]),
{
    let n: usize = on.len();
    let mut d: Vec<i64> = Vec::new();
    let mut i: usize = 0;
    while i < n
        invariant
            i <= n == on@.len(),
            d@.len() == i,
            forall|k: int| 0 <= k < i ==> #[trigger] d@[k] == level(on@[k]),
        decreases n - i,
    {
        d.push(
            if on[i] {
                1
            } else {
                0
            },
        );
        i += 1;
    }
    Plane { w, h, d }
}

proof fn lemma_grown_cell(
    on: Seq<bool>,
    p: crate::morph::Grid,
    q: crate::morph::Grid,
    r: int,
    i: int,
)
    requires
        p.wf(),
        p.d.len() == on.len(),
        forall|k: int| 0 <= k < on.len() ==> #[trigger] p.d[k] == level(on[k]),
        crate::morph::is_filtered(p, r, true, q),
        0 <= i < on.len(),
    ensures
        q.d[i] > 0 <==> touches(on, p.w, r, i),
{
    let w = p.w;
    lemma_sides(w, p.h, i);
    grid::lemma_cell_split(i, w, p.h);
    let x = i % w;
    let y = i / w;
    assert(p.has(x, y));
    let v = q.at(x, y);
    assert(crate::morph::is_best_near(p, x, y, r, true, v));
    if v > 0 {
        let (xx, yy) = choose|xx: int, yy: int|
            crate::morph::near(p, x, y, r, xx, yy) && #[trigger] p.at(xx, yy) == v;
        grid::lemma_cell_bound(xx, yy, w, p.h);
        grid::lemma_cell_div_mod(xx, yy, w);
        let j = grid::cell(xx, yy, w);
        assert(on[j]);
        assert(close_by(w, i, j, r));
    }
    if touches(on, w, r, i) {
        let j = choose|j: int| 0 <= j < on.len() && #[trigger] on[j] && close_by(w, i, j, r);
        grid::lemma_cell_split(j, w, p.h);
        assert(crate::morph::near(p, x, y, r, j % w, j / w));
        assert(p.at(j % w, j / w) == 1);
    }
}

proof fn lemma_sides(w: int, h: int, i: int)
    requires
        0 <= w,
        0 <= h,
        0 <= i < w * h,
    ensures
        w > 0,
        h > 0,
{
    assert(w > 0 && h > 0) by (nonlinear_arith)
        requires
            0 <= w,
            0 <= h,
            w * h > 0,
    ;
}

proof fn lemma_shrunk_cell(
    on: Seq<bool>,
    p: crate::morph::Grid,
    q: crate::morph::Grid,
    r: int,
    i: int,
)
    requires
        p.wf(),
        p.d.len() == on.len(),
        forall|k: int| 0 <= k < on.len() ==> #[trigger] p.d[k] == level(on[k]),
        crate::morph::is_filtered(p, r, false, q),
        0 <= i < on.len(),
    ensures
        q.d[i] > 0 <==> surrounded(on, p.w, r, i),
{
    let w = p.w;
    lemma_sides(w, p.h, i);
    grid::lemma_cell_split(i, w, p.h);
    let x = i % w;
    let y = i / w;
    assert(p.has(x, y));
    let v = q.at(x, y);
    assert(crate::morph::is_best_near(p, x, y, r, false, v));
    if v > 0 {
        assert forall|j: int|
            0 <= j < on.len() && close_by(w, i, j, r) implies #[trigger] on[j] by {
            grid::lemma_cell_split(j, w, p.h);
            assert(crate::morph::near(p, x, y, r, j % w, j / w));
            assert(p.at(j % w, j / w) == level(on[j]));
        }
    }
    if surrounded(on, w, r, i) {
        let (xx, yy) = choose|xx: int, yy: int|
            crate::morph::near(p, x, y, r, xx, yy) && #[trigger] p.at(xx, yy) == v;
        grid::lemma_cell_bound(xx, yy, w, p.h);
        grid::lemma_cell_div_mod(xx, yy, w);
        let j = grid::cell(xx, yy, w);
        assert(close_by(w, i, j, r));
        assert(on[j]);
    }
}

/// The mask, grown by `r` cells each way.
pub fn grow(on: &Vec<bool>, w: usize, h: usize, r: usize) -> (out: Vec<bool>)
    requires
        crate::blobs::is_mask(on@, w as int, h as int),
        w + 4 * r + 1 <= usize::MAX,
        h + 4 * r + 1 <= usize::MAX,
    ensures
        out@ == grown(on@, w as int, r as int),
{
    let n: usize = on.len();
    let p = to_plane(on, w, h);
    let q = max_filter(&p, r);
    let mut out: Vec<bool> = Vec::new();
    let mut i: usize = 0;
    while i < n
        invariant
            i <= n == on@.len(),
            q@.d.len() == n,
            p@.w == w,
            p@.wf(),
            p@.d.len() == n,
            forall|k: int| 0 <= k < on@.len() ==> #[trigger] p@.d[k] == level(on@[k]),
            crate::morph::is_filtered(p@, r as int, true, q@),
            out@.len() == i,
            forall|k: int| 0 <= k < i ==> #[trigger] out@[k] == touches(on@, w as int, r as int, k),
        decreases n - i,
    {
        proof {
            lemma_grown_cell(on@, p@, q@, r as int, i as int);
        }
        out.push(q.d[i] > 0);
        i += 1;
    }
    assert(out@ =~= grown(on@, w as int, r as int));
    out
}

/// The mask, shrunk by `r` cells each way.
pub fn shrink(on: &Vec<bool>, w: usize, h: usize, r: usize) -> (out: Vec<bool>)
    requires
        crate::blobs::is_mask(on@, w as int, h as int),
        w + 4 * r + 1 <= usize::MAX,
        h + 4 * r + 1 <= usize::MAX,
    ensures
        out@ == shrunk(on@, w as int, r as int),
{
    let n: usize = on.len();
    let p = to_plane(on, w, h);
    let q = min_filter(&p, r);
    let mut out: Vec<bool> = Vec::new();
    let mut i: usize = 0;
    while i < n
        invariant
            i <= n == on@.len(),
            q@.d.len() == n,
            p@.w == w,
            p@.wf(),
            p@.d.len() == n,
            forall|k: int| 0 <= k < on@.len() ==> #[trigger] p@.d[k] == level(on@[k]),
            crate::morph::is_filtered(p@, r as int, false, q@),
            out@.len() == i,
            forall|k: int|
                0 <= k < i ==> #[trigger] out@[k] == surrounded(on@, w as int, r as int, k),
        decreases n - i,
    {
        proof {
            lemma_shrunk_cell(on@, p@, q@, r as int, i as int);
        }
        out.push(q.d[i] > 0);
        i += 1;
    }
    assert(out@ =~= shrunk(on@, w as int, r as int));
    out
}

/// Growing and then shrinking a mask loses none of its cells.
pub proof fn law_closing_keeps(on: Seq<bool>, w: int, r: int, i: int)
    requires
        w > 0,
        r >= 0,
        0 <= i < on.len(),
        on[i],
    ensures
        shrunk(grown(on, w, r), w, r)[i],
{
    let g = grown(on, w, r);
    assert forall|j: int| 0 <= j < g.len() && close_by(w, i, j, r) implies #[trigger] g[j] by {
        assert(close_by(w, j, i, r));
        assert(on[i]);
        assert(touches(on, w, r, j));
    }
}

/// How many cells of a mask are set.
pub open spec fn count(on: Seq<bool>) -> int
    decreases on.len(),
{
    if on.len() == 0 {
        0
    } else {
        count(on.drop_last()) + if on.last() {
            1int
        } else {
            0
        }
    }
}

/// How many cells of a mask are set.
pub fn count_set(on: &Vec<bool>) -> (n: usize)
    ensures
        n == count(on@),
        n <= on@.len(),
{
    let mut n: usize = 0;
    let mut i: usize = 0;
    assert(on@.subrange(0, 0) =~= Seq::<bool>::empty());
    while i < on.len()
        invariant
            i <= on@.len(),
            n == count(on@.subrange(0, i as int)),
            n <= i,
        decreases on@.len() - i,
    {
        assert(on@.subrange(0, i + 1).drop_last() =~= on@.subrange(0, i as int));
        if on[i] {
            n += 1;
        }
        i += 1;
    }
    assert(on@.subrange(0, on@.len() as int) =~= on@);
    n
}

/// Blobs below this many cells are specks: three in a thousand of the cells asked about, but at
/// least four.
pub open spec fn speck_size(asked: int) -> int {
    crate::scale::at_least(crate::scale::portion(asked, 3, 1000), 4)
}

/// The blobs of `fg` that hold a cell of `core` and are no specks; none where too few cells (fewer
/// than 16) are asked about or nothing is left.
pub fn solid_parts(
    inside: &Vec<bool>,
    fg: &Vec<bool>,
    core: &Vec<bool>,
    w: usize,
    h: usize,
) -> (r: Option<Vec<bool>>)
    requires
        crate::blobs::is_mask(fg@, w as int, h as int),
        inside@.len() == fg@.len(),
        core@.len() == fg@.len(),
        fg@.len() < u32::MAX,
    ensures
        r is Some <==> count(inside@) >= 16 && exists|i: int|
            0 <= i < fg@.len() && #[trigger] crate::blobs::stays(
                fg@,
                core@,
                w as int,
                speck_size(count(inside@)),
                i,
            ),
        r matches Some(keep) ==> keep@.len() == fg@.len() && forall|i: int|
            0 <= i < fg@.len() ==> #[trigger] keep@[i] == crate::blobs::stays(
                fg@,
                core@,
                w as int,
                speck_size(count(inside@)),
                i,
            ),
{
    let asked: usize = count_set(inside);
    if asked < 16 {
        return None;
    }
    let part: u64 = share_of(asked as u32, 3, 1000);
    let speck: u64 = if part < 4 {
        4
    } else {
        part
    };
    let size: usize = if speck <= u32::MAX as u64 {
        speck as usize
    } else {
        u32::MAX as usize
    };
    let keep = keep_cored(fg, core, w, h, size);
    proof {
        assert forall|k: int| 0 <= k < fg@.len() implies #[trigger] keep@[k]
            == crate::blobs::stays(fg@, core@, w as int, speck as int, k) by {
            crate::blobs::lemma_blob_bound(fg@, w as int, k);
        }
    }
    assert(speck == speck_size(count(inside@)));
    let n: usize = keep.len();
    let mut i: usize = 0;
    let mut any = false;
    while i < n
        invariant
            i <= n == keep@.len(),
            any <==> exists|k: int| 0 <= k < i && #[trigger] keep@[k],
        decreases n - i,
    {
        if keep[i] {
            any = true;
            assert(keep@[i as int]);
        }
        i += 1;
    }
    if any {
        proof {
            let k = choose|k: int| 0 <= k < n && #[trigger] keep@[k];
            assert(crate::blobs::stays(fg@, core@, w as int, speck as int, k));
        }
        Some(keep)
    } else {
        proof {
            assert forall|k: int| 0 <= k < fg@.len() implies !#[trigger] crate::blobs::stays(
                fg@,
                core@,
                w as int,
                speck as int,
                k,
            ) by {
                assert(!keep@[k]);
            }
        }
        None
    }
}

/// A part of a long edge, rounded, and at least `least`.
pub open spec fn reach(long: int, num: int, den: int, least: int) -> int {
    crate::scale::at_least(crate::scale::portion(long, num, den), least)
}

/// A part of the long edge of a `w` by `h` grid, rounded, and at least `least`.
pub fn reach_of(w: u32, h: u32, num: u64, den: u64, least: u64) -> (r: u64)
    requires
        0 < num <= den,
    ensures
        r == reach(
            crate::scale::longer(w as int, h as int),
            num as int,
            den as int,
            least as int,
        ),
        0 < num < den <= u32::MAX && 0 < w < 0x80_0000 && 0 < h < 0x80_0000 ==> r
            <= crate::scale::longer(w as int, h as int) || r == least,
{
    let long: u32 = if w < h {
        h
    } else {
        w
    };
    let r: u64 = share_of(long, num, den);
    if r < least {
        least
    } else {
        r
    }
}

/// The shape that an object's parts make: gaps of up to a fiftieth of the grid are closed, what lies
/// outside the cells asked about is left out, and holes are filled.
pub open spec fn closed_parts(keep: Seq<bool>, inside: Seq<bool>, w: int, h: int) -> Seq<bool> {
    let c = shrunk(
        grown(keep, w, reach(crate::scale::longer(w, h), 2, 100, 1)),
        w,
        reach(crate::scale::longer(w, h), 2, 100, 1),
    );
    Seq::new(keep.len(), |i: int| inside[i] && c[i])
}

/// The shape that an object's parts make (see [`closed_parts`]), with its holes filled.
pub fn whole_shape(keep: &Vec<bool>, inside: &Vec<bool>, w: u32, h: u32) -> (out: Vec<bool>)
    requires
        crate::blobs::is_mask(keep@, w as int, h as int),
        inside@.len() == keep@.len(),
        w < 0x80_0000,
        h < 0x80_0000,
    ensures
        out@.len() == keep@.len(),
        forall|i: int|
            0 <= i < keep@.len() ==> #[trigger] out@[i] == !crate::blobs::open_to_rim(
                closed_parts(keep@, inside@, w as int, h as int),
                w as int,
                h as int,
                i,
            ),
        forall|i: int| 0 <= i < keep@.len() && keep@[i] && inside@[i] ==> #[trigger] out@[i],
{
    if w == 0 || h == 0 {
        proof {
            assert(w * h == 0) by (nonlinear_arith)
                requires
                    w == 0 || h == 0,
            ;
        }
        return Vec::new();
    }
    let rc: u64 = reach_of(w, h, 2, 100, 1);
    let r: usize = rc as usize;
    let big = grow(keep, w as usize, h as usize, r);
    let tight = shrink(&big, w as usize, h as usize, r);
    let n: usize = keep.len();
    let mut shape: Vec<bool> = Vec::new();
    let mut i: usize = 0;
    while i < n
        invariant
            i <= n == inside@.len(),
            tight@.len() == n,
            shape@.len() == i,
            forall|k: int| 0 <= k < i ==> #[trigger] shape@[k] == (inside@[k] && tight@[k]),
        decreases n - i,
    {
        shape.push(inside[i] && tight[i]);
        i += 1;
    }
    let ghost want = closed_parts(keep@, inside@, w as int, h as int);
    assert(shape@ =~= want);
    let out = fill_holes(&shape, w as usize, h as usize);
    proof {
        assert forall|i: int| 0 <= i < keep@.len() && keep@[i] && inside@[i] implies #[trigger] out@[i]
            by {
            lemma_sides(w as int, h as int, i);
            law_closing_keeps(keep@, w as int, r as int, i);
            assert(shape@[i]);
        }
    }
    out
}

/// How far a box is widened on each side, as a part of the photo's side.
pub open spec fn margin(lo: Single, hi: Single) -> Single {
    crate::single::product(
        crate::single::remainder(hi, lo),
        crate::single::nearest(18, 100),
    )
}

/// First pixel of the widened box, on a side of `n` pixels.
pub open spec fn first_pixel(lo: Single, hi: Single, n: int) -> int {
    let p = crate::single::floor(
        crate::single::product(
            crate::single::remainder(lo, margin(lo, hi)),
            crate::single::nearest(n, 1),
        ),
    );
    if p > n - 1 {
        n - 1
    } else {
        p
    }
}

/// End of the widened box, on a side of `n` pixels.
pub open spec fn end_pixel(lo: Single, hi: Single, n: int) -> int {
    let t = crate::single::total(hi, margin(lo, hi));
    let p = crate::single::ceil(
        crate::single::product(
            if crate::single::below(crate::single::one(), t) {
                crate::single::one()
            } else {
                t
            },
            crate::single::nearest(n, 1),
        ),
    );
    crate::scale::within(p, first_pixel(lo, hi, n) + 1, n)
}

fn pixels(lo: Single, hi: Single, n: u32) -> (r: (u32, u32))
    requires
        n >= 1,
        lo.wf(),
        hi.wf(),
        -200 <= lo.e <= 200,
        -200 <= hi.e <= 200,
        !crate::single::below(crate::single::one(), lo),
        !crate::single::below(crate::single::one(), hi),
    ensures
        r.0 == first_pixel(lo, hi, n as int),
        r.1 == end_pixel(lo, hi, n as int),
        r.0 < r.1 <= n,
{
    let pad = ratio(18, 100);
    let t = hi.spare(lo).times(pad);
    let side = Single::of(n as u64);
    let a = lo.spare(t);
    let x: u64 = a.times(side).floor();
    let first: u32 = if x > (n - 1) as u64 {
        n - 1
    } else {
        x as u32
    };
    let wide = hi.plus(t);
    let b = if Single::unit().less(wide) {
        Single::unit()
    } else {
        wide
    };
    let y: u64 = b.times(side).ceil();
    let end: u32 = if y < first as u64 + 1 {
        first + 1
    } else if y > n as u64 {
        n
    } else {
        y as u32
    };
    (first, end)
}

/// The part of a photo that an object is looked for in: pixels `x0..x1` of rows `y0..y1`.
#[derive(Clone, Copy, PartialEq, Eq, Structural, Debug)]
pub struct Window {
    pub x0: u32,
    pub y0: u32,
    pub x1: u32,
    pub y1: u32,
}

/// The part of an `iw` by `ih` photo that an object in a box is looked for in: the box, widened by
/// 18% of its sides. There is none for a box or a photo that is too small.
pub fn search_window(sel: Region, iw: u32, ih: u32) -> (r: Option<(Region, Window)>)
    requires
        sel.wf(),
    ensures
        ({
            let b = sel.upright();
            let x0 = first_pixel(b.x0.size, b.x1.size, iw as int);
            let y0 = first_pixel(b.y0.size, b.y1.size, ih as int);
            let x1 = end_pixel(b.x0.size, b.x1.size, iw as int);
            let y1 = end_pixel(b.y0.size, b.y1.size, ih as int);
            match r {
                Some((box_, v)) => {
                    &&& b.usable() && iw >= 8 && ih >= 8
                    &&& box_ == b
                    &&& v.x0 == x0 && v.y0 == y0 && v.x1 == x1 && v.y1 == y1
                    &&& x1 - x0 >= 8 && y1 - y0 >= 8
                },
                None => !b.usable() || iw < 8 || ih < 8 || x1 - x0 < 8 || y1 - y0 < 8,
            }
        }),
        r matches Some((_, v)) ==> v.x0 < v.x1 <= iw && v.y0 < v.y1 <= ih,
        r matches Some((box_, _)) ==> box_.wf(),
{
    let b = sel.normalized();
    if !b.is_usable() || iw < 8 || ih < 8 {
        return None;
    }
    let (x0, x1) = pixels(b.x0.size, b.x1.size, iw);
    let (y0, y1) = pixels(b.y0.size, b.y1.size, ih);
    if x1 - x0 < 8 || y1 - y0 < 8 {
        return None;
    }
    Some((b, Window { x0, y0, x1, y1 }))
}

/// Sides of the grid that a part of `cw` by `ch` pixels is worked on.
pub fn work_grid(cw: u32, ch: u32) -> (r: (u64, u64))
    ensures
        r.0 == crate::scale::at_least(
            crate::scale::scaled(
                cw as int,
                crate::scale::shrink_factor(
                    crate::scale::longer(cw as int, ch as int),
                    OBJECT_WORK_EDGE as int,
                ),
            ),
            8,
        ),
        r.1 == crate::scale::at_least(
            crate::scale::scaled(
                ch as int,
                crate::scale::shrink_factor(
                    crate::scale::longer(cw as int, ch as int),
                    OBJECT_WORK_EDGE as int,
                ),
            ),
            8,
        ),
        r.0 >= 8,
        r.1 >= 8,
        r.0 <= 0x8000,
        r.1 <= 0x8000,
        8 <= cw && 8 <= ch ==> r.0 <= cw && r.1 <= ch,
{
    let size = crate::scale::work_size(cw, ch, OBJECT_WORK_EDGE);
    (
        if size.0 < OBJECT_LEAST_SIDE {
            OBJECT_LEAST_SIDE
        } else {
            size.0
        },
        if size.1 < OBJECT_LEAST_SIDE {
            OBJECT_LEAST_SIDE
        } else {
            size.1
        },
    )
}

/// Where the middle of cell `k` of `n` lies, as a part of a photo's side of `side` pixels, when the
/// cells share pixels `from..to`.
pub open spec fn middle(k: int, n: int, from: int, to: int, side: int) -> Single {
    let a = crate::single::quotient(crate::single::nearest(from, 1), crate::single::nearest(side, 1));
    let b = crate::single::quotient(crate::single::nearest(to, 1), crate::single::nearest(side, 1));
    crate::single::total(
        a,
        crate::single::product(
            crate::single::quotient(
                crate::single::total(crate::single::nearest(k, 1), half()),
                crate::single::nearest(n, 1),
            ),
            crate::single::remainder(b, a),
        ),
    )
}

/// One half.
pub open spec fn half() -> Single {
    Single { m: crate::single::LOW, e: -24i32 }
}

/// The middle of cell `k` lies from `lo` to `hi`.
pub open spec fn falls_between(
    k: int,
    n: int,
    from: int,
    to: int,
    side: int,
    lo: Single,
    hi: Single,
) -> bool {
    !crate::single::below(middle(k, n, from, to, side), lo) && !crate::single::below(
        hi,
        middle(k, n, from, to, side),
    )
}

/// The cells of a row whose middles lie from `lo` to `hi` (see [`falls_between`]).
fn cells_between(n: u32, from: u32, to: u32, side: u32, lo: Single, hi: Single) -> (out: Vec<bool>)
    requires
        n >= 1,
        side >= 1,
        lo.wf(),
        hi.wf(),
    ensures
        out@.len() == n,
        forall|k: int|
            0 <= k < n ==> #[trigger] out@[k] == falls_between(
                k,
                n as int,
                from as int,
                to as int,
                side as int,
                lo,
                hi,
            ),
{
    let whole = Single::of(side as u64);
    let a = Single::of(from as u64).over(whole);
    let b = Single::of(to as u64).over(whole);
    let span = b.spare(a);
    let cells = Single::of(n as u64);
    let h = Single { m: 0x80_0000, e: -24 };
    let mut out: Vec<bool> = Vec::new();
    let mut k: u32 = 0;
    while k < n
        invariant
            k <= n,
            n >= 1,
            out@.len() == k,
            lo.wf(),
            hi.wf(),
            a.wf(),
            span.wf(),
            cells.wf(),
            cells.m > 0,
            -100 <= cells.e <= 100,
            -400 <= a.e <= 400,
            -600 <= span.e <= 600,
            cells == crate::single::nearest(n as int, 1),
            h == half(),
            a == crate::single::quotient(
                crate::single::nearest(from as int, 1),
                crate::single::nearest(side as int, 1),
            ),
            span == crate::single::remainder(
                crate::single::quotient(
                    crate::single::nearest(to as int, 1),
                    crate::single::nearest(side as int, 1),
                ),
                a,
            ),
            forall|j: int|
                0 <= j < k ==> #[trigger] out@[j] == falls_between(
                    j,
                    n as int,
                    from as int,
                    to as int,
                    side as int,
                    lo,
                    hi,
                ),
        decreases n - k,
    {
        let u = a.plus(Single::of(k as u64).plus(h).over(cells).times(span));
        out.push(!u.less(lo) && !hi.less(u));
        k += 1;
    }
    out
}

/// The cells of a `w` by `h` grid over a window of a photo whose middles lie in a box.
pub fn asked_cells(v: &Window, b: &Region, iw: u32, ih: u32, w: u32, h: u32) -> (out: Vec<bool>)
    requires
        b.wf(),
        iw >= 1,
        ih >= 1,
        w >= 1,
        h >= 1,
        w * h <= usize::MAX,
    ensures
        out@.len() == w * h,
        forall|x: int, y: int|
            0 <= x < w && 0 <= y < h ==> #[trigger] out@[grid::cell(x, y, w as int)] == (
            falls_between(
                x,
                w as int,
                v.x0 as int,
                v.x1 as int,
                iw as int,
                b.x0.size,
                b.x1.size,
            ) && falls_between(
                y,
                h as int,
                v.y0 as int,
                v.y1 as int,
                ih as int,
                b.y0.size,
                b.y1.size,
            )),
{
    let cols = cells_between(w, v.x0, v.x1, iw, b.x0.size, b.x1.size);
    let rows = cells_between(h, v.y0, v.y1, ih, b.y0.size, b.y1.size);
    let mut out: Vec<bool> = Vec::new();
    let mut y: u32 = 0;
    while y < h
        invariant
            y <= h,
            cols@.len() == w,
            rows@.len() == h,
            out@.len() == y * w,
            forall|i: int, j: int|
                0 <= i < w && 0 <= j < y ==> #[trigger] out@[grid::cell(i, j, w as int)] == (cols@[i]
                    && rows@[j]),
        decreases h - y,
    {
        let mut x: u32 = 0;
        while x < w
            invariant
                x <= w,
                y < h,
                cols@.len() == w,
                rows@.len() == h,
                out@.len() == y * w + x,
                forall|i: int, j: int|
                    0 <= i < w && 0 <= j < y ==> #[trigger] out@[grid::cell(i, j, w as int)] == (
                    cols@[i] && rows@[j]),
                forall|i: int|
                    0 <= i < x ==> #[trigger] out@[grid::cell(i, y as int, w as int)] == (cols@[i]
                        && rows@[y as int]),
            decreases w - x,
        {
            let ghost before = out@;
            out.push(cols[x as usize] && rows[y as usize]);
            proof {
                assert forall|i: int, j: int| 0 <= i < w && 0 <= j < y implies #[trigger] out@[
                    grid::cell(i, j, w as int)] == (cols@[i] && rows@[j]) by {
                    grid::lemma_cell_bound(i, j, w as int, y as int);
                    assert(before[grid::cell(i, j, w as int)] == (cols@[i] && rows@[j]));
                }
                assert forall|i: int| 0 <= i < x + 1 implies #[trigger] out@[
                    grid::cell(i, y as int, w as int)] == (cols@[i] && rows@[y as int]) by {
                    if i < x {
                        assert(before[grid::cell(i, y as int, w as int)] == (cols@[i]
                            && rows@[y as int]));
                    }
                }
            }
            x += 1;
        }
        proof {
            assert((y + 1) * w == y * w + w) by (nonlinear_arith);
        }
        y += 1;
    }
    proof {
        assert(h * w == w * h) by (nonlinear_arith);
    }
    out
}

/// A percentage as a number.
fn percent(n: u64) -> (s: Single)
    requires
        n <= 100,
    ensures
        s.wf(),
        s == crate::single::quotient(
            crate::single::nearest(n as int, 1),
            crate::single::nearest(100, 1),
        ),
        -200 <= s.e <= 0,
        s.m > 0 ==> s.e <= -20,
{
    let a = Single::of(n);
    let c = Single::of(100);
    proof {
        vstd::arithmetic::power2::lemma2_to64();
        assert(crate::single::up(17) == 0x2_0000);
        crate::single::lemma_exponent_from(100, 1, c, -17);
        if n > 0 {
            assert(n * crate::single::up(17) < crate::single::HIGH) by (nonlinear_arith)
                requires
                    n <= 100,
                    crate::single::up(17) == 0x2_0000,
                    crate::single::HIGH == 0x100_0000,
            ;
            crate::single::lemma_exponent_upto(n as int, 1, a, -17);
        }
    }
    a.over(c)
}

/// How far an object's edge reaches when it is moved by `edge`, on a grid with long edge `long`.
pub fn edge_reach(edge: i32, long: u32) -> (r: u64)
    requires
        -100 <= edge <= 100,
        0 < long,
    ensures
        r == crate::scale::at_least(
            crate::single::round(
                crate::single::product(
                    crate::single::product(
                        crate::single::quotient(
                            crate::single::nearest(crate::align::magnitude(edge as int), 1),
                            crate::single::nearest(100, 1),
                        ),
                        crate::single::nearest(2, 100),
                    ),
                    crate::single::nearest(long as int, 1),
                ),
            ),
            1,
        ),
{
    let size: u64 = if edge < 0 {
        (0 - edge) as u64
    } else {
        edge as u64
    };
    let share = percent(size);
    let r: u64 = share.times(ratio(2, 100)).times(Single::of(long as u64)).round();
    if r < 1 {
        1
    } else {
        r
    }
}

/// How far an object's edge is softened, on a grid with long edge `long`.
pub fn feather_reach(feather: i32, long: u32) -> (r: u64)
    requires
        0 <= feather <= 100,
        0 < long,
    ensures
        r == crate::single::round(
            crate::single::product(
                crate::single::product(
                    crate::single::quotient(
                        crate::single::nearest(feather as int, 1),
                        crate::single::nearest(100, 1),
                    ),
                    crate::single::nearest(5, 100),
                ),
                crate::single::nearest(long as int, 1),
            ),
        ),
{
    let share = percent(feather as u64);
    share.times(ratio(5, 100)).times(Single::of(long as u64)).round()
}

} // verus!
