//! Where the sky is: connectivity from the top edge down, and the skyline it leaves.

use vstd::prelude::*;

use crate::grid;
use crate::morph::{extreme_row, Plane};

verus! {

/// `out` holds how strongly each cell hangs together with the top row: the top row keeps its own
/// keys, and a cell below gets the smaller of its own key and the largest of what the row above
/// has within `r` columns.
pub open spec fn is_reach(
    p: crate::morph::Grid,
    r: int,
    out: crate::morph::Grid,
) -> bool {
    &&& out.wf()
    &&& out.w == p.w
    &&& out.h == p.h
    &&& forall|x: int| 0 <= x < p.w && 0 < p.h ==> #[trigger] out.at(x, 0) == p.at(x, 0)
    &&& forall|x: int, y: int|
        p.has(x, y) && y > 0 ==> reach_step(p, r, out, x, y, #[trigger] out.at(x, y))
}

/// `v` is the smaller of the cell's own key and the best of the row above.
pub open spec fn reach_step(
    p: crate::morph::Grid,
    r: int,
    out: crate::morph::Grid,
    x: int,
    y: int,
    v: i64,
) -> bool {
    &&& v <= p.at(x, y)
    &&& exists|xx: int|
        0 <= xx < p.w && x - r <= xx <= x + r && v <= #[trigger] out.at(xx, y - 1) && (v == p.at(
            x,
            y,
        ) || v == out.at(xx, y - 1))
    &&& forall|xx: int|
        0 <= xx < p.w && x - r <= xx <= x + r ==> v >= #[trigger] out.at(xx, y - 1) || v == p.at(
            x,
            y,
        )
}

/// How strongly every cell hangs together with the top edge (see [`is_reach`]).
pub fn reach_down(p: &Plane, r: usize) -> (out: Plane)
    requires
        p@.wf(),
        p.w + 4 * r + 1 <= usize::MAX,
    ensures
        is_reach(p@, r as int, out@),
{
    let w: usize = p.w;
    let h: usize = p.h;
    let n: usize = p.d.len();
    let mut d: Vec<i64> = Vec::new();
    let mut prev: Vec<i64> = Vec::new();
    let mut y: usize = 0;
    let mut base: usize = 0;
    proof {
        assert(0 * w == 0) by (nonlinear_arith);
    }
    while y < h
        invariant
            p@.wf(),
            w == p.w,
            h == p.h,
            n == w * h,
            w + 4 * r + 1 <= usize::MAX,
            y <= h,
            base == y * w,
            base <= n,
            d@.len() == base,
            y > 0 ==> prev@.len() == w && prev@ == d@.subrange(base - w, base as int),
            forall|x: int|
                0 <= x < w && 0 < y ==> d@[#[trigger] grid::cell(x, 0, w as int)] == p@.at(x, 0),
            forall|xx: int, yy: int|
                0 <= xx < w && 0 < yy < y ==> reach_step(
                    p@,
                    r as int,
                    (crate::morph::Grid { w: w as int, h: h as int, d: d@ }),
                    xx,
                    yy,
                    d@[#[trigger] grid::cell(xx, yy, w as int)],
                ),
        decreases h - y,
    {
        assert((y + 1) * w == base + w) by (nonlinear_arith)
            requires
                base == y * w,
        ;
        assert(base + w <= w * h) by (nonlinear_arith)
            requires
                base == y * w,
                y < h,
        ;
        let above: Vec<i64> = if y > 0 {
            extreme_row(&prev, r, true)
        } else {
            Vec::new()
        };
        let mut row: Vec<i64> = Vec::new();
        let mut x: usize = 0;
        while x < w
            invariant
                x <= w,
                p@.wf(),
                w == p.w,
                h == p.h,
                n == w * h,
                base + w <= n,
                base == y * w,
                y < h,
                y > 0 ==> above@.len() == w,
                row@.len() == x,
                forall|i: int|
                    0 <= i < x ==> #[trigger] row@[i] == (if y > 0 && above@[i] < p@.at(
                        i,
                        y as int,
                    ) {
                        above@[i]
                    } else {
                        p@.at(i, y as int)
                    }),
            decreases w - x,
        {
            let own: i64 = p.d[base + x];
            assert(own == p@.at(x as int, y as int));
            if y > 0 && above[x] < own {
                row.push(above[x]);
            } else {
                row.push(own);
            }
            x += 1;
        }
        let mut kept: Vec<i64> = Vec::new();
        let ghost d0 = d@;
        let mut x: usize = 0;
        while x < w
            invariant
                x <= w,
                row@.len() == w,
                kept@ == row@.subrange(0, x as int),
                d@ == d0 + row@.subrange(0, x as int),
            decreases w - x,
        {
            kept.push(row[x]);
            d.push(row[x]);
            x += 1;
        }
        prev = kept;
        proof {
            let g0 = crate::morph::Grid { w: w as int, h: h as int, d: d0 };
            let g1 = crate::morph::Grid { w: w as int, h: h as int, d: d@ };
            let wi = w as int;
            assert forall|i: int| 0 <= i < d0.len() implies #[trigger] d@[i] == d0[i] by {}
            assert forall|xx: int, yy: int| 0 <= xx < w && 0 <= yy < y implies g1.at(xx, yy)
                == g0.at(xx, yy) by {
                grid::lemma_cell_bound(xx, yy, wi, y as int);
                assert(w * y == y * w) by (nonlinear_arith);
            }
            assert forall|xx: int| 0 <= xx < w implies g1.at(xx, y as int) == row@[xx] by {
                assert(grid::cell(xx, y as int, wi) == base + xx);
            }
            assert forall|xx: int| 0 <= xx < w && 0 < y + 1 implies d@[#[trigger] grid::cell(
                xx,
                0,
                wi,
            )] == p@.at(xx, 0) by {
                assert(g1.at(xx, 0) == d@[grid::cell(xx, 0, wi)]);
                if y > 0 {
                    assert(g0.at(xx, 0) == d0[grid::cell(xx, 0, wi)]);
                }
            }
            assert forall|xx: int, yy: int| 0 <= xx < w && 0 < yy < y + 1 implies reach_step(
                p@,
                r as int,
                g1,
                xx,
                yy,
                d@[#[trigger] grid::cell(xx, yy, wi)],
            ) by {
                let v = d@[grid::cell(xx, yy, wi)];
                assert(g1.at(xx, yy) == v);
                if yy < y {
                    assert(g0.at(xx, yy) == d0[grid::cell(xx, yy, wi)]);
                    assert(reach_step(p@, r as int, g0, xx, yy, v));
                    let c = choose|c: int|
                        0 <= c < wi && xx - r <= c <= xx + r && v <= #[trigger] g0.at(c, yy - 1) && (
                        v == p@.at(xx, yy) || v == g0.at(c, yy - 1));
                    assert(g1.at(c, yy - 1) == g0.at(c, yy - 1));
                    assert forall|c2: int| 0 <= c2 < wi && xx - r <= c2 <= xx + r implies v
                        >= #[trigger] g1.at(c2, yy - 1) || v == p@.at(xx, yy) by {
                        assert(g1.at(c2, yy - 1) == g0.at(c2, yy - 1));
                    }
                } else {
                    let prow = d0.subrange(base - w, base as int);
                    assert(y * w - w == (y - 1) * w) by (nonlinear_arith);
                    assert forall|c: int| 0 <= c < wi implies #[trigger] g1.at(c, yy - 1)
                        == prow[c] by {
                        assert(g1.at(c, yy - 1) == g0.at(c, yy - 1));
                    }
                    let b = above@[xx];
                    let lo = crate::morph::win_lo(xx, r as int);
                    let hi = crate::morph::win_hi(xx, r as int, wi);
                    assert(crate::morph::is_best(prow, lo, hi, true, b));
                    let c = choose|c: int| lo <= c < hi && #[trigger] prow[c] == b;
                    assert(g1.at(c, yy - 1) == b);
                    assert forall|c2: int| 0 <= c2 < wi && xx - r <= c2 <= xx + r implies v
                        >= #[trigger] g1.at(c2, yy - 1) || v == p@.at(xx, yy) by {
                        assert(g1.at(c2, yy - 1) == prow[c2]);
                        assert(crate::morph::beats(true, b, prow[c2]));
                    }
                }
            }
        }
        y += 1;
        base += w;
    }
    let out = Plane { w, h, d };
    proof {
        assert(h * w == w * h) by (nonlinear_arith);
        assert forall|xx: int| 0 <= xx < p@.w && 0 < p@.h implies #[trigger] out@.at(xx, 0)
            == p@.at(xx, 0) by {
            assert(out@.at(xx, 0) == d@[grid::cell(xx, 0, w as int)]);
        }
        assert forall|xx: int, yy: int| p@.has(xx, yy) && yy > 0 implies reach_step(
            p@,
            r as int,
            out@,
            xx,
            yy,
            #[trigger] out@.at(xx, yy),
        ) by {
            assert(out@.at(xx, yy) == d@[grid::cell(xx, yy, w as int)]);
        }
    }
    out
}

/// A way down from the top row to row `y` that ends in column `x`, moves at most `r` columns per
/// row and never meets a key below `level`.
pub open spec fn is_way(
    p: crate::morph::Grid,
    r: int,
    level: i64,
    x: int,
    y: int,
    way: Seq<int>,
) -> bool {
    &&& way.len() == y + 1
    &&& way[y] == x
    &&& forall|i: int| 0 <= i <= y ==> 0 <= #[trigger] way[i] < p.w && p.at(way[i], i) >= level
    &&& forall|i: int| 0 < i <= y ==> #[trigger] way_step(way, r, i)
}

/// The way moves at most `r` columns when it enters row `i`.
pub open spec fn way_step(way: Seq<int>, r: int, i: int) -> bool {
    way[i - 1] - r <= way[i] <= way[i - 1] + r
}

/// A cell's reach is `level` or more exactly when a way leads down to it from the top edge on
/// which no key is below `level`: only what hangs together with the sky above counts as sky.
pub proof fn law_reach_is_connectivity(
    p: crate::morph::Grid,
    r: int,
    out: crate::morph::Grid,
    level: i64,
    x: int,
    y: int,
)
    requires
        p.wf(),
        r >= 0,
        is_reach(p, r, out),
        p.has(x, y),
    ensures
        out.at(x, y) >= level <==> exists|way: Seq<int>| is_way(p, r, level, x, y, way),
    decreases y,
{
    if y == 0 {
        assert(out.at(x, 0) == p.at(x, 0));
        if out.at(x, y) >= level {
            assert(is_way(p, r, level, x, y, seq![x]));
        }
        if exists|way: Seq<int>| is_way(p, r, level, x, y, way) {
            let way = choose|way: Seq<int>| is_way(p, r, level, x, y, way);
            assert(p.at(way[0], 0) >= level);
        }
    } else {
        let v = out.at(x, y);
        assert(reach_step(p, r, out, x, y, v));
        if v >= level {
            let c = choose|c: int|
                0 <= c < p.w && x - r <= c <= x + r && v <= #[trigger] out.at(c, y - 1) && (v
                    == p.at(x, y) || v == out.at(c, y - 1));
            law_reach_is_connectivity(p, r, out, level, c, y - 1);
            let above = y - 1;
            let up = choose|up: Seq<int>| is_way(p, r, level, c, above, up);
            let way = up.push(x);
            assert forall|i: int| 0 <= i <= y implies 0 <= #[trigger] way[i] < p.w && p.at(
                way[i],
                i,
            ) >= level by {
                if i < y {
                    assert(way[i] == up[i]);
                }
            }
            assert forall|i: int| 0 < i <= y implies #[trigger] way_step(way, r, i) by {
                assert(way[i - 1] == up[i - 1]);
                if i < y {
                    assert(way_step(up, r, i));
                    assert(way[i] == up[i]);
                }
            }
            assert(is_way(p, r, level, x, y, way));
        }
        if exists|way: Seq<int>| is_way(p, r, level, x, y, way) {
            let way = choose|way: Seq<int>| is_way(p, r, level, x, y, way);
            let c = way[y - 1];
            let up = way.subrange(0, y);
            assert(way[y] == x);
            assert forall|i: int| 0 <= i <= y - 1 implies 0 <= #[trigger] up[i] < p.w && p.at(
                up[i],
                i,
            ) >= level by {
                assert(up[i] == way[i]);
            }
            assert forall|i: int| 0 < i <= y - 1 implies #[trigger] way_step(up, r, i) by {
                assert(way_step(way, r, i));
                assert(up[i] == way[i]);
                assert(up[i - 1] == way[i - 1]);
            }
            assert(way_step(way, r, y));
            assert(is_way(p, r, level, c, y - 1, up));
            law_reach_is_connectivity(p, r, out, level, c, y - 1);
            assert(out.at(c, y - 1) >= level);
            assert(p.at(way[y], y) >= level);
        }
    }
}

/// Height of the skyline of a column: one more than the lowest row above `floor`, 0 if none is.
pub open spec fn is_skyline(p: crate::morph::Grid, floor: i64, x: int, n: int) -> bool {
    &&& 0 <= n <= p.h
    &&& n > 0 ==> p.at(x, n - 1) > floor
    &&& forall|y: int| n <= y < p.h ==> #[trigger] p.at(x, y) <= floor
}

/// The skyline: for each column, how many rows lie at or above its lowest cell above `floor`.
pub fn skyline(p: &Plane, floor: i64) -> (out: Vec<usize>)
    requires
        p@.wf(),
    ensures
        out@.len() == p.w,
        forall|x: int| 0 <= x < p.w ==> is_skyline(p@, floor, x, #[trigger] out@[x] as int),
{
    let w: usize = p.w;
    let h: usize = p.h;
    let len: usize = p.d.len();
    let mut out: Vec<usize> = Vec::new();
    let mut x: usize = 0;
    while x < w
        invariant
            p@.wf(),
            w == p.w,
            h == p.h,
            len == w * h,
            len == p.d@.len(),
            x <= w,
            out@.len() == x,
            forall|i: int| 0 <= i < x ==> is_skyline(p@, floor, i, #[trigger] out@[i] as int),
        decreases w - x,
    {
        let mut n: usize = h;
        proof {
            if n > 0 {
                grid::lemma_cell_bound(x as int, n - 1, w as int, h as int);
            }
        }
        while n > 0 && p.d[(n - 1) * w + x] <= floor
            invariant
                p@.wf(),
                w == p.w,
                h == p.h,
                len == w * h,
                len == p.d@.len(),
                x < w,
                n <= h,
                n > 0 ==> grid::cell(x as int, n - 1, w as int) < len && 0 <= (n - 1) * w
                    <= grid::cell(x as int, n - 1, w as int),
                forall|y: int| n <= y < h ==> #[trigger] p@.at(x as int, y) <= floor,
            decreases n,
        {
            n -= 1;
            proof {
                if n > 0 {
                    grid::lemma_cell_bound(x as int, n - 1, w as int, h as int);
                }
            }
        }
        out.push(n);
        x += 1;
    }
    out
}

/// How strongly every cell hangs together with the top edge.
pub open spec fn reached(p: crate::morph::Grid, r: int) -> crate::morph::Grid {
    choose|out: crate::morph::Grid| is_reach(p, r, out)
}

proof fn lemma_reach_row(
    p: crate::morph::Grid,
    r: int,
    a: crate::morph::Grid,
    b: crate::morph::Grid,
    y: int,
)
    requires
        p.wf(),
        r >= 0,
        is_reach(p, r, a),
        is_reach(p, r, b),
        0 <= y < p.h,
    ensures
        forall|x: int| 0 <= x < p.w ==> #[trigger] a.at(x, y) == b.at(x, y),
        forall|x: int| 0 <= x < p.w ==> p.d.contains(#[trigger] a.at(x, y)),
    decreases y,
{
    if y == 0 {
        assert forall|x: int| 0 <= x < p.w implies #[trigger] a.at(x, y) == b.at(x, y)
            && p.d.contains(a.at(x, y)) by {
            assert(b.at(x, 0) == p.at(x, 0));
            grid::lemma_cell_bound(x, 0, p.w, p.h);
            assert(p.d[grid::cell(x, 0, p.w)] == a.at(x, 0));
        }
    } else {
        lemma_reach_row(p, r, a, b, y - 1);
        assert forall|x: int| 0 <= x < p.w implies #[trigger] a.at(x, y) == b.at(x, y)
            && p.d.contains(a.at(x, y)) by {
            let v = a.at(x, y);
            let u = b.at(x, y);
            assert(p.has(x, y));
            assert(reach_step(p, r, a, x, y, v));
            assert(reach_step(p, r, b, x, y, u));
            let i = choose|xx: int|
                0 <= xx < p.w && x - r <= xx <= x + r && v <= #[trigger] a.at(xx, y - 1) && (v
                    == p.at(x, y) || v == a.at(xx, y - 1));
            let j = choose|xx: int|
                0 <= xx < p.w && x - r <= xx <= x + r && u <= #[trigger] b.at(xx, y - 1) && (u
                    == p.at(x, y) || u == b.at(xx, y - 1));
            assert(a.at(i, y - 1) == b.at(i, y - 1));
            assert(a.at(j, y - 1) == b.at(j, y - 1));
            grid::lemma_cell_bound(x, y, p.w, p.h);
            assert(p.d[grid::cell(x, y, p.w)] == p.at(x, y));
            assert(p.d.contains(a.at(i, y - 1)));
        }
    }
}

/// There is but one plane of such strengths, and what it holds comes from the plane itself.
pub proof fn law_reach_unique(p: crate::morph::Grid, r: int, out: crate::morph::Grid)
    requires
        p.wf(),
        r >= 0,
        is_reach(p, r, out),
    ensures
        out == reached(p, r),
        forall|i: int| 0 <= i < out.d.len() ==> p.d.contains(#[trigger] out.d[i]),
{
    let q = reached(p, r);
    assert(is_reach(p, r, q));
    assert forall|x: int, y: int| out.has(x, y) implies #[trigger] out.at(x, y) == q.at(x, y) by {
        lemma_reach_row(p, r, out, q, y);
    }
    crate::morph::lemma_same_plane(out, q);
    assert forall|i: int| 0 <= i < out.d.len() implies p.d.contains(#[trigger] out.d[i]) by {
        assert(out.w > 0) by (nonlinear_arith)
            requires
                out.w * out.h > 0,
                out.w >= 0,
        ;
        grid::lemma_cell_split(i, out.w, out.h);
        lemma_reach_row(p, r, out, q, i / out.w);
        assert(out.at(i % out.w, i / out.w) == out.d[i]);
    }
}

} // verus!
