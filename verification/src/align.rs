//! Finding how far two photographs of one place are shifted against each other.
//!
//! Fireworks differ from shot to shot, the land does not: both pictures are brought down to their
//! edges, and the shift is the one at which the edges differ least. Differences are clipped, so that
//! a burst in one of them weighs no more than a few lamps.

use vstd::prelude::*;

use crate::grid;
use crate::order::{sort, Ranked};
use crate::raster::Raster;
use crate::resample::resize;
use crate::scale::scale;
use crate::single::{ratio, Single};

verus! {

/// Brightness of edges, pixel by pixel.
pub struct EdgeMap {
    pub w: usize,
    pub h: usize,
    pub d: Vec<u8>,
}

/// An edge map as mathematics sees it.
#[verifier::ext_equal]
pub struct Edges {
    pub w: int,
    pub h: int,
    pub d: Seq<u8>,
}

impl Edges {
    /// There is exactly one value per pixel.
    pub open spec fn wf(self) -> bool {
        &&& 0 <= self.w <= 0x10_0000
        &&& 0 <= self.h <= 0x10_0000
        &&& self.d.len() == self.w * self.h
    }

    /// The pixel lies on the map.
    pub open spec fn has(self, x: int, y: int) -> bool {
        0 <= x < self.w && 0 <= y < self.h
    }

    /// Edge at column `x` of row `y`.
    pub open spec fn at(self, x: int, y: int) -> u8 {
        self.d[grid::cell(x, y, self.w)]
    }
}

impl View for EdgeMap {
    type V = Edges;

    open spec fn view(&self) -> Edges {
        Edges { w: self.w as int, h: self.h as int, d: self.d@ }
    }
}

/// Brightness of a pixel, its channels weighed 299, 587 and 114 in a thousand.
pub open spec fn gray(p: crate::raster::Picture, x: int, y: int) -> int {
    (p.at(x, y, 0) * 299 + p.at(x, y, 1) * 587 + p.at(x, y, 2) * 114) / 1000
}

/// Magnitude.
pub open spec fn magnitude(v: int) -> int {
    if v < 0 {
        -v
    } else {
        v
    }
}

/// Edge strength of a pixel: how much brightness changes across it in both directions, at most
/// 255. Pixels on the rim have none.
pub open spec fn edge(p: crate::raster::Picture, x: int, y: int) -> int {
    if 0 < x < p.w - 1 && 0 < y < p.h - 1 {
        let v = magnitude(gray(p, x + 1, y) - gray(p, x - 1, y)) + magnitude(
            gray(p, x, y + 1) - gray(p, x, y - 1),
        );
        if v > 255 {
            255
        } else {
            v
        }
    } else {
        0
    }
}

/// `e` holds the edges of `p`.
pub open spec fn are_edges(p: crate::raster::Picture, e: Edges) -> bool {
    &&& e.wf()
    &&& e.w == p.w
    &&& e.h == p.h
    &&& forall|x: int, y: int| p.has(x, y) ==> #[trigger] e.at(x, y) == edge(p, x, y)
}

fn gray_at(img: &Raster, x: usize, y: usize) -> (g: i32)
    requires
        img@.wf(),
        img@.has(x as int, y as int),
    ensures
        g == gray(img@, x as int, y as int),
        0 <= g <= 255,
{
    let r: u32 = img.get(x, y, 0) as u32;
    let g: u32 = img.get(x, y, 1) as u32;
    let b: u32 = img.get(x, y, 2) as u32;
    ((r * 299 + g * 587 + b * 114) / 1000) as i32
}

fn abs(v: i32) -> (r: i32)
    requires
        -1000 <= v <= 1000,
    ensures
        r == magnitude(v as int),
{
    if v < 0 {
        -v
    } else {
        v
    }
}

/// The edges of a picture.
pub fn edges(img: &Raster) -> (out: EdgeMap)
    requires
        img@.wf(),
        img.w <= 0x10_0000,
        img.h <= 0x10_0000,
    ensures
        are_edges(img@, out@),
{
    let w: usize = img.w;
    let h: usize = img.h;
    let ghost p = img@;
    let mut d: Vec<u8> = Vec::new();
    let mut y: usize = 0;
    proof {
        assert(0 * w == 0) by (nonlinear_arith);
    }
    while y < h
        invariant
            img@ == p,
            p.wf(),
            w == p.w,
            h == p.h,
            y <= h,
            d@.len() == y * w,
            forall|xx: int, yy: int|
                0 <= xx < w && 0 <= yy < y ==> d@[#[trigger] grid::cell(xx, yy, w as int)] == edge(
                    p,
                    xx,
                    yy,
                ),
        decreases h - y,
    {
        let mut x: usize = 0;
        while x < w
            invariant
                img@ == p,
                p.wf(),
                w == p.w,
                h == p.h,
                y < h,
                x <= w,
                d@.len() == y * w + x,
                forall|xx: int, yy: int|
                    0 <= xx < w && 0 <= yy <= y && (yy < y || xx < x) ==> d@[#[trigger] grid::cell(
                        xx,
                        yy,
                        w as int,
                    )] == edge(p, xx, yy),
            decreases w - x,
        {
            let v: u8 = if x > 0 && x + 1 < w && y > 0 && y + 1 < h {
                let dx: i32 = gray_at(img, x + 1, y) - gray_at(img, x - 1, y);
                let dy: i32 = gray_at(img, x, y + 1) - gray_at(img, x, y - 1);
                let s: i32 = abs(dx) + abs(dy);
                if s > 255 {
                    255
                } else {
                    s as u8
                }
            } else {
                0
            };
            let ghost d0 = d@;
            d.push(v);
            proof {
                assert forall|xx: int, yy: int|
                    0 <= xx < w && 0 <= yy <= y && (yy < y || xx < x + 1) implies d@[
                #[trigger] grid::cell(xx, yy, w as int)] == edge(p, xx, yy) by {
                    grid::lemma_cell_bound(xx, yy, w as int, h as int);
                    if yy < y {
                        grid::lemma_cell_bound(xx, yy, w as int, y as int);
                        assert(w * y == y * w) by (nonlinear_arith);
                        assert(d@[grid::cell(xx, yy, w as int)] == d0[grid::cell(
                            xx,
                            yy,
                            w as int,
                        )]);
                    } else if xx < x {
                        assert(d@[grid::cell(xx, yy, w as int)] == d0[grid::cell(
                            xx,
                            yy,
                            w as int,
                        )]);
                    }
                }
            }
            x += 1;
        }
        assert((y + 1) * w == y * w + w) by (nonlinear_arith);
        y += 1;
    }
    let out = EdgeMap { w, h, d };
    proof {
        assert(h * w == w * h) by (nonlinear_arith);
        assert forall|x: int, y: int| p.has(x, y) implies #[trigger] out@.at(x, y) == edge(
            p,
            x,
            y,
        ) by {
            assert(out@.at(x, y) == d@[grid::cell(x, y, w as int)]);
        }
    }
    out
}

/// Factor by which a picture with long edge `long` is scaled so that it becomes `target`.
pub open spec fn edge_factor(long: int, target: int) -> Single {
    crate::single::quotient(crate::single::nearest(target, 1), crate::single::nearest(long, 1))
}

/// Scaled length of a side, at least 1.
pub open spec fn edge_side(side: int, k: Single) -> int {
    crate::scale::at_least(crate::scale::scaled(side, k), 1)
}

/// A picture can be brought down to its edges at this factor: it keeps at least 24 pixels a side.
pub open spec fn has_edges(p: crate::raster::Picture, k: Single) -> bool {
    let nw = edge_side(p.w, k);
    let nh = edge_side(p.h, k);
    nw >= 24 && nh >= 24 && crate::resample::can_resample(p.w, p.h, nw, nh)
}

/// `e` holds the edges of `p` at this factor.
pub open spec fn are_scaled_edges(p: crate::raster::Picture, k: Single, e: Edges) -> bool {
    are_edges(crate::resample::resized(p, edge_side(p.w, k), edge_side(p.h, k)), e)
}

fn scaled_edges(img: &Raster, k: Single) -> (out: Option<EdgeMap>)
    requires
        img@.wf(),
        k.wf(),
        -300 <= k.e <= 4,
    ensures
        out is Some <==> has_edges(img@, k),
        out matches Some(e) ==> are_scaled_edges(img@, k, e@),
{
    let w: u64 = scale(img.w as u32, k);
    let h: u64 = scale(img.h as u32, k);
    let w: u64 = if w < 1 {
        1
    } else {
        w
    };
    let h: u64 = if h < 1 {
        1
    } else {
        h
    };
    if w < 24 || h < 24 {
        return None;
    }
    match resize(img, w, h) {
        None => None,
        Some(small) => Some(edges(&small)),
    }
}

/// The edges of two pictures at one factor, which brings the ground's long edge to `long`. `None`
/// when the ground is empty or a picture comes out too small or too large.
pub fn edge_pair(ground: &Raster, layer: &Raster, long: u32) -> (out: Option<(EdgeMap, EdgeMap)>)
    requires
        ground@.wf(),
        layer@.wf(),
        long <= 0x1000,
    ensures
        out is Some <==> ground@.w > 0 && ground@.h > 0 && has_edges(
            ground@,
            edge_factor(crate::scale::longer(ground@.w, ground@.h), long as int),
        ) && has_edges(
            layer@,
            edge_factor(crate::scale::longer(ground@.w, ground@.h), long as int),
        ),
        out matches Some(e) ==> are_scaled_edges(
            ground@,
            edge_factor(crate::scale::longer(ground@.w, ground@.h), long as int),
            e.0@,
        ) && are_scaled_edges(
            layer@,
            edge_factor(crate::scale::longer(ground@.w, ground@.h), long as int),
            e.1@,
        ),
{
    if ground.w == 0 || ground.h == 0 {
        return None;
    }
    let side: usize = if ground.w < ground.h {
        ground.h
    } else {
        ground.w
    };
    let a = Single::of(long as u64);
    let b = Single::of(side as u64);
    proof {
        vstd::arithmetic::power2::lemma2_to64();
        assert(crate::single::up(23) == 0x80_0000);
        assert(crate::single::up(11) == 0x800);
        assert(side * crate::single::up(23) == side * 0x80_0000);
        crate::single::lemma_exponent_from(side as int, 1, b, -23);
        if long > 0 {
            assert(long * crate::single::up(11) == long * 0x800);
            crate::single::lemma_exponent_upto(long as int, 1, a, -11);
        }
    }
    let k = a.over(b);
    match scaled_edges(ground, k) {
        None => None,
        Some(g) => match scaled_edges(layer, k) {
            None => None,
            Some(l) => Some((g, l)),
        },
    }
}

/// Largest difference that counts.
pub const ALIGN_CLIP: u64 = 40;

/// Both maps have a pixel here when the layer is moved by `(dx, dy)`.
pub open spec fn meets(g: Edges, l: Edges, dx: int, dy: int, x: int, y: int) -> bool {
    g.has(x, y) && l.has(
        crate::stack::source(x, dx, g.w, l.w),
        crate::stack::source(y, dy, g.h, l.h),
    )
}

/// Clipped difference of the two maps at a pixel, 0 where they do not meet.
pub open spec fn difference(g: Edges, l: Edges, dx: int, dy: int) -> spec_fn(int, int) -> int {
    |x: int, y: int|
        if meets(g, l, dx, dy, x, y) {
            let v = magnitude(
                g.at(x, y) - l.at(
                    crate::stack::source(x, dx, g.w, l.w),
                    crate::stack::source(y, dy, g.h, l.h),
                ),
            );
            if v > 40 {
                40
            } else {
                v
            }
        } else {
            0
        }
}

/// 1 where the two maps meet, 0 elsewhere.
pub open spec fn meeting(g: Edges, l: Edges, dx: int, dy: int) -> spec_fn(int, int) -> int {
    |x: int, y: int|
        if meets(g, l, dx, dy, x, y) {
            1
        } else {
            0
        }
}

/// A lattice of sample points: `nx` by `ny` of them, `step` apart, from `(x0, y0)` on.
pub struct Lattice {
    pub x0: i64,
    pub nx: usize,
    pub y0: i64,
    pub ny: usize,
    pub step: i64,
}

impl Lattice {
    /// The lattice lies within reach of a picture.
    pub open spec fn wf(&self) -> bool {
        &&& -0x1000_0000 <= self.x0 <= 0x1000_0000
        &&& -0x1000_0000 <= self.y0 <= 0x1000_0000
        &&& self.nx <= 0x10_0000
        &&& self.ny <= 0x10_0000
        &&& 0 <= self.step <= 0x10_0000
    }

    /// Sum of `f` along row `j` of the lattice.
    pub open spec fn row_total(&self, f: spec_fn(int, int) -> int, j: int, n: int) -> int {
        crate::sums::sum_over(
            |i: int| f(self.x0 + i * self.step, self.y0 + j * self.step),
            0,
            n,
        )
    }

    /// Sum of `f` over the first `n` rows of the lattice.
    pub open spec fn rows_total(&self, f: spec_fn(int, int) -> int, n: int) -> int {
        crate::sums::sum_over(|j: int| self.row_total(f, j, self.nx as int), 0, n)
    }

    /// Sum of `f` over the lattice.
    pub open spec fn total(&self, f: spec_fn(int, int) -> int) -> int {
        self.rows_total(f, self.ny as int)
    }
}

proof fn lemma_row_bound(lat: &Lattice, f: spec_fn(int, int) -> int, j: int, n: int, top: int)
    requires
        n >= 0,
        forall|x: int, y: int| 0 <= #[trigger] f(x, y) <= top,
    ensures
        0 <= lat.row_total(f, j, n) <= n * top,
{
    crate::sums::lemma_sum_bound(
        |i: int| f(lat.x0 + i * lat.step, lat.y0 + j * lat.step),
        0,
        n,
        top,
    );
}

proof fn lemma_rows_bound(lat: &Lattice, f: spec_fn(int, int) -> int, n: int, top: int)
    requires
        n >= 0,
        top >= 0,
        forall|x: int, y: int| 0 <= #[trigger] f(x, y) <= top,
    ensures
        0 <= lat.rows_total(f, n) <= n * (lat.nx * top),
{
    let r = |j: int| lat.row_total(f, j, lat.nx as int);
    assert forall|j: int| 0 <= j < n implies 0 <= #[trigger] r(j) <= lat.nx * top by {
        lemma_row_bound(lat, f, j, lat.nx as int, top);
    }
    crate::sums::lemma_sum_bound(r, 0, n, lat.nx * top);
}

/// Sum of the clipped differences over a lattice, and how many of its points the maps share.
fn overlap(g: &EdgeMap, l: &EdgeMap, dx: i64, dy: i64, lat: &Lattice) -> (r: (u64, u64))
    requires
        g@.wf(),
        l@.wf(),
        lat.wf(),
        -0x4_0000_0000_0000 <= dx <= 0x4_0000_0000_0000,
        -0x4_0000_0000_0000 <= dy <= 0x4_0000_0000_0000,
    ensures
        r.0 == lat.total(difference(g@, l@, dx as int, dy as int)),
        r.1 == lat.total(meeting(g@, l@, dx as int, dy as int)),
        r.1 <= 0x100_0000_0000,
        r.0 <= 0x100_0000_0000 * 40,
{
    let ghost fd = difference(g@, l@, dx as int, dy as int);
    let ghost fm = meeting(g@, l@, dx as int, dy as int);
    let ex: i64 = l.w as i64 - g.w as i64;
    let ey: i64 = l.h as i64 - g.h as i64;
    let bx: i64 = if ex >= 0 {
        ex / 2
    } else {
        -((-ex) / 2)
    };
    let by: i64 = if ey >= 0 {
        ey / 2
    } else {
        -((-ey) / 2)
    };
    let mut sum: u64 = 0;
    let mut n: u64 = 0;
    let mut j: usize = 0;
    let mut y: i64 = lat.y0;
    proof {
        assert(0 * lat.step == 0) by (nonlinear_arith);
    }
    while j < lat.ny
        invariant
            g@.wf(),
            l@.wf(),
            lat.wf(),
            -0x4_0000_0000_0000 <= dx <= 0x4_0000_0000_0000,
            -0x4_0000_0000_0000 <= dy <= 0x4_0000_0000_0000,
            bx == crate::stack::half(l@.w - g@.w),
            by == crate::stack::half(l@.h - g@.h),
            fd == difference(g@, l@, dx as int, dy as int),
            fm == meeting(g@, l@, dx as int, dy as int),
            j <= lat.ny,
            y == lat.y0 + j * lat.step,
            sum == lat.rows_total(fd, j as int),
            n == lat.rows_total(fm, j as int),
        decreases lat.ny - j,
    {
        let ghost s0 = sum as int;
        let ghost n0 = n as int;
        let ghost ji = j as int;
        proof {
            assert((j + 1) * lat.step == j * lat.step + lat.step) by (nonlinear_arith);
            assert(0 <= (j + 1) * lat.step <= 0x10_0000 * 0x10_0000) by (nonlinear_arith)
                requires
                    0 <= j < 0x10_0000,
                    0 <= lat.step <= 0x10_0000,
            ;
            lemma_rows_bound(lat, fd, ji, 40);
            lemma_rows_bound(lat, fm, ji, 1);
            assert(ji * (lat.nx * 40) <= 0x10_0000 * (0x10_0000 * 40)) by (nonlinear_arith)
                requires
                    0 <= ji <= 0x10_0000,
                    0 <= lat.nx <= 0x10_0000,
            ;
            assert(ji * (lat.nx * 1) <= 0x10_0000 * 0x10_0000) by (nonlinear_arith)
                requires
                    0 <= ji <= 0x10_0000,
                    0 <= lat.nx <= 0x10_0000,
            ;
        }
        let sy: i64 = y - dy + by;
        let gy: bool = y >= 0 && y < g.h as i64 && sy >= 0 && sy < l.h as i64;
        let mut i: usize = 0;
        let mut x: i64 = lat.x0;
        while i < lat.nx
            invariant
                g@.wf(),
                l@.wf(),
                lat.wf(),
                -0x4_0000_0000_0000 <= dx <= 0x4_0000_0000_0000,
                -0x4_0000_0000_0000 <= dy <= 0x4_0000_0000_0000,
                bx == crate::stack::half(l@.w - g@.w),
                by == crate::stack::half(l@.h - g@.h),
                fd == difference(g@, l@, dx as int, dy as int),
                fm == meeting(g@, l@, dx as int, dy as int),
                ji == j,
                j < lat.ny,
                y == lat.y0 + j * lat.step,
                sy == y - dy + by,
                gy == (0 <= y < g@.h && 0 <= sy < l@.h),
                i <= lat.nx,
                x == lat.x0 + i * lat.step,
                0 <= s0 <= 0x10_0000 * (0x10_0000 * 40),
                0 <= n0 <= 0x10_0000 * 0x10_0000,
                sum == s0 + lat.row_total(fd, ji, i as int),
                n == n0 + lat.row_total(fm, ji, i as int),
            decreases lat.nx - i,
        {
            proof {
                assert((i + 1) * lat.step == i * lat.step + lat.step) by (nonlinear_arith);
                assert(0 <= (i + 1) * lat.step <= 0x10_0000 * 0x10_0000) by (nonlinear_arith)
                    requires
                        0 <= i < 0x10_0000,
                        0 <= lat.step <= 0x10_0000,
                ;
                lemma_row_bound(lat, fd, ji, i as int, 40);
                lemma_row_bound(lat, fm, ji, i as int, 1);
            }
            let sx: i64 = x - dx + bx;
            let ghost sum1 = sum as int;
            let ghost cnt1 = n as int;
            if gy && x >= 0 && x < g.w as i64 && sx >= 0 && sx < l.w as i64 {
                proof {
                    grid::lemma_cell_bound(x as int, y as int, g@.w, g@.h);
                    grid::lemma_cell_bound(sx as int, sy as int, l@.w, l@.h);
                }
                let glen: usize = g.d.len();
                let llen: usize = l.d.len();
                let a: i32 = g.d[y as usize * g.w + x as usize] as i32;
                let b: i32 = l.d[sy as usize * l.w + sx as usize] as i32;
                let v: u64 = abs(a - b) as u64;
                sum = sum + if v > ALIGN_CLIP {
                    ALIGN_CLIP
                } else {
                    v
                };
                n = n + 1;
            }
            proof {
                assert(sum == sum1 + fd(x as int, y as int));
                assert(n == cnt1 + fm(x as int, y as int));
            }
            x = x + lat.step;
            i += 1;
        }
        y = y + lat.step;
        j += 1;
    }
    proof {
        lemma_rows_bound(lat, fd, lat.ny as int, 40);
        lemma_rows_bound(lat, fm, lat.ny as int, 1);
        assert(lat.ny * (lat.nx * 40) <= 0x10_0000 * (0x10_0000 * 40)) by (nonlinear_arith)
            requires
                0 <= lat.ny <= 0x10_0000,
                0 <= lat.nx <= 0x10_0000,
        ;
        assert(lat.ny * (lat.nx * 1) <= 0x10_0000 * 0x10_0000) by (nonlinear_arith)
            requires
                0 <= lat.ny <= 0x10_0000,
                0 <= lat.nx <= 0x10_0000,
        ;
    }
    (sum, n)
}

/// Mean of the clipped differences, in single precision.
pub open spec fn mean_cost(sum: int, n: int) -> Single {
    crate::single::quotient(crate::single::nearest(sum, 1), crate::single::nearest(n, 1))
}

/// The mean of `n` differences that add up to `sum`.
fn mean_of(sum: u64, n: u64) -> (s: Single)
    requires
        n > 0,
        n <= 0x100_0000_0000,
        sum <= 0x100_0000_0000 * 40,
    ensures
        s == mean_cost(sum as int, n as int),
        s.wf(),
        -300 <= s.e <= 300,
{
    let a = Single::of(sum);
    let b = Single::of(n);
    a.over(b)
}

/// Number of samples `step` apart on a side.
pub open spec fn sampled(n: int, step: int) -> int {
    (n + step - 1) / step
}

/// Every second pixel of the ground.
pub open spec fn search_lattice(g: Edges) -> Lattice {
    Lattice {
        x0: 0,
        nx: sampled(g.w, 2) as usize,
        y0: 0,
        ny: sampled(g.h, 2) as usize,
        step: 2,
    }
}

/// The smaller of two sides.
pub open spec fn shorter(a: int, b: int) -> int {
    if a < b {
        a
    } else {
        b
    }
}

/// Enough of the two maps meets at this shift: at least half of what could.
pub open spec fn counts(g: Edges, l: Edges, dx: int, dy: int) -> bool {
    let n = search_lattice(g).total(meeting(g, l, dx, dy));
    n > 0 && n >= sampled(shorter(g.w, l.w), 2) * sampled(shorter(g.h, l.h), 2) / 2
}

/// Maps that meet are not far apart.
proof fn lemma_counts_near(g: Edges, l: Edges, dx: int, dy: int)
    requires
        g.wf(),
        l.wf(),
        counts(g, l, dx, dy),
    ensures
        magnitude(dx) <= 0x100_0000,
        magnitude(dy) <= 0x100_0000,
{
    let f = meeting(g, l, dx, dy);
    let lat = search_lattice(g);
    if magnitude(dx) > 0x100_0000 || magnitude(dy) > 0x100_0000 {
        assert forall|x: int, y: int| 0 <= #[trigger] f(x, y) <= 0 by {
            assert(!meets(g, l, dx, dy, x, y));
        }
        lemma_rows_bound(&lat, f, lat.ny as int, 0);
        assert(lat.ny * (lat.nx * 0) == 0) by (nonlinear_arith);
    }
}

/// Mean difference of the maps at a shift.
pub open spec fn shift_cost(g: Edges, l: Edges, dx: int, dy: int) -> Single {
    mean_cost(
        search_lattice(g).total(difference(g, l, dx, dy)),
        search_lattice(g).total(meeting(g, l, dx, dy)),
    )
}

/// Costs order by size.
impl Ranked for Single {
    open spec fn ranks(self, other: Single) -> bool {
        !crate::single::below(other, self)
    }

    proof fn ranks_total(a: Single, b: Single) {
    }

    proof fn ranks_transitive(a: Single, b: Single, c: Single) {
    }

    fn may_precede(&self, other: &Single) -> (b: bool) {
        if other.m == 0 || self.m == 0 {
            !(other.m < self.m)
        } else {
            !(other.e < self.e || (other.e == self.e && other.m < self.m))
        }
    }
}

/// The costs of the shifts `x0..x1` in row `y` that count, from left to right.
pub open spec fn row_costs(g: Edges, l: Edges, x0: int, x1: int, y: int) -> Seq<Single>
    decreases x1 - x0,
{
    if x0 >= x1 {
        Seq::empty()
    } else {
        let head = row_costs(g, l, x0, x1 - 1, y);
        if counts(g, l, x1 - 1, y) {
            head.push(shift_cost(g, l, x1 - 1, y))
        } else {
            head
        }
    }
}

/// The costs of the shifts in rows `y0..y1` that count, row by row.
pub open spec fn all_costs(g: Edges, l: Edges, x0: int, x1: int, y0: int, y1: int) -> Seq<Single>
    decreases y1 - y0,
{
    if y0 >= y1 {
        Seq::empty()
    } else {
        all_costs(g, l, x0, x1, y0, y1 - 1) + row_costs(g, l, x0, x1, y1 - 1)
    }
}

/// The best shift of a search: where the maps differ least, and what they typically differ by.
pub struct Fit {
    pub dx: i64,
    pub dy: i64,
    pub best: Single,
    pub typical: Single,
}

/// `(x, y)` comes before `(x1, y1)`, row by row.
pub open spec fn earlier(x: int, y: int, x1: int, y1: int) -> bool {
    y < y1 || (y == y1 && x < x1)
}

/// `(dx, dy)` is the first of the shifts before `(x1, y1)` that count and cost least.
pub open spec fn is_least(
    g: Edges,
    l: Edges,
    x0: int,
    x1: int,
    y0: int,
    xe: int,
    ye: int,
    dx: int,
    dy: int,
) -> bool {
    &&& x0 <= dx < x1
    &&& y0 <= dy
    &&& earlier(dx, dy, xe, ye)
    &&& counts(g, l, dx, dy)
    &&& forall|x: int, y: int|
        x0 <= x < x1 && y0 <= y && earlier(x, y, xe, ye) && #[trigger] counts(g, l, x, y) ==> {
            &&& !crate::single::below(shift_cost(g, l, x, y), shift_cost(g, l, dx, dy))
            &&& earlier(x, y, dx, dy) ==> crate::single::below(
                shift_cost(g, l, dx, dy),
                shift_cost(g, l, x, y),
            )
        }
}

/// What a search over shifts `x0..x1` by `y0..y1` finds: nothing where no shift counts; else the
/// first shift that costs least, its cost, and the middle one of all costs in order.
pub open spec fn is_found(
    g: Edges,
    l: Edges,
    x0: int,
    x1: int,
    y0: int,
    y1: int,
    fit: Option<Fit>,
) -> bool {
    let costs = all_costs(g, l, x0, x1, y0, y1);
    match fit {
        None => forall|x: int, y: int|
            x0 <= x < x1 && y0 <= y < y1 ==> !#[trigger] counts(g, l, x, y),
        Some(f) => {
            &&& is_least(g, l, x0, x1, y0, x0, y1, f.dx as int, f.dy as int)
            &&& f.best == shift_cost(g, l, f.dx as int, f.dy as int)
            &&& exists|t: Seq<Single>|
                #[trigger] crate::order::is_sorting(costs, t) && f.typical == t[costs.len() as int
                    / 2]
        },
    }
}

/// Tries all shifts `x0..x1` by `y0..y1` (see [`is_found`]).
pub fn search(g: &EdgeMap, l: &EdgeMap, x0: i64, x1: i64, y0: i64, y1: i64) -> (fit: Option<Fit>)
    requires
        g@.wf(),
        l@.wf(),
        -0x4_0000_0000_0000 <= x0 <= x1 <= 0x4_0000_0000_0000,
        -0x4_0000_0000_0000 <= y0 <= y1 <= 0x4_0000_0000_0000,
    ensures
        is_found(g@, l@, x0 as int, x1 as int, y0 as int, y1 as int, fit),
        fit matches Some(f) ==> f.best.wf() && f.typical.wf() && -300 <= f.typical.e <= 300,
{
    let ghost gg = g@;
    let ghost ll = l@;
    let lat = Lattice { x0: 0, nx: (g.w + 1) / 2, y0: 0, ny: (g.h + 1) / 2, step: 2 };
    assert(lat == search_lattice(gg));
    let mw: usize = if g.w < l.w {
        g.w
    } else {
        l.w
    };
    let mh: usize = if g.h < l.h {
        g.h
    } else {
        l.h
    };
    let a: u64 = ((mw + 1) / 2) as u64;
    let b: u64 = ((mh + 1) / 2) as u64;
    assert(a * b <= 0x100_0000_0000) by (nonlinear_arith)
        requires
            a <= 0x10_0000,
            b <= 0x10_0000,
    ;
    assert(0 <= a * b) by (nonlinear_arith);
    let need: u64 = a * b / 2;
    let mut costs: Vec<Single> = Vec::new();
    let mut found: Option<(i64, i64, Single)> = None;
    let mut dy: i64 = y0;
    while dy < y1
        invariant
            g@ == gg,
            l@ == ll,
            gg.wf(),
            ll.wf(),
            -0x4_0000_0000_0000 <= x0 <= x1 <= 0x4_0000_0000_0000,
            -0x4_0000_0000_0000 <= y0 <= dy <= y1 <= 0x4_0000_0000_0000,
            lat == search_lattice(gg),
            need == sampled(shorter(gg.w, ll.w), 2) * sampled(shorter(gg.h, ll.h), 2) / 2,
            costs@ == all_costs(gg, ll, x0 as int, x1 as int, y0 as int, dy as int),
            forall|i: int|
                0 <= i < costs@.len() ==> (#[trigger] costs@[i]).wf() && -300 <= costs@[i].e
                    <= 300,
            found is None <==> costs@.len() == 0,
            found is None ==> forall|x: int, y: int|
                x0 <= x < x1 && y0 <= y && earlier(x, y, x0 as int, dy as int)
                    ==> !#[trigger] counts(gg, ll, x, y),
            found matches Some(f) ==> is_least(
                gg,
                ll,
                x0 as int,
                x1 as int,
                y0 as int,
                x0 as int,
                dy as int,
                f.0 as int,
                f.1 as int,
            ) && f.2 == shift_cost(gg, ll, f.0 as int, f.1 as int) && f.2.wf(),
        decreases y1 - dy,
    {
        let ghost done = costs@;
        let mut dx: i64 = x0;
        assert(costs@ =~= done + row_costs(gg, ll, x0 as int, x0 as int, dy as int));
        while dx < x1
            invariant
                g@ == gg,
                l@ == ll,
                gg.wf(),
                ll.wf(),
                -0x4_0000_0000_0000 <= x0 <= dx <= x1 <= 0x4_0000_0000_0000,
                -0x4_0000_0000_0000 <= y0 <= dy < y1 <= 0x4_0000_0000_0000,
                lat == search_lattice(gg),
                need == sampled(shorter(gg.w, ll.w), 2) * sampled(shorter(gg.h, ll.h), 2) / 2,
                costs@ == done + row_costs(gg, ll, x0 as int, dx as int, dy as int),
                forall|i: int|
                    0 <= i < costs@.len() ==> (#[trigger] costs@[i]).wf() && -300 <= costs@[i].e
                        <= 300,
                found is None <==> costs@.len() == 0,
                found is None ==> forall|x: int, y: int|
                    x0 <= x < x1 && y0 <= y && earlier(x, y, dx as int, dy as int)
                        ==> !#[trigger] counts(gg, ll, x, y),
                found matches Some(f) ==> is_least(
                    gg,
                    ll,
                    x0 as int,
                    x1 as int,
                    y0 as int,
                    dx as int,
                    dy as int,
                    f.0 as int,
                    f.1 as int,
                ) && f.2 == shift_cost(gg, ll, f.0 as int, f.1 as int) && f.2.wf(),
            decreases x1 - dx,
        {
            let (sum, n) = overlap(g, l, dx, dy, &lat);
            if n >= need && n > 0 {
                let avg = mean_of(sum, n);
                assert(counts(gg, ll, dx as int, dy as int));
                costs.push(avg);
                let better: bool = match found {
                    None => true,
                    Some(f) => avg.less(f.2),
                };
                if better {
                    found = Some((dx, dy, avg));
                }
            } else {
                assert(!counts(gg, ll, dx as int, dy as int));
            }
            dx += 1;
            assert(costs@ =~= done + row_costs(gg, ll, x0 as int, dx as int, dy as int));
        }
        dy += 1;
        proof {
            if found is Some {
                let f = found->0;
                assert(is_least(
                    gg,
                    ll,
                    x0 as int,
                    x1 as int,
                    y0 as int,
                    x0 as int,
                    dy as int,
                    f.0 as int,
                    f.1 as int,
                ));
            }
        }
    }
    match found {
        None => None,
        Some(f) => {
            let ghost all = costs@;
            let n: usize = costs.len();
            let sorted = sort(costs);
            proof {
                all.to_multiset_ensures();
                sorted@.to_multiset_ensures();
                assert(sorted@.len() == all.len());
                let v = sorted@[n as int / 2];
                assert(sorted@.contains(v));
                assert(all.to_multiset().count(v) > 0);
                assert(all.contains(v));
            }
            let typical = sorted[n / 2];
            Some(Fit { dx: f.0, dy: f.1, best: f.2, typical })
        },
    }
}

/// Edge strength at a pixel, 0 off the map.
pub open spec fn strength(g: Edges) -> spec_fn(int, int) -> int {
    |x: int, y: int|
        if g.has(x, y) {
            g.at(x, y) as int
        } else {
            0
        }
}

/// Every third pixel of the square of half side `half` round `(cx, cy)`.
pub open spec fn patch_lattice(cx: int, cy: int, half: int) -> Lattice {
    Lattice {
        x0: (cx - half) as i64,
        nx: sampled(2 * half, 3) as usize,
        y0: (cy - half) as i64,
        ny: sampled(2 * half, 3) as usize,
        step: 3,
    }
}

/// Edge strength of a square.
pub open spec fn energy(g: Edges, cx: int, cy: int, half: int) -> int {
    patch_lattice(cx, cy, half).total(strength(g))
}

/// Sum of the edge strength over a lattice.
fn strength_over(g: &EdgeMap, lat: &Lattice) -> (r: u64)
    requires
        g@.wf(),
        lat.wf(),
    ensures
        r == lat.total(strength(g@)),
{
    let ghost f = strength(g@);
    let glen: usize = g.d.len();
    let mut sum: u64 = 0;
    let mut j: usize = 0;
    let mut y: i64 = lat.y0;
    proof {
        assert(0 * lat.step == 0) by (nonlinear_arith);
    }
    while j < lat.ny
        invariant
            g@.wf(),
            glen == g.d@.len(),
            lat.wf(),
            f == strength(g@),
            j <= lat.ny,
            y == lat.y0 + j * lat.step,
            sum == lat.rows_total(f, j as int),
        decreases lat.ny - j,
    {
        let ghost s0 = sum as int;
        let ghost ji = j as int;
        proof {
            assert((j + 1) * lat.step == j * lat.step + lat.step) by (nonlinear_arith);
            assert(0 <= (j + 1) * lat.step <= 0x10_0000 * 0x10_0000) by (nonlinear_arith)
                requires
                    0 <= j < 0x10_0000,
                    0 <= lat.step <= 0x10_0000,
            ;
            lemma_rows_bound(lat, f, ji, 255);
            assert(ji * (lat.nx * 255) <= 0x10_0000 * (0x10_0000 * 255)) by (nonlinear_arith)
                requires
                    0 <= ji <= 0x10_0000,
                    0 <= lat.nx <= 0x10_0000,
            ;
        }
        let mut i: usize = 0;
        let mut x: i64 = lat.x0;
        while i < lat.nx
            invariant
                g@.wf(),
                glen == g.d@.len(),
                lat.wf(),
                f == strength(g@),
                ji == j,
                j < lat.ny,
                y == lat.y0 + j * lat.step,
                i <= lat.nx,
                x == lat.x0 + i * lat.step,
                0 <= s0 <= 0x10_0000 * (0x10_0000 * 255),
                sum == s0 + lat.row_total(f, ji, i as int),
            decreases lat.nx - i,
        {
            proof {
                assert((i + 1) * lat.step == i * lat.step + lat.step) by (nonlinear_arith);
                assert(0 <= (i + 1) * lat.step <= 0x10_0000 * 0x10_0000) by (nonlinear_arith)
                    requires
                        0 <= i < 0x10_0000,
                        0 <= lat.step <= 0x10_0000,
                ;
                lemma_row_bound(lat, f, ji, i as int, 255);
            }
            let ghost sum1 = sum as int;
            if y >= 0 && y < g.h as i64 && x >= 0 && x < g.w as i64 {
                proof {
                    grid::lemma_cell_bound(x as int, y as int, g@.w, g@.h);
                }
                sum = sum + g.d[y as usize * g.w + x as usize] as u64;
            }
            assert(sum == sum1 + f(x as int, y as int));
            x = x + lat.step;
            i += 1;
        }
        y = y + lat.step;
        j += 1;
    }
    sum
}

/// Distance between the centres that are tried.
pub open spec fn patch_stride(half: int) -> int {
    if half / 2 < 8 {
        8
    } else {
        half / 2
    }
}

/// Leftmost centre: where the strip starts, and half a square further.
pub open spec fn patch_left(w: int, half: int, num: int) -> int {
    crate::single::floor(
        crate::single::product(
            crate::single::nearest(w, 1),
            crate::single::nearest(num, 100),
        ),
    ) + half
}

/// Rightmost centre: where the strip ends, and half a square less.
pub open spec fn patch_right(w: int, half: int, num: int) -> int {
    crate::single::floor(
        crate::single::product(
            crate::single::nearest(w, 1),
            crate::single::nearest(num, 100),
        ),
    ) - half
}

/// The centre in step `i` of line `j` is tried.
pub open spec fn is_centre(x0: int, x1: int, half: int, h: int, i: int, j: int) -> bool {
    0 <= i && 0 <= j && x0 + i * patch_stride(half) <= x1 && half + j * patch_stride(half) + half
        < h
}

/// Energy of the square whose centre is step `i` of line `j`.
pub open spec fn energy_at(g: Edges, x0: int, half: int, i: int, j: int) -> int {
    energy(g, x0 + i * patch_stride(half), half + j * patch_stride(half), half)
}

/// Step `i` of line `j` is the first centre with the most energy among those before step `ie` of
/// line `je`.
pub open spec fn is_strongest(
    g: Edges,
    x0: int,
    x1: int,
    half: int,
    ie: int,
    je: int,
    i: int,
    j: int,
) -> bool {
    &&& is_centre(x0, x1, half, g.h, i, j)
    &&& earlier(i, j, ie, je)
    &&& forall|a: int, b: int| #[trigger]
        is_centre(x0, x1, half, g.h, a, b) && earlier(a, b, ie, je) ==> {
            &&& energy_at(g, x0, half, a, b) <= energy_at(g, x0, half, i, j)
            &&& earlier(a, b, i, j) ==> energy_at(g, x0, half, a, b) < energy_at(
                g,
                x0,
                half,
                i,
                j,
            )
        }
}

/// Energy that a square needs to be of use.
pub open spec fn energy_floor(half: int) -> int {
    (2 * half / 3) * (2 * half / 3) * 12
}

/// What `pick_patch` finds: the first centre with the most energy, if that exceeds the floor.
pub open spec fn is_patch(
    g: Edges,
    half: int,
    lo: int,
    hi: int,
    found: Option<(i64, i64)>,
) -> bool {
    let x0 = patch_left(g.w, half, lo);
    let x1 = patch_right(g.w, half, hi);
    match found {
        None => x1 <= x0 || forall|i: int, j: int| #[trigger]
            is_centre(x0, x1, half, g.h, i, j) ==> energy_at(g, x0, half, i, j) <= energy_floor(
                half,
            ),
        Some(c) => x0 < x1 && exists|i: int, j: int, je: int| #[trigger]
            is_strongest(g, x0, x1, half, 0, je, i, j) && !is_centre(x0, x1, half, g.h, 0, je)
                && c.0 == x0 + i * patch_stride(half) && c.1 == half + j * patch_stride(half)
                && energy_at(g, x0, half, i, j) > energy_floor(half),
    }
}

/// The square with the most edges whose centre lies in the strip from `lo` to `hi` percent of the
/// width; `None` when even that has too few.
pub fn pick_patch(g: &EdgeMap, half: i64, lo: u64, hi: u64) -> (out: Option<(i64, i64)>)
    requires
        g@.wf(),
        1 <= half <= 0x1_0000,
        1 <= lo <= 100,
        1 <= hi <= 100,
    ensures
        is_patch(g@, half as int, lo as int, hi as int, out),
        out matches Some(c) ==> -0x10_0000 <= c.0 <= 0x800_0000 && 0 <= c.1 <= 0x20_0000,
{
    let ghost gg = g@;
    let ghost hf = half as int;
    let wide = Single::of(g.w as u64);
    let a = ratio(lo, 100);
    let b = ratio(hi, 100);
    proof {
        vstd::arithmetic::power2::lemma2_to64();
        if gg.w > 0 {
            assert(gg.w * crate::single::up(3) == gg.w * 8);
            crate::single::lemma_exponent_upto(gg.w, 1, wide, -3);
        }
    }
    let left = wide.times(a);
    let right = wide.times(b);
    let x0: i64 = left.floor() as i64 + half;
    let x1: i64 = right.floor() as i64 - half;
    assert(x0 == patch_left(gg.w, hf, lo as int));
    assert(x1 == patch_right(gg.w, hf, hi as int));
    if x1 <= x0 {
        return None;
    }
    let stride: i64 = if half / 2 < 8 {
        8
    } else {
        half / 2
    };
    let n: usize = ((2 * half + 2) / 3) as usize;
    let side: u64 = (2 * half / 3) as u64;
    assert(side * side <= 0x2_0000 * 0x2_0000) by (nonlinear_arith)
        requires
            side <= 0x2_0000,
    ;
    assert(0 <= side * side) by (nonlinear_arith);
    let floor: u64 = side * side * 12;
    assert(floor == energy_floor(hf));
    let mut best: Option<(i64, i64, u64)> = None;
    let ghost mut bi: int = 0;
    let ghost mut bj: int = 0;
    let ghost mut j: int = 0;
    let mut cy: i64 = half;
    proof {
        assert(0 * (stride as int) == 0) by (nonlinear_arith);
    }
    while cy + half < g.h as i64
        invariant
            g@ == gg,
            gg.wf(),
            hf == half,
            1 <= half <= 0x1_0000,
            x0 < x1,
            -0x10_0000 <= x0,
            x1 <= 0x800_0000,
            stride == patch_stride(hf),
            8 <= stride <= 0x1_0000,
            n == sampled(2 * hf, 3),
            j >= 0,
            cy == half + j * stride,
            half <= cy <= 0x20_0000,
            best matches Some(f) ==> -0x10_0000 <= f.0 <= 0x800_0000 && 0 <= f.1 <= 0x20_0000,
            best matches Some(f) ==> is_strongest(
                gg,
                x0 as int,
                x1 as int,
                hf,
                0,
                j,
                bi,
                bj,
            ) && f.0 == x0 + bi * stride && f.1 == half + bj * stride && f.2 == energy_at(
                gg,
                x0 as int,
                hf,
                bi,
                bj,
            ),
            best is None ==> forall|a: int, b: int| #[trigger]
                is_centre(x0 as int, x1 as int, hf, gg.h, a, b) ==> !earlier(a, b, 0, j),
        decreases 0x20_0000 - cy,
    {
        let mut cx: i64 = x0;
        let ghost mut i: int = 0;
        proof {
            assert(0 * (stride as int) == 0) by (nonlinear_arith);
        }
        while cx <= x1
            invariant
                g@ == gg,
                gg.wf(),
                hf == half,
                1 <= half <= 0x1_0000,
                x0 < x1,
                -0x10_0000 <= x0 <= cx,
                x1 <= 0x800_0000,
                cx <= x1 + stride,
                stride == patch_stride(hf),
                8 <= stride <= 0x1_0000,
                n == sampled(2 * hf, 3),
                j >= 0,
                i >= 0,
                cx == x0 + i * stride,
                cy == half + j * stride,
                half <= cy <= 0x20_0000,
                cy + half < gg.h,
                best matches Some(f) ==> -0x10_0000 <= f.0 <= 0x800_0000 && 0 <= f.1
                    <= 0x20_0000,
                best matches Some(f) ==> is_strongest(
                    gg,
                    x0 as int,
                    x1 as int,
                    hf,
                    i,
                    j,
                    bi,
                    bj,
                ) && f.0 == x0 + bi * stride && f.1 == half + bj * stride && f.2 == energy_at(
                    gg,
                    x0 as int,
                    hf,
                    bi,
                    bj,
                ),
                best is None ==> forall|a: int, b: int| #[trigger]
                    is_centre(x0 as int, x1 as int, hf, gg.h, a, b) ==> !earlier(a, b, i, j),
            decreases x1 + stride - cx,
        {
            let lat = Lattice { x0: cx - half, nx: n, y0: cy - half, ny: n, step: 3 };
            assert(lat == patch_lattice(cx as int, cy as int, hf));
            let e: u64 = strength_over(g, &lat);
            assert(e == energy_at(gg, x0 as int, hf, i, j));
            assert(is_centre(x0 as int, x1 as int, hf, gg.h, i, j));
            let better: bool = match best {
                None => true,
                Some(f) => e > f.2,
            };
            if better {
                best = Some((cx, cy, e));
                proof {
                    bi = i;
                    bj = j;
                }
            }
            proof {
                assert((i + 1) * stride == i * stride + stride) by (nonlinear_arith);
                i = i + 1;
            }
            cx += stride;
        }
        proof {
            assert forall|a: int, b: int| #[trigger]
                is_centre(x0 as int, x1 as int, hf, gg.h, a, b) && earlier(a, b, 0, j
                + 1) implies earlier(a, b, i, j) by {
                if b == j && a >= i {
                    assert(a * stride >= i * stride) by (nonlinear_arith)
                        requires
                            a >= i,
                            stride >= 8,
                    ;
                }
            }
            assert((j + 1) * stride == j * stride + stride) by (nonlinear_arith);
            j = j + 1;
        }
        cy += stride;
    }
    proof {
        assert forall|a: int, b: int| #[trigger]
            is_centre(x0 as int, x1 as int, hf, gg.h, a, b) implies earlier(a, b, 0, j) by {
            if b >= j {
                assert(b * stride >= j * stride) by (nonlinear_arith)
                    requires
                        b >= j,
                        stride >= 8,
                ;
            }
        }
        assert(!is_centre(x0 as int, x1 as int, hf, gg.h, 0, j));
    }
    match best {
        None => None,
        Some(f) => if f.2 > floor {
            proof {
                assert(is_strongest(gg, x0 as int, x1 as int, hf, 0, j, bi, bj));
            }
            Some((f.0, f.1))
        } else {
            None
        },
    }
}

/// Every second pixel of the square of half side `half` round a centre.
pub open spec fn square_lattice(cx: int, cy: int, half: int) -> Lattice {
    Lattice {
        x0: (cx - half) as i64,
        nx: half as usize,
        y0: (cy - half) as i64,
        ny: half as usize,
        step: 2,
    }
}

/// Mean difference over the square at a shift; `None` where the maps do not meet on it.
pub open spec fn square_cost(
    g: Edges,
    l: Edges,
    cx: int,
    cy: int,
    half: int,
    dx: int,
    dy: int,
) -> Option<Single> {
    let lat = square_lattice(cx, cy, half);
    let n = lat.total(meeting(g, l, dx, dy));
    if n == 0 {
        None
    } else {
        Some(mean_cost(lat.total(difference(g, l, dx, dy)), n))
    }
}

/// `a` is a smaller cost than `b`; no cost at all is larger than any.
pub open spec fn cheaper(a: Option<Single>, b: Option<Single>) -> bool {
    match (a, b) {
        (None, _) => false,
        (Some(_), None) => true,
        (Some(x), Some(y)) => crate::single::below(x, y),
    }
}

/// A square's own shift, with its cost and those of the four shifts beside it.
pub struct PatchFit {
    pub dx: i64,
    pub dy: i64,
    pub best: Single,
    pub left: Option<Single>,
    pub right: Option<Single>,
    pub up: Option<Single>,
    pub down: Option<Single>,
}

impl PatchFit {
    /// The costs are numbers.
    pub open spec fn wf(&self) -> bool {
        &&& self.best.wf()
        &&& self.left matches Some(v) ==> v.wf()
        &&& self.right matches Some(v) ==> v.wf()
        &&& self.up matches Some(v) ==> v.wf()
        &&& self.down matches Some(v) ==> v.wf()
    }
}

/// Shift `(dx, dy)` has a cost, and is the first of the least among the shifts from `(x0, y0)` to
/// before `(xe, ye)`.
pub open spec fn is_cheapest(
    g: Edges,
    l: Edges,
    cx: int,
    cy: int,
    half: int,
    x0: int,
    x1: int,
    y0: int,
    xe: int,
    ye: int,
    dx: int,
    dy: int,
) -> bool {
    let best = square_cost(g, l, cx, cy, half, dx, dy);
    &&& x0 <= dx < x1
    &&& y0 <= dy
    &&& earlier(dx, dy, xe, ye)
    &&& best is Some
    &&& forall|x: int, y: int|
        x0 <= x < x1 && y0 <= y && #[trigger] earlier(x, y, xe, ye) ==> {
            let c = square_cost(g, l, cx, cy, half, x, y);
            !cheaper(c, best) && (earlier(x, y, dx, dy) ==> cheaper(best, c))
        }
}

/// What `patch_shift` finds among the shifts at most `range` away from `(sx, sy)`: the first of
/// the least cost, unless that lies on the rim of what was tried or nothing has a cost.
pub open spec fn is_patch_fit(
    g: Edges,
    l: Edges,
    cx: int,
    cy: int,
    half: int,
    sx: int,
    sy: int,
    range: int,
    fit: Option<PatchFit>,
) -> bool {
    let x0 = sx - range;
    let x1 = sx + range + 1;
    let y0 = sy - range;
    let y1 = sy + range + 1;
    match fit {
        None => (forall|x: int, y: int|
            x0 <= x < x1 && y0 <= y && #[trigger] earlier(x, y, x0, y1) ==> square_cost(
                g,
                l,
                cx,
                cy,
                half,
                x,
                y,
            ) is None) || exists|dx: int, dy: int| #[trigger]
            is_cheapest(g, l, cx, cy, half, x0, x1, y0, x0, y1, dx, dy) && (dx == x0 || dy == y0
                || dx == x1 - 1 || dy == y1 - 1),
        Some(f) => {
            let dx = f.dx as int;
            let dy = f.dy as int;
            &&& is_cheapest(g, l, cx, cy, half, x0, x1, y0, x0, y1, dx, dy)
            &&& x0 < dx < x1 - 1
            &&& y0 < dy < y1 - 1
            &&& square_cost(g, l, cx, cy, half, dx, dy) == Some(f.best)
            &&& square_cost(g, l, cx, cy, half, dx - 1, dy) == f.left
            &&& square_cost(g, l, cx, cy, half, dx + 1, dy) == f.right
            &&& square_cost(g, l, cx, cy, half, dx, dy - 1) == f.up
            &&& square_cost(g, l, cx, cy, half, dx, dy + 1) == f.down
        },
    }
}

fn cost_of(g: &EdgeMap, l: &EdgeMap, lat: &Lattice, dx: i64, dy: i64) -> (c: Option<Single>)
    requires
        g@.wf(),
        l@.wf(),
        lat.wf(),
        -0x4_0000_0000_0000 <= dx <= 0x4_0000_0000_0000,
        -0x4_0000_0000_0000 <= dy <= 0x4_0000_0000_0000,
    ensures
        c == (if lat.total(meeting(g@, l@, dx as int, dy as int)) == 0 {
            None
        } else {
            Some(
                mean_cost(
                    lat.total(difference(g@, l@, dx as int, dy as int)),
                    lat.total(meeting(g@, l@, dx as int, dy as int)),
                ),
            )
        }),
        c matches Some(v) ==> v.wf(),
{
    let (sum, n) = overlap(g, l, dx, dy, lat);
    if n == 0 {
        None
    } else {
        Some(mean_of(sum, n))
    }
}

/// How far one square of the ground is shifted in the layer, looking at most `range` pixels round
/// `(sx, sy)` (see [`is_patch_fit`]).
pub fn patch_shift(
    g: &EdgeMap,
    l: &EdgeMap,
    cx: i64,
    cy: i64,
    half: i64,
    sx: i64,
    sy: i64,
    range: i64,
) -> (fit: Option<PatchFit>)
    requires
        g@.wf(),
        l@.wf(),
        1 <= half <= 0x1_0000,
        -0x800_0000 <= cx <= 0x800_0000,
        -0x800_0000 <= cy <= 0x800_0000,
        -0x2_0000_0000_0000 <= sx <= 0x2_0000_0000_0000,
        -0x2_0000_0000_0000 <= sy <= 0x2_0000_0000_0000,
        0 <= range <= 0x1_0000_0000_0100,
    ensures
        is_patch_fit(
            g@,
            l@,
            cx as int,
            cy as int,
            half as int,
            sx as int,
            sy as int,
            range as int,
            fit,
        ),
        fit matches Some(f) ==> f.wf() && magnitude(f.dx as int) <= 0x4_0000_0000_0000 && magnitude(
            f.dy as int,
        ) <= 0x4_0000_0000_0000,
{
    let ghost gg = g@;
    let ghost ll = l@;
    let ghost cxi = cx as int;
    let ghost cyi = cy as int;
    let ghost hf = half as int;
    let lat = Lattice { x0: cx - half, nx: half as usize, y0: cy - half, ny: half as usize, step: 2 };
    assert(lat == square_lattice(cxi, cyi, hf));
    let x0: i64 = sx - range;
    let x1: i64 = sx + range + 1;
    let y0: i64 = sy - range;
    let y1: i64 = sy + range + 1;
    let mut found: Option<(i64, i64, Single)> = None;
    let mut dy: i64 = y0;
    while dy < y1
        invariant
            g@ == gg,
            l@ == ll,
            gg.wf(),
            ll.wf(),
            lat.wf(),
            lat == square_lattice(cxi, cyi, hf),
            -0x4_0000_0000_0000 <= x0 < x1 <= 0x4_0000_0000_0000,
            -0x4_0000_0000_0000 <= y0 <= dy <= y1 <= 0x4_0000_0000_0000,
            found is None ==> forall|x: int, y: int|
                x0 <= x < x1 && y0 <= y && #[trigger] earlier(x, y, x0 as int, dy as int)
                    ==> square_cost(gg, ll, cxi, cyi, hf, x, y) is None,
            found matches Some(f) ==> is_cheapest(
                gg,
                ll,
                cxi,
                cyi,
                hf,
                x0 as int,
                x1 as int,
                y0 as int,
                x0 as int,
                dy as int,
                f.0 as int,
                f.1 as int,
            ) && square_cost(gg, ll, cxi, cyi, hf, f.0 as int, f.1 as int) == Some(f.2)
                && f.2.wf(),
        decreases y1 - dy,
    {
        let mut dx: i64 = x0;
        while dx < x1
            invariant
                g@ == gg,
                l@ == ll,
                gg.wf(),
                ll.wf(),
                lat.wf(),
                lat == square_lattice(cxi, cyi, hf),
                -0x4_0000_0000_0000 <= x0 <= dx <= x1 <= 0x4_0000_0000_0000,
                -0x4_0000_0000_0000 <= y0 <= dy < y1 <= 0x4_0000_0000_0000,
                found is None ==> forall|x: int, y: int|
                    x0 <= x < x1 && y0 <= y && #[trigger] earlier(x, y, dx as int, dy as int)
                        ==> square_cost(gg, ll, cxi, cyi, hf, x, y) is None,
                found matches Some(f) ==> is_cheapest(
                    gg,
                    ll,
                    cxi,
                    cyi,
                    hf,
                    x0 as int,
                    x1 as int,
                    y0 as int,
                    dx as int,
                    dy as int,
                    f.0 as int,
                    f.1 as int,
                ) && square_cost(gg, ll, cxi, cyi, hf, f.0 as int, f.1 as int) == Some(f.2)
                    && f.2.wf(),
            decreases x1 - dx,
        {
            let c = cost_of(g, l, &lat, dx, dy);
            assert(c == square_cost(gg, ll, cxi, cyi, hf, dx as int, dy as int));
            let better: bool = match (c, found) {
                (None, _) => false,
                (Some(_), None) => true,
                (Some(v), Some(f)) => v.less(f.2),
            };
            let ghost was = found;
            if let Some(v) = c {
                if better {
                    found = Some((dx, dy, v));
                }
            }
            proof {
                let xn = dx + 1;
                assert forall|x: int, y: int| #[trigger]
                    earlier(x, y, xn, dy as int) implies earlier(x, y, dx as int, dy as int) || (x
                    == dx && y == dy) by {}
                if was is Some {
                    let f = was->0;
                    assert(earlier(f.0 as int, f.1 as int, dx as int, dy as int));
                }
            }
            dx += 1;
        }
        proof {
            let yn = dy + 1;
            assert forall|x: int, y: int|
                x0 <= x < x1 && y0 <= y && #[trigger] earlier(x, y, x0 as int, yn) implies earlier(
                x,
                y,
                dx as int,
                dy as int,
            ) by {}
        }
        dy += 1;
    }
    match found {
        None => None,
        Some(f) => {
            if f.0 == x0 || f.1 == y0 || f.0 + 1 >= x1 || f.1 + 1 >= y1 {
                proof {
                    assert(is_cheapest(
                        gg,
                        ll,
                        cxi,
                        cyi,
                        hf,
                        x0 as int,
                        x1 as int,
                        y0 as int,
                        x0 as int,
                        y1 as int,
                        f.0 as int,
                        f.1 as int,
                    ));
                }
                return None;
            }
            let left = cost_of(g, l, &lat, f.0 - 1, f.1);
            let right = cost_of(g, l, &lat, f.0 + 1, f.1);
            let up = cost_of(g, l, &lat, f.0, f.1 - 1);
            let down = cost_of(g, l, &lat, f.0, f.1 + 1);
            Some(PatchFit { dx: f.0, dy: f.1, best: f.2, left, right, up, down })
        },
    }
}

/// Long edge at which a shift is first looked for.
pub const ALIGN_COARSE: u32 = 160;

/// Long edge at which a shift is refined.
pub const ALIGN_FINE: u32 = 640;

/// Long edge at which a rotation is looked for.
pub const ALIGN_ROT: u32 = 1600;

/// A shift of a layer against the ground, in pixels of a copy of the ground `w` by `h` large.
pub struct Shift {
    pub dx: i64,
    pub dy: i64,
    pub w: usize,
    pub h: usize,
    /// The shift was refined on a larger copy.
    pub fine: bool,
}

/// `d` times `k`, rounded to an integer, halves away from zero.
pub open spec fn stretched(d: int, k: Single) -> int {
    if d < 0 {
        -crate::scale::scaled(-d, k)
    } else {
        crate::scale::scaled(d, k)
    }
}

/// How far the coarse search looks: 14% of the long edge, at least 6 pixels.
pub open spec fn reach(e: Edges) -> int {
    crate::scale::at_least(crate::scale::portion(crate::scale::longer(e.w, e.h), 14, 100), 6)
}

/// The coarse fit is to be trusted: at least a tenth better than is typical, and not at the rim of
/// what was tried.
pub open spec fn is_trusted(f: Fit, r: int) -> bool {
    &&& crate::single::below(
        f.best,
        crate::single::product(f.typical, crate::single::nearest(9, 10)),
    )
    &&& magnitude(f.dx as int) < r
    &&& magnitude(f.dy as int) < r
}

/// What the coarse search on the edges of ground and layer says: a fit to be trusted, or none.
pub open spec fn is_coarse(g: Edges, l: Edges, fit: Option<Fit>) -> bool {
    let r = reach(g);
    exists|f: Option<Fit>| #[trigger]
        is_found(g, l, -r, r + 1, -r, r + 1, f) && match fit {
            Some(c) => f == Some(c) && is_trusted(c, r),
            None => f is None || !is_trusted(f->0, r),
        }
}

/// Searches all shifts up to the coarse reach and keeps a fit to be trusted (see [`is_coarse`]).
pub fn coarse_fit(g: &EdgeMap, l: &EdgeMap) -> (fit: Option<Fit>)
    requires
        g@.wf(),
        l@.wf(),
    ensures
        is_coarse(g@, l@, fit),
        fit matches Some(f) ==> magnitude(f.dx as int) <= 0x100_0000 && magnitude(f.dy as int)
            <= 0x100_0000,
{
    let long: usize = if g.w < g.h {
        g.h
    } else {
        g.w
    };
    let side = Single::of(long as u64);
    let part = ratio(14, 100);
    proof {
        vstd::arithmetic::power2::lemma2_to64();
        assert(14 * crate::single::up(26) == 14 * 0x400_0000);
        crate::single::lemma_exponent_upto(14, 100, part, -26);
        if long > 0 {
            assert(long * crate::single::up(3) == long * 8);
            crate::single::lemma_exponent_upto(long as int, 1, side, -3);
        }
    }
    let p: u64 = side.times(part).round();
    let r: i64 = if p < 6 {
        6
    } else {
        p as i64
    };
    assert(r == reach(g@));
    let found = search(g, l, -r, r + 1, -r, r + 1);
    match found {
        None => {
            assert(is_found(g@, l@, -r as int, r + 1, -r as int, r + 1, None::<Fit>));
            None
        },
        Some(f) => {
            let ghost whole = Some(f);
            assert(is_found(g@, l@, -r as int, r + 1, -r as int, r + 1, whole));
            let bar = f.typical.times(ratio(9, 10));
            if !f.best.less(bar) || f.dx <= -r || f.dx >= r || f.dy <= -r || f.dy >= r {
                None
            } else {
                Some(f)
            }
        },
    }
}

/// What the fine search says, starting from the coarse shift `(dx, dy)` found on a copy `cw`
/// pixels wide: the best shift near it, and no shift where none counts.
pub open spec fn is_refined(
    g: Edges,
    l: Edges,
    cw: int,
    dx: int,
    dy: int,
    fx: int,
    fy: int,
) -> bool {
    let k = crate::single::quotient(
        crate::single::nearest(g.w, 1),
        crate::single::nearest(cw, 1),
    );
    let sx = stretched(dx, k);
    let sy = stretched(dy, k);
    let step = crate::single::ceil(k) + 1;
    exists|f: Option<Fit>| #[trigger]
        is_found(g, l, sx - step, sx + step + 1, sy - step, sy + step + 1, f) && match f {
            Some(c) => fx == c.dx && fy == c.dy,
            None => fx == 0 && fy == 0,
        }
}

pub fn stretch(d: i64, k: Single) -> (r: i64)
    requires
        -0x100_0000 <= d <= 0x100_0000,
        k.wf(),
        -300 <= k.e <= -4,
    ensures
        r == stretched(d as int, k),
        -0x1_0000_0000_0000 <= r <= 0x1_0000_0000_0000,
{
    let n: u64 = if d < 0 {
        (-d) as u64
    } else {
        d as u64
    };
    let s = Single::of(n);
    proof {
        vstd::arithmetic::power2::lemma2_to64();
        if n > 0 {
            assert(n * crate::single::up(-1) == n);
            crate::single::lemma_exponent_upto(n as int, 1, s, 1);
        }
    }
    let v: u64 = s.times(k).round();
    if d < 0 {
        -(v as i64)
    } else {
        v as i64
    }
}

/// Refines a coarse shift on larger copies of ground and layer (see [`is_refined`]).
pub fn refine(g: &EdgeMap, l: &EdgeMap, cw: usize, dx: i64, dy: i64) -> (r: (i64, i64))
    requires
        g@.wf(),
        l@.wf(),
        g@.w >= 1,
        24 <= cw <= 0x10_0000,
        magnitude(dx as int) <= 0x100_0000,
        magnitude(dy as int) <= 0x100_0000,
    ensures
        is_refined(g@, l@, cw as int, dx as int, dy as int, r.0 as int, r.1 as int),
        magnitude(r.0 as int) <= 0x100_0000,
        magnitude(r.1 as int) <= 0x100_0000,
{
    let a = Single::of(g.w as u64);
    let b = Single::of(cw as u64);
    proof {
        vstd::arithmetic::power2::lemma2_to64();
        assert(cw * crate::single::up(19) == cw * 0x8_0000);
        crate::single::lemma_exponent_from(cw as int, 1, b, -19);
        assert(g.w * crate::single::up(3) == g.w * 8);
        crate::single::lemma_exponent_upto(g.w as int, 1, a, -3);
    }
    let k = a.over(b);
    let sx: i64 = stretch(dx, k);
    let sy: i64 = stretch(dy, k);
    let step: i64 = k.ceil() as i64 + 1;
    let found = search(g, l, sx - step, sx + step + 1, sy - step, sy + step + 1);
    assert(is_found(
        g@,
        l@,
        sx - step,
        sx + step + 1,
        sy - step,
        sy + step + 1,
        found,
    ));
    match found {
        None => (0, 0),
        Some(f) => {
            proof {
                lemma_counts_near(g@, l@, f.dx as int, f.dy as int);
            }
            (f.dx, f.dy)
        },
    }
}

/// The factor at which a ground picture is brought to a long edge of `long`.
pub open spec fn ground_factor(ground: crate::raster::Picture, long: int) -> Single {
    edge_factor(crate::scale::longer(ground.w, ground.h), long)
}

/// Ground and layer can both be brought down to their edges with the ground's long edge at `long`.
pub open spec fn have_edges(
    ground: crate::raster::Picture,
    layer: crate::raster::Picture,
    long: int,
) -> bool {
    ground.w > 0 && ground.h > 0 && has_edges(ground, ground_factor(ground, long)) && has_edges(
        layer,
        ground_factor(ground, long),
    )
}

/// `g` and `l` are the edges of ground and layer with the ground's long edge at `long`.
pub open spec fn are_edge_pair(
    ground: crate::raster::Picture,
    layer: crate::raster::Picture,
    long: int,
    g: Edges,
    l: Edges,
) -> bool {
    are_scaled_edges(ground, ground_factor(ground, long), g) && are_scaled_edges(
        layer,
        ground_factor(ground, long),
        l,
    )
}

/// What aligning two pictures says. There is no shift where the pictures are too small for edges
/// or the coarse search finds none to be trusted; else the coarse shift is refined where larger
/// copies have edges.
pub open spec fn is_aligned(
    ground: crate::raster::Picture,
    layer: crate::raster::Picture,
    out: Option<Shift>,
) -> bool {
    if !have_edges(ground, layer, 160) {
        out is None
    } else {
        exists|g: Edges, l: Edges, fit: Option<Fit>| #[trigger]
            are_edge_pair(ground, layer, 160, g, l) && #[trigger] is_coarse(g, l, fit) && match (
                fit,
                out,
            ) {
                (None, None) => true,
                (Some(f), Some(s)) => if have_edges(ground, layer, 640) {
                    s.fine && is_fine_shift(ground, layer, g.w, f.dx as int, f.dy as int, s)
                } else {
                    !s.fine && s.dx == f.dx && s.dy == f.dy && s.w == g.w && s.h == g.h
                },
                _ => false,
            }
    }
}

/// `s` is the coarse shift refined on larger copies.
pub open spec fn is_fine_shift(
    ground: crate::raster::Picture,
    layer: crate::raster::Picture,
    cw: int,
    dx: int,
    dy: int,
    s: Shift,
) -> bool {
    exists|g: Edges, l: Edges| #[trigger]
        are_edge_pair(ground, layer, 640, g, l) && is_refined(
            g,
            l,
            cw,
            dx,
            dy,
            s.dx as int,
            s.dy as int,
        ) && s.w == g.w && s.h == g.h
}

/// How far a layer is shifted against the ground (see [`is_aligned`]).
pub fn align_offset(ground: &Raster, layer: &Raster) -> (out: Option<Shift>)
    requires
        ground@.wf(),
        layer@.wf(),
    ensures
        is_aligned(ground@, layer@, out),
        out matches Some(s) ==> 24 <= s.w <= 0x10_0000 && 24 <= s.h <= 0x10_0000 && magnitude(
            s.dx as int,
        ) <= 0x100_0000 && magnitude(s.dy as int) <= 0x100_0000,
{
    match edge_pair(ground, layer, ALIGN_COARSE) {
        None => None,
        Some((g, l)) => {
            assert(are_edge_pair(ground@, layer@, 160, g@, l@));
            assert(g@.w >= 24 && g@.h >= 24);
            let fit = coarse_fit(&g, &l);
            assert(is_coarse(g@, l@, fit));
            match fit {
                None => None,
                Some(f) => match edge_pair(ground, layer, ALIGN_FINE) {
                    None => Some(Shift { dx: f.dx, dy: f.dy, w: g.w, h: g.h, fine: false }),
                    Some((gf, lf)) => {
                        assert(are_edge_pair(ground@, layer@, 640, gf@, lf@));
                        let (dx, dy) = refine(&gf, &lf, g.w, f.dx, f.dy);
                        let s = Shift { dx, dy, w: gf.w, h: gf.h, fine: true };
                        assert(is_fine_shift(
                            ground@,
                            layer@,
                            g@.w,
                            f.dx as int,
                            f.dy as int,
                            s,
                        ));
                        Some(s)
                    },
                },
            }
        },
    }
}

} // verus!
