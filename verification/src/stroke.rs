//! Brush strokes: how strongly each cell of a grid is painted over.

use vstd::prelude::*;

use crate::advice::ease;
use crate::signed::Signed;
use crate::smoke::Brush;

verus! {

/// Longest side of the grid that strokes are painted on.
pub const BRUSH_WORK_EDGE: u32 = 1024;

/// A point.
pub type Point = (Signed, Signed);

/// The numbers of a point lie in the range.
pub open spec fn is_spot(p: Point) -> bool {
    crate::held::fits(p.0) && crate::held::fits(p.1)
}

/// Both numbers of a point have moderate exponents.
pub open spec fn is_near(p: Point) -> bool {
    p.0.within(400) && p.1.within(400)
}

/// The square of a line's length.
pub open spec fn square(v: Point) -> Signed {
    v.0.product(v.0).sum(v.1.product(v.1))
}

/// From one point to another.
pub open spec fn from_to(a: Point, b: Point) -> Point {
    (b.0.less_by(a.0), b.1.less_by(a.1))
}

/// How far along a line the place nearest to a point is, from 0 to 1; a line without length has only
/// its start.
pub open spec fn along(p: Point, a: Point, b: Point) -> Signed {
    let v = from_to(a, b);
    let l2 = square(v);
    if Signed::part(1, 1_000_000_000).lies_below(l2) {
        let u = from_to(a, p);
        u.0.product(v.0).sum(u.1.product(v.1)).quotient(l2).clamped(
            Signed::part(0, 1),
            Signed::part(1, 1),
        )
    } else {
        Signed::part(0, 1)
    }
}

/// The place so far along a line.
pub open spec fn place_on(a: Point, b: Point, t: Signed) -> Point {
    let v = from_to(a, b);
    (a.0.sum(t.product(v.0)), a.1.sum(t.product(v.1)))
}

/// How far a point is from a line.
pub open spec fn distance(p: Point, a: Point, b: Point) -> Signed {
    square(from_to(place_on(a, b, along(p, a, b)), p)).rooted()
}

/// The square of a line's length (see [`square`]).
pub fn square_of(v: Point) -> (r: Signed)
    requires
        v.0.within(5000),
        v.1.within(5000),
    ensures
        r == square(v),
        r.within(10100),
        v.0.within(500) && v.1.within(500) ==> r.within(1100),
        !r.neg,
{
    let a = v.0.times(v.0);
    let b = v.1.times(v.1);
    a.plus(b)
}

fn from_to_of(a: Point, b: Point) -> (r: Point)
    requires
        a.0.within(4000),
        a.1.within(4000),
        b.0.within(4000),
        b.1.within(4000),
    ensures
        r == from_to(a, b),
        r.0.within(4100),
        r.1.within(4100),
        is_near(a) && is_near(b) ==> r.0.within(500) && r.1.within(500),
{
    (b.0.minus(a.0), b.1.minus(a.1))
}

fn along_of(p: Point, a: Point, b: Point) -> (r: Signed)
    requires
        is_near(p),
        is_near(a),
        is_near(b),
    ensures
        r == along(p, a, b),
        r.within(2500),
{
    let v = from_to_of(a, b);
    let l2 = square_of(v);
    if !Signed::of(1, 1_000_000_000).less(l2) {
        return Signed::zero();
    }
    let u = from_to_of(a, p);
    let x = u.0.times(v.0);
    let y = u.1.times(v.1);
    let far = x.plus(y);
    assert(far.within(1200));
    far.over(l2).clamp(Signed::zero(), Signed::of(1, 1))
}

fn place_of(a: Point, b: Point, t: Signed) -> (r: Point)
    requires
        is_near(a),
        is_near(b),
        t.within(2500),
    ensures
        r == place_on(a, b, t),
        r.0.within(4000),
        r.1.within(4000),
{
    let v = from_to_of(a, b);
    (a.0.plus(t.times(v.0)), a.1.plus(t.times(v.1)))
}

/// How far a point is from a line (see [`distance`]).
pub fn dist_to_segment(p: Point, a: Point, b: Point) -> (r: Signed)
    requires
        is_near(p),
        is_near(a),
        is_near(b),
    ensures
        r == distance(p, a, b),
        r.within(6000),
        !r.neg,
{
    let t = along_of(p, a, b);
    let q = place_of(a, b, t);
    square_of(from_to_of(q, p)).sqrt()
}

/// How strongly a place at a distance from a stroke is painted over: in full up to `inner`, fading
/// out up to `r`, and not at all beyond.
pub open spec fn touch(d: Signed, r: Signed, inner: Signed) -> Option<Signed> {
    if !inner.lies_below(d) {
        Some(Signed::part(1, 1))
    } else if !d.lies_below(r) {
        None
    } else {
        Some(crate::advice::eased(r.less_by(d).quotient(r.less_by(inner))))
    }
}

fn touch_of(d: Signed, r: Signed, inner: Signed) -> (w: Option<Signed>)
    requires
        d.within(6000),
        r.within(1000),
        inner.within(2000),
    ensures
        w == touch(d, r, inner),
        w matches Some(v) ==> v.within(30000),
{
    if !inner.less(d) {
        return Some(Signed::of(1, 1));
    }
    if !d.less(r) {
        return None;
    }
    proof {
        lemma_between(inner, d, r);
    }
    let t = r.minus(d).over(r.minus(inner));
    assert(t.within(8300));
    Some(ease(t))
}

proof fn lemma_between(a: Signed, b: Signed, c: Signed)
    requires
        a.size.wf(),
        b.size.wf(),
        c.size.wf(),
        a.lies_below(b),
        b.lies_below(c),
    ensures
        a != c,
{
}

/// The cell that a place lies in, or the nearest one of `n`.
pub open spec fn first_cell(v: Signed, n: int) -> int {
    if v.neg {
        0
    } else {
        crate::signed::min_of(crate::single::floor(v.size), n - 1)
    }
}

/// The cell that a place lies before, or the nearest one of `n`.
pub open spec fn last_cell(v: Signed, n: int) -> int {
    if v.neg {
        0
    } else {
        crate::signed::min_of(crate::single::ceil(v.size), n - 1)
    }
}

/// A large number lies past every cell.
proof fn lemma_far(v: Signed, n: int)
    requires
        v.size.wf(),
        v.size.e > 38,
        n <= u32::MAX,
    ensures
        crate::single::floor(v.size) >= n,
        crate::single::ceil(v.size) >= n,
{
    crate::single::lemma_power_at_least(v.size.e as int, 9);
    let m = v.size.m;
    let p = crate::single::up(v.size.e as int);
    assert(m * p >= 0x1_0000_0000) by (nonlinear_arith)
        requires
            m >= 0x80_0000,
            p >= 512,
    ;
}

/// The cell that a place lies in (see [`first_cell`]).
pub fn first_cell_of(v: Signed, n: u32) -> (i: u32)
    requires
        v.size.wf(),
        n > 0,
    ensures
        i == first_cell(v, n as int),
        i < n,
{
    if v.neg {
        0
    } else if v.size.e > 38 {
        proof {
            lemma_far(v, n as int);
        }
        n - 1
    } else {
        let f: u64 = v.size.floor();
        if f < n as u64 {
            f as u32
        } else {
            n - 1
        }
    }
}

/// The cell that a place lies before (see [`last_cell`]).
pub fn last_cell_of(v: Signed, n: u32) -> (i: u32)
    requires
        v.size.wf(),
        n > 0,
    ensures
        i == last_cell(v, n as int),
        i < n,
{
    if v.neg {
        0
    } else if v.size.e > 38 {
        proof {
            lemma_far(v, n as int);
        }
        n - 1
    } else {
        let f: u64 = v.size.ceil();
        if f < n as u64 {
            f as u32
        } else {
            n - 1
        }
    }
}

/// A straight piece of a stroke on a grid, and the cells around it.
pub struct Piece {
    pub a: Point,
    pub b: Point,
    pub x0: u32,
    pub x1: u32,
    pub y0: u32,
    pub y1: u32,
}

/// A stroke on a grid.
pub struct Stroke {
    pub pieces: Vec<Piece>,
    /// Half its width, and how much of that is painted in full.
    pub r: Signed,
    pub inner: Signed,
}

/// Half the width of a stroke on a grid.
pub open spec fn reach(b: Brush, w: int, h: int) -> Signed {
    b.radius.product(Signed::part(crate::scale::longer(w, h), 1)).larger(Signed::part(3, 4))
}

/// The part of it that is painted in full: all but what is soft, and never all of it.
pub open spec fn heart(r: Signed, f: Signed) -> Signed {
    r.product(Signed::part(1, 1).less_by(f)).smaller(r.less_by(Signed::part(3, 4))).larger(
        Signed::part(0, 1),
    )
}

/// A point of a stroke on a grid.
pub open spec fn on_grid(p: Point, w: int, h: int) -> Point {
    (p.0.product(Signed::part(w, 1)), p.1.product(Signed::part(h, 1)))
}

/// Where piece `i` of a stroke starts and ends; the last one is a dot.
pub open spec fn ends(b: Brush, w: int, h: int, i: int) -> (Point, Point) {
    let a = on_grid(b.pts@[i], w, h);
    (
        a,
        if i + 1 < b.pts@.len() {
            on_grid(b.pts@[i + 1], w, h)
        } else {
            a
        },
    )
}

/// Piece `i` of a stroke on a grid.
pub open spec fn piece(b: Brush, w: int, h: int, i: int) -> Piece {
    let r = reach(b, w, h);
    let (p, q) = ends(b, w, h, i);
    Piece {
        a: p,
        b: q,
        x0: first_cell(p.0.smaller(q.0).less_by(r), w) as u32,
        x1: last_cell(p.0.larger(q.0).sum(r), w) as u32,
        y0: first_cell(p.1.smaller(q.1).less_by(r), h) as u32,
        y1: last_cell(p.1.larger(q.1).sum(r), h) as u32,
    }
}

/// The points of a stroke and its width are numbers.
pub open spec fn is_drawable(b: Brush) -> bool {
    &&& b.radius.wf()
    &&& forall|i: int| 0 <= i < b.pts@.len() ==> (#[trigger] b.pts@[i]).0.wf() && b.pts@[i].1.wf()
}

impl Stroke {
    /// The stroke is a brush's, as soft as `f`, on a grid.
    pub open spec fn is_of(&self, b: Brush, f: Signed, w: int, h: int) -> bool {
        &&& self.r == reach(b, w, h)
        &&& self.inner == heart(reach(b, w, h), f)
        &&& self.pieces@.len() == b.pts@.len()
        &&& forall|i: int| 0 <= i < b.pts@.len() ==> #[trigger] self.pieces@[i] == piece(b, w, h, i)
    }

    /// The numbers have moderate exponents.
    pub open spec fn wf(&self) -> bool {
        &&& self.r.within(1000)
        &&& self.inner.within(2000)
        &&& forall|i: int|
            0 <= i < self.pieces@.len() ==> is_near((#[trigger] self.pieces@[i]).a) && is_near(
                self.pieces@[i].b,
            )
    }
}

fn on_grid_of(p: Point, w: u32, h: u32) -> (r: Point)
    requires
        p.0.wf(),
        p.1.wf(),
    ensures
        r == on_grid(p, w as int, h as int),
        is_near(r),
{
    (p.0.times(Signed::of(w as u64, 1)), p.1.times(Signed::of(h as u64, 1)))
}

fn piece_of(p: Point, q: Point, r: Signed, w: u32, h: u32) -> (s: Piece)
    requires
        is_near(p),
        is_near(q),
        r.within(1000),
        w > 0,
        h > 0,
    ensures
        s.a == p,
        s.b == q,
        s.x0 == first_cell(p.0.smaller(q.0).less_by(r), w as int),
        s.x1 == last_cell(p.0.larger(q.0).sum(r), w as int),
        s.y0 == first_cell(p.1.smaller(q.1).less_by(r), h as int),
        s.y1 == last_cell(p.1.larger(q.1).sum(r), h as int),
{
    let x0 = first_cell_of(p.0.min(q.0).minus(r), w);
    let x1 = last_cell_of(p.0.max(q.0).plus(r), w);
    let y0 = first_cell_of(p.1.min(q.1).minus(r), h);
    let y1 = last_cell_of(p.1.max(q.1).plus(r), h);
    Piece { a: p, b: q, x0, x1, y0, y1 }
}

/// Lays a stroke out on a grid (see [`Stroke::is_of`]).
pub fn lay_stroke(b: &Brush, f: Signed, w: u32, h: u32) -> (s: Stroke)
    requires
        is_drawable(*b),
        f.within(300),
        w > 0,
        h > 0,
    ensures
        s.is_of(*b, f, w as int, h as int),
        s.wf(),
{
    let long: u32 = if w < h {
        h
    } else {
        w
    };
    let three = Signed::of(3, 4);
    let r = b.radius.times(Signed::of(long as u64, 1)).max(three);
    assert(r.within(400));
    let full = r.times(Signed::of(1, 1).minus(f));
    let inner = full.min(r.minus(three)).max(Signed::zero());
    let mut pieces: Vec<Piece> = Vec::new();
    let n: usize = b.pts.len();
    let mut i: usize = 0;
    while i < n
        invariant
            i <= n,
            n == b.pts@.len(),
            is_drawable(*b),
            w > 0,
            h > 0,
            r.within(400),
            r == reach(*b, w as int, h as int),
            pieces@.len() == i,
            forall|j: int|
                0 <= j < i ==> #[trigger] pieces@[j] == piece(*b, w as int, h as int, j) && is_near(
                    pieces@[j].a,
                ) && is_near(pieces@[j].b),
        decreases n - i,
    {
        let p = on_grid_of(b.pts[i], w, h);
        let q = if i + 1 < n {
            on_grid_of(b.pts[i + 1], w, h)
        } else {
            p
        };
        pieces.push(piece_of(p, q, r, w, h));
        i += 1;
    }
    Stroke { pieces, r, inner }
}

/// The middle of a cell.
pub open spec fn centre(x: int, y: int) -> Point {
    (Signed::part(x, 1).sum(Signed::part(1, 2)), Signed::part(y, 1).sum(Signed::part(1, 2)))
}

fn centre_of(x: u32, y: u32) -> (r: Point)
    ensures
        r == centre(x as int, y as int),
        r.0.within(200),
        r.1.within(200),
{
    let half = Signed::of(1, 2);
    (Signed::of(x as u64, 1).plus(half), Signed::of(y as u64, 1).plus(half))
}

/// How strongly one piece paints a cell over, if at all.
pub open spec fn painted_by(p: Piece, r: Signed, inner: Signed, x: int, y: int) -> Option<Signed> {
    if p.x0 <= x <= p.x1 && p.y0 <= y <= p.y1 {
        touch(distance(centre(x, y), p.a, p.b), r, inner)
    } else {
        None
    }
}

/// How strongly the first `k` pieces of a stroke paint a cell over: as the strongest of them does.
pub open spec fn painted(pieces: Seq<Piece>, k: int, r: Signed, inner: Signed, x: int, y: int) -> Signed
    decreases k,
{
    if k <= 0 {
        Signed::part(0, 1)
    } else {
        let before = painted(pieces, k - 1, r, inner, x, y);
        match painted_by(pieces[k - 1], r, inner, x, y) {
            Some(w) => before.larger(w),
            None => before,
        }
    }
}

impl Stroke {
    /// How strongly the stroke paints a cell over.
    pub open spec fn cover(&self, x: int, y: int) -> Signed {
        painted(self.pieces@, self.pieces@.len() as int, self.r, self.inner, x, y)
    }

    /// How strongly the stroke paints a cell over.
    pub fn at(&self, x: u32, y: u32) -> (w: Signed)
        requires
            self.wf(),
        ensures
            w == self.cover(x as int, y as int),
            w.within(30000),
    {
        let n: usize = self.pieces.len();
        let p = centre_of(x, y);
        let mut w = Signed::zero();
        let mut k: usize = 0;
        while k < n
            invariant
                k <= n,
                n == self.pieces@.len(),
                self.wf(),
                p == centre(x as int, y as int),
                p.0.within(200),
                p.1.within(200),
                w == painted(self.pieces@, k as int, self.r, self.inner, x as int, y as int),
                w.within(30000),
            decreases n - k,
        {
            let q = &self.pieces[k];
            if q.x0 <= x && x <= q.x1 && q.y0 <= y && y <= q.y1 {
                match touch_of(dist_to_segment(p, q.a, q.b), self.r, self.inner) {
                    Some(v) => {
                        w = w.max(v);
                    },
                    None => {},
                }
            }
            k += 1;
        }
        w
    }
}

/// How strongly the first `k` strokes paint a cell over, one on top of the other.
pub open spec fn layered(strokes: Seq<Stroke>, k: int, x: int, y: int) -> Signed
    decreases k,
{
    if k <= 0 {
        Signed::part(0, 1)
    } else {
        layered(strokes, k - 1, x, y).sum(strokes[k - 1].cover(x, y))
    }
}

/// Most strokes that are painted together.
pub const MAX_STROKES: usize = 32;

/// Paints strokes on a grid.
pub fn paint(strokes: &Vec<Stroke>, w: u32, h: u32) -> (d: Vec<Signed>)
    requires
        strokes@.len() <= MAX_STROKES,
        forall|i: int| 0 <= i < strokes@.len() ==> (#[trigger] strokes@[i]).wf(),
        w * h <= usize::MAX,
    ensures
        d@.len() == w * h,
        forall|x: int, y: int|
            0 <= x < w && 0 <= y < h ==> #[trigger] d@[crate::grid::cell(x, y, w as int)] == layered(
                strokes@,
                strokes@.len() as int,
                x,
                y,
            ),
        forall|i: int| 0 <= i < d@.len() ==> (#[trigger] d@[i]).within(33000),
{
    let mut d: Vec<Signed> = Vec::new();
    let mut y: u32 = 0;
    while y < h
        invariant
            y <= h,
            w * h <= usize::MAX,
            strokes@.len() <= MAX_STROKES,
            forall|i: int| 0 <= i < strokes@.len() ==> (#[trigger] strokes@[i]).wf(),
            d@.len() == w * y,
            forall|i: int, j: int|
                0 <= i < w && 0 <= j < y ==> #[trigger] d@[crate::grid::cell(i, j, w as int)]
                    == layered(strokes@, strokes@.len() as int, i, j),
            forall|i: int| 0 <= i < d@.len() ==> (#[trigger] d@[i]).within(33000),
        decreases h - y,
    {
        let mut x: u32 = 0;
        let ghost start = d@.len();
        while x < w
            invariant
                x <= w,
                y < h,
                w * h <= usize::MAX,
                strokes@.len() <= MAX_STROKES,
                forall|i: int| 0 <= i < strokes@.len() ==> (#[trigger] strokes@[i]).wf(),
                start == w * y,
                d@.len() == start + x,
                forall|i: int, j: int|
                    0 <= i < w && 0 <= j < y ==> #[trigger] d@[crate::grid::cell(i, j, w as int)]
                        == layered(strokes@, strokes@.len() as int, i, j),
                forall|i: int|
                    0 <= i < x ==> #[trigger] d@[crate::grid::cell(i, y as int, w as int)]
                        == layered(strokes@, strokes@.len() as int, i, y as int),
                forall|i: int| 0 <= i < d@.len() ==> (#[trigger] d@[i]).within(33000),
            decreases w - x,
        {
            let v = layers_at(strokes, x, y);
            let ghost before = d@;
            d.push(v);
            proof {
                assert(crate::grid::cell(x as int, y as int, w as int) == start + x)
                    by (nonlinear_arith)
                    requires
                        start == w * y,
                        crate::grid::cell(x as int, y as int, w as int) == y * w + x,
                ;
                assert forall|i: int, j: int| 0 <= i < w && 0 <= j < y implies #[trigger] d@[crate::grid::cell(
                    i,
                    j,
                    w as int,
                )] == layered(strokes@, strokes@.len() as int, i, j) by {
                    crate::grid::lemma_cell_bound(i, j, w as int, y as int);
                    assert(before[crate::grid::cell(i, j, w as int)] == layered(
                        strokes@,
                        strokes@.len() as int,
                        i,
                        j,
                    ));
                }
                assert forall|i: int| 0 <= i < x + 1 implies #[trigger] d@[crate::grid::cell(
                    i,
                    y as int,
                    w as int,
                )] == layered(strokes@, strokes@.len() as int, i, y as int) by {
                    if i < x {
                        assert(before[crate::grid::cell(i, y as int, w as int)] == layered(
                            strokes@,
                            strokes@.len() as int,
                            i,
                            y as int,
                        ));
                    }
                }
            }
            x += 1;
        }
        proof {
            assert(w * (y + 1) == start + w) by (nonlinear_arith)
                requires
                    start == w * y,
            ;
        }
        y += 1;
    }
    d
}

/// How strongly strokes paint a cell over, one on top of the other.
fn layers_at(strokes: &Vec<Stroke>, x: u32, y: u32) -> (w: Signed)
    requires
        strokes@.len() <= MAX_STROKES,
        forall|i: int| 0 <= i < strokes@.len() ==> (#[trigger] strokes@[i]).wf(),
    ensures
        w == layered(strokes@, strokes@.len() as int, x as int, y as int),
        w.within(33000),
{
    let n: usize = strokes.len();
    let mut w = Signed::zero();
    let mut k: usize = 0;
    while k < n
        invariant
            k <= n <= MAX_STROKES,
            n == strokes@.len(),
            forall|i: int| 0 <= i < strokes@.len() ==> (#[trigger] strokes@[i]).wf(),
            w == layered(strokes@, k as int, x as int, y as int),
            w.within(30000 + 63 * k),
        decreases n - k,
    {
        w = w.plus(strokes[k].at(x, y));
        k += 1;
    }
    w
}

/// How strongly a brush paints a cell of a grid over.
pub open spec fn brush_cover(b: Brush, f: Signed, w: int, h: int, x: int, y: int) -> Signed {
    let r = reach(b, w, h);
    painted(
        Seq::new(b.pts@.len(), |i: int| piece(b, w, h, i)),
        b.pts@.len() as int,
        r,
        heart(r, f),
        x,
        y,
    )
}

/// A stroke paints what its brush paints.
pub proof fn lemma_stroke_is_brush(s: Stroke, b: Brush, f: Signed, w: int, h: int, x: int, y: int)
    requires
        s.is_of(b, f, w, h),
    ensures
        s.cover(x, y) == brush_cover(b, f, w, h, x, y),
{
    assert(s.pieces@ =~= Seq::new(b.pts@.len(), |i: int| piece(b, w, h, i)));
}

/// Strokes on top do not change what lies below.
pub proof fn lemma_layers_below(strokes: Seq<Stroke>, top: Stroke, k: int, x: int, y: int)
    requires
        0 <= k <= strokes.len(),
    ensures
        layered(strokes.push(top), k, x, y) == layered(strokes, k, x, y),
    decreases k,
{
    if k > 0 {
        lemma_layers_below(strokes, top, k - 1, x, y);
        assert(strokes.push(top)[k - 1] == strokes[k - 1]);
    }
}

} // verus!
