//! How strongly each pixel of a photo is covered by shapes that are drawn on it.

use vstd::prelude::*;

use crate::advice::{ease, smoothstep};
use crate::scale::work_size;
use crate::signed::Signed;
use crate::smoke::{clean_shapes, Linear, Object, Radial, Region, Shape};
use crate::stroke::{first_cell_of, lay_stroke, paint, square_of, Stroke, BRUSH_WORK_EDGE};

verus! {

/// The middle of a cell.
pub open spec fn centre(x: int) -> Signed {
    Signed::part(x, 1).sum(Signed::part(1, 2))
}

fn centre_of(x: u32) -> (r: Signed)
    ensures
        r == centre(x as int),
        r.within(200),
{
    Signed::of(x as u64, 1).plus(Signed::of(1, 2))
}

/// How far `v` lies inside `lo..=hi`: 1 inside, falling to 0 at a distance of `soft`.
pub open spec fn inside(v: Signed, lo: Signed, hi: Signed, soft: Signed) -> Signed {
    if v.lies_below(lo) {
        eased(v.less_by(lo.less_by(soft)).quotient(soft))
    } else if hi.lies_below(v) {
        eased(hi.sum(soft).less_by(v).quotient(soft))
    } else {
        Signed::part(1, 1)
    }
}

/// A number kept from 0 to 1 and slowed at either end.
pub open spec fn eased(d: Signed) -> Signed {
    crate::advice::eased(d.clamped(Signed::part(0, 1), Signed::part(1, 1)))
}

fn ease_in_unit(d: Signed) -> (r: Signed)
    requires
        d.within(100000),
    ensures
        r == eased(d),
        r.within(300000),
{
    ease(d.clamp(Signed::zero(), Signed::of(1, 1)))
}

/// How far `v` lies inside `lo..=hi` (see [`inside`]).
pub fn axis(v: Signed, lo: Signed, hi: Signed, soft: Signed) -> (r: Signed)
    requires
        v.within(2000),
        lo.within(2000),
        hi.within(2000),
        soft.within(2000),
        soft.size.m > 0,
    ensures
        r == inside(v, lo, hi, soft),
        r.within(300000),
{
    if v.less(lo) {
        ease_in_unit(v.minus(lo.minus(soft)).over(soft))
    } else if hi.less(v) {
        ease_in_unit(hi.plus(soft).minus(v).over(soft))
    } else {
        Signed::of(1, 1)
    }
}

/// A shape laid out on a photo, in pixels.
pub enum Field<'a> {
    /// A box and how soft its edge is.
    Rect { x0: Signed, y0: Signed, x1: Signed, y1: Signed, soft: Signed },
    /// Where a gradient starts, its direction and its length.
    Linear { ox: Signed, oy: Signed, ux: Signed, uy: Signed, len: Signed },
    /// An ellipse, and the part of it that is covered in full.
    Radial { cx: Signed, cy: Signed, rx: Signed, ry: Signed, inner: Signed, invert: bool },
    /// An object, and the photo's pixels as parts of its sides.
    Object { o: &'a Object, sx: Signed, sy: Signed },
}

/// A number that is 1 at the start of a gradient and 0 at its end.
pub open spec fn fading(t: Signed) -> Signed {
    Signed::part(1, 1).less_by(crate::advice::smoothed(Signed::part(0, 1), Signed::part(1, 1), t))
}

/// How far a pixel is from the middle of an ellipse, its edge being at 1.
pub open spec fn outness(px: Signed, py: Signed, cx: Signed, cy: Signed, rx: Signed, ry: Signed) -> Signed {
    let dx = px.less_by(cx).quotient(rx);
    let dy = py.less_by(cy).quotient(ry);
    dx.product(dx).sum(dy.product(dy)).rooted()
}

impl<'a> Field<'a> {
    /// The lengths are numbers, and those that are divided by are not zero.
    pub open spec fn wf(self) -> bool {
        match self {
            Field::Rect { x0, y0, x1, y1, soft } => {
                &&& x0.within(2000)
                &&& y0.within(2000)
                &&& x1.within(2000)
                &&& y1.within(2000)
                &&& soft.within(2000)
                &&& soft.size.m > 0
            },
            Field::Linear { ox, oy, ux, uy, len } => {
                &&& ox.within(2000)
                &&& oy.within(2000)
                &&& ux.within(2000)
                &&& uy.within(2000)
                &&& len.within(2000)
                &&& len.size.m > 0
            },
            Field::Radial { cx, cy, rx, ry, inner, invert } => {
                &&& cx.within(2000)
                &&& cy.within(2000)
                &&& rx.within(2000)
                &&& ry.within(2000)
                &&& rx.size.m > 0
                &&& ry.size.m > 0
                &&& inner.within(4000)
            },
            Field::Object { o, sx, sy } => {
                &&& is_grid(*o)
                &&& sx.within(2000)
                &&& sy.within(2000)
            },
        }
    }

    /// How strongly a place is covered.
    pub open spec fn cover(self, px: Signed, py: Signed) -> Signed {
        match self {
            Field::Rect { x0, y0, x1, y1, soft } => inside(px, x0, x1, soft).product(
                inside(py, y0, y1, soft),
            ),
            Field::Linear { ox, oy, ux, uy, len } => fading(
                px.less_by(ox).product(ux).sum(py.less_by(oy).product(uy)).quotient(len),
            ),
            Field::Radial { cx, cy, rx, ry, inner, invert } => {
                let w = Signed::part(1, 1).less_by(
                    crate::advice::smoothed(
                        inner,
                        Signed::part(1, 1),
                        outness(px, py, cx, cy, rx, ry),
                    ),
                );
                if invert {
                    Signed::part(1, 1).less_by(w)
                } else {
                    w
                }
            },
            Field::Object { o, sx, sy } => belonging(*o, px.product(sx), py.product(sy)),
        }
    }
}

/// The cells of the grid are there, and its sides have 32 bits.
pub open spec fn is_grid(o: Object) -> bool {
    &&& o.mask@.len() == o.w * o.h
    &&& o.w <= u32::MAX
    &&& o.h <= u32::MAX
    &&& o.area.wf()
}

/// Where a place lies between cells of a grid `n` wide over `lo..hi`.
pub open spec fn along(v: Signed, lo: Signed, hi: Signed, n: int) -> Signed {
    v.less_by(lo).quotient(hi.less_by(lo)).product(Signed::part(n, 1)).less_by(Signed::part(1, 2))
}

/// The cell that a place lies in or right of; the one left of the first cell is -1.
pub open spec fn cell_before(f: Signed) -> int {
    if f.neg {
        -1
    } else {
        crate::single::floor(f.size)
    }
}

/// How far past its cell a place lies.
pub open spec fn past(f: Signed) -> Signed {
    f.less_by(
        if f.neg {
            Signed::part(1, 1).negated()
        } else {
            Signed::part(crate::single::floor(f.size), 1)
        },
    )
}

/// The cell, or the nearest one that the grid has.
pub open spec fn kept(i: int, n: int) -> int {
    crate::scale::within(i, 0, n - 1)
}

/// Between two numbers, `t` of the way from the first to the second.
pub open spec fn mixed(a: Signed, b: Signed, t: Signed) -> Signed {
    a.sum(b.less_by(a).product(t))
}

/// A cell of an object.
pub open spec fn cell_value(o: Object, x: int, y: int) -> Signed {
    Signed::part(o.mask@[y * o.w + x] as int, 1)
}

/// How strongly a place of the photo belongs to an object: between the cells around it.
pub open spec fn belonging(o: Object, u: Signed, v: Signed) -> Signed {
    let fx = along(u, o.area.x0, o.area.x1, o.w as int);
    let fy = along(v, o.area.y0, o.area.y1, o.h as int);
    let zero = Signed::part(0, 1);
    if o.w == 0 || o.h == 0 || !o.area.x0.lies_below(o.area.x1) || !o.area.y0.lies_below(o.area.y1) {
        zero
    } else if fx.lies_below(Signed::part(1, 1).negated()) || fy.lies_below(Signed::part(1, 1).negated()) || Signed::part(
        o.w as int,
        1,
    ).lies_below(fx) || Signed::part(o.h as int, 1).lies_below(fy) {
        zero
    } else {
        let x0 = kept(cell_before(fx), o.w as int);
        let x1 = kept(cell_before(fx) + 1, o.w as int);
        let y0 = kept(cell_before(fy), o.h as int);
        let y1 = kept(cell_before(fy) + 1, o.h as int);
        let top = mixed(cell_value(o, x0, y0), cell_value(o, x1, y0), past(fx));
        let bot = mixed(cell_value(o, x0, y1), cell_value(o, x1, y1), past(fx));
        mixed(top, bot, past(fy)).quotient(Signed::part(255, 1))
    }
}

/// Where a place lies between cells of a grid (see [`along`]).
fn along_of(v: Signed, lo: Signed, hi: Signed, n: u32) -> (r: Signed)
    requires
        v.within(3000),
        lo.wf(),
        hi.wf(),
        lo.lies_below(hi),
    ensures
        r == along(v, lo, hi, n as int),
        r.within(8000),
{
    v.minus(lo).over(hi.minus(lo)).times(Signed::of(n as u64, 1)).minus(Signed::of(1, 2))
}

/// A number that is no larger than a small integer has a small exponent.
pub proof fn lemma_upto(f: Signed, n: int)
    requires
        f.size.wf(),
        !f.neg,
        0 < n <= 0x10_0000,
        !Signed::part(n, 1).lies_below(f),
    ensures
        f.size.e <= 0,
{
    crate::single::lemma_small_nearest(n);
}

/// A number that is no larger than one with 32 bits has no large exponent.
proof fn lemma_within(f: Signed, n: Signed)
    requires
        f.size.wf(),
        n.size.wf(),
        !f.neg,
        !n.neg,
        n.size.m > 0,
        n.size.e <= 9,
        !n.lies_below(f),
    ensures
        f.size.e <= 9,
{
}

/// The cells on either side of a place, and how far past the first one it lies.
fn around(f: Signed, n: u32) -> (r: (usize, usize, Signed))
    requires
        f.within(8000),
        0 < n,
        !f.lies_below(Signed::part(1, 1).negated()),
        !Signed::part(n as int, 1).lies_below(f),
    ensures
        r.0 == kept(cell_before(f), n as int),
        r.1 == kept(cell_before(f) + 1, n as int),
        r.2 == past(f),
        r.2.within(9000),
{
    if f.neg {
        let t = f.minus(Signed::of(1, 1).negate());
        (0, 0, t)
    } else {
        let top = Signed::of(n as u64, 1);
        proof {
            lemma_within(f, top);
        }
        let i: u64 = f.size.floor();
        let t = f.minus(Signed::of(i, 1));
        let last: u64 = n as u64 - 1;
        let a: u64 = if i < last {
            i
        } else {
            last
        };
        let b: u64 = if i + 1 < last {
            i + 1
        } else {
            last
        };
        (a as usize, b as usize, t)
    }
}

/// Between two numbers (see [`mixed`]).
pub fn mix(a: Signed, b: Signed, t: Signed) -> (r: Signed)
    requires
        a.within(100000),
        b.within(100000),
        t.within(100000),
    ensures
        r == mixed(a, b, t),
        r.within(210000),
        a.within(40000) && b.within(40000) && t.within(20000) ==> r.within(61000),
{
    a.plus(b.minus(a).times(t))
}

/// How strongly a place of the photo belongs to an object (see [`belonging`]).
pub fn object_at(o: &Object, u: Signed, v: Signed) -> (r: Signed)
    requires
        is_grid(*o),
        u.within(3000),
        v.within(3000),
    ensures
        r == belonging(*o, u, v),
        r.within(300000),
{
    if o.w == 0 || o.h == 0 || !o.area.x0.less(o.area.x1) || !o.area.y0.less(o.area.y1) {
        return Signed::zero();
    }
    let fx = along_of(u, o.area.x0, o.area.x1, o.w as u32);
    let fy = along_of(v, o.area.y0, o.area.y1, o.h as u32);
    let least = Signed::of(1, 1).negate();
    if fx.less(least) || fy.less(least) || Signed::of(o.w as u64, 1).less(fx) || Signed::of(
        o.h as u64,
        1,
    ).less(fy) {
        return Signed::zero();
    }
    let (x0, x1, tx) = around(fx, o.w as u32);
    let (y0, y1, ty) = around(fy, o.h as u32);
    let n: usize = o.mask.len();
    proof {
        let w = o.w as int;
        let h = o.h as int;
        crate::grid::lemma_cell_bound(x0 as int, y0 as int, w, h);
        crate::grid::lemma_cell_bound(x1 as int, y0 as int, w, h);
        crate::grid::lemma_cell_bound(x0 as int, y1 as int, w, h);
        crate::grid::lemma_cell_bound(x1 as int, y1 as int, w, h);
        assert(n == w * h);
    }
    let top = mix(
        Signed::of(o.mask[y0 * o.w + x0] as u64, 1),
        Signed::of(o.mask[y0 * o.w + x1] as u64, 1),
        tx,
    );
    let bot = mix(
        Signed::of(o.mask[y1 * o.w + x0] as u64, 1),
        Signed::of(o.mask[y1 * o.w + x1] as u64, 1),
        tx,
    );
    mix(top, bot, ty).over(Signed::of(255, 1))
}

/// How far along a gradient a place lies.
fn slope_of(u: Signed, v: Signed, ux: Signed, uy: Signed, len: Signed) -> (t: Signed)
    requires
        u.within(2100),
        v.within(2100),
        ux.within(2000),
        uy.within(2000),
        len.within(2000),
        len.size.m > 0,
    ensures
        t == u.product(ux).sum(v.product(uy)).quotient(len),
        t.within(10000),
{
    let a = u.times(ux);
    let b = v.times(uy);
    a.plus(b).over(len)
}

/// A number that is 1 at the start of a gradient and 0 at its end (see [`fading`]).
fn fade(t: Signed) -> (r: Signed)
    requires
        t.within(10000),
    ensures
        r == fading(t),
        r.within(800000),
{
    Signed::of(1, 1).minus(smoothstep(Signed::zero(), Signed::of(1, 1), t))
}

/// How strongly a place on a gradient is covered.
fn linear_at(px: Signed, py: Signed, ox: Signed, oy: Signed, ux: Signed, uy: Signed, len: Signed) -> (r:
    Signed)
    requires
        px.within(200),
        py.within(200),
        (Field::Linear { ox, oy, ux, uy, len }).wf(),
    ensures
        r == (Field::Linear { ox, oy, ux, uy, len }).cover(px, py),
        r.within(800000),
{
    fade(slope_of(px.minus(ox), py.minus(oy), ux, uy, len))
}

/// How far a pixel is from the middle of an ellipse (see [`outness`]).
fn outness_of(px: Signed, py: Signed, cx: Signed, cy: Signed, rx: Signed, ry: Signed) -> (r: Signed)
    requires
        px.within(200),
        py.within(200),
        cx.within(2000),
        cy.within(2000),
        rx.within(2000),
        ry.within(2000),
        rx.size.m > 0,
        ry.size.m > 0,
    ensures
        r == outness(px, py, cx, cy, rx, ry),
        r.within(9000),
        !r.neg,
{
    let dx = offset_of(px, cx, rx);
    let dy = offset_of(py, cy, ry);
    square_of((dx, dy)).sqrt()
}

/// How far a place is from a middle, as a part of a radius.
fn offset_of(p: Signed, c: Signed, r: Signed) -> (d: Signed)
    requires
        p.within(200),
        c.within(2000),
        r.within(2000),
        r.size.m > 0,
    ensures
        d == p.less_by(c).quotient(r),
        d.within(4200),
{
    p.minus(c).over(r)
}

/// How strongly a place on an ellipse is covered.
fn radial_at(d: Signed, inner: Signed, invert: bool) -> (r: Signed)
    requires
        d.within(9000),
        inner.within(4000),
    ensures
        ({
            let w = Signed::part(1, 1).less_by(
                crate::advice::smoothed(inner, Signed::part(1, 1), d),
            );
            r == if invert {
                Signed::part(1, 1).less_by(w)
            } else {
                w
            }
        }),
        r.within(800000),
{
    let w = Signed::of(1, 1).minus(smoothstep(inner, Signed::of(1, 1), d));
    if invert {
        Signed::of(1, 1).minus(w)
    } else {
        w
    }
}

impl<'a> Field<'a> {
    /// How strongly a place is covered (see [`Field::cover`]).
    pub fn at(&self, px: Signed, py: Signed) -> (r: Signed)
        requires
            self.wf(),
            px.within(200),
            py.within(200),
        ensures
            r == self.cover(px, py),
            r.within(800000),
    {
        match self {
            Field::Rect { x0, y0, x1, y1, soft } => {
                let a = axis(px, *x0, *x1, *soft);
                let b = axis(py, *y0, *y1, *soft);
                a.times(b)
            },
            Field::Linear { ox, oy, ux, uy, len } => linear_at(px, py, *ox, *oy, *ux, *uy, *len),
            Field::Radial { cx, cy, rx, ry, inner, invert } => radial_at(
                outness_of(px, py, *cx, *cy, *rx, *ry),
                *inner,
                *invert,
            ),
            Field::Object { o, sx, sy } => object_at(o, px.times(*sx), py.times(*sy)),
        }
    }
}

/// A shape can be laid out: its corners are numbers, and the cells of an object are there.
pub open spec fn is_drawable(s: Shape) -> bool {
    &&& s.wf()
    &&& s matches Shape::Object(o) ==> is_grid(o)
    &&& s matches Shape::Brush(b) ==> forall|i: int|
        0 <= i < b.pts@.len() ==> (#[trigger] b.pts@[i]).0.wf() && b.pts@[i].1.wf()
}

/// A box on a photo, its edge as soft as half of so much of its shorter side.
pub open spec fn box_on<'a>(r: Region, f: Signed, fw: int, fh: int) -> Field<'a> {
    let x0 = r.x0.product(Signed::part(fw, 1));
    let y0 = r.y0.product(Signed::part(fh, 1));
    let x1 = r.x1.product(Signed::part(fw, 1));
    let y1 = r.y1.product(Signed::part(fh, 1));
    let short = x1.less_by(x0).smaller(y1.less_by(y0)).larger(Signed::part(1, 1));
    Field::Rect { x0, y0, x1, y1, soft: short.product(f).product(Signed::part(1, 2)).larger(Signed::part(1, 2)) }
}

/// A gradient on a photo.
pub open spec fn line_on<'a>(l: Linear, fw: int, fh: int) -> Field<'a> {
    let ox = l.x0.product(Signed::part(fw, 1));
    let oy = l.y0.product(Signed::part(fh, 1));
    let dx = l.x1.product(Signed::part(fw, 1)).less_by(ox);
    let dy = l.y1.product(Signed::part(fh, 1)).less_by(oy);
    let len = dx.product(dx).sum(dy.product(dy)).rooted().larger(Signed::part(1, 1000));
    Field::Linear { ox, oy, ux: dx.quotient(len), uy: dy.quotient(len), len }
}

/// An ellipse on a photo, covered in full as far as its soft edge does not reach.
pub open spec fn ellipse_on<'a>(r: Radial, f: Signed, fw: int, fh: int) -> Field<'a> {
    let rx = r.rx.product(Signed::part(fw, 1)).larger(Signed::part(1, 2));
    let ry = r.ry.product(Signed::part(fh, 1)).larger(Signed::part(1, 2));
    Field::Radial {
        cx: r.cx.product(Signed::part(fw, 1)),
        cy: r.cy.product(Signed::part(fh, 1)),
        rx,
        ry,
        inner: Signed::part(1, 1).less_by(f).clamped(
            Signed::part(0, 1),
            Signed::part(1, 1).less_by(Signed::part(1, 2).quotient(rx.smaller(ry))),
        ),
        invert: r.invert,
    }
}

/// A shape on a photo; strokes of a brush are laid out together elsewhere.
pub open spec fn laid_out<'a>(s: &'a Shape, f: Signed, fw: int, fh: int) -> Option<Field<'a>> {
    match s {
        Shape::Rect(r) => Some(box_on(*r, f, fw, fh)),
        Shape::Linear(l) => Some(line_on(*l, fw, fh)),
        Shape::Radial(r) => Some(ellipse_on(*r, f, fw, fh)),
        Shape::Brush(_) => None,
        Shape::Object(o) => Some(
            Field::Object {
                o,
                sx: Signed::part(1, 1).quotient(Signed::part(fw, 1)),
                sy: Signed::part(1, 1).quotient(Signed::part(fh, 1)),
            },
        ),
    }
}

/// The larger of a number and one that is positive.
fn at_least(v: Signed, least: Signed) -> (r: Signed)
    requires
        v.within(3000),
        least.within(100),
        !least.neg,
        least.size.m > 0,
    ensures
        r == v.larger(least),
        r == v || r == least,
        r.size.m > 0,
        !r.neg,
{
    v.max(least)
}

/// How soft the edge of a box is.
fn soft_of(x0: Signed, y0: Signed, x1: Signed, y1: Signed, f: Signed) -> (soft: Signed)
    requires
        x0.within(400),
        y0.within(400),
        x1.within(400),
        y1.within(400),
        f.within(300),
    ensures
        soft == x1.less_by(x0).smaller(y1.less_by(y0)).larger(Signed::part(1, 1)).product(f).product(
            Signed::part(1, 2),
        ).larger(Signed::part(1, 2)),
        soft.within(2000),
        soft.size.m > 0,
{
    let short = x1.minus(x0).min(y1.minus(y0));
    assert(short.within(500));
    let k = at_least(short, Signed::of(1, 1)).times(f);
    assert(k.within(1000));
    let half = Signed::of(1, 2);
    at_least(k.times(half), half)
}

/// The length of a line.
fn length_of(dx: Signed, dy: Signed) -> (len: Signed)
    requires
        dx.within(500),
        dy.within(500),
    ensures
        len == dx.product(dx).sum(dy.product(dy)).rooted().larger(Signed::part(1, 1000)),
        len.within(800),
        len.size.m > 0,
{
    let a = dx.times(dx);
    let b = dy.times(dy);
    let d = a.plus(b).sqrt();
    assert(d.within(800));
    at_least(d, Signed::of(1, 1000))
}

fn lay_box<'a>(r: &Region, f: Signed, fw: u32, fh: u32) -> (out: Field<'a>)
    requires
        r.wf(),
        f.within(300),
    ensures
        out == box_on::<'a>(*r, f, fw as int, fh as int),
        out.wf(),
{
    let w = Signed::of(fw as u64, 1);
    let h = Signed::of(fh as u64, 1);
    let x0 = r.x0.times(w);
    let y0 = r.y0.times(h);
    let x1 = r.x1.times(w);
    let y1 = r.y1.times(h);
    Field::Rect { x0, y0, x1, y1, soft: soft_of(x0, y0, x1, y1, f) }
}

fn lay_line<'a>(l: &Linear, fw: u32, fh: u32) -> (out: Field<'a>)
    requires
        l.wf(),
    ensures
        out == line_on::<'a>(*l, fw as int, fh as int),
        out.wf(),
{
    let w = Signed::of(fw as u64, 1);
    let h = Signed::of(fh as u64, 1);
    let ox = l.x0.times(w);
    let oy = l.y0.times(h);
    let dx = l.x1.times(w).minus(ox);
    let dy = l.y1.times(h).minus(oy);
    let len = length_of(dx, dy);
    Field::Linear { ox, oy, ux: dx.over(len), uy: dy.over(len), len }
}

fn lay_ellipse<'a>(r: &Radial, f: Signed, fw: u32, fh: u32) -> (out: Field<'a>)
    requires
        r.wf(),
        f.within(300),
    ensures
        out == ellipse_on::<'a>(*r, f, fw as int, fh as int),
        out.wf(),
{
    let w = Signed::of(fw as u64, 1);
    let h = Signed::of(fh as u64, 1);
    let half = Signed::of(1, 2);
    let one = Signed::of(1, 1);
    let rx = at_least(r.rx.times(w), half);
    let ry = at_least(r.ry.times(h), half);
    let most = one.minus(half.over(rx.min(ry)));
    Field::Radial {
        cx: r.cx.times(w),
        cy: r.cy.times(h),
        rx,
        ry,
        inner: one.minus(f).clamp(Signed::zero(), most),
        invert: r.invert,
    }
}

/// A shape on a photo (see [`laid_out`]).
pub fn lay_out<'a>(s: &'a Shape, f: Signed, fw: u32, fh: u32) -> (out: Option<Field<'a>>)
    requires
        is_drawable(*s),
        f.within(300),
        fw > 0,
        fh > 0,
    ensures
        out == laid_out(s, f, fw as int, fh as int),
        out matches Some(v) ==> v.wf(),
{
    match s {
        Shape::Rect(r) => Some(lay_box(r, f, fw, fh)),
        Shape::Linear(l) => Some(lay_line(l, fw, fh)),
        Shape::Radial(r) => Some(lay_ellipse(r, f, fw, fh)),
        Shape::Brush(_) => None,
        Shape::Object(o) => {
            let one = Signed::of(1, 1);
            Some(
                Field::Object {
                    o,
                    sx: one.over(Signed::of(fw as u64, 1)),
                    sy: one.over(Signed::of(fh as u64, 1)),
                },
            )
        },
    }
}

/// The strokes among the first `k` shapes, painted on a cell of a grid one on top of the other.
pub open spec fn brushed(shapes: Seq<Shape>, k: int, f: Signed, w: int, h: int, x: int, y: int) -> Signed
    decreases k,
{
    if k <= 0 {
        Signed::part(0, 1)
    } else {
        let below = brushed(shapes, k - 1, f, w, h, x, y);
        match shapes[k - 1] {
            Shape::Brush(b) => below.sum(crate::stroke::brush_cover(b, f, w, h, x, y)),
            _ => below,
        }
    }
}

/// What the first `k` shapes other than strokes cover of a place, added up.
pub open spec fn filled(shapes: Seq<Shape>, k: int, f: Signed, fw: int, fh: int, px: Signed, py: Signed) -> Signed
    decreases k,
{
    if k <= 0 {
        Signed::part(0, 1)
    } else {
        let before = filled(shapes, k - 1, f, fw, fh, px, py);
        match laid_out(&shapes[k - 1], f, fw, fh) {
            Some(v) => before.sum(v.cover(px, py)),
            None => before,
        }
    }
}

/// There is a stroke among the first `k` shapes.
pub open spec fn has_brush(shapes: Seq<Shape>, k: int) -> bool {
    exists|i: int| 0 <= i < k && #[trigger] shapes[i] is Brush
}

/// Between the cells of a grid, from where `g` gives the cells.
pub open spec fn sampled(g: spec_fn(int, int) -> Signed, w: int, h: int, fx: Signed, fy: Signed) -> Signed {
    let x = fx.larger(Signed::part(0, 1));
    let y = fy.larger(Signed::part(0, 1));
    let x0 = crate::stroke::first_cell(x, w);
    let y0 = crate::stroke::first_cell(y, h);
    let x1 = crate::signed::min_of(x0 + 1, w - 1);
    let y1 = crate::signed::min_of(y0 + 1, h - 1);
    let tx = x.less_by(Signed::part(x0, 1));
    let ty = y.less_by(Signed::part(y0, 1));
    mixed(mixed(g(x0, y0), g(x1, y0), tx), mixed(g(x0, y1), g(x1, y1), tx), ty)
}

/// A side of the grid that strokes are painted on.
pub open spec fn brush_side(side: int, fw: int, fh: int) -> int {
    crate::scale::work_side(side, fw, fh, crate::stroke::BRUSH_WORK_EDGE as int)
}

/// What strokes cover of a place of a photo.
pub open spec fn stroked(shapes: Seq<Shape>, f: Signed, fw: int, fh: int, px: Signed, py: Signed) -> Signed {
    let w = brush_side(fw, fw, fh);
    let h = brush_side(fh, fw, fh);
    sampled(
        |x: int, y: int| brushed(shapes, shapes.len() as int, f, w, h, x, y),
        w,
        h,
        px.product(Signed::part(w, 1).quotient(Signed::part(fw, 1))).less_by(Signed::part(1, 2)),
        py.product(Signed::part(h, 1).quotient(Signed::part(fh, 1))).less_by(Signed::part(1, 2)),
    )
}

/// So many percent, kept from 0 to 100, as a part.
pub open spec fn percent(n: int) -> Signed {
    Signed::part(crate::scale::within(n, 0, 100), 1).quotient(Signed::part(100, 1))
}

/// How strongly shapes cover a pixel of a photo: boxes, gradients and objects in full, strokes as
/// densely as asked for, all of them added up to 1 at most. Without shapes all of it is covered.
pub open spec fn weight(
    shapes: Seq<Shape>,
    feather: int,
    density: int,
    fw: int,
    fh: int,
    x: int,
    y: int,
) -> Signed {
    if shapes.len() == 0 {
        Signed::part(1, 1)
    } else {
        let f = percent(feather);
        let px = centre(x);
        let py = centre(y);
        let flat = filled(shapes, shapes.len() as int, f, fw, fh, px, py);
        let all = if has_brush(shapes, shapes.len() as int) {
            flat.sum(stroked(shapes, f, fw, fh, px, py).product(percent(density)))
        } else {
            flat
        };
        all.clamped(Signed::part(0, 1), Signed::part(1, 1))
    }
}

/// Shapes laid out on a photo.
pub struct ShapeMask<'a> {
    /// The shapes that are no strokes, in their places.
    fields: Vec<Option<Field<'a>>>,
    /// The strokes painted on a grid, and the grid's sides.
    paint: Option<Vec<Signed>>,
    gw: u32,
    gh: u32,
    density: Signed,
    fw: u32,
    fh: u32,
    /// The shapes, how soft they are and how dense strokes are.
    of: Ghost<(Seq<Shape>, int, int)>,
}

fn percent_of(n: i32) -> (r: Signed)
    ensures
        r == percent(n as int),
        r.within(300),
{
    let k: u64 = if n < 0 {
        0
    } else if n > 100 {
        100
    } else {
        n as u64
    };
    Signed::of(k, 1).over(Signed::of(100, 1))
}

/// The strokes that are laid out are those among the first `k` shapes.
pub open spec fn holds_strokes(out: Seq<Stroke>, shapes: Seq<Shape>, k: int, f: Signed, w: int, h: int) -> bool {
    &&& out.len() <= k
    &&& out.len() > 0 <==> has_brush(shapes, k)
    &&& forall|i: int| 0 <= i < out.len() ==> (#[trigger] out[i]).wf()
    &&& forall|x: int, y: int| #[trigger]
        crate::stroke::layered(out, out.len() as int, x, y) == brushed(shapes, k, f, w, h, x, y)
}

/// A stroke comes on top of those before it.
proof fn lemma_next_stroke(
    out: Seq<Stroke>,
    top: Stroke,
    shapes: Seq<Shape>,
    k: int,
    f: Signed,
    w: int,
    h: int,
)
    requires
        0 <= k < shapes.len(),
        shapes[k] is Brush,
        top.wf(),
        top.is_of(shapes[k]->Brush_0, f, w, h),
        holds_strokes(out, shapes, k, f, w, h),
    ensures
        holds_strokes(out.push(top), shapes, k + 1, f, w, h),
{
    let all = out.push(top);
    assert forall|x: int, y: int| #[trigger]
        crate::stroke::layered(all, all.len() as int, x, y) == brushed(
            shapes,
            k + 1,
            f,
            w,
            h,
            x,
            y,
        ) by {
        crate::stroke::lemma_layers_below(out, top, out.len() as int, x, y);
        crate::stroke::lemma_stroke_is_brush(top, shapes[k]->Brush_0, f, w, h, x, y);
        assert(crate::stroke::layered(out, out.len() as int, x, y) == brushed(
            shapes,
            k,
            f,
            w,
            h,
            x,
            y,
        ));
        assert(all[out.len() as int] == top);
    }
    assert(has_brush(shapes, k + 1));
    assert forall|i: int| 0 <= i < all.len() implies (#[trigger] all[i]).wf() by {
        if i < out.len() {
            assert(out[i].wf());
        }
    }
}

/// Other shapes add no stroke.
proof fn lemma_no_stroke(out: Seq<Stroke>, shapes: Seq<Shape>, k: int, f: Signed, w: int, h: int)
    requires
        0 <= k < shapes.len(),
        !(shapes[k] is Brush),
        holds_strokes(out, shapes, k, f, w, h),
    ensures
        holds_strokes(out, shapes, k + 1, f, w, h),
{
    assert forall|x: int, y: int| #[trigger]
        crate::stroke::layered(out, out.len() as int, x, y) == brushed(
            shapes,
            k + 1,
            f,
            w,
            h,
            x,
            y,
        ) by {
        assert(brushed(shapes, k + 1, f, w, h, x, y) == brushed(shapes, k, f, w, h, x, y));
    }
    if has_brush(shapes, k + 1) {
        let i = choose|i: int| 0 <= i < k + 1 && #[trigger] shapes[i] is Brush;
        assert(i < k);
    }
}

/// Lays out the strokes among shapes.
fn lay_strokes(shapes: &Vec<Shape>, f: Signed, w: u32, h: u32) -> (out: Vec<Stroke>)
    requires
        forall|i: int| 0 <= i < shapes@.len() ==> is_drawable(#[trigger] shapes@[i]),
        f.within(300),
        w > 0,
        h > 0,
    ensures
        holds_strokes(out@, shapes@, shapes@.len() as int, f, w as int, h as int),
{
    let n: usize = shapes.len();
    let mut out: Vec<Stroke> = Vec::new();
    let mut k: usize = 0;
    while k < n
        invariant
            k <= n,
            n == shapes@.len(),
            forall|i: int| 0 <= i < shapes@.len() ==> is_drawable(#[trigger] shapes@[i]),
            f.within(300),
            w > 0,
            h > 0,
            holds_strokes(out@, shapes@, k as int, f, w as int, h as int),
        decreases n - k,
    {
        assert(is_drawable(shapes@[k as int]));
        match &shapes[k] {
            Shape::Brush(b) => {
                let s = lay_stroke(b, f, w, h);
                proof {
                    lemma_next_stroke(out@, s, shapes@, k as int, f, w as int, h as int);
                }
                out.push(s);
            },
            _ => {
                proof {
                    lemma_no_stroke(out@, shapes@, k as int, f, w as int, h as int);
                }
            },
        }
        k += 1;
    }
    out
}

impl<'a> ShapeMask<'a> {
    /// The shapes.
    pub closed spec fn shapes(&self) -> Seq<Shape> {
        self.of@.0
    }

    /// How soft the shapes are, in percent.
    pub closed spec fn feather(&self) -> int {
        self.of@.1
    }

    /// How dense strokes are, in percent.
    pub closed spec fn density(&self) -> int {
        self.of@.2
    }

    /// Width of the photo.
    pub closed spec fn width(&self) -> int {
        self.fw as int
    }

    /// Height of the photo.
    pub closed spec fn height(&self) -> int {
        self.fh as int
    }

    /// The shapes are laid out on the photo.
    pub closed spec fn wf(&self) -> bool {
        let shapes = self.shapes();
        let feather = self.feather();
        let density = self.density();
        let fw = self.width();
        let fh = self.height();
        &&& shapes.len() <= crate::smoke::MAX_SHAPES
        &&& fw > 0
        &&& fh > 0
        &&& self.density == percent(density)
        &&& self.density.within(300)
        &&& self.fields@.len() == shapes.len()
        &&& forall|i: int|
            0 <= i < shapes.len() ==> #[trigger] self.fields@[i] == laid_out(
                &shapes[i],
                percent(feather),
                fw,
                fh,
            ) && (self.fields@[i] matches Some(v) ==> v.wf())
        &&& has_brush(shapes, shapes.len() as int) <==> self.paint is Some
        &&& self.paint matches Some(d) ==> {
            &&& self.gw == brush_side(fw, fw, fh)
            &&& self.gh == brush_side(fh, fw, fh)
            &&& self.gw > 0
            &&& self.gh > 0
            &&& d@.len() == self.gw * self.gh
            &&& forall|x: int, y: int|
                0 <= x < self.gw && 0 <= y < self.gh ==> #[trigger] d@[crate::grid::cell(
                    x,
                    y,
                    self.gw as int,
                )] == brushed(
                    shapes,
                    shapes.len() as int,
                    percent(feather),
                    self.gw as int,
                    self.gh as int,
                    x,
                    y,
                )
            &&& forall|i: int| 0 <= i < d@.len() ==> (#[trigger] d@[i]).within(33000)
        }
    }

    /// Lays shapes out on a photo.
    pub fn new(shapes: &'a Vec<Shape>, feather: i32, density: i32, fw: u32, fh: u32) -> (m: ShapeMask<'a>)
        requires
            shapes@.len() <= crate::smoke::MAX_SHAPES,
            forall|i: int| 0 <= i < shapes@.len() ==> is_drawable(#[trigger] shapes@[i]),
            fw > 0,
            fh > 0,
        ensures
            m.wf(),
            m.shapes() == shapes@,
            m.feather() == feather,
            m.density() == density,
            m.width() == fw,
            m.height() == fh,
    {
        let f = percent_of(feather);
        let n: usize = shapes.len();
        let mut fields: Vec<Option<Field<'a>>> = Vec::new();
        let mut k: usize = 0;
        while k < n
            invariant
                k <= n,
                n == shapes@.len(),
                forall|i: int| 0 <= i < shapes@.len() ==> is_drawable(#[trigger] shapes@[i]),
                f.within(300),
                fw > 0,
                fh > 0,
                fields@.len() == k,
                forall|i: int|
                    0 <= i < k ==> #[trigger] fields@[i] == laid_out(
                        &shapes@[i],
                        f,
                        fw as int,
                        fh as int,
                    ) && (fields@[i] matches Some(v) ==> v.wf()),
            decreases n - k,
        {
            assert(is_drawable(shapes@[k as int]));
            fields.push(lay_out(&shapes[k], f, fw, fh));
            k += 1;
        }
        let (w, h) = work_size(fw, fh, BRUSH_WORK_EDGE);
        let gw: u32 = w as u32;
        let gh: u32 = h as u32;
        let strokes = lay_strokes(shapes, f, gw, gh);
        let paint = if strokes.len() > 0 {
            assert(gw * gh <= 0x8000 * 0x8000) by (nonlinear_arith)
                requires
                    gw <= 0x8000,
                    gh <= 0x8000,
            ;
            Some(paint(&strokes, gw, gh))
        } else {
            None
        };
        let of: Ghost<(Seq<Shape>, int, int)> = Ghost((shapes@, feather as int, density as int));
        ShapeMask { fields, paint, gw, gh, density: percent_of(density), fw, fh, of }
    }
}

/// Between the cells of a grid (see [`sampled`]).
fn sample(d: &Vec<Signed>, w: u32, h: u32, fx: Signed, fy: Signed, g: Ghost<spec_fn(int, int) -> Signed>) -> (r:
    Signed)
    requires
        w > 0,
        h > 0,
        d@.len() == w * h,
        forall|x: int, y: int|
            0 <= x < w && 0 <= y < h ==> #[trigger] d@[crate::grid::cell(x, y, w as int)] == g@(x, y),
        forall|i: int| 0 <= i < d@.len() ==> (#[trigger] d@[i]).within(33000),
        fx.within(1000),
        fy.within(1000),
    ensures
        r == sampled(g@, w as int, h as int, fx, fy),
        r.within(210000),
{
    let zero = Signed::zero();
    let x = fx.max(zero);
    let y = fy.max(zero);
    let x0: u32 = first_cell_of(x, w);
    let y0: u32 = first_cell_of(y, h);
    let x1: u32 = if x0 < w - 1 {
        x0 + 1
    } else {
        w - 1
    };
    let y1: u32 = if y0 < h - 1 {
        y0 + 1
    } else {
        h - 1
    };
    let tx = x.minus(Signed::of(x0 as u64, 1));
    let ty = y.minus(Signed::of(y0 as u64, 1));
    let top = mix(cell_of(d, w, h, x0, y0, g), cell_of(d, w, h, x1, y0, g), tx);
    let bot = mix(cell_of(d, w, h, x0, y1, g), cell_of(d, w, h, x1, y1, g), tx);
    mix(top, bot, ty)
}

/// A cell of a grid.
fn cell_of(d: &Vec<Signed>, w: u32, h: u32, x: u32, y: u32, g: Ghost<spec_fn(int, int) -> Signed>) -> (r:
    Signed)
    requires
        x < w,
        y < h,
        d@.len() == w * h,
        forall|x: int, y: int|
            0 <= x < w && 0 <= y < h ==> #[trigger] d@[crate::grid::cell(x, y, w as int)] == g@(x, y),
        forall|i: int| 0 <= i < d@.len() ==> (#[trigger] d@[i]).within(33000),
    ensures
        r == g@(x as int, y as int),
        r.within(33000),
{
    let n: usize = d.len();
    proof {
        crate::grid::lemma_cell_bound(x as int, y as int, w as int, h as int);
        assert(n == w * h);
        assert(d@[crate::grid::cell(x as int, y as int, w as int)] == g@(x as int, y as int));
    }
    d[y as usize * w as usize + x as usize]
}

/// Where a pixel lies on a grid that a photo's side is brought down to.
fn spot_of(p: Signed, g: u32, f: u32) -> (r: Signed)
    requires
        p.within(200),
        f > 0,
    ensures
        r == p.product(Signed::part(g as int, 1).quotient(Signed::part(f as int, 1))).less_by(
            Signed::part(1, 2),
        ),
        r.within(1000),
{
    p.times(Signed::of(g as u64, 1).over(Signed::of(f as u64, 1))).minus(Signed::of(1, 2))
}

impl<'a> ShapeMask<'a> {
    /// How strongly the shapes cover a pixel (see [`weight`]).
    pub fn at(&self, x: u32, y: u32) -> (r: Signed)
        requires
            self.wf(),
        ensures
            r == weight(
                self.shapes(),
                self.feather(),
                self.density(),
                self.width(),
                self.height(),
                x as int,
                y as int,
            ),
            !r.neg,
            !crate::single::below(crate::single::one(), r.size),
            r.size.wf(),
    {
        proof {
            crate::single::lemma_one();
        }
        let n: usize = self.fields.len();
        if n == 0 {
            return Signed::of(1, 1);
        }
        let px = centre_of(x);
        let py = centre_of(y);
        let ghost shapes = self.shapes();
        let ghost f = percent(self.feather());
        let mut all = Signed::zero();
        let mut k: usize = 0;
        while k < n
            invariant
                k <= n <= crate::smoke::MAX_SHAPES,
                n == self.fields@.len() == shapes.len(),
                shapes == self.shapes(),
                self.wf(),
                f == percent(self.feather()),
                px == centre(x as int),
                py == centre(y as int),
                px.within(200),
                py.within(200),
                all == filled(shapes, k as int, f, self.fw as int, self.fh as int, px, py),
                all.within(800000 + 63 * k),
            decreases n - k,
        {
            match &self.fields[k] {
                Some(v) => {
                    all = all.plus(v.at(px, py));
                },
                None => {},
            }
            k += 1;
        }
        match &self.paint {
            None => {},
            Some(d) => {
                let ghost g = |i: int, j: int|
                    brushed(
                        shapes,
                        shapes.len() as int,
                        f,
                        self.gw as int,
                        self.gh as int,
                        i,
                        j,
                    );
                let fx = spot_of(px, self.gw, self.fw);
                let fy = spot_of(py, self.gh, self.fh);
                let b = sample(d, self.gw, self.gh, fx, fy, Ghost(g));
                all = all.plus(b.times(self.density));
            },
        }
        all.clamp(Signed::zero(), Signed::of(1, 1))
    }
}

/// Shapes that can be drawn can still be drawn once they were cleaned.
pub proof fn lemma_used_are_drawable(s: Seq<Shape>)
    requires
        forall|i: int| 0 <= i < s.len() ==> is_drawable(#[trigger] s[i]),
    ensures
        forall|i: int|
            0 <= i < crate::smoke::cleaned_all(s).len() ==> is_drawable(
                #[trigger] crate::smoke::cleaned_all(s)[i],
            ),
    decreases s.len(),
{
    if s.len() > 0 {
        let t = s.drop_last();
        assert forall|i: int| 0 <= i < t.len() implies is_drawable(#[trigger] t[i]) by {
            assert(t[i] == s[i]);
        }
        lemma_used_are_drawable(t);
        assert(is_drawable(s[s.len() - 1]));
        match s.last().clean() {
            Some(c) => {
                let all = crate::smoke::cleaned_all(t);
                assert(is_drawable(c));
                assert forall|i: int| 0 <= i < all.push(c).len() implies is_drawable(
                    #[trigger] all.push(c)[i],
                ) by {
                    if i < all.len() {
                        assert(is_drawable(all[i]));
                    }
                }
                assert(crate::smoke::cleaned_all(s) == all.push(c));
            },
            None => {
                assert(crate::smoke::cleaned_all(s) == crate::smoke::cleaned_all(t));
            },
        }
    }
}

/// How strongly shapes cover each pixel of a photo: those that are large enough to be meant, and at
/// most [`crate::smoke::MAX_SHAPES`] of them. Without any, nothing is covered.
pub fn shape_weights(shapes: Vec<Shape>, feather: i32, density: i32, w: u32, h: u32) -> (out: Vec<Signed>)
    requires
        forall|i: int| 0 <= i < shapes@.len() ==> is_drawable(#[trigger] shapes@[i]),
        w * h <= usize::MAX,
    ensures
        out@.len() == w * h,
        forall|i: int| 0 <= i < out@.len() ==> (#[trigger] out@[i]).size.wf(),
        forall|x: int, y: int|
            0 <= x < w && 0 <= y < h ==> #[trigger] out@[crate::grid::cell(x, y, w as int)] == (
            if crate::smoke::used_shapes(shapes@).len() == 0 {
                Signed::part(0, 1)
            } else {
                weight(
                    crate::smoke::used_shapes(shapes@),
                    feather as int,
                    density as int,
                    w as int,
                    h as int,
                    x,
                    y,
                )
            }),
{
    let ghost all = shapes@;
    let used = clean_shapes(shapes);
    proof {
        lemma_used_are_drawable(all);
        assert forall|i: int| 0 <= i < used@.len() implies is_drawable(#[trigger] used@[i]) by {
            assert(used@[i] == crate::smoke::cleaned_all(all)[i]);
        }
    }
    if w == 0 || h == 0 {
        assert(w * h == 0) by (nonlinear_arith)
            requires
                w == 0 || h == 0,
        ;
        return Vec::new();
    }
    let n: usize = w as usize * h as usize;
    if used.len() == 0 {
        let out: Vec<Signed> = vec![Signed::zero(); n];
        proof {
            assert forall|x: int, y: int| 0 <= x < w && 0 <= y < h implies #[trigger] out@[crate::grid::cell(
                x,
                y,
                w as int,
            )] == Signed::part(0, 1) by {
                crate::grid::lemma_cell_bound(x, y, w as int, h as int);
            }
        }
        return out;
    }
    let m = ShapeMask::new(&used, feather, density, w, h);
    let mut out: Vec<Signed> = Vec::new();
    let mut i: usize = 0;
    while i < n
        invariant
            i <= n,
            n == w * h,
            w > 0,
            h > 0,
            m.wf(),
            m.shapes() == used@,
            m.feather() == feather,
            m.density() == density,
            m.width() == w,
            m.height() == h,
            out@.len() == i,
            forall|j: int| 0 <= j < i ==> (#[trigger] out@[j]).size.wf(),
            forall|j: int|
                0 <= j < i ==> #[trigger] out@[j] == weight(
                    used@,
                    feather as int,
                    density as int,
                    w as int,
                    h as int,
                    j % w as int,
                    j / w as int,
                ),
        decreases n - i,
    {
        proof {
            crate::grid::lemma_cell_split(i as int, w as int, h as int);
        }
        let x: u32 = (i % w as usize) as u32;
        let y: u32 = (i / w as usize) as u32;
        out.push(m.at(x, y));
        i += 1;
    }
    proof {
        assert forall|x: int, y: int| 0 <= x < w && 0 <= y < h implies #[trigger] out@[crate::grid::cell(
            x,
            y,
            w as int,
        )] == weight(used@, feather as int, density as int, w as int, h as int, x, y) by {
            crate::grid::lemma_cell_bound(x, y, w as int, h as int);
            crate::grid::lemma_cell_div_mod(x, y, w as int);
        }
    }
    out
}

/// How dense strokes are only matters where there are strokes.
pub proof fn law_density_is_for_strokes(
    shapes: Seq<Shape>,
    feather: int,
    a: int,
    b: int,
    fw: int,
    fh: int,
    x: int,
    y: int,
)
    requires
        !has_brush(shapes, shapes.len() as int),
    ensures
        weight(shapes, feather, a, fw, fh, x, y) == weight(shapes, feather, b, fw, fh, x, y),
{
}

/// An ellipse turned inside out covers what the ellipse leaves.
pub proof fn law_inverted_ellipse_covers_the_rest(
    r: Radial,
    f: Signed,
    fw: int,
    fh: int,
    px: Signed,
    py: Signed,
)
    requires
        !r.invert,
    ensures
        ellipse_on(Radial { invert: true, ..r }, f, fw, fh).cover(px, py) == Signed::part(1, 1).less_by(
            ellipse_on(r, f, fw, fh).cover(px, py),
        ),
{
}

/// A box covers its inside in full, however soft its edge is.
pub proof fn law_box_is_full_inside(x0: Signed, y0: Signed, x1: Signed, y1: Signed, soft: Signed, px: Signed, py: Signed)
    requires
        !px.lies_below(x0),
        !x1.lies_below(px),
        !py.lies_below(y0),
        !y1.lies_below(py),
    ensures
        (Field::Rect { x0, y0, x1, y1, soft }).cover(px, py) == Signed::part(1, 1),
{
    reveal(Signed::product);
    crate::single::lemma_one();
    crate::single::law_times_one(crate::single::one());
}

} // verus!
