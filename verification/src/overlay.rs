//! Pictures laid over a photo: scaled, turned round their middle, and as opaque as their own pixels and
//! the whole of them are.

use vstd::prelude::*;

use crate::edit::ImageItem;
use crate::held::{add_to, divide_by, mix, scale_by, take_from, whole};
use crate::raster::Raster;
use crate::sample::{byte_of, sides_of, turn_back};
use crate::signed::Signed;
use crate::stroke::{first_cell_of, last_cell_of, Point};
use crate::turned::Angle;

verus! {

/// A picture with an opacity: four bytes per pixel, row by row.
pub struct Sticker {
    pub d: Vec<u8>,
    pub w: usize,
    pub h: usize,
}

impl Sticker {
    /// Every pixel has its four bytes, and no side is too long.
    pub open spec fn wf(&self) -> bool {
        &&& self.d@.len() == self.w * self.h * 4
        &&& self.w <= crate::spread::longest()
        &&& self.h <= crate::spread::longest()
    }

    /// There are no pixels.
    pub open spec fn is_blank(&self) -> bool {
        self.w == 0 || self.h == 0
    }

    /// A byte of a pixel; the last one says how opaque it is.
    pub open spec fn at(&self, x: int, y: int, c: int) -> u8 {
        self.d@[(y * self.w + x) * 4 + c]
    }

    fn get(&self, x: usize, y: usize, c: usize) -> (v: u8)
        requires
            self.wf(),
            x < self.w,
            y < self.h,
            c < 4,
        ensures
            v == self.at(x as int, y as int, c as int),
    {
        let n: usize = self.d.len();
        proof {
            crate::grid::lemma_cell_bound(x as int, y as int, self.w as int, self.h as int);
            assert(0 <= y * self.w) by (nonlinear_arith);
            assert((y * self.w + x) * 4 + c < n);
        }
        self.d[(y * self.w + x) * 4 + c]
    }
}

/// Where a sticker lies on a photo: its sides, half of them, and its middle.
pub struct Frame {
    pub dw: Signed,
    pub dh: Signed,
    pub hx: Signed,
    pub hy: Signed,
    pub cx: Signed,
    pub cy: Signed,
}

impl Frame {
    /// The numbers lie in the range.
    pub open spec fn wf(&self) -> bool {
        &&& crate::held::fits(self.dw)
        &&& crate::held::fits(self.dh)
        &&& crate::held::fits(self.hx)
        &&& crate::held::fits(self.hy)
        &&& crate::held::fits(self.cx)
        &&& crate::held::fits(self.cy)
    }
}

/// Where a `sw` by `sh` sticker lies on an `iw` by `ih` photo: it is at least a pixel wide and keeps its
/// proportions.
pub open spec fn frame(it: ImageItem, iw: int, ih: int, sw: int, sh: int) -> Frame {
    let dw = crate::held::times(it.scale, Signed::part(iw, 1)).larger(Signed::part(1, 1));
    let dh = crate::held::over(crate::held::times(dw, Signed::part(sh, 1)), Signed::part(sw, 1));
    Frame {
        dw,
        dh,
        hx: crate::held::over(dw, Signed::part(2, 1)),
        hy: crate::held::over(dh, Signed::part(2, 1)),
        cx: crate::held::times(it.x, Signed::part(iw, 1)),
        cy: crate::held::times(it.y, Signed::part(ih, 1)),
    }
}

fn frame_of(it: &ImageItem, iw: u32, ih: u32, sw: u32, sh: u32) -> (f: Frame)
    requires
        crate::held::fits(it.x),
        crate::held::fits(it.y),
        crate::held::fits(it.scale),
    ensures
        f == frame(*it, iw as int, ih as int, sw as int, sh as int),
        f.wf(),
{
    let dw = scale_by(it.scale, whole(iw as u64)).max(Signed::of(1, 1));
    let dh = divide_by(scale_by(dw, whole(sh as u64)), whole(sw as u64));
    let two = Signed::of(2, 1);
    Frame {
        dw,
        dh,
        hx: divide_by(dw, two),
        hy: divide_by(dh, two),
        cx: scale_by(it.x, whole(iw as u64)),
        cy: scale_by(it.y, whole(ih as u64)),
    }
}

/// A place round a middle, turned by an angle.
pub open spec fn turned_out(cx: Signed, cy: Signed, x: Signed, y: Signed, a: Angle) -> Point {
    (
        crate::held::minus(
            crate::held::plus(cx, crate::held::times(x, a.cos)),
            crate::held::times(y, a.sin),
        ),
        crate::held::plus(
            crate::held::plus(cy, crate::held::times(x, a.sin)),
            crate::held::times(y, a.cos),
        ),
    )
}

/// A place round a middle, turned by an angle (see [`turned_out`]).
pub fn turn_out(cx: Signed, cy: Signed, x: Signed, y: Signed, a: &Angle) -> (p: Point)
    requires
        crate::held::fits(cx),
        crate::held::fits(cy),
        crate::held::fits(x),
        crate::held::fits(y),
        a.wf(),
    ensures
        p == turned_out(cx, cy, x, y, *a),
        crate::held::fits(p.0),
        crate::held::fits(p.1),
{
    (
        take_from(add_to(cx, scale_by(x, a.cos)), scale_by(y, a.sin)),
        add_to(add_to(cy, scale_by(x, a.sin)), scale_by(y, a.cos)),
    )
}

/// The smallest upright box round four places: its corners.
pub open spec fn hull(a: Point, b: Point, c: Point, d: Point) -> (Point, Point) {
    (
        (a.0.smaller(b.0).smaller(c.0).smaller(d.0), a.1.smaller(b.1).smaller(c.1).smaller(d.1)),
        (a.0.larger(b.0).larger(c.0).larger(d.0), a.1.larger(b.1).larger(c.1).larger(d.1)),
    )
}

/// The smallest upright box round four places (see [`hull`]).
pub fn hull_of(a: Point, b: Point, c: Point, d: Point) -> (r: (Point, Point))
    requires
        crate::held::fits(a.0) && crate::held::fits(a.1),
        crate::held::fits(b.0) && crate::held::fits(b.1),
        crate::held::fits(c.0) && crate::held::fits(c.1),
        crate::held::fits(d.0) && crate::held::fits(d.1),
    ensures
        r == hull(a, b, c, d),
        crate::held::fits(r.0.0) && crate::held::fits(r.0.1),
        crate::held::fits(r.1.0) && crate::held::fits(r.1.1),
{
    (
        (a.0.min(b.0).min(c.0).min(d.0), a.1.min(b.1).min(c.1).min(d.1)),
        (a.0.max(b.0).max(c.0).max(d.0), a.1.max(b.1).max(c.1).max(d.1)),
    )
}

/// The upright box round a sticker.
pub open spec fn reach(f: Frame, a: Angle) -> (Point, Point) {
    let l = f.hx.negated();
    let t = f.hy.negated();
    hull(
        turned_out(f.cx, f.cy, l, t, a),
        turned_out(f.cx, f.cy, f.hx, t, a),
        turned_out(f.cx, f.cy, f.hx, f.hy, a),
        turned_out(f.cx, f.cy, l, f.hy, a),
    )
}

fn reach_of(f: &Frame, a: &Angle) -> (r: (Point, Point))
    requires
        f.wf(),
        a.wf(),
    ensures
        r == reach(*f, *a),
        crate::held::fits(r.0.0) && crate::held::fits(r.0.1),
        crate::held::fits(r.1.0) && crate::held::fits(r.1.1),
{
    let l = f.hx.negate();
    let t = f.hy.negate();
    hull_of(
        turn_out(f.cx, f.cy, l, t, a),
        turn_out(f.cx, f.cy, f.hx, t, a),
        turn_out(f.cx, f.cy, f.hx, f.hy, a),
        turn_out(f.cx, f.cy, l, f.hy, a),
    )
}

/// The pixel of a row of `n` is one that the box from `lo` to `hi` touches.
pub open spec fn is_touched(x: int, lo: Signed, hi: Signed, n: int) -> bool {
    crate::stroke::first_cell(lo, n) <= x <= crate::stroke::last_cell(hi, n)
}

/// A pixel's middle on a sticker, from the sticker's middle.
pub open spec fn on_sticker(f: Frame, a: Angle, x: int, y: int) -> Point {
    crate::sample::turned_back(
        (
            crate::held::minus(crate::held::plus(Signed::part(x, 1), Signed::part(1, 2)), f.cx),
            crate::held::minus(crate::held::plus(Signed::part(y, 1), Signed::part(1, 2)), f.cy),
        ),
        a.sin,
        a.cos,
    )
}

/// The place is no further than `h` from the middle.
pub open spec fn is_inside(u: Signed, h: Signed) -> bool {
    !u.lies_below(h.negated()) && !h.lies_below(u)
}

/// A place from the middle as one among `n` pixels that are `d` long, half of which is `h`.
pub open spec fn among(u: Signed, h: Signed, d: Signed, n: int) -> Signed {
    crate::held::minus(
        crate::held::times(crate::held::over(crate::held::plus(u, h), d), Signed::part(n, 1)),
        Signed::part(1, 2),
    )
}

/// A byte of a sticker as it is mixed: a colour as it is, an opacity as a share.
pub open spec fn tone(v: u8, c: int) -> Signed {
    if c == 3 {
        crate::held::over(Signed::part(v as int, 1), Signed::part(255, 1))
    } else {
        Signed::part(v as int, 1)
    }
}

/// A channel of a sticker between four pixels.
pub open spec fn tone_at(s: Sticker, x: Signed, y: Signed, c: int) -> Signed {
    let a = crate::sample::sides(x, s.w as int);
    let b = crate::sample::sides(y, s.h as int);
    crate::sample::four(
        tone(s.at(a.0, b.0, c), c),
        tone(s.at(a.1, b.0, c), c),
        tone(s.at(a.0, b.1, c), c),
        tone(s.at(a.1, b.1, c), c),
        a.2,
        b.2,
    )
}

fn tone_of(v: u8, c: usize) -> (r: Signed)
    ensures
        r == tone(v, c as int),
        crate::held::fits(r),
{
    if c == 3 {
        divide_by(whole(v as u64), Signed::of(255, 1))
    } else {
        whole(v as u64)
    }
}

/// A channel of a sticker between four pixels (see [`tone_at`]).
pub fn sample_rgba(s: &Sticker, x: Signed, y: Signed, c: usize) -> (r: Signed)
    requires
        s.wf(),
        !s.is_blank(),
        crate::held::fits(x),
        crate::held::fits(y),
        c < 4,
    ensures
        r == tone_at(*s, x, y, c as int),
        crate::held::fits(r),
{
    let a = sides_of(x, s.w);
    let b = sides_of(y, s.h);
    let top = mix(tone_of(s.get(a.0, b.0, c), c), tone_of(s.get(a.1, b.0, c), c), a.2);
    let bot = mix(tone_of(s.get(a.0, b.1, c), c), tone_of(s.get(a.1, b.1, c), c), a.2);
    mix(top, bot, b.2)
}

/// A colour with another one laid over it, so much of it.
pub open spec fn laid(b: (u8, u8, u8), s: Sticker, p: Point, a: Signed) -> (u8, u8, u8) {
    (
        crate::sample::byte(
            crate::held::mixed(Signed::part(b.0 as int, 1), tone_at(s, p.0, p.1, 0), a),
        ),
        crate::sample::byte(
            crate::held::mixed(Signed::part(b.1 as int, 1), tone_at(s, p.0, p.1, 1), a),
        ),
        crate::sample::byte(
            crate::held::mixed(Signed::part(b.2 as int, 1), tone_at(s, p.0, p.1, 2), a),
        ),
    )
}

/// A pixel of a photo once a sticker has been laid over it: as it was where the sticker does not reach
/// or can hardly be seen.
pub open spec fn covered(
    p: crate::raster::Picture,
    s: Sticker,
    it: ImageItem,
    a: Angle,
    j: int,
) -> (u8, u8, u8) {
    let x = j % p.w;
    let y = j / p.w;
    let b = crate::wipe::triple(p.d, j);
    let f = frame(it, p.w, p.h, s.w as int, s.h as int);
    let r = reach(f, a);
    let u = on_sticker(f, a, x, y);
    let q = (among(u.0, f.hx, f.dw, s.w as int), among(u.1, f.hy, f.dh, s.h as int));
    let k = crate::held::times(
        tone_at(s, q.0, q.1, 3),
        it.opacity.clamped(Signed::part(0, 1), Signed::part(1, 1)),
    );
    if s.is_blank() || !is_touched(x, r.0.0, r.1.0, p.w) || !is_touched(y, r.0.1, r.1.1, p.h)
        || !is_inside(u.0, f.hx) || !is_inside(u.1, f.hy) || !Signed::part(2, 1000).lies_below(k) {
        b
    } else {
        laid(b, s, q, k)
    }
}

fn on_sticker_of(f: &Frame, a: &Angle, x: u32, y: u32) -> (p: Point)
    requires
        f.wf(),
        a.wf(),
    ensures
        p == on_sticker(*f, *a, x as int, y as int),
        crate::held::fits(p.0),
        crate::held::fits(p.1),
{
    let half = Signed::of(1, 2);
    turn_back(
        (
            take_from(add_to(whole(x as u64), half), f.cx),
            take_from(add_to(whole(y as u64), half), f.cy),
        ),
        a.sin,
        a.cos,
    )
}

fn is_inside_of(u: Signed, h: Signed) -> (b: bool)
    requires
        crate::held::fits(u),
        crate::held::fits(h),
    ensures
        b == is_inside(u, h),
{
    !u.less(h.negate()) && !h.less(u)
}

fn among_of(u: Signed, h: Signed, d: Signed, n: usize) -> (r: Signed)
    requires
        crate::held::fits(u),
        crate::held::fits(h),
        crate::held::fits(d),
    ensures
        r == among(u, h, d, n as int),
        crate::held::fits(r),
{
    take_from(scale_by(divide_by(add_to(u, h), d), whole(n as u64)), Signed::of(1, 2))
}

/// What a sticker makes of a pixel; none where it leaves it as it is.
fn cover_of(
    b: (u8, u8, u8),
    s: &Sticker,
    f: &Frame,
    a: &Angle,
    opacity: Signed,
    x: u32,
    y: u32,
) -> (r: Option<(u8, u8, u8)>)
    requires
        s.wf(),
        !s.is_blank(),
        f.wf(),
        a.wf(),
        crate::held::fits(opacity),
    ensures
        ({
            let u = on_sticker(*f, *a, x as int, y as int);
            let q = (among(u.0, f.hx, f.dw, s.w as int), among(u.1, f.hy, f.dh, s.h as int));
            let k = crate::held::times(tone_at(*s, q.0, q.1, 3), opacity);
            r == if !is_inside(u.0, f.hx) || !is_inside(u.1, f.hy) || !Signed::part(2, 1000).lies_below(
                k,
            ) {
                None
            } else {
                Some(laid(b, *s, q, k))
            }
        }),
{
    let u = on_sticker_of(f, a, x, y);
    if !is_inside_of(u.0, f.hx) || !is_inside_of(u.1, f.hy) {
        return None;
    }
    let qx = among_of(u.0, f.hx, f.dw, s.w);
    let qy = among_of(u.1, f.hy, f.dh, s.h);
    let k = scale_by(sample_rgba(s, qx, qy, 3), opacity);
    if !Signed::of(2, 1000).less(k) {
        return None;
    }
    Some(
        (
            byte_of(mix(whole(b.0 as u64), sample_rgba(s, qx, qy, 0), k)),
            byte_of(mix(whole(b.1 as u64), sample_rgba(s, qx, qy, 1), k)),
            byte_of(mix(whole(b.2 as u64), sample_rgba(s, qx, qy, 2), k)),
        ),
    )
}

/// Lays a sticker over a photo (see [`covered`]).
pub fn draw_image(img: &mut Raster, it: &ImageItem, s: &Sticker, a: &Angle)
    requires
        old(img)@.wf(),
        0 < old(img).w <= crate::spread::longest(),
        0 < old(img).h <= crate::spread::longest(),
        crate::held::fits(it.x),
        crate::held::fits(it.y),
        crate::held::fits(it.scale),
        crate::held::fits(it.opacity),
        s.wf(),
        a.wf(),
    ensures
        final(img)@.wf(),
        final(img)@.w == old(img)@.w,
        final(img)@.h == old(img)@.h,
        forall|j: int|
            0 <= j < old(img)@.w * old(img)@.h ==> #[trigger] crate::wipe::triple(final(img)@.d, j)
                == covered(old(img)@, *s, *it, *a, j),
{
    let ghost before = img@;
    if s.w == 0 || s.h == 0 {
        return;
    }
    let f = frame_of(it, img.w as u32, img.h as u32, s.w as u32, s.h as u32);
    let r = reach_of(&f, a);
    let x0: u32 = first_cell_of(r.0.0, img.w as u32);
    let y0: u32 = first_cell_of(r.0.1, img.h as u32);
    let x1: u32 = last_cell_of(r.1.0, img.w as u32);
    let y1: u32 = last_cell_of(r.1.1, img.h as u32);
    let opacity = it.opacity.clamp(Signed::zero(), Signed::of(1, 1));
    let bytes: usize = img.d.len();
    proof {
        assert(0 <= before.w * before.h <= bytes) by (nonlinear_arith)
            requires
                bytes == before.w * before.h * 3,
                before.w >= 0,
                before.h >= 0,
        ;
    }
    let n: usize = img.w * img.h;
    let mut j: usize = 0;
    while j < n
        invariant
            j <= n == before.w * before.h,
            before.wf(),
            0 < before.w <= crate::spread::longest(),
            0 < before.h <= crate::spread::longest(),
            img@.w == before.w,
            img@.h == before.h,
            img.d@.len() == bytes == before.d.len() == n * 3,
            s.wf(),
            !s.is_blank(),
            a.wf(),
            f.wf(),
            f == frame(*it, before.w, before.h, s.w as int, s.h as int),
            r == reach(f, *a),
            x0 == crate::stroke::first_cell(r.0.0, before.w),
            y0 == crate::stroke::first_cell(r.0.1, before.h),
            x1 == crate::stroke::last_cell(r.1.0, before.w),
            y1 == crate::stroke::last_cell(r.1.1, before.h),
            opacity == it.opacity.clamped(Signed::part(0, 1), Signed::part(1, 1)),
            crate::held::fits(opacity),
            forall|i: int| j * 3 <= i < bytes ==> #[trigger] img.d@[i] == before.d[i],
            forall|k: int|
                0 <= k < j ==> #[trigger] crate::wipe::triple(img@.d, k) == covered(
                    before,
                    *s,
                    *it,
                    *a,
                    k,
                ),
        decreases n - j,
    {
        proof {
            crate::grid::lemma_cell_split(j as int, before.w, before.h);
            assert(j * 3 + 3 <= bytes);
        }
        let x: u32 = (j % img.w) as u32;
        let y: u32 = (j / img.w) as u32;
        let ghost mid = img@.d;
        if x0 <= x && x <= x1 && y0 <= y && y <= y1 {
            let b = (img.d[j * 3], img.d[j * 3 + 1], img.d[j * 3 + 2]);
            match cover_of(b, s, &f, a, opacity, x, y) {
                Some(t) => {
                    img.d.set(j * 3, t.0);
                    img.d.set(j * 3 + 1, t.1);
                    img.d.set(j * 3 + 2, t.2);
                },
                None => {},
            }
        }
        proof {
            assert forall|k: int| 0 <= k < j implies #[trigger] crate::wipe::triple(img@.d, k)
                == crate::wipe::triple(mid, k) by {}
            assert(crate::wipe::triple(mid, j as int) == crate::wipe::triple(before.d, j as int));
            assert(crate::wipe::triple(img@.d, j as int) == covered(before, *s, *it, *a, j as int));
        }
        j += 1;
    }
}

/// A sticker that is not opaque at all leaves every pixel as it is.
pub proof fn law_invisible_overlay(
    p: crate::raster::Picture,
    s: Sticker,
    it: ImageItem,
    a: Angle,
    j: int,
)
    requires
        it.opacity == Signed::part(0, 1),
    ensures
        covered(p, s, it, a, j) == crate::wipe::triple(p.d, j),
{
    crate::single::law_nearest_unique(0, 1, crate::single::nought());
    let f = frame(it, p.w, p.h, s.w as int, s.h as int);
    let u = on_sticker(f, a, j % p.w, j / p.w);
    let q = (among(u.0, f.hx, f.dw, s.w as int), among(u.1, f.hy, f.dh, s.h as int));
    let t = tone_at(s, q.0, q.1, 3);
    let o = it.opacity.clamped(Signed::part(0, 1), Signed::part(1, 1));
    reveal(crate::held::times);
    reveal(Signed::product);
    assert(o == Signed::part(0, 1));
    assert(t.size.m * 0 == 0) by (nonlinear_arith);
    assert(crate::held::times(t, o) == Signed::part(0, 1));
}

} // verus!
