//! Pictures between their pixels: sampling, turning and scaling.

use vstd::prelude::*;

use crate::held::{add_to, divide_by, mix, scale_by, take_from, whole};
use crate::raster::Raster;
use crate::signed::Signed;
use crate::stroke::{first_cell_of, Point};

verus! {

/// The cell before a place, the cell after it, and how far past the first one it lies.
pub open spec fn sides(f: Signed, n: int) -> (int, int, Signed) {
    if f.neg {
        (0, 0, crate::held::plus(f, Signed::part(1, 1)))
    } else {
        let i = crate::stroke::first_cell(f, n);
        (i, crate::signed::min_of(i + 1, n - 1), crate::held::minus(f, Signed::part(i, 1)))
    }
}

/// The cells on either side of a place (see [`sides`]).
pub fn sides_of(f: Signed, n: usize) -> (r: (usize, usize, Signed))
    requires
        0 < n <= crate::spread::longest(),
        crate::held::fits(f),
    ensures
        (r.0 as int, r.1 as int, r.2) == sides(f, n as int),
        r.0 < n,
        r.1 < n,
        crate::held::fits(r.2),
{
    if f.neg {
        (0, 0, add_to(f, Signed::of(1, 1)))
    } else {
        let i: u32 = first_cell_of(f, n as u32);
        let j: usize = if (i as usize) < n - 1 {
            i as usize + 1
        } else {
            n - 1
        };
        (i as usize, j, take_from(f, whole(i as u64)))
    }
}

/// A number as a byte.
pub open spec fn byte(v: Signed) -> u8 {
    v.clamped(Signed::part(0, 1), Signed::part(255, 1)).nearest_integer() as u8
}

/// A number as a byte (see [`byte`]). It is no larger than a byte that the number does not pass.
pub fn byte_of(v: Signed) -> (b: u8)
    requires
        crate::held::fits(v),
    ensures
        b == byte(v),
        forall|n: u8| !(#[trigger] Signed::part(n as int, 1)).lies_below(v) ==> b <= n,
{
    let top = Signed::of(255, 1);
    let c = v.clamp(Signed::zero(), top);
    proof {
        assert(!top.lies_below(c));
        assert(!c.neg);
        crate::mask::lemma_upto(c, 255);
        crate::single::law_round_within(c.size, 255, top.size);
        assert forall|n: u8| !(#[trigger] Signed::part(n as int, 1)).lies_below(v) implies c.nearest_integer()
            <= n by {
            lemma_rounds_within(c, n);
        }
    }
    let n: u64 = c.size.round();
    n as u8
}

/// A number that is no larger than a byte is no larger than it when it is rounded.
proof fn lemma_rounds_within(c: Signed, n: u8)
    requires
        c.size.wf(),
        !c.neg,
        !Signed::part(n as int, 1).lies_below(c),
    ensures
        c.nearest_integer() <= n,
{
    if n == 0 {
        crate::single::law_nearest_unique(0, 1, crate::single::nought());
        assert(c.size.m == 0);
        assert(crate::single::round(c.size) == 0);
    } else {
        crate::single::lemma_small_nearest(n as int);
        crate::single::law_round_within(c.size, n as int, Signed::part(n as int, 1).size);
    }
}

/// The place is on a picture `n` pixels long, up to half a pixel past its outer pixels' middles; a
/// place at the very start is on it only if `start`.
pub open spec fn is_on(f: Signed, n: int, start: bool) -> bool {
    let edge = Signed::part(1, 2).negated();
    &&& if start {
        !f.lies_below(edge)
    } else {
        edge.lies_below(f)
    }
    &&& !crate::held::minus(Signed::part(n, 1), Signed::part(1, 2)).lies_below(f)
}

/// A channel of a picture between four pixels.
pub open spec fn channel_at(p: crate::raster::Picture, x: Signed, y: Signed, c: int) -> u8 {
    let a = sides(x, p.w);
    let b = sides(y, p.h);
    byte(
        four(
            Signed::part(p.at(a.0, b.0, c) as int, 1),
            Signed::part(p.at(a.1, b.0, c) as int, 1),
            Signed::part(p.at(a.0, b.1, c) as int, 1),
            Signed::part(p.at(a.1, b.1, c) as int, 1),
            a.2,
            b.2,
        ),
    )
}

/// Between four numbers, `s` of the way across and `t` of the way down.
pub open spec fn four(a: Signed, b: Signed, c: Signed, d: Signed, s: Signed, t: Signed) -> Signed {
    crate::held::mixed(crate::held::mixed(a, b, s), crate::held::mixed(c, d, s), t)
}

/// The colour of a picture at a place; none off the picture.
pub open spec fn colour_at(p: crate::raster::Picture, x: Signed, y: Signed, start: bool) -> Option<
    (u8, u8, u8),
> {
    if is_on(x, p.w, start) && is_on(y, p.h, start) {
        Some((channel_at(p, x, y, 0), channel_at(p, x, y, 1), channel_at(p, x, y, 2)))
    } else {
        None
    }
}

fn is_on_of(f: Signed, n: usize, start: bool) -> (b: bool)
    requires
        crate::held::fits(f),
    ensures
        b == is_on(f, n as int, start),
{
    let edge = Signed::of(1, 2).negate();
    let far = take_from(whole(n as u64), Signed::of(1, 2));
    (if start {
        !f.less(edge)
    } else {
        edge.less(f)
    }) && !far.less(f)
}

fn four_of(a: u8, b: u8, c: u8, d: u8, s: Signed, t: Signed) -> (v: u8)
    requires
        crate::held::fits(s),
        crate::held::fits(t),
    ensures
        v == byte(
            four(
                Signed::part(a as int, 1),
                Signed::part(b as int, 1),
                Signed::part(c as int, 1),
                Signed::part(d as int, 1),
                s,
                t,
            ),
        ),
{
    let top = mix(whole(a as u64), whole(b as u64), s);
    let bot = mix(whole(c as u64), whole(d as u64), s);
    byte_of(mix(top, bot, t))
}

/// The colour of a picture at a place (see [`colour_at`]).
pub fn sample(img: &Raster, x: Signed, y: Signed, start: bool) -> (c: Option<(u8, u8, u8)>)
    requires
        img@.wf(),
        0 < img.w <= crate::spread::longest(),
        0 < img.h <= crate::spread::longest(),
        crate::held::fits(x),
        crate::held::fits(y),
    ensures
        c == colour_at(img@, x, y, start),
{
    if !is_on_of(x, img.w, start) || !is_on_of(y, img.h, start) {
        return None;
    }
    let a = sides_of(x, img.w);
    let b = sides_of(y, img.h);
    Some(
        (
            four_of(
                img.get(a.0, b.0, 0),
                img.get(a.1, b.0, 0),
                img.get(a.0, b.1, 0),
                img.get(a.1, b.1, 0),
                a.2,
                b.2,
            ),
            four_of(
                img.get(a.0, b.0, 1),
                img.get(a.1, b.0, 1),
                img.get(a.0, b.1, 1),
                img.get(a.1, b.1, 1),
                a.2,
                b.2,
            ),
            four_of(
                img.get(a.0, b.0, 2),
                img.get(a.1, b.0, 2),
                img.get(a.0, b.1, 2),
                img.get(a.1, b.1, 2),
                a.2,
                b.2,
            ),
        ),
    )
}

/// The middle of pixel `x` of `n`, seen from the middle of them all.
pub open spec fn from_middle(x: int, n: int) -> Signed {
    crate::held::minus(
        crate::held::plus(Signed::part(x, 1), Signed::part(1, 2)),
        crate::held::over(Signed::part(n, 1), Signed::part(2, 1)),
    )
}

/// The middle of a pixel, seen from the middle of them all (see [`from_middle`]).
pub fn from_middle_of(x: u32, n: u32) -> (v: Signed)
    ensures
        v == from_middle(x as int, n as int),
        crate::held::fits(v),
{
    take_from(
        add_to(whole(x as u64), Signed::of(1, 2)),
        divide_by(whole(n as u64), Signed::of(2, 1)),
    )
}

/// A place turned back by an angle that is given by its sine and cosine.
pub open spec fn turned_back(p: Point, sin: Signed, cos: Signed) -> Point {
    (
        crate::held::plus(crate::held::times(p.0, cos), crate::held::times(p.1, sin)),
        crate::held::plus(crate::held::times(p.0.negated(), sin), crate::held::times(p.1, cos)),
    )
}

/// A place turned back by an angle (see [`turned_back`]).
pub fn turn_back(p: Point, sin: Signed, cos: Signed) -> (q: Point)
    requires
        crate::held::fits(p.0),
        crate::held::fits(p.1),
        crate::held::fits(sin),
        crate::held::fits(cos),
    ensures
        q == turned_back(p, sin, cos),
        crate::held::fits(q.0),
        crate::held::fits(q.1),
{
    (
        add_to(scale_by(p.0, cos), scale_by(p.1, sin)),
        add_to(scale_by(p.0.negate(), sin), scale_by(p.1, cos)),
    )
}

/// A side of a picture that is turned: how far its own sides reach, as far as 32 bits go.
pub open spec fn turned_side(w: int, h: int, a: Signed, b: Signed) -> int {
    let v = crate::held::plus(
        crate::held::times(Signed::part(w, 1), a.size_of()),
        crate::held::times(Signed::part(h, 1), b.size_of()),
    );
    if v.neg {
        1
    } else if v.size.e > 8 {
        TURNED_MOST as int
    } else {
        crate::scale::within(crate::single::round(v.size), 1, TURNED_MOST as int)
    }
}

/// The longest side that a turned picture has.
pub const TURNED_MOST: u32 = 0xFFFF_FFFF;

impl Signed {
    /// The number without its sign.
    pub open spec fn size_of(self) -> Signed {
        Signed { neg: false, size: self.size }
    }
}

/// The place of a picture that a pixel of the turned one shows.
pub open spec fn shown(x: int, y: int, ow: int, oh: int, w: int, h: int, sin: Signed, cos: Signed) -> Point {
    let p = turned_back((from_middle(x, ow), from_middle(y, oh)), sin, cos);
    (
        crate::held::minus(
            crate::held::plus(p.0, crate::held::over(Signed::part(w, 1), Signed::part(2, 1))),
            Signed::part(1, 2),
        ),
        crate::held::minus(
            crate::held::plus(p.1, crate::held::over(Signed::part(h, 1), Signed::part(2, 1))),
            Signed::part(1, 2),
        ),
    )
}

/// A side of a turned picture (see [`turned_side`]).
pub fn turned_side_of(w: u32, h: u32, a: Signed, b: Signed) -> (n: u32)
    requires
        crate::held::fits(a),
        crate::held::fits(b),
    ensures
        n == turned_side(w as int, h as int, a, b),
        1 <= n <= TURNED_MOST,
{
    let pa = Signed { neg: false, size: a.size };
    let pb = Signed { neg: false, size: b.size };
    let v = add_to(scale_by(whole(w as u64), pa), scale_by(whole(h as u64), pb));
    if v.neg {
        1
    } else if v.size.e > 8 {
        TURNED_MOST
    } else {
        let n: u64 = v.size.round();
        if n < 1 {
            1
        } else if n > TURNED_MOST as u64 {
            TURNED_MOST
        } else {
            n as u32
        }
    }
}

/// One of three bytes, black where there are none.
pub open spec fn third(t: Option<(u8, u8, u8)>, c: int) -> u8 {
    match t {
        Some(v) => if c == 0 {
            v.0
        } else if c == 1 {
            v.1
        } else {
            v.2
        },
        None => 0,
    }
}

/// Turns a picture by an angle that is given by its sine and cosine. The turned picture is as large as
/// it has to be; what the picture does not cover is black. There is none where it would not fit into
/// memory.
pub fn rotate(img: &Raster, sin: Signed, cos: Signed) -> (out: Option<Raster>)
    requires
        img@.wf(),
        0 < img.w <= crate::spread::longest(),
        0 < img.h <= crate::spread::longest(),
        crate::held::fits(sin),
        crate::held::fits(cos),
    ensures
        ({
            let ow = turned_side(img@.w, img@.h, cos, sin);
            let oh = turned_side(img@.w, img@.h, sin, cos);
            &&& out is Some <==> ow * oh * 3 <= usize::MAX
            &&& out matches Some(r) ==> r@.wf() && r@.w == ow && r@.h == oh
            &&& out matches Some(r) ==> forall|i: int|
                0 <= i < r@.d.len() ==> #[trigger] r@.d[i] == third(
                    seen(img@, ow, oh, (i / 3) % ow, (i / 3) / ow, sin, cos),
                    i % 3,
                )
        }),
{
    let w: u32 = img.w as u32;
    let h: u32 = img.h as u32;
    let ow: u32 = turned_side_of(w, h, cos, sin);
    let oh: u32 = turned_side_of(w, h, sin, cos);
    assert(0 < ow * oh <= 0xFFFF_FFFF * 0xFFFF_FFFF) by (nonlinear_arith)
        requires
            1 <= ow <= 0xFFFF_FFFF,
            1 <= oh <= 0xFFFF_FFFF,
    ;
    let all: u64 = ow as u64 * oh as u64;
    if all > usize::MAX as u64 / 3 {
        return None;
    }
    let n: usize = ow as usize * oh as usize;
    let mut d: Vec<u8> = Vec::new();
    let mut j: usize = 0;
    while j < n
        invariant
            j <= n == ow * oh,
            n * 3 <= usize::MAX,
            img@.wf(),
            0 < img.w <= crate::spread::longest(),
            0 < img.h <= crate::spread::longest(),
            w == img.w,
            h == img.h,
            1 <= ow,
            1 <= oh,
            crate::held::fits(sin),
            crate::held::fits(cos),
            d@.len() == j * 3,
            forall|i: int|
                0 <= i < d@.len() ==> #[trigger] d@[i] == third(
                    seen(
                        img@,
                        ow as int,
                        oh as int,
                        (i / 3) % ow as int,
                        (i / 3) / ow as int,
                        sin,
                        cos,
                    ),
                    i % 3,
                ),
        decreases n - j,
    {
        proof {
            crate::grid::lemma_cell_split(j as int, ow as int, oh as int);
        }
        let x: u32 = (j % ow as usize) as u32;
        let y: u32 = (j / ow as usize) as u32;
        match seen_of(img, ow, oh, x, y, sin, cos) {
            Some(c) => {
                d.push(c.0);
                d.push(c.1);
                d.push(c.2);
            },
            None => {
                d.push(0);
                d.push(0);
                d.push(0);
            },
        }
        j += 1;
    }
    Some(Raster { w: ow as usize, h: oh as usize, d })
}

/// What a pixel of a turned picture shows of it.
pub open spec fn seen(
    p: crate::raster::Picture,
    ow: int,
    oh: int,
    x: int,
    y: int,
    sin: Signed,
    cos: Signed,
) -> Option<(u8, u8, u8)> {
    let s = shown(x, y, ow, oh, p.w, p.h, sin, cos);
    colour_at(p, s.0, s.1, true)
}

fn seen_of(img: &Raster, ow: u32, oh: u32, x: u32, y: u32, sin: Signed, cos: Signed) -> (c: Option<
    (u8, u8, u8),
>)
    requires
        img@.wf(),
        0 < img.w <= crate::spread::longest(),
        0 < img.h <= crate::spread::longest(),
        crate::held::fits(sin),
        crate::held::fits(cos),
    ensures
        c == seen(img@, ow as int, oh as int, x as int, y as int, sin, cos),
{
    let p = turn_back((from_middle_of(x, ow), from_middle_of(y, oh)), sin, cos);
    let half = Signed::of(1, 2);
    let two = Signed::of(2, 1);
    let sx = take_from(add_to(p.0, divide_by(whole(img.w as u64), two)), half);
    let sy = take_from(add_to(p.1, divide_by(whole(img.h as u64), two)), half);
    sample(img, sx, sy, true)
}

} // verus!
