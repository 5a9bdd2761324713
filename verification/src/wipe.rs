//! Wiping smoke away with a brush: how much the brush covers, what lies behind it, and what smoke is.

use vstd::prelude::*;

use crate::advice::{ease, smoothstep};
use crate::edit::{crop, divide_up, wipe_grid, Wipe};
use crate::grade::clarity_reach_of;
use crate::held::{add_to, divide_by, hold, mix, root_of, scale_by, take_from, whole};
use crate::raster::Raster;
use crate::sample::{byte_of, sides_of};
use crate::scale::window;
use crate::signed::{Colour, Signed};
use crate::spread::box_blur;
use crate::stroke::{first_cell_of, last_cell_of, Point};

verus! {

/// A brush on a part of a photo that is `bw` by `bh` pixels large.
pub struct Tool {
    /// How far it reaches, and how far it covers fully.
    pub r: Signed,
    pub inner: Signed,
    /// How much comes off at a touch.
    pub flow: Signed,
    pub bw: u32,
    pub bh: u32,
}

impl Tool {
    /// The numbers lie in their range, and there are pixels.
    pub open spec fn wf(&self) -> bool {
        &&& crate::held::fits(self.r)
        &&& crate::held::fits(self.inner)
        &&& crate::held::fits(self.flow)
        &&& self.bw > 0
        &&& self.bh > 0
    }

    /// How far a pixel's middle is from a touch.
    pub open spec fn distance(&self, at: Point, x: int, y: int) -> Signed {
        let dx = crate::held::minus(
            crate::held::plus(Signed::part(x, 1), Signed::part(1, 2)),
            at.0,
        );
        let dy = crate::held::minus(
            crate::held::plus(Signed::part(y, 1), Signed::part(1, 2)),
            at.1,
        );
        crate::held::root(crate::held::plus(crate::held::times(dx, dx), crate::held::times(dy, dy)))
    }

    /// How strongly a touch covers what is so far away; not at all past the brush's reach.
    pub open spec fn strength(&self, d: Signed) -> Option<Signed> {
        if !self.inner.lies_below(d) {
            Some(Signed::part(1, 1))
        } else if !d.lies_below(self.r) {
            None
        } else {
            let soft = crate::held::minus(self.r, self.inner).larger(Signed::part(1, 1000));
            Some(
                crate::held::held(
                    crate::advice::eased(crate::held::over(crate::held::minus(self.r, d), soft)),
                ),
            )
        }
    }

    /// Coverage once a touch of a strength has come on top: with full flow the stronger one counts,
    /// else a part of what was left open is covered.
    pub open spec fn layered(&self, slot: Signed, a: Signed) -> Signed {
        if !self.flow.lies_below(Signed::part(1, 1)) {
            slot.larger(a)
        } else {
            crate::held::plus(
                slot,
                crate::held::times(
                    crate::held::times(a, self.flow),
                    crate::held::minus(Signed::part(1, 1), slot),
                ),
            )
        }
    }

    /// The pixel lies in the box around a touch.
    pub open spec fn is_near(&self, at: Point, x: int, y: int) -> bool {
        &&& crate::stroke::first_cell(crate::held::minus(at.0, self.r), self.bw as int) <= x
            <= crate::stroke::last_cell(crate::held::plus(at.0, self.r), self.bw as int)
        &&& crate::stroke::first_cell(crate::held::minus(at.1, self.r), self.bh as int) <= y
            <= crate::stroke::last_cell(crate::held::plus(at.1, self.r), self.bh as int)
    }

    /// Coverage of a pixel after a touch.
    pub open spec fn touched(&self, slot: Signed, at: Point, x: int, y: int) -> Signed {
        if self.is_near(at, x, y) {
            match self.strength(self.distance(at, x, y)) {
                Some(a) => self.layered(slot, a),
                None => slot,
            }
        } else {
            slot
        }
    }

    /// Coverage of all pixels after a touch.
    pub open spec fn stamped(&self, cov: Seq<Signed>, at: Point) -> Seq<Signed> {
        Seq::new(
            cov.len(),
            |j: int| self.touched(cov[j], at, j % self.bw as int, j / self.bw as int),
        )
    }

    /// Coverage after the first `i` of `n` touches on the way from `q` by `(dx, dy)`.
    pub open spec fn drawn(
        &self,
        cov: Seq<Signed>,
        q: Point,
        dx: Signed,
        dy: Signed,
        i: int,
        n: int,
    ) -> Seq<Signed>
        decreases i,
    {
        if i <= 0 {
            cov
        } else {
            self.stamped(self.drawn(cov, q, dx, dy, i - 1, n), passed(q, dx, dy, i, n))
        }
    }

    /// Coverage once the first `k` points of a stroke are drawn, with touches no further apart than
    /// `step`.
    pub open spec fn swept(&self, pts: Seq<Point>, step: Signed, k: int) -> Seq<Signed>
        decreases k,
    {
        let bare = Seq::new((self.bw * self.bh) as nat, |j: int| Signed::part(0, 1));
        if k <= 0 {
            bare
        } else if k == 1 {
            self.stamped(bare, pts[0])
        } else {
            let q = pts[k - 2];
            let dx = crate::held::minus(pts[k - 1].0, q.0);
            let dy = crate::held::minus(pts[k - 1].1, q.1);
            let n = touches(dx, dy, step);
            self.drawn(self.swept(pts, step, k - 1), q, dx, dy, n, n)
        }
    }

    fn distance_of(&self, at: Point, x: u32, y: u32) -> (d: Signed)
        requires
            crate::stroke::is_spot(at),
        ensures
            d == self.distance(at, x as int, y as int),
            crate::held::fits(d),
    {
        let dx = take_from(add_to(whole(x as u64), Signed::of(1, 2)), at.0);
        let dy = take_from(add_to(whole(y as u64), Signed::of(1, 2)), at.1);
        root_of(add_to(scale_by(dx, dx), scale_by(dy, dy)))
    }

    fn strength_of(&self, d: Signed) -> (r: Option<Signed>)
        requires
            self.wf(),
            crate::held::fits(d),
        ensures
            r == self.strength(d),
            r matches Some(a) ==> crate::held::fits(a),
    {
        if !self.inner.less(d) {
            Some(Signed::of(1, 1))
        } else if !d.less(self.r) {
            None
        } else {
            let soft = take_from(self.r, self.inner).max(Signed::of(1, 1000));
            Some(hold(ease(divide_by(take_from(self.r, d), soft))))
        }
    }

    fn layer(&self, slot: Signed, a: Signed) -> (r: Signed)
        requires
            self.wf(),
            crate::held::fits(slot),
            crate::held::fits(a),
        ensures
            r == self.layered(slot, a),
            crate::held::fits(r),
    {
        if !self.flow.less(Signed::of(1, 1)) {
            slot.max(a)
        } else {
            add_to(slot, scale_by(scale_by(a, self.flow), take_from(Signed::of(1, 1), slot)))
        }
    }

    /// Touches the photo at one place (see [`Tool::stamped`]).
    pub fn stamp(&self, cov: &mut Vec<Signed>, at: Point)
        requires
            self.wf(),
            crate::stroke::is_spot(at),
            old(cov)@.len() == self.bw * self.bh,
            forall|j: int| 0 <= j < old(cov)@.len() ==> crate::held::fits(#[trigger] old(cov)@[j]),
        ensures
            final(cov)@ == self.stamped(old(cov)@, at),
            final(cov)@.len() == old(cov)@.len(),
            forall|j: int| 0 <= j < final(cov)@.len() ==> crate::held::fits(#[trigger] final(cov)@[j]),
    {
        let ghost before = cov@;
        let x0: u32 = first_cell_of(take_from(at.0, self.r), self.bw);
        let x1: u32 = last_cell_of(add_to(at.0, self.r), self.bw);
        let y0: u32 = first_cell_of(take_from(at.1, self.r), self.bh);
        let y1: u32 = last_cell_of(add_to(at.1, self.r), self.bh);
        let n: usize = cov.len();
        let bw: usize = self.bw as usize;
        proof {
            lemma_rows(y0 as int, self.bw as int, self.bh as int);
        }
        let mut j: usize = y0 as usize * bw;
        let mut y: u32 = y0;
        assert forall|i: int| 0 <= i < j implies self.touched(
            before[i],
            at,
            i % self.bw as int,
            i / self.bw as int,
        ) == before[i] by {
            lemma_place(i, self.bw as int);
            assert((i / self.bw as int) < y0) by (nonlinear_arith)
                requires
                    i < y0 * self.bw,
                    i == (i / self.bw as int) * self.bw + i % self.bw as int,
                    0 <= i % self.bw as int,
                    self.bw > 0,
            ;
        }
        while y < self.bh && y <= y1
            invariant
                self.wf(),
                crate::stroke::is_spot(at),
                y0 <= y <= self.bh,
                bw == self.bw,
                n == before.len() == self.bw * self.bh == cov@.len(),
                j == y * bw,
                x0 == crate::stroke::first_cell(crate::held::minus(at.0, self.r), self.bw as int),
                x1 == crate::stroke::last_cell(crate::held::plus(at.0, self.r), self.bw as int),
                y0 == crate::stroke::first_cell(crate::held::minus(at.1, self.r), self.bh as int),
                y1 == crate::stroke::last_cell(crate::held::plus(at.1, self.r), self.bh as int),
                forall|i: int|
                    0 <= i < j ==> #[trigger] cov@[i] == self.touched(
                        before[i],
                        at,
                        i % self.bw as int,
                        i / self.bw as int,
                    ),
                forall|i: int| j <= i < n ==> #[trigger] cov@[i] == before[i],
                forall|i: int| 0 <= i < n ==> crate::held::fits(#[trigger] cov@[i]),
            decreases self.bh - y,
        {
            proof {
                lemma_rows(y + 1, self.bw as int, self.bh as int);
                assert((y + 1) * bw == y * bw + bw) by (nonlinear_arith);
            }
            let mut x: u32 = 0;
            while x < self.bw
                invariant
                    self.wf(),
                    crate::stroke::is_spot(at),
                    x <= self.bw,
                    y0 <= y <= y1,
                    y < self.bh,
                    bw == self.bw,
                    n == before.len() == self.bw * self.bh == cov@.len(),
                    j == y * bw + x,
                    (y + 1) * bw == y * bw + bw,
                    (y + 1) * bw <= n,
                    x0 == crate::stroke::first_cell(crate::held::minus(at.0, self.r), self.bw as int),
                    x1 == crate::stroke::last_cell(crate::held::plus(at.0, self.r), self.bw as int),
                    y0 == crate::stroke::first_cell(crate::held::minus(at.1, self.r), self.bh as int),
                    y1 == crate::stroke::last_cell(crate::held::plus(at.1, self.r), self.bh as int),
                    forall|i: int|
                        0 <= i < j ==> #[trigger] cov@[i] == self.touched(
                            before[i],
                            at,
                            i % self.bw as int,
                            i / self.bw as int,
                        ),
                    forall|i: int| j <= i < n ==> #[trigger] cov@[i] == before[i],
                    forall|i: int| 0 <= i < n ==> crate::held::fits(#[trigger] cov@[i]),
                decreases self.bw - x,
            {
                proof {
                    vstd::arithmetic::div_mod::lemma_fundamental_div_mod_converse(
                        j as int,
                        bw as int,
                        y as int,
                        x as int,
                    );
                }
                if x0 <= x && x <= x1 {
                    match self.strength_of(self.distance_of(at, x, y)) {
                        Some(a) => {
                            let slot = self.layer(cov[j], a);
                            cov.set(j, slot);
                        },
                        None => {},
                    }
                }
                j += 1;
                x += 1;
            }
            y += 1;
        }
        assert forall|i: int| 0 <= i < n implies #[trigger] cov@[i] == self.touched(
            before[i],
            at,
            i % self.bw as int,
            i / self.bw as int,
        ) by {
            if i >= j {
                lemma_place(i, self.bw as int);
                assert(i / self.bw as int >= y) by (nonlinear_arith)
                    requires
                        i >= y * self.bw,
                        i == (i / self.bw as int) * self.bw + i % self.bw as int,
                        (i % self.bw as int) < self.bw,
                        self.bw > 0,
                ;
                assert((i / self.bw as int) < self.bh) by (nonlinear_arith)
                    requires
                        i < self.bw * self.bh,
                        i == (i / self.bw as int) * self.bw + i % self.bw as int,
                        i % self.bw as int >= 0,
                        self.bw > 0,
                ;
            }
        }
        assert(cov@ =~= self.stamped(before, at));
    }

    /// Touches the photo `n` times on the way from `q` by `(dx, dy)` (see [`Tool::drawn`]).
    fn draw(&self, cov: &mut Vec<Signed>, q: Point, dx: Signed, dy: Signed, n: u64)
        requires
            self.wf(),
            crate::stroke::is_spot(q),
            crate::held::fits(dx),
            crate::held::fits(dy),
            old(cov)@.len() == self.bw * self.bh,
            forall|j: int| 0 <= j < old(cov)@.len() ==> crate::held::fits(#[trigger] old(cov)@[j]),
        ensures
            final(cov)@ == self.drawn(old(cov)@, q, dx, dy, n as int, n as int),
            final(cov)@.len() == old(cov)@.len(),
            forall|j: int| 0 <= j < final(cov)@.len() ==> crate::held::fits(#[trigger] final(cov)@[j]),
    {
        let ghost before = cov@;
        let mut i: u64 = 0;
        while i < n
            invariant
                self.wf(),
                crate::stroke::is_spot(q),
                crate::held::fits(dx),
                crate::held::fits(dy),
                i <= n,
                cov@ == self.drawn(before, q, dx, dy, i as int, n as int),
                cov@.len() == self.bw * self.bh,
                forall|j: int| 0 <= j < cov@.len() ==> crate::held::fits(#[trigger] cov@[j]),
            decreases n - i,
        {
            i += 1;
            let t = divide_by(whole(i), whole(n));
            let at = (add_to(q.0, scale_by(dx, t)), add_to(q.1, scale_by(dy, t)));
            self.stamp(cov, at);
        }
    }

    /// Draws a stroke (see [`Tool::swept`]).
    pub fn sweep(&self, pts: &Vec<Point>, step: Signed) -> (cov: Vec<Signed>)
        requires
            self.wf(),
            crate::held::fits(step),
            self.bw * self.bh <= usize::MAX,
            forall|i: int| 0 <= i < pts@.len() ==> crate::stroke::is_spot(#[trigger] pts@[i]),
        ensures
            cov@ == self.swept(pts@, step, pts@.len() as int),
            cov@.len() == self.bw * self.bh,
            forall|j: int| 0 <= j < cov@.len() ==> crate::held::fits(#[trigger] cov@[j]),
    {
        assert(self.bw * self.bh >= 0) by (nonlinear_arith);
        let n: usize = self.bw as usize * self.bh as usize;
        let mut cov: Vec<Signed> = Vec::new();
        let mut j: usize = 0;
        while j < n
            invariant
                j <= n,
                cov@.len() == j,
                forall|i: int| 0 <= i < j ==> #[trigger] cov@[i] == Signed::part(0, 1),
                forall|i: int| 0 <= i < j ==> crate::held::fits(#[trigger] cov@[i]),
            decreases n - j,
        {
            cov.push(Signed::zero());
            j += 1;
        }
        let m: usize = pts.len();
        assert(cov@ =~= self.swept(pts@, step, 0));
        let mut k: usize = 0;
        while k < m
            invariant
                self.wf(),
                crate::held::fits(step),
                k <= m == pts@.len(),
                forall|i: int| 0 <= i < pts@.len() ==> crate::stroke::is_spot(#[trigger] pts@[i]),
                cov@ == self.swept(pts@, step, k as int),
                cov@.len() == self.bw * self.bh,
                forall|j: int| 0 <= j < cov@.len() ==> crate::held::fits(#[trigger] cov@[j]),
            decreases m - k,
        {
            if k == 0 {
                assert(cov@ =~= Seq::new((self.bw * self.bh) as nat, |j: int| Signed::part(0, 1)));
                self.stamp(&mut cov, pts[0]);
            } else {
                let q = pts[k - 1];
                let dx = take_from(pts[k].0, q.0);
                let dy = take_from(pts[k].1, q.1);
                let n: u64 = touches_of(dx, dy, step);
                self.draw(&mut cov, q, dx, dy, n);
            }
            k += 1;
        }
        cov
    }
}

/// The place of touch `i` of `n` on the way from `q` by `(dx, dy)`.
pub open spec fn passed(q: Point, dx: Signed, dy: Signed, i: int, n: int) -> Point {
    let t = crate::held::over(Signed::part(i, 1), Signed::part(n, 1));
    (
        crate::held::plus(q.0, crate::held::times(dx, t)),
        crate::held::plus(q.1, crate::held::times(dy, t)),
    )
}

/// More touches than any stroke has.
pub const MANY: u64 = 0x4000_0000_0000_0000;

/// How many touches a way takes: at least one, and so many that they are no further apart than
/// `step`.
pub open spec fn touches(dx: Signed, dy: Signed, step: Signed) -> int {
    let far = crate::held::over(
        crate::held::root(crate::held::plus(crate::held::times(dx, dx), crate::held::times(dy, dy))),
        step,
    );
    if far.neg {
        1
    } else if far.size.e > 38 {
        MANY as int
    } else {
        crate::scale::at_least(crate::single::ceil(far.size), 1)
    }
}

/// How many touches a way takes (see [`touches`]).
fn touches_of(dx: Signed, dy: Signed, step: Signed) -> (n: u64)
    requires
        crate::held::fits(dx),
        crate::held::fits(dy),
        crate::held::fits(step),
    ensures
        n == touches(dx, dy, step),
        1 <= n,
{
    let far = divide_by(root_of(add_to(scale_by(dx, dx), scale_by(dy, dy))), step);
    if far.neg {
        1
    } else if far.size.e > 38 {
        MANY
    } else {
        let n: u64 = far.size.ceil();
        if n < 1 {
            1
        } else {
            n
        }
    }
}

proof fn lemma_place(i: int, w: int)
    requires
        0 <= i,
        w > 0,
    ensures
        i == (i / w) * w + i % w,
        0 <= i % w < w,
        0 <= i / w,
{
    vstd::arithmetic::div_mod::lemma_fundamental_div_mod(i, w);
    assert(w * (i / w) == (i / w) * w) by (nonlinear_arith);
    vstd::arithmetic::div_mod::lemma_div_pos_is_pos(i, w);
}

proof fn lemma_rows(y: int, w: int, h: int)
    requires
        0 <= y <= h,
        w > 0,
    ensures
        0 <= y * w <= w * h,
{
    assert(0 <= y * w <= w * h) by (nonlinear_arith)
        requires
            0 <= y <= h,
            w > 0,
    ;
}

/// The numbers of a colour lie in the range.
pub open spec fn is_colour(c: Colour) -> bool {
    crate::held::fits(c.0) && crate::held::fits(c.1) && crate::held::fits(c.2)
}

/// The brightness of a colour.
pub open spec fn luma(c: Colour) -> Signed {
    crate::held::plus(
        crate::held::plus(
            crate::held::times(c.0, Signed::part(299, 1000)),
            crate::held::times(c.1, Signed::part(587, 1000)),
        ),
        crate::held::times(c.2, Signed::part(114, 1000)),
    )
}

/// The colours of two pixels together.
pub open spec fn joined(a: Colour, b: Colour) -> Colour {
    (crate::held::plus(a.0, b.0), crate::held::plus(a.1, b.1), crate::held::plus(a.2, b.2))
}

/// A colour so many times over.
pub open spec fn multiplied(a: Colour, k: Signed) -> Colour {
    (crate::held::times(a.0, k), crate::held::times(a.1, k), crate::held::times(a.2, k))
}

/// A colour divided by so much.
pub open spec fn divided(a: Colour, k: Signed) -> Colour {
    (crate::held::over(a.0, k), crate::held::over(a.1, k), crate::held::over(a.2, k))
}

/// The colour `t` of the way from `a` to `b`.
pub open spec fn blend(a: Colour, b: Colour, t: Signed) -> Colour {
    (
        crate::held::mixed(a.0, b.0, t),
        crate::held::mixed(a.1, b.1, t),
        crate::held::mixed(a.2, b.2, t),
    )
}

/// The colour of pixel `j`.
pub open spec fn pixel(d: Seq<u8>, j: int) -> Colour {
    (Signed::part(d[j * 3] as int, 1), Signed::part(d[j * 3 + 1] as int, 1), Signed::part(d[j * 3 + 2] as int, 1))
}

/// The bytes of pixel `j`.
pub open spec fn triple(d: Seq<u8>, j: int) -> (u8, u8, u8) {
    (d[j * 3], d[j * 3 + 1], d[j * 3 + 2])
}

fn black_of() -> (c: Colour)
    ensures
        c == crate::clear::black(),
        is_colour(c),
{
    (Signed::zero(), Signed::zero(), Signed::zero())
}

fn luma_of(c: Colour) -> (y: Signed)
    requires
        is_colour(c),
    ensures
        y == luma(c),
        crate::held::fits(y),
{
    add_to(
        add_to(scale_by(c.0, Signed::of(299, 1000)), scale_by(c.1, Signed::of(587, 1000))),
        scale_by(c.2, Signed::of(114, 1000)),
    )
}

fn join(a: Colour, b: Colour) -> (r: Colour)
    requires
        is_colour(a),
        is_colour(b),
    ensures
        r == joined(a, b),
        is_colour(r),
{
    (add_to(a.0, b.0), add_to(a.1, b.1), add_to(a.2, b.2))
}

fn multiply(a: Colour, k: Signed) -> (r: Colour)
    requires
        is_colour(a),
        crate::held::fits(k),
    ensures
        r == multiplied(a, k),
        is_colour(r),
{
    (scale_by(a.0, k), scale_by(a.1, k), scale_by(a.2, k))
}

fn divide(a: Colour, k: Signed) -> (r: Colour)
    requires
        is_colour(a),
        crate::held::fits(k),
    ensures
        r == divided(a, k),
        is_colour(r),
{
    (divide_by(a.0, k), divide_by(a.1, k), divide_by(a.2, k))
}

fn blend_of(a: Colour, b: Colour, t: Signed) -> (r: Colour)
    requires
        is_colour(a),
        is_colour(b),
        crate::held::fits(t),
    ensures
        r == blend(a, b, t),
        is_colour(r),
{
    (mix(a.0, b.0, t), mix(a.1, b.1, t), mix(a.2, b.2, t))
}

fn pixel_of(d: &Vec<u8>, j: usize) -> (c: Colour)
    requires
        j * 3 + 3 <= d@.len(),
    ensures
        c == pixel(d@, j as int),
        is_colour(c),
{
    let n: usize = d.len();
    assert(j * 3 + 3 <= n);
    (whole(d[j * 3] as u64), whole(d[j * 3 + 1] as u64), whole(d[j * 3 + 2] as u64))
}

/// What was gathered of a cell: the colours of the pixels that the brush left open, how many those
/// are, and how many pixels there are.
#[derive(Clone, Copy)]
pub struct Tally {
    pub sum: Colour,
    pub known: Signed,
    pub total: Signed,
}

impl Tally {
    /// The numbers lie in their range.
    pub open spec fn wf(&self) -> bool {
        is_colour(self.sum) && crate::held::fits(self.known) && crate::held::fits(self.total)
    }

    /// More than half of the cell was left open.
    pub open spec fn is_solid(&self) -> bool {
        crate::held::times(self.total, Signed::part(1, 2)).lies_below(self.known)
    }

    /// The mean colour of what was left open; none for a cell that is mostly covered.
    pub open spec fn mean(&self) -> Colour {
        if self.is_solid() {
            divided(self.sum, self.known)
        } else {
            crate::clear::black()
        }
    }

    /// With one more pixel.
    pub open spec fn with(&self, c: Colour, open: bool) -> Tally {
        let total = crate::held::plus(self.total, Signed::part(1, 1));
        if open {
            Tally {
                sum: joined(self.sum, c),
                known: crate::held::plus(self.known, Signed::part(1, 1)),
                total,
            }
        } else {
            Tally { total, ..*self }
        }
    }

    fn take_pixel(self, c: Colour, open: bool) -> (r: Tally)
        requires
            self.wf(),
            is_colour(c),
        ensures
            r == self.with(c, open),
            r.wf(),
    {
        let one = Signed::of(1, 1);
        let total = add_to(self.total, one);
        if open {
            Tally { sum: join(self.sum, c), known: add_to(self.known, one), total }
        } else {
            Tally { sum: self.sum, known: self.known, total }
        }
    }

    fn is_solid_of(&self) -> (b: bool)
        requires
            self.wf(),
        ensures
            b == self.is_solid(),
    {
        scale_by(self.total, Signed::of(1, 2)).less(self.known)
    }
}

/// The brush left a pixel open.
pub open spec fn is_open(cov: Signed) -> bool {
    !Signed::part(2, 1000).lies_below(cov)
}

/// What the first `n` pixels of a part `bw` wide give for cell `g`.
pub open spec fn tally(d: Seq<u8>, cov: Seq<Signed>, bw: int, cell: int, gw: int, g: int, n: int) -> Tally
    decreases n,
{
    if n <= 0 {
        Tally { sum: crate::clear::black(), known: Signed::part(0, 1), total: Signed::part(0, 1) }
    } else {
        let t = tally(d, cov, bw, cell, gw, g, n - 1);
        if crate::edit::cell_of(n - 1, bw, cell, gw) == g {
            t.with(pixel(d, n - 1), is_open(cov[n - 1]))
        } else {
            t
        }
    }
}

/// Gathers the pixels of each cell (see [`tally`]).
fn gather(d: &Vec<u8>, cov: &Vec<Signed>, bw: usize, bh: usize, cell: usize, gw: usize, gh: usize) -> (out: Vec<Tally>)
    requires
        d@.len() == bw * bh * 3,
        cov@.len() == bw * bh,
        cell > 0,
        gw == crate::edit::parts(bw as int, cell as int),
        gh == crate::edit::parts(bh as int, cell as int),
        gw * gh <= usize::MAX,
        forall|j: int| 0 <= j < cov@.len() ==> crate::held::fits(#[trigger] cov@[j]),
    ensures
        out@.len() == gw * gh,
        forall|g: int|
            0 <= g < out@.len() ==> #[trigger] out@[g] == tally(
                d@,
                cov@,
                bw as int,
                cell as int,
                gw as int,
                g,
                bw * bh,
            ),
        forall|g: int| 0 <= g < out@.len() ==> (#[trigger] out@[g]).wf(),
{
    let n: usize = cov.len();
    assert(gw * gh >= 0) by (nonlinear_arith);
    let m: usize = gw * gh;
    let zero = Signed::zero();
    let empty = Tally { sum: black_of(), known: zero, total: zero };
    let mut out: Vec<Tally> = Vec::new();
    let mut k: usize = 0;
    while k < m
        invariant
            k <= m,
            out@.len() == k,
            empty.wf(),
            empty == (Tally { sum: crate::clear::black(), known: Signed::part(0, 1), total: Signed::part(0, 1) }),
            forall|g: int| 0 <= g < k ==> #[trigger] out@[g] == empty,
        decreases m - k,
    {
        out.push(empty);
        k += 1;
    }
    let two = Signed::of(2, 1000);
    let mut i: usize = 0;
    while i < n
        invariant
            i <= n == cov@.len(),
            n == bw * bh,
            d@.len() == n * 3,
            cell > 0,
            two == Signed::part(2, 1000),
            two.size.wf(),
            gw == crate::edit::parts(bw as int, cell as int),
            gh == crate::edit::parts(bh as int, cell as int),
            m == gw * gh,
            out@.len() == m,
            forall|j: int| 0 <= j < cov@.len() ==> crate::held::fits(#[trigger] cov@[j]),
            forall|g: int|
                0 <= g < m ==> #[trigger] out@[g] == tally(
                    d@,
                    cov@,
                    bw as int,
                    cell as int,
                    gw as int,
                    g,
                    i as int,
                ),
            forall|g: int| 0 <= g < m ==> (#[trigger] out@[g]).wf(),
        decreases n - i,
    {
        proof {
            assert(bw > 0) by (nonlinear_arith)
                requires
                    bw * bh > 0,
                    bw >= 0,
            ;
            crate::edit::lemma_cell_of(i as int, bw as int, bh as int, cell as int);
        }
        let g: usize = (i / bw / cell) * gw + (i % bw) / cell;
        let open = !two.less(cov[i]);
        let t = out[g].take_pixel(pixel_of(d, i), open);
        out.set(g, t);
        i += 1;
    }
    out
}

/// Neighbour `k` of cell `i` on a grid of `gw` by `gh` cells, row by row over the cells that are at
/// most `r` columns and `r` rows away; none where it lies off the grid.
pub open spec fn nearby(i: int, gw: int, gh: int, r: int, k: int) -> Option<int> {
    let x = i % gw - r + k % (2 * r + 1);
    let y = i / gw - r + k / (2 * r + 1);
    if 0 <= x < gw && 0 <= y < gh {
        Some(y * gw + x)
    } else {
        None
    }
}

/// A neighbour of a cell (see [`nearby`]).
fn nearby_of(i: usize, gw: usize, gh: usize, r: usize, k: usize) -> (j: Option<usize>)
    requires
        i < gw * gh,
        gw * gh <= usize::MAX,
        gw <= crate::spread::longest(),
        gh <= crate::spread::longest(),
        r <= 3,
        k < 49,
    ensures
        match j {
            Some(j) => nearby(i as int, gw as int, gh as int, r as int, k as int) == Some(j as int) && j
                < gw * gh,
            None => nearby(i as int, gw as int, gh as int, r as int, k as int) is None,
        },
{
    proof {
        assert(gw > 0) by (nonlinear_arith)
            requires
                gw * gh > 0,
                gw >= 0,
        ;
        lemma_place(i as int, gw as int);
        assert((i / gw) < gh) by (nonlinear_arith)
            requires
                i < gw * gh,
                i == (i / gw) * gw + i % gw,
                i % gw >= 0,
                gw > 0,
        ;
        assert(k as int % (2 * r + 1) <= k && k as int / (2 * r + 1) <= k) by (nonlinear_arith)
            requires
                k >= 0,
                r >= 0,
        ;
    }
    let x: usize = i % gw + k % (2 * r + 1);
    let y: usize = i / gw + k / (2 * r + 1);
    if x < r || y < r || x - r >= gw || y - r >= gh {
        None
    } else {
        proof {
            crate::grid::lemma_cell_bound(x - r, y - r, gw as int, gh as int);
            assert(0 <= (y - r) * gw) by (nonlinear_arith)
                requires
                    y >= r,
                    gw >= 0,
            ;
        }
        Some((y - r) * gw + (x - r))
    }
}

/// The darkest of the solid cells among the first `n` neighbours of cell `i`: the cell itself where
/// none is darker, else the first one.
pub open spec fn darkest(solid: Seq<bool>, val: Seq<Colour>, gw: int, gh: int, i: int, n: int) -> int
    decreases n,
{
    if n <= 0 {
        i
    } else {
        let b = darkest(solid, val, gw, gh, i, n - 1);
        match nearby(i, gw, gh, 3, n - 1) {
            Some(j) => if solid[j] && luma(val[j]).lies_below(luma(val[b])) {
                j
            } else {
                b
            },
            None => b,
        }
    }
}

/// The darkest solid cell close to a cell (see [`darkest`]).
fn darkest_of(solid: &Vec<bool>, val: &Vec<Colour>, gw: usize, gh: usize, i: usize) -> (b: usize)
    requires
        solid@.len() == val@.len() == gw * gh,
        gw <= crate::spread::longest(),
        gh <= crate::spread::longest(),
        i < solid@.len(),
        forall|j: int| 0 <= j < val@.len() ==> is_colour(#[trigger] val@[j]),
    ensures
        b == darkest(solid@, val@, gw as int, gh as int, i as int, 49),
        b < solid@.len(),
{
    let n: usize = solid.len();
    let mut b: usize = i;
    let mut k: usize = 0;
    while k < 49
        invariant
            k <= 49,
            n == solid@.len() == val@.len() == gw * gh,
            gw <= crate::spread::longest(),
            gh <= crate::spread::longest(),
            i < n,
            b < n,
            forall|j: int| 0 <= j < val@.len() ==> is_colour(#[trigger] val@[j]),
            b == darkest(solid@, val@, gw as int, gh as int, i as int, k as int),
        decreases 49 - k,
    {
        match nearby_of(i, gw, gh, 3, k) {
            Some(j) => {
                if solid[j] && luma_of(val[j]).less(luma_of(val[b])) {
                    b = j;
                }
            },
            None => {},
        }
        k += 1;
    }
    b
}

/// How much a cell counts for another one: the less, the further away it is.
pub open spec fn pull(gw: int, i: int, j: int) -> Signed {
    let dx = crate::held::minus(Signed::part(j % gw, 1), Signed::part(i % gw, 1));
    let dy = crate::held::minus(Signed::part(j / gw, 1), Signed::part(i / gw, 1));
    let d2 = crate::held::plus(crate::held::times(dx, dx), crate::held::times(dy, dy));
    crate::held::over(
        Signed::part(1, 1),
        crate::held::plus(crate::held::times(d2, d2), Signed::part(1, 1000)),
    )
}

/// What the solid ones of the first `n` cells give for cell `i`, each by its pull, and their pull in
/// all.
pub open spec fn pulled(solid: Seq<bool>, dark: Seq<Colour>, gw: int, i: int, n: int) -> (Colour, Signed)
    decreases n,
{
    if n <= 0 {
        (crate::clear::black(), Signed::part(0, 1))
    } else {
        let p = pulled(solid, dark, gw, i, n - 1);
        if solid[n - 1] {
            let w = pull(gw, i, n - 1);
            (joined(p.0, multiplied(dark[n - 1], w)), crate::held::plus(p.1, w))
        } else {
            p
        }
    }
}

/// The colour that solid cells give for cell `i` (see [`pulled`]).
fn reach_in(solid: &Vec<bool>, dark: &Vec<Colour>, gw: usize, i: usize) -> (c: Colour)
    requires
        solid@.len() == dark@.len(),
        gw > 0,
        forall|j: int| 0 <= j < dark@.len() ==> is_colour(#[trigger] dark@[j]),
    ensures
        c == ({
            let p = pulled(solid@, dark@, gw as int, i as int, solid@.len() as int);
            divided(p.0, p.1)
        }),
        is_colour(c),
{
    let n: usize = solid.len();
    let mut acc = black_of();
    let mut all = Signed::zero();
    let x = whole((i % gw) as u64);
    let y = whole((i / gw) as u64);
    let mut j: usize = 0;
    while j < n
        invariant
            j <= n == solid@.len(),
            dark@.len() == n,
            gw > 0,
            x == Signed::part(i as int % gw as int, 1),
            y == Signed::part(i as int / gw as int, 1),
            crate::held::fits(x),
            crate::held::fits(y),
            is_colour(acc),
            crate::held::fits(all),
            forall|j: int| 0 <= j < dark@.len() ==> is_colour(#[trigger] dark@[j]),
            (acc, all) == pulled(solid@, dark@, gw as int, i as int, j as int),
        decreases n - j,
    {
        if solid[j] {
            let dx = take_from(whole((j % gw) as u64), x);
            let dy = take_from(whole((j / gw) as u64), y);
            let d2 = add_to(scale_by(dx, dx), scale_by(dy, dy));
            let w = divide_by(Signed::of(1, 1), add_to(scale_by(d2, d2), Signed::of(1, 1000)));
            acc = join(acc, multiply(dark[j], w));
            all = add_to(all, w);
        }
        j += 1;
    }
    divide(acc, all)
}

/// What lies behind a part of a photo, cell by cell: the colour of the cells that were left open, and
/// for the others what the darkest of those around them give. Nothing where no cell was left open.
pub open spec fn ground(d: Seq<u8>, cov: Seq<Signed>, bw: int, bh: int, cell: int) -> Option<Seq<Colour>> {
    let gw = crate::edit::parts(bw, cell);
    let gh = crate::edit::parts(bh, cell);
    let m = (gw * gh) as nat;
    let cells = Seq::new(m, |g: int| tally(d, cov, bw, cell, gw, g, bw * bh));
    let solid = Seq::new(m, |g: int| cells[g].is_solid());
    let val = Seq::new(m, |g: int| cells[g].mean());
    let dark = Seq::new(m, |g: int| shaded(solid, val, gw, gh, g));
    if solid.contains(true) {
        Some(Seq::new(m, |g: int| filled(solid, val, dark, gw, g)))
    } else {
        None
    }
}

/// The darkest colour close to a solid cell.
pub open spec fn shaded(solid: Seq<bool>, val: Seq<Colour>, gw: int, gh: int, g: int) -> Colour {
    if solid[g] {
        val[darkest(solid, val, gw, gh, g, 49)]
    } else {
        val[g]
    }
}

/// The colour of a solid cell, or what the others give for it.
pub open spec fn filled(solid: Seq<bool>, val: Seq<Colour>, dark: Seq<Colour>, gw: int, g: int) -> Colour {
    if solid[g] {
        val[g]
    } else {
        let p = pulled(solid, dark, gw, g, solid.len() as int);
        divided(p.0, p.1)
    }
}

/// What lies behind a part of a photo (see [`ground`]).
fn ground_of(d: &Vec<u8>, cov: &Vec<Signed>, bw: usize, bh: usize, cell: usize, gw: usize, gh: usize) -> (r: Option<Vec<Colour>>)
    requires
        d@.len() == bw * bh * 3,
        cov@.len() == bw * bh,
        cell > 0,
        0 < gw <= crate::spread::longest(),
        gh <= crate::spread::longest(),
        gw == crate::edit::parts(bw as int, cell as int),
        gh == crate::edit::parts(bh as int, cell as int),
        gw * gh <= usize::MAX,
        forall|j: int| 0 <= j < cov@.len() ==> crate::held::fits(#[trigger] cov@[j]),
    ensures
        match r {
            Some(v) => ground(d@, cov@, bw as int, bh as int, cell as int) == Some(v@),
            None => ground(d@, cov@, bw as int, bh as int, cell as int) is None,
        },
        r matches Some(v) ==> v@.len() == gw * gh && forall|g: int|
            0 <= g < v@.len() ==> is_colour(#[trigger] v@[g]),
{
    let cells = gather(d, cov, bw, bh, cell, gw, gh);
    let m: usize = cells.len();
    let ghost cells_s = Seq::new(
        m as nat,
        |g: int| tally(d@, cov@, bw as int, cell as int, gw as int, g, bw * bh),
    );
    assert(cells@ =~= cells_s);
    let mut solid: Vec<bool> = Vec::new();
    let mut val: Vec<Colour> = Vec::new();
    let mut any = false;
    let mut g: usize = 0;
    while g < m
        invariant
            g <= m == cells@.len(),
            solid@.len() == g == val@.len(),
            forall|k: int| 0 <= k < m ==> (#[trigger] cells@[k]).wf(),
            forall|k: int| 0 <= k < g ==> #[trigger] solid@[k] == cells@[k].is_solid(),
            forall|k: int| 0 <= k < g ==> #[trigger] val@[k] == cells@[k].mean(),
            forall|k: int| 0 <= k < g ==> is_colour(#[trigger] val@[k]),
            any <==> exists|k: int| 0 <= k < g && #[trigger] solid@[k],
        decreases m - g,
    {
        let t = cells[g];
        let ghost had = solid@;
        if t.is_solid_of() {
            any = true;
            solid.push(true);
            val.push(divide(t.sum, t.known));
            assert(solid@[g as int]);
        } else {
            solid.push(false);
            val.push(black_of());
        }
        proof {
            assert forall|k: int| 0 <= k < g implies #[trigger] solid@[k] == had[k] by {}
            if any && !solid@[g as int] {
                let k = choose|k: int| 0 <= k < g && #[trigger] had[k];
                assert(solid@[k]);
            }
            if exists|k: int| 0 <= k < g + 1 && #[trigger] solid@[k] {
                let k = choose|k: int| 0 <= k < g + 1 && #[trigger] solid@[k];
                if k < g {
                    assert(had[k]);
                }
            }
        }
        g += 1;
    }
    let ghost solid_s = Seq::new(m as nat, |g: int| cells_s[g].is_solid());
    let ghost val_s = Seq::new(m as nat, |g: int| cells_s[g].mean());
    assert(solid@ =~= solid_s);
    assert(val@ =~= val_s);
    if !any {
        assert(!solid_s.contains(true));
        return None;
    }
    assert(solid_s.contains(true)) by {
        let k = choose|k: int| 0 <= k < m && #[trigger] solid@[k];
        assert(solid_s[k]);
    }
    let mut dark: Vec<Colour> = Vec::new();
    let mut g: usize = 0;
    while g < m
        invariant
            g <= m == solid@.len(),
            val@.len() == m == gw * gh,
            gw <= crate::spread::longest(),
            gh <= crate::spread::longest(),
            dark@.len() == g,
            forall|k: int| 0 <= k < m ==> is_colour(#[trigger] val@[k]),
            forall|k: int| 0 <= k < g ==> is_colour(#[trigger] dark@[k]),
            forall|k: int|
                0 <= k < g ==> #[trigger] dark@[k] == shaded(solid@, val@, gw as int, gh as int, k),
        decreases m - g,
    {
        if solid[g] {
            let b: usize = darkest_of(&solid, &val, gw, gh, g);
            dark.push(val[b]);
        } else {
            dark.push(val[g]);
        }
        g += 1;
    }
    let ghost dark_s = Seq::new(m as nat, |g: int| shaded(solid_s, val_s, gw as int, gh as int, g));
    assert(dark@ =~= dark_s);
    let mut out: Vec<Colour> = Vec::new();
    let mut g: usize = 0;
    while g < m
        invariant
            g <= m == solid@.len(),
            val@.len() == m == dark@.len(),
            gw > 0,
            out@.len() == g,
            forall|k: int| 0 <= k < m ==> is_colour(#[trigger] val@[k]),
            forall|k: int| 0 <= k < m ==> is_colour(#[trigger] dark@[k]),
            forall|k: int| 0 <= k < g ==> is_colour(#[trigger] out@[k]),
            forall|k: int|
                0 <= k < g ==> #[trigger] out@[k] == filled(solid@, val@, dark@, gw as int, k),
        decreases m - g,
    {
        if solid[g] {
            out.push(val[g]);
        } else {
            out.push(reach_in(&solid, &dark, gw, g));
        }
        g += 1;
    }
    assert(out@ =~= Seq::new(m as nat, |g: int| filled(solid_s, val_s, dark_s, gw as int, g)));
    Some(out)
}

/// Where a pixel lies between the middles of cells.
pub open spec fn along(x: int, cell: int) -> Signed {
    crate::held::minus(
        crate::held::over(
            crate::held::plus(Signed::part(x, 1), Signed::part(1, 2)),
            Signed::part(cell, 1),
        ),
        Signed::part(1, 2),
    )
}

/// The colour that a grid of cells gives for a pixel: between the cells around it.
pub open spec fn between(v: Seq<Colour>, gw: int, gh: int, cell: int, x: int, y: int) -> Colour {
    let a = crate::sample::sides(along(x, cell), gw);
    let b = crate::sample::sides(along(y, cell), gh);
    let top = blend(v[b.0 * gw + a.0], v[b.0 * gw + a.1], a.2);
    let bot = blend(v[b.1 * gw + a.0], v[b.1 * gw + a.1], a.2);
    blend(top, bot, b.2)
}

/// Where a pixel lies between the middles of cells (see [`along`]).
fn along_of(x: u32, cell: usize) -> (f: Signed)
    requires
        cell > 0,
    ensures
        f == along(x as int, cell as int),
        crate::held::fits(f),
{
    let half = Signed::of(1, 2);
    take_from(divide_by(add_to(whole(x as u64), half), whole(cell as u64)), half)
}

/// The colour that a grid of cells gives for a pixel (see [`between`]).
fn between_of(v: &Vec<Colour>, gw: usize, gh: usize, cell: usize, x: u32, y: u32) -> (c: Colour)
    requires
        cell > 0,
        0 < gw <= crate::spread::longest(),
        0 < gh <= crate::spread::longest(),
        v@.len() == gw * gh,
        forall|g: int| 0 <= g < v@.len() ==> is_colour(#[trigger] v@[g]),
    ensures
        c == between(v@, gw as int, gh as int, cell as int, x as int, y as int),
        is_colour(c),
{
    let n: usize = v.len();
    let a = sides_of(along_of(x, cell), gw);
    let b = sides_of(along_of(y, cell), gh);
    proof {
        crate::grid::lemma_cell_bound(a.0 as int, b.0 as int, gw as int, gh as int);
        crate::grid::lemma_cell_bound(a.1 as int, b.0 as int, gw as int, gh as int);
        crate::grid::lemma_cell_bound(a.0 as int, b.1 as int, gw as int, gh as int);
        crate::grid::lemma_cell_bound(a.1 as int, b.1 as int, gw as int, gh as int);
        assert(0 <= b.0 * gw && 0 <= b.1 * gw) by (nonlinear_arith);
    }
    let top = blend_of(v[b.0 * gw + a.0], v[b.0 * gw + a.1], a.2);
    let bot = blend_of(v[b.1 * gw + a.0], v[b.1 * gw + a.1], a.2);
    blend_of(top, bot, b.2)
}

/// The brightness of each of `n` pixels.
pub open spec fn brightness(d: Seq<u8>, n: int) -> Seq<Signed> {
    Seq::new(n as nat, |j: int| luma(pixel(d, j)))
}

/// A plane with every number held in its range.
pub open spec fn kept(v: Seq<Signed>) -> Seq<Signed> {
    Seq::new(v.len(), |j: int| crate::held::held(v[j]))
}

/// A plane with the surroundings of each pixel averaged.
pub open spec fn softened(v: Seq<Signed>, w: int, h: int, r: int) -> Seq<Signed> {
    kept(crate::spread::blurred(v, w, h, r))
}

/// Marks the pixels that are not brighter than their surroundings.
pub open spec fn calm(y: Seq<Signed>, mean: Seq<Signed>) -> Seq<Signed> {
    Seq::new(
        y.len(),
        |j: int|
            if crate::held::plus(mean[j], Signed::part(1, 1)).lies_below(y[j]) {
                Signed::part(0, 1)
            } else {
                Signed::part(1, 1)
            },
    )
}

/// A channel of the pixels that are marked.
pub open spec fn channel(d: Seq<u8>, mask: Seq<Signed>, c: int) -> Seq<Signed> {
    Seq::new(mask.len(), |j: int| crate::held::times(Signed::part(d[j * 3 + c] as int, 1), mask[j]))
}

fn brightness_of(d: &Vec<u8>, n: usize) -> (y: Vec<Signed>)
    requires
        d@.len() == n * 3,
    ensures
        y@ == brightness(d@, n as int),
        forall|j: int| 0 <= j < y@.len() ==> crate::held::fits(#[trigger] y@[j]),
{
    let mut y: Vec<Signed> = Vec::new();
    let mut j: usize = 0;
    while j < n
        invariant
            j <= n,
            d@.len() == n * 3,
            y@.len() == j,
            forall|i: int| 0 <= i < j ==> #[trigger] y@[i] == luma(pixel(d@, i)),
            forall|i: int| 0 <= i < j ==> crate::held::fits(#[trigger] y@[i]),
        decreases n - j,
    {
        y.push(luma_of(pixel_of(d, j)));
        j += 1;
    }
    assert(y@ =~= brightness(d@, n as int));
    y
}

fn soften(v: &Vec<Signed>, w: usize, h: usize, r: usize) -> (out: Vec<Signed>)
    requires
        0 < w <= crate::spread::longest(),
        0 < h <= crate::spread::longest(),
        v@.len() == w * h,
        r <= 60,
        forall|i: int| 0 <= i < v@.len() ==> crate::held::fits(#[trigger] v@[i]),
    ensures
        out@ == softened(v@, w as int, h as int, r as int),
        out@.len() == w * h,
        forall|i: int| 0 <= i < out@.len() ==> crate::held::fits(#[trigger] out@[i]),
{
    let b = box_blur(v, w, h, r);
    let n: usize = b.len();
    let mut out: Vec<Signed> = Vec::new();
    let mut j: usize = 0;
    while j < n
        invariant
            j <= n == b@.len(),
            out@.len() == j,
            forall|i: int| 0 <= i < n ==> crate::held::fits(#[trigger] b@[i]),
            forall|i: int| 0 <= i < j ==> #[trigger] out@[i] == crate::held::held(b@[i]),
            forall|i: int| 0 <= i < j ==> crate::held::fits(#[trigger] out@[i]),
        decreases n - j,
    {
        out.push(hold(b[j]));
        j += 1;
    }
    assert(out@ =~= softened(v@, w as int, h as int, r as int));
    out
}

fn calm_of(y: &Vec<Signed>, mean: &Vec<Signed>) -> (m: Vec<Signed>)
    requires
        y@.len() == mean@.len(),
        forall|i: int| 0 <= i < y@.len() ==> crate::held::fits(#[trigger] y@[i]),
        forall|i: int| 0 <= i < mean@.len() ==> crate::held::fits(#[trigger] mean@[i]),
    ensures
        m@ == calm(y@, mean@),
        forall|i: int| 0 <= i < m@.len() ==> crate::held::fits(#[trigger] m@[i]),
{
    let n: usize = y.len();
    let one = Signed::of(1, 1);
    let zero = Signed::zero();
    let mut m: Vec<Signed> = Vec::new();
    let mut j: usize = 0;
    while j < n
        invariant
            j <= n == y@.len(),
            mean@.len() == n,
            one == Signed::part(1, 1),
            zero == Signed::part(0, 1),
            crate::held::fits(one),
            crate::held::fits(zero),
            m@.len() == j,
            forall|i: int| 0 <= i < y@.len() ==> crate::held::fits(#[trigger] y@[i]),
            forall|i: int| 0 <= i < mean@.len() ==> crate::held::fits(#[trigger] mean@[i]),
            forall|i: int| 0 <= i < j ==> #[trigger] m@[i] == calm(y@, mean@)[i],
            forall|i: int| 0 <= i < j ==> crate::held::fits(#[trigger] m@[i]),
        decreases n - j,
    {
        if add_to(mean[j], one).less(y[j]) {
            m.push(zero);
        } else {
            m.push(one);
        }
        j += 1;
    }
    assert(m@ =~= calm(y@, mean@));
    m
}

fn channel_of(d: &Vec<u8>, mask: &Vec<Signed>, c: usize) -> (v: Vec<Signed>)
    requires
        c < 3,
        d@.len() == mask@.len() * 3,
        forall|i: int| 0 <= i < mask@.len() ==> crate::held::fits(#[trigger] mask@[i]),
    ensures
        v@ == channel(d@, mask@, c as int),
        forall|i: int| 0 <= i < v@.len() ==> crate::held::fits(#[trigger] v@[i]),
{
    let n: usize = mask.len();
    let bytes: usize = d.len();
    let mut v: Vec<Signed> = Vec::new();
    let mut j: usize = 0;
    while j < n
        invariant
            j <= n == mask@.len(),
            c < 3,
            bytes == d@.len() == n * 3,
            v@.len() == j,
            forall|i: int| 0 <= i < mask@.len() ==> crate::held::fits(#[trigger] mask@[i]),
            forall|i: int| 0 <= i < j ==> #[trigger] v@[i] == channel(d@, mask@, c as int)[i],
            forall|i: int| 0 <= i < j ==> crate::held::fits(#[trigger] v@[i]),
        decreases n - j,
    {
        assert(j * 3 + c < bytes);
        v.push(scale_by(whole(d[j * 3 + c] as u64), mask[j]));
        j += 1;
    }
    assert(v@ =~= channel(d@, mask@, c as int));
    v
}

/// The smoke that lies over a part of a photo, by the pixels that are no brighter than their
/// surroundings.
pub open spec fn thinned(d: Seq<u8>, bw: int, bh: int, r: int) -> Seq<Colour> {
    let y = brightness(d, bw * bh);
    let mask = calm(y, softened(y, bw, bh, r));
    let den = softened(mask, bw, bh, r);
    let red = softened(channel(d, mask, 0), bw, bh, r);
    let green = softened(channel(d, mask, 1), bw, bh, r);
    let blue = softened(channel(d, mask, 2), bw, bh, r);
    Seq::new((bw * bh) as nat, |j: int| divided((red[j], green[j], blue[j]), at_least(den[j])))
}

/// A share of pixels that can be divided by.
pub open spec fn at_least(v: Signed) -> Signed {
    v.larger(Signed::part(2, 100))
}

fn thinned_of(d: &Vec<u8>, y: &Vec<Signed>, bw: usize, bh: usize, r: usize) -> (out: Vec<Colour>)
    requires
        0 < bw <= crate::spread::longest(),
        0 < bh <= crate::spread::longest(),
        d@.len() == bw * bh * 3,
        y@ == brightness(d@, bw * bh),
        y@.len() == bw * bh,
        r <= 60,
        forall|i: int| 0 <= i < y@.len() ==> crate::held::fits(#[trigger] y@[i]),
    ensures
        out@ == thinned(d@, bw as int, bh as int, r as int),
        out@.len() == bw * bh,
        forall|i: int| 0 <= i < out@.len() ==> is_colour(#[trigger] out@[i]),
{
    let mask = calm_of(y, &soften(y, bw, bh, r));
    let den = soften(&mask, bw, bh, r);
    let red = soften(&channel_of(d, &mask, 0), bw, bh, r);
    let green = soften(&channel_of(d, &mask, 1), bw, bh, r);
    let blue = soften(&channel_of(d, &mask, 2), bw, bh, r);
    let n: usize = den.len();
    let least = Signed::of(2, 100);
    let mut out: Vec<Colour> = Vec::new();
    let mut j: usize = 0;
    while j < n
        invariant
            j <= n == den@.len(),
            red@.len() == n == green@.len(),
            blue@.len() == n,
            least == Signed::part(2, 100),
            crate::held::fits(least),
            out@.len() == j,
            forall|i: int| 0 <= i < n ==> crate::held::fits(#[trigger] den@[i]),
            forall|i: int| 0 <= i < n ==> crate::held::fits(#[trigger] red@[i]),
            forall|i: int| 0 <= i < n ==> crate::held::fits(#[trigger] green@[i]),
            forall|i: int| 0 <= i < n ==> crate::held::fits(#[trigger] blue@[i]),
            forall|i: int|
                0 <= i < j ==> #[trigger] out@[i] == divided(
                    (red@[i], green@[i], blue@[i]),
                    at_least(den@[i]),
                ),
            forall|i: int| 0 <= i < j ==> is_colour(#[trigger] out@[i]),
        decreases n - j,
    {
        out.push(divide((red[j], green[j], blue[j]), den[j].max(least)));
        j += 1;
    }
    assert(out@ =~= thinned(d@, bw as int, bh as int, r as int));
    out
}

/// The darkest of the first `n` pixels that fall in cell `g`, the first one where several are.
pub open spec fn dimmest(y: Seq<Signed>, bw: int, cell: int, gw: int, g: int, n: int) -> Option<int>
    decreases n,
{
    if n <= 0 {
        None
    } else {
        let b = dimmest(y, bw, cell, gw, g, n - 1);
        if crate::edit::cell_of(n - 1, bw, cell, gw) == g && (match b {
            Some(j) => y[n - 1].lies_below(y[j]),
            None => true,
        }) {
            Some(n - 1)
        } else {
            b
        }
    }
}

/// The darkest colour of each cell.
pub open spec fn lows(d: Seq<u8>, bw: int, bh: int, cell: int) -> Seq<Colour> {
    let gw = crate::edit::parts(bw, cell);
    let y = brightness(d, bw * bh);
    Seq::new(
        (gw * crate::edit::parts(bh, cell)) as nat,
        |g: int|
            match dimmest(y, bw, cell, gw, g, bw * bh) {
                Some(j) => pixel(d, j),
                None => crate::clear::black(),
            },
    )
}

fn dimmest_of(y: &Vec<Signed>, bw: usize, bh: usize, cell: usize, gw: usize, gh: usize) -> (out: Vec<
    Option<usize>,
>)
    requires
        y@.len() == bw * bh,
        cell > 0,
        gw == crate::edit::parts(bw as int, cell as int),
        gh == crate::edit::parts(bh as int, cell as int),
        gw * gh <= usize::MAX,
        forall|i: int| 0 <= i < y@.len() ==> crate::held::fits(#[trigger] y@[i]),
    ensures
        out@.len() == gw * gh,
        forall|g: int|
            0 <= g < out@.len() ==> match #[trigger] out@[g] {
                Some(j) => dimmest(y@, bw as int, cell as int, gw as int, g, bw * bh) == Some(
                    j as int,
                ) && j < y@.len(),
                None => dimmest(y@, bw as int, cell as int, gw as int, g, bw * bh) is None,
            },
{
    let n: usize = y.len();
    assert(gw * gh >= 0) by (nonlinear_arith);
    let m: usize = gw * gh;
    let mut out: Vec<Option<usize>> = vec![None; m];
    let mut i: usize = 0;
    while i < n
        invariant
            i <= n == y@.len(),
            n == bw * bh,
            cell > 0,
            gw == crate::edit::parts(bw as int, cell as int),
            gh == crate::edit::parts(bh as int, cell as int),
            m == gw * gh,
            out@.len() == m,
            forall|i: int| 0 <= i < y@.len() ==> crate::held::fits(#[trigger] y@[i]),
            forall|g: int|
                0 <= g < m ==> match #[trigger] out@[g] {
                    Some(j) => dimmest(y@, bw as int, cell as int, gw as int, g, i as int) == Some(
                        j as int,
                    ) && j < i,
                    None => dimmest(y@, bw as int, cell as int, gw as int, g, i as int) is None,
                },
        decreases n - i,
    {
        proof {
            assert(bw > 0) by (nonlinear_arith)
                requires
                    bw * bh > 0,
                    bw >= 0,
            ;
            crate::edit::lemma_cell_of(i as int, bw as int, bh as int, cell as int);
        }
        let g: usize = (i / bw / cell) * gw + (i % bw) / cell;
        let ghost before = out@;
        let darker = match out[g] {
            None => true,
            Some(j) => y[i].less(y[j]),
        };
        if darker {
            out.set(g, Some(i));
        }
        proof {
            assert forall|h: int| 0 <= h < m implies match #[trigger] out@[h] {
                Some(j) => dimmest(y@, bw as int, cell as int, gw as int, h, i + 1) == Some(
                    j as int,
                ) && j < i + 1,
                None => dimmest(y@, bw as int, cell as int, gw as int, h, i + 1) is None,
            } by {
                assert(match before[h] {
                    Some(j) => dimmest(y@, bw as int, cell as int, gw as int, h, i as int) == Some(
                        j as int,
                    ) && j < i,
                    None => dimmest(y@, bw as int, cell as int, gw as int, h, i as int) is None,
                });
                if h != g {
                    assert(out@[h] == before[h]);
                }
            }
        }
        i += 1;
    }
    out
}

fn lows_of(d: &Vec<u8>, y: &Vec<Signed>, bw: usize, bh: usize, cell: usize, gw: usize, gh: usize) -> (v: Vec<Colour>)
    requires
        d@.len() == bw * bh * 3,
        y@ == brightness(d@, bw * bh),
        y@.len() == bw * bh,
        cell > 0,
        gw == crate::edit::parts(bw as int, cell as int),
        gh == crate::edit::parts(bh as int, cell as int),
        gw * gh <= usize::MAX,
        forall|i: int| 0 <= i < y@.len() ==> crate::held::fits(#[trigger] y@[i]),
    ensures
        v@ == lows(d@, bw as int, bh as int, cell as int),
        v@.len() == gw * gh,
        forall|i: int| 0 <= i < v@.len() ==> is_colour(#[trigger] v@[i]),
{
    let at = dimmest_of(y, bw, bh, cell, gw, gh);
    let m: usize = at.len();
    let mut v: Vec<Colour> = Vec::new();
    let mut g: usize = 0;
    while g < m
        invariant
            g <= m == at@.len(),
            m == gw * gh,
            d@.len() == y@.len() * 3,
            y@ == brightness(d@, bw * bh),
            v@.len() == g,
            gw == crate::edit::parts(bw as int, cell as int),
            gh == crate::edit::parts(bh as int, cell as int),
            forall|g: int|
                0 <= g < at@.len() ==> match #[trigger] at@[g] {
                    Some(j) => dimmest(y@, bw as int, cell as int, gw as int, g, bw * bh) == Some(
                        j as int,
                    ) && j < y@.len(),
                    None => dimmest(y@, bw as int, cell as int, gw as int, g, bw * bh) is None,
                },
            forall|i: int|
                0 <= i < g ==> #[trigger] v@[i] == lows(d@, bw as int, bh as int, cell as int)[i],
            forall|i: int| 0 <= i < g ==> is_colour(#[trigger] v@[i]),
        decreases m - g,
    {
        match at[g] {
            Some(j) => {
                v.push(pixel_of(d, j));
            },
            None => {
                v.push(black_of());
            },
        }
        g += 1;
    }
    assert(v@ =~= lows(d@, bw as int, bh as int, cell as int));
    v
}

/// The first `n` neighbours of a cell together, and how many there are.
pub open spec fn company(v: Seq<Colour>, gw: int, gh: int, i: int, n: int) -> (Colour, Signed)
    decreases n,
{
    if n <= 0 {
        (crate::clear::black(), Signed::part(0, 1))
    } else {
        let p = company(v, gw, gh, i, n - 1);
        match nearby(i, gw, gh, 1, n - 1) {
            Some(j) => (joined(p.0, v[j]), crate::held::plus(p.1, Signed::part(1, 1))),
            None => p,
        }
    }
}

/// Each cell averaged with its neighbours.
pub open spec fn smoothed(v: Seq<Colour>, gw: int, gh: int) -> Seq<Colour> {
    Seq::new(v.len(), |i: int| divided(company(v, gw, gh, i, 9).0, company(v, gw, gh, i, 9).1))
}

fn company_of(v: &Vec<Colour>, gw: usize, gh: usize, i: usize) -> (c: Colour)
    requires
        v@.len() == gw * gh,
        gw <= crate::spread::longest(),
        gh <= crate::spread::longest(),
        i < v@.len(),
        forall|j: int| 0 <= j < v@.len() ==> is_colour(#[trigger] v@[j]),
    ensures
        c == smoothed(v@, gw as int, gh as int)[i as int],
        is_colour(c),
{
    let n: usize = v.len();
    let mut acc = black_of();
    let mut all = Signed::zero();
    let mut k: usize = 0;
    while k < 9
        invariant
            k <= 9,
            n == v@.len() == gw * gh,
            gw <= crate::spread::longest(),
            gh <= crate::spread::longest(),
            i < n,
            is_colour(acc),
            crate::held::fits(all),
            forall|j: int| 0 <= j < v@.len() ==> is_colour(#[trigger] v@[j]),
            (acc, all) == company(v@, gw as int, gh as int, i as int, k as int),
        decreases 9 - k,
    {
        match nearby_of(i, gw, gh, 1, k) {
            Some(j) => {
                acc = join(acc, v[j]);
                all = add_to(all, Signed::of(1, 1));
            },
            None => {},
        }
        k += 1;
    }
    divide(acc, all)
}

fn smoothed_of(v: &Vec<Colour>, gw: usize, gh: usize) -> (out: Vec<Colour>)
    requires
        v@.len() == gw * gh,
        gw <= crate::spread::longest(),
        gh <= crate::spread::longest(),
        forall|j: int| 0 <= j < v@.len() ==> is_colour(#[trigger] v@[j]),
    ensures
        out@ == smoothed(v@, gw as int, gh as int),
        out@.len() == v@.len(),
        forall|j: int| 0 <= j < out@.len() ==> is_colour(#[trigger] out@[j]),
{
    let n: usize = v.len();
    let mut out: Vec<Colour> = Vec::new();
    let mut i: usize = 0;
    while i < n
        invariant
            i <= n == v@.len(),
            n == gw * gh,
            gw <= crate::spread::longest(),
            gh <= crate::spread::longest(),
            out@.len() == i,
            forall|j: int| 0 <= j < v@.len() ==> is_colour(#[trigger] v@[j]),
            forall|j: int| 0 <= j < i ==> #[trigger] out@[j] == smoothed(v@, gw as int, gh as int)[j],
            forall|j: int| 0 <= j < i ==> is_colour(#[trigger] out@[j]),
        decreases n - i,
    {
        out.push(company_of(v, gw, gh, i));
        i += 1;
    }
    assert(out@ =~= smoothed(v@, gw as int, gh as int));
    out
}

/// The darker of two estimates of the smoke over a pixel. What is too bright to be smoke is none.
pub open spec fn veiled(thin: Colour, low: Colour) -> Colour {
    let v = if luma(low).lies_below(luma(thin)) {
        low
    } else {
        thin
    };
    let over = crate::held::held(
        crate::advice::smoothed(Signed::part(170, 1), Signed::part(210, 1), luma(v)),
    );
    if Signed::part(0, 1).lies_below(over) {
        multiplied(v, crate::held::minus(Signed::part(1, 1), over))
    } else {
        v
    }
}

fn veiled_of(thin: Colour, low: Colour) -> (c: Colour)
    requires
        is_colour(thin),
        is_colour(low),
    ensures
        c == veiled(thin, low),
        is_colour(c),
{
    let v = if luma_of(low).less(luma_of(thin)) {
        low
    } else {
        thin
    };
    let over = hold(smoothstep(Signed::of(170, 1), Signed::of(210, 1), luma_of(v)));
    if Signed::zero().less(over) {
        multiply(v, take_from(Signed::of(1, 1), over))
    } else {
        v
    }
}

/// The smoke over each pixel of a part of a photo.
pub open spec fn veil(d: Seq<u8>, bw: int, bh: int, r: int, cell: int) -> Seq<Colour> {
    let thin = thinned(d, bw, bh, r);
    let gw = crate::edit::parts(bw, cell);
    let gh = crate::edit::parts(bh, cell);
    let low = smoothed(lows(d, bw, bh, cell), gw, gh);
    Seq::new(
        (bw * bh) as nat,
        |j: int| veiled(thin[j], between(low, gw, gh, cell, j % bw, j / bw)),
    )
}

/// The smoke over each pixel of a part of a photo (see [`veil`]).
fn veil_of(d: &Vec<u8>, bw: u32, bh: u32, r: usize, cell: usize) -> (v: Vec<Colour>)
    requires
        0 < bw <= crate::spread::longest(),
        0 < bh <= crate::spread::longest(),
        d@.len() == bw * bh * 3,
        r <= 60,
        cell > 0,
    ensures
        v@ == veil(d@, bw as int, bh as int, r as int, cell as int),
        v@.len() == bw * bh,
        forall|j: int| 0 <= j < v@.len() ==> is_colour(#[trigger] v@[j]),
{
    let bytes: usize = d.len();
    let gw: usize = divide_up(bw as usize, cell);
    let gh: usize = divide_up(bh as usize, cell);
    proof {
        assert(gw * gh <= bw * bh) by (nonlinear_arith)
            requires
                0 <= gw <= bw,
                0 <= gh <= bh,
        ;
        assert(0 <= bw * bh <= bytes) by (nonlinear_arith)
            requires
                bytes == bw * bh * 3,
                0 <= bw,
                0 <= bh,
        ;
        assert(0 <= gw * gh) by (nonlinear_arith);
    }
    let n: usize = bw as usize * bh as usize;
    let y = brightness_of(d, n);
    let thin = thinned_of(d, &y, bw as usize, bh as usize, r);
    let low = smoothed_of(&lows_of(d, &y, bw as usize, bh as usize, cell, gw, gh), gw, gh);
    let mut v: Vec<Colour> = Vec::new();
    let mut j: usize = 0;
    while j < n
        invariant
            j <= n == bw * bh,
            0 < bw <= crate::spread::longest(),
            0 < bh <= crate::spread::longest(),
            cell > 0,
            0 < gw <= crate::spread::longest(),
            0 < gh <= crate::spread::longest(),
            thin@.len() == n,
            low@.len() == gw * gh,
            v@.len() == j,
            forall|i: int| 0 <= i < n ==> is_colour(#[trigger] thin@[i]),
            forall|i: int| 0 <= i < low@.len() ==> is_colour(#[trigger] low@[i]),
            forall|i: int|
                0 <= i < j ==> #[trigger] v@[i] == veiled(
                    thin@[i],
                    between(low@, gw as int, gh as int, cell as int, i % bw as int, i / bw as int),
                ),
            forall|i: int| 0 <= i < j ==> is_colour(#[trigger] v@[i]),
        decreases n - j,
    {
        proof {
            lemma_place(j as int, bw as int);
            assert((j as int / bw as int) < bh) by (nonlinear_arith)
                requires
                    j < bw * bh,
                    j == (j as int / bw as int) * bw + j as int % bw as int,
                    j as int % bw as int >= 0,
                    bw > 0,
            ;
        }
        let x: u32 = (j % bw as usize) as u32;
        let y: u32 = (j / bw as usize) as u32;
        v.push(veiled_of(thin[j], between_of(&low, gw, gh, cell, x, y)));
        j += 1;
    }
    assert(v@ =~= veil(d@, bw as int, bh as int, r as int, cell as int));
    v
}

/// How much of what stands out from the smoke is held back: the trails of fireworks.
pub open spec fn held_back(v: Colour, o: Colour) -> Signed {
    let rel = crate::held::over(
        crate::held::minus(luma(o), luma(v)).larger(Signed::part(0, 1)),
        crate::held::plus(luma(v), Signed::part(40, 1)),
    );
    crate::held::held(crate::advice::smoothed(Signed::part(10, 100), Signed::part(30, 100), rel))
}

/// What a channel is brought to: it loses its smoke as far as that lies over the ground, or becomes
/// the ground; it never gets brighter.
pub open spec fn goal(o: Signed, v: Option<Signed>, bg: Signed, back: Signed) -> Signed {
    (match v {
        Some(v) => crate::held::minus(
            o,
            crate::held::times(
                crate::held::minus(v, bg).larger(Signed::part(0, 1)),
                crate::held::minus(Signed::part(1, 1), back),
            ),
        ),
        None => bg,
    }).smaller(o)
}

/// A channel, `a` of the way to what it is brought to.
pub open spec fn moved(o: Signed, to: Signed, a: Signed) -> u8 {
    crate::sample::byte(crate::held::mixed(o, to, a))
}

/// A pixel, `a` of the way to what it is brought to.
pub open spec fn painted(o: Colour, keep: Option<Colour>, bg: Colour, a: Signed) -> (u8, u8, u8) {
    match keep {
        Some(v) => {
            let back = held_back(v, o);
            (
                moved(o.0, goal(o.0, Some(v.0), bg.0, back), a),
                moved(o.1, goal(o.1, Some(v.1), bg.1, back), a),
                moved(o.2, goal(o.2, Some(v.2), bg.2, back), a),
            )
        },
        None => {
            let back = Signed::part(0, 1);
            (
                moved(o.0, goal(o.0, None, bg.0, back), a),
                moved(o.1, goal(o.1, None, bg.1, back), a),
                moved(o.2, goal(o.2, None, bg.2, back), a),
            )
        },
    }
}

fn held_back_of(v: Colour, o: Colour) -> (r: Signed)
    requires
        is_colour(v),
        is_colour(o),
    ensures
        r == held_back(v, o),
        crate::held::fits(r),
{
    let vy = luma_of(v);
    let rel = divide_by(
        take_from(luma_of(o), vy).max(Signed::zero()),
        add_to(vy, Signed::of(40, 1)),
    );
    hold(smoothstep(Signed::of(10, 100), Signed::of(30, 100), rel))
}

fn goal_of(o: Signed, v: Option<Signed>, bg: Signed, back: Signed) -> (r: Signed)
    requires
        crate::held::fits(o),
        crate::held::fits(bg),
        crate::held::fits(back),
        v matches Some(x) ==> crate::held::fits(x),
    ensures
        r == goal(o, v, bg, back),
        crate::held::fits(r),
        !o.lies_below(r),
{
    let to = match v {
        Some(v) => take_from(
            o,
            scale_by(take_from(v, bg).max(Signed::zero()), take_from(Signed::of(1, 1), back)),
        ),
        None => bg,
    };
    to.min(o)
}

fn moved_of(o: Signed, to: Signed, a: Signed) -> (b: u8)
    requires
        crate::held::fits(o),
        crate::held::fits(to),
        crate::held::fits(a),
    ensures
        b == moved(o, to, a),
        forall|n: u8|
            o == (#[trigger] Signed::part(n as int, 1)) && !a.neg && !o.lies_below(to) ==> b <= n,
{
    byte_of(mix(o, to, a))
}

fn painted_of(o: Colour, keep: Option<Colour>, bg: Colour, a: Signed) -> (r: (u8, u8, u8))
    requires
        is_colour(o),
        keep matches Some(v) ==> is_colour(v),
        is_colour(bg),
        crate::held::fits(a),
    ensures
        r == painted(o, keep, bg, a),
        forall|x: u8, y: u8, z: u8|
            o == (#[trigger] Signed::part(x as int, 1), #[trigger] Signed::part(y as int, 1), #[trigger] Signed::part(
                z as int,
                1,
            )) && !a.neg ==> r.0 <= x && r.1 <= y && r.2 <= z,
{
    match keep {
        Some(v) => {
            let back = held_back_of(v, o);
            (
                moved_of(o.0, goal_of(o.0, Some(v.0), bg.0, back), a),
                moved_of(o.1, goal_of(o.1, Some(v.1), bg.1, back), a),
                moved_of(o.2, goal_of(o.2, Some(v.2), bg.2, back), a),
            )
        },
        None => {
            let back = Signed::zero();
            (
                moved_of(o.0, goal_of(o.0, None, bg.0, back), a),
                moved_of(o.1, goal_of(o.1, None, bg.1, back), a),
                moved_of(o.2, goal_of(o.2, None, bg.2, back), a),
            )
        },
    }
}

/// The values that pixels of a plane have, if there is one.
pub open spec fn pick(v: Option<Seq<Colour>>, j: int) -> Option<Colour> {
    match v {
        Some(s) => Some(s[j]),
        None => None,
    }
}

/// What a grid of ground cells, the smoke and the coverage make of a pixel.
pub open spec fn worked(
    d: Seq<u8>,
    cov: Seq<Signed>,
    density: Signed,
    val: Seq<Colour>,
    smoke: Option<Seq<Colour>>,
    bw: int,
    bh: int,
    cell: int,
    j: int,
) -> (u8, u8, u8) {
    let a = crate::held::times(cov[j], density);
    if Signed::part(2, 1000).lies_below(a) {
        let gw = crate::edit::parts(bw, cell);
        let gh = crate::edit::parts(bh, cell);
        painted(pixel(d, j), pick(smoke, j), between(val, gw, gh, cell, j % bw, j / bw), a)
    } else {
        triple(d, j)
    }
}

/// One of three bytes.
pub open spec fn third(t: (u8, u8, u8), c: int) -> u8 {
    if c == 0 {
        t.0
    } else if c == 1 {
        t.1
    } else {
        t.2
    }
}

/// The smoke over a part of a photo, if trails are to be kept.
pub open spec fn smoke_over(d: Seq<u8>, keep: bool, bw: int, bh: int, r: int, cell: int) -> Option<
    Seq<Colour>,
> {
    if keep {
        Some(veil(d, bw, bh, r, cell))
    } else {
        None
    }
}

/// Brings the pixels of a part of a photo to the ground (see [`worked`]).
fn work(
    d: &Vec<u8>,
    cov: &Vec<Signed>,
    density: Signed,
    val: &Vec<Colour>,
    smoke: Option<Vec<Colour>>,
    bw: u32,
    bh: u32,
    cell: usize,
    gw: usize,
    gh: usize,
) -> (out: Vec<u8>)
    requires
        0 < bw <= crate::spread::longest(),
        0 < bh <= crate::spread::longest(),
        d@.len() == bw * bh * 3,
        cov@.len() == bw * bh,
        cell > 0,
        0 < gw <= crate::spread::longest(),
        0 < gh <= crate::spread::longest(),
        gw == crate::edit::parts(bw as int, cell as int),
        gh == crate::edit::parts(bh as int, cell as int),
        val@.len() == gw * gh,
        crate::held::fits(density),
        smoke matches Some(v) ==> v@.len() == bw * bh,
        forall|j: int| 0 <= j < cov@.len() ==> crate::held::fits(#[trigger] cov@[j]),
        forall|j: int| 0 <= j < val@.len() ==> is_colour(#[trigger] val@[j]),
        smoke matches Some(v) ==> forall|j: int| 0 <= j < v@.len() ==> is_colour(#[trigger] v@[j]),
    ensures
        out@.len() == d@.len(),
        forall|i: int|
            0 <= i < out@.len() ==> #[trigger] out@[i] == third(
                worked(
                    d@,
                    cov@,
                    density,
                    val@,
                    planes(smoke),
                    bw as int,
                    bh as int,
                    cell as int,
                    i / 3,
                ),
                i % 3,
            ),
        forall|i: int| 0 <= i < out@.len() ==> #[trigger] out@[i] <= d@[i],
{
    let n: usize = cov.len();
    let bytes: usize = d.len();
    let least = Signed::of(2, 1000);
    let mut out: Vec<u8> = Vec::new();
    let mut j: usize = 0;
    while j < n
        invariant
            j <= n == cov@.len(),
            n == bw * bh,
            0 < bw <= crate::spread::longest(),
            0 < bh <= crate::spread::longest(),
            bytes == d@.len() == n * 3,
            cell > 0,
            0 < gw <= crate::spread::longest(),
            0 < gh <= crate::spread::longest(),
            gw == crate::edit::parts(bw as int, cell as int),
            gh == crate::edit::parts(bh as int, cell as int),
            val@.len() == gw * gh,
            crate::held::fits(density),
            least == Signed::part(2, 1000),
            crate::held::fits(least),
            smoke matches Some(v) ==> v@.len() == bw * bh,
            forall|j: int| 0 <= j < cov@.len() ==> crate::held::fits(#[trigger] cov@[j]),
            forall|j: int| 0 <= j < val@.len() ==> is_colour(#[trigger] val@[j]),
            smoke matches Some(v) ==> forall|j: int|
                0 <= j < v@.len() ==> is_colour(#[trigger] v@[j]),
            out@.len() == j * 3,
            forall|i: int|
                0 <= i < out@.len() ==> #[trigger] out@[i] == third(
                    worked(
                        d@,
                        cov@,
                        density,
                        val@,
                        planes(smoke),
                        bw as int,
                        bh as int,
                        cell as int,
                        i / 3,
                    ),
                    i % 3,
                ),
            forall|i: int| 0 <= i < out@.len() ==> #[trigger] out@[i] <= d@[i],
        decreases n - j,
    {
        proof {
            lemma_place(j as int, bw as int);
            assert((j as int / bw as int) < bh) by (nonlinear_arith)
                requires
                    j < bw * bh,
                    j == (j as int / bw as int) * bw + j as int % bw as int,
                    j as int % bw as int >= 0,
                    bw > 0,
            ;
        }
        let a = scale_by(cov[j], density);
        let t: (u8, u8, u8) = if least.less(a) {
            let x: u32 = (j % bw as usize) as u32;
            let y: u32 = (j / bw as usize) as u32;
            let keep: Option<Colour> = match &smoke {
                Some(v) => Some(v[j]),
                None => None,
            };
            painted_of(pixel_of(d, j), keep, between_of(val, gw, gh, cell, x, y), a)
        } else {
            assert(j * 3 + 3 <= bytes);
            (d[j * 3], d[j * 3 + 1], d[j * 3 + 2])
        };
        out.push(t.0);
        out.push(t.1);
        out.push(t.2);
        j += 1;
    }
    out
}

/// A plane as it is seen, if there is one.
pub open spec fn planes(v: Option<Vec<Colour>>) -> Option<Seq<Colour>> {
    match v {
        Some(v) => Some(v@),
        None => None,
    }
}

/// A part of a photo.
#[derive(Clone, Copy)]
pub struct Frame {
    pub x0: u32,
    pub y0: u32,
    pub bw: u32,
    pub bh: u32,
}

impl Frame {
    /// The part lies on a photo of so many pixels.
    pub open spec fn lies_on(&self, w: int, h: int) -> bool {
        &&& self.bw > 0
        &&& self.bh > 0
        &&& self.x0 + self.bw <= w
        &&& self.y0 + self.bh <= h
    }

    /// The pixel lies on the part.
    pub open spec fn holds(&self, x: int, y: int) -> bool {
        self.x0 <= x < self.x0 + self.bw && self.y0 <= y < self.y0 + self.bh
    }

    /// The place of a pixel on the part.
    pub open spec fn place(&self, x: int, y: int) -> int {
        (y - self.y0) * self.bw + (x - self.x0)
    }
}

/// One side of a place.
pub open spec fn coord(p: Point, down: bool) -> Signed {
    if down {
        p.1
    } else {
        p.0
    }
}

/// The least coordinate of the first `k` points.
pub open spec fn least(pts: Seq<Point>, down: bool, k: int) -> Signed
    decreases k,
{
    if k <= 1 {
        coord(pts[0], down)
    } else {
        least(pts, down, k - 1).smaller(coord(pts[k - 1], down))
    }
}

/// The greatest coordinate of the first `k` points.
pub open spec fn most(pts: Seq<Point>, down: bool, k: int) -> Signed
    decreases k,
{
    if k <= 1 {
        coord(pts[0], down)
    } else {
        most(pts, down, k - 1).larger(coord(pts[k - 1], down))
    }
}

/// The pixels along one side that points reach with `r` and `pad` around them: the first one, and how
/// many.
pub open spec fn stretch(pts: Seq<Point>, down: bool, r: Signed, pad: Signed, n: int) -> (int, int) {
    let k = pts.len() as int;
    let a = crate::stroke::first_cell(
        crate::held::minus(crate::held::minus(least(pts, down, k), r), pad),
        n,
    );
    let b = crate::stroke::last_cell(
        crate::held::plus(crate::held::plus(most(pts, down, k), r), pad),
        n,
    );
    (a, crate::scale::at_least(b - a + 1, 1))
}

fn coord_of(p: Point, down: bool) -> (v: Signed)
    ensures
        v == coord(p, down),
{
    if down {
        p.1
    } else {
        p.0
    }
}

fn stretch_of(pts: &Vec<Point>, down: bool, r: Signed, pad: Signed, n: u32) -> (s: (u32, u32))
    requires
        pts@.len() > 0,
        0 < n <= crate::spread::longest(),
        crate::held::fits(r),
        crate::held::fits(pad),
        forall|i: int| 0 <= i < pts@.len() ==> crate::stroke::is_spot(#[trigger] pts@[i]),
    ensures
        (s.0 as int, s.1 as int) == stretch(pts@, down, r, pad, n as int),
        s.1 > 0,
        s.0 + s.1 <= n,
{
    let m: usize = pts.len();
    let mut lo = coord_of(pts[0], down);
    let mut hi = lo;
    let mut i: usize = 1;
    while i < m
        invariant
            1 <= i <= m == pts@.len(),
            forall|i: int| 0 <= i < pts@.len() ==> crate::stroke::is_spot(#[trigger] pts@[i]),
            lo == least(pts@, down, i as int),
            hi == most(pts@, down, i as int),
            crate::held::fits(lo),
            crate::held::fits(hi),
        decreases m - i,
    {
        let v = coord_of(pts[i], down);
        lo = lo.min(v);
        hi = hi.max(v);
        i += 1;
    }
    let a: u32 = first_cell_of(take_from(take_from(lo, r), pad), n);
    let b: u32 = last_cell_of(add_to(add_to(hi, r), pad), n);
    if b < a {
        (a, 1)
    } else {
        (a, b - a + 1)
    }
}

/// The numbers of a stroke are there.
pub open spec fn is_wipe(w: Wipe) -> bool {
    &&& w.radius.wf()
    &&& w.feather.wf()
    &&& w.flow.wf()
    &&& w.density.wf()
    &&& forall|i: int| 0 <= i < w.pts@.len() ==> (#[trigger] w.pts@[i]).0.wf() && w.pts@[i].1.wf()
}

/// The points of a stroke, in pixels.
pub open spec fn scaled(pts: Seq<Point>, iw: int, ih: int) -> Seq<Point> {
    Seq::new(
        pts.len(),
        |i: int|
            (
                crate::held::times(pts[i].0, Signed::part(iw, 1)),
                crate::held::times(pts[i].1, Signed::part(ih, 1)),
            ),
    )
}

/// Points as seen from a place.
pub open spec fn seen_from(pts: Seq<Point>, x0: int, y0: int) -> Seq<Point> {
    Seq::new(
        pts.len(),
        |i: int|
            (
                crate::held::minus(pts[i].0, Signed::part(x0, 1)),
                crate::held::minus(pts[i].1, Signed::part(y0, 1)),
            ),
    )
}

/// How far a stroke reaches, in pixels.
pub open spec fn reach(w: Wipe, iw: int, ih: int) -> Signed {
    crate::held::times(w.radius, Signed::part(crate::scale::longer(iw, ih), 1)).larger(
        Signed::part(1, 1),
    )
}

/// The part of a photo that a stroke is worked out on: what it reaches, with some more around it.
pub open spec fn frame(w: Wipe, iw: int, ih: int) -> Frame {
    let r = reach(w, iw, ih);
    let pad = crate::held::times(r, Signed::part(9, 10)).larger(Signed::part(4, 1));
    let pts = scaled(w.pts@, iw, ih);
    let a = stretch(pts, false, r, pad, iw);
    let b = stretch(pts, true, r, pad, ih);
    Frame { x0: a.0 as u32, y0: b.0 as u32, bw: a.1 as u32, bh: b.1 as u32 }
}

/// The brush of a stroke on that part.
pub open spec fn tool(w: Wipe, iw: int, ih: int) -> Tool {
    let r = reach(w, iw, ih);
    let f = frame(w, iw, ih);
    Tool {
        r,
        inner: crate::held::times(
            r,
            crate::held::minus(
                Signed::part(1, 1),
                w.feather.clamped(Signed::part(0, 1), Signed::part(1, 1)),
            ),
        ),
        flow: w.flow.clamped(Signed::part(0, 1), Signed::part(1, 1)),
        bw: f.bw,
        bh: f.bh,
    }
}

/// How much a stroke covers of each pixel of that part.
pub open spec fn coverage(w: Wipe, iw: int, ih: int) -> Seq<Signed> {
    let f = frame(w, iw, ih);
    let step = crate::held::times(reach(w, iw, ih), Signed::part(3, 10)).larger(Signed::part(3, 4));
    tool(w, iw, ih).swept(
        seen_from(scaled(w.pts@, iw, ih), f.x0 as int, f.y0 as int),
        step,
        w.pts@.len() as int,
    )
}

/// The bytes of a part of a photo.
pub open spec fn cut(p: crate::raster::Picture, f: Frame) -> Seq<u8> {
    Seq::new(
        (f.bw * f.bh * 3) as nat,
        |i: int| p.at(f.x0 + (i / 3) % f.bw as int, f.y0 + (i / 3) / f.bw as int, i % 3),
    )
}

/// A photo with other bytes on a part of it.
pub open spec fn pasted(p: crate::raster::Picture, q: Seq<u8>, f: Frame) -> crate::raster::Picture {
    crate::raster::Picture {
        d: Seq::new(
            p.d.len(),
            |i: int|
                if f.holds((i / 3) % p.w, (i / 3) / p.w) {
                    q[f.place((i / 3) % p.w, (i / 3) / p.w) * 3 + i % 3]
                } else {
                    p.d[i]
                },
        ),
        ..p
    }
}

/// What a stroke makes of the part that it is worked out on, with the ground behind it.
pub open spec fn cleaned(w: Wipe, d: Seq<u8>, val: Seq<Colour>, iw: int, ih: int) -> Seq<u8> {
    let f = frame(w, iw, ih);
    let cell = wipe_cell(f);
    let smoke = smoke_over(
        d,
        w.keep_detail,
        f.bw as int,
        f.bh as int,
        crate::grade::clarity_reach(iw, ih),
        smoke_cell(iw, ih),
    );
    let density = w.density.clamped(Signed::part(0, 1), Signed::part(1, 1));
    let cov = coverage(w, iw, ih);
    Seq::new(
        d.len(),
        |i: int|
            third(worked(d, cov, density, val, smoke, f.bw as int, f.bh as int, cell, i / 3), i % 3),
    )
}

/// Side of the cells of the ground.
pub open spec fn wipe_cell(f: Frame) -> int {
    crate::scale::at_least(
        crate::edit::parts(crate::scale::longer(f.bw as int, f.bh as int), 64),
        1,
    )
}

/// Side of the cells that smoke is looked for in.
pub open spec fn smoke_cell(iw: int, ih: int) -> int {
    crate::scale::within(crate::scale::portion(crate::scale::longer(iw, ih), 25, 10000), 2, 64)
}

/// A photo that one stroke was wiped over. A photo of less than two pixels across, or one that the
/// stroke leaves nothing open of, stays as it is.
pub open spec fn wiped(p: crate::raster::Picture, w: Wipe) -> crate::raster::Picture {
    let f = frame(w, p.w, p.h);
    let d = cut(p, f);
    if p.w < 2 || p.h < 2 {
        p
    } else {
        match ground(d, coverage(w, p.w, p.h), f.bw as int, f.bh as int, wipe_cell(f)) {
            Some(val) => pasted(p, cleaned(w, d, val, p.w, p.h), f),
            None => p,
        }
    }
}

fn scaled_of(pts: &Vec<Point>, iw: u32, ih: u32) -> (out: Vec<Point>)
    requires
        forall|i: int| 0 <= i < pts@.len() ==> crate::stroke::is_spot(#[trigger] pts@[i]),
    ensures
        out@ == scaled(pts@, iw as int, ih as int),
        forall|i: int| 0 <= i < out@.len() ==> crate::stroke::is_spot(#[trigger] out@[i]),
{
    let n: usize = pts.len();
    let a = whole(iw as u64);
    let b = whole(ih as u64);
    let mut out: Vec<Point> = Vec::new();
    let mut i: usize = 0;
    while i < n
        invariant
            i <= n == pts@.len(),
            a == Signed::part(iw as int, 1),
            b == Signed::part(ih as int, 1),
            crate::held::fits(a),
            crate::held::fits(b),
            forall|i: int| 0 <= i < pts@.len() ==> crate::stroke::is_spot(#[trigger] pts@[i]),
            out@.len() == i,
            forall|k: int| 0 <= k < i ==> #[trigger] out@[k] == scaled(pts@, iw as int, ih as int)[k],
            forall|k: int| 0 <= k < i ==> crate::stroke::is_spot(#[trigger] out@[k]),
        decreases n - i,
    {
        let p = pts[i];
        out.push((scale_by(p.0, a), scale_by(p.1, b)));
        i += 1;
    }
    assert(out@ =~= scaled(pts@, iw as int, ih as int));
    out
}

fn seen_from_of(pts: &Vec<Point>, x0: u32, y0: u32) -> (out: Vec<Point>)
    requires
        forall|i: int| 0 <= i < pts@.len() ==> crate::stroke::is_spot(#[trigger] pts@[i]),
    ensures
        out@ == seen_from(pts@, x0 as int, y0 as int),
        out@.len() == pts@.len(),
        forall|i: int| 0 <= i < out@.len() ==> crate::stroke::is_spot(#[trigger] out@[i]),
{
    let n: usize = pts.len();
    let a = whole(x0 as u64);
    let b = whole(y0 as u64);
    let mut out: Vec<Point> = Vec::new();
    let mut i: usize = 0;
    while i < n
        invariant
            i <= n == pts@.len(),
            a == Signed::part(x0 as int, 1),
            b == Signed::part(y0 as int, 1),
            crate::held::fits(a),
            crate::held::fits(b),
            forall|i: int| 0 <= i < pts@.len() ==> crate::stroke::is_spot(#[trigger] pts@[i]),
            out@.len() == i,
            forall|k: int| 0 <= k < i ==> #[trigger] out@[k] == seen_from(pts@, x0 as int, y0 as int)[k],
            forall|k: int| 0 <= k < i ==> crate::stroke::is_spot(#[trigger] out@[k]),
        decreases n - i,
    {
        let p = pts[i];
        out.push((take_from(p.0, a), take_from(p.1, b)));
        i += 1;
    }
    assert(out@ =~= seen_from(pts@, x0 as int, y0 as int));
    out
}

/// Cuts a part out of a photo (see [`cut`]).
fn cut_of(img: &Raster, f: Frame) -> (d: Vec<u8>)
    requires
        img@.wf(),
        f.lies_on(img@.w, img@.h),
    ensures
        d@ == cut(img@, f),
        d@.len() == f.bw * f.bh * 3,
{
    let r = crop(img, f.x0, f.y0, f.bw, f.bh);
    proof {
        assert(r@.w == f.bw && r@.h == f.bh);
        assert forall|i: int| 0 <= i < r@.d.len() implies #[trigger] r@.d[i] == cut(img@, f)[i] by {
            let k = i / 3;
            assert(0 <= k < f.bw * f.bh);
            crate::grid::lemma_cell_split(k, f.bw as int, f.bh as int);
            assert(r@.has(k % f.bw as int, k / f.bw as int));
            assert(crate::raster::slot(k % f.bw as int, k / f.bw as int, i % 3, f.bw as int) == i);
            assert(r@.at(k % f.bw as int, k / f.bw as int, i % 3) == r@.d[i]);
        }
        assert(r@.d =~= cut(img@, f));
    }
    r.d
}

/// Puts bytes on a part of a photo (see [`pasted`]).
fn paste(img: &mut Raster, q: &Vec<u8>, f: Frame)
    requires
        old(img)@.wf(),
        f.lies_on(old(img)@.w, old(img)@.h),
        q@.len() == f.bw * f.bh * 3,
    ensures
        final(img)@ == pasted(old(img)@, q@, f),
        final(img)@.wf(),
{
    let ghost before = img@;
    let w: usize = img.w;
    let n: usize = img.d.len();
    let bytes: usize = q.len();
    let mut i: usize = 0;
    let mut x: usize = 0;
    let mut y: usize = 0;
    proof {
        assert(0 * w == 0);
    }
    while i < n
        invariant
            i <= n == before.d.len(),
            n == w * before.h * 3,
            i == (y * w + x) * 3,
            before.w == w,
            x < w || n == 0,
            0 <= y <= before.h,
            before.wf(),
            f.lies_on(before.w, before.h),
            bytes == q@.len() == f.bw * f.bh * 3,
            img@.w == w,
            img@.h == before.h,
            img.d@.len() == n,
            forall|k: int| 0 <= k < i ==> #[trigger] img.d@[k] == pasted(before, q@, f).d[k],
            forall|k: int| i <= k < n ==> #[trigger] img.d@[k] == before.d[k],
        decreases n - i,
    {
        proof {
            assert(y < before.h) by (nonlinear_arith)
                requires
                    (y * w + x) * 3 < w * before.h * 3,
                    x >= 0,
                    w > 0,
            ;
            crate::grid::lemma_cell_bound(x as int, y as int, w as int, before.h);
            vstd::arithmetic::div_mod::lemma_fundamental_div_mod_converse(
                y * w + x,
                w as int,
                y as int,
                x as int,
            );
            assert(i as int / 3 == y * w + x && (i + 1) as int / 3 == y * w + x && (i + 2) as int / 3
                == y * w + x);
        }
        if f.x0 as usize <= x && x - (f.x0 as usize) < f.bw as usize && f.y0 as usize <= y && y - (
        f.y0 as usize) < f.bh as usize {
            let row: usize = y - f.y0 as usize;
            let col: usize = x - f.x0 as usize;
            proof {
                crate::grid::lemma_cell_bound(col as int, row as int, f.bw as int, f.bh as int);
                assert(0 <= row * f.bw) by (nonlinear_arith);
            }
            let j: usize = (row * f.bw as usize + col) * 3;
            img.d.set(i, q[j]);
            img.d.set(i + 1, q[j + 1]);
            img.d.set(i + 2, q[j + 2]);
        }
        i += 3;
        if x + 1 < w {
            x += 1;
        } else {
            x = 0;
            proof {
                assert((y + 1) * w == y * w + w) by (nonlinear_arith);
            }
            y += 1;
        }
    }
    assert(img.d@ =~= pasted(before, q@, f).d);
}

/// Bytes that are nowhere larger than those of a part of a photo make it nowhere brighter.
proof fn lemma_pasted_below(p: crate::raster::Picture, q: Seq<u8>, f: Frame)
    requires
        p.wf(),
        f.lies_on(p.w, p.h),
        q.len() == f.bw * f.bh * 3,
        forall|k: int| 0 <= k < q.len() ==> #[trigger] q[k] <= cut(p, f)[k],
    ensures
        forall|i: int| 0 <= i < p.d.len() ==> #[trigger] pasted(p, q, f).d[i] <= p.d[i],
{
    assert forall|i: int| 0 <= i < p.d.len() implies #[trigger] pasted(p, q, f).d[i] <= p.d[i] by {
        let k = i / 3;
        assert(0 <= k < p.w * p.h);
        crate::grid::lemma_cell_split(k, p.w, p.h);
        let x = k % p.w;
        let y = k / p.w;
        if f.holds(x, y) {
            let j = f.place(x, y);
            crate::grid::lemma_cell_bound(x - f.x0, y - f.y0, f.bw as int, f.bh as int);
            vstd::arithmetic::div_mod::lemma_fundamental_div_mod_converse(
                j,
                f.bw as int,
                y - f.y0,
                x - f.x0,
            );
            let c = i % 3;
            assert((j * 3 + c) / 3 == j && (j * 3 + c) % 3 == c);
            assert(q[j * 3 + c] <= cut(p, f)[j * 3 + c]);
            assert(crate::raster::slot(x, y, c, p.w) == i);
        }
    }
}

/// Wipes one stroke over a photo (see [`wiped`]). Nothing gets brighter.
pub fn wipe_one(img: &mut Raster, w: &Wipe)
    requires
        old(img)@.wf(),
        old(img).w <= crate::spread::longest(),
        old(img).h <= crate::spread::longest(),
        is_wipe(*w),
        w.pts@.len() > 0,
    ensures
        final(img)@ == wiped(old(img)@, *w),
        final(img)@.wf(),
        final(img).w == old(img).w,
        final(img).h == old(img).h,
        final(img)@.d.len() == old(img)@.d.len(),
        forall|i: int|
            0 <= i < old(img)@.d.len() ==> #[trigger] final(img)@.d[i] <= old(img)@.d[i],
{
    if img.w < 2 || img.h < 2 {
        return;
    }
    let iw: u32 = img.w as u32;
    let ih: u32 = img.h as u32;
    let long: u32 = if iw < ih {
        ih
    } else {
        iw
    };
    let zero = Signed::zero();
    let one = Signed::of(1, 1);
    let r = scale_by(w.radius, whole(long as u64)).max(one);
    let pad = scale_by(r, Signed::of(9, 10)).max(Signed::of(4, 1));
    assert forall|i: int| 0 <= i < w.pts@.len() implies crate::stroke::is_spot(#[trigger] w.pts@[i]) by {}
    let pts = scaled_of(&w.pts, iw, ih);
    let a = stretch_of(&pts, false, r, pad, iw);
    let b = stretch_of(&pts, true, r, pad, ih);
    let f = Frame { x0: a.0, y0: b.0, bw: a.1, bh: b.1 };
    assert(f == frame(*w, iw as int, ih as int));
    let inner = scale_by(r, take_from(one, w.feather.clamp(zero, one)));
    let t = Tool { r, inner, flow: w.flow.clamp(zero, one), bw: f.bw, bh: f.bh };
    assert(t == tool(*w, iw as int, ih as int));
    let d = cut_of(img, f);
    let bytes: usize = d.len();
    proof {
        assert(0 <= f.bw * f.bh <= bytes) by (nonlinear_arith)
            requires
                bytes == f.bw * f.bh * 3,
                0 <= f.bw,
                0 <= f.bh,
        ;
    }
    let step = scale_by(r, Signed::of(3, 10)).max(Signed::of(3, 4));
    let cov = t.sweep(&seen_from_of(&pts, f.x0, f.y0), step);
    assert(cov@ == coverage(*w, iw as int, ih as int));
    let g = wipe_grid(f.bw as usize, f.bh as usize);
    proof {
        assert(g.1 * g.2 <= f.bw * f.bh) by (nonlinear_arith)
            requires
                0 <= g.1 <= f.bw,
                0 <= g.2 <= f.bh,
        ;
        assert(g.0 == wipe_cell(f));
    }
    match ground_of(&d, &cov, f.bw as usize, f.bh as usize, g.0, g.1, g.2) {
        None => {},
        Some(val) => {
            let smoke: Option<Vec<Colour>> = if w.keep_detail {
                let reach: usize = clarity_reach_of(img.w, img.h);
                let side: u64 = window(long, 25, 10000, 2, 64);
                Some(veil_of(&d, f.bw, f.bh, reach, side as usize))
            } else {
                None
            };
            let density = w.density.clamp(zero, one);
            let q = work(&d, &cov, density, &val, smoke, f.bw, f.bh, g.0, g.1, g.2);
            assert(q@ =~= cleaned(*w, d@, val@, iw as int, ih as int));
            proof {
                lemma_pasted_below(img@, q@, f);
            }
            paste(img, &q, f);
        },
    }
}

/// The stroke is large enough to be meant.
pub open spec fn counts(w: Wipe) -> bool {
    w.pts@.len() > 0 && crate::smoke::above(w.radius, 1, 1000) && crate::smoke::above(
        w.density,
        1,
        1000,
    )
}

/// A photo that strokes were wiped over, one after the other; those that are not meant do nothing.
pub open spec fn all_wiped(p: crate::raster::Picture, wipes: Seq<Wipe>) -> crate::raster::Picture
    decreases wipes.len(),
{
    if wipes.len() == 0 {
        p
    } else {
        let q = all_wiped(p, wipes.drop_last());
        if counts(wipes.last()) {
            wiped(q, wipes.last())
        } else {
            q
        }
    }
}

/// Wipes strokes over a photo (see [`all_wiped`]). Nothing gets brighter.
pub fn apply_wipe(img: &mut Raster, wipes: &Vec<Wipe>)
    requires
        old(img)@.wf(),
        old(img).w <= crate::spread::longest(),
        old(img).h <= crate::spread::longest(),
        forall|i: int| 0 <= i < wipes@.len() ==> is_wipe(#[trigger] wipes@[i]),
    ensures
        final(img)@ == all_wiped(old(img)@, wipes@),
        final(img)@.wf(),
        final(img).w == old(img).w,
        final(img).h == old(img).h,
        final(img)@.d.len() == old(img)@.d.len(),
        forall|i: int|
            0 <= i < old(img)@.d.len() ==> #[trigger] final(img)@.d[i] <= old(img)@.d[i],
{
    let ghost before = img@;
    let n: usize = wipes.len();
    let mut i: usize = 0;
    assert(wipes@.subrange(0, 0) =~= Seq::empty());
    while i < n
        invariant
            i <= n == wipes@.len(),
            img@.wf(),
            img.w == before.w,
            img.h == before.h,
            img.w <= crate::spread::longest(),
            img.h <= crate::spread::longest(),
            forall|i: int| 0 <= i < wipes@.len() ==> is_wipe(#[trigger] wipes@[i]),
            img@ == all_wiped(before, wipes@.subrange(0, i as int)),
            img@.d.len() == before.d.len(),
            forall|i: int| 0 <= i < before.d.len() ==> #[trigger] img@.d[i] <= before.d[i],
        decreases n - i,
    {
        let w = &wipes[i];
        let ghost part = wipes@.subrange(0, i + 1);
        assert(part.drop_last() =~= wipes@.subrange(0, i as int));
        assert(part.last() == wipes@[i as int]);
        if w.is_usable() {
            wipe_one(img, w);
        }
        i += 1;
    }
    assert(wipes@.subrange(0, n as int) =~= wipes@);
}

/// Strokes can be wiped in two goes: the result is that of all of them in one go.
pub proof fn law_wipes_split(p: crate::raster::Picture, a: Seq<Wipe>, b: Seq<Wipe>)
    ensures
        all_wiped(p, a + b) == all_wiped(all_wiped(p, a), b),
    decreases b.len(),
{
    if b.len() == 0 {
        assert(a + b =~= a);
    } else {
        law_wipes_split(p, a, b.drop_last());
        assert((a + b).drop_last() =~= a + b.drop_last());
        assert((a + b).last() == b.last());
    }
}

/// A stroke covers a pixel of a photo so much that it is seen.
pub open spec fn covers(w: Wipe, iw: int, ih: int, x: int, y: int) -> bool {
    let f = frame(w, iw, ih);
    &&& f.holds(x, y)
    &&& Signed::part(2, 1000).lies_below(
        crate::held::times(
            coverage(w, iw, ih)[f.place(x, y)],
            w.density.clamped(Signed::part(0, 1), Signed::part(1, 1)),
        ),
    )
}

proof fn lemma_cells(v: Signed, n: int)
    requires
        n > 0,
    ensures
        0 <= crate::stroke::first_cell(v, n) < n,
        0 <= crate::stroke::last_cell(v, n) < n,
{
    let s = v.size;
    crate::single::lemma_up_pos(s.e as int);
    crate::single::lemma_up_pos(-s.e);
    assert(s.m * crate::single::up(s.e as int) >= 0) by (nonlinear_arith)
        requires
            crate::single::up(s.e as int) > 0,
            s.m >= 0,
    ;
    assert(s.m as int / crate::single::up(-s.e) >= 0) by (nonlinear_arith)
        requires
            crate::single::up(-s.e) > 0,
            s.m >= 0,
    ;
    assert((s.m + crate::single::up(-s.e) - 1) / crate::single::up(-s.e) >= 0) by (nonlinear_arith)
        requires
            crate::single::up(-s.e) > 0,
            s.m >= 0,
    ;
}

/// The part that a stroke is worked out on lies on the photo.
proof fn lemma_frame_lies_on(w: Wipe, iw: int, ih: int)
    requires
        0 < iw <= u32::MAX,
        0 < ih <= u32::MAX,
    ensures
        frame(w, iw, ih).lies_on(iw, ih),
{
    let r = reach(w, iw, ih);
    let pad = crate::held::times(r, Signed::part(9, 10)).larger(Signed::part(4, 1));
    let pts = scaled(w.pts@, iw, ih);
    let k = pts.len() as int;
    lemma_cells(crate::held::minus(crate::held::minus(least(pts, false, k), r), pad), iw);
    lemma_cells(crate::held::plus(crate::held::plus(most(pts, false, k), r), pad), iw);
    lemma_cells(crate::held::minus(crate::held::minus(least(pts, true, k), r), pad), ih);
    lemma_cells(crate::held::plus(crate::held::plus(most(pts, true, k), r), pad), ih);
}

/// A stroke changes nothing that it does not cover.
pub proof fn law_only_covered_pixels_change(p: crate::raster::Picture, w: Wipe, x: int, y: int, c: int)
    requires
        p.wf(),
        p.has(x, y),
        0 <= c < 3,
        !covers(w, p.w, p.h, x, y),
    ensures
        wiped(p, w).at(x, y, c) == p.at(x, y, c),
{
    let f = frame(w, p.w, p.h);
    let d = cut(p, f);
    let i = crate::raster::slot(x, y, c, p.w);
    crate::raster::lemma_slot_bound(x, y, c, p.w, p.h);
    lemma_frame_lies_on(w, p.w, p.h);
    assert(i / 3 == y * p.w + x && i % 3 == c);
    vstd::arithmetic::div_mod::lemma_fundamental_div_mod_converse(y * p.w + x, p.w, y, x);
    if f.holds(x, y) {
        let j = f.place(x, y);
        crate::grid::lemma_cell_bound(x - f.x0, y - f.y0, f.bw as int, f.bh as int);
        vstd::arithmetic::div_mod::lemma_fundamental_div_mod_converse(
            j,
            f.bw as int,
            y - f.y0,
            x - f.x0,
        );
        assert(0 <= j * 3 + c < f.bw * f.bh * 3);
        assert((j * 3 + c) / 3 == j && (j * 3 + c) % 3 == c);
        assert((j * 3) / 3 == j && (j * 3) % 3 == 0);
        assert(d[j * 3 + c] == p.at(x, y, c));
    }
}

} // verus!
