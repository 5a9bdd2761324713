//! Taking smoke out of pixels.

use vstd::prelude::*;

use crate::advice::{ease, smoothstep};
use crate::mask::mix;
use crate::signed::{Colour, Signed};
use crate::smoke::Rgb;

verus! {

/// The numbers have exponents up to `k`.
pub open spec fn spans(c: Colour, k: int) -> bool {
    c.0.within(k) && c.1.within(k) && c.2.within(k)
}

/// A byte as a part of the brightest one.
pub open spec fn light(v: u8) -> Signed {
    Signed::part(v as int, 1).quotient(Signed::part(255, 1))
}

/// The bytes of a colour as parts of the brightest one.
pub open spec fn lit(c: Rgb) -> Colour {
    (light(c[0]), light(c[1]), light(c[2]))
}

/// A byte as a part of the brightest one (see [`light`]).
pub fn light_of(v: u8) -> (r: Signed)
    ensures
        r == light(v),
        r.within(224),
{
    Signed::of(v as u64, 1).over(Signed::of(255, 1))
}

fn lit_of(c: Rgb) -> (r: Colour)
    ensures
        r == lit(c),
        spans(r, 224),
{
    (light_of(c[0]), light_of(c[1]), light_of(c[2]))
}

/// How far apart two colours are, black and white being 1 apart.
pub open spec fn apart(a: Colour, b: Colour) -> Signed {
    let r = a.0.less_by(b.0);
    let g = a.1.less_by(b.1);
    let l = a.2.less_by(b.2);
    r.product(r).sum(g.product(g)).sum(l.product(l)).rooted().quotient(Signed::part(3, 1).rooted())
}

fn apart_of(a: Colour, b: Colour) -> (d: Signed)
    requires
        spans(a, 224),
        spans(b, 224),
    ensures
        d == apart(a, b),
        d.within(700),
        !d.neg,
        a == b ==> d.size.m == 0,
{
    let r = a.0.minus(b.0);
    let g = a.1.minus(b.1);
    let l = a.2.minus(b.2);
    let rr = r.times(r);
    let gg = g.times(g);
    let ll = l.times(l);
    assert(rr.within(700) && gg.within(700) && ll.within(700));
    let sum = rr.plus(gg).plus(ll);
    assert(sum.within(850));
    sum.sqrt().over(Signed::of(3, 1).sqrt())
}

/// The distance to the nearest of the first `k` colours.
pub open spec fn nearest_key(keys: Seq<Colour>, k: int, c: Colour) -> Option<Signed>
    decreases k,
{
    if k <= 0 {
        None
    } else {
        let d = apart(c, keys[k - 1]);
        match nearest_key(keys, k - 1, c) {
            None => Some(d),
            Some(b) => Some(
                if d.lies_below(b) {
                    d
                } else {
                    b
                },
            ),
        }
    }
}

/// Colours that pixels are compared with.
pub struct ColorMatch {
    keys: Vec<Colour>,
    /// Distances up to which a colour counts as one of them, and from which it does not.
    t0: Signed,
    t1: Signed,
    /// The tolerance that they follow from.
    of: Ghost<int>,
}

/// The distance from which a colour is a different one.
pub open spec fn far(tolerance: int) -> Signed {
    Signed::part(tolerance, 1).quotient(Signed::part(100, 1)).product(Signed::part(9, 10))
}

/// The distance up to which a colour is the same.
pub open spec fn close(tolerance: int) -> Signed {
    far(tolerance).product(Signed::part(6, 10))
}

/// How different a colour is from all of `keys`: 0 where it is one of them, 1 where it is none.
pub open spec fn difference(keys: Seq<Colour>, tolerance: int, c: Colour) -> Signed {
    match nearest_key(keys, keys.len() as int, c) {
        None => Signed::part(1, 1),
        Some(d) => {
            let t0 = close(tolerance);
            let t1 = far(tolerance);
            if !t0.lies_below(d) {
                Signed::part(0, 1)
            } else if !d.lies_below(t1) || !t0.lies_below(t1) {
                Signed::part(1, 1)
            } else {
                crate::advice::eased(d.less_by(t0).quotient(t1.less_by(t0)))
            }
        },
    }
}

impl ColorMatch {
    /// The colours.
    pub closed spec fn keys(&self) -> Seq<Colour> {
        self.keys@
    }

    /// How finely they are told apart.
    pub closed spec fn tolerance(&self) -> int {
        self.of@
    }

    /// The distances follow from the tolerance.
    pub closed spec fn wf(&self) -> bool {
        &&& self.t0 == close(self.of@)
        &&& self.t1 == far(self.of@)
        &&& self.t0.within(600)
        &&& self.t1.within(600)
        &&& !self.t0.neg
        &&& forall|i: int| 0 <= i < self.keys@.len() ==> spans(#[trigger] self.keys@[i], 224)
    }

    /// Colours to compare with, told apart as finely as a tolerance from 0 to 100 says.
    pub fn new(colors: &Vec<(usize, Rgb)>, tolerance: i32) -> (m: ColorMatch)
        requires
            0 <= tolerance <= 100,
        ensures
            m.wf(),
            m.tolerance() == tolerance,
            m.keys().len() == colors@.len(),
            forall|i: int| 0 <= i < colors@.len() ==> #[trigger] m.keys()[i] == lit(colors@[i].1),
    {
        let n: usize = colors.len();
        let mut keys: Vec<Colour> = Vec::new();
        let mut i: usize = 0;
        while i < n
            invariant
                i <= n,
                n == colors@.len(),
                keys@.len() == i,
                forall|j: int|
                    0 <= j < i ==> #[trigger] keys@[j] == lit(colors@[j].1) && spans(keys@[j], 224),
            decreases n - i,
        {
            keys.push(lit_of(colors[i].1));
            i += 1;
        }
        let t1 = Signed::of(tolerance as u64, 1).over(Signed::of(100, 1)).times(Signed::of(9, 10));
        let of: Ghost<int> = Ghost(tolerance as int);
        ColorMatch { keys, t0: t1.times(Signed::of(6, 10)), t1, of }
    }

    /// How different a colour is from all of these (see [`difference`]). A colour that is one of them
    /// is not different at all.
    pub fn at(&self, src: Rgb) -> (r: Signed)
        requires
            self.wf(),
        ensures
            r == difference(self.keys(), self.tolerance(), lit(src)),
            self.keys().contains(lit(src)) ==> r.size.m == 0,
            r.within(1_000_000),
    {
        let c = lit_of(src);
        let n: usize = self.keys.len();
        if n == 0 {
            return Signed::of(1, 1);
        }
        let mut d = apart_of(c, self.keys[0]);
        let mut k: usize = 1;
        assert(nearest_key(self.keys@, 0, c) is None);
        while k < n
            invariant
                1 <= k <= n,
                n == self.keys@.len(),
                self.wf(),
                spans(c, 224),
                nearest_key(self.keys@, k as int, c) == Some(d),
                d.within(700),
                !d.neg,
                forall|j: int| 0 <= j < k && #[trigger] self.keys@[j] == c ==> d.size.m == 0,
            decreases n - k,
        {
            let e = apart_of(c, self.keys[k]);
            if e.less(d) {
                d = e;
            }
            k += 1;
        }
        if !self.t0.less(d) {
            return Signed::zero();
        }
        if !d.less(self.t1) || !self.t0.less(self.t1) {
            return Signed::of(1, 1);
        }
        ease(d.minus(self.t0).over(self.t1.minus(self.t0)))
    }
}

/// Brightness of a colour.
pub open spec fn luminance(c: Colour) -> Signed {
    Signed::part(2126, 10000).product(c.0).sum(Signed::part(7152, 10000).product(c.1)).sum(
        Signed::part(722, 10000).product(c.2),
    )
}

/// One colour less another.
pub open spec fn minus(a: Colour, b: Colour) -> Colour {
    (a.0.less_by(b.0), a.1.less_by(b.1), a.2.less_by(b.2))
}

/// Two colours together.
pub open spec fn plus(a: Colour, b: Colour) -> Colour {
    (a.0.sum(b.0), a.1.sum(b.1), a.2.sum(b.2))
}

/// A colour times a number.
pub open spec fn times(c: Colour, k: Signed) -> Colour {
    (c.0.product(k), c.1.product(k), c.2.product(k))
}

/// No channel below that of another colour.
pub open spec fn at_least(c: Colour, lo: Colour) -> Colour {
    (c.0.larger(lo.0), c.1.larger(lo.1), c.2.larger(lo.2))
}

/// Black.
pub open spec fn black() -> Colour {
    (Signed::part(0, 1), Signed::part(0, 1), Signed::part(0, 1))
}

/// A colour with every channel's sign turned.
pub open spec fn negated(c: Colour) -> Colour {
    (c.0.negated(), c.1.negated(), c.2.negated())
}

/// Some channel is above zero.
pub open spec fn shows(c: Colour) -> bool {
    Signed::part(0, 1).lies_below(c.0) || Signed::part(0, 1).lies_below(c.1) || Signed::part(0, 1).lies_below(c.2)
}

/// The smoke of a pixel above the glow of the sky.
pub open spec fn smoke_over(smoke: Option<Colour>, floor: Colour) -> Colour {
    match smoke {
        None => black(),
        Some(s) => at_least(minus(s, floor), black()),
    }
}

/// A colour with so much smoke taken away. What a channel falls below zero is taken from all of them;
/// no channel falls below zero where there is smoke, nor further than the sky's glow anywhere.
pub open spec fn thinned(i: Colour, s: Colour, k: Signed, floor: Colour) -> Colour {
    let raw = minus(i, (k.product(s.0), k.product(s.1), k.product(s.2)));
    let m = raw.0.smaller(raw.1).smaller(raw.2);
    let even = if m.lies_below(Signed::part(0, 1)) && shows(s) {
        (raw.0.sum(m), raw.1.sum(m), raw.2.sum(m))
    } else {
        raw
    };
    let kept = if shows(s) {
        at_least(even, black())
    } else {
        even
    };
    at_least(kept, negated(floor))
}

fn luminance_of(c: Colour) -> (y: Signed)
    requires
        spans(c, 100_000),
    ensures
        y == luminance(c),
        y.within(100_300),
        spans(c, 300) ==> y.within(600),
{
    let r = Signed::of(2126, 10000).times(c.0);
    let g = Signed::of(7152, 10000).times(c.1);
    let b = Signed::of(722, 10000).times(c.2);
    r.plus(g).plus(b)
}

fn minus_of(a: Colour, b: Colour) -> (r: Colour)
    requires
        spans(a, 100_000),
        spans(b, 100_000),
    ensures
        r == minus(a, b),
        spans(r, 100_100),
        spans(a, 200) && spans(b, 200) ==> spans(r, 300),
        spans(a, 300) && spans(b, 1000) ==> spans(r, 1100),
{
    (a.0.minus(b.0), a.1.minus(b.1), a.2.minus(b.2))
}

fn at_least_of(c: Colour, lo: Colour) -> (r: Colour)
    requires
        c.0.size.wf(),
        c.1.size.wf(),
        c.2.size.wf(),
        lo.0.size.wf(),
        lo.1.size.wf(),
        lo.2.size.wf(),
    ensures
        r == at_least(c, lo),
        r.0 == c.0 || r.0 == lo.0,
        r.1 == c.1 || r.1 == lo.1,
        r.2 == c.2 || r.2 == lo.2,
{
    (c.0.max(lo.0), c.1.max(lo.1), c.2.max(lo.2))
}

fn black_of() -> (c: Colour)
    ensures
        c == black(),
        spans(c, 0),
{
    (Signed::zero(), Signed::zero(), Signed::zero())
}

fn shows_of(c: Colour) -> (b: bool)
    requires
        c.0.size.wf(),
        c.1.size.wf(),
        c.2.size.wf(),
    ensures
        b == shows(c),
{
    let zero = Signed::zero();
    zero.less(c.0) || zero.less(c.1) || zero.less(c.2)
}

fn smoke_over_of(smoke: Option<Colour>, floor: Colour) -> (s: Colour)
    requires
        smoke matches Some(c) ==> spans(c, 200),
        spans(floor, 200),
    ensures
        s == smoke_over(smoke, floor),
        spans(s, 300),
{
    match smoke {
        None => black_of(),
        Some(c) => at_least_of(minus_of(c, floor), black_of()),
    }
}

/// A colour with so much smoke taken away, before anything is evened out.
fn raw_of(i: Colour, s: Colour, k: Signed) -> (r: Colour)
    requires
        spans(i, 300),
        spans(s, 300),
        k.within(600),
    ensures
        r == minus(i, (k.product(s.0), k.product(s.1), k.product(s.2))),
        spans(r, 1100),
{
    minus_of(i, (k.times(s.0), k.times(s.1), k.times(s.2)))
}

/// What a channel falls below zero, taken from all of them where there is smoke.
fn even_of(raw: Colour, smoky: bool) -> (r: Colour)
    requires
        spans(raw, 1100),
    ensures
        ({
            let m = raw.0.smaller(raw.1).smaller(raw.2);
            r == if m.lies_below(Signed::part(0, 1)) && smoky {
                (raw.0.sum(m), raw.1.sum(m), raw.2.sum(m))
            } else {
                raw
            }
        }),
        spans(r, 1200),
{
    let m = raw.0.min(raw.1).min(raw.2);
    if m.less(Signed::zero()) && smoky {
        (raw.0.plus(m), raw.1.plus(m), raw.2.plus(m))
    } else {
        raw
    }
}

fn thinned_of(i: Colour, s: Colour, k: Signed, floor: Colour) -> (r: Colour)
    requires
        spans(i, 300),
        spans(s, 300),
        k.within(600),
        spans(floor, 200),
    ensures
        r == thinned(i, s, k, floor),
        spans(r, 1200),
{
    let raw = raw_of(i, s, k);
    let smoky = shows_of(s);
    let even = even_of(raw, smoky);
    let kept = if smoky {
        at_least_of(even, black_of())
    } else {
        even
    };
    at_least_of(kept, (floor.0.negate(), floor.1.negate(), floor.2.negate()))
}

/// The brightest and the darkest channel.
pub open spec fn brightest(c: Rgb) -> u8 {
    let a = if c[0] < c[1] {
        c[1]
    } else {
        c[0]
    };
    if a < c[2] {
        c[2]
    } else {
        a
    }
}

pub open spec fn darkest(c: Rgb) -> u8 {
    let a = if c[0] < c[1] {
        c[0]
    } else {
        c[1]
    };
    if a < c[2] {
        a
    } else {
        c[2]
    }
}

/// The number, kept from 0 to 1.
pub open spec fn unit(v: Signed) -> Signed {
    v.clamped(Signed::part(0, 1), Signed::part(1, 1))
}

/// How near to white a colour is, whatever its brightness.
pub open spec fn neutrality(c: Rgb) -> Signed {
    Signed::part(darkest(c) as int, 1).quotient(
        Signed::part(brightest(c) as int, 1).larger(Signed::part(1, 1)),
    )
}

/// How much of its brightness a pixel keeps: bright white cores and what is around them, and pixels at
/// the limit that outshine the smoke or are white.
pub open spec fn kept_light(c: Rgb, centre: Option<Signed>, over: Option<Signed>) -> Signed {
    let v = Signed::part(brightest(c) as int, 1);
    let white = neutrality(c);
    let bright = crate::advice::smoothed(Signed::part(215, 1), Signed::part(235, 1), v).product(
        crate::advice::smoothed(Signed::part(75, 100), Signed::part(92, 100), white),
    ).larger(
        match centre {
            Some(a) => a,
            None => Signed::part(0, 1),
        },
    );
    let outshines = match over {
        Some(a) => crate::advice::smoothed(Signed::part(13, 10), Signed::part(2, 1), a),
        None => Signed::part(1, 1),
    };
    let limit = unit(
        v.less_by(Signed::part(246, 1)).quotient(
            Signed::part(255, 1).less_by(Signed::part(246, 1)),
        ),
    );
    limit.product(
        outshines.larger(
            crate::advice::smoothed(Signed::part(35, 100), Signed::part(60, 100), white),
        ),
    ).larger(bright)
}

/// How much of its hue a pixel keeps: at the limit, where it outshines the smoke, where it keeps its
/// brightness, and where most of it would go.
pub open spec fn kept_hue(c: Rgb, light: Signed, over: Option<Signed>, going: Option<Signed>) -> Signed {
    let clip = unit(
        Signed::part(brightest(c) as int, 1).less_by(Signed::part(235, 1)).quotient(
            Signed::part(20, 1),
        ),
    );
    let glow = match over {
        Some(a) => unit(a.less_by(Signed::part(16, 10)).quotient(Signed::part(14, 10))),
        None => Signed::part(0, 1),
    };
    let fade = match going {
        Some(g) => crate::advice::smoothed(Signed::part(35, 100), Signed::part(80, 100), g),
        None => Signed::part(0, 1),
    };
    clip.larger(glow).larger(light).larger(fade)
}

fn brightest_of(c: Rgb) -> (v: u8)
    ensures
        v == brightest(c),
{
    let a: u8 = if c[0] < c[1] {
        c[1]
    } else {
        c[0]
    };
    if a < c[2] {
        c[2]
    } else {
        a
    }
}

fn darkest_of(c: Rgb) -> (v: u8)
    ensures
        v == darkest(c),
{
    let a: u8 = if c[0] < c[1] {
        c[0]
    } else {
        c[1]
    };
    if a < c[2] {
        a
    } else {
        c[2]
    }
}

/// The number, kept from 0 to 1 (see [`unit`]).
pub fn unit_of(v: Signed) -> (r: Signed)
    requires
        v.size.wf(),
    ensures
        r == unit(v),
        r == v || r.within(100),
        !r.neg,
        r.size.wf(),
        !crate::single::below(crate::single::one(), r.size),
{
    proof {
        crate::single::lemma_one();
    }
    v.clamp(Signed::zero(), Signed::of(1, 1))
}

fn neutrality_of(c: Rgb) -> (r: Signed)
    ensures
        r == neutrality(c),
        r.within(224),
{
    let top = Signed::of(brightest_of(c) as u64, 1).max(Signed::of(1, 1));
    Signed::of(darkest_of(c) as u64, 1).over(top)
}

/// How bright a white core is.
fn core_light(v: Signed, white: Signed, centre: Option<Signed>) -> (r: Signed)
    requires
        v.within(100),
        white.within(224),
        centre matches Some(a) ==> a.wf(),
    ensures
        r == crate::advice::smoothed(Signed::part(215, 1), Signed::part(235, 1), v).product(
            crate::advice::smoothed(Signed::part(75, 100), Signed::part(92, 100), white),
        ).larger(
            match centre {
                Some(a) => a,
                None => Signed::part(0, 1),
            },
        ),
        r.within(1500),
{
    let a = smoothstep(Signed::of(215, 1), Signed::of(235, 1), v);
    let b = smoothstep(Signed::of(75, 100), Signed::of(92, 100), white);
    a.times(b).max(
        match centre {
            Some(a) => a,
            None => Signed::zero(),
        },
    )
}

fn kept_light_of(c: Rgb, centre: Option<Signed>, over: Option<Signed>) -> (r: Signed)
    requires
        centre matches Some(a) ==> a.wf(),
        over matches Some(a) ==> a.within(1500),
    ensures
        r == kept_light(c, centre, over),
        r.within(2000),
{
    let v = Signed::of(brightest_of(c) as u64, 1);
    let white = neutrality_of(c);
    let bright = core_light(v, white, centre);
    let outshines = match over {
        Some(a) => smoothstep(Signed::of(13, 10), Signed::of(2, 1), a),
        None => Signed::of(1, 1),
    };
    let base = Signed::of(246, 1);
    let span = Signed::of(255, 1).minus(base);
    proof {
        lemma_limit_is_open();
    }
    let limit = unit_of(v.minus(base).over(span));
    assert(limit.within(500));
    let most = outshines.max(smoothstep(Signed::of(35, 100), Signed::of(60, 100), white));
    assert(most.within(720));
    limit.times(most).max(bright)
}

/// 255 and 246 are different numbers.
proof fn lemma_limit_is_open()
    ensures
        Signed::part(255, 1) != Signed::part(246, 1),
{
    crate::single::lemma_small_nearest(255);
    crate::single::lemma_small_nearest(246);
    let a = crate::single::nearest(255, 1);
    let b = crate::single::nearest(246, 1);
    crate::single::lemma_small_exact(255, a);
    crate::single::lemma_small_exact(246, b);
    if a == b {
        let p = crate::single::up(-a.e);
        crate::single::lemma_up_pos(-a.e);
        assert(255 * p != 246 * p) by (nonlinear_arith)
            requires
                p >= 1,
        ;
    }
}

fn kept_hue_of(c: Rgb, light: Signed, over: Option<Signed>, going: Option<Signed>) -> (r: Signed)
    requires
        light.within(2000),
        over matches Some(a) ==> a.within(1500),
        going matches Some(g) ==> g.within(3000),
    ensures
        r == kept_hue(c, light, over, going),
        r.within(3000),
{
    let v = Signed::of(brightest_of(c) as u64, 1);
    let clip = unit_of(v.minus(Signed::of(235, 1)).over(Signed::of(20, 1)));
    let glow = match over {
        Some(a) => unit_of(a.minus(Signed::of(16, 10)).over(Signed::of(14, 10))),
        None => Signed::zero(),
    };
    let fade = match going {
        Some(g) => smoothstep(Signed::of(35, 100), Signed::of(80, 100), g),
        None => Signed::zero(),
    };
    clip.max(glow).max(light).max(fade)
}

/// A colour that keeps some of its hue: dimmed by the share of the light that goes, unless the light is
/// kept.
pub open spec fn hued(rgb: Colour, i: Colour, going: Signed, light: Signed, hue: Signed) -> Colour {
    let dim = Signed::part(1, 1).less_by(going).larger(Signed::part(0, 1));
    let scale = dim.sum(Signed::part(1, 1).less_by(dim).product(light));
    let left = Signed::part(1, 1).less_by(hue);
    plus(times(rgb, left), times(times(i, scale), hue))
}

fn hued_of(rgb: Colour, i: Colour, going: Signed, light: Signed, hue: Signed) -> (r: Colour)
    requires
        spans(rgb, 1200),
        spans(i, 300),
        going.within(3000),
        light.within(2000),
        hue.within(3000),
    ensures
        r == hued(rgb, i, going, light, hue),
        spans(r, 12_000),
{
    let one = Signed::of(1, 1);
    let dim = one.minus(going).max(Signed::zero());
    let scale = dim.plus(one.minus(dim).times(light));
    assert(scale.within(5400));
    let left = one.minus(hue);
    let a = times_small(rgb, left);
    let b = times_small(times_small(i, scale), hue);
    plus_of(a, b)
}

fn times_small(c: Colour, k: Signed) -> (r: Colour)
    requires
        spans(c, 8000),
        k.within(6000),
    ensures
        r == times(c, k),
        spans(r, 14_100),
        spans(c, 300) && k.within(5400) ==> spans(r, 5800),
        spans(c, 5800) && k.within(3100) ==> spans(r, 9000),
{
    (c.0.times(k), c.1.times(k), c.2.times(k))
}

fn plus_of(a: Colour, b: Colour) -> (r: Colour)
    requires
        spans(a, 20_000),
        spans(b, 20_000),
    ensures
        r == plus(a, b),
        spans(r, 20_100),
        spans(a, 9000) && spans(b, 9000) ==> spans(r, 9100),
{
    (a.0.plus(b.0), a.1.plus(b.1), a.2.plus(b.2))
}

/// How bright a line in the smoke is to be again.
pub open spec fn wanted(excess: Signed, w: Signed, going: Option<Signed>) -> Signed {
    let gone = match going {
        Some(g) => unit(g),
        None => Signed::part(0, 1),
    };
    excess.product(w).product(
        crate::advice::smoothed(Signed::part(25, 100), Signed::part(60, 100), gone),
    )
}

fn wanted_of(excess: Signed, w: Signed, going: Option<Signed>) -> (r: Signed)
    requires
        excess.wf(),
        w.wf(),
        going matches Some(g) ==> g.within(3000),
    ensures
        r == wanted(excess, w, going),
        r.within(1300),
{
    let gone = match going {
        Some(g) => unit_of(g),
        None => Signed::zero(),
    };
    excess.times(w).times(smoothstep(Signed::of(25, 100), Signed::of(60, 100), gone))
}

/// What one pixel is made of.
pub struct Pixel {
    /// Its bytes, and its colour in linear light.
    pub src: Rgb,
    pub lin: Colour,
    /// The smoke in front of it.
    pub smoke: Option<Colour>,
    /// How strongly it is worked on.
    pub w: Signed,
    /// How near it is to a bright core.
    pub centre: Option<Signed>,
    /// By how much it stands out as a line.
    pub excess: Option<Signed>,
}

impl Pixel {
    /// The numbers are there.
    pub open spec fn wf(&self) -> bool {
        &&& spans(self.lin, 200)
        &&& self.smoke matches Some(c) ==> spans(c, 200)
        &&& self.w.wf()
        &&& self.centre matches Some(a) ==> a.wf()
        &&& self.excess matches Some(a) ==> a.wf()
    }

    /// Its colour above the glow of the sky.
    pub open spec fn own(&self, floor: Colour) -> Colour {
        minus(self.lin, floor)
    }

    /// How many times brighter it is than its smoke; none where there is no smoke.
    pub open spec fn over(&self, floor: Colour) -> Option<Signed> {
        let ys = luminance(smoke_over(self.smoke, floor));
        if Signed::part(0, 1).lies_below(ys) {
            Some(luminance(self.own(floor)).quotient(ys))
        } else {
            None
        }
    }

    /// The share of its light that goes with the smoke; none where it has no light.
    pub open spec fn going(&self, k: Signed, floor: Colour) -> Option<Signed> {
        let yi = luminance(self.own(floor));
        if Signed::part(0, 1).lies_below(yi) {
            Some(
                k.product(self.w).product(luminance(smoke_over(self.smoke, floor))).quotient(yi),
            )
        } else {
            None
        }
    }

    /// The pixel without its smoke, above the glow of the sky.
    pub open spec fn cleaned(&self, k: Signed, floor: Colour) -> Colour {
        let i = self.own(floor);
        let s = smoke_over(self.smoke, floor);
        let rgb = thinned(i, s, k.product(self.w), floor);
        let over = self.over(floor);
        let going = self.going(k, floor);
        let light = kept_light(self.src, self.centre, over);
        let hue = kept_hue(self.src, light, over, going);
        match going {
            Some(g) => if Signed::part(0, 1).lies_below(hue) {
                hued(rgb, i, g, light, hue)
            } else {
                rgb
            },
            None => rgb,
        }
    }

    /// The pixel with its line brought back where the smoke took it along.
    pub open spec fn drawn(&self, k: Signed, floor: Colour) -> Colour {
        let rgb = self.cleaned(k, floor);
        let yi = luminance(self.own(floor));
        match (self.excess, self.going(k, floor)) {
            (Some(e), Some(g)) => {
                let want = wanted(e, self.w, Some(g));
                if Signed::part(0, 1).lies_below(want) && luminance(rgb).lies_below(want) {
                    times(self.own(floor), want.quotient(yi))
                } else {
                    rgb
                }
            },
            _ => rgb,
        }
    }

    /// The pixel without smoke. One that is not worked on stays as it is.
    pub open spec fn clear(&self, k: Signed, floor: Colour) -> Colour {
        if !Signed::part(0, 1).lies_below(self.w) {
            self.lin
        } else {
            plus(self.drawn(k, floor), floor)
        }
    }
}

/// The light of a pixel and of its smoke, how many times brighter it is, and the share of its light
/// that goes.
fn weigh(p: &Pixel, k: Signed, i: Colour, s: Colour, floor: Ghost<Colour>) -> (r: (Signed, Option<Signed>, Option<Signed>))
    requires
        p.wf(),
        k.within(600),
        spans(i, 300),
        spans(s, 300),
        i == p.own(floor@),
        s == smoke_over(p.smoke, floor@),
    ensures
        r.0 == luminance(i),
        r.0.within(600),
        r.1 == p.over(floor@),
        r.1 matches Some(a) ==> a.within(1500),
        forall|g: Signed| k == #[trigger] g.product(p.w) ==> r.2 == p.going(g, floor@),
        r.2 matches Some(a) ==> a.within(3000) && r.0.size.m > 0 && !r.0.neg,
        r.2 is None ==> !Signed::part(0, 1).lies_below(r.0),
{
    let yi = luminance_of(i);
    let ys = luminance_of(s);
    let zero = Signed::zero();
    let over = if zero.less(ys) {
        Some(yi.over(ys))
    } else {
        None
    };
    let going = if zero.less(yi) {
        Some(k.times(ys).over(yi))
    } else {
        None
    };
    (yi, over, going)
}

impl Pixel {
    /// Takes the smoke out of a pixel (see [`Pixel::clear`]); `k` is how much of the smoke goes.
    pub fn cleared(&self, k: Signed, floor: Colour) -> (r: Colour)
        requires
            self.wf(),
            k.within(375),
            spans(floor, 200),
        ensures
            r == self.clear(k, floor),
            !Signed::part(0, 1).lies_below(self.w) ==> r == self.lin,
            spans(r, 100_000),
    {
        if !Signed::zero().less(self.w) {
            return self.lin;
        }
        let by = k.times(self.w);
        let i = minus_of(self.lin, floor);
        let s = smoke_over_of(self.smoke, floor);
        let rgb = thinned_of(i, s, by, floor);
        let (yi, over, going) = weigh(self, by, i, s, Ghost(floor));
        let light = kept_light_of(self.src, self.centre, over);
        let hue = kept_hue_of(self.src, light, over, going);
        match going {
            None => plus_of(rgb, floor),
            Some(g) => {
                let clean = if Signed::zero().less(hue) {
                    hued_of(rgb, i, g, light, hue)
                } else {
                    rgb
                };
                let done = match self.excess {
                    None => clean,
                    Some(e) => redraw(clean, i, yi, wanted_of(e, self.w, going)),
                };
                plus_of(done, floor)
            },
        }
    }
}

/// The colour of a line that is to be so bright again.
fn redraw(rgb: Colour, i: Colour, yi: Signed, want: Signed) -> (r: Colour)
    requires
        spans(rgb, 12_000),
        spans(i, 300),
        yi.within(600),
        yi.size.m > 0,
        want.within(1300),
    ensures
        r == if Signed::part(0, 1).lies_below(want) && luminance(rgb).lies_below(want) {
            times(i, want.quotient(yi))
        } else {
            rgb
        },
        spans(r, 12_000),
{
    if Signed::zero().less(want) && luminance_of(rgb).less(want) {
        times_small(i, want.over(yi))
    } else {
        rgb
    }
}

/// What is done to a clear sky.
pub struct SkyWork {
    /// How strongly it is cleaned, and how strongly it is coloured.
    pub clean: Signed,
    pub tint: Signed,
    /// The colour in linear light.
    pub colour: Option<Colour>,
    /// The glow that is left.
    pub floor: Colour,
}

impl SkyWork {
    /// The numbers are there.
    pub open spec fn wf(&self) -> bool {
        &&& self.clean.wf()
        &&& self.tint.wf()
        &&& self.colour matches Some(c) ==> spans(c, 200)
        &&& spans(self.floor, 200)
    }

    /// What stands above the glow is dimmed by so much.
    pub open spec fn swept(&self, c: Colour, s: Signed) -> Colour {
        if Signed::part(0, 1).lies_below(self.clean) {
            let k = Signed::part(1, 1).less_by(self.clean.product(s));
            plus(self.floor, times(at_least(minus(c, self.floor), black()), k))
        } else {
            c
        }
    }

    /// A sky darker than the colour is given some of it, the more the darker it is.
    pub open spec fn dyed(&self, c: Colour, s: Signed) -> Colour {
        match self.colour {
            Some(target) if Signed::part(0, 1).lies_below(self.tint) => {
                let ty = luminance(target);
                if Signed::part(1, 1_000_000).lies_below(ty) {
                    let short = unit(Signed::part(1, 1).less_by(luminance(c).quotient(ty)));
                    plus(c, times(target, self.tint.product(s).product(short)))
                } else {
                    c
                }
            },
            _ => c,
        }
    }

    /// A pixel of the sky, worked on as strongly as it is sky.
    pub open spec fn worked(&self, c: Colour, s: Signed) -> Colour {
        if Signed::part(0, 1).lies_below(s) {
            self.dyed(self.swept(c, s), s)
        } else {
            c
        }
    }

    /// Works on a pixel of the sky (see [`SkyWork::worked`]). What is not sky stays as it is.
    pub fn work(&self, c: Colour, s: Signed) -> (r: Colour)
        requires
            self.wf(),
            spans(c, 200),
            s.within(500),
        ensures
            r == self.worked(c, s),
            !Signed::part(0, 1).lies_below(s) ==> r == c,
            spans(r, 100_000),
    {
        let zero = Signed::zero();
        if !zero.less(s) {
            return c;
        }
        let swept = if zero.less(self.clean) {
            self.sweep(c, s)
        } else {
            c
        };
        match self.colour {
            None => swept,
            Some(target) => {
                if !zero.less(self.tint) {
                    return swept;
                }
                let ty = luminance_of(target);
                if !Signed::of(1, 1_000_000).less(ty) {
                    return swept;
                }
                let y = luminance_of(swept);
                let short = unit_of(Signed::of(1, 1).minus(y.over(ty)));
                assert(short.within(3500));
                let a = self.tint.times(s).times(short);
                plus_of(swept, times_small(target, a))
            },
        }
    }

    /// Dims what stands above the glow.
    fn sweep(&self, c: Colour, s: Signed) -> (r: Colour)
        requires
            self.wf(),
            spans(c, 200),
            s.within(500),
            Signed::part(0, 1).lies_below(self.clean),
        ensures
            r == self.swept(c, s),
            spans(r, 2000),
    {
        let k = Signed::of(1, 1).minus(self.clean.times(s));
        let up = at_least_of(minus_of(c, self.floor), black_of());
        assert(spans(up, 300));
        (
            self.floor.0.plus(up.0.times(k)),
            self.floor.1.plus(up.1.times(k)),
            self.floor.2.plus(up.2.times(k)),
        )
    }
}

/// The smoke that was found in a photo.
pub struct SmokeField {
    /// Red, green and blue smoke, each a plane.
    pub smoke: Vec<Vec<Signed>>,
    /// The glow of the clear sky.
    pub floor: Colour,
    /// Where the sky is.
    pub sky: Option<Vec<Signed>>,
    pub w: usize,
    pub h: usize,
}

/// The numbers of a plane are there.
pub open spec fn is_plane(p: Seq<Signed>, w: int, h: int) -> bool {
    &&& p.len() == w * h
    &&& forall|i: int| 0 <= i < p.len() ==> (#[trigger] p[i]).wf()
}

/// Two planes, `t` of the way from the first to the second.
pub open spec fn is_between(r: Seq<Signed>, a: Seq<Signed>, b: Seq<Signed>, t: Signed) -> bool {
    &&& r.len() == a.len()
    &&& forall|i: int| 0 <= i < a.len() ==> #[trigger] r[i] == crate::mask::mixed(a[i], b[i], t)
}

fn mix_planes(a: &Vec<Signed>, b: &Vec<Signed>, t: Signed) -> (r: Vec<Signed>)
    requires
        a@.len() == b@.len(),
        forall|i: int| 0 <= i < a@.len() ==> (#[trigger] a@[i]).wf(),
        forall|i: int| 0 <= i < b@.len() ==> (#[trigger] b@[i]).wf(),
        t.within(200),
    ensures
        is_between(r@, a@, b@, t),
{
    let n: usize = a.len();
    let mut r: Vec<Signed> = Vec::new();
    let mut i: usize = 0;
    while i < n
        invariant
            i <= n,
            n == a@.len() == b@.len(),
            forall|j: int| 0 <= j < a@.len() ==> (#[trigger] a@[j]).wf(),
            forall|j: int| 0 <= j < b@.len() ==> (#[trigger] b@[j]).wf(),
            t.within(200),
            r@.len() == i,
            forall|j: int| 0 <= j < i ==> #[trigger] r@[j] == crate::mask::mixed(a@[j], b@[j], t),
        decreases n - i,
    {
        r.push(mix(a[i], b[i], t));
        i += 1;
    }
    r
}

/// The numbers of a plane once more.
fn copy_plane(v: &Vec<Signed>) -> (r: Vec<Signed>)
    ensures
        r@ == v@,
{
    let n: usize = v.len();
    let mut r: Vec<Signed> = Vec::new();
    let mut i: usize = 0;
    while i < n
        invariant
            i <= n,
            n == v@.len(),
            r@ == v@.subrange(0, i as int),
        decreases n - i,
    {
        r.push(v[i]);
        i += 1;
        assert(v@.subrange(0, i as int) =~= v@.subrange(0, i - 1).push(v@[i - 1]));
    }
    assert(v@.subrange(0, n as int) =~= v@);
    r
}

impl SmokeField {
    /// Every plane has the size of the photo.
    pub open spec fn wf(&self) -> bool {
        &&& forall|c: int|
            0 <= c < self.smoke@.len() ==> is_plane(
                (#[trigger] self.smoke@[c])@,
                self.w as int,
                self.h as int,
            )
        &&& spans(self.floor, 200)
        &&& self.sky matches Some(p) ==> is_plane(p@, self.w as int, self.h as int)
    }

    /// The two fields are of the same kind and size, so that they can be mixed.
    pub open spec fn fits(&self, other: &SmokeField) -> bool {
        &&& self.w == other.w
        &&& self.h == other.h
        &&& self.smoke@.len() == other.smoke@.len()
        &&& self.sky is Some <==> other.sky is Some
    }

    /// The field lies `k` of the way from the first to the second.
    pub open spec fn is_mixed(&self, first: &SmokeField, second: &SmokeField, k: Signed) -> bool {
        &&& self.w == first.w
        &&& self.h == first.h
        &&& self.smoke@.len() == first.smoke@.len()
        &&& forall|c: int|
            0 <= c < self.smoke@.len() ==> is_between(
                (#[trigger] self.smoke@[c])@,
                first.smoke@[c]@,
                second.smoke@[c]@,
                k,
            )
        &&& self.floor.0 == crate::mask::mixed(first.floor.0, second.floor.0, k)
        &&& self.floor.1 == crate::mask::mixed(first.floor.1, second.floor.1, k)
        &&& self.floor.2 == crate::mask::mixed(first.floor.2, second.floor.2, k)
        &&& self.sky is Some <==> first.sky is Some
        &&& self.sky matches Some(p) ==> is_between(p@, first.sky->0@, second.sky->0@, k)
    }

    /// The two fields hold the same numbers.
    pub open spec fn equals(&self, other: &SmokeField) -> bool {
        &&& self.w == other.w
        &&& self.h == other.h
        &&& self.floor == other.floor
        &&& self.smoke@.len() == other.smoke@.len()
        &&& forall|c: int|
            0 <= c < self.smoke@.len() ==> (#[trigger] self.smoke@[c])@ == other.smoke@[c]@
        &&& self.sky is Some <==> other.sky is Some
        &&& self.sky matches Some(p) ==> p@ == other.sky->0@
    }

    /// The same field once more.
    pub fn copy(&self) -> (r: SmokeField)
        ensures
            r.equals(self),
    {
        let n: usize = self.smoke.len();
        let mut smoke: Vec<Vec<Signed>> = Vec::new();
        let mut c: usize = 0;
        while c < n
            invariant
                c <= n,
                n == self.smoke@.len(),
                smoke@.len() == c,
                forall|j: int| 0 <= j < c ==> (#[trigger] smoke@[j])@ == self.smoke@[j]@,
            decreases n - c,
        {
            smoke.push(copy_plane(&self.smoke[c]));
            c += 1;
        }
        let sky = match &self.sky {
            Some(p) => Some(copy_plane(p)),
            None => None,
        };
        SmokeField { smoke, floor: self.floor, sky, w: self.w, h: self.h }
    }

    /// The smoke between two photos, `t` of the way from the first to the second; that of the first
    /// where the two cannot be mixed.
    pub fn lerp(&self, other: &SmokeField, t: Signed) -> (f: SmokeField)
        requires
            self.wf(),
            other.wf(),
            t.wf(),
        ensures
            !self.fits(other) ==> f.equals(self),
            self.fits(other) ==> f.is_mixed(self, other, unit(t)),
    {
        let n: usize = self.smoke.len();
        if self.w != other.w || self.h != other.h || n != other.smoke.len() || self.sky.is_some()
            != other.sky.is_some() {
            return self.copy();
        }
        let k = unit_of(t);
        let mut smoke: Vec<Vec<Signed>> = Vec::new();
        let mut c: usize = 0;
        while c < n
            invariant
                c <= n,
                n == self.smoke@.len() == other.smoke@.len(),
                self.wf(),
                other.wf(),
                self.w == other.w,
                self.h == other.h,
                k.within(200),
                smoke@.len() == c,
                forall|j: int|
                    0 <= j < c ==> is_between(
                        (#[trigger] smoke@[j])@,
                        self.smoke@[j]@,
                        other.smoke@[j]@,
                        k,
                    ),
            decreases n - c,
        {
            assert(is_plane(self.smoke@[c as int]@, self.w as int, self.h as int));
            assert(is_plane(other.smoke@[c as int]@, other.w as int, other.h as int));
            smoke.push(mix_planes(&self.smoke[c], &other.smoke[c], k));
            c += 1;
        }
        let sky = match (&self.sky, &other.sky) {
            (Some(a), Some(b)) => Some(mix_planes(a, b, k)),
            _ => None,
        };
        let floor = (
            mix(self.floor.0, other.floor.0, k),
            mix(self.floor.1, other.floor.1, k),
            mix(self.floor.2, other.floor.2, k),
        );
        SmokeField { smoke, floor, sky, w: self.w, h: self.h }
    }
}

} // verus!
