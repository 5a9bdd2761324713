//! Grading: what the settings of a photo do to its pixels.

use vstd::prelude::*;

use crate::clear::{light_of, unit_of};
use crate::curve::tone_curve;
use crate::edit::blend_masked;
use crate::raster::Raster;
use crate::resample::copy;
use crate::signed::{Colour, Signed};
use crate::single::Single;
use crate::smoke::clamp;
use crate::spread::box_blur;

verus! {

/// Settings of a photo, meant to lie from -100 to 100.
#[derive(Clone, Copy, PartialEq, Eq, Structural, Debug)]
pub struct Grade {
    pub temp: i32,
    pub tint: i32,
    pub exposure: i32,
    pub contrast: i32,
    pub brightness: i32,
    pub shadows: i32,
    pub whites: i32,
    pub blacks: i32,
    pub dehaze: i32,
    pub vibrance: i32,
    pub saturation: i32,
    pub clarity: i32,
}

/// From -100 to 100.
pub open spec fn is_setting(n: i32) -> bool {
    -100 <= n <= 100
}

impl Grade {
    /// Every setting lies in its range.
    pub open spec fn wf(self) -> bool {
        &&& is_setting(self.temp)
        &&& is_setting(self.tint)
        &&& is_setting(self.exposure)
        &&& is_setting(self.contrast)
        &&& is_setting(self.brightness)
        &&& is_setting(self.shadows)
        &&& is_setting(self.whites)
        &&& is_setting(self.blacks)
        &&& is_setting(self.dehaze)
        &&& is_setting(self.vibrance)
        &&& is_setting(self.saturation)
        &&& is_setting(self.clarity)
    }

    /// The settings, each moved into its range.
    pub open spec fn kept(self) -> Grade {
        Grade {
            temp: crate::scale::within(self.temp as int, -100, 100) as i32,
            tint: crate::scale::within(self.tint as int, -100, 100) as i32,
            exposure: crate::scale::within(self.exposure as int, -100, 100) as i32,
            contrast: crate::scale::within(self.contrast as int, -100, 100) as i32,
            brightness: crate::scale::within(self.brightness as int, -100, 100) as i32,
            shadows: crate::scale::within(self.shadows as int, -100, 100) as i32,
            whites: crate::scale::within(self.whites as int, -100, 100) as i32,
            blacks: crate::scale::within(self.blacks as int, -100, 100) as i32,
            dehaze: crate::scale::within(self.dehaze as int, -100, 100) as i32,
            vibrance: crate::scale::within(self.vibrance as int, -100, 100) as i32,
            saturation: crate::scale::within(self.saturation as int, -100, 100) as i32,
            clarity: crate::scale::within(self.clarity as int, -100, 100) as i32,
        }
    }

    /// The settings, each moved into its range (see [`Grade::kept`]).
    pub fn clamped(&self) -> (g: Grade)
        ensures
            g == self.kept(),
            g.wf(),
            self.wf() ==> g == *self,
            g.neutral() == self.neutral(),
    {
        Grade {
            temp: clamp(self.temp, -100, 100),
            tint: clamp(self.tint, -100, 100),
            exposure: clamp(self.exposure, -100, 100),
            contrast: clamp(self.contrast, -100, 100),
            brightness: clamp(self.brightness, -100, 100),
            shadows: clamp(self.shadows, -100, 100),
            whites: clamp(self.whites, -100, 100),
            blacks: clamp(self.blacks, -100, 100),
            dehaze: clamp(self.dehaze, -100, 100),
            vibrance: clamp(self.vibrance, -100, 100),
            saturation: clamp(self.saturation, -100, 100),
            clarity: clamp(self.clarity, -100, 100),
        }
    }

    /// Nothing is set.
    pub open spec fn neutral(self) -> bool {
        &&& self.temp == 0
        &&& self.tint == 0
        &&& self.exposure == 0
        &&& self.contrast == 0
        &&& self.brightness == 0
        &&& self.shadows == 0
        &&& self.whites == 0
        &&& self.blacks == 0
        &&& self.dehaze == 0
        &&& self.vibrance == 0
        &&& self.saturation == 0
        &&& self.clarity == 0
    }

    /// Is nothing set?
    pub fn is_neutral(&self) -> (b: bool)
        ensures
            b == self.neutral(),
    {
        self.temp == 0 && self.tint == 0 && self.exposure == 0 && self.contrast == 0
            && self.brightness == 0 && self.shadows == 0 && self.whites == 0 && self.blacks == 0
            && self.dehaze == 0 && self.vibrance == 0 && self.saturation == 0 && self.clarity == 0
    }
}

/// Factors and curves that follow from the settings.
pub struct Tones {
    /// What warmth multiplies each channel by.
    pub warmth: Colour,
    /// What exposure multiplies each channel by.
    pub gain: Signed,
    /// How the tone curve maps 0, 1/1024, 2/1024 and so on up to 1.
    pub curve: Vec<Signed>,
}

/// Steps of the tone curve.
pub const CURVE_STEPS: usize = 1024;

/// A setting as a part of 100.
pub open spec fn hundredth(n: int) -> Signed {
    Signed::integer(n).quotient(Signed::part(100, 1))
}

/// The colour, kept from 0 to 1.
pub open spec fn in_unit(c: Colour) -> Colour {
    (crate::clear::unit(c.0), crate::clear::unit(c.1), crate::clear::unit(c.2))
}

/// The same brightness added to every channel.
pub open spec fn raised(c: Colour, d: Signed) -> Colour {
    (c.0.sum(d), c.1.sum(d), c.2.sum(d))
}

/// Brightness of a colour.
pub open spec fn luma(c: Colour) -> Signed {
    c.0.product(Signed::part(299, 1000)).sum(c.1.product(Signed::part(587, 1000))).sum(
        c.2.product(Signed::part(114, 1000)),
    )
}

/// Brightness of a colour as screens show it.
pub open spec fn luma709(c: Colour) -> Signed {
    c.0.product(Signed::part(2126, 10000)).sum(c.1.product(Signed::part(7152, 10000))).sum(
        c.2.product(Signed::part(722, 10000)),
    )
}

/// A colour further from or nearer to a grey: the grey, and so much of each channel's distance to `y`.
pub open spec fn coloured(c: Colour, grey: Signed, y: Signed, k: Signed) -> Colour {
    (
        grey.sum(c.0.less_by(y).product(k)),
        grey.sum(c.1.less_by(y).product(k)),
        grey.sum(c.2.less_by(y).product(k)),
    )
}

/// Warmth, and exposure, multiply the channels.
#[verifier::opaque]
pub open spec fn scaled(c: Colour, m: Colour) -> Colour {
    in_unit((c.0.product(m.0), c.1.product(m.1), c.2.product(m.2)))
}

/// Tint moves green against red and blue, most of all in the middle tones.
#[verifier::opaque]
pub open spec fn tinted(c: Colour, tint: int) -> Colour {
    let by = hundredth(-tint).product(Signed::part(3, 10));
    let off = Signed::part(2, 1).product(luma(c)).less_by(Signed::part(1, 1));
    let middle = Signed::part(1, 1).less_by(Signed { neg: false, size: off.size });
    let d = by.product(middle).product(Signed::part(1, 2));
    in_unit((c.0.less_by(d), c.1.sum(d.product(Signed::part(2, 1))), c.2.less_by(d)))
}

/// Contrast about the middle, brightness, and saturation about the grey of the same brightness.
#[verifier::opaque]
pub open spec fn contrasted(c: Colour, g: Grade) -> Colour {
    let slope = Signed::part(1, 1).sum(
        Signed::integer(g.contrast as int).product(Signed::part(8, 1000)),
    );
    let lift = Signed::integer(g.brightness as int).product(Signed::part(4, 1000)).product(
        Signed::part(255, 1).quotient(Signed::part(219, 1)),
    );
    let sat = Signed::part(1, 1).sum(Signed::integer(g.saturation as int).product(Signed::part(1, 100))).larger(Signed::part(0, 1));
    let y = luma(c);
    let grey = slope.product(y.less_by(Signed::part(1, 2))).sum(Signed::part(1, 2)).sum(lift);
    in_unit(coloured(c, grey, y, sat))
}

/// What a tone curve makes of a number: between its two nearest steps.
#[verifier::opaque]
pub open spec fn curved(curve: Seq<Signed>, v: Signed) -> Signed {
    let t = crate::clear::unit(v).product(Signed::part(1024, 1));
    let i = crate::signed::min_of(crate::single::floor(t.size), 1023);
    curve[i].sum(curve[i + 1].less_by(curve[i]).product(t.less_by(Signed::part(i, 1))))
}

/// The brightest haze that can be taken out or put in.
pub open spec fn veil_max() -> Signed {
    Signed::part(22, 100)
}

/// How bright the haze is that is taken out or put in.
pub open spec fn veil(dehaze: int) -> Signed {
    hundredth(if dehaze < 0 {
        -dehaze
    } else {
        dehaze
    }).product(veil_max())
}

/// Haze taken out of a colour and the rest stretched, or put over a colour.
#[verifier::opaque]
pub open spec fn cleared(c: Colour, dehaze: int, k: Signed) -> Colour {
    let left = Signed::part(1, 1).less_by(k);
    if dehaze > 0 {
        let stretch = Signed::part(1, 1).quotient(left);
        in_unit(
            (
                c.0.less_by(k).product(stretch),
                c.1.less_by(k).product(stretch),
                c.2.less_by(k).product(stretch),
            ),
        )
    } else {
        in_unit((k.sum(c.0.product(left)), k.sum(c.1.product(left)), k.sum(c.2.product(left))))
    }
}

/// Vibrance colours pale pixels more than bright ones, or fades bright ones more.
#[verifier::opaque]
pub open spec fn vivid(c: Colour, vibrance: int) -> Colour {
    let k = hundredth(vibrance).product(Signed::part(2, 1));
    let most = c.0.larger(c.1).larger(c.2);
    let least = c.0.smaller(c.1).smaller(c.2);
    let spread = most.less_by(least);
    let turned = if vibrance < 0 {
        spread.negated()
    } else {
        spread
    };
    let by = Signed::part(1, 1).sum(k.product(Signed::part(1, 1).sum(turned))).larger(
        Signed::part(0, 1),
    );
    let y = luma709(c);
    in_unit(coloured(c, y, y, by))
}

impl Tones {
    /// The numbers are there.
    pub open spec fn wf(&self) -> bool {
        &&& self.warmth.0.wf()
        &&& self.warmth.1.wf()
        &&& self.warmth.2.wf()
        &&& self.gain.wf()
        &&& self.curve@.len() == CURVE_STEPS + 1
        &&& forall|i: int| 0 <= i < self.curve@.len() ==> (#[trigger] self.curve@[i]).wf()
    }

    /// The curve is the one that settings in their ranges give.
    pub open spec fn curves(&self, g: Grade) -> bool {
        &&& self.curve@.len() == CURVE_STEPS + 1
        &&& forall|i: int|
            0 <= i < self.curve@.len() ==> #[trigger] self.curve@[i] == crate::curve::tone_at(g, i)
    }

    /// What follows from settings, with the factors of warmth and exposure.
    pub fn new(g: &Grade, warmth: Colour, gain: Signed) -> (t: Tones)
        requires
            warmth.0.wf() && warmth.1.wf() && warmth.2.wf(),
            gain.wf(),
        ensures
            t.wf(),
            t.warmth == warmth,
            t.gain == gain,
            t.curves(g.kept()),
    {
        Tones { warmth, gain, curve: tone_curve(g) }
    }
}

/// The settings are applied one after the other; those that are 0 do nothing.
pub open spec fn toned(c: Colour, g: Grade, t: &Tones) -> Colour {
    let a = if g.temp != 0 {
        scaled(c, t.warmth)
    } else {
        c
    };
    let b = if g.tint != 0 {
        tinted(a, g.tint as int)
    } else {
        a
    };
    let d = if g.exposure != 0 {
        scaled(b, (t.gain, t.gain, t.gain))
    } else {
        b
    };
    let e = if g.contrast != 0 || g.brightness != 0 || g.saturation != 0 {
        contrasted(d, g)
    } else {
        d
    };
    let f = if g.shadows != 0 || g.whites != 0 || g.blacks != 0 {
        (curved(t.curve@, e.0), curved(t.curve@, e.1), curved(t.curve@, e.2))
    } else {
        e
    };
    let h = if g.dehaze != 0 {
        cleared(f, g.dehaze as int, veil(g.dehaze as int))
    } else {
        f
    };
    if g.vibrance != 0 {
        vivid(h, g.vibrance as int)
    } else {
        h
    }
}

fn whole_of(n: i32) -> (r: Signed)
    requires
        is_setting(n),
    ensures
        r == Signed::integer(n as int),
        r.within(100),
        r.neg == (n < 0),
{
    if n < 0 {
        Signed::of((-n) as u64, 1).negate()
    } else {
        Signed::of(n as u64, 1)
    }
}

fn hundredth_of(n: i32) -> (r: Signed)
    requires
        is_setting(n),
    ensures
        r == hundredth(n as int),
        r.within(224),
        !crate::single::below(crate::single::one(), r.size),
{
    let v = whole_of(n);
    let all = Signed::of(100, 1);
    proof {
        let k = if n < 0 {
            -n
        } else {
            n as int
        };
        if k > 0 {
            crate::single::lemma_small_nearest(k);
            crate::single::law_nearest_grows(k, 100, v.size, all.size);
        } else {
            crate::single::law_nearest_unique(0, 1, crate::single::nought());
        }
    }
    v.over(all)
}

fn in_unit_of(c: Colour) -> (r: Colour)
    requires
        c.0.size.wf(),
        c.1.size.wf(),
        c.2.size.wf(),
    ensures
        r == in_unit(c),
        r.0 == c.0 || r.0.within(100),
        r.1 == c.1 || r.1.within(100),
        r.2 == c.2 || r.2.within(100),
{
    (unit_of(c.0), unit_of(c.1), unit_of(c.2))
}

fn luma_of(c: Colour) -> (y: Signed)
    requires
        crate::clear::spans(c, 13500),
    ensures
        y == luma(c),
        y.within(13800),
        crate::clear::spans(c, 700) ==> y.within(1000),
        crate::clear::spans(c, 2400) ==> y.within(2700),
{
    let r = c.0.times(Signed::of(299, 1000));
    let g = c.1.times(Signed::of(587, 1000));
    let b = c.2.times(Signed::of(114, 1000));
    r.plus(g).plus(b)
}

fn luma709_of(c: Colour) -> (y: Signed)
    requires
        crate::clear::spans(c, 6000),
    ensures
        y == luma709(c),
        y.within(6300),
{
    let r = c.0.times(Signed::of(2126, 10000));
    let g = c.1.times(Signed::of(7152, 10000));
    let b = c.2.times(Signed::of(722, 10000));
    r.plus(g).plus(b)
}

fn scaled_of(c: Colour, m: Colour) -> (r: Colour)
    requires
        crate::clear::spans(c, 2100),
        crate::clear::spans(m, 200),
    ensures
        r == scaled(c, m),
        crate::clear::spans(c, 300) ==> crate::clear::spans(r, 600),
        crate::clear::spans(r, 2400),
{
    reveal(scaled);
    in_unit_of((c.0.times(m.0), c.1.times(m.1), c.2.times(m.2)))
}

/// How far a tint moves a colour.
fn tint_shift(c: Colour, tint: i32) -> (d: Signed)
    requires
        crate::clear::spans(c, 600),
        is_setting(tint),
    ensures
        ({
            let by = hundredth(-tint).product(Signed::part(3, 10));
            let off = Signed::part(2, 1).product(luma(c)).less_by(Signed::part(1, 1));
            let middle = Signed::part(1, 1).less_by(Signed { neg: false, size: off.size });
            d == by.product(middle).product(Signed::part(1, 2))
        }),
        d.within(1900),
{
    let by = hundredth_of(-tint).times(Signed::of(3, 10));
    let off = Signed::of(2, 1).times(luma_of(c)).minus(Signed::of(1, 1));
    let middle = Signed::of(1, 1).minus(Signed { neg: false, size: off.size });
    by.times(middle).times(Signed::of(1, 2))
}

fn tinted_of(c: Colour, tint: i32) -> (r: Colour)
    requires
        crate::clear::spans(c, 600),
        is_setting(tint),
    ensures
        r == tinted(c, tint as int),
        crate::clear::spans(r, 2100),
{
    reveal(tinted);
    let d = tint_shift(c, tint);
    let twice = d.times(Signed::of(2, 1));
    in_unit_of((c.0.minus(d), c.1.plus(twice), c.2.minus(d)))
}

fn shade(v: Signed, grey: Signed, y: Signed, k: Signed) -> (r: Signed)
    requires
        v.within(6000),
        grey.within(6300),
        y.within(6300),
        k.within(7000),
    ensures
        r == grey.sum(v.less_by(y).product(k)),
        r.within(13500),
        v.within(2400) && grey.within(3400) && y.within(2700) && k.within(500) ==> r.within(3600),
{
    grey.plus(v.minus(y).times(k))
}

fn coloured_of(c: Colour, grey: Signed, y: Signed, k: Signed) -> (r: Colour)
    requires
        crate::clear::spans(c, 6000),
        grey.within(6300),
        y.within(6300),
        k.within(7000),
    ensures
        r == coloured(c, grey, y, k),
        crate::clear::spans(r, 13500),
        crate::clear::spans(c, 2400) && grey.within(3400) && y.within(2700) && k.within(500) ==> crate::clear::spans(r, 3600),
{
    (shade(c.0, grey, y, k), shade(c.1, grey, y, k), shade(c.2, grey, y, k))
}

/// The grey of a colour under contrast and brightness.
fn grey_of(y: Signed, contrast: i32, brightness: i32) -> (r: Signed)
    requires
        y.within(2700),
        is_setting(contrast),
        is_setting(brightness),
    ensures
        ({
            let slope = Signed::part(1, 1).sum(
                Signed::integer(contrast as int).product(Signed::part(8, 1000)),
            );
            let lift = Signed::integer(brightness as int).product(Signed::part(4, 1000)).product(
                Signed::part(255, 1).quotient(Signed::part(219, 1)),
            );
            r == slope.product(y.less_by(Signed::part(1, 2))).sum(Signed::part(1, 2)).sum(lift)
        }),
        r.within(3400),
{
    let half = Signed::of(1, 2);
    let slope = Signed::of(1, 1).plus(whole_of(contrast).times(Signed::of(8, 1000)));
    let lift = whole_of(brightness).times(Signed::of(4, 1000)).times(
        Signed::of(255, 1).over(Signed::of(219, 1)),
    );
    slope.times(y.minus(half)).plus(half).plus(lift)
}

fn contrasted_of(c: Colour, g: &Grade) -> (r: Colour)
    requires
        crate::clear::spans(c, 2400),
        g.wf(),
    ensures
        r == contrasted(c, *g),
        crate::clear::spans(r, 3600),
{
    reveal(contrasted);
    let sat = Signed::of(1, 1).plus(whole_of(g.saturation).times(Signed::of(1, 100))).max(
        Signed::zero(),
    );
    let y = luma_of(c);
    let grey = grey_of(y, g.contrast, g.brightness);
    in_unit_of(coloured_of(c, grey, y, sat))
}

fn curved_of(curve: &Vec<Signed>, v: Signed) -> (r: Signed)
    requires
        curve@.len() == CURVE_STEPS + 1,
        forall|i: int| 0 <= i < curve@.len() ==> (#[trigger] curve@[i]).wf(),
        v.within(3600),
    ensures
        r == curved(curve@, v),
        r.within(4300),
{
    reveal(curved);
    let t = unit_of(v).times(Signed::of(1024, 1));
    let f: u64 = t.size.floor();
    let i: usize = if f < 1023 {
        f as usize
    } else {
        1023
    };
    let past = t.minus(Signed::of(i as u64, 1));
    let a = curve[i];
    a.plus(curve[i + 1].minus(a).times(past))
}

fn curved_all(curve: &Vec<Signed>, c: Colour) -> (r: Colour)
    requires
        curve@.len() == CURVE_STEPS + 1,
        forall|i: int| 0 <= i < curve@.len() ==> (#[trigger] curve@[i]).wf(),
        crate::clear::spans(c, 3600),
    ensures
        r == (curved(curve@, c.0), curved(curve@, c.1), curved(curve@, c.2)),
        crate::clear::spans(r, 4300),
{
    (curved_of(curve, c.0), curved_of(curve, c.1), curved_of(curve, c.2))
}

fn veil_of(dehaze: i32) -> (r: Signed)
    requires
        is_setting(dehaze),
    ensures
        r == veil(dehaze as int),
        r.within(450),
        r != Signed::part(1, 1),
{
    let n: i32 = if dehaze < 0 {
        -dehaze
    } else {
        dehaze
    };
    let top = Signed::of(22, 100);
    let share = hundredth_of(n);
    let r = share.times(top);
    proof {
        lemma_veil_leaves_light(n, top, share, r);
    }
    r
}

/// No haze is as bright as white.
proof fn lemma_veil_leaves_light(n: i32, top: Signed, share: Signed, r: Signed)
    requires
        0 <= n <= 100,
        top == Signed::part(22, 100),
        crate::single::is_nearest(22, 100, top.size),
        top.within(100),
        top.size.m > 0,
        share == hundredth(n as int),
        share.within(224),
        !crate::single::below(crate::single::one(), share.size),
        r == share.product(top),
        r.size.wf(),
    ensures
        r != Signed::part(1, 1),
{
    reveal(Signed::product);
    crate::single::lemma_one();
    crate::single::lemma_fraction_is_share(22, 100, top.size);
    assert(share.size.m * top.size.m == top.size.m * share.size.m) by (nonlinear_arith);
    if share.size.m > 0 {
        crate::single::lemma_product_nearest(top.size, share.size);
    }
    crate::single::law_times_share_shrinks(top.size, share.size, r.size);
    vstd::arithmetic::power2::lemma2_to64();
    vstd::arithmetic::power2::lemma2_to64_rest();
    assert(crate::single::up(26) == 0x400_0000);
    assert(100 * crate::single::up(-26) == 100);
    crate::single::lemma_exponent_upto(22, 100, top.size, -26);
}

fn stretched(v: Signed, k: Signed, stretch: Signed) -> (r: Signed)
    requires
        v.within(4300),
        k.within(450),
        stretch.within(700),
    ensures
        r == v.less_by(k).product(stretch),
        r.within(5200),
{
    v.minus(k).times(stretch)
}

fn veiled(v: Signed, k: Signed, left: Signed) -> (r: Signed)
    requires
        v.within(4300),
        k.within(450),
        left.within(520),
    ensures
        r == k.sum(v.product(left)),
        r.within(5200),
{
    k.plus(v.times(left))
}

fn cleared_of(c: Colour, dehaze: i32, k: Signed) -> (r: Colour)
    requires
        crate::clear::spans(c, 4300),
        k.within(450),
        dehaze > 0 ==> k != Signed::part(1, 1),
    ensures
        r == cleared(c, dehaze as int, k),
        crate::clear::spans(r, 5200),
{
    reveal(cleared);
    let one = Signed::of(1, 1);
    let left = one.minus(k);
    if dehaze > 0 {
        let stretch = one.over(left);
        in_unit_of((stretched(c.0, k, stretch), stretched(c.1, k, stretch), stretched(c.2, k, stretch)))
    } else {
        in_unit_of((veiled(c.0, k, left), veiled(c.1, k, left), veiled(c.2, k, left)))
    }
}

/// How much further from grey vibrance takes a colour.
fn vivid_by(c: Colour, vibrance: i32) -> (by: Signed)
    requires
        crate::clear::spans(c, 5200),
        is_setting(vibrance),
    ensures
        ({
            let k = hundredth(vibrance as int).product(Signed::part(2, 1));
            let most = c.0.larger(c.1).larger(c.2);
            let least = c.0.smaller(c.1).smaller(c.2);
            let spread = most.less_by(least);
            let turned = if vibrance < 0 {
                spread.negated()
            } else {
                spread
            };
            by == Signed::part(1, 1).sum(k.product(Signed::part(1, 1).sum(turned))).larger(
                Signed::part(0, 1),
            )
        }),
        by.within(7000),
{
    let one = Signed::of(1, 1);
    let k = hundredth_of(vibrance).times(Signed::of(2, 1));
    let most = c.0.max(c.1).max(c.2);
    let least = c.0.min(c.1).min(c.2);
    let spread = most.minus(least);
    let turned = if vibrance < 0 {
        spread.negate()
    } else {
        spread
    };
    one.plus(k.times(one.plus(turned))).max(Signed::zero())
}

fn vivid_of(c: Colour, vibrance: i32) -> (r: Colour)
    requires
        crate::clear::spans(c, 5200),
        is_setting(vibrance),
    ensures
        r == vivid(c, vibrance as int),
        crate::clear::spans(r, 13500),
{
    reveal(vivid);
    let by = vivid_by(c, vibrance);
    let y = luma709_of(c);
    in_unit_of(coloured_of(c, y, y, by))
}

/// The settings applied to one colour (see [`toned`]).
fn tone(c: Colour, g: &Grade, t: &Tones) -> (r: Colour)
    requires
        crate::clear::spans(c, 300),
        g.wf(),
        t.wf(),
    ensures
        r == toned(c, *g, t),
        crate::clear::spans(r, 13500),
{
    let a = if g.temp != 0 {
        scaled_of(c, t.warmth)
    } else {
        c
    };
    let b = if g.tint != 0 {
        tinted_of(a, g.tint)
    } else {
        a
    };
    let d = if g.exposure != 0 {
        scaled_of(b, (t.gain, t.gain, t.gain))
    } else {
        b
    };
    let e = if g.contrast != 0 || g.brightness != 0 || g.saturation != 0 {
        contrasted_of(d, g)
    } else {
        d
    };
    let f = if g.shadows != 0 || g.whites != 0 || g.blacks != 0 {
        curved_all(&t.curve, e)
    } else {
        e
    };
    let h = if g.dehaze != 0 {
        cleared_of(f, g.dehaze, veil_of(g.dehaze))
    } else {
        f
    };
    if g.vibrance != 0 {
        vivid_of(h, g.vibrance)
    } else {
        h
    }
}

/// The colour of pixel `i` of a picture.
pub open spec fn colour_at(d: Seq<u8>, i: int) -> Colour {
    (crate::clear::light(d[3 * i]), crate::clear::light(d[3 * i + 1]), crate::clear::light(d[3 * i + 2]))
}

/// The nearest byte.
pub open spec fn byte(v: Signed) -> int {
    let s = v.product(Signed::part(255, 1)).sum(Signed::part(1, 2));
    if s.neg {
        0
    } else {
        crate::signed::min_of(crate::single::floor(s.size), 255)
    }
}

/// The brightness of every pixel under the settings.
pub open spec fn brightness(d: Seq<u8>, n: int, g: Grade, t: &Tones) -> Seq<Signed> {
    Seq::new(n as nat, |i: int| luma(toned(colour_at(d, i), g, t)))
}

/// How far clarity looks around a pixel.
pub open spec fn clarity_reach(w: int, h: int) -> int {
    crate::scale::within(
        Signed::part(crate::scale::longer(w, h), 1).quotient(Signed::part(300, 1)).nearest_integer(),
        1,
        60,
    )
}

/// Pixel `i` of a photo under the settings: clarity adds to each channel some of what sets the pixel
/// off from its surroundings.
pub open spec fn graded(d: Seq<u8>, w: int, h: int, g: Grade, t: &Tones, i: int) -> Colour {
    let c = toned(colour_at(d, i), g, t);
    if g.clarity != 0 {
        let y = brightness(d, w * h, g, t);
        let soft = crate::spread::blurred(y, w, h, clarity_reach(w, h));
        let amount = Signed::integer(g.clarity as int).product(Signed::part(15, 1000));
        in_unit(raised(c, y[i].less_by(soft[i]).product(amount)))
    } else {
        c
    }
}

fn byte_of(v: Signed) -> (b: u8)
    requires
        v.within(490_000_000),
    ensures
        b == byte(v),
{
    let s = v.times(Signed::of(255, 1)).plus(Signed::of(1, 2));
    if s.neg {
        0
    } else if s.size.e > 38 {
        proof {
            crate::single::lemma_power_at_least(s.size.e as int, 9);
            let m = s.size.m;
            let p = crate::single::up(s.size.e as int);
            assert(m * p >= 255) by (nonlinear_arith)
                requires
                    m >= 0x80_0000,
                    p >= 512,
            ;
        }
        255
    } else {
        let f: u64 = s.size.floor();
        if f < 255 {
            f as u8
        } else {
            255
        }
    }
}

pub fn clarity_reach_of(w: usize, h: usize) -> (r: usize)
    requires
        0 < w <= crate::spread::longest(),
        0 < h <= crate::spread::longest(),
    ensures
        r == clarity_reach(w as int, h as int),
        1 <= r <= 60,
{
    let long: usize = if w < h {
        h
    } else {
        w
    };
    let v = Signed::of(long as u64, 1).over(Signed::of(300, 1));
    proof {
        crate::single::lemma_small_nearest(300);
    }
    let n: u64 = v.size.round();
    if n < 1 {
        1
    } else if n > 60 {
        60
    } else {
        n as usize
    }
}

/// Clarity looks as far around a pixel as a three-hundredth of the photo's long edge, but at least one
/// pixel and at most sixty. So a photo and its smaller copy are set off over the same part of the
/// picture, and a larger photo over no fewer pixels.
pub proof fn law_clarity_grows_with_the_photo(w: int, h: int, v: int, k: int)
    requires
        0 < w <= crate::spread::longest(),
        0 < h <= crate::spread::longest(),
        0 < v <= crate::spread::longest(),
        0 < k <= crate::spread::longest(),
    ensures
        1 <= clarity_reach(w, h) <= 60,
        clarity_reach(w, h) == clarity_reach(h, w),
        150 <= w && h <= w <= 18150 ==> -150 <= 300 * clarity_reach(w, h) - w <= 150,
        h <= w <= 450 ==> clarity_reach(w, h) <= 2,
        h <= w < 450 ==> clarity_reach(w, h) == 1,
        h <= w && 18000 <= w ==> clarity_reach(w, h) == 60,
        h <= w && 60 >= v && w == 300 * v ==> clarity_reach(w, h) == v,
        h <= w <= v && k <= v ==> clarity_reach(w, h) <= clarity_reach(v, k),
{
    lemma_reach_of_edge(crate::scale::longer(w, h));
    lemma_reach_of_edge(crate::scale::longer(v, k));
    if h <= w <= v && k <= v && v <= 20000 {
        lemma_reach_keeps_order(w, v);
    }
}

/// A long edge over 300, rounded.
proof fn lemma_reach_of_edge(long: int)
    requires
        0 < long <= crate::spread::longest(),
    ensures
        ({
            let n = Signed::part(long, 1).quotient(Signed::part(300, 1)).nearest_integer();
            &&& n >= 0
            &&& long <= 20000 ==> -150 <= 300 * n - long <= 150
            &&& long > 20000 ==> n >= 60
        }),
{
    let a = Signed::part(long, 1);
    let b = Signed::part(300, 1);
    crate::worth::law_integer_is_exact(300);
    crate::worth::law_part_is_close(long, 1);
    crate::worth::law_order_is_by_worth(b, a);
    let l = long as real;
    assert(l * (1 as real) == l) by (nonlinear_arith);
    crate::worth::lemma_divides(l, 1 as real, l);
    crate::worth::lemma_close_range(a.worth(), l);
    crate::worth::law_quotient_is_close(a, b);
    let q = a.quotient(b);
    let (x, y) = (q.worth(), a.worth() / (300 as real));
    crate::worth::lemma_divided(a.worth(), 300 as real);
    crate::worth::lemma_close_range(x, y);
    crate::worth::law_order_is_by_worth(q, q);
    crate::worth::law_round_is_near(q.size);
    let n = crate::single::round(q.size);
    assert(q.nearest_integer() == n);
    if long > 20000 && n < 60 {
        assert(x * (2 as real) < 119 as real);
    }
}

/// The reach of a longer edge is no smaller.
proof fn lemma_reach_keeps_order(a: int, b: int)
    requires
        0 < a <= b <= 20000,
    ensures
        Signed::part(a, 1).quotient(Signed::part(300, 1)).nearest_integer() <= Signed::part(
            b,
            1,
        ).quotient(Signed::part(300, 1)).nearest_integer(),
{
    reveal(Signed::quotient);
    let (x, y, k) = (
        crate::single::nearest(a, 1),
        crate::single::nearest(b, 1),
        crate::single::nearest(300, 1),
    );
    crate::worth::law_integer_is_exact(a);
    crate::worth::law_integer_is_exact(b);
    crate::worth::law_integer_is_exact(300);
    crate::worth::lemma_sizes(k, k);
    crate::rounding::law_integers_keep_order(a, b);
    crate::rounding::law_quotient_keeps_order(x, y, k);
    crate::rounding::law_rounding_keeps_order(
        crate::single::quotient(x, k),
        crate::single::quotient(y, k),
    );
}

/// What clarity adds to a pixel.
fn crisp(c: Colour, y: Signed, soft: Signed, amount: Signed) -> (r: Colour)
    requires
        crate::clear::spans(c, 13500),
        y.within(13800),
        crate::held::fits(soft),
        amount.within(300),
    ensures
        r == in_unit(raised(c, y.less_by(soft).product(amount))),
        crate::clear::spans(r, 301_000_000),
{
    let d = y.minus(soft).times(amount);
    in_unit_of((c.0.plus(d), c.1.plus(d), c.2.plus(d)))
}

/// The colours of a picture under the settings.
fn tone_all(img: &Raster, g: &Grade, t: &Tones) -> (out: Vec<Colour>)
    requires
        img@.wf(),
        g.wf(),
        t.wf(),
    ensures
        out@.len() == img.w * img.h,
        forall|i: int|
            0 <= i < out@.len() ==> #[trigger] out@[i] == toned(colour_at(img.d@, i), *g, t) && crate::clear::spans(
                out@[i],
                13500,
            ),
{
    let bytes: usize = img.d.len();
    let n: usize = bytes / 3;
    let mut out: Vec<Colour> = Vec::new();
    let mut i: usize = 0;
    while i < n
        invariant
            i <= n,
            bytes == img.d@.len(),
            n == bytes / 3,
            g.wf(),
            t.wf(),
            out@.len() == i,
            forall|j: int|
                0 <= j < i ==> #[trigger] out@[j] == toned(colour_at(img.d@, j), *g, t) && crate::clear::spans(
                    out@[j],
                    13500,
                ),
        decreases n - i,
    {
        let c = (
            light_of(img.d[3 * i]),
            light_of(img.d[3 * i + 1]),
            light_of(img.d[3 * i + 2]),
        );
        out.push(tone(c, g, t));
        i += 1;
    }
    out
}

/// Brings out what sets pixels off from their surroundings.
fn clarify(c: Vec<Colour>, w: usize, h: usize, clarity: i32) -> (out: Vec<Colour>)
    requires
        0 < w <= crate::spread::longest(),
        0 < h <= crate::spread::longest(),
        c@.len() == w * h,
        is_setting(clarity),
        forall|i: int| 0 <= i < c@.len() ==> crate::clear::spans(#[trigger] c@[i], 13500),
    ensures
        out@.len() == c@.len(),
        ({
            let y = Seq::new(c@.len(), |i: int| luma(c@[i]));
            let soft = crate::spread::blurred(
                y,
                w as int,
                h as int,
                clarity_reach(w as int, h as int),
            );
            let amount = Signed::integer(clarity as int).product(Signed::part(15, 1000));
            forall|i: int|
                0 <= i < c@.len() ==> #[trigger] out@[i] == in_unit(
                    raised(c@[i], y[i].less_by(soft[i]).product(amount)),
                ) && crate::clear::spans(out@[i], 301_000_000)
        }),
{
    let n: usize = c.len();
    let mut y: Vec<Signed> = Vec::new();
    let mut i: usize = 0;
    while i < n
        invariant
            i <= n,
            n == c@.len(),
            forall|j: int| 0 <= j < c@.len() ==> crate::clear::spans(#[trigger] c@[j], 13500),
            y@.len() == i,
            forall|j: int| 0 <= j < i ==> #[trigger] y@[j] == luma(c@[j]) && y@[j].within(13800),
        decreases n - i,
    {
        assert(crate::clear::spans(c@[i as int], 13500));
        y.push(luma_of(c[i]));
        i += 1;
    }
    let r: usize = clarity_reach_of(w, h);
    let soft = box_blur(&y, w, h, r);
    let amount = whole_of(clarity).times(Signed::of(15, 1000));
    let mut out: Vec<Colour> = Vec::new();
    let mut i: usize = 0;
    assert(y@ =~= Seq::new(c@.len(), |j: int| luma(c@[j])));
    while i < n
        invariant
            i <= n,
            n == c@.len() == y@.len() == soft@.len(),
            forall|j: int| 0 <= j < c@.len() ==> crate::clear::spans(#[trigger] c@[j], 13500),
            forall|j: int| 0 <= j < y@.len() ==> (#[trigger] y@[j]).within(13800),
            forall|j: int| 0 <= j < soft@.len() ==> crate::held::fits(#[trigger] soft@[j]),
            amount.within(300),
            out@.len() == i,
            forall|j: int|
                0 <= j < i ==> #[trigger] out@[j] == in_unit(
                    raised(c@[j], y@[j].less_by(soft@[j]).product(amount)),
                ) && crate::clear::spans(out@[j], 301_000_000),
        decreases n - i,
    {
        assert(crate::clear::spans(c@[i as int], 13500));
        out.push(crisp(c[i], y[i], soft[i], amount));
        i += 1;
    }
    out
}

/// The bytes of colours.
fn bytes_of(c: &Vec<Colour>) -> (d: Vec<u8>)
    requires
        c@.len() * 3 <= usize::MAX,
        forall|i: int| 0 <= i < c@.len() ==> crate::clear::spans(#[trigger] c@[i], 490_000_000),
    ensures
        d@.len() == c@.len() * 3,
        forall|i: int|
            0 <= i < c@.len() ==> d@[3 * i] == byte((#[trigger] c@[i]).0) && d@[3 * i + 1] == byte(
                c@[i].1,
            ) && d@[3 * i + 2] == byte(c@[i].2),
{
    let n: usize = c.len();
    let mut d: Vec<u8> = Vec::new();
    let mut i: usize = 0;
    while i < n
        invariant
            i <= n,
            n == c@.len(),
            forall|j: int| 0 <= j < c@.len() ==> crate::clear::spans(#[trigger] c@[j], 490_000_000),
            d@.len() == 3 * i,
            forall|j: int|
                0 <= j < i ==> d@[3 * j] == byte((#[trigger] c@[j]).0) && d@[3 * j + 1] == byte(
                    c@[j].1,
                ) && d@[3 * j + 2] == byte(c@[j].2),
        decreases n - i,
    {
        assert(crate::clear::spans(c@[i as int], 490_000_000));
        let p = c[i];
        d.push(byte_of(p.0));
        d.push(byte_of(p.1));
        d.push(byte_of(p.2));
        i += 1;
    }
    d
}

/// Applies settings that lie in their ranges.
fn grade_all(img: &mut Raster, g: &Grade, t: &Tones)
    requires
        old(img)@.wf(),
        old(img).w <= crate::spread::longest(),
        old(img).h <= crate::spread::longest(),
        g.wf(),
        t.wf(),
    ensures
        final(img)@.wf(),
        final(img).w == old(img).w,
        final(img).h == old(img).h,
        g.neutral() ==> *final(img) == *old(img),
        !g.neutral() ==> forall|i: int|
            0 <= i < old(img).w * old(img).h ==> {
                let c = #[trigger] graded(
                    old(img).d@,
                    old(img).w as int,
                    old(img).h as int,
                    *g,
                    t,
                    i,
                );
                &&& final(img).d@[3 * i] == byte(c.0)
                &&& final(img).d@[3 * i + 1] == byte(c.1)
                &&& final(img).d@[3 * i + 2] == byte(c.2)
            },
{
    if g.is_neutral() || img.w == 0 || img.h == 0 {
        assert(img.w == 0 || img.h == 0 ==> img.w * img.h == 0) by (nonlinear_arith);
        return;
    }
    let (w, h) = (img.w, img.h);
    let bytes: usize = img.d.len();
    let toned = tone_all(img, g, t);
    let ghost before = img.d@;
    let done = if g.clarity != 0 {
        let ghost flat = toned@;
        let out = clarify(toned, w, h, g.clarity);
        proof {
            assert(Seq::new(flat.len(), |i: int| luma(flat[i])) =~= brightness(
                before,
                w * h,
                *g,
                t,
            ));
        }
        out
    } else {
        toned
    };
    proof {
        assert forall|i: int| 0 <= i < done@.len() implies crate::clear::spans(#[trigger] done@[i], 490_000_000)
            && done@[i] == graded(before, w as int, h as int, *g, t, i) by {}
    }
    assert(done@.len() * 3 == bytes);
    let d = bytes_of(&done);
    img.d = d;
    proof {
        assert forall|i: int| 0 <= i < w * h implies ({
            let c = #[trigger] graded(before, w as int, h as int, *g, t, i);
            &&& img.d@[3 * i] == byte(c.0)
            &&& img.d@[3 * i + 1] == byte(c.1)
            &&& img.d@[3 * i + 2] == byte(c.2)
        }) by {
            assert(done@[i] == graded(before, w as int, h as int, *g, t, i));
        }
    }
}

/// Applies the settings to a photo (see [`graded`]), each moved into its range first; settings that
/// are all 0 leave every byte alone.
pub fn apply_grade(img: &mut Raster, g: &Grade, t: &Tones)
    requires
        old(img)@.wf(),
        old(img).w <= crate::spread::longest(),
        old(img).h <= crate::spread::longest(),
        t.wf(),
        t.curves(g.kept()),
    ensures
        final(img)@.wf(),
        final(img).w == old(img).w,
        final(img).h == old(img).h,
        g.neutral() ==> *final(img) == *old(img),
        !g.neutral() ==> forall|i: int|
            0 <= i < old(img).w * old(img).h ==> {
                let c = #[trigger] graded(
                    old(img).d@,
                    old(img).w as int,
                    old(img).h as int,
                    g.kept(),
                    t,
                    i,
                );
                &&& final(img).d@[3 * i] == byte(c.0)
                &&& final(img).d@[3 * i + 1] == byte(c.1)
                &&& final(img).d@[3 * i + 2] == byte(c.2)
            },
{
    let k = g.clamped();
    grade_all(img, &k, t);
}

/// Pixel `i` of a picture has the bytes of a colour.
pub open spec fn shows(d: Seq<u8>, i: int, c: Colour) -> bool {
    &&& d[3 * i] == byte(c.0)
    &&& d[3 * i + 1] == byte(c.1)
    &&& d[3 * i + 2] == byte(c.2)
}

/// Applies the settings to a photo as strongly as each pixel's weight says. Weights that are not one
/// for each pixel are passed over: the settings are then applied in full.
pub fn apply_grade_masked(img: &mut Raster, g: &Grade, t: &Tones, weights: &Vec<Single>)
    requires
        old(img)@.wf(),
        old(img).w <= crate::spread::longest(),
        old(img).h <= crate::spread::longest(),
        t.wf(),
        t.curves(g.kept()),
        forall|i: int|
            0 <= i < weights@.len() ==> crate::single::is_share(#[trigger] weights@[i]),
    ensures
        final(img)@.wf(),
        final(img).w == old(img).w,
        final(img).h == old(img).h,
        g.neutral() ==> *final(img) == *old(img),
        !g.neutral() && weights@.len() != old(img).w * old(img).h ==> forall|i: int|
            0 <= i < old(img).w * old(img).h ==> #[trigger] shows(
                final(img).d@,
                i,
                graded(old(img).d@, old(img).w as int, old(img).h as int, g.kept(), t, i),
            ),
        !g.neutral() && weights@.len() == old(img).w * old(img).h ==> forall|i: int|
            0 <= i < weights@.len() ==> {
                let c = #[trigger] graded(
                    old(img).d@,
                    old(img).w as int,
                    old(img).h as int,
                    g.kept(),
                    t,
                    i,
                );
                let k = weights@[i];
                &&& final(img).d@[3 * i] == crate::edit::moved(
                    old(img).d@[3 * i],
                    byte(c.0) as u8,
                    k,
                )
                &&& final(img).d@[3 * i + 1] == crate::edit::moved(
                    old(img).d@[3 * i + 1],
                    byte(c.1) as u8,
                    k,
                )
                &&& final(img).d@[3 * i + 2] == crate::edit::moved(
                    old(img).d@[3 * i + 2],
                    byte(c.2) as u8,
                    k,
                )
            },
{
    let k = g.clamped();
    if k.is_neutral() {
        return;
    }
    let bytes: usize = img.d.len();
    let whole = weights.len() != bytes / 3;
    assert(img.d@.len() == img.w * img.h * 3);
    if whole {
        let ghost before = *img;
        grade_all(img, &k, t);
        proof {
            assert forall|i: int| 0 <= i < before.w * before.h implies #[trigger] shows(
                img.d@,
                i,
                graded(before.d@, before.w as int, before.h as int, k, t, i),
            ) by {}
        }
        return;
    }
    let mut layer = copy(img);
    grade_all(&mut layer, &k, t);
    let ghost before = *img;
    blend_masked(img, &layer, weights);
    proof {
        assert forall|i: int| 0 <= i < weights@.len() implies ({
            let c = #[trigger] graded(before.d@, before.w as int, before.h as int, k, t, i);
            let share = weights@[i];
            &&& img.d@[3 * i] == crate::edit::moved(before.d@[3 * i], byte(c.0) as u8, share)
            &&& img.d@[3 * i + 1] == crate::edit::moved(before.d@[3 * i + 1], byte(c.1) as u8, share)
            &&& img.d@[3 * i + 2] == crate::edit::moved(before.d@[3 * i + 2], byte(c.2) as u8, share)
        }) by {
            assert(crate::edit::byte_of(img.d@, i, 0) == img.d@[3 * i]);
            assert(crate::edit::byte_of(img.d@, i, 1) == img.d@[3 * i + 1]);
            assert(crate::edit::byte_of(img.d@, i, 2) == img.d@[3 * i + 2]);
        }
    }
}

/// Grey stays grey: only warmth and tint give a grey pixel a colour.
pub proof fn law_grey_stays_grey(v: Signed, g: Grade, t: &Tones)
    requires
        g.temp == 0,
        g.tint == 0,
    ensures
        ({
            let c = toned((v, v, v), g, t);
            c.0 == c.1 && c.1 == c.2
        }),
{
    reveal(scaled);
    reveal(contrasted);
    reveal(cleared);
    reveal(vivid);
}

/// Without clarity every pixel stands alone: what becomes of it depends on its own bytes, not on where
/// it lies nor on the pixels around it.
pub proof fn law_pixels_stand_alone(
    a: crate::raster::Picture,
    b: crate::raster::Picture,
    g: Grade,
    t: &Tones,
    i: int,
    j: int,
)
    requires
        g.clarity == 0,
        0 <= i < a.w * a.h,
        0 <= j < b.w * b.h,
        forall|c: int| 0 <= c < 3 ==> #[trigger] a.d[3 * i + c] == b.d[3 * j + c],
    ensures
        graded(a.d, a.w, a.h, g.kept(), t, i) == graded(b.d, b.w, b.h, g.kept(), t, j),
{
    assert(a.d[3 * i + 0] == b.d[3 * j + 0]);
    assert(a.d[3 * i + 1] == b.d[3 * j + 1]);
    assert(a.d[3 * i + 2] == b.d[3 * j + 2]);
}

} // verus!
