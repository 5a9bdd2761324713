//! Settings that the statistics of a photo call for.

use vstd::prelude::*;

use crate::enhance::{Preset, Targets};
use crate::grade::Grade;
use crate::signed::Signed;
use crate::single::Single;

verus! {

/// How far `v` has come from `lo` to `hi`, from 0 to 1, slow at either end. Where the ends coincide
/// it has either not started or arrived.
pub open spec fn smoothed(lo: Signed, hi: Signed, v: Signed) -> Signed {
    if !lo.lies_below(hi) {
        if v.lies_below(hi) {
            Signed::part(0, 1)
        } else {
            Signed::part(1, 1)
        }
    } else {
        eased(
            v.less_by(lo).quotient(hi.less_by(lo)).clamped(
                Signed::part(0, 1),
                Signed::part(1, 1),
            ),
        )
    }
}

/// A number from 0 to 1, slowed at either end.
pub open spec fn eased(t: Signed) -> Signed {
    t.product(t).product(
        Signed::part(3, 1).less_by(Signed::part(2, 1).product(t)),
    )
}

/// A number from 0 to 1, slowed at either end (see [`eased`]).
pub fn ease(t: Signed) -> (r: Signed)
    requires
        t.within(200000),
    ensures
        r == eased(t),
        r.within(700000),
        r.size.m > 0 ==> 2 * t.size.e - 140 <= r.size.e <= 3 * crate::signed::max_of(
            t.size.e as int,
            0,
        ) + 200,
        t.size.e <= 0 ==> r.size.e <= 64,
        t.size.m == 0 ==> r.size.m == 0,
{
    let rise = Signed::of(3, 1).minus(Signed::of(2, 1).times(t));
    t.times(t).times(rise)
}

/// How far `v` has come from `lo` to `hi` (see [`smoothed`]).
pub fn smoothstep(lo: Signed, hi: Signed, v: Signed) -> (r: Signed)
    requires
        lo.within(10000),
        hi.within(10000),
        v.within(100000),
    ensures
        r == smoothed(lo, hi, v),
        r.within(700000),
        r.size.e <= 64,
        lo.size.m > 0 && -100 <= lo.size.e && hi.size.e <= 100 && hi.size.m > 0 ==> r.within(720),
        !lo.neg && lo.size.m > 0 && lo.lies_below(hi) && v.wf() && !lo.lies_below(v) ==> r.size.m == 0,
{
    if !lo.less(hi) {
        if v.less(hi) {
            Signed::zero()
        } else {
            Signed::of(1, 1)
        }
    } else {
        let width = hi.minus(lo);
        let far = v.minus(lo).over(width);
        proof {
            if !lo.neg && lo.size.m > 0 && v.wf() && !lo.lies_below(v) {
                lemma_not_started(lo, hi, v);
            }
        }
        ease(far.clamp(Signed::zero(), Signed::of(1, 1)))
    }
}

/// `v` kept from `lo` to `hi`, as the nearest integer.
pub open spec fn settled(v: Signed, lo: Signed, hi: Signed) -> int {
    v.clamped(lo, hi).nearest_integer()
}

/// The number is no further than `n` from zero.
pub open spec fn reaches(v: Signed, n: int) -> bool {
    !crate::single::below(crate::single::nearest(n, 1), v.size)
}

/// What is kept between two ends no further than `n` from zero is itself no further.
pub proof fn law_settled_within(v: Signed, lo: Signed, hi: Signed, n: int)
    requires
        v.size.wf(),
        lo.size.wf(),
        hi.size.wf(),
        0 < n < crate::single::LOW,
        reaches(lo, n),
        reaches(hi, n),
    ensures
        -n <= settled(v, lo, hi) <= n,
        !lo.neg && !hi.neg ==> settled(v, lo, hi) >= 0,
{
    let r = v.clamped(lo, hi);
    let b = crate::single::nearest(n, 1);
    crate::single::lemma_small_nearest(n);
    assert(!crate::single::below(b, r.size));
    crate::single::law_round_within(r.size, n, b);
    lemma_round_is_natural(r.size);
}

/// Nothing stays nothing between a low end below zero and a high end.
proof fn lemma_nothing_settles(v: Signed, lo: Signed, hi: Signed)
    requires
        v.size.wf(),
        v.size.m == 0,
        !v.neg,
        lo.size.wf(),
        hi.size.wf(),
        lo.neg || lo.size.m == 0,
        !hi.neg,
    ensures
        settled(v, lo, hi) == 0,
{
    assert(v.clamped(lo, hi).size.m == 0);
    assert(0 * crate::single::up(0) == 0);
}

/// No number rounds below zero.
pub proof fn lemma_round_is_natural(s: Single)
    ensures
        crate::single::round(s) >= 0,
{
    crate::single::lemma_up_pos(s.e as int);
    crate::single::lemma_up_pos(-s.e);
    let a = crate::single::up(s.e as int);
    let b = crate::single::up(-s.e);
    assert(s.m * a >= 0 && (2 * s.m + b) / (2 * b) >= 0) by (nonlinear_arith)
        requires
            a >= 1,
            b >= 1,
            s.m >= 0,
    ;
}

/// `v` kept from `lo` to `hi`, as the nearest integer (see [`settled`]).
fn settle(v: Signed, lo: Signed, hi: Signed) -> (r: i32)
    requires
        v.size.wf(),
        lo.size.wf(),
        hi.size.wf(),
        reaches(lo, 100),
        reaches(hi, 100),
    ensures
        r == settled(v, lo, hi),
        -100 <= r <= 100,
        !lo.neg && !hi.neg ==> r >= 0,
{
    let k = v.clamp(lo, hi);
    proof {
        crate::single::lemma_small_nearest(100);
        law_settled_within(v, lo, hi, 100);
    }
    k.round() as i32
}

/// What a shrunken copy of a photo shows. Brightness runs from 0 to 1.
#[derive(Clone, Copy, Debug)]
pub struct Stats {
    /// How many pixels there are.
    pub pixels: u32,
    /// The brightness that 1, 5, 25, 50, 95 and 99 percent of the pixels do not pass.
    pub p01: Signed,
    pub p05: Signed,
    pub p25: Signed,
    pub p50: Signed,
    pub p95: Signed,
    pub p99: Signed,
    /// How many pixels are darker than 0.1, and how many brighter than 0.88.
    pub dark: u32,
    pub bright: u32,
    /// How many pixels are neither dark nor bright, and the sums of their channels.
    pub middle: u32,
    pub red: Signed,
    pub green: Signed,
    pub blue: Signed,
    /// Brightness of the haze.
    pub veil: Signed,
    /// How many stops the middle of the picture is short of its target.
    pub stops: Signed,
    /// How many pixels show a colour, and the sum of their saturations.
    pub coloured: u32,
    pub chroma: Signed,
    /// Mean difference between a pixel and its surroundings.
    pub local: Signed,
}

impl Stats {
    /// Every figure is a number, and there is something to count.
    pub open spec fn wf(&self) -> bool {
        &&& self.pixels > 0
        &&& self.p01.wf()
        &&& self.p05.wf()
        &&& self.p25.wf()
        &&& self.p50.wf()
        &&& self.p95.wf()
        &&& self.p99.wf()
        &&& self.red.wf()
        &&& self.green.wf()
        &&& self.blue.wf()
        &&& self.veil.wf()
        &&& self.stops.wf()
        &&& self.chroma.wf()
        &&& self.local.wf()
    }
}

/// `n` thousandths as a number.
pub open spec fn mil(n: u32) -> Signed {
    Signed::part(n as int, 1000)
}

/// One count over another.
pub open spec fn rate(a: u32, b: u32) -> Signed {
    Signed::part(a as int, 1).quotient(Signed::part(b as int, 1))
}

/// More than a twentieth of the pixels are counted.
pub open spec fn tells(count: u32, pixels: u32) -> bool {
    Signed::part(pixels as int, 1).product(Signed::part(5, 100)).lies_below(
        Signed::part(count as int, 1),
    )
}

/// The middle of the picture is dark: a night scene.
pub open spec fn is_night(s: Stats) -> bool {
    !Signed::part(6, 100).lies_below(s.p50)
}

/// How much a dark photo may be lifted: nothing where it is meant to be dark.
pub open spec fn low_key(s: Stats) -> Signed {
    smoothed(Signed::part(6, 100), Signed::part(22, 100), s.p50).product(
        Signed::part(1, 1).less_by(
            smoothed(
                Signed::part(55, 100),
                Signed::part(90, 100),
                rate(s.dark, s.pixels),
            ),
        ),
    )
}

/// How much a bright photo may be lowered: nothing where it is meant to be bright.
pub open spec fn high_key(s: Stats) -> Signed {
    Signed::part(1, 1).less_by(
        smoothed(Signed::part(72, 100), Signed::part(92, 100), s.p50),
    ).product(
        Signed::part(1, 1).less_by(
            smoothed(
                Signed::part(45, 100),
                Signed::part(80, 100),
                rate(s.bright, s.pixels),
            ),
        ),
    )
}

/// The mean colour of the middle tones, and its brightness.
pub open spec fn mean_colour(s: Stats) -> (Signed, Signed, Signed, Signed) {
    let n = Signed::part(s.middle as int, 1);
    let r = s.red.quotient(n);
    let g = s.green.quotient(n);
    let b = s.blue.quotient(n);
    (r, g, b, r.sum(g).sum(b).quotient(Signed::part(3, 1)))
}

/// Warmth and tint that take a colour cast out.
pub open spec fn balance(t: Targets, s: Stats) -> (int, int) {
    let (r, g, b, avg) = mean_colour(s);
    if tells(s.middle, s.pixels) && Signed::part(2, 100).lies_below(avg) {
        let top = Signed::part(t.wb_max as int, 1);
        let cool = b.less_by(r).quotient(avg);
        let green = g.less_by(r.sum(b).quotient(Signed::part(2, 1))).quotient(avg);
        (
            settled(cool.product(mil(t.wb)), top.negated(), top),
            settled(green.product(mil(t.wb)), top.negated(), top),
        )
    } else {
        (0, 0)
    }
}

/// How much haze is taken out.
pub open spec fn haze(t: Targets, s: Stats) -> int {
    settled(
        s.veil.quotient(crate::grade::veil_max()).product(Signed::part(100, 1)).larger(Signed::part(0, 1)).product(mil(t.dehaze)),
        Signed::part(0, 1),
        Signed::part(t.dehaze_max as int, 1),
    )
}

/// How far blacks are pulled down where the haze leaves them grey, or lifted where they drown.
pub open spec fn blacks(t: Targets, s: Stats) -> int {
    let taken = Signed::part(haze(t, s), 1).quotient(Signed::part(100, 1)).product(
        crate::grade::veil_max(),
    );
    let gap = s.p01.less_by(taken).larger(Signed::part(0, 1));
    if Signed::part(4, 1000).lies_below(gap) {
        -settled(
            gap.quotient(Signed::part(12, 100)).product(Signed::part(100, 1)).product(mil(t.black)),
            Signed::part(0, 1),
            Signed::part(t.black_max as int, 1),
        )
    } else if s.p05.lies_below(Signed::part(12, 1000)) {
        settled(
            Signed::part(12, 1000).less_by(s.p05).quotient(Signed::part(15, 100)).product(Signed::part(100, 1)).product(
                Signed::part(8, 10),
            ),
            Signed::part(0, 1),
            Signed::part(12, 1),
        )
    } else {
        0
    }
}

/// How far whites are raised where nothing is white, or lowered where too much is.
pub open spec fn whites(t: Targets, s: Stats) -> int {
    let gap = Signed::part(1, 1).less_by(s.p99).larger(Signed::part(0, 1));
    if Signed::part(1, 100).lies_below(gap) {
        settled(
            gap.quotient(Signed::part(15, 100)).product(Signed::part(100, 1)).product(mil(t.white)),
            Signed::part(0, 1),
            Signed::part(t.white_max as int, 1),
        )
    } else if Signed::part(985, 1000).lies_below(s.p95) {
        -settled(
            s.p95.less_by(Signed::part(985, 1000)).quotient(Signed::part(15, 100)).product(Signed::part(100, 1)).product(
                Signed::part(2, 1),
            ),
            Signed::part(0, 1),
            Signed::part(12, 1),
        )
    } else {
        0
    }
}

/// Exposure that brings the middle of the picture to its target.
pub open spec fn exposure(t: Targets, s: Stats) -> int {
    if Signed::part(4, 1000).lies_below(s.p50) {
        let damp = if Signed::part(0, 1).lies_below(s.stops) {
            low_key(s)
        } else {
            high_key(s)
        };
        let top = Signed::part(t.exposure_max as int, 1);
        settled(
            s.stops.quotient(Signed::part(3, 1)).product(Signed::part(100, 1)).product(mil(t.exposure)).product(damp),
            top.negated(),
            top,
        )
    } else {
        0
    }
}

/// Contrast that brings dark and bright to their distance.
pub open spec fn contrast(t: Targets, s: Stats) -> int {
    let spread = s.p95.less_by(s.p05).larger(Signed::part(0, 1));
    let top = Signed::part(t.contrast_max as int, 1);
    settled(
        mil(t.spread).less_by(spread).quotient(mil(t.spread).larger(Signed::part(5, 100))).product(
            Signed::part(100, 1),
        ).product(mil(t.contrast)),
        top.negated().product(Signed::part(5, 10)),
        top,
    )
}

/// How far shadows are lifted.
pub open spec fn shadows(t: Targets, s: Stats) -> int {
    if s.p25.lies_below(mil(t.shadow_floor)) {
        settled(
            mil(t.shadow_floor).less_by(s.p25).quotient(mil(t.shadow_floor)).product(
                Signed::part(100, 1),
            ).product(mil(t.shadow)).product(low_key(s)),
            Signed::part(0, 1),
            Signed::part(t.shadow_max as int, 1),
        )
    } else {
        0
    }
}

/// How far the photo's saturation is from its target, as a part of the target.
pub open spec fn paleness(t: Targets, s: Stats) -> Signed {
    mil(t.chroma).less_by(s.chroma.quotient(Signed::part(s.coloured as int, 1))).quotient(
        mil(t.chroma).larger(Signed::part(5, 100)),
    )
}

/// A setting that follows paleness, down to six tenths of its limit.
pub open spec fn coloured(gap: Signed, by: u32, most: u32) -> int {
    let top = Signed::part(most as int, 1);
    settled(
        gap.product(Signed::part(100, 1)).product(mil(by)),
        top.negated().product(Signed::part(6, 10)),
        top,
    )
}

/// Clarity that brings local contrast to its target.
pub open spec fn clarity(t: Targets, s: Stats) -> int {
    let top = Signed::part(t.clarity_max as int, 1);
    settled(
        mil(t.local).less_by(s.local).quotient(mil(t.local).larger(Signed::part(1, 100))).product(
            Signed::part(100, 1),
        ).product(mil(t.clarity)),
        top.negated().product(Signed::part(6, 10)),
        top,
    )
}

/// The settings that a photo's statistics call for.
pub open spec fn advice(t: Targets, s: Stats) -> Grade {
    Grade {
        temp: balance(t, s).0 as i32,
        tint: balance(t, s).1 as i32,
        exposure: exposure(t, s) as i32,
        contrast: contrast(t, s) as i32,
        brightness: 0,
        shadows: shadows(t, s) as i32,
        whites: whites(t, s) as i32,
        blacks: blacks(t, s) as i32,
        dehaze: haze(t, s) as i32,
        vibrance: if tells(s.coloured, s.pixels) {
            coloured(paleness(t, s), t.vibrance, t.vibrance_max) as i32
        } else {
            0
        },
        saturation: if tells(s.coloured, s.pixels) {
            coloured(paleness(t, s), t.sat, t.sat_max) as i32
        } else {
            0
        },
        clarity: clarity(t, s) as i32,
    }
}

/// A limit is no further from zero than itself.
proof fn lemma_limit(n: u32, top: Signed)
    requires
        0 < n <= 100,
        top == Signed::part(n as int, 1),
    ensures
        top.size.wf(),
        reaches(top, n as int),
        reaches(top, 100),
        reaches(top.negated(), n as int),
        reaches(top.negated(), 100),
{
    crate::single::lemma_small_nearest(n as int);
    crate::single::lemma_small_nearest(100);
    crate::single::law_nearest_grows(
        n as int,
        100,
        crate::single::nearest(n as int, 1),
        crate::single::nearest(100, 1),
    );
}

/// Zero is no further from zero than any limit.
proof fn lemma_zero_reaches(n: u32)
    requires
        0 < n <= 100,
    ensures
        reaches(Signed::part(0, 1), n as int),
        reaches(Signed::part(0, 1), 100),
        Signed::part(0, 1).size == crate::single::nought(),
        !Signed::part(0, 1).neg,
{
    crate::single::lemma_small_nearest(n as int);
    crate::single::lemma_small_nearest(100);
    crate::single::law_nearest_unique(0, 1, crate::single::nought());
}

/// A part of a limit is no further from zero than the limit.
proof fn lemma_part_of_limit(n: u32, k: Signed, low: Signed)
    requires
        0 < n <= 100,
        k.size.wf(),
        k.size.m > 0,
        -100 <= k.size.e <= 0,
        !crate::single::below(crate::single::one(), k.size),
        low == Signed::part(n as int, 1).negated().product(k),
        low.size.wf(),
    ensures
        reaches(low, n as int),
        reaches(low, 100),
{
    reveal(Signed::product);
    let a = crate::single::nearest(n as int, 1);
    lemma_limit(n, Signed::part(n as int, 1));
    crate::single::lemma_small_nearest(n as int);
    crate::single::lemma_small_nearest(100);
    crate::single::lemma_product_nearest(a, k.size);
    crate::single::law_times_share_shrinks(a, k.size, low.size);
}

/// What each kind of photo aims at lies in range.
proof fn lemma_targets(p: Preset)
    ensures
        ({
            let t = crate::enhance::targets(p);
            &&& 0 < t.exposure_max <= 100
            &&& 0 < t.contrast_max <= 100
            &&& 0 < t.shadow_max <= 100
            &&& 0 < t.black_max <= 100
            &&& 0 < t.white_max <= 100
            &&& 0 < t.dehaze_max <= 100
            &&& 0 < t.vibrance_max <= 100
            &&& 0 < t.sat_max <= 100
            &&& 0 < t.clarity_max <= 100
            &&& 0 < t.wb_max <= 100
            &&& 0 < t.shadow_floor
        }),
{
}

/// Is more than a twentieth of the pixels counted?
fn enough(count: u32, pixels: u32) -> (b: bool)
    ensures
        b == tells(count, pixels),
        b ==> count > 0,
{
    let least = Signed::of(pixels as u64, 1).times(Signed::of(5, 100));
    let b = least.less(Signed::of(count as u64, 1));
    proof {
        if count == 0 {
            crate::single::law_nearest_unique(0, 1, crate::single::nought());
        }
    }
    b
}

/// One count over another.
fn rate_of(a: u32, b: u32) -> (r: Signed)
    requires
        b > 0,
    ensures
        r == rate(a, b),
        r.within(224),
{
    Signed::of(a as u64, 1).over(Signed::of(b as u64, 1))
}

/// How far `v` has come from `a` to `b` hundredths.
fn between(a: u64, b: u64, v: Signed) -> (r: Signed)
    requires
        a > 0,
        b > 0,
        v.within(450),
    ensures
        r == smoothed(Signed::part(a as int, 100), Signed::part(b as int, 100), v),
        r.within(720),
        r.size.e <= 64,
{
    smoothstep(Signed::of(a, 100), Signed::of(b, 100), v)
}

/// The mean colour of the middle tones, and its brightness.
fn mean_of(s: &Stats) -> (r: (Signed, Signed, Signed, Signed))
    requires
        s.wf(),
        s.middle > 0,
    ensures
        r == mean_colour(*s),
        r.0.within(400),
        r.1.within(400),
        r.2.within(400),
        r.3.within(700),
{
    let n = Signed::of(s.middle as u64, 1);
    let r = s.red.over(n);
    let g = s.green.over(n);
    let b = s.blue.over(n);
    (r, g, b, r.plus(g).plus(b).over(Signed::of(3, 1)))
}

/// A cast as a setting.
fn cast_of(cast: Signed, by: u32, most: u32) -> (r: i32)
    requires
        cast.within(1400),
        0 < most <= 100,
    ensures
        r == settled(
            cast.product(mil(by)),
            Signed::part(most as int, 1).negated(),
            Signed::part(most as int, 1),
        ),
        -most <= r <= most,
{
    let top = Signed::of(most as u64, 1);
    let v = cast.times(Signed::of(by as u64, 1000));
    proof {
        lemma_limit(most, top);
        law_settled_within(v, top.negated(), top, most as int);
    }
    settle(v, top.negate(), top)
}

/// Warmth and tint that take a colour cast out.
fn balance_of(p: Preset, t: &Targets, s: &Stats) -> (r: (i32, i32))
    requires
        s.wf(),
        *t == crate::enhance::targets(p),
    ensures
        r.0 == balance(*t, *s).0,
        r.1 == balance(*t, *s).1,
        -t.wb_max <= r.0 <= t.wb_max,
        -t.wb_max <= r.1 <= t.wb_max,
{
    if !enough(s.middle, s.pixels) {
        return (0, 0);
    }
    let (r, g, b, avg) = mean_of(s);
    if !Signed::of(2, 100).less(avg) {
        return (0, 0);
    }
    proof {
        lemma_targets(p);
    }
    let cool = b.minus(r).over(avg);
    let green = g.minus(r.plus(b).over(Signed::of(2, 1))).over(avg);
    (cast_of(cool, t.wb, t.wb_max), cast_of(green, t.wb, t.wb_max))
}

/// `v` as a setting from 0 to its limit.
fn raised(v: Signed, most: u32) -> (r: i32)
    requires
        0 < most <= 100,
        v.size.wf(),
        v.size.m == 0 ==> !v.neg,
    ensures
        r == settled(v, Signed::part(0, 1), Signed::part(most as int, 1)),
        0 <= r <= most,
        v.size.m == 0 ==> r == 0,
{
    let top = Signed::of(most as u64, 1);
    proof {
        lemma_limit(most, top);
        lemma_zero_reaches(most);
        law_settled_within(v, Signed::part(0, 1), top, most as int);
        if v.size.m == 0 {
            lemma_nothing_settles(v, Signed::part(0, 1), top);
        }
    }
    settle(v, Signed::zero(), top)
}

/// How much haze is taken out.
fn haze_of(p: Preset, t: &Targets, s: &Stats) -> (r: i32)
    requires
        s.wf(),
        *t == crate::enhance::targets(p),
    ensures
        r == haze(*t, *s),
        0 <= r <= t.dehaze_max,
        s.veil.size.m == 0 ==> r == 0,
{
    let share = s.veil.over(Signed::of(22, 100)).times(Signed::of(100, 1)).max(Signed::zero());
    proof {
        lemma_targets(p);
    }
    raised(share.times(Signed::of(t.dehaze as u64, 1000)), t.dehaze_max)
}

/// How far blacks move.
fn blacks_of(p: Preset, t: &Targets, s: &Stats, dehaze: i32) -> (r: i32)
    requires
        s.wf(),
        *t == crate::enhance::targets(p),
        dehaze == haze(*t, *s),
        0 <= dehaze <= 100,
    ensures
        r == blacks(*t, *s),
        -t.black_max <= r <= 12,
{
    let hundred = Signed::of(100, 1);
    let taken = Signed::of(dehaze as u64, 1).over(hundred).times(Signed::of(22, 100));
    let gap = s.p01.minus(taken).max(Signed::zero());
    proof {
        lemma_targets(p);
    }
    if Signed::of(4, 1000).less(gap) {
        let v = gap.over(Signed::of(12, 100)).times(hundred).times(Signed::of(t.black as u64, 1000));
        -raised(v, t.black_max)
    } else if s.p05.less(Signed::of(12, 1000)) {
        let v = Signed::of(12, 1000).minus(s.p05).over(Signed::of(15, 100)).times(hundred).times(
            Signed::of(8, 10),
        );
        raised(v, 12)
    } else {
        0
    }
}

/// How far whites move.
fn whites_of(p: Preset, t: &Targets, s: &Stats) -> (r: i32)
    requires
        s.wf(),
        *t == crate::enhance::targets(p),
    ensures
        r == whites(*t, *s),
        -12 <= r <= t.white_max,
{
    let hundred = Signed::of(100, 1);
    let gap = Signed::of(1, 1).minus(s.p99).max(Signed::zero());
    proof {
        lemma_targets(p);
    }
    if Signed::of(1, 100).less(gap) {
        let v = gap.over(Signed::of(15, 100)).times(hundred).times(Signed::of(t.white as u64, 1000));
        raised(v, t.white_max)
    } else if Signed::of(985, 1000).less(s.p95) {
        let v = s.p95.minus(Signed::of(985, 1000)).over(Signed::of(15, 100)).times(hundred).times(
            Signed::of(2, 1),
        );
        -raised(v, 12)
    } else {
        0
    }
}

/// How much a dark photo may be lifted.
fn low_key_of(s: &Stats) -> (r: Signed)
    requires
        s.wf(),
    ensures
        r == low_key(*s),
        r.within(900),
        is_night(*s) ==> r.size.m == 0,
{
    let dark = between(55, 90, rate_of(s.dark, s.pixels));
    let lo = Signed::of(6, 100);
    let hi = Signed::of(22, 100);
    proof {
        lemma_dark_ends(lo.size, hi.size);
    }
    smoothstep(lo, hi, s.p50).times(Signed::of(1, 1).minus(dark))
}

/// How much a bright photo may be lowered.
fn high_key_of(s: &Stats) -> (r: Signed)
    requires
        s.wf(),
    ensures
        r == high_key(*s),
        r.within(900),
{
    let bright = between(45, 80, rate_of(s.bright, s.pixels));
    Signed::of(1, 1).minus(between(72, 92, s.p50)).times(Signed::of(1, 1).minus(bright))
}

/// Exposure that brings the middle of the picture to its target.
fn exposure_of(p: Preset, t: &Targets, s: &Stats, low: Signed) -> (r: i32)
    requires
        s.wf(),
        *t == crate::enhance::targets(p),
        low == low_key(*s),
        low.within(900),
    ensures
        r == exposure(*t, *s),
        -t.exposure_max <= r <= t.exposure_max,
        Signed::part(0, 1).lies_below(s.stops) && low.size.m == 0 ==> r == 0,
{
    if !Signed::of(4, 1000).less(s.p50) {
        return 0;
    }
    let damp = if Signed::zero().less(s.stops) {
        low
    } else {
        high_key_of(s)
    };
    let top = Signed::of(t.exposure_max as u64, 1);
    let v = s.stops.over(Signed::of(3, 1)).times(Signed::of(100, 1)).times(
        Signed::of(t.exposure as u64, 1000),
    ).times(damp);
    proof {
        lemma_targets(p);
        lemma_limit(t.exposure_max, top);
        law_settled_within(v, top.negated(), top, t.exposure_max as int);
        if v.size.m == 0 {
            lemma_nothing_settles(v, top.negated(), top);
        }
    }
    settle(v, top.negate(), top)
}

/// Contrast that brings dark and bright to their distance.
fn contrast_of(p: Preset, t: &Targets, s: &Stats) -> (r: i32)
    requires
        s.wf(),
        *t == crate::enhance::targets(p),
    ensures
        r == contrast(*t, *s),
        -t.contrast_max <= r <= t.contrast_max,
{
    let spread = s.p95.minus(s.p05).max(Signed::zero());
    let aim = Signed::of(t.spread as u64, 1000);
    let least = Signed::of(5, 100);
    let v = aim.minus(spread).over(aim.max(least)).times(Signed::of(100, 1)).times(
        Signed::of(t.contrast as u64, 1000),
    );
    proof {
        lemma_targets(p);
    }
    limited(t.contrast_max, v, 5)
}

/// `v` as a setting, from so many tenths of its limit below zero to its limit.
fn limited(most: u32, v: Signed, tenths: u64) -> (r: i32)
    requires
        0 < most <= 100,
        0 < tenths < 10,
        v.size.wf(),
    ensures
        r == settled(
            v,
            Signed::part(most as int, 1).negated().product(Signed::part(tenths as int, 10)),
            Signed::part(most as int, 1),
        ),
        -most <= r <= most,
{
    let top = Signed::of(most as u64, 1);
    let k = Signed::of(tenths, 10);
    let low = top.negate().times(k);
    proof {
        crate::single::lemma_fraction_is_share(tenths as int, 10, k.size);
        lemma_limit(most, top);
        lemma_part_of_limit(most, k, low);
        law_settled_within(v, low, top, most as int);
    }
    settle(v, low, top)
}

/// How far shadows are lifted.
fn shadows_of(p: Preset, t: &Targets, s: &Stats, low: Signed) -> (r: i32)
    requires
        s.wf(),
        *t == crate::enhance::targets(p),
        low == low_key(*s),
        low.within(900),
    ensures
        r == shadows(*t, *s),
        0 <= r <= t.shadow_max,
        low.size.m == 0 ==> r == 0,
{
    let floor = Signed::of(t.shadow_floor as u64, 1000);
    if !s.p25.less(floor) {
        return 0;
    }
    let v = floor.minus(s.p25).over(floor).times(Signed::of(100, 1)).times(
        Signed::of(t.shadow as u64, 1000),
    );
    proof {
        lemma_targets(p);
    }
    raised(v.times(low), t.shadow_max)
}

/// Vibrance and saturation.
fn colour_of(p: Preset, t: &Targets, s: &Stats) -> (r: (i32, i32))
    requires
        s.wf(),
        *t == crate::enhance::targets(p),
        s.coloured > 0,
    ensures
        r.0 == coloured(paleness(*t, *s), t.vibrance, t.vibrance_max),
        r.1 == coloured(paleness(*t, *s), t.sat, t.sat_max),
        -t.vibrance_max <= r.0 <= t.vibrance_max,
        -t.sat_max <= r.1 <= t.sat_max,
{
    let aim = Signed::of(t.chroma as u64, 1000);
    let cur = s.chroma.over(Signed::of(s.coloured as u64, 1));
    let gap = aim.minus(cur).over(aim.max(Signed::of(5, 100))).times(Signed::of(100, 1));
    let vibrance = gap.times(Signed::of(t.vibrance as u64, 1000));
    let sat = gap.times(Signed::of(t.sat as u64, 1000));
    proof {
        lemma_targets(p);
    }
    (limited(t.vibrance_max, vibrance, 6), limited(t.sat_max, sat, 6))
}

/// Clarity that brings local contrast to its target.
fn clarity_of(p: Preset, t: &Targets, s: &Stats) -> (r: i32)
    requires
        s.wf(),
        *t == crate::enhance::targets(p),
    ensures
        r == clarity(*t, *s),
        -t.clarity_max <= r <= t.clarity_max,
{
    let aim = Signed::of(t.local as u64, 1000);
    let v = aim.minus(s.local).over(aim.max(Signed::of(1, 100))).times(Signed::of(100, 1)).times(
        Signed::of(t.clarity as u64, 1000),
    );
    proof {
        lemma_targets(p);
    }
    limited(t.clarity_max, v, 6)
}

/// No setting passes its limit, and none leaves the range from -100 to 100.
pub open spec fn is_modest(t: Targets, g: Grade) -> bool {
    &&& -t.wb_max <= g.temp <= t.wb_max <= 100
    &&& -t.wb_max <= g.tint <= t.wb_max
    &&& -t.exposure_max <= g.exposure <= t.exposure_max <= 100
    &&& -t.contrast_max <= g.contrast <= t.contrast_max <= 100
    &&& g.brightness == 0
    &&& 0 <= g.shadows <= t.shadow_max <= 100
    &&& -12 <= g.whites <= t.white_max <= 100
    &&& -100 <= -t.black_max <= g.blacks <= 12
    &&& 0 <= g.dehaze <= t.dehaze_max <= 100
    &&& -t.vibrance_max <= g.vibrance <= t.vibrance_max <= 100
    &&& -t.sat_max <= g.saturation <= t.sat_max <= 100
    &&& -t.clarity_max <= g.clarity <= t.clarity_max <= 100
}

/// The settings that a photo of a kind calls for (see [`advice`]). Every one of them is a setting that
/// the photo can have (see [`is_modest`]); a night scene is not brightened, and no haze is taken out
/// where there is none.
pub fn advise(p: Preset, s: &Stats) -> (g: Grade)
    requires
        s.wf(),
    ensures
        g == advice(crate::enhance::targets(p), *s),
        is_modest(crate::enhance::targets(p), g),
        is_night(*s) ==> g.shadows == 0 && (Signed::part(0, 1).lies_below(s.stops) ==> g.exposure == 0),
        s.veil.size.m == 0 ==> g.dehaze == 0,
{
    let t = Targets::of(p);
    proof {
        lemma_targets(p);
    }
    let (temp, tint) = balance_of(p, &t, s);
    let dehaze: i32 = haze_of(p, &t, s);
    let low = low_key_of(s);
    let blacks: i32 = blacks_of(p, &t, s, dehaze);
    let whites: i32 = whites_of(p, &t, s);
    let exposure: i32 = exposure_of(p, &t, s, low);
    let contrast: i32 = contrast_of(p, &t, s);
    let shadows: i32 = shadows_of(p, &t, s, low);
    let (vibrance, saturation) = if enough(s.coloured, s.pixels) {
        colour_of(p, &t, s)
    } else {
        (0, 0)
    };
    let clarity: i32 = clarity_of(p, &t, s);
    Grade {
        temp,
        tint,
        exposure,
        contrast,
        brightness: 0,
        shadows,
        whites,
        blacks,
        dehaze,
        vibrance,
        saturation,
        clarity,
    }
}

/// Nothing times anything is nothing.
proof fn lemma_product_with_zero(a: Signed, z: Signed)
    requires
        z.size.m == 0,
    ensures
        a.product(z).size == crate::single::nought(),
        !a.product(z).neg,
        z.product(a).size == crate::single::nought(),
        !z.product(a).neg,
{
    reveal(Signed::product);
    assert(a.size.m * z.size.m == 0 && z.size.m * a.size.m == 0) by (nonlinear_arith)
        requires
            z.size.m == 0,
    ;
    assert(crate::single::is_nearest(0, 1, crate::single::nought()));
    crate::single::law_nearest_unique(0, 1, crate::single::nought());
}

/// What has not left the start has not come anywhere.
proof fn lemma_not_started(lo: Signed, hi: Signed, v: Signed)
    requires
        lo.size.wf(),
        !lo.neg,
        lo.size.m > 0,
        lo.lies_below(hi),
        v.wf(),
        !lo.lies_below(v),
        hi.less_by(lo).size.m > 0,
        !hi.less_by(lo).neg,
    ensures
        smoothed(lo, hi, v).size.m == 0,
{
    reveal(Signed::sum);
    reveal(Signed::quotient);
    let width = hi.less_by(lo);
    let d = v.less_by(lo);
    let q = d.quotient(width);
    let zero = Signed::part(0, 1);
    crate::single::law_nearest_unique(0, 1, crate::single::nought());
    if !d.neg {
        assert(!v.neg);
        assert(v == lo);
        assert(lo.size.m * crate::single::up(0) - lo.size.m == 0) by (nonlinear_arith)
            requires
                crate::single::up(0) == 1,
        ;
        assert(d.size == crate::single::nought());
        assert(crate::single::is_nearest(0, width.size.m as int, crate::single::nought()));
        crate::single::law_nearest_unique(0, width.size.m as int, crate::single::nought());
        assert(q == zero);
    }
    let t = q.clamped(zero, Signed::part(1, 1));
    lemma_one_is_not_negative();
    assert(t.size.m == 0);
    lemma_product_with_zero(t, t);
    lemma_product_with_zero(
        Signed::part(3, 1).less_by(Signed::part(2, 1).product(t)),
        t.product(t),
    );
}

proof fn lemma_one_is_not_negative()
    ensures
        Signed::part(1, 1).size == crate::single::one(),
{
    crate::single::lemma_one();
}

/// The start at 6 hundredths lies below the end at 22.
proof fn lemma_dark_ends(lo: Single, hi: Single)
    requires
        lo.wf(),
        hi.wf(),
        crate::single::is_nearest(6, 100, lo),
        crate::single::is_nearest(22, 100, hi),
        lo.m > 0,
        hi.m > 0,
    ensures
        crate::single::below(lo, hi),
{
    vstd::arithmetic::power2::lemma2_to64();
    vstd::arithmetic::power2::lemma2_to64_rest();
    assert(crate::single::up(28) == 0x1000_0000 && crate::single::up(26) == 0x400_0000);
    assert(100 * crate::single::up(-28) == 100 && 100 * crate::single::up(-26) == 100);
    crate::single::lemma_exponent_upto(6, 100, lo, -28);
    crate::single::lemma_exponent_from(22, 100, hi, -26);
}

} // verus!
