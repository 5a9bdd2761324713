//! How strong an effect has to be on a smaller copy of a photo, to look as it will on the photo.
//!
//! The smoke in a large photo is estimated from the darkest pixel of each block, so more of it is
//! overlooked the larger the blocks are. The strength makes up for that: it grows with the photo's
//! long edge, to the power of 7/100.

use vstd::prelude::*;

use crate::natural::Natural;
use crate::scale::{FAST_WORK_EDGE, WORK_LONG_EDGE};
use crate::single::Single;

verus! {

/// Significand of 1.5, the largest gain.
pub const GAIN_CAP: u64 = 0xC0_0000;

/// `n / 2^24` is no larger than `x` to the power of 7/100.
pub open spec fn reaches(x: Single, n: int) -> bool {
    crate::natural::raised(n, 100) * crate::natural::raised(crate::single::up(-x.e), 7)
        <= crate::natural::raised(x.m as int, 7) * crate::natural::raised(0x100_0000, 100)
}

/// `m / 2^23` is the number nearest to `x` to the power of 7/100, kept from 1 to 1.5.
pub open spec fn is_gain(x: Single, m: int) -> bool {
    &&& crate::single::LOW <= m <= GAIN_CAP
    &&& m > crate::single::LOW ==> reaches(x, 2 * m - 1)
    &&& m < GAIN_CAP ==> !reaches(x, 2 * m + 1)
}

/// How many times the edge that smoke is estimated at goes into the photo's long edge.
pub open spec fn excess(long: int, edge: int) -> Single {
    crate::single::quotient(crate::single::nearest(long, 1), crate::single::nearest(edge, 1))
}

/// What a strength is multiplied by on a photo with long edge `long`.
pub open spec fn gain(long: int, edge: int) -> Single {
    if long <= edge {
        crate::single::one()
    } else {
        Single { m: (choose|m: int| is_gain(excess(long, edge), m)) as u64, e: -23i32 }
    }
}

/// No two numbers are the gain.
pub proof fn law_gain_unique(x: Single, a: int, b: int)
    requires
        is_gain(x, a),
        is_gain(x, b),
    ensures
        a == b,
{
    if a < b {
        lemma_reaches_less(x, 2 * a + 1, 2 * b - 1);
    } else if b < a {
        lemma_reaches_less(x, 2 * b + 1, 2 * a - 1);
    }
}

proof fn lemma_reaches_less(x: Single, n: int, k: int)
    requires
        0 <= n <= k,
        reaches(x, k),
    ensures
        reaches(x, n),
{
    crate::natural::lemma_raised_grows(n, k, 100);
    let t = crate::natural::raised(crate::single::up(-x.e), 7);
    crate::single::lemma_up_pos(-x.e);
    crate::natural::lemma_raised_positive(crate::single::up(-x.e), 7);
    assert(crate::natural::raised(n, 100) * t <= crate::natural::raised(k, 100) * t)
        by (nonlinear_arith)
        requires
            crate::natural::raised(n, 100) <= crate::natural::raised(k, 100),
            t > 0,
    ;
}

/// Is `n / 2^24` no larger than `x` to the power of 7/100? `p` is the denominator of `x`, and `full`
/// the right side of the comparison.
fn reached(x: Single, full: &Natural, p: u32, n: u32) -> (b: bool)
    requires
        p == crate::single::up(-x.e),
        full.value() == crate::natural::raised(x.m as int, 7) * crate::natural::raised(
            0x100_0000,
            100,
        ),
    ensures
        b == reaches(x, n as int),
{
    let left = Natural::one().times_power(n, 100).times_power(p, 7);
    proof {
        let r = crate::natural::raised(n as int, 100);
        assert(1 * r == r);
    }
    left.at_most(full)
}

/// What a strength is multiplied by on a photo with long edge `long`, where smoke is estimated at
/// long edge `edge`: the number nearest to the power of 7/100 of how many times one goes into the
/// other, from 1 to 1.5.
pub fn pool_gain_at(long: u32, edge: u32) -> (g: Single)
    requires
        edge >= 1024,
    ensures
        g == gain(long as int, edge as int),
        g.wf(),
        g.e == -23,
        g.m >= crate::single::LOW,
{
    if long <= edge {
        return Single::unit();
    }
    let a = Single::of(long as u64);
    let b = Single::of(edge as u64);
    let x = a.over(b);
    proof {
        lemma_excess(long as int, edge as int, a, b, x);
    }
    let p: u32 = two_to((0 - x.e) as u32);
    let full = Natural::one().times_power(x.m as u32, 7).times_power(0x100_0000, 100);
    proof {
        let r = crate::natural::raised(x.m as int, 7);
        assert(1 * r == r);
    }
    let mut lo: u32 = 0x80_0000;
    let mut hi: u32 = 0xC0_0000;
    while lo < hi
        invariant
            0x80_0000 <= lo <= hi <= 0xC0_0000,
            p == crate::single::up(-x.e),
            full.value() == crate::natural::raised(x.m as int, 7) * crate::natural::raised(
                0x100_0000,
                100,
            ),
            lo > 0x80_0000 ==> reaches(x, 2 * lo - 1),
            hi < 0xC0_0000 ==> !reaches(x, 2 * hi + 1),
        decreases hi - lo,
    {
        let mid: u32 = (lo + hi + 1) / 2;
        if reached(x, &full, p, 2 * mid - 1) {
            lo = mid;
        } else {
            hi = mid - 1;
        }
    }
    proof {
        assert(is_gain(x, lo as int));
        let m = choose|m: int| is_gain(x, m);
        law_gain_unique(x, lo as int, m);
    }
    Single { m: lo as u64, e: -23 }
}

fn two_to(k: u32) -> (p: u32)
    requires
        k <= 30,
    ensures
        p == crate::single::up(k as int),
{
    let mut p: u32 = 1;
    let mut i: u32 = 0;
    while i < k
        invariant
            i <= k <= 30,
            p == crate::single::up(i as int),
        decreases k - i,
    {
        proof {
            vstd::arithmetic::power2::lemma2_to64();
            vstd::arithmetic::power2::lemma_pow2_unfold((i + 1) as nat);
            if i < 29 {
                vstd::arithmetic::power2::lemma_pow2_strictly_increases(i as nat, 29);
            }
        }
        p = p * 2;
        i += 1;
    }
    p
}

/// A photo that exceeds an edge of at least 1024 does so by a factor with an exponent from -24 to 0.
proof fn lemma_excess(long: int, edge: int, a: Single, b: Single, x: Single)
    requires
        1024 <= edge < long <= u32::MAX,
        a.wf(),
        b.wf(),
        x.wf(),
        crate::single::is_nearest(long, 1, a),
        crate::single::is_nearest(edge, 1, b),
        a.m > 0,
        b.m > 0,
        a.e <= 9,
        x.m > 0,
        a.e - b.e - 24 <= x.e <= a.e - b.e - 22,
    ensures
        -30 <= x.e <= 0,
{
    vstd::arithmetic::power2::lemma2_to64();
    crate::single::lemma_exponent_grows(edge, long, b, a);
    assert(edge * crate::single::up(13) >= crate::single::LOW) by (nonlinear_arith)
        requires
            edge >= 1024,
            crate::single::up(13) == 0x2000,
            crate::single::LOW == 0x80_0000,
    ;
    crate::single::lemma_exponent_from(edge, 1, b, -13);
}

/// A strength for another size: multiplied by the one gain and divided by the other, rounded, and
/// kept from 0 to 100.
pub open spec fn bent(strength: int, to: Single, from: Single) -> int {
    if strength <= 0 {
        0
    } else {
        crate::scale::within(
            crate::single::round(
                crate::single::product(
                    crate::single::nearest(strength, 1),
                    crate::single::quotient(to, from),
                ),
            ),
            0,
            100,
        )
    }
}

fn bend(strength: i32, to: Single, from: Single) -> (r: i32)
    requires
        to.wf(),
        from.wf(),
        to.e == -23,
        from.e == -23,
        to.m >= crate::single::LOW,
        from.m >= crate::single::LOW,
    ensures
        r == bent(strength as int, to, from),
        0 <= r <= 100,
{
    if strength <= 0 {
        return 0;
    }
    let k = to.over(from);
    let v: u64 = Single::of(strength as u64).times(k).round();
    if v > 100 {
        100
    } else {
        v as i32
    }
}

/// The strength to use on a copy with long edge `preview_long` of a photo with long edge
/// `source_long`, so that the copy looks as the photo will.
pub fn preview_strength(strength: i32, source_long: u32, preview_long: u32) -> (r: i32)
    ensures
        r == bent(
            strength as int,
            gain(preview_long as int, WORK_LONG_EDGE as int),
            gain(source_long as int, WORK_LONG_EDGE as int),
        ),
        0 <= r <= 100,
{
    let to = pool_gain_at(preview_long, WORK_LONG_EDGE);
    let from = pool_gain_at(source_long, WORK_LONG_EDGE);
    bend(strength, to, from)
}

/// The strength to use when smoke is estimated at the smaller edge, to take out as much as at the
/// usual one.
pub fn fast_strength(strength: i32, long: u32) -> (r: i32)
    ensures
        r == bent(
            strength as int,
            gain(long as int, FAST_WORK_EDGE as int),
            gain(long as int, WORK_LONG_EDGE as int),
        ),
        0 <= r <= 100,
{
    let to = pool_gain_at(long, FAST_WORK_EDGE);
    let from = pool_gain_at(long, WORK_LONG_EDGE);
    bend(strength, to, from)
}

/// Nothing is bent while neither picture exceeds the edge that smoke is estimated at.
pub proof fn law_small_photos_are_not_bent(strength: int, source_long: int, preview_long: int)
    requires
        0 <= strength <= 100,
        source_long <= WORK_LONG_EDGE,
        preview_long <= WORK_LONG_EDGE,
    ensures
        bent(
            strength,
            gain(preview_long, WORK_LONG_EDGE as int),
            gain(source_long, WORK_LONG_EDGE as int),
        ) == strength,
{
    if strength > 0 {
        let one = crate::single::one();
        lemma_one_over_one();
        crate::single::lemma_small_nearest(strength);
        let b = crate::single::nearest(strength, 1);
        crate::single::law_times_one(b);
        crate::single::law_round_within(b, strength, b);
    }
}

/// The size of a copy does not matter as long as it does not exceed the edge that smoke is estimated
/// at.
pub proof fn law_small_previews_are_alike(strength: int, source_long: int, a: int, b: int)
    requires
        a <= WORK_LONG_EDGE,
        b <= WORK_LONG_EDGE,
    ensures
        bent(strength, gain(a, WORK_LONG_EDGE as int), gain(source_long, WORK_LONG_EDGE as int))
            == bent(
            strength,
            gain(b, WORK_LONG_EDGE as int),
            gain(source_long, WORK_LONG_EDGE as int),
        ),
{
}

proof fn lemma_one_over_one()
    ensures
        crate::single::quotient(crate::single::one(), crate::single::one()) == crate::single::one(),
{
    crate::single::lemma_equal_ratio(crate::single::LOW as int);
}

/// What a photo exceeds an edge by grows with the photo.
proof fn lemma_excess_grows(a: int, b: int, edge: int)
    requires
        1024 <= edge < a <= b <= u32::MAX,
    ensures
        crate::rounding::at_most(excess(a, edge), excess(b, edge)),
        excess(a, edge).wf(),
        excess(b, edge).wf(),
        excess(a, edge).m > 0,
        excess(b, edge).m > 0,
        -30 <= excess(a, edge).e,
        excess(b, edge).e <= 0,
{
    vstd::arithmetic::power2::lemma2_to64();
    crate::single::lemma_up_add(32, 168);
    crate::single::lemma_up_pos(168);
    assert(u32::MAX < crate::single::up(200)) by (nonlinear_arith)
        requires
            crate::single::up(200) == crate::single::up(32) * crate::single::up(168),
            crate::single::up(32) == 0x1_0000_0000,
            crate::single::up(168) >= 1,
    ;
    crate::rounding::lemma_has_nearest(a, 200);
    crate::rounding::lemma_has_nearest(b, 200);
    crate::rounding::lemma_has_nearest(edge, 200);
    let x = crate::single::nearest(a, 1);
    let y = crate::single::nearest(b, 1);
    let k = crate::single::nearest(edge, 1);
    crate::single::law_nearest_grows(a, b, x, y);
    crate::single::law_nearest_grows(edge, a, k, x);
    crate::rounding::law_quotient_keeps_order(x, y, k);
    crate::rounding::law_quotient_keeps_order(k, x, k);
    crate::single::lemma_equal_ratio(k.m as int);
    assert(edge * crate::single::up(13) >= crate::single::LOW) by (nonlinear_arith)
        requires
            edge >= 1024,
            crate::single::up(13) == 0x2000,
            crate::single::LOW == 0x80_0000,
    ;
    crate::single::lemma_exponent_from(edge, 1, k, -13);
    crate::single::lemma_exponent_upto(b, 1, y, 8);
    crate::rounding::lemma_quotient_exponent(y, k);
}

/// A number reaches at least as far as a smaller one.
proof fn lemma_reaches_more(x: Single, y: Single, n: int)
    requires
        x.wf(),
        y.wf(),
        x.m > 0,
        y.m > 0,
        x.e <= 0,
        y.e <= 0,
        crate::rounding::at_most(x, y),
        n >= 0,
        reaches(x, n),
    ensures
        reaches(y, n),
{
    crate::single::law_below_is_order(y, x, x.e as int);
    let t = crate::single::up(y.e - x.e);
    let p = crate::single::up(-x.e);
    let q = crate::single::up(-y.e);
    crate::single::lemma_up_add(-y.e, y.e - x.e);
    crate::single::lemma_up_pos(y.e - x.e);
    crate::single::lemma_up_pos(-y.e);
    crate::single::lemma_up_pos(-x.e);
    assert(x.m * crate::single::up(0) == x.m);
    assert(x.m * q <= y.m * p) by (nonlinear_arith)
        requires
            x.m <= y.m * t,
            p == q * t,
            q >= 1,
            t >= 1,
    ;
    crate::natural::lemma_raised_grows(x.m * q, y.m * p, 7);
    crate::natural::lemma_raised_product(x.m as int, q, 7);
    crate::natural::lemma_raised_product(y.m as int, p, 7);
    crate::natural::lemma_raised_positive(p, 7);
    crate::natural::lemma_raised_positive(q, 7);
    let xm = crate::natural::raised(x.m as int, 7);
    let ym = crate::natural::raised(y.m as int, 7);
    let p7 = crate::natural::raised(p, 7);
    let q7 = crate::natural::raised(q, 7);
    let n100 = crate::natural::raised(n, 100);
    let all = crate::natural::raised(0x100_0000, 100);
    crate::natural::lemma_raised_positive(0x100_0000, 100);
    assert(n100 * q7 <= ym * all) by (nonlinear_arith)
        requires
            n100 * p7 <= xm * all,
            xm * q7 <= ym * p7,
            p7 > 0,
            q7 > 0,
            all > 0,
    ;
}

/// A larger photo has no smaller gain.
pub proof fn law_gain_grows(a: int, b: int, edge: int)
    requires
        1024 <= edge,
        0 <= a <= b <= u32::MAX,
    ensures
        gain(a, edge).wf(),
        gain(b, edge).wf(),
        gain(a, edge).e == -23,
        gain(b, edge).e == -23,
        crate::single::LOW <= gain(a, edge).m <= gain(b, edge).m <= GAIN_CAP,
{
    if b > edge {
        let y = excess(b, edge);
        lemma_excess_grows(b, b, edge);
        let v = choose|m: int| is_gain(y, m);
        lemma_gain_exists(y, crate::single::LOW as int, GAIN_CAP as int);
        if a > edge {
            let x = excess(a, edge);
            lemma_excess_grows(a, b, edge);
            let u = choose|m: int| is_gain(x, m);
            lemma_gain_exists(x, crate::single::LOW as int, GAIN_CAP as int);
            if u > v {
                lemma_reaches_less(x, 2 * v + 1, 2 * u - 1);
                lemma_reaches_more(x, y, 2 * v + 1);
            }
        }
    }
}

/// There is a gain.
proof fn lemma_gain_exists(x: Single, lo: int, hi: int)
    requires
        crate::single::LOW <= lo <= hi <= GAIN_CAP,
        lo > crate::single::LOW ==> reaches(x, 2 * lo - 1),
        hi < GAIN_CAP ==> !reaches(x, 2 * hi + 1),
    ensures
        exists|m: int| is_gain(x, m),
    decreases hi - lo,
{
    if lo == hi {
        assert(is_gain(x, lo));
    } else if reaches(x, 2 * lo + 1) {
        lemma_gain_exists(x, lo + 1, hi);
    } else {
        lemma_gain_exists(x, lo, lo);
    }
}

/// A higher setting never gives a lower strength.
pub proof fn law_higher_setting_is_no_lower(s: int, t: int, to: Single, from: Single)
    requires
        s <= t <= i32::MAX,
        to.wf() && to.e == -23 && to.m >= crate::single::LOW,
        from.wf() && from.e == -23 && from.m >= crate::single::LOW,
    ensures
        0 <= bent(s, to, from) <= bent(t, to, from) <= 100,
{
    if s > 0 {
        vstd::arithmetic::power2::lemma2_to64();
        crate::single::lemma_up_add(32, 168);
        crate::single::lemma_up_pos(168);
        assert(i32::MAX < crate::single::up(200)) by (nonlinear_arith)
            requires
                crate::single::up(200) == crate::single::up(32) * crate::single::up(168),
                crate::single::up(32) == 0x1_0000_0000,
                crate::single::up(168) >= 1,
        ;
        crate::rounding::lemma_has_nearest(s, 200);
        crate::rounding::lemma_has_nearest(t, 200);
        let a = crate::single::nearest(s, 1);
        let b = crate::single::nearest(t, 1);
        crate::single::law_nearest_grows(s, t, a, b);
        let k = crate::single::quotient(to, from);
        crate::rounding::law_quotient_keeps_order(to, to, from);
        crate::rounding::law_product_keeps_order(a, b, k);
        crate::rounding::law_rounding_keeps_order(
            crate::single::product(a, k),
            crate::single::product(b, k),
        );
    }
}

/// A copy that is no larger than the photo is never treated more strongly than the photo.
pub proof fn law_preview_is_no_stronger(strength: int, source_long: int, preview_long: int)
    requires
        0 <= strength <= 100,
        0 <= preview_long <= source_long <= u32::MAX,
    ensures
        bent(
            strength,
            gain(preview_long, WORK_LONG_EDGE as int),
            gain(source_long, WORK_LONG_EDGE as int),
        ) <= strength,
{
    if strength > 0 {
        let edge = WORK_LONG_EDGE as int;
        law_gain_grows(preview_long, source_long, edge);
        let to = gain(preview_long, edge);
        let from = gain(source_long, edge);
        crate::single::lemma_small_nearest(strength);
        let b = crate::single::nearest(strength, 1);
        if to.m == from.m {
            crate::single::lemma_equal_ratio(to.m as int);
            crate::single::law_times_one(b);
            crate::single::law_round_within(b, strength, b);
        } else {
            crate::single::lemma_fraction_nearest(to.m as int, from.m as int);
            let k = crate::single::quotient(to, from);
            crate::single::lemma_product_nearest(b, k);
            let p = crate::single::product(b, k);
            crate::single::law_times_share_shrinks(b, k, p);
            crate::single::law_round_within(p, strength, b);
        }
    }
}

} // verus!
