//! What each setting of a grade does to a colour, as numbers that are not rounded.

use vstd::prelude::*;

use crate::grade::Grade;
use crate::signed::{Colour, Signed};

verus! {

/// A number lies within so many 2^-24 of a real number, in a range of exponents.
spec fn is_at(s: Signed, x: real, a: real, k: int) -> bool {
    s.within(k) && crate::worth::extent(s.worth() - x) * (0x100_0000 as real) <= a
}

/// Two real numbers are no further apart than a ten thousandth: much less than a level of a byte.
pub open spec fn is_like(x: real, y: real) -> bool {
    crate::worth::extent(x - y) * (10_000 as real) <= 1 as real
}

/// The real number, kept from 0 to 1.
pub open spec fn kept_in(x: real) -> real {
    if x < 0 as real {
        0 as real
    } else if x > 1 as real {
        1 as real
    } else {
        x
    }
}

/// A colour with channels from 0 to 1.
pub open spec fn is_shown(c: Colour) -> bool {
    &&& c.0.within(1000) && 0 as real <= c.0.worth() <= 1 as real
    &&& c.1.within(1000) && 0 as real <= c.1.worth() <= 1 as real
    &&& c.2.within(1000) && 0 as real <= c.2.worth() <= 1 as real
}

/// The colour is `x`, `y` and `z`, each kept from 0 to 1, but for what rounding leaves of them.
pub open spec fn is_colour(c: Colour, x: real, y: real, z: real) -> bool {
    &&& is_like(c.0.worth(), kept_in(x))
    &&& is_like(c.1.worth(), kept_in(y))
    &&& is_like(c.2.worth(), kept_in(z))
}

/// Brightness as televisions had it.
pub open spec fn weighed(c: Colour) -> real {
    (c.0.worth() * (299 as real) + c.1.worth() * (587 as real) + c.2.worth() * (114 as real)) / (
    1000 as real)
}

/// No setting at all.
pub open spec fn untouched() -> Grade {
    Grade {
        temp: 0,
        tint: 0,
        exposure: 0,
        contrast: 0,
        brightness: 0,
        shadows: 0,
        whites: 0,
        blacks: 0,
        dehaze: 0,
        vibrance: 0,
        saturation: 0,
        clarity: 0,
    }
}

/// A sum.
proof fn lemma_at_sum(s: Signed, t: Signed, x: real, y: real, a: real, b: real, k: int)
    requires
        is_at(s, x, a, k),
        is_at(t, y, b, k),
        0 <= k <= 15_000,
        0 as real <= a <= 100_000 as real,
        0 as real <= b <= 100_000 as real,
    ensures
        is_at(s.sum(t), x + y, a + b + crate::worth::extent(x + y) + (1 as real), k + 25),
{
    crate::worth::law_sum_is_close(s, t);
}

/// A difference.
proof fn lemma_at_less(s: Signed, t: Signed, x: real, y: real, a: real, b: real, k: int)
    requires
        is_at(s, x, a, k),
        is_at(t, y, b, k),
        0 <= k <= 15_000,
        0 as real <= a <= 100_000 as real,
        0 as real <= b <= 100_000 as real,
    ensures
        is_at(s.less_by(t), x - y, a + b + crate::worth::extent(x - y) + (1 as real), k + 25),
{
    crate::worth::law_difference_is_close(s, t);
}

/// A product: `u` and `v` bound what is multiplied.
proof fn lemma_at_product(
    s: Signed,
    t: Signed,
    x: real,
    y: real,
    a: real,
    b: real,
    u: real,
    v: real,
    k: int,
    j: int,
)
    requires
        is_at(s, x, a, k),
        is_at(t, y, b, j),
        0 <= k <= 15_000,
        0 <= j <= 15_000,
        crate::worth::extent(x) <= u <= 1000 as real,
        crate::worth::extent(y) <= v <= 1000 as real,
        0 as real <= a <= 1000 as real,
        0 as real <= b <= 1000 as real,
    ensures
        is_at(s.product(t), x * y, a * v + u * b + u * v + (2 as real), k + j + 100),
        crate::worth::extent(x * y) <= u * v,
{
    let q = 0x100_0000 as real;
    let (c, d) = (s.worth() - x, t.worth() - y);
    crate::worth::lemma_extent(c, y);
    crate::worth::lemma_extent(x, d);
    crate::worth::lemma_extent(c, d);
    crate::worth::lemma_extent(x, y);
    let p = s.worth() * t.worth();
    let (cy, xd, cd, xy) = (c * y, x * d, c * d, x * y);
    assert(p == xy + cy + xd + cd) by (nonlinear_arith)
        requires
            p == (x + c) * (y + d),
            cy == c * y,
            xd == x * d,
            cd == c * d,
            xy == x * y,
    ;
    let (ec, ed, ex, ey) = (
        crate::worth::extent(c),
        crate::worth::extent(d),
        crate::worth::extent(x),
        crate::worth::extent(y),
    );
    assert(ec * ey * q <= a * v) by (nonlinear_arith)
        requires
            ec * q <= a,
            0 as real <= ey <= v,
            0 as real <= ec,
            0 as real <= a,
    ;
    assert(ex * ed * q <= u * b) by (nonlinear_arith)
        requires
            ed * q <= b,
            0 as real <= ex <= u,
            0 as real <= ed,
            0 as real <= b,
    ;
    assert(ec * ed * q <= 1 as real) by (nonlinear_arith)
        requires
            ec * q <= 1000 as real,
            ed * q <= 1000 as real,
            0 as real <= ec,
            0 as real <= ed,
            q == 0x100_0000 as real,
    ;
    assert(ex * ey <= u * v) by (nonlinear_arith)
        requires
            0 as real <= ex <= u,
            0 as real <= ey <= v,
    ;
    assert(a * v <= 1_000_000 as real && u * b <= 1_000_000 as real) by (nonlinear_arith)
        requires
            0 as real <= a <= 1000 as real,
            0 as real <= v <= 1000 as real,
            0 as real <= b <= 1000 as real,
            0 as real <= u <= 1000 as real,
    ;
    assert(crate::worth::extent(cy) == ec * ey && crate::worth::extent(xd) == ex * ed
        && crate::worth::extent(cd) == ec * ed);
    crate::worth::law_product_is_close(s, t);
}

/// A part of one.
proof fn lemma_at_part(num: int, den: int)
    requires
        0 <= num <= den <= 1_000_000,
        0 < den,
    ensures
        is_at(Signed::part(num, den), (num as real) / (den as real), 1 as real, 100),
{
    crate::worth::law_part_is_close(num, den);
    crate::worth::lemma_about_part(num, den);
}

/// A number kept from 0 to 1.
proof fn lemma_at_unit(s: Signed, x: real, a: real, k: int)
    requires
        is_at(s, x, a, k),
        100 <= k,
        0 as real <= a <= 1600 as real,
    ensures
        is_like(crate::clear::unit(s).worth(), kept_in(x)),
        crate::clear::unit(s).within(k),
{
    let (zero, one) = (Signed::part(0, 1), Signed::part(1, 1));
    crate::worth::law_integer_is_exact(0);
    crate::worth::law_integer_is_exact(1);
    crate::worth::law_order_is_by_worth(s, zero);
    crate::worth::law_order_is_by_worth(one, s);
}

/// A setting.
proof fn lemma_at_setting(n: i32)
    requires
        crate::grade::is_setting(n),
    ensures
        is_at(Signed::integer(n as int), n as real, 0 as real, 100),
        crate::worth::extent(n as real) <= 100 as real,
{
    crate::worth::lemma_about_signed_integer(n as int);
    if n < 0 {
        crate::worth::law_integer_is_exact(-n as int);
    } else {
        crate::worth::law_integer_is_exact(n as int);
    }
}

/// The brightness of a colour.
proof fn lemma_luma(c: Colour)
    requires
        is_shown(c),
    ensures
        is_at(crate::grade::luma(c), weighed(c), 18 as real, 2150),
        0 as real <= weighed(c) <= 1 as real,
{
    lemma_at_part(299, 1000);
    lemma_at_part(587, 1000);
    lemma_at_part(114, 1000);
    let (r, g, b) = (
        (299 as real) / (1000 as real),
        (587 as real) / (1000 as real),
        (114 as real) / (1000 as real),
    );
    lemma_sum_of_parts(c, Signed::part(299, 1000), Signed::part(587, 1000), Signed::part(114, 1000), r, g, b);
}

/// Parts of the three channels, added up.
proof fn lemma_sum_of_parts(c: Colour, i: Signed, j: Signed, k: Signed, r: real, g: real, b: real)
    requires
        is_shown(c),
        is_at(i, r, 1 as real, 1000),
        is_at(j, g, 1 as real, 1000),
        is_at(k, b, 1 as real, 1000),
        0 as real <= r <= 1 as real,
        0 as real <= g <= 1 as real,
        0 as real <= b <= 1 as real,
        r + g + b == 1 as real,
    ensures
        is_at(
            c.0.product(i).sum(c.1.product(j)).sum(c.2.product(k)),
            c.0.worth() * r + c.1.worth() * g + c.2.worth() * b,
            18 as real,
            2150,
        ),
        0 as real <= c.0.worth() * r + c.1.worth() * g + c.2.worth() * b <= 1 as real,
{
    let (z, o) = (0 as real, 1 as real);
    let (x, y, w) = (c.0.worth(), c.1.worth(), c.2.worth());
    lemma_at_product(c.0, i, x, r, z, o, o, o, 1000, 1000);
    lemma_at_product(c.1, j, y, g, z, o, o, o, 1000, 1000);
    lemma_at_product(c.2, k, w, b, z, o, o, o, 1000, 1000);
    assert(0 as real <= x * r <= r && 0 as real <= y * g <= g && 0 as real <= w * b <= b)
        by (nonlinear_arith)
        requires
            0 as real <= x <= 1 as real,
            0 as real <= y <= 1 as real,
            0 as real <= w <= 1 as real,
            0 as real <= r,
            0 as real <= g,
            0 as real <= b,
    ;
    let four = 4 as real;
    lemma_at_sum(c.0.product(i), c.1.product(j), x * r, y * g, four, four, 2100);
    lemma_at_sum(
        c.0.product(i).sum(c.1.product(j)),
        c.2.product(k),
        x * r + y * g,
        w * b,
        10 as real,
        four,
        2125,
    );
}

/// The colour further from a grey, or nearer to it.
proof fn lemma_coloured(
    c: Colour,
    grey: Signed,
    y: Signed,
    k: Signed,
    g: real,
    l: real,
    s: real,
)
    requires
        is_shown(c),
        is_at(grey, g, 400 as real, 10_000),
        is_at(y, l, 18 as real, 2150),
        is_at(k, s, 200 as real, 7_000),
        0 as real <= l <= 1 as real,
        crate::worth::extent(g) <= 10 as real,
        crate::worth::extent(s) <= 6 as real,
    ensures
        ({
            let d = crate::grade::in_unit(crate::grade::coloured(c, grey, y, k));
            &&& is_colour(
                d,
                g + (c.0.worth() - l) * s,
                g + (c.1.worth() - l) * s,
                g + (c.2.worth() - l) * s,
            )
            &&& d.0.within(15_000)
            &&& d.1.within(15_000)
            &&& d.2.within(15_000)
        }),
{
    lemma_coloured_channel(c.0, grey, y, k, g, l, s);
    lemma_coloured_channel(c.1, grey, y, k, g, l, s);
    lemma_coloured_channel(c.2, grey, y, k, g, l, s);
}

/// One channel of a colour further from a grey, or nearer to it.
proof fn lemma_coloured_channel(
    v: Signed,
    grey: Signed,
    y: Signed,
    k: Signed,
    g: real,
    l: real,
    s: real,
)
    requires
        v.within(1000),
        0 as real <= v.worth() <= 1 as real,
        is_at(grey, g, 400 as real, 10_000),
        is_at(y, l, 18 as real, 2150),
        is_at(k, s, 200 as real, 7_000),
        0 as real <= l <= 1 as real,
        crate::worth::extent(g) <= 10 as real,
        crate::worth::extent(s) <= 6 as real,
    ensures
        ({
            let d = crate::clear::unit(grey.sum(v.less_by(y).product(k)));
            is_like(d.worth(), kept_in(g + (v.worth() - l) * s)) && d.within(15_000)
        }),
{
    let x = v.worth();
    lemma_at_less(v, y, x, l, 0 as real, 18 as real, 2150);
    lemma_at_product(
        v.less_by(y),
        k,
        x - l,
        s,
        20 as real,
        200 as real,
        1 as real,
        6 as real,
        2175,
        7000,
    );
    lemma_at_sum(grey, v.less_by(y).product(k), g, (x - l) * s, 400 as real, 328 as real, 10_000);
    lemma_at_unit(grey.sum(v.less_by(y).product(k)), g + (x - l) * s, 800 as real, 10_025);
}

/// Contrast spreads the brightness about its middle by 0.008 a step, brightness raises it by 0.004 a
/// step on the range that video uses, and saturation takes a hundredth more or less of each channel's
/// distance from the brightness, a step.
pub proof fn law_contrast_brightness_and_saturation(c: Colour, g: Grade, t: &crate::grade::Tones)
    requires
        is_shown(c),
        g.wf(),
        g.contrast != 0 || g.brightness != 0 || g.saturation != 0,
    ensures
        ({
            let y = weighed(c);
            let half = (1 as real) / (2 as real);
            let slope = (1 as real) + (g.contrast as real) * (8 as real) / (1000 as real);
            let lift = (g.brightness as real) * (4 as real) / (1000 as real) * (255 as real) / (
            219 as real);
            let s = (1 as real) + (g.saturation as real) / (100 as real);
            let grey = slope * (y - half) + half + lift;
            is_colour(
                crate::grade::toned(
                    c,
                    Grade {
                        contrast: g.contrast,
                        brightness: g.brightness,
                        saturation: g.saturation,
                        ..untouched()
                    },
                    t,
                ),
                grey + (c.0.worth() - y) * s,
                grey + (c.1.worth() - y) * s,
                grey + (c.2.worth() - y) * s,
            )
        }),
{
    reveal(crate::grade::contrasted);
    let (z, o) = (0 as real, 1 as real);
    let half = (1 as real) / (2 as real);
    let (one, mid) = (Signed::part(1, 1), Signed::part(1, 2));
    lemma_at_setting(g.contrast);
    lemma_at_setting(g.brightness);
    lemma_at_setting(g.saturation);
    lemma_at_part(8, 1000);
    lemma_at_part(4, 1000);
    lemma_at_part(1, 100);
    lemma_at_part(1, 2);
    crate::worth::law_integer_is_exact(1);
    // The slope.
    let (con, bri, sat) = (g.contrast as real, g.brightness as real, g.saturation as real);
    let (e, f, h) = (
        (8 as real) / (1000 as real),
        (4 as real) / (1000 as real),
        (1 as real) / (100 as real),
    );
    let hundred = 100 as real;
    lemma_at_product(Signed::integer(g.contrast as int), Signed::part(8, 1000), con, e, z, o, hundred, e, 1000, 1000);
    lemma_at_sum(one, Signed::integer(g.contrast as int).product(Signed::part(8, 1000)), o, con * e, z, 104 as real, 2100);
    let slope = one.sum(Signed::integer(g.contrast as int).product(Signed::part(8, 1000)));
    // The lift.
    lemma_at_product(Signed::integer(g.brightness as int), Signed::part(4, 1000), bri, f, z, o, hundred, f, 1000, 1000);
    let step = Signed::integer(g.brightness as int).product(Signed::part(4, 1000));
    let wide = Signed::part(255, 1).quotient(Signed::part(219, 1));
    crate::worth::law_integer_is_exact(255);
    crate::worth::law_integer_is_exact(219);
    crate::worth::law_order_is_by_worth(Signed::part(219, 1), Signed::part(219, 1));
    crate::worth::law_quotient_is_close(Signed::part(255, 1), Signed::part(219, 1));
    let range = (255 as real) / (219 as real);
    assert(is_at(wide, range, 2 as real, 2100));
    lemma_at_product(step, wide, bri * f, range, 104 as real, 2 as real, o, 2 as real, 2100, 2100);
    let lift = step.product(wide);
    // The saturation.
    lemma_at_product(Signed::integer(g.saturation as int), Signed::part(1, 100), sat, h, z, o, hundred, h, 1000, 1000);
    let more = Signed::integer(g.saturation as int).product(Signed::part(1, 100));
    lemma_at_sum(one, more, o, sat * h, z, 104 as real, 2100);
    let s = one.sum(more).larger(Signed::part(0, 1));
    crate::worth::law_integer_is_exact(0);
    crate::worth::law_order_is_by_worth(one.sum(more), Signed::part(0, 1));
    assert(is_at(s, o + sat * h, 120 as real, 7000));
    // The grey.
    lemma_luma(c);
    let y = crate::grade::luma(c);
    let l = weighed(c);
    lemma_at_less(y, mid, l, half, 18 as real, o, 2150);
    lemma_at_product(slope, y.less_by(mid), o + con * e, l - half, 110 as real, 25 as real, 2 as real, half, 2125, 2175);
    let spread = slope.product(y.less_by(mid));
    lemma_at_sum(spread, mid, (o + con * e) * (l - half), half, 120 as real, o, 4450);
    lemma_at_sum(spread.sum(mid), lift, (o + con * e) * (l - half) + half, bri * f * range, 130 as real, 220 as real, 4475);
    lemma_coloured(
        c,
        spread.sum(mid).sum(lift),
        y,
        s,
        (o + con * e) * (l - half) + half + bri * f * range,
        l,
        o + sat * h,
    );
}

/// A setting as a part of 100.
proof fn lemma_at_hundredth(n: int)
    requires
        -100 <= n <= 100,
    ensures
        is_at(crate::grade::hundredth(n), (n as real) / (100 as real), 1 as real, 300),
{
    lemma_at_setting(n as i32);
    crate::worth::law_integer_is_exact(100);
    crate::worth::law_order_is_by_worth(Signed::part(100, 1), Signed::part(100, 1));
    crate::worth::law_quotient_is_close(Signed::integer(n), Signed::part(100, 1));
}

/// The channels times their factors.
proof fn lemma_scaled(c: Colour, m: Colour)
    requires
        is_shown(c),
        m.0.wf() && crate::worth::extent(m.0.worth()) <= 10 as real,
        m.1.wf() && crate::worth::extent(m.1.worth()) <= 10 as real,
        m.2.wf() && crate::worth::extent(m.2.worth()) <= 10 as real,
    ensures
        is_colour(
            crate::grade::scaled(c, m),
            c.0.worth() * m.0.worth(),
            c.1.worth() * m.1.worth(),
            c.2.worth() * m.2.worth(),
        ),
{
    reveal(crate::grade::scaled);
    let (z, o, t) = (0 as real, 1 as real, 10 as real);
    lemma_at_product(c.0, m.0, c.0.worth(), m.0.worth(), z, z, o, t, 1000, 200);
    lemma_at_product(c.1, m.1, c.1.worth(), m.1.worth(), z, z, o, t, 1000, 200);
    lemma_at_product(c.2, m.2, c.2.worth(), m.2.worth(), z, z, o, t, 1000, 200);
    lemma_at_unit(c.0.product(m.0), c.0.worth() * m.0.worth(), 12 as real, 1300);
    lemma_at_unit(c.1.product(m.1), c.1.worth() * m.1.worth(), 12 as real, 1300);
    lemma_at_unit(c.2.product(m.2), c.2.worth() * m.2.worth(), 12 as real, 1300);
}

/// Warmth, however it is set, multiplies each channel by its own factor, and exposure multiplies all
/// three by one.
pub proof fn law_factors_multiply(c: Colour, n: i32, t: &crate::grade::Tones)
    requires
        is_shown(c),
        t.wf(),
        n != 0,
        crate::worth::extent(t.warmth.0.worth()) <= 10 as real,
        crate::worth::extent(t.warmth.1.worth()) <= 10 as real,
        crate::worth::extent(t.warmth.2.worth()) <= 10 as real,
        crate::worth::extent(t.gain.worth()) <= 10 as real,
    ensures
        is_colour(
            crate::grade::toned(c, Grade { temp: n, ..untouched() }, t),
            c.0.worth() * t.warmth.0.worth(),
            c.1.worth() * t.warmth.1.worth(),
            c.2.worth() * t.warmth.2.worth(),
        ),
        is_colour(
            crate::grade::toned(c, Grade { exposure: n, ..untouched() }, t),
            c.0.worth() * t.gain.worth(),
            c.1.worth() * t.gain.worth(),
            c.2.worth() * t.gain.worth(),
        ),
{
    lemma_scaled(c, t.warmth);
    lemma_scaled(c, (t.gain, t.gain, t.gain));
}

/// Tint takes from green, and gives half as much to red and to blue: 0.003 a step in the middle of the
/// brightness, and less the nearer to black or white.
pub proof fn law_tint_goes_from_green(c: Colour, tint: i32, t: &crate::grade::Tones)
    requires
        is_shown(c),
        -100 <= tint <= 100,
        tint != 0,
    ensures
        ({
            let off = crate::worth::extent((2 as real) * weighed(c) - (1 as real));
            let d = (tint as real) * (3 as real) / (1000 as real) * ((1 as real) - off);
            is_colour(
                crate::grade::toned(c, Grade { tint, ..untouched() }, t),
                c.0.worth() + d / (2 as real),
                c.1.worth() - d,
                c.2.worth() + d / (2 as real),
            )
        }),
{
    reveal(crate::grade::tinted);
    let (z, o, two) = (0 as real, 1 as real, 2 as real);
    let third = (3 as real) / (10 as real);
    let tint = tint as int;
    lemma_at_hundredth(-tint);
    lemma_at_part(3, 10);
    lemma_at_part(1, 2);
    crate::worth::law_integer_is_exact(1);
    crate::worth::law_integer_is_exact(2);
    let share = ((-tint) as real) / (100 as real);
    lemma_at_product(crate::grade::hundredth(-tint), Signed::part(3, 10), share, third, o, o, o, third, 300, 100);
    let by = crate::grade::hundredth(-tint).product(Signed::part(3, 10));
    lemma_luma(c);
    let (y, l) = (crate::grade::luma(c), weighed(c));
    lemma_at_product(Signed::part(2, 1), y, two, l, z, 18 as real, two, o, 100, 2150);
    lemma_at_less(Signed::part(2, 1).product(y), Signed::part(1, 1), two * l, o, 40 as real, z, 2350);
    let off = Signed::part(2, 1).product(y).less_by(Signed::part(1, 1));
    crate::worth::law_order_is_by_worth(off, off);
    let size = Signed { neg: false, size: off.size };
    let far = crate::worth::extent(two * l - o);
    assert(is_at(size, far, 42 as real, 2375));
    lemma_at_less(Signed::part(1, 1), size, o, far, z, 42 as real, 2375);
    let middle = Signed::part(1, 1).less_by(size);
    lemma_at_product(by, middle, share * third, o - far, 4 as real, 44 as real, third, o, 500, 2400);
    let whole = share * third * (o - far);
    lemma_at_product(by.product(middle), Signed::part(1, 2), whole, o / two, 20 as real, o, third, o / two, 3000, 100);
    let d = by.product(middle).product(Signed::part(1, 2));
    let part = whole * (o / two);
    lemma_at_product(d, Signed::part(2, 1), part, two, 14 as real, z, o, two, 3200, 100);
    lemma_at_less(c.0, d, c.0.worth(), part, z, 14 as real, 3200);
    lemma_at_less(c.2, d, c.2.worth(), part, z, 14 as real, 3200);
    lemma_at_sum(c.1, d.product(Signed::part(2, 1)), c.1.worth(), part * two, z, 34 as real, 3400);
    lemma_at_unit(c.0.less_by(d), c.0.worth() - part, 20 as real, 3225);
    lemma_at_unit(c.2.less_by(d), c.2.worth() - part, 20 as real, 3225);
    lemma_at_unit(c.1.sum(d.product(Signed::part(2, 1))), c.1.worth() + part * two, 40 as real, 3425);
    let e = (tint as real) * (3 as real) / (1000 as real) * (o - far);
    assert(whole == -e) by (nonlinear_arith)
        requires
            whole == share * third * (o - far),
            share * third == -((tint as real) * (3 as real) / (1000 as real)),
            e == (tint as real) * (3 as real) / (1000 as real) * (o - far),
    ;
}

/// The order in which the settings are applied: warmth, tint, exposure, then contrast with brightness
/// and saturation, then the curve, haze and vibrance. A grade does what its first settings do, followed
/// by what the rest do, wherever it is cut in two.
pub proof fn law_settings_follow_each_other(c: Colour, g: Grade, t: &crate::grade::Tones)
    ensures
        ({
            let none = untouched();
            let warm = Grade { temp: g.temp, ..none };
            let tint = Grade { tint: g.tint, ..warm };
            let lit = Grade { exposure: g.exposure, ..tint };
            let flat = Grade {
                contrast: g.contrast,
                brightness: g.brightness,
                saturation: g.saturation,
                ..lit
            };
            let bent = Grade { shadows: g.shadows, whites: g.whites, blacks: g.blacks, ..flat };
            let bare = Grade { dehaze: g.dehaze, ..bent };
            let all = crate::grade::toned(c, g, t);
            &&& crate::grade::toned(c, none, t) == c
            &&& all == crate::grade::toned(
                crate::grade::toned(c, warm, t),
                Grade { temp: 0, ..g },
                t,
            )
            &&& all == crate::grade::toned(
                crate::grade::toned(c, tint, t),
                Grade { temp: 0, tint: 0, ..g },
                t,
            )
            &&& all == crate::grade::toned(
                crate::grade::toned(c, lit, t),
                Grade { temp: 0, tint: 0, exposure: 0, ..g },
                t,
            )
            &&& all == crate::grade::toned(
                crate::grade::toned(c, flat, t),
                Grade {
                    shadows: g.shadows,
                    whites: g.whites,
                    blacks: g.blacks,
                    dehaze: g.dehaze,
                    vibrance: g.vibrance,
                    ..none
                },
                t,
            )
            &&& all == crate::grade::toned(
                crate::grade::toned(c, bent, t),
                Grade { dehaze: g.dehaze, vibrance: g.vibrance, ..none },
                t,
            )
            &&& all == crate::grade::toned(
                crate::grade::toned(c, bare, t),
                Grade { vibrance: g.vibrance, ..none },
                t,
            )
        }),
{
    reveal(crate::grade::contrasted);
}

/// One over a number that is nearly known.
proof fn lemma_inverse(l: real, m: real, x: real, y: real, e: real)
    requires
        x * l == 1 as real,
        y * m == 1 as real,
        l * (10 as real) >= 7 as real,
        m * (10 as real) >= 7 as real,
        crate::worth::extent(l - m) <= e,
    ensures
        crate::worth::extent(x - y) <= e * (3 as real),
        0 as real <= x <= (3 as real) / (2 as real),
        0 as real <= y <= (3 as real) / (2 as real),
{
    let top = (3 as real) / (2 as real);
    assert(0 as real <= x <= top) by (nonlinear_arith)
        requires
            x * l == 1 as real,
            l * (10 as real) >= 7 as real,
            top * (2 as real) == 3 as real,
    ;
    assert(0 as real <= y <= top) by (nonlinear_arith)
        requires
            y * m == 1 as real,
            m * (10 as real) >= 7 as real,
            top * (2 as real) == 3 as real,
    ;
    let (p, d) = (x * y, m - l);
    assert(p * d == x - y) by (nonlinear_arith)
        requires
            p == x * y,
            d == m - l,
            x * l == 1 as real,
            y * m == 1 as real,
    ;
    assert(0 as real <= p <= 3 as real) by (nonlinear_arith)
        requires
            p == x * y,
            0 as real <= x <= top,
            0 as real <= y <= top,
            top * (2 as real) == 3 as real,
    ;
    crate::worth::lemma_extent(p, d);
    let f = crate::worth::extent(d);
    assert(p * f <= e * (3 as real)) by (nonlinear_arith)
        requires
            0 as real <= p <= 3 as real,
            0 as real <= f <= e,
    ;
}

/// A channel without its haze.
proof fn lemma_stretched(v: Signed, k: Signed, stretch: Signed, a: real, x: real)
    requires
        v.within(1000),
        0 as real <= v.worth() <= 1 as real,
        is_at(k, a, 4 as real, 500),
        is_at(stretch, x, 25 as real, 1000),
        0 as real <= a <= 1 as real,
        0 as real <= x <= (3 as real) / (2 as real),
    ensures
        is_like(
            crate::clear::unit(v.less_by(k).product(stretch)).worth(),
            kept_in((v.worth() - a) * x),
        ),
{
    lemma_at_less(v, k, v.worth(), a, 0 as real, 4 as real, 1000);
    lemma_at_product(v.less_by(k), stretch, v.worth() - a, x, 6 as real, 25 as real, 1 as real, 2 as real, 1025, 1000);
    lemma_at_unit(v.less_by(k).product(stretch), (v.worth() - a) * x, 50 as real, 2125);
}

/// A channel under haze.
proof fn lemma_veiled(v: Signed, k: Signed, left: Signed, a: real)
    requires
        v.within(1000),
        0 as real <= v.worth() <= 1 as real,
        is_at(k, a, 4 as real, 500),
        is_at(left, (1 as real) - a, 6 as real, 525),
        0 as real <= a <= 1 as real,
    ensures
        is_like(
            crate::clear::unit(k.sum(v.product(left))).worth(),
            kept_in(a + v.worth() * ((1 as real) - a)),
        ),
{
    let (z, o) = (0 as real, 1 as real);
    lemma_at_product(v, left, v.worth(), o - a, z, 6 as real, o, o, 1000, 525);
    lemma_at_sum(k, v.product(left), a, v.worth() * (o - a), 4 as real, 9 as real, 1625);
    lemma_at_unit(k.sum(v.product(left)), a + v.worth() * (o - a), 20 as real, 1650);
}

/// Haze of 0.0022 a step: it is taken off every channel and the rest stretched to the full range, or,
/// with a negative setting, laid over the colour.
pub proof fn law_haze_is_taken_or_laid(c: Colour, n: i32, t: &crate::grade::Tones)
    requires
        is_shown(c),
        -100 <= n <= 100,
        n != 0,
    ensures
        ({
            let a = crate::worth::extent(n as real) * (22 as real) / (10_000 as real);
            let out = crate::grade::toned(c, Grade { dehaze: n, ..untouched() }, t);
            if n > 0 {
                is_colour(
                    out,
                    (c.0.worth() - a) * ((1 as real) / ((1 as real) - a)),
                    (c.1.worth() - a) * ((1 as real) / ((1 as real) - a)),
                    (c.2.worth() - a) * ((1 as real) / ((1 as real) - a)),
                )
            } else {
                is_colour(
                    out,
                    a + c.0.worth() * ((1 as real) - a),
                    a + c.1.worth() * ((1 as real) - a),
                    a + c.2.worth() * ((1 as real) - a),
                )
            }
        }),
{
    reveal(crate::grade::cleared);
    let (z, o) = (0 as real, 1 as real);
    let m = if n < 0 {
        -n as int
    } else {
        n as int
    };
    let fifth = (22 as real) / (100 as real);
    let share = (m as real) / (100 as real);
    lemma_at_hundredth(m);
    lemma_at_part(22, 100);
    crate::worth::law_integer_is_exact(1);
    lemma_at_product(crate::grade::hundredth(m), Signed::part(22, 100), share, fifth, o, o, o, fifth, 300, 100);
    let k = crate::grade::veil(n as int);
    let a = share * fifth;
    assert(a == crate::worth::extent(n as real) * (22 as real) / (10_000 as real));
    assert(is_at(k, a, 4 as real, 500));
    lemma_at_less(Signed::part(1, 1), k, o, a, z, 4 as real, 500);
    let left = Signed::part(1, 1).less_by(k);
    assert(is_at(left, o - a, 6 as real, 525));
    if n > 0 {
        let l = left.worth();
        crate::worth::law_order_is_by_worth(left, left);
        crate::worth::law_quotient_is_close(Signed::part(1, 1), left);
        let (x, y) = (o / l, o / (o - a));
        crate::worth::lemma_divided(o, l);
        crate::worth::lemma_divided(o, o - a);
        lemma_inverse(l, o - a, x, y, (6 as real) / (0x100_0000 as real));
        let stretch = Signed::part(1, 1).quotient(left);
        assert(is_at(stretch, y, 25 as real, 1000));
        lemma_stretched(c.0, k, stretch, a, y);
        lemma_stretched(c.1, k, stretch, a, y);
        lemma_stretched(c.2, k, stretch, a, y);
    } else {
        lemma_veiled(c.0, k, left, a);
        lemma_veiled(c.1, k, left, a);
        lemma_veiled(c.2, k, left, a);
    }
}

/// Brightness as screens have it.
pub open spec fn weighed709(c: Colour) -> real {
    (c.0.worth() * (2126 as real) + c.1.worth() * (7152 as real) + c.2.worth() * (722 as real)) / (
    10_000 as real)
}

/// The larger of two real numbers.
pub open spec fn top_of(x: real, y: real) -> real {
    if x < y {
        y
    } else {
        x
    }
}

/// How far apart the strongest and the weakest channel of a colour are.
pub open spec fn apart(c: Colour) -> real {
    let (x, y, z) = (c.0.worth(), c.1.worth(), c.2.worth());
    top_of(top_of(x, y), z) + top_of(top_of(-x, -y), -z)
}

/// How far apart the channels are.
proof fn lemma_spread(c: Colour)
    requires
        is_shown(c),
    ensures
        ({
            let most = c.0.larger(c.1).larger(c.2);
            let least = c.0.smaller(c.1).smaller(c.2);
            is_at(most.less_by(least), apart(c), 2 as real, 1025)
        }),
        0 as real <= apart(c) <= 1 as real,
{
    crate::worth::law_order_is_by_worth(c.0, c.1);
    crate::worth::law_order_is_by_worth(c.1, c.0);
    let (m, n) = (c.0.larger(c.1), c.0.smaller(c.1));
    crate::worth::law_order_is_by_worth(m, c.2);
    crate::worth::law_order_is_by_worth(c.2, n);
    let (most, least) = (m.larger(c.2), n.smaller(c.2));
    let z = 0 as real;
    lemma_at_less(most, least, most.worth(), least.worth(), z, z, 1000);
}

/// Vibrance draws each channel away from the brightness, or with a negative setting towards it: by a
/// fiftieth a step, and by as much again, times how colourful the pixel is already; where it is
/// negative, by as much less.
pub proof fn law_vibrance_follows_the_colour(c: Colour, n: i32, t: &crate::grade::Tones)
    requires
        is_shown(c),
        -100 <= n <= 100,
        n != 0,
    ensures
        ({
            let y = weighed709(c);
            let more = if n < 0 {
                (1 as real) - apart(c)
            } else {
                (1 as real) + apart(c)
            };
            let k = top_of((1 as real) + (n as real) / (50 as real) * more, 0 as real);
            is_colour(
                crate::grade::toned(c, Grade { vibrance: n, ..untouched() }, t),
                y + (c.0.worth() - y) * k,
                y + (c.1.worth() - y) * k,
                y + (c.2.worth() - y) * k,
            )
        }),
{
    reveal(crate::grade::vivid);
    let (z, o, two) = (0 as real, 1 as real, 2 as real);
    let one = Signed::part(1, 1);
    crate::worth::law_integer_is_exact(0);
    crate::worth::law_integer_is_exact(1);
    crate::worth::law_integer_is_exact(2);
    lemma_at_hundredth(n as int);
    let share = (n as real) / (100 as real);
    lemma_at_product(crate::grade::hundredth(n as int), Signed::part(2, 1), share, two, o, z, o, two, 300, 100);
    let k = crate::grade::hundredth(n as int).product(Signed::part(2, 1));
    lemma_spread(c);
    let spread = c.0.larger(c.1).larger(c.2).less_by(c.0.smaller(c.1).smaller(c.2));
    crate::worth::law_order_is_by_worth(spread, spread);
    let turned = if n < 0 {
        spread.negated()
    } else {
        spread
    };
    let far = if n < 0 {
        -apart(c)
    } else {
        apart(c)
    };
    assert(is_at(turned, far, two, 1025));
    lemma_at_sum(one, turned, o, far, z, two, 1025);
    let more = one.sum(turned);
    lemma_at_product(k, more, share * two, o + far, 6 as real, 5 as real, two, two, 500, 1050);
    lemma_at_sum(one, k.product(more), o, share * two * (o + far), z, 28 as real, 1650);
    let by = one.sum(k.product(more)).larger(Signed::part(0, 1));
    crate::worth::law_order_is_by_worth(one.sum(k.product(more)), Signed::part(0, 1));
    let x = share * two * (o + far);
    assert(x == (n as real) / (50 as real) * (o + far)) by (nonlinear_arith)
        requires
            x == share * two * (o + far),
            share * two == (n as real) / (50 as real),
    ;
    assert(is_at(by, top_of(o + x, z), 40 as real, 7000));
    lemma_at_part(2126, 10_000);
    lemma_at_part(7152, 10_000);
    lemma_at_part(722, 10_000);
    lemma_sum_of_parts(
        c,
        Signed::part(2126, 10_000),
        Signed::part(7152, 10_000),
        Signed::part(722, 10_000),
        (2126 as real) / (10_000 as real),
        (7152 as real) / (10_000 as real),
        (722 as real) / (10_000 as real),
    );
    let y = crate::grade::luma709(c);
    lemma_coloured(c, y, y, by, weighed709(c), weighed709(c), top_of(o + x, z));
}

/// Clarity adds to every channel what sets the pixel's brightness off from its surroundings, times
/// 0.015 a step; with a negative setting it takes it away.
pub proof fn law_clarity_sets_off(
    d: Seq<u8>,
    w: int,
    h: int,
    g: Grade,
    t: &crate::grade::Tones,
    i: int,
)
    requires
        0 <= i < w * h,
        g.wf(),
        g.clarity != 0,
        is_shown(crate::grade::toned(crate::grade::colour_at(d, i), g, t)),
        ({
            let y = crate::grade::brightness(d, w * h, g, t);
            let s = crate::spread::blurred(y, w, h, crate::grade::clarity_reach(w, h))[i];
            s.within(1000) && 0 as real <= s.worth() <= 1 as real
        }),
    ensures
        ({
            let c = crate::grade::toned(crate::grade::colour_at(d, i), g, t);
            let y = crate::grade::brightness(d, w * h, g, t);
            let s = crate::spread::blurred(y, w, h, crate::grade::clarity_reach(w, h))[i];
            let more = (weighed(c) - s.worth()) * ((g.clarity as real) * (15 as real) / (
            1000 as real));
            is_colour(
                crate::grade::graded(d, w, h, g, t, i),
                c.0.worth() + more,
                c.1.worth() + more,
                c.2.worth() + more,
            )
        }),
{
    let c = crate::grade::toned(crate::grade::colour_at(d, i), g, t);
    let y = crate::grade::brightness(d, w * h, g, t);
    let s = crate::spread::blurred(y, w, h, crate::grade::clarity_reach(w, h))[i];
    let (z, o) = (0 as real, 1 as real);
    lemma_luma(c);
    assert(y[i] == crate::grade::luma(c));
    lemma_at_less(y[i], s, weighed(c), s.worth(), 18 as real, z, 2150);
    lemma_at_setting(g.clarity);
    lemma_at_part(15, 1000);
    let (n, e) = (g.clarity as real, (15 as real) / (1000 as real));
    lemma_at_product(Signed::integer(g.clarity as int), Signed::part(15, 1000), n, e, z, o, 100 as real, e, 100, 100);
    let amount = Signed::integer(g.clarity as int).product(Signed::part(15, 1000));
    let off = y[i].less_by(s);
    let two = 2 as real;
    lemma_at_product(off, amount, weighed(c) - s.worth(), n * e, 20 as real, 104 as real, o, two, 2175, 300);
    let x = (weighed(c) - s.worth()) * (n * e);
    let b = off.product(amount);
    lemma_at_sum(c.0, b, c.0.worth(), x, z, 150 as real, 2575);
    lemma_at_sum(c.1, b, c.1.worth(), x, z, 150 as real, 2575);
    lemma_at_sum(c.2, b, c.2.worth(), x, z, 150 as real, 2575);
    lemma_at_unit(c.0.sum(b), c.0.worth() + x, 160 as real, 2600);
    lemma_at_unit(c.1.sum(b), c.1.worth() + x, 160 as real, 2600);
    lemma_at_unit(c.2.sum(b), c.2.worth() + x, 160 as real, 2600);
}

/// The byte that is written is the nearest to its channel, 255 being one.
pub proof fn law_written_byte_is_nearest(v: Signed)
    requires
        v.within(1000),
        0 as real <= v.worth() <= 1 as real,
    ensures
        0 <= crate::grade::byte(v) <= 255,
        crate::worth::extent(crate::grade::byte(v) as real - v.worth() * (255 as real)) * (
        1000 as real) <= 501 as real,
{
    let (z, o) = (0 as real, 1 as real);
    let x = v.worth();
    let half = o / (2 as real);
    lemma_at_part(1, 2);
    crate::worth::law_integer_is_exact(255);
    lemma_at_product(v, Signed::part(255, 1), x, 255 as real, z, z, o, 255 as real, 1000, 100);
    let p = v.product(Signed::part(255, 1));
    lemma_at_sum(p, Signed::part(1, 2), x * (255 as real), half, 257 as real, o, 1200);
    let s = p.sum(Signed::part(1, 2));
    crate::worth::law_order_is_by_worth(s, s);
    crate::worth::law_floor_is_near(s.size);
}

/// What a setting adds to a point of the tone curve.
proof fn lemma_lift(n: int, num: int)
    requires
        -100 <= n <= 100,
        0 <= num <= 100,
    ensures
        crate::worth::is_about(
            crate::curve::lift(n, num, 100),
            (n as real) * (num as real) / (10_000 as real),
            40 as real,
        ),
        crate::worth::extent((n as real) * (num as real) / (10_000 as real)) <= 1 as real,
{
    let (o, h) = (1 as real, 100 as real);
    crate::worth::lemma_about_signed_integer(n);
    crate::worth::lemma_about_over(Signed::integer(n), 100, n as real, 0 as real);
    let r = crate::held::over(Signed::integer(n), Signed::part(100, 1));
    let x = (n as real) / h;
    assert(crate::worth::is_about(r, x, 3 as real));
    crate::worth::lemma_about_part(num, 100);
    let y = (num as real) / h;
    crate::worth::lemma_about_times(r, Signed::part(num, 100), x, y, 3 as real, o, o, o);
    assert(x * y == (n as real) * (num as real) / (10_000 as real)) by (nonlinear_arith)
        requires
            x == (n as real) / h,
            y == (num as real) / h,
            h == 100 as real,
    ;
}

/// The points of the tone curve: blacks begin it up to 0.12 later or 0.15 higher, shadows lift or lower
/// it by up to 0.15 at a quarter, and whites end it up to 0.15 earlier or lower.
pub proof fn law_curve_is_moved_at_its_ends_and_in_the_shadows(g: Grade)
    requires
        g.wf(),
    ensures
        ({
            let p = crate::curve::curve_through(g);
            let (z, o, k) = (0 as real, 1 as real, 10_000 as real);
            let first = if g.blacks < 0 {
                1int
            } else {
                0
            };
            let last = p.len() - 1;
            &&& p.len() == 2 + first + (if g.shadows != 0 {
                1int
            } else {
                0
            }) + (if g.whites > 0 {
                1int
            } else {
                0
            })
            &&& p[0].0.worth() == z
            &&& p[last].0.worth() == o
            &&& g.blacks < 0 ==> {
                &&& p[0].1.worth() == z
                &&& is_like(p[1].0.worth(), (-g.blacks as real) * (12 as real) / k)
                &&& p[1].1.worth() == z
            }
            &&& g.blacks >= 0 ==> is_like(p[0].1.worth(), (g.blacks as real) * (15 as real) / k)
            &&& g.shadows != 0 ==> {
                &&& is_like(p[first + 1].0.worth(), o / (4 as real))
                &&& is_like(
                    p[first + 1].1.worth(),
                    kept_in(o / (4 as real) + (g.shadows as real) * (15 as real) / k),
                )
            }
            &&& g.whites > 0 ==> {
                &&& is_like(p[last - 1].0.worth(), o - (g.whites as real) * (15 as real) / k)
                &&& p[last - 1].1.worth() == o
                &&& p[last].1.worth() == o
            }
            &&& g.whites <= 0 ==> is_like(
                p[last].1.worth(),
                o + (g.whites as real) * (15 as real) / k,
            )
        }),
{
    let (z, o) = (0 as real, 1 as real);
    let quarter = o / (4 as real);
    crate::worth::law_integer_is_exact(0);
    crate::worth::law_integer_is_exact(1);
    crate::worth::lemma_about_part(1, 4);
    lemma_lift(g.blacks as int, 15);
    lemma_lift(-g.blacks as int, 12);
    lemma_lift(g.shadows as int, 15);
    lemma_lift(g.whites as int, 15);
    let (s, w) = (
        crate::curve::lift(g.shadows as int, 15, 100),
        crate::curve::lift(g.whites as int, 15, 100),
    );
    let (x, y) = (
        (g.shadows as real) * (15 as real) / (10_000 as real),
        (g.whites as real) * (15 as real) / (10_000 as real),
    );
    crate::worth::lemma_about_plus(Signed::part(1, 4), s, quarter, x, o, 40 as real);
    lemma_at_unit(
        crate::held::plus(Signed::part(1, 4), s),
        quarter + x,
        60 as real,
        1000,
    );
    crate::worth::lemma_about_plus(Signed::part(1, 1), w, o, y, z, 40 as real);
    crate::worth::lemma_about_minus(Signed::part(1, 1), w, o, y, z, 40 as real);
    let p = crate::curve::curve_through(g);
    let (a, b, c) = (
        crate::curve::dark_end(g.blacks as int),
        crate::curve::shade(g.shadows as int),
        crate::curve::bright_end(g.whites as int),
    );
    assert(p == a + b + c);
    assert(p[0] == a[0]);
    assert(p[p.len() - 1] == c[c.len() - 1]);
}

} // verus!
