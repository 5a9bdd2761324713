//! What bringing out the subject of a photo does to its pixels.

use vstd::prelude::*;

use crate::enhance::{Local, Preset};
use crate::signed::Signed;

verus! {

/// A number from 0 to 255, and the nearest of the two where it lies outside.
pub open spec fn level(x: real) -> real {
    if x < 0 as real {
        0 as real
    } else if x > 255 as real {
        255 as real
    } else {
        x
    }
}

/// A byte is the nearest to the number it was made from, 255 being one.
pub proof fn law_shade_is_nearest(v: Signed, x: real, a: real)
    requires
        crate::worth::is_about(v, x, a),
        0 as real <= a <= 5000 as real,
    ensures
        crate::worth::extent((crate::retouch::shade(v) as int) as real - level(x * (255 as real)))
            * (100 as real) <= 60 as real,
{
    let (zero, one) = (Signed::part(0, 1), Signed::part(1, 1));
    crate::dimming::lemma_unit(v);
    crate::worth::law_integer_is_exact(1);
    crate::worth::law_integer_is_exact(0);
    crate::worth::lemma_about_integer(255);
    crate::worth::lemma_about_part(1, 2);
    let u = v.clamped(zero, one);
    let w = u.worth();
    assert(crate::held::fits(u));
    assert(crate::worth::is_about(u, w, 0 as real));
    crate::worth::lemma_about_times(
        u,
        Signed::part(255, 1),
        w,
        255 as real,
        0 as real,
        0 as real,
        1 as real,
        255 as real,
    );
    let t = crate::held::times(u, Signed::part(255, 1));
    let half = (1 as real) / (2 as real);
    crate::worth::lemma_about_plus(
        t,
        Signed::part(1, 2),
        w * (255 as real),
        half,
        285 as real,
        1 as real,
    );
    let s = crate::held::plus(t, Signed::part(1, 2));
    crate::worth::law_order_is_by_worth(s, zero);
    crate::worth::law_floor_is_near(s.size);
    let n = crate::stroke::first_cell(s, 256);
    assert(0 <= n <= 255);
    assert((crate::retouch::shade(v) as int) == n);
}

/// What a channel of a colour comes to, in levels from 0 to 255, where it is brought out by `k`: its
/// brightness grows by 18 hundredths of `k` and by its local detail `gain` times `k`, and it moves away
/// from its brightness by a tenth of `k`.
pub open spec fn brought_to(r: real, g: real, b: real, v: real, gain: real, k: real) -> real {
    let y = crate::dimming::brightness(r, g, b);
    y * ((1 as real) + (18 as real) / (100 as real) * k) + gain * k * (255 as real) + (v - y) * ((
    1 as real) + (10 as real) / (100 as real) * k)
}

/// The brightness of three channels.
proof fn lemma_lights(c: (Signed, Signed, Signed), x: real, y: real, z: real)
    requires
        crate::worth::is_about(c.0, x, 2 as real),
        crate::worth::is_about(c.1, y, 2 as real),
        crate::worth::is_about(c.2, z, 2 as real),
        0 as real <= x <= 1 as real,
        0 as real <= y <= 1 as real,
        0 as real <= z <= 1 as real,
    ensures
        crate::worth::is_about(
            crate::maps::brightness(c.0, c.1, c.2),
            crate::dimming::brightness(x, y, z),
            120 as real,
        ),
        0 as real <= crate::dimming::brightness(x, y, z) <= 1 as real,
{
    crate::worth::lemma_about_part(2126, 10000);
    crate::worth::lemma_about_part(7152, 10000);
    crate::worth::lemma_about_part(722, 10000);
    let (p, q, r) = (
        (2126 as real) / (10000 as real),
        (7152 as real) / (10000 as real),
        (722 as real) / (10000 as real),
    );
    let o = 1 as real;
    let e = 2 as real;
    crate::worth::lemma_about_times(c.0, Signed::part(2126, 10000), x, p, e, o, o, o);
    crate::worth::lemma_about_times(c.1, Signed::part(7152, 10000), y, q, e, o, o, o);
    crate::worth::lemma_about_times(c.2, Signed::part(722, 10000), z, r, e, o, o, o);
    let (a, b, d) = (
        crate::held::times(c.0, Signed::part(2126, 10000)),
        crate::held::times(c.1, Signed::part(7152, 10000)),
        crate::held::times(c.2, Signed::part(722, 10000)),
    );
    let f = 34 as real;
    crate::worth::lemma_about_plus(a, b, x * p, y * q, f, f);
    crate::worth::lemma_about_plus(
        crate::held::plus(a, b),
        d,
        x * p + y * q,
        z * r,
        71 as real,
        f,
    );
    assert(x * p == p * x && y * q == q * y && z * r == r * z);
}

/// A channel comes to what bringing it out says, but for rounding.
pub proof fn law_channel_is_brought_out(
    b: (u8, u8, u8),
    v: u8,
    gain: Signed,
    k: Signed,
)
    requires
        crate::held::fits(gain),
        crate::held::fits(k),
        crate::worth::extent(gain.worth()) <= 2 as real,
        0 as real <= k.worth(),
        k.worth() * (1000 as real) <= 1001 as real,
    ensures
        ({
            let c = (
                crate::held::over(Signed::part(b.0 as int, 1), Signed::part(255, 1)),
                crate::held::over(Signed::part(b.1 as int, 1), Signed::part(255, 1)),
                crate::held::over(Signed::part(b.2 as int, 1), Signed::part(255, 1)),
            );
            let w = crate::held::over(Signed::part(v as int, 1), Signed::part(255, 1));
            let to = brought_to(
                (b.0 as int) as real,
                (b.1 as int) as real,
                (b.2 as int) as real,
                (v as int) as real,
                gain.worth(),
                k.worth(),
            );
            crate::worth::extent(
                (crate::retouch::brought(c, w, gain, k) as int) as real - level(to),
            ) * (100 as real) <= 60 as real
        }),
{
    let n = 255 as real;
    let (x, y, z, t) = (
        ((b.0 as int) as real) / n,
        ((b.1 as int) as real) / n,
        ((b.2 as int) as real) / n,
        ((v as int) as real) / n,
    );
    crate::worth::lemma_tone(b.0 as int);
    crate::worth::lemma_tone(b.1 as int);
    crate::worth::lemma_tone(b.2 as int);
    crate::worth::lemma_tone(v as int);
    let c = (
        crate::held::over(Signed::part(b.0 as int, 1), Signed::part(255, 1)),
        crate::held::over(Signed::part(b.1 as int, 1), Signed::part(255, 1)),
        crate::held::over(Signed::part(b.2 as int, 1), Signed::part(255, 1)),
    );
    let w = crate::held::over(Signed::part(v as int, 1), Signed::part(255, 1));
    lemma_lights(c, x, y, z);
    let base = crate::maps::brightness(c.0, c.1, c.2);
    let m = crate::dimming::brightness(x, y, z);
    let (g, h) = (gain.worth(), k.worth());
    let (o, e) = (1 as real, 0 as real);
    let one = Signed::part(1, 1);
    crate::worth::lemma_about_integer(1);
    crate::worth::lemma_about_part(18, 100);
    crate::worth::lemma_about_part(10, 100);
    let (p, q) = ((18 as real) / (100 as real), (10 as real) / (100 as real));
    // How much brightness and colour grow.
    crate::worth::lemma_about_times(Signed::part(18, 100), k, p, h, o, e, o, 2 as real);
    crate::worth::lemma_about_times(Signed::part(10, 100), k, q, h, o, e, o, 2 as real);
    let (pk, qk) = (
        crate::held::times(Signed::part(18, 100), k),
        crate::held::times(Signed::part(10, 100), k),
    );
    crate::worth::lemma_about_plus(one, pk, o, p * h, e, 34 as real);
    crate::worth::lemma_about_plus(one, qk, o, q * h, e, 34 as real);
    let (s, u) = (crate::held::plus(one, pk), crate::held::plus(one, qk));
    let (sr, ur) = (o + p * h, o + q * h);
    // The brightness, lifted.
    crate::worth::lemma_about_times(base, s, m, sr, 120 as real, 38 as real, o, 2 as real);
    crate::worth::lemma_about_times(gain, k, g, h, e, e, 2 as real, 2 as real);
    let (bs, gk) = (crate::held::times(base, s), crate::held::times(gain, k));
    crate::worth::lemma_about_plus(bs, gk, m * sr, g * h, 310 as real, 34 as real);
    let lift = crate::retouch::lifted(c, gain, k);
    // The colour, away from its brightness.
    crate::worth::lemma_about_minus(w, base, t, m, 2 as real, 120 as real);
    let d = crate::held::minus(w, base);
    crate::worth::lemma_about_times(d, u, t - m, ur, 125 as real, 38 as real, o, 2 as real);
    let du = crate::held::times(d, u);
    crate::worth::lemma_about_plus(
        lift,
        du,
        m * sr + g * h,
        (t - m) * ur,
        352 as real,
        320 as real,
    );
    let to = m * sr + g * h + (t - m) * ur;
    law_shade_is_nearest(crate::held::plus(lift, du), to, 700 as real);
    lemma_levels(
        (b.0 as int) as real,
        (b.1 as int) as real,
        (b.2 as int) as real,
        (v as int) as real,
        g,
        h,
        m,
        t,
        to,
    );
}

/// The same in levels and in parts of one.
proof fn lemma_levels(
    r: real,
    g: real,
    b: real,
    v: real,
    gain: real,
    k: real,
    m: real,
    t: real,
    to: real,
)
    requires
        m == crate::dimming::brightness(r / (255 as real), g / (255 as real), b / (255 as real)),
        t == v / (255 as real),
        to == m * ((1 as real) + (18 as real) / (100 as real) * k) + gain * k + (t - m) * ((
        1 as real) + (10 as real) / (100 as real) * k),
    ensures
        to * (255 as real) == brought_to(r, g, b, v, gain, k),
{
    let y = crate::dimming::brightness(r, g, b);
    assert(y == m * (255 as real));
    let (p, q) = (
        (1 as real) + (18 as real) / (100 as real) * k,
        (1 as real) + (10 as real) / (100 as real) * k,
    );
    assert(y * p == (m * p) * (255 as real)) by (nonlinear_arith)
        requires
            y == m * (255 as real),
    ;
    assert((v - y) * q == ((t - m) * q) * (255 as real)) by (nonlinear_arith)
        requires
            y == m * (255 as real),
            v == t * (255 as real),
    ;
}

/// The local detail of a pixel is what it stands out by: three quarters of how far it is from the mean
/// of its wider surroundings, and 55 hundredths of how far it is from that of the nearer ones.
pub proof fn law_detail_is_what_stands_out(y: Seq<Signed>, wide: Seq<Signed>, near: Seq<Signed>, i: int)
    requires
        0 <= i < y.len(),
        crate::held::fits(y[i]),
        crate::held::fits(wide[i]),
        crate::held::fits(near[i]),
        crate::worth::extent(y[i].worth()) <= 2 as real,
        crate::worth::extent(wide[i].worth()) <= 2 as real,
        crate::worth::extent(near[i].worth()) <= 2 as real,
    ensures
        crate::worth::is_about(
            crate::retouch::gains(y, wide, near)[i],
            (y[i].worth() - wide[i].worth()) * ((75 as real) / (100 as real)) + (y[i].worth()
                - near[i].worth()) * ((55 as real) / (100 as real)),
            120 as real,
        ),
{
    let (a, b, c) = (y[i].worth(), wide[i].worth(), near[i].worth());
    let (e, o) = (0 as real, 1 as real);
    crate::worth::lemma_about_part(75, 100);
    crate::worth::lemma_about_part(55, 100);
    crate::worth::lemma_about_minus(y[i], wide[i], a, b, e, e);
    crate::worth::lemma_about_minus(y[i], near[i], a, c, e, e);
    let (p, q) = ((75 as real) / (100 as real), (55 as real) / (100 as real));
    let (u, v) = (crate::held::minus(y[i], wide[i]), crate::held::minus(y[i], near[i]));
    crate::worth::lemma_about_times(u, Signed::part(75, 100), a - b, p, 6 as real, o, 4 as real, o);
    crate::worth::lemma_about_times(v, Signed::part(55, 100), a - c, q, 6 as real, o, 4 as real, o);
    crate::worth::lemma_about_plus(
        crate::held::times(u, Signed::part(75, 100)),
        crate::held::times(v, Signed::part(55, 100)),
        (a - b) * p,
        (a - c) * q,
        44 as real,
        44 as real,
    );
}

/// Levels that lie close together come to levels that do.
proof fn lemma_level(a: real, b: real)
    ensures
        crate::worth::extent(level(a) - level(b)) <= crate::worth::extent(a - b),
{
}

/// A little more or less pull hardly changes what a channel comes to.
proof fn lemma_pull_hardly_matters(
    r: real,
    g: real,
    b: real,
    v: real,
    gain: real,
    h: real,
    k: real,
)
    requires
        0 as real <= r <= 255 as real,
        0 as real <= g <= 255 as real,
        0 as real <= b <= 255 as real,
        0 as real <= v <= 255 as real,
        crate::worth::extent(gain) <= 2 as real,
        crate::worth::extent(h - k) * (0x100_0000 as real) <= 100 as real,
    ensures
        crate::worth::extent(brought_to(r, g, b, v, gain, h) - brought_to(r, g, b, v, gain, k)) * (
        100 as real) <= 1 as real,
{
    let y = crate::dimming::brightness(r, g, b);
    assert(0 as real <= y <= 255 as real);
    let d = h - k;
    let (p, q) = ((18 as real) / (100 as real), (10 as real) / (100 as real));
    let c = y * p + gain * (255 as real) + (v - y) * q;
    assert(crate::worth::extent(c) <= 600 as real);
    crate::worth::lemma_extent(c, d);
    let (ec, ed) = (crate::worth::extent(c), crate::worth::extent(d));
    assert(ec * ed * (100 as real) <= 1 as real) by (nonlinear_arith)
        requires
            0 as real <= ec <= 600 as real,
            0 as real <= ed,
            ed * (0x100_0000 as real) <= 100 as real,
    ;
    let one = 1 as real;
    assert(y * (one + p * h) - y * (one + p * k) == (y * p) * d) by (nonlinear_arith)
        requires
            d == h - k,
    ;
    assert(gain * h * (255 as real) - gain * k * (255 as real) == (gain * (255 as real)) * d)
        by (nonlinear_arith)
        requires
            d == h - k,
    ;
    assert((v - y) * (one + q * h) - (v - y) * (one + q * k) == ((v - y) * q) * d)
        by (nonlinear_arith)
        requires
            d == h - k,
    ;
    assert(c * d == (y * p) * d + (gain * (255 as real)) * d + ((v - y) * q) * d)
        by (nonlinear_arith)
        requires
            c == y * p + gain * (255 as real) + (v - y) * q,
    ;
}

/// How much the subject counts at a pixel of a photo of some kind: what the subject's map says there,
/// and for portraits less the skin.
pub open spec fn is_weight(
    m: Signed,
    small: crate::raster::Picture,
    preset: Preset,
    x: int,
    y: int,
    w: int,
    h: int,
) -> bool {
    let skin = crate::subject::skin(small);
    let here = crate::maps::told(crate::subject::subject(small, preset, skin), x, y, w, h);
    m == match preset {
        Preset::Portrait => crate::held::times(
            here,
            crate::held::minus(Signed::part(1, 1), crate::maps::told(skin, x, y, w, h)),
        ),
        _ => here,
    }
}

/// A channel of a pixel has come to what bringing it out by `k` says, but for rounding.
pub open spec fn has_come_to(
    b: (u8, u8, u8),
    v: u8,
    gain: Signed,
    k: real,
    out: u8,
) -> bool {
    crate::worth::extent(
        (out as int) as real - level(
            brought_to(
                (b.0 as int) as real,
                (b.1 as int) as real,
                (b.2 as int) as real,
                (v as int) as real,
                gain.worth(),
                k,
            ),
        ),
    ) * (100 as real) <= 61 as real
}

/// The subject of a photo is brought out, whatever kind of photo it is: where it counts for more than
/// two thousandths, every channel comes to what its weight and the setting ask for. A grey pixel that is
/// to gain a level or more gets brighter.
pub proof fn law_every_subject_is_brought_out(
    p: crate::raster::Picture,
    q: crate::raster::Picture,
    preset: Preset,
    l: Local,
    small: crate::raster::Picture,
    i: int,
    m: Signed,
)
    requires
        crate::retouch::is_retouched(p, q, preset, l, small),
        p.wf(),
        0 < l.subject <= 100,
        0 <= i < p.w * p.h,
        is_weight(m, small, preset, i % p.w, i / p.w, p.w, p.h),
        crate::held::fits(m),
        (2 as real) < m.worth() * (999 as real),
        m.worth() <= 1 as real,
        ({
            let s = crate::retouch::with_skin(p, crate::subject::skin(small), l);
            let g = crate::retouch::gains_in(s)[i];
            crate::held::fits(g) && crate::worth::extent(g.worth()) <= 2 as real
        }),
    ensures
        ({
            let s = crate::retouch::with_skin(p, crate::subject::skin(small), l);
            let g = crate::retouch::gains_in(s)[i];
            let b = crate::wipe::triple(s.d, i);
            let out = crate::wipe::triple(q.d, i);
            let k = m.worth() * ((l.subject as int) as real / (100 as real));
            &&& has_come_to(b, b.0, g, k, out.0)
            &&& has_come_to(b, b.1, g, k, out.1)
            &&& has_come_to(b, b.2, g, k, out.2)
            &&& b.0 == b.1 == b.2 && b.0 < 255 && k * ((18 as real) / (100 as real) * (
            b.0 as int) as real + g.worth() * (255 as real)) >= 1 as real ==> out.0 > b.0 && out.1
                > b.1 && out.2 > b.2
        }),
{
    let skin = crate::subject::skin(small);
    let s = crate::retouch::with_skin(p, skin, l);
    let g = crate::retouch::gains_in(s)[i];
    let b = crate::wipe::triple(s.d, i);
    let out = crate::wipe::triple(q.d, i);
    let n = l.subject as int;
    let r = (n as real) / (100 as real);
    let amount = crate::retouch::percent(n);
    crate::worth::law_integer_is_exact(n);
    crate::worth::law_integer_is_exact(100);
    crate::worth::law_order_is_by_worth(Signed::part(100, 1), Signed::part(100, 1));
    crate::worth::law_over_is_off(Signed::part(n, 1), Signed::part(100, 1));
    crate::worth::law_part_is_close(2, 1000);
    crate::worth::lemma_close_range(Signed::part(2, 1000).worth(), (2 as real) / (1000 as real));
    crate::worth::law_order_is_by_worth(Signed::part(2, 1000), m);
    let (e, o) = (0 as real, 1 as real);
    crate::worth::lemma_about_times(m, amount, m.worth(), r, e, 2 as real, o, o);
    let h = crate::held::times(m, amount);
    let k = m.worth() * r;
    let w = m.worth();
    lemma_share(w, r);
    law_channel_is_brought_out(b, b.0, g, h);
    law_channel_is_brought_out(b, b.1, g, h);
    law_channel_is_brought_out(b, b.2, g, h);
    assert(out == crate::retouch::sharper(
        s,
        crate::subject::subject(small, preset, skin),
        skin,
        preset == Preset::Portrait,
        amount,
        i,
    ));
    assert(out == crate::retouch::sharpened(b, g, m, amount));
    let (x, y, z) = ((b.0 as int) as real, (b.1 as int) as real, (b.2 as int) as real);
    lemma_pull_hardly_matters(x, y, z, x, g.worth(), h.worth(), k);
    lemma_pull_hardly_matters(x, y, z, y, g.worth(), h.worth(), k);
    lemma_pull_hardly_matters(x, y, z, z, g.worth(), h.worth(), k);
    lemma_level(
        brought_to(x, y, z, x, g.worth(), h.worth()),
        brought_to(x, y, z, x, g.worth(), k),
    );
    lemma_level(
        brought_to(x, y, z, y, g.worth(), h.worth()),
        brought_to(x, y, z, y, g.worth(), k),
    );
    lemma_level(
        brought_to(x, y, z, z, g.worth(), h.worth()),
        brought_to(x, y, z, z, g.worth(), k),
    );
    if b.0 == b.1 == b.2 {
        lemma_grey(x, g.worth(), k);
    }
}

proof fn lemma_share(w: real, r: real)
    requires
        (2 as real) < w * (999 as real),
        w <= 1 as real,
        (1 as real) <= r * (100 as real) <= 100 as real,
    ensures
        w * r <= 1 as real,
        (1 as real) <= (w * r) * (100_000 as real),
{
    let k = w * r;
    assert(k <= w) by (nonlinear_arith)
        requires
            k == w * r,
            w >= 0 as real,
            r <= 1 as real,
    ;
    assert(k * (100 as real) >= w) by (nonlinear_arith)
        requires
            k == w * r,
            w >= 0 as real,
            r * (100 as real) >= 1 as real,
    ;
}

/// What a grey channel comes to.
proof fn lemma_grey(x: real, gain: real, k: real)
    ensures
        brought_to(x, x, x, x, gain, k) == x + k * ((18 as real) / (100 as real) * x + gain * (
        255 as real)),
{
    let y = crate::dimming::brightness(x, x, x);
    assert(y == x);
    let p = (18 as real) / (100 as real);
    assert(x * ((1 as real) + p * k) + gain * k * (255 as real) == x + k * (p * x + gain * (
    255 as real))) by (nonlinear_arith);
    let t = (1 as real) + (10 as real) / (100 as real) * k;
    assert((x - y) * t == 0 as real) by (nonlinear_arith)
        requires
            x == y,
    ;
}

} // verus!
