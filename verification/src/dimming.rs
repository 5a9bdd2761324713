//! What taking smoke out of a photo does to its pixels: they lose as much of their smoke as the strength
//! says, and get darker.

use vstd::prelude::*;

use crate::clear::Pixel;
use crate::signed::{Colour, Signed};
use crate::smoke::Rgb;

verus! {

/// The share of the smoke that goes is 1.6 times the strength over 100, but for rounding; nothing goes
/// only where the strength is nothing.
pub proof fn law_strength_is_the_share_that_goes(s: int)
    requires
        0 <= s <= 100,
    ensures
        crate::worth::is_near(
            crate::remove::pull(s).worth(),
            (s as real) / (100 as real) * ((16 as real) / (10 as real)),
            8,
        ),
        crate::remove::pull(s).within(500),
        crate::remove::pull(s).worth() == 0 as real <==> s == 0,
{
    let (a, b, c) = (Signed::part(s, 1), Signed::part(100, 1), Signed::part(16, 10));
    crate::worth::law_integer_is_exact(s);
    crate::worth::law_integer_is_exact(100);
    crate::worth::law_part_is_close(16, 10);
    crate::worth::law_order_is_by_worth(b, b);
    crate::worth::law_quotient_is_close(a, b);
    let q = a.quotient(b);
    crate::worth::law_product_is_close(q, c);
    let (x, y) = ((s as real) / (100 as real), (16 as real) / (10 as real));
    crate::worth::lemma_near(q.worth(), x);
    crate::worth::lemma_near(c.worth(), y);
    crate::worth::lemma_near_product(q.worth(), x, c.worth(), y, 1, 1);
    let p = q.product(c);
    crate::worth::lemma_near(p.worth(), q.worth() * c.worth());
    assert(x * y >= 0 as real) by (nonlinear_arith)
        requires
            x >= 0 as real,
            y >= 0 as real,
    ;
    crate::worth::lemma_near_chain(p.worth(), q.worth() * c.worth(), x * y, 1, 3);
    crate::worth::lemma_near_wider(p.worth(), x * y, 5, 8);
    crate::worth::lemma_near_range(p.worth(), x * y, 8);
    if s > 0 {
        assert(x * y > 0 as real) by (nonlinear_arith)
            requires
                x > 0 as real,
                y > 0 as real,
        ;
    } else {
        assert(x * y == 0 as real) by (nonlinear_arith)
            requires
                x == 0 as real,
        ;
    }
}

/// A higher strength takes more of the smoke away.
pub proof fn law_more_strength_takes_more(s: int, t: int)
    requires
        0 <= s < t <= 100,
    ensures
        crate::remove::pull(s).lies_below(crate::remove::pull(t)),
{
    law_strength_is_the_share_that_goes(s);
    law_strength_is_the_share_that_goes(t);
    let (a, b) = (crate::remove::pull(s), crate::remove::pull(t));
    let y = (16 as real) / (10 as real);
    let (x, z) = ((s as real) / (100 as real) * y, (t as real) / (100 as real) * y);
    crate::worth::lemma_near_range(a.worth(), x, 8);
    crate::worth::lemma_near_range(b.worth(), z, 8);
    crate::worth::law_order_is_by_worth(a, b);
}

/// A number that is worth nothing is zero.
pub proof fn lemma_zero(a: Signed)
    requires
        a.size.wf(),
        a.size.m == 0 ==> !a.neg,
        a.worth() == 0 as real,
    ensures
        a == Signed::part(0, 1),
{
    crate::worth::law_order_is_by_worth(a, a);
    crate::single::law_nearest_unique(0, 1, crate::single::nought());
}

/// Nothing times something is nothing.
pub proof fn lemma_zero_times(x: Signed)
    ensures
        Signed::part(0, 1).product(x) == Signed::part(0, 1),
        x.product(Signed::part(0, 1)) == Signed::part(0, 1),
{
    reveal(Signed::product);
    crate::single::law_nearest_unique(0, 1, crate::single::nought());
    let m = x.size.m;
    assert(0 * m == 0 && m * 0 == 0) by (nonlinear_arith);
}

/// A number below zero counts as nothing, as a part of one.
proof fn lemma_below_unit(v: Signed)
    requires
        v.size.wf(),
        v.size.m == 0 ==> !v.neg,
        v.worth() <= 0 as real,
    ensures
        v.clamped(Signed::part(0, 1), Signed::part(1, 1)) == Signed::part(0, 1),
{
    crate::worth::law_integer_is_exact(0);
    crate::worth::law_integer_is_exact(1);
    crate::worth::law_order_is_by_worth(v, Signed::part(0, 1));
    crate::worth::law_order_is_by_worth(Signed::part(1, 1), v);
    if v.worth() == 0 as real {
        lemma_zero(v);
    }
}

/// A number kept from 0 to 1 is worth as much.
pub proof fn lemma_unit(v: Signed)
    requires
        v.size.wf(),
        v.size.m == 0 ==> !v.neg,
    ensures
        ({
            let u = v.clamped(Signed::part(0, 1), Signed::part(1, 1));
            &&& 0 as real <= u.worth() <= 1 as real
            &&& u.size.wf()
            &&& u.size.m == 0 ==> !u.neg
            &&& u == v || u.within(100)
            &&& 0 as real <= v.worth() <= 1 as real ==> u.worth() == v.worth()
            &&& v.worth() >= 1 as real ==> u.worth() == 1 as real
            &&& v.worth() <= 0 as real ==> u.worth() == 0 as real
        }),
{
    crate::worth::law_integer_is_exact(0);
    crate::worth::law_integer_is_exact(1);
    crate::worth::law_order_is_by_worth(v, Signed::part(0, 1));
    crate::worth::law_order_is_by_worth(Signed::part(1, 1), v);
}

/// How far something has come lies from 0 to 1, but for rounding; it has not started before `lo`.
pub proof fn law_smoothing_goes_from_nothing_to_all(lo: Signed, hi: Signed, v: Signed)
    requires
        lo.within(300),
        hi.within(300),
        v.within(600),
        lo.worth() < hi.worth(),
    ensures
        ({
            let r = crate::advice::smoothed(lo, hi, v);
            &&& 0 as real <= r.worth()
            &&& r.worth() * (0x100_0000 as real) <= 0x100_0010 as real
            &&& r.size.wf()
            &&& r.size.m == 0 ==> !r.neg
            &&& r.within(4000)
            &&& lo.within(100) && hi.within(100) && v.within(300) ==> r.within(1500)
            &&& v.worth() <= lo.worth() ==> r == Signed::part(0, 1)
        }),
{
    crate::worth::law_order_is_by_worth(lo, hi);
    crate::worth::law_difference_is_close(v, lo);
    crate::worth::law_difference_is_close(hi, lo);
    let (n, d) = (v.less_by(lo), hi.less_by(lo));
    crate::worth::lemma_close_range(n.worth(), v.worth() - lo.worth());
    crate::worth::lemma_close_range(d.worth(), hi.worth() - lo.worth());
    crate::worth::law_order_is_by_worth(d, d);
    crate::worth::law_quotient_is_close(n, d);
    let q = n.quotient(d);
    let (x, y) = (n.worth(), d.worth());
    crate::worth::lemma_divided(x, y);
    let z = x / y;
    if v.worth() <= lo.worth() {
        assert(z <= 0 as real) by (nonlinear_arith)
            requires
                z * y == x,
                y > 0 as real,
                x <= 0 as real,
        ;
        crate::worth::lemma_close_range(q.worth(), z);
        lemma_below_unit(q);
        lemma_zero_times(Signed::part(0, 1));
        lemma_zero_times(
            Signed::part(3, 1).less_by(Signed::part(2, 1).product(Signed::part(0, 1))),
        );
        crate::worth::law_integer_is_exact(0);
    } else {
        lemma_unit(q);
        lemma_eased(q.clamped(Signed::part(0, 1), Signed::part(1, 1)));
    }
}

/// A number from 0 to 1 stays there, but for rounding, when it is slowed at either end.
proof fn lemma_eased(t: Signed)
    requires
        t.within(1100),
        0 as real <= t.worth() <= 1 as real,
    ensures
        ({
            let r = crate::advice::eased(t);
            &&& 0 as real <= r.worth()
            &&& r.worth() * (0x100_0000 as real) <= 0x100_0010 as real
            &&& r.size.wf()
            &&& r.size.m == 0 ==> !r.neg
            &&& r.within(4000)
            &&& t.within(550) ==> r.within(1500)
        }),
{
    let (two, three) = (Signed::part(2, 1), Signed::part(3, 1));
    crate::worth::law_integer_is_exact(2);
    crate::worth::law_integer_is_exact(3);
    crate::worth::law_product_is_close(t, t);
    crate::worth::law_product_is_close(two, t);
    let (a, b) = (t.product(t), two.product(t));
    crate::worth::law_difference_is_close(three, b);
    let c = three.less_by(b);
    crate::worth::law_product_is_close(a, c);
    let r = a.product(c);
    let x = t.worth();
    let s = x * x;
    assert(0 as real <= s <= 1 as real && s <= x) by (nonlinear_arith)
        requires
            0 as real <= x <= 1 as real,
            s == x * x,
    ;
    crate::worth::lemma_close_range(b.worth(), (2 as real) * x);
    let w = (3 as real) - (2 as real) * x;
    assert(three.worth() - b.worth() >= 0 as real);
    crate::worth::lemma_close_range(c.worth(), three.worth() - b.worth());
    crate::worth::lemma_near(a.worth(), s);
    // The second factor is near what it should be.
    let v = c.worth();
    assert(w * (0x100_0000 as real) - w * (4 as real) <= v * (0x100_0000 as real));
    assert(v * (0x100_0000 as real) <= w * (0x100_0000 as real) + w * (4 as real));
    crate::worth::lemma_range_near(v, w, 4);
    crate::worth::lemma_near_product(a.worth(), s, c.worth(), w, 1, 4);
    crate::worth::lemma_near(r.worth(), a.worth() * c.worth());
    let p = s * w;
    assert(0 as real <= p <= 1 as real) by (nonlinear_arith)
        requires
            p == s * w,
            s == x * x,
            w == (3 as real) - (2 as real) * x,
            0 as real <= x <= 1 as real,
    ;
    crate::worth::lemma_near_chain(r.worth(), a.worth() * c.worth(), p, 1, 6);
    crate::worth::lemma_near_range(r.worth(), p, 8);
    crate::worth::lemma_plain(c);
}

/// A weighted channel is near what it should be.
proof fn lemma_weighted(num: int, c: Signed, x: real, n: int)
    requires
        0 < num <= 10000,
        c.within(600),
        crate::worth::is_near(c.worth(), x, n),
        x >= 0 as real,
        0 <= n <= 100,
    ensures
        ({
            let p = Signed::part(num, 10000).product(c);
            &&& crate::worth::is_near(p.worth(), (num as real) / (10000 as real) * x, n + 4)
            &&& p.within(900)
            &&& (num as real) / (10000 as real) * x >= 0 as real
        }),
{
    let k = Signed::part(num, 10000);
    let y = (num as real) / (10000 as real);
    crate::worth::law_part_is_close(num, 10000);
    crate::worth::law_product_is_close(k, c);
    crate::worth::lemma_near(k.worth(), y);
    crate::worth::lemma_near_product(k.worth(), y, c.worth(), x, 1, n);
    let p = k.product(c);
    crate::worth::lemma_near(p.worth(), k.worth() * c.worth());
    crate::worth::lemma_near_chain(p.worth(), k.worth() * c.worth(), y * x, 1, n + 2);
}

/// A sum is near what it should be.
proof fn lemma_summed(a: Signed, b: Signed, x: real, y: real, n: int)
    requires
        a.within(1900),
        b.within(1900),
        crate::worth::is_near(a.worth(), x, n),
        crate::worth::is_near(b.worth(), y, n),
        x >= 0 as real,
        y >= 0 as real,
        0 <= n <= 100,
    ensures
        crate::worth::is_near(a.sum(b).worth(), x + y, n + 2),
        a.sum(b).within(1930),
{
    crate::worth::law_sum_is_close(a, b);
    crate::worth::lemma_near_sum(a.worth(), x, b.worth(), y, n);
    let r = a.sum(b);
    crate::worth::lemma_near(r.worth(), a.worth() + b.worth());
    crate::worth::lemma_near_chain(r.worth(), a.worth() + b.worth(), x + y, 1, n);
}

/// The brightness that colours have in the world of real numbers.
pub open spec fn brightness(x: real, y: real, z: real) -> real {
    (2126 as real) / (10000 as real) * x + (7152 as real) / (10000 as real) * y + (722 as real) / (
    10000 as real) * z
}

/// The brightness of a colour is near the weighted sum of its channels.
pub proof fn law_brightness_is_weighted(c: Colour, x: real, y: real, z: real, n: int)
    requires
        c.0.within(600),
        c.1.within(600),
        c.2.within(600),
        crate::worth::is_near(c.0.worth(), x, n),
        crate::worth::is_near(c.1.worth(), y, n),
        crate::worth::is_near(c.2.worth(), z, n),
        x >= 0 as real,
        y >= 0 as real,
        z >= 0 as real,
        0 <= n <= 50,
    ensures
        crate::worth::is_near(crate::clear::luminance(c).worth(), brightness(x, y, z), n + 8),
        crate::clear::luminance(c).within(1930),
{
    lemma_weighted(2126, c.0, x, n);
    lemma_weighted(7152, c.1, y, n);
    lemma_weighted(722, c.2, z, n);
    let (a, b, d) = (
        Signed::part(2126, 10000).product(c.0),
        Signed::part(7152, 10000).product(c.1),
        Signed::part(722, 10000).product(c.2),
    );
    let (u, v, w) = (
        (2126 as real) / (10000 as real) * x,
        (7152 as real) / (10000 as real) * y,
        (722 as real) / (10000 as real) * z,
    );
    lemma_summed(a, b, u, v, n + 4);
    crate::worth::law_sum_is_close(a, b);
    assert(a.sum(b).within(930));
    crate::worth::lemma_near_wider(d.worth(), w, n + 4, n + 6);
    lemma_summed(a.sum(b), d, u + v, w, n + 6);
}

/// A channel of a pixel with smoke in front of it: `l` is its light, `f` the glow of the night sky and
/// `s` the smoke, which is no brighter than the pixel, and makes up a tenth of it at least above the
/// glow.
pub open spec fn is_smoky(l: Signed, f: Signed, s: Signed) -> bool {
    &&& l.wf()
    &&& f.wf()
    &&& s.wf()
    &&& f.worth() >= 0 as real
    &&& (1 as real) <= l.worth() * (0x4000_0000 as real)
    &&& l.worth() <= 4 as real
    &&& s.worth() <= l.worth()
    &&& l.worth() <= (s.worth() - f.worth()) * (10 as real)
}

/// What lies above the glow.
proof fn lemma_above(l: Signed, f: Signed, s: Signed)
    requires
        is_smoky(l, f, s),
    ensures
        ({
            let (i, t) = (l.less_by(f), s.less_by(f).larger(Signed::part(0, 1)));
            let (x, y) = (l.worth() - f.worth(), s.worth() - f.worth());
            &&& crate::worth::is_near(i.worth(), x, 1)
            &&& crate::worth::is_near(t.worth(), y, 1)
            &&& (0 as real) < y <= x
            &&& x <= l.worth() <= y * (10 as real)
            &&& i.within(300)
            &&& t.within(300)
            &&& Signed::part(0, 1).lies_below(t)
        }),
{
    let (i, t) = (l.less_by(f), s.less_by(f));
    let (x, y) = (l.worth() - f.worth(), s.worth() - f.worth());
    crate::worth::law_difference_is_close(l, f);
    crate::worth::law_difference_is_close(s, f);
    crate::worth::lemma_near(i.worth(), x);
    crate::worth::lemma_near(t.worth(), y);
    crate::worth::lemma_near_range(t.worth(), y, 1);
    crate::worth::law_integer_is_exact(0);
    crate::worth::law_order_is_by_worth(t, Signed::part(0, 1));
    crate::worth::law_order_is_by_worth(Signed::part(0, 1), t);
}

/// A channel loses at least half of the share of its smoke that is to go.
proof fn lemma_raw(i: Signed, t: Signed, k: Signed, x: real, y: real, g: real)
    requires
        crate::worth::is_near(i.worth(), x, 1),
        crate::worth::is_near(t.worth(), y, 1),
        crate::worth::is_near(k.worth(), g, 2),
        i.within(300),
        t.within(300),
        k.within(700),
        (0 as real) < y <= x <= y * (10 as real),
        (1 as real) <= g * (100 as real) <= 200 as real,
    ensures
        ({
            let r = i.less_by(k.product(t));
            &&& r.within(1200)
            &&& r.worth() * (2 as real) <= x * (2 as real) - g * y
            &&& g * y <= x * (2 as real)
            &&& g * y * (1000 as real) >= x
        }),
{
    crate::worth::law_product_is_close(k, t);
    let p = k.product(t);
    crate::worth::lemma_near_product(k.worth(), g, t.worth(), y, 2, 1);
    crate::worth::lemma_near(p.worth(), k.worth() * t.worth());
    let z = g * y;
    crate::worth::lemma_near_chain(p.worth(), k.worth() * t.worth(), z, 1, 4);
    crate::worth::lemma_near_range(p.worth(), z, 6);
    crate::worth::lemma_near_range(i.worth(), x, 1);
    assert(z * (1000 as real) >= x && z <= x * (2 as real)) by (nonlinear_arith)
        requires
            z == g * y,
            (0 as real) < y <= x <= y * (10 as real),
            (1 as real) <= g * (100 as real) <= 200 as real,
    ;
    crate::worth::law_difference_is_close(i, p);
    let r = i.less_by(p);
    let d = i.worth() - p.worth();
    crate::worth::lemma_close_range(r.worth(), d);
}

/// The channel once no channel is left below zero, nor below the glow.
proof fn lemma_evened(r: Signed, m: Signed, f: Signed, even: bool, top: real)
    requires
        r.within(1200),
        m.within(1200),
        f.within(200),
        f.worth() >= 0 as real,
        even ==> m.worth() < 0 as real,
        r.worth() <= top,
        top >= 0 as real,
    ensures
        ({
            let e = if even {
                r.sum(m)
            } else {
                r
            };
            let v = e.larger(Signed::part(0, 1)).larger(f.negated());
            &&& v.within(1300)
            &&& 0 as real <= v.worth()
            &&& v.worth() * (0x100_0000 as real) <= top * (0x100_0001 as real)
        }),
{
    let zero = Signed::part(0, 1);
    crate::worth::law_integer_is_exact(0);
    let e = if even {
        r.sum(m)
    } else {
        r
    };
    if even {
        crate::worth::law_sum_is_close(r, m);
        crate::worth::lemma_close_range(e.worth(), r.worth() + m.worth());
    }
    crate::worth::law_order_is_by_worth(e, zero);
    let v = e.larger(zero);
    crate::worth::law_order_is_by_worth(f, zero);
    crate::worth::law_order_is_by_worth(v, f.negated());
}

/// A pixel that is not bright is no bright core, and keeps nothing of its light for that.
proof fn lemma_no_core(c: Rgb, centre: Option<Signed>, over: Option<Signed>)
    requires
        crate::clear::brightest(c) <= 215,
        centre is None || centre == Some(Signed::part(0, 1)),
    ensures
        crate::clear::kept_light(c, centre, over) == Signed::part(0, 1),
{
    let zero = Signed::part(0, 1);
    let b = crate::clear::brightest(c) as int;
    let v = Signed::part(b, 1);
    crate::worth::law_integer_is_exact(0);
    crate::worth::law_integer_is_exact(b);
    crate::worth::law_integer_is_exact(215);
    crate::worth::law_integer_is_exact(235);
    crate::worth::law_integer_is_exact(246);
    crate::worth::law_integer_is_exact(255);
    crate::worth::law_order_is_by_worth(zero, zero);
    law_smoothing_goes_from_nothing_to_all(Signed::part(215, 1), Signed::part(235, 1), v);
    let white = crate::clear::neutrality(c);
    lemma_zero_times(
        crate::advice::smoothed(Signed::part(75, 100), Signed::part(92, 100), white),
    );
    let (n, d) = (v.less_by(Signed::part(246, 1)), Signed::part(255, 1).less_by(Signed::part(246, 1)));
    crate::worth::law_difference_is_close(v, Signed::part(246, 1));
    crate::worth::law_difference_is_close(Signed::part(255, 1), Signed::part(246, 1));
    crate::worth::lemma_close_range(n.worth(), (b as real) - (246 as real));
    crate::worth::lemma_close_range(d.worth(), 9 as real);
    lemma_negative_quotient(n, d);
    let outshines = match over {
        Some(a) => crate::advice::smoothed(Signed::part(13, 10), Signed::part(2, 1), a),
        None => Signed::part(1, 1),
    };
    lemma_zero_times(
        outshines.larger(
            crate::advice::smoothed(Signed::part(35, 100), Signed::part(60, 100), white),
        ),
    );
}

/// Something below zero over something above it counts as nothing, as a part of one.
proof fn lemma_negative_quotient(n: Signed, d: Signed)
    requires
        n.within(1000),
        d.within(1000),
        n.worth() <= 0 as real,
        d.worth() > 0 as real,
    ensures
        crate::clear::unit(n.quotient(d)) == Signed::part(0, 1),
{
    crate::worth::law_order_is_by_worth(d, d);
    crate::worth::law_quotient_is_close(n, d);
    let (x, y) = (n.worth(), d.worth());
    crate::worth::lemma_divided(x, y);
    let z = x / y;
    assert(z <= 0 as real) by (nonlinear_arith)
        requires
            z * y == x,
            y > 0 as real,
            x <= 0 as real,
    ;
    crate::worth::lemma_close_range(n.quotient(d).worth(), z);
    lemma_below_unit(n.quotient(d));
}

/// How much of its hue a pixel keeps lies from 0 to 1, but for rounding.
proof fn lemma_hue(c: Rgb, over: Option<Signed>, g: Signed)
    requires
        crate::clear::brightest(c) <= 215,
        over matches Some(a) ==> a.within(300),
        g.within(300),
    ensures
        ({
            let h = crate::clear::kept_hue(c, Signed::part(0, 1), over, Some(g));
            &&& h.within(1500)
            &&& 0 as real <= h.worth()
            &&& h.worth() * (0x100_0000 as real) <= 0x100_0010 as real
        }),
{
    let zero = Signed::part(0, 1);
    let b = crate::clear::brightest(c) as int;
    let v = Signed::part(b, 1);
    crate::worth::law_integer_is_exact(0);
    crate::worth::law_integer_is_exact(b);
    crate::worth::law_integer_is_exact(20);
    crate::worth::law_integer_is_exact(235);
    let n = v.less_by(Signed::part(235, 1));
    crate::worth::law_difference_is_close(v, Signed::part(235, 1));
    crate::worth::lemma_close_range(n.worth(), (b as real) - (235 as real));
    lemma_negative_quotient(n, Signed::part(20, 1));
    crate::worth::law_part_is_close(16, 10);
    crate::worth::law_part_is_close(14, 10);
    crate::worth::law_part_is_close(35, 100);
    crate::worth::law_part_is_close(80, 100);
    crate::worth::lemma_close_range(Signed::part(35, 100).worth(), (35 as real) / (100 as real));
    crate::worth::lemma_close_range(Signed::part(80, 100).worth(), (80 as real) / (100 as real));
    law_smoothing_goes_from_nothing_to_all(Signed::part(35, 100), Signed::part(80, 100), g);
    let glow = match over {
        Some(a) => crate::clear::unit(
            a.less_by(Signed::part(16, 10)).quotient(Signed::part(14, 10)),
        ),
        None => zero,
    };
    if let Some(a) = over {
        crate::worth::law_difference_is_close(a, Signed::part(16, 10));
        let e = a.less_by(Signed::part(16, 10));
        crate::worth::law_quotient_is_close(e, Signed::part(14, 10));
        lemma_unit(e.quotient(Signed::part(14, 10)));
    }
    assert(glow.within(1500) && 0 as real <= glow.worth() <= 1 as real);
}

/// A channel that keeps some of its hue is no brighter than the brighter one of what it is mixed from.
proof fn lemma_hued_channel(a: Signed, u: Signed, h: Signed, top: real)
    requires
        a.within(1300),
        u.within(1300),
        h.within(1500),
        0 as real <= a.worth(),
        0 as real <= u.worth(),
        a.worth() * (0x100_0000 as real) <= top * (0x100_0008 as real),
        u.worth() * (0x100_0000 as real) <= top * (0x100_0008 as real),
        0 as real <= h.worth(),
        h.worth() * (0x100_0000 as real) <= 0x100_0010 as real,
        top >= 0 as real,
    ensures
        ({
            let r = a.product(Signed::part(1, 1).less_by(h)).sum(u.product(h));
            &&& r.size.wf()
            &&& r.within(15_000)
            &&& r.worth() * (0x100_0000 as real) <= top * (0x100_0040 as real)
        }),
{
    let one = Signed::part(1, 1);
    let q = 0x100_0000 as real;
    crate::worth::law_integer_is_exact(1);
    crate::worth::law_difference_is_close(one, h);
    let left = one.less_by(h);
    crate::worth::lemma_close_range(left.worth(), (1 as real) - h.worth());
    crate::worth::law_product_is_close(a, left);
    crate::worth::law_product_is_close(u, h);
    let (c, d) = (a.product(left), u.product(h));
    crate::worth::law_sum_is_close(c, d);
    let r = c.sum(d);
    let (x, y, l, w) = (a.worth(), u.worth(), left.worth(), h.worth());
    let t = top * ((0x100_0008 as real) / q);
    assert(x <= t && y <= t);
    let (v, z) = (x * l, y * w);
    crate::worth::lemma_close_range(c.worth(), v);
    crate::worth::lemma_close_range(d.worth(), z);
    assert(0 as real <= z <= t * w) by (nonlinear_arith)
        requires
            z == y * w,
            0 as real <= y <= t,
            0 as real <= w,
    ;
    if w <= 1 as real {
        assert(0 as real <= v <= t * l) by (nonlinear_arith)
            requires
                v == x * l,
                0 as real <= x <= t,
                0 as real <= l,
        ;
        let k = (0x100_0001 as real) / q;
        assert(t * l <= t * (((1 as real) - w) * k)) by (nonlinear_arith)
            requires
                t >= 0 as real,
                l <= ((1 as real) - w) * k,
        ;
        assert(t * (((1 as real) - w) * k) + t * w <= t * k) by (nonlinear_arith)
            requires
                t >= 0 as real,
                k >= 1 as real,
                0 as real <= w <= 1 as real,
        ;
        assert(v + z <= t * k);
        assert(t * k == t * ((0x100_0001 as real) / q));
        crate::worth::lemma_close_range(r.worth(), c.worth() + d.worth());
    } else {
        assert(v <= 0 as real) by (nonlinear_arith)
            requires
                v == x * l,
                0 as real <= x,
                l <= 0 as real,
        ;
        let k = (0x100_0010 as real) / q;
        assert(t * w <= t * k) by (nonlinear_arith)
            requires
                t >= 0 as real,
                w <= k,
        ;
        crate::worth::lemma_close_range(r.worth(), c.worth() + d.worth());
    }
}

/// The brightness of a smoky pixel and of its smoke, and the share of its light that goes: at least a
/// thousandth.
proof fn lemma_going(
    i: Colour,
    t: Colour,
    k: Signed,
    x: (real, real, real),
    y: (real, real, real),
    g: real,
)
    requires
        i.0.within(300) && i.1.within(300) && i.2.within(300),
        t.0.within(300) && t.1.within(300) && t.2.within(300),
        k.within(700),
        crate::worth::is_near(i.0.worth(), x.0, 1),
        crate::worth::is_near(i.1.worth(), x.1, 1),
        crate::worth::is_near(i.2.worth(), x.2, 1),
        crate::worth::is_near(t.0.worth(), y.0, 1),
        crate::worth::is_near(t.1.worth(), y.1, 1),
        crate::worth::is_near(t.2.worth(), y.2, 1),
        crate::worth::is_near(k.worth(), g, 2),
        (1 as real) <= x.0 * (0x8_0000_0000 as real),
        (1 as real) <= x.1 * (0x8_0000_0000 as real),
        (1 as real) <= x.2 * (0x8_0000_0000 as real),
        x.0 <= 4 as real,
        x.1 <= 4 as real,
        x.2 <= 4 as real,
        (0 as real) < y.0 <= x.0 <= y.0 * (10 as real),
        (0 as real) < y.1 <= x.1 <= y.1 * (10 as real),
        (0 as real) < y.2 <= x.2 <= y.2 * (10 as real),
        (1 as real) <= g * (100 as real) <= 200 as real,
    ensures
        ({
            let (yi, ys) = (crate::clear::luminance(i), crate::clear::luminance(t));
            let r = k.product(ys).quotient(yi);
            &&& yi.worth() > 0 as real
            &&& ys.worth() > 0 as real
            &&& yi.within(90)
            &&& ys.within(90)
            &&& r.within(90)
            &&& r.worth() * (1001 as real) >= 1 as real
            &&& crate::worth::is_near(
                r.worth(),
                (g * brightness(y.0, y.1, y.2)) / brightness(x.0, x.1, x.2),
                28,
            )
            &&& brightness(x.0, x.1, x.2) > 0 as real
        }),
{
    let (yi, ys) = (crate::clear::luminance(i), crate::clear::luminance(t));
    law_brightness_is_weighted(i, x.0, x.1, x.2, 1);
    law_brightness_is_weighted(t, y.0, y.1, y.2, 1);
    let (a, b) = (brightness(x.0, x.1, x.2), brightness(y.0, y.1, y.2));
    assert(b <= a <= b * (10 as real));
    assert((1 as real) <= a * (0x8_0000_0000 as real) && a <= 4 as real);
    crate::worth::lemma_near_range(yi.worth(), a, 9);
    crate::worth::lemma_near_range(ys.worth(), b, 9);
    crate::worth::lemma_plain(yi);
    crate::worth::lemma_plain(ys);
    crate::worth::law_order_is_by_worth(yi, ys);
    crate::worth::law_product_is_close(k, ys);
    let p = k.product(ys);
    crate::worth::lemma_near_product(k.worth(), g, ys.worth(), b, 2, 9);
    crate::worth::lemma_near(p.worth(), k.worth() * ys.worth());
    crate::worth::lemma_near_chain(p.worth(), k.worth() * ys.worth(), g * b, 1, 12);
    crate::worth::law_quotient_is_close(p, yi);
    let r = p.quotient(yi);
    crate::worth::lemma_near_quotient(p.worth(), g * b, yi.worth(), a, 14, 9);
    crate::worth::lemma_near(r.worth(), p.worth() / yi.worth());
    let z = (g * b) / a;
    crate::worth::lemma_near_chain(r.worth(), p.worth() / yi.worth(), z, 1, 26);
    crate::worth::lemma_divided(g * b, a);
    assert(z * (1000 as real) >= 1 as real && z <= 2 as real) by (nonlinear_arith)
        requires
            z * a == g * b,
            (0 as real) < b <= a <= b * (10 as real),
            (1 as real) <= g * (100 as real) <= 200 as real,
    ;
    crate::worth::lemma_near_range(r.worth(), z, 28);
    crate::worth::lemma_plain(r);
}

/// A channel that is dimmed by the share of the light that goes.
proof fn lemma_dimmed(i: Signed, g: Signed, x: real)
    requires
        i.within(300),
        g.within(90),
        crate::worth::is_near(i.worth(), x, 1),
        x > 0 as real,
        g.worth() * (1001 as real) >= 1 as real,
    ensures
        ({
            let dim = Signed::part(1, 1).less_by(g).larger(Signed::part(0, 1));
            let scale = dim.sum(Signed::part(1, 1).less_by(dim).product(Signed::part(0, 1)));
            let u = i.product(scale);
            &&& u.within(1300)
            &&& 0 as real <= u.worth()
            &&& u.worth() * (2000 as real) <= x * (1999 as real)
        }),
{
    let (zero, one) = (Signed::part(0, 1), Signed::part(1, 1));
    crate::worth::law_integer_is_exact(0);
    crate::worth::law_integer_is_exact(1);
    crate::worth::law_difference_is_close(one, g);
    let e = one.less_by(g);
    crate::worth::lemma_close_range(e.worth(), (1 as real) - g.worth());
    crate::worth::law_order_is_by_worth(e, zero);
    let dim = e.larger(zero);
    assert(0 as real <= dim.worth() && dim.worth() * (1500 as real) <= 1499 as real);
    lemma_zero_times(one.less_by(dim));
    crate::worth::law_sum_is_close(dim, zero);
    let scale = dim.sum(zero);
    crate::worth::lemma_close_range(scale.worth(), dim.worth() + (0 as real));
    assert(0 as real <= scale.worth() && scale.worth() * (1600 as real) <= 1599 as real);
    crate::worth::law_product_is_close(i, scale);
    let u = i.product(scale);
    crate::worth::lemma_near_range(i.worth(), x, 1);
    let (a, b) = (i.worth(), scale.worth());
    let p = a * b;
    assert(0 as real <= p && p * (1600 as real) <= a * (1599 as real)) by (nonlinear_arith)
        requires
            p == a * b,
            0 as real <= a,
            0 as real <= b,
            b * (1600 as real) <= 1599 as real,
    ;
    crate::worth::lemma_close_range(u.worth(), p);
}

/// What a channel comes to in the end lies below its light.
proof fn lemma_back_above(r: Signed, f: Signed, l: Signed, x: real)
    requires
        r.within(15_000),
        f.within(200),
        x == l.worth() - f.worth(),
        f.worth() >= 0 as real,
        x > 0 as real,
        l.worth() <= x * (10 as real),
        r.worth() * (0x100_0000 as real) <= x * ((1999 as real) / (2000 as real)) * (0x100_0040
            as real),
    ensures
        r.sum(f).worth() < l.worth(),
        r.sum(f).within(15_100),
{
    crate::worth::law_sum_is_close(r, f);
    crate::worth::lemma_close_range(r.sum(f).worth(), r.worth() + f.worth());
}

/// The pixel holds smoke in every channel.
pub open spec fn is_smoky_pixel(p: Pixel, floor: Colour) -> bool {
    p.smoke matches Some(s) && is_smoky(p.lin.0, floor.0, s.0) && is_smoky(p.lin.1, floor.1, s.1)
        && is_smoky(p.lin.2, floor.2, s.2)
}

/// A pixel with smoke in front of it that is worked on in full, and is neither a line nor a bright core,
/// gets darker in every channel, whatever share of the smoke goes.
pub proof fn law_smoky_pixels_get_darker(p: Pixel, k: Signed, floor: Colour)
    requires
        p.w == Signed::part(1, 1),
        is_smoky_pixel(p, floor),
        crate::clear::brightest(p.src) <= 215,
        p.centre is None || p.centre == Some(Signed::part(0, 1)),
        p.excess is None || p.excess == Some(Signed::part(0, 1)),
        k.within(500),
        (1 as real) <= k.worth() * (100 as real) <= 190 as real,
    ensures
        p.clear(k, floor).0.worth() < p.lin.0.worth(),
        p.clear(k, floor).1.worth() < p.lin.1.worth(),
        p.clear(k, floor).2.worth() < p.lin.2.worth(),
        p.clear(k, floor).0.within(15_100),
        p.clear(k, floor).1.within(15_100),
        p.clear(k, floor).2.within(15_100),
{
    let s = p.smoke->0;
    let (zero, one) = (Signed::part(0, 1), Signed::part(1, 1));
    crate::worth::law_integer_is_exact(0);
    crate::worth::law_integer_is_exact(1);
    crate::worth::law_order_is_by_worth(zero, one);
    let x = (
        p.lin.0.worth() - floor.0.worth(),
        p.lin.1.worth() - floor.1.worth(),
        p.lin.2.worth() - floor.2.worth(),
    );
    let y = (
        s.0.worth() - floor.0.worth(),
        s.1.worth() - floor.1.worth(),
        s.2.worth() - floor.2.worth(),
    );
    lemma_above(p.lin.0, floor.0, s.0);
    lemma_above(p.lin.1, floor.1, s.1);
    lemma_above(p.lin.2, floor.2, s.2);
    let (i, t) = (p.own(floor), crate::clear::smoke_over(p.smoke, floor));
    let g = k.worth();
    let kk = k.product(p.w);
    crate::worth::law_product_is_close(k, one);
    assert(g * (1 as real) == g) by (nonlinear_arith);
    crate::worth::lemma_near(kk.worth(), g);
    crate::worth::lemma_near_wider(kk.worth(), g, 1, 2);
    lemma_raw(i.0, t.0, kk, x.0, y.0, g);
    lemma_raw(i.1, t.1, kk, x.1, y.1, g);
    lemma_raw(i.2, t.2, kk, x.2, y.2, g);
    let raw = crate::clear::minus(i, (kk.product(t.0), kk.product(t.1), kk.product(t.2)));
    let m = raw.0.smaller(raw.1).smaller(raw.2);
    crate::worth::law_order_is_by_worth(m, zero);
    let even = m.lies_below(zero) && crate::clear::shows(t);
    let q = (1999 as real) / (2000 as real);
    lemma_evened(raw.0, m, floor.0, even, x.0 * q);
    lemma_evened(raw.1, m, floor.1, even, x.1 * q);
    lemma_evened(raw.2, m, floor.2, even, x.2 * q);
    let rgb = crate::clear::thinned(i, t, kk, floor);
    lemma_going(i, t, kk, x, y, g);
    let (yi, ys) = (crate::clear::luminance(i), crate::clear::luminance(t));
    crate::worth::law_order_is_by_worth(zero, yi);
    crate::worth::law_order_is_by_worth(zero, ys);
    crate::worth::law_quotient_is_close(yi, ys);
    let over = p.over(floor);
    let gone = kk.product(ys).quotient(yi);
    assert(p.going(k, floor) == Some(gone));
    assert(over == Some(yi.quotient(ys)));
    lemma_no_core(p.src, p.centre, over);
    lemma_hue(p.src, over, gone);
    let hue = crate::clear::kept_hue(p.src, zero, over, Some(gone));
    lemma_dimmed(i.0, gone, x.0);
    lemma_dimmed(i.1, gone, x.1);
    lemma_dimmed(i.2, gone, x.2);
    let dim = one.less_by(gone).larger(zero);
    let scale = dim.sum(one.less_by(dim).product(zero));
    lemma_hued_channel(rgb.0, i.0.product(scale), hue, x.0 * q);
    lemma_hued_channel(rgb.1, i.1.product(scale), hue, x.1 * q);
    lemma_hued_channel(rgb.2, i.2.product(scale), hue, x.2 * q);
    let clean = p.cleaned(k, floor);
    assert(p.drawn(k, floor) == clean) by {
        if let Some(e) = p.excess {
            lemma_zero_times(p.w);
            let gone_share = crate::clear::unit(gone);
            lemma_zero_times(
                crate::advice::smoothed(Signed::part(25, 100), Signed::part(60, 100), gone_share),
            );
            crate::worth::law_order_is_by_worth(zero, zero);
        }
    }
    lemma_back_above(clean.0, floor.0, p.lin.0, x.0);
    lemma_back_above(clean.1, floor.1, p.lin.1, x.1);
    lemma_back_above(clean.2, floor.2, p.lin.2, x.2);
}

/// A channel less the share of its smoke that goes, where something is left of it.
proof fn lemma_left_over(i: Signed, t: Signed, k: Signed, x: real, y: real, g: real)
    requires
        crate::worth::is_near(i.worth(), x, 1),
        crate::worth::is_near(t.worth(), y, 1),
        crate::worth::is_near(k.worth(), g, 2),
        i.within(300),
        t.within(300),
        k.within(700),
        (0 as real) < y <= x <= 4 as real,
        0 as real <= g <= 2 as real,
        g * y * (100 as real) <= x * (99 as real),
    ensures
        ({
            let r = i.less_by(k.product(t));
            &&& r.within(1200)
            &&& r.worth() > 0 as real
            &&& crate::worth::extent(r.worth() - (x - g * y)) * (0x100_0000 as real) <= 36 as real
        }),
{
    crate::worth::law_product_is_close(k, t);
    let p = k.product(t);
    crate::worth::lemma_near_product(k.worth(), g, t.worth(), y, 2, 1);
    crate::worth::lemma_near(p.worth(), k.worth() * t.worth());
    let z = g * y;
    crate::worth::lemma_near_chain(p.worth(), k.worth() * t.worth(), z, 1, 4);
    crate::worth::lemma_near_range(p.worth(), z, 6);
    crate::worth::lemma_near_range(i.worth(), x, 1);
    crate::worth::law_difference_is_close(i, p);
    let r = i.less_by(p);
    let d = i.worth() - p.worth();
    assert(d > 0 as real);
    crate::worth::lemma_close_range(r.worth(), d);
}

/// A channel dimmed by a share of its light that is known.
proof fn lemma_dimmed_by(i: Signed, g: Signed, x: real, z: real)
    requires
        i.within(300),
        g.within(90),
        crate::worth::is_near(i.worth(), x, 1),
        (0 as real) < x <= 4 as real,
        0 as real <= z,
        z * (100 as real) <= 99 as real,
        crate::worth::is_near(g.worth(), z, 28),
    ensures
        ({
            let dim = Signed::part(1, 1).less_by(g).larger(Signed::part(0, 1));
            let scale = dim.sum(Signed::part(1, 1).less_by(dim).product(Signed::part(0, 1)));
            let u = i.product(scale);
            &&& u.within(1300)
            &&& crate::worth::extent(u.worth() - x * ((1 as real) - z)) * (0x100_0000 as real)
                <= 150 as real
        }),
{
    let (zero, one) = (Signed::part(0, 1), Signed::part(1, 1));
    crate::worth::law_integer_is_exact(0);
    crate::worth::law_integer_is_exact(1);
    crate::worth::lemma_near_range(g.worth(), z, 28);
    crate::worth::law_difference_is_close(one, g);
    let e = one.less_by(g);
    crate::worth::lemma_close_range(e.worth(), (1 as real) - g.worth());
    crate::worth::law_order_is_by_worth(e, zero);
    let dim = e.larger(zero);
    lemma_zero_times(one.less_by(dim));
    crate::worth::law_sum_is_close(dim, zero);
    let scale = dim.sum(zero);
    crate::worth::lemma_close_range(scale.worth(), dim.worth() + (0 as real));
    crate::worth::law_product_is_close(i, scale);
    let u = i.product(scale);
    crate::worth::lemma_near_range(i.worth(), x, 1);
    let (a, b) = (i.worth(), scale.worth());
    let w = (1 as real) - z;
    let (c, d) = (a - x, b - w);
    let q = 0x100_0000 as real;
    assert(crate::worth::extent(c) * q <= 4 as real);
    assert(crate::worth::extent(d) * q <= 31 as real);
    let (xd, cb) = (x * d, c * b);
    assert(a * b - x * w == xd + cb) by (nonlinear_arith)
        requires
            c == a - x,
            d == b - w,
            xd == x * d,
            cb == c * b,
    ;
    crate::worth::lemma_extent(x, d);
    crate::worth::lemma_extent(c, b);
    let (ec, ed) = (crate::worth::extent(c), crate::worth::extent(d));
    assert(x * ed * q <= 124 as real) by (nonlinear_arith)
        requires
            0 as real <= x <= 4 as real,
            0 as real <= ed,
            ed * q <= 31 as real,
    ;
    assert(ec * b * q <= 8 as real) by (nonlinear_arith)
        requires
            0 as real <= ec,
            ec * q <= 4 as real,
            0 as real <= b <= 2 as real,
    ;
    assert(0 as real <= x * w <= 4 as real) by (nonlinear_arith)
        requires
            0 as real <= x <= 4 as real,
            0 as real <= w <= 1 as real,
    ;
}

/// A mix of two numbers that are both nearly the same.
proof fn lemma_mixed(a: Signed, u: Signed, h: Signed, z: real)
    requires
        a.within(1300),
        u.within(1300),
        h.within(1500),
        0 as real <= z <= 4 as real,
        crate::worth::extent(a.worth() - z) * (0x100_0000 as real) <= 36 as real,
        crate::worth::extent(u.worth() - z) * (0x100_0000 as real) <= 150 as real,
        0 as real <= h.worth(),
        h.worth() * (0x100_0000 as real) <= 0x100_0010 as real,
    ensures
        ({
            let r = a.product(Signed::part(1, 1).less_by(h)).sum(u.product(h));
            &&& r.within(15_000)
            &&& crate::worth::extent(r.worth() - z) * (0x100_0000 as real) <= 240 as real
        }),
{
    let one = Signed::part(1, 1);
    let q = 0x100_0000 as real;
    crate::worth::law_integer_is_exact(1);
    crate::worth::law_difference_is_close(one, h);
    let left = one.less_by(h);
    crate::worth::law_product_is_close(a, left);
    crate::worth::law_product_is_close(u, h);
    let (c, d) = (a.product(left), u.product(h));
    crate::worth::law_sum_is_close(c, d);
    let (l, w) = (left.worth(), h.worth());
    let (e, f, o) = (a.worth() - z, u.worth() - z, l + w - (1 as real));
    let (el, fw, zo) = (e * l, f * w, z * o);
    assert(a.worth() * l + u.worth() * w - z == el + fw + zo) by (nonlinear_arith)
        requires
            e == a.worth() - z,
            f == u.worth() - z,
            o == l + w - (1 as real),
            el == e * l,
            fw == f * w,
            zo == z * o,
    ;
    crate::worth::lemma_extent(e, l);
    crate::worth::lemma_extent(f, w);
    crate::worth::lemma_extent(z, o);
    let (ee, ef, eo, xl) = (
        crate::worth::extent(e),
        crate::worth::extent(f),
        crate::worth::extent(o),
        crate::worth::extent(l),
    );
    let k = (101 as real) / (100 as real);
    assert(eo * q <= 2 as real);
    assert(xl <= k);
    assert(ee * xl * q <= (36 as real) * k) by (nonlinear_arith)
        requires
            0 as real <= ee,
            ee * q <= 36 as real,
            0 as real <= xl <= k,
            q == 0x100_0000 as real,
    ;
    assert(ef * w * q <= (150 as real) * k) by (nonlinear_arith)
        requires
            0 as real <= ef,
            ef * q <= 150 as real,
            0 as real <= w <= k,
            q == 0x100_0000 as real,
    ;
    assert(z * eo * q <= 8 as real) by (nonlinear_arith)
        requires
            0 as real <= z <= 4 as real,
            0 as real <= eo,
            eo * q <= 2 as real,
    ;
    // What the two products are, to round them.
    let (x, y) = (a.worth() * l, u.worth() * w);
    crate::worth::lemma_extent(a.worth(), l);
    crate::worth::lemma_extent(u.worth(), w);
    let (ea, eu) = (crate::worth::extent(a.worth()), crate::worth::extent(u.worth()));
    assert(ea * xl <= 5 as real && eu * w <= 5 as real) by (nonlinear_arith)
        requires
            0 as real <= ea,
            ea * (10 as real) <= 41 as real,
            0 as real <= eu,
            eu * (10 as real) <= 41 as real,
            0 as real <= xl <= k,
            0 as real <= w <= k,
            k * (100 as real) == 101 as real,
    ;
}

/// The pixel holds smoke that makes up the same part of every channel, above the glow.
pub open spec fn is_evenly_smoky(p: Pixel, floor: Colour, part: real) -> bool {
    p.smoke matches Some(s) && {
        &&& s.0.worth() - floor.0.worth() == part * (p.lin.0.worth() - floor.0.worth())
        &&& s.1.worth() - floor.1.worth() == part * (p.lin.1.worth() - floor.1.worth())
        &&& s.2.worth() - floor.2.worth() == part * (p.lin.2.worth() - floor.2.worth())
    }
}

/// Where smoke makes up the same part of every channel, a pixel that is worked on in full, and is
/// neither a line nor a bright core, loses that part times the share that is to go, whatever the share:
/// at a share of one nothing is left of the smoke, and at a half, half of it.
pub proof fn law_smoke_goes_by_its_share(p: Pixel, k: Signed, floor: Colour, part: real)
    requires
        p.w == Signed::part(1, 1),
        is_smoky_pixel(p, floor),
        is_evenly_smoky(p, floor, part),
        crate::clear::brightest(p.src) <= 215,
        p.centre is None || p.centre == Some(Signed::part(0, 1)),
        p.excess is None || p.excess == Some(Signed::part(0, 1)),
        k.within(500),
        (1 as real) <= k.worth() * (100 as real) <= 190 as real,
        k.worth() * part * (100 as real) <= 99 as real,
    ensures
        ({
            let out = p.clear(k, floor);
            let gone = k.worth() * part;
            &&& crate::toning::is_like(
                out.0.worth(),
                p.lin.0.worth() - gone * (p.lin.0.worth() - floor.0.worth()),
            )
            &&& crate::toning::is_like(
                out.1.worth(),
                p.lin.1.worth() - gone * (p.lin.1.worth() - floor.1.worth()),
            )
            &&& crate::toning::is_like(
                out.2.worth(),
                p.lin.2.worth() - gone * (p.lin.2.worth() - floor.2.worth()),
            )
        }),
{
    let s = p.smoke->0;
    let (zero, one) = (Signed::part(0, 1), Signed::part(1, 1));
    crate::worth::law_integer_is_exact(0);
    crate::worth::law_integer_is_exact(1);
    crate::worth::law_order_is_by_worth(zero, one);
    let x = (
        p.lin.0.worth() - floor.0.worth(),
        p.lin.1.worth() - floor.1.worth(),
        p.lin.2.worth() - floor.2.worth(),
    );
    let y = (
        s.0.worth() - floor.0.worth(),
        s.1.worth() - floor.1.worth(),
        s.2.worth() - floor.2.worth(),
    );
    lemma_above(p.lin.0, floor.0, s.0);
    lemma_above(p.lin.1, floor.1, s.1);
    lemma_above(p.lin.2, floor.2, s.2);
    let (i, t) = (p.own(floor), crate::clear::smoke_over(p.smoke, floor));
    let g = k.worth();
    let kk = k.product(p.w);
    crate::worth::law_product_is_close(k, one);
    assert(g * (1 as real) == g) by (nonlinear_arith);
    crate::worth::lemma_near(kk.worth(), g);
    crate::worth::lemma_near_wider(kk.worth(), g, 1, 2);
    let z = g * part;
    lemma_part_goes(x.0, y.0, g, part);
    lemma_part_goes(x.1, y.1, g, part);
    lemma_part_goes(x.2, y.2, g, part);
    lemma_left_over(i.0, t.0, kk, x.0, y.0, g);
    lemma_left_over(i.1, t.1, kk, x.1, y.1, g);
    lemma_left_over(i.2, t.2, kk, x.2, y.2, g);
    let raw = crate::clear::minus(i, (kk.product(t.0), kk.product(t.1), kk.product(t.2)));
    let m = raw.0.smaller(raw.1).smaller(raw.2);
    crate::worth::law_order_is_by_worth(m, zero);
    lemma_stays(raw.0, floor.0);
    lemma_stays(raw.1, floor.1);
    lemma_stays(raw.2, floor.2);
    let rgb = crate::clear::thinned(i, t, kk, floor);
    assert(rgb == raw);
    lemma_going(i, t, kk, x, y, g);
    let (yi, ys) = (crate::clear::luminance(i), crate::clear::luminance(t));
    crate::worth::law_order_is_by_worth(zero, yi);
    crate::worth::law_order_is_by_worth(zero, ys);
    crate::worth::law_quotient_is_close(yi, ys);
    let over = p.over(floor);
    let gone = kk.product(ys).quotient(yi);
    assert(p.going(k, floor) == Some(gone));
    assert(over == Some(yi.quotient(ys)));
    let (a, b) = (brightness(x.0, x.1, x.2), brightness(y.0, y.1, y.2));
    assert((g * b) / a == z) by {
        assert(b == part * a) by (nonlinear_arith)
            requires
                a == brightness(x.0, x.1, x.2),
                b == brightness(y.0, y.1, y.2),
                y.0 == part * x.0,
                y.1 == part * x.1,
                y.2 == part * x.2,
        ;
        crate::worth::lemma_divided(g * b, a);
        let n = (g * b) / a;
        assert(n == z) by (nonlinear_arith)
            requires
                n * a == g * b,
                b == part * a,
                z == g * part,
                a > 0 as real,
        ;
    }
    lemma_no_core(p.src, p.centre, over);
    lemma_hue(p.src, over, gone);
    let hue = crate::clear::kept_hue(p.src, zero, over, Some(gone));
    lemma_dimmed_by(i.0, gone, x.0, z);
    lemma_dimmed_by(i.1, gone, x.1, z);
    lemma_dimmed_by(i.2, gone, x.2, z);
    let dim = one.less_by(gone).larger(zero);
    let scale = dim.sum(one.less_by(dim).product(zero));
    lemma_mixed(rgb.0, i.0.product(scale), hue, x.0 * ((1 as real) - z));
    lemma_mixed(rgb.1, i.1.product(scale), hue, x.1 * ((1 as real) - z));
    lemma_mixed(rgb.2, i.2.product(scale), hue, x.2 * ((1 as real) - z));
    let clean = p.cleaned(k, floor);
    assert(p.drawn(k, floor) == clean) by {
        if let Some(e) = p.excess {
            lemma_zero_times(p.w);
            let gone_share = crate::clear::unit(gone);
            lemma_zero_times(
                crate::advice::smoothed(Signed::part(25, 100), Signed::part(60, 100), gone_share),
            );
            crate::worth::law_order_is_by_worth(zero, zero);
        }
    }
    crate::worth::law_sum_is_close(clean.0, floor.0);
    crate::worth::law_sum_is_close(clean.1, floor.1);
    crate::worth::law_sum_is_close(clean.2, floor.2);
}

/// What goes of a channel is a part of it.
proof fn lemma_part_goes(x: real, y: real, g: real, part: real)
    requires
        y == part * x,
        (0 as real) < x <= 4 as real,
        g * part * (100 as real) <= 99 as real,
        (0 as real) < y,
        g >= 0 as real,
    ensures
        g * y * (100 as real) <= x * (99 as real),
        x * ((1 as real) - g * part) == x - g * y,
        (g * part) * x == g * y,
        0 as real <= g * part,
        0 as real <= x * ((1 as real) - g * part) <= 4 as real,
{
    let z = g * part;
    assert(g * y == z * x) by (nonlinear_arith)
        requires
            y == part * x,
            z == g * part,
    ;
    assert(part > 0 as real) by (nonlinear_arith)
        requires
            y == part * x,
            y > 0 as real,
            x > 0 as real,
    ;
    assert(z >= 0 as real) by (nonlinear_arith)
        requires
            z == g * part,
            part > 0 as real,
            g >= 0 as real,
    ;
    assert(z * x * (100 as real) <= x * (99 as real)) by (nonlinear_arith)
        requires
            z * (100 as real) <= 99 as real,
            x > 0 as real,
    ;
    assert(x * ((1 as real) - z) == x - z * x) by (nonlinear_arith);
    assert(z * x >= 0 as real) by (nonlinear_arith)
        requires
            z >= 0 as real,
            x > 0 as real,
    ;
}

/// What lies above zero is not raised to zero, nor to what lies below it.
proof fn lemma_stays(r: Signed, f: Signed)
    requires
        r.within(1200),
        f.within(200),
        f.worth() >= 0 as real,
        r.worth() > 0 as real,
    ensures
        r.larger(Signed::part(0, 1)).larger(f.negated()) == r,
{
    let zero = Signed::part(0, 1);
    crate::worth::law_integer_is_exact(0);
    crate::worth::law_order_is_by_worth(r, zero);
    crate::worth::law_order_is_by_worth(f, zero);
    crate::worth::law_order_is_by_worth(r, f.negated());
}

/// What is brought into the range of single precision is no brighter than before.
proof fn lemma_lowered(c: Signed, l: Signed)
    requires
        c.within(15_100),
        l.wf(),
        c.worth() < l.worth(),
        (0 as real) < l.worth() <= 4 as real,
    ensures
        crate::measure::settled(crate::held::held(c)).worth() < l.worth(),
{
    crate::worth::law_integer_is_exact(0);
    crate::worth::law_order_is_by_worth(c, c);
    if c.size.e > 200 && c.size.m > 0 {
        crate::worth::lemma_sizes(c.size, l.size);
        crate::worth::lemma_sizes(l.size, c.size);
        crate::worth::law_order_is_by_worth(l, l);
        if !c.neg {
            assert(crate::single::below(c.size, l.size));
        } else {
            let a = crate::measure::settled(crate::held::held(c));
            crate::worth::law_order_is_by_worth(a, a);
        }
    }
}

/// A smoky pixel of a photo gets darker at every strength but nothing: one that the settings reach in
/// full, and that is neither a line nor near a bright core.
pub proof fn law_smoke_goes_at_every_strength(
    p: crate::raster::Picture,
    q: &crate::smoke::SmokeParams,
    light: &crate::haze::Light,
    f: &crate::clear::SmokeField,
    i: int,
)
    requires
        crate::subject::is_photo(p),
        light.wf(),
        0 <= i < p.w * p.h,
        1 <= q.strength <= 100,
        crate::remove::maps(p, q, light, f).reach[i] == Signed::part(1, 1),
        crate::remove::one_of(crate::remove::maps(p, q, light, f).kernel, i) == Some(
            Signed::part(0, 1),
        ),
        q.restore_trails ==> crate::remove::one_of(
            crate::remove::maps(p, q, light, f).lines,
            i,
        ) == Some(Signed::part(0, 1)),
        crate::clear::brightest(crate::remove::bytes(p.d, i)) <= 215,
        is_smoky_pixel(
            crate::remove::pixel(p, f, crate::remove::maps(p, q, light, f), i),
            f.floor,
        ),
    ensures
        crate::remove::clear_photo(p, q, light, f).r[i].worth()
            < light.tones@[p.d[i * 3] as int].worth(),
        crate::remove::clear_photo(p, q, light, f).g[i].worth()
            < light.tones@[p.d[i * 3 + 1] as int].worth(),
        crate::remove::clear_photo(p, q, light, f).b[i].worth()
            < light.tones@[p.d[i * 3 + 2] as int].worth(),
        !q.changes_sky() ==> crate::remove::finished(p, q, light, f).r[i].worth()
            < light.tones@[p.d[i * 3] as int].worth(),
        !q.changes_sky() ==> crate::remove::finished(p, q, light, f).g[i].worth()
            < light.tones@[p.d[i * 3 + 1] as int].worth(),
        !q.changes_sky() ==> crate::remove::finished(p, q, light, f).b[i].worth()
            < light.tones@[p.d[i * 3 + 2] as int].worth(),
{
    let m = crate::remove::maps(p, q, light, f);
    let one = crate::remove::pixel(p, f, m, i);
    let s = q.strength as int;
    law_strength_is_the_share_that_goes(s);
    let k = crate::remove::pull(s);
    let y = (s as real) / (100 as real) * ((16 as real) / (10 as real));
    crate::worth::lemma_near_range(k.worth(), y, 8);
    law_smoky_pixels_get_darker(one, k, f.floor);
    assert(m.lin.r[i] == light.tones@[p.d[i * 3] as int]);
    assert(m.lin.g[i] == light.tones@[p.d[i * 3 + 1] as int]);
    assert(m.lin.b[i] == light.tones@[p.d[i * 3 + 2] as int]);
    let c = one.clear(k, f.floor);
    lemma_lowered(c.0, one.lin.0);
    lemma_lowered(c.1, one.lin.1);
    lemma_lowered(c.2, one.lin.2);
}

} // verus!
