//! What mixing makes of pixels, as numbers that are not rounded: between four of them, a sticker over a
//! photo, and a graded copy where a mask lets it through.

use vstd::prelude::*;

use crate::signed::Signed;
use crate::single::Single;
use crate::stroke::Point;

verus! {

/// The way from `x` to `y`, as far as `t`.
pub open spec fn between(x: real, y: real, t: real) -> real {
    x + (y - x) * t
}

/// The byte is a nearest one to a number, but for what rounding leaves of that.
pub open spec fn is_level(b: u8, x: real) -> bool {
    crate::worth::extent((b as int) as real - x) * (100 as real) <= 51 as real
}

/// A number kept in the range of a byte.
pub open spec fn in_byte(x: real) -> real {
    if x < 0 as real {
        0 as real
    } else if x > 255 as real {
        255 as real
    } else {
        x
    }
}

/// A mix of two numbers.
proof fn lemma_mix(b: Signed, c: Signed, a: Signed, x: real, y: real, e: real)
    requires
        crate::worth::is_about(b, x, e),
        crate::worth::is_about(c, y, e),
        crate::held::fits(a),
        0 as real <= a.worth() <= 1 as real,
        0 as real <= x <= 256 as real,
        0 as real <= y <= 256 as real,
        0 as real <= e <= 10_000 as real,
    ensures
        crate::worth::is_about(
            crate::held::mixed(b, c, a),
            between(x, y, a.worth()),
            e * (3 as real) + (1100 as real),
        ),
        0 as real <= between(x, y, a.worth()) <= 256 as real,
{
    let t = a.worth();
    crate::worth::lemma_about_minus(c, b, y, x, e, e);
    let d = crate::held::minus(c, b);
    crate::worth::lemma_about_scaled(
        d,
        a,
        y - x,
        e * (2 as real) + (260 as real),
        260 as real,
        1 as real,
    );
    let z = (y - x) * t;
    let o = (1 as real) - t;
    assert(x + z == x * o + y * t) by (nonlinear_arith)
        requires
            z == (y - x) * t,
            o == (1 as real) - t,
    ;
    assert(0 as real <= x * o <= (256 as real) * o && 0 as real <= y * t <= (256 as real) * t)
        by (nonlinear_arith)
        requires
            0 as real <= x <= 256 as real,
            0 as real <= y <= 256 as real,
            0 as real <= o,
            0 as real <= t,
    ;
    crate::worth::lemma_about_plus(
        b,
        crate::held::times(d, a),
        x,
        z,
        e,
        e * (2 as real) + (600 as real),
    );
}

/// Between four pixels, each counts the more the nearer it lies: twice mixed across, and then down.
pub proof fn law_four_pixels_are_mixed(
    a: Signed,
    b: Signed,
    c: Signed,
    d: Signed,
    s: Signed,
    t: Signed,
)
    requires
        crate::held::fits(a) && 0 as real <= a.worth() <= 255 as real,
        crate::held::fits(b) && 0 as real <= b.worth() <= 255 as real,
        crate::held::fits(c) && 0 as real <= c.worth() <= 255 as real,
        crate::held::fits(d) && 0 as real <= d.worth() <= 255 as real,
        crate::held::fits(s) && 0 as real <= s.worth() <= 1 as real,
        crate::held::fits(t) && 0 as real <= t.worth() <= 1 as real,
    ensures
        crate::worth::extent(
            crate::sample::four(a, b, c, d, s, t).worth() - between(
                between(a.worth(), b.worth(), s.worth()),
                between(c.worth(), d.worth(), s.worth()),
                t.worth(),
            ),
        ) * (1000 as real) <= 1 as real,
{
    let z = 0 as real;
    lemma_mix(a, b, s, a.worth(), b.worth(), z);
    lemma_mix(c, d, s, c.worth(), d.worth(), z);
    lemma_mix(
        crate::held::mixed(a, b, s),
        crate::held::mixed(c, d, s),
        t,
        between(a.worth(), b.worth(), s.worth()),
        between(c.worth(), d.worth(), s.worth()),
        1100 as real,
    );
}

/// The byte of a number is the nearest one.
pub proof fn law_byte_is_nearest(v: Signed, x: real, e: real)
    requires
        crate::worth::is_about(v, x, e),
        0 as real <= e <= 100_000 as real,
    ensures
        is_level(crate::sample::byte(v), in_byte(x)),
{
    let (zero, top) = (Signed::part(0, 1), Signed::part(255, 1));
    crate::worth::law_integer_is_exact(0);
    crate::worth::law_integer_is_exact(255);
    crate::worth::law_order_is_by_worth(v, zero);
    crate::worth::law_order_is_by_worth(top, v);
    let c = v.clamped(zero, top);
    crate::worth::law_order_is_by_worth(c, c);
    crate::worth::law_round_is_near(c.size);
}

/// A sticker covers a pixel by its opacity there: every channel goes that far from what the photo has
/// to what the sticker has.
pub proof fn law_sticker_covers_by_its_opacity(
    b: (u8, u8, u8),
    s: crate::overlay::Sticker,
    p: Point,
    a: Signed,
)
    requires
        crate::held::fits(a),
        0 as real <= a.worth() <= 1 as real,
        forall|c: int|
            0 <= c < 3 ==> crate::held::fits(#[trigger] crate::overlay::tone_at(s, p.0, p.1, c))
                && 0 as real <= crate::overlay::tone_at(s, p.0, p.1, c).worth() <= 255 as real,
    ensures
        ({
            let out = crate::overlay::laid(b, s, p, a);
            let t = a.worth();
            &&& is_level(
                out.0,
                between((b.0 as int) as real, crate::overlay::tone_at(s, p.0, p.1, 0).worth(), t),
            )
            &&& is_level(
                out.1,
                between((b.1 as int) as real, crate::overlay::tone_at(s, p.0, p.1, 1).worth(), t),
            )
            &&& is_level(
                out.2,
                between((b.2 as int) as real, crate::overlay::tone_at(s, p.0, p.1, 2).worth(), t),
            )
        }),
{
    lemma_covered(b.0, crate::overlay::tone_at(s, p.0, p.1, 0), a);
    lemma_covered(b.1, crate::overlay::tone_at(s, p.0, p.1, 1), a);
    lemma_covered(b.2, crate::overlay::tone_at(s, p.0, p.1, 2), a);
}

/// One channel that is covered.
proof fn lemma_covered(b: u8, y: Signed, a: Signed)
    requires
        crate::held::fits(a),
        0 as real <= a.worth() <= 1 as real,
        crate::held::fits(y),
        0 as real <= y.worth() <= 255 as real,
    ensures
        is_level(
            crate::sample::byte(crate::held::mixed(Signed::part(b as int, 1), y, a)),
            between((b as int) as real, y.worth(), a.worth()),
        ),
{
    let (x, z, t) = ((b as int) as real, y.worth(), a.worth());
    crate::worth::lemma_about_integer(b as int);
    lemma_mix(Signed::part(b as int, 1), y, a, x, z, 0 as real);
    let m = crate::held::mixed(Signed::part(b as int, 1), y, a);
    law_byte_is_nearest(m, between(x, z, t), 1100 as real);
    let d = (z - x) * t;
    let o = (1 as real) - t;
    assert(x + d == x * o + z * t) by (nonlinear_arith)
        requires
            d == (z - x) * t,
            o == (1 as real) - t,
    ;
    assert(0 as real <= x * o <= (255 as real) * o && 0 as real <= z * t <= (255 as real) * t)
        by (nonlinear_arith)
        requires
            0 as real <= x <= 255 as real,
            0 as real <= z <= 255 as real,
            0 as real <= o,
            0 as real <= t,
    ;
}

/// A graded copy shows through by its weight: every channel goes that far from what the photo has to
/// what the copy has, to the nearest level.
pub proof fn law_graded_copy_shows_by_its_weight(d: u8, l: u8, k: Single)
    requires
        crate::single::is_share(k),
    ensures
        is_level(
            crate::edit::moved(d, l, k),
            between((d as int) as real, (l as int) as real, k.worth()),
        ),
{
    let (x, y, t) = ((d as int) as real, (l as int) as real, k.worth());
    let w = Signed { neg: false, size: k };
    let (lo, hi, one) = (Signed::part(1, 512), Signed::part(511, 512), Signed::part(1, 1));
    crate::worth::law_part_is_close(1, 512);
    crate::worth::law_part_is_close(511, 512);
    crate::worth::law_integer_is_exact(1);
    crate::single::lemma_one();
    crate::worth::law_order_is_by_worth(lo, w);
    crate::worth::law_order_is_by_worth(w, hi);
    crate::worth::law_order_is_by_worth(one, w);
    crate::worth::law_order_is_by_worth(w, w);
    assert(t <= 1 as real);
    let z = (y - x) * t;
    if !lo.lies_below(w) {
        lemma_small_way(y - x, t);
    } else if !w.lies_below(hi) {
        let o = (1 as real) - t;
        lemma_small_way(x - y, o);
        assert((x - y) * o == x + z - y) by (nonlinear_arith)
            requires
                o == (1 as real) - t,
                z == (y - x) * t,
        ;
        assert((x - y) * o == x - y - (x - y) * t) by (nonlinear_arith)
            requires
                o == (1 as real) - t,
        ;
    } else {
        crate::worth::lemma_plain(w);
        let far = if l >= d {
            l - d
        } else {
            d - l
        };
        let f = far as real;
        let (a, b) = (Signed::part(d as int, 1), Signed::part(far, 1));
        crate::worth::law_integer_is_exact(d as int);
        crate::worth::law_integer_is_exact(far);
        crate::worth::law_product_is_close(w, b);
        let p = w.product(b);
        let tf = t * f;
        assert(0 as real <= tf <= f && tf * (512_000 as real) <= f * (511_001 as real)) by (nonlinear_arith)
            requires
                tf == t * f,
                0 as real <= t <= 1 as real,
                t * (512_000 as real) <= 511_001 as real,
                0 as real <= f <= 255 as real,
        ;
        crate::worth::lemma_close_range(p.worth(), tf);
        crate::worth::law_order_is_by_worth(p, p);
        crate::worth::law_order_is_by_worth(a, p);
        if l >= d {
            assert(z == tf) by (nonlinear_arith)
                requires
                    z == (y - x) * t,
                    tf == t * f,
                    f == y - x,
            ;
            crate::worth::law_sum_is_close(a, p);
            let s = a.sum(p);
            assert(s.size == crate::single::total(
                crate::single::nearest(d as int, 1),
                crate::single::product(k, crate::single::nearest(l - d, 1)),
            )) by {
                reveal(Signed::sum);
                reveal(Signed::product);
            }
            crate::worth::law_order_is_by_worth(s, s);
            crate::worth::law_round_is_near(s.size);
        } else {
            assert(z == -tf) by (nonlinear_arith)
                requires
                    z == (y - x) * t,
                    tf == t * f,
                    f == x - y,
            ;
            assert(tf > 0 as real) by (nonlinear_arith)
                requires
                    tf == t * f,
                    t > 0 as real,
                    f > 0 as real,
            ;
            crate::worth::law_difference_is_close(a, p);
            let s = a.less_by(p);
            assert(f == x - y && y >= 0 as real && f > 0 as real);
            assert(tf * (1000 as real) < f * (999 as real));
            assert(p.worth() * (1000 as real) <= tf * (1001 as real));
            assert(p.worth() < x);
            assert(s.size == crate::single::remainder(
                crate::single::nearest(d as int, 1),
                crate::single::product(k, crate::single::nearest(d - l, 1)),
            )) by {
                reveal(Signed::sum);
                reveal(Signed::product);
            }
            crate::worth::law_order_is_by_worth(s, s);
            crate::worth::law_round_is_near(s.size);
        }
    }
}

/// A small share of the way between two bytes is less than half a level.
proof fn lemma_small_way(f: real, t: real)
    requires
        crate::worth::extent(f) <= 255 as real,
        0 as real <= t,
        t * (512 as real) <= (1 as real) + (1 as real) / (1000 as real),
    ensures
        crate::worth::extent(f * t) * (100 as real) <= 50 as real,
{
    crate::worth::lemma_extent(f, t);
    let e = crate::worth::extent(f);
    assert(e * t * (100 as real) <= 50 as real) by (nonlinear_arith)
        requires
            0 as real <= e <= 255 as real,
            0 as real <= t,
            t * (512 as real) <= (1 as real) + (1 as real) / (1000 as real),
    ;
}

} // verus!
