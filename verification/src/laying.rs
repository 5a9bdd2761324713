//! What the transform that matches a layer with the ground does to the layer: it moves the two patches
//! that were measured to where the ground has them.

use vstd::prelude::*;

use crate::signed::Signed;
use crate::stack::Xform;
use crate::stroke::Point;

verus! {

/// A degree in radians.
pub open spec fn radian() -> real {
    (174_532_925 as real) / (10_000_000_000 as real)
}

/// How far down a transform moves what it lays on column `x` of a `w` by `h` ground: a layer that is
/// turned goes down at the right of the middle and up at the left of it. The turn is a small one.
pub open spec fn sinks(f: Xform, w: int, h: int, x: int) -> real {
    f.dy.worth() * (h as real) + (x as real - (w as real) / (2 as real)) * (f.rot.worth()
        * radian())
}

/// How far to the right a transform moves what it lays on row `y` of a `w` by `h` ground.
pub open spec fn sways(f: Xform, w: int, h: int, y: int) -> real {
    f.dx.worth() * (w as real) - (y as real - (h as real) / (2 as real)) * (f.rot.worth()
        * radian())
}

/// Two real numbers are no further apart than a fiftieth.
pub open spec fn is_beside(x: real, y: real) -> bool {
    crate::worth::extent(x - y) * (50 as real) <= 1 as real
}

/// How steep the line between two patches became.
proof fn lemma_steepness(left: i64, right: i64, a: Signed, b: Signed)
    requires
        0 <= left < right <= 4000,
        crate::held::fits(a),
        crate::held::fits(b),
        crate::worth::extent(a.worth()) <= 1000 as real,
        crate::worth::extent(b.worth()) <= 1000 as real,
        crate::worth::extent(b.worth() - a.worth()) * (10 as real) <= (right - left) as real,
    ensures
        ({
            let s = crate::held::over(
                crate::held::minus(b, a),
                crate::held::minus(Signed::integer(right as int), Signed::integer(left as int)),
            );
            let n = (right - left) as real;
            &&& crate::held::fits(s)
            &&& crate::worth::extent(s.worth()) * (8 as real) <= 1 as real
            &&& crate::worth::extent(s.worth() * n - (b.worth() - a.worth())) * (0x100_0000 as real)
                <= n * (2 as real) + (3 as real)
        }),
{
    let q = 0x100_0000 as real;
    let n = (right - left) as real;
    let d = b.worth() - a.worth();
    crate::worth::lemma_about_signed_integer(left as int);
    crate::worth::lemma_about_signed_integer(right as int);
    crate::worth::law_minus_is_off(b, a);
    crate::worth::law_minus_is_off(
        Signed::integer(right as int),
        Signed::integer(left as int),
    );
    let (u, v) = (
        crate::held::minus(b, a),
        crate::held::minus(Signed::integer(right as int), Signed::integer(left as int)),
    );
    crate::worth::law_order_is_by_worth(v, v);
    let (x, y) = (u.worth(), v.worth());
    assert(y > 0 as real);
    let z = x / y;
    crate::worth::lemma_divided(x, y);
    crate::worth::lemma_extent(z, y);
    let ez = crate::worth::extent(z);
    assert(ez * (9 as real) <= 1 as real) by (nonlinear_arith)
        requires
            ez * y == crate::worth::extent(x),
            crate::worth::extent(x) * (9 as real) <= y,
            y > 0 as real,
    ;
    crate::worth::law_over_is_off(u, v);
    let s = crate::held::over(u, v);
    let w = s.worth();
    // What the steepness makes of the distance.
    let (e, g) = (w - z, y - n);
    crate::worth::lemma_extent(e, n);
    crate::worth::lemma_extent(z, g);
    let (ee, eg) = (crate::worth::extent(e), crate::worth::extent(g));
    assert(w * n - d == e * n - z * g + (x - d)) by (nonlinear_arith)
        requires
            e == w - z,
            g == y - n,
            z * y == x,
    ;
    assert(ee * n * q <= n * ((10 as real) / (9 as real))) by (nonlinear_arith)
        requires
            ee * q <= (10 as real) / (9 as real),
            n > 0 as real,
    ;
    let f = eg * q;
    assert(ez * eg * q == ez * f) by (nonlinear_arith)
        requires
            f == eg * q,
    ;
    assert((ez * f) * (9 as real) <= f) by (nonlinear_arith)
        requires
            ez * (9 as real) <= 1 as real,
            0 as real <= f,
    ;
    assert(f <= n + (1 as real));
    assert(crate::worth::extent(e * n) == ee * n);
}

/// A place, from the middle.
proof fn lemma_centred(v: int, n: int)
    requires
        0 <= v <= n <= 4000,
        0 < n,
    ensures
        crate::worth::is_about(
            crate::tilt::centred(v, n),
            (v as real) - (n as real) / (2 as real),
            4100 as real,
        ),
        crate::worth::extent((v as real) - (n as real) / (2 as real)) <= 2000 as real,
{
    let half = crate::held::over(Signed::part(n, 1), Signed::part(2, 1));
    let x = (n as real) / (2 as real);
    crate::worth::law_integer_is_exact(n);
    crate::worth::law_integer_is_exact(2);
    crate::worth::law_order_is_by_worth(Signed::part(2, 1), Signed::part(2, 1));
    crate::worth::law_over_is_off(Signed::part(n, 1), Signed::part(2, 1));
    assert(crate::worth::is_about(half, x, 2001 as real));
    crate::worth::lemma_about_signed_integer(v);
    crate::worth::lemma_about_minus(
        Signed::integer(v),
        half,
        v as real,
        x,
        0 as real,
        2001 as real,
    );
}

/// The middle of two moves, each less (or more) what the turn does to it.
proof fn lemma_middle(a: Signed, b: Signed, v: int, w: int, n: int, t: Signed, less: bool)
    requires
        crate::held::fits(a),
        crate::held::fits(b),
        crate::held::fits(t),
        crate::worth::extent(a.worth()) <= 1000 as real,
        crate::worth::extent(b.worth()) <= 1000 as real,
        crate::worth::extent(t.worth()) * (7 as real) <= 1 as real,
        0 <= v <= n <= 4000,
        0 <= w <= n,
        0 < n,
    ensures
        ({
            let (p, q) = (
                crate::held::times(crate::tilt::centred(v, n), t),
                crate::held::times(crate::tilt::centred(w, n), t),
            );
            let s = if less {
                crate::held::over(
                    crate::held::plus(crate::held::minus(a, p), crate::held::minus(b, q)),
                    Signed::part(2, 1),
                )
            } else {
                crate::tilt::middle(a, p, b, q)
            };
            let (x, y) = (
                (v as real) - (n as real) / (2 as real),
                (w as real) - (n as real) / (2 as real),
            );
            let turned = (x + y) * t.worth();
            &&& crate::held::fits(s)
            &&& crate::worth::extent(s.worth()) <= 1300 as real
            &&& crate::worth::extent(
                s.worth() * (2 as real) - (a.worth() + b.worth() + if less {
                    -turned
                } else {
                    turned
                }),
            ) * (0x100_0000 as real) <= 20_000 as real
        }),
{
    let (cv, cw) = (crate::tilt::centred(v, n), crate::tilt::centred(w, n));
    let (x, y) = (
        (v as real) - (n as real) / (2 as real),
        (w as real) - (n as real) / (2 as real),
    );
    lemma_centred(v, n);
    lemma_centred(w, n);
    let (k, z) = (t.worth(), 0 as real);
    let seventh = (1 as real) / (7 as real);
    crate::worth::lemma_about_times(cv, t, x, k, 4100 as real, z, 2000 as real, seventh);
    crate::worth::lemma_about_times(cw, t, y, k, 4100 as real, z, 2000 as real, seventh);
    let (p, q) = (crate::held::times(cv, t), crate::held::times(cw, t));
    let (xk, yk) = (x * k, y * k);
    assert((x + y) * k == xk + yk) by (nonlinear_arith)
        requires
            xk == x * k,
            yk == y * k,
    ;
    let e = 910 as real;
    crate::worth::law_integer_is_exact(2);
    if less {
        crate::worth::lemma_about_minus(a, p, a.worth(), xk, z, e);
        crate::worth::lemma_about_minus(b, q, b.worth(), yk, z, e);
        crate::worth::lemma_about_plus(
            crate::held::minus(a, p),
            crate::held::minus(b, q),
            a.worth() - xk,
            b.worth() - yk,
            2300 as real,
            2300 as real,
        );
        crate::worth::lemma_about_over(
            crate::held::plus(crate::held::minus(a, p), crate::held::minus(b, q)),
            2,
            a.worth() - xk + (b.worth() - yk),
            7300 as real,
        );
    } else {
        crate::worth::lemma_about_plus(a, p, a.worth(), xk, z, e);
        crate::worth::lemma_about_plus(b, q, b.worth(), yk, z, e);
        crate::worth::lemma_about_plus(
            crate::held::plus(a, p),
            crate::held::plus(b, q),
            a.worth() + xk,
            b.worth() + yk,
            2300 as real,
            2300 as real,
        );
        crate::worth::lemma_about_over(
            crate::held::plus(crate::held::plus(a, p), crate::held::plus(b, q)),
            2,
            a.worth() + xk + (b.worth() + yk),
            7300 as real,
        );
    }
}

/// The turn as it is used: what the steepness comes to, in degrees and back.
proof fn lemma_turn(s: Signed, deg: Signed)
    requires
        crate::held::fits(s),
        crate::worth::extent(s.worth()) * (8 as real) <= 1 as real,
        deg == crate::tilt::steadied(crate::held::times(s, crate::tilt::degrees())),
    ensures
        ({
            let t = crate::held::times(deg, crate::tilt::radians());
            &&& crate::held::fits(deg)
            &&& crate::held::fits(t)
            &&& crate::worth::extent(deg.worth()) <= 8 as real
            &&& crate::worth::extent(t.worth()) * (7 as real) <= 1 as real
            &&& crate::worth::extent(t.worth() - deg.worth() * radian()) * (0x100_0000 as real)
                <= 42 as real
            &&& crate::worth::extent(s.worth()) * (2700 as real) >= 1 as real ==> crate::worth::extent(
                t.worth() - s.worth(),
            ) * (0x100_0000 as real) <= 46 as real
        }),
{
    let q = 0x100_0000 as real;
    let (k, c) = (crate::tilt::degrees(), crate::tilt::radians());
    let (x, y) = ((15019745 as real) / (262144 as real), (9370165 as real) / (536870912 as real));
    crate::worth::law_part_is_close(15019745, 262144);
    crate::worth::law_part_is_close(9370165, 536870912);
    crate::worth::law_integer_is_exact(0);
    crate::worth::law_part_is_close(2, 100);
    crate::worth::lemma_close_range(Signed::part(2, 100).worth(), (2 as real) / (100 as real));
    assert(crate::worth::is_about(k, x, 58 as real));
    assert(crate::worth::is_about(c, y, 1 as real));
    let (z, w) = (0 as real, s.worth());
    let eighth = (1 as real) / (8 as real);
    crate::worth::lemma_about_times(s, k, w, x, z, 58 as real, eighth, 58 as real);
    let raw = crate::held::times(s, k);
    crate::worth::law_order_is_by_worth(raw, raw);
    crate::worth::law_order_is_by_worth(raw.size_of(), Signed::part(2, 100));
    crate::worth::lemma_about_times(deg, c, deg.worth(), y, z, 1 as real, 8 as real, (1 as real) / (
    50 as real));
    let t = crate::held::times(deg, c);
    let d = deg.worth();
    let g = y - radian();
    assert(crate::worth::extent(g) * (1_000_000_000 as real) <= 1 as real);
    crate::worth::lemma_extent(d, g);
    let (ed, eg) = (crate::worth::extent(d), crate::worth::extent(g));
    assert(ed * eg * (100_000_000 as real) <= 1 as real) by (nonlinear_arith)
        requires
            ed <= 8 as real,
            0 as real <= ed,
            0 as real <= eg,
            eg * (1_000_000_000 as real) <= 1 as real,
    ;
    assert(d * y - d * radian() == d * g) by (nonlinear_arith)
        requires
            g == y - radian(),
    ;
    if crate::worth::extent(w) * (2700 as real) >= 1 as real {
        assert(deg == raw) by {
            assert(crate::worth::extent(w * x) * (50 as real) > 1 as real + (1 as real) / (
            100 as real)) by {
                crate::worth::lemma_extent(w, x);
            }
        }
        // Into degrees and back.
        let e = raw.worth() - w * x;
        crate::worth::lemma_extent(e, y);
        assert(d * y == (w * x) * y + e * y) by (nonlinear_arith)
            requires
                d == w * x + e,
        ;
        let o = x * y - (1 as real);
        assert(crate::worth::extent(o) * (100_000_000 as real) <= 1 as real);
        assert((w * x) * y == w + w * o) by (nonlinear_arith)
            requires
                o == x * y - (1 as real),
        ;
        crate::worth::lemma_extent(w, o);
        let (ew, eo) = (crate::worth::extent(w), crate::worth::extent(o));
        assert(ew * eo * (100_000_000 as real) <= 1 as real) by (nonlinear_arith)
            requires
                0 as real <= ew <= 1 as real,
                0 as real <= eo,
                eo * (100_000_000 as real) <= 1 as real,
        ;
    }
}

/// The size of a product with something small.
proof fn lemma_small_product(c: real, d: real, u: real, a: real)
    requires
        crate::worth::extent(c) <= u,
        crate::worth::extent(d) * (0x100_0000 as real) <= a,
        a >= 0 as real,
    ensures
        crate::worth::extent(c * d) * (0x100_0000 as real) <= u * a,
{
    crate::worth::lemma_extent(c, d);
    let (e, f) = (crate::worth::extent(c), crate::worth::extent(d));
    let g = f * (0x100_0000 as real);
    assert(e * f * (0x100_0000 as real) == e * g) by (nonlinear_arith)
        requires
            g == f * (0x100_0000 as real),
    ;
    assert(e * g <= u * a) by (nonlinear_arith)
        requires
            0 as real <= e <= u,
            0 as real <= g <= a,
    ;
}

/// A move as a part of a side, and back.
proof fn lemma_part_of_side(s: Signed, n: int)
    requires
        crate::held::fits(s),
        crate::worth::extent(s.worth()) <= 1300 as real,
        0 < n <= 4000,
    ensures
        ({
            let r = crate::measure::settled(crate::held::over(s, Signed::part(n, 1)));
            crate::worth::extent(r.worth() * (n as real) - s.worth()) * (0x100_0000 as real)
                <= 5400 as real
        }),
{
    let m = n as real;
    crate::worth::lemma_about_over(s, n, s.worth(), 0 as real);
    let a = crate::held::over(s, Signed::part(n, 1));
    crate::worth::lemma_settled(a);
    let d = crate::measure::settled(a).worth() - a.worth();
    let (x, y) = (crate::measure::settled(a).worth(), a.worth());
    assert(x * m - y * m == m * d) by (nonlinear_arith)
        requires
            d == x - y,
    ;
    lemma_small_product(m, d, 4000 as real, (1 as real) / (1000 as real));
}

/// A layer is laid on the ground so that the two patches that were measured come to lie where the ground
/// has them. Together they are moved as far as was measured, across and down; and where their moves
/// differ enough for a turn to be seen, each of them is moved down as far as was measured, so the turn
/// goes the way the patches went.
pub proof fn law_patches_are_brought_back(
    w: int,
    h: int,
    left: (i64, i64),
    right: (i64, i64),
    ml: Point,
    mr: Point,
)
    requires
        0 < w <= 4000,
        0 < h <= 4000,
        0 <= left.0 < right.0 <= w,
        0 <= left.1 <= h,
        0 <= right.1 <= h,
        crate::stroke::is_spot(ml),
        crate::stroke::is_spot(mr),
        crate::worth::extent(ml.0.worth()) <= 1000 as real,
        crate::worth::extent(ml.1.worth()) <= 1000 as real,
        crate::worth::extent(mr.0.worth()) <= 1000 as real,
        crate::worth::extent(mr.1.worth()) <= 1000 as real,
        crate::worth::extent(mr.1.worth() - ml.1.worth()) * (10 as real) <= (right.0 - left.0)
            as real,
        crate::tilt::laid(w, h, left, right, ml, mr) is Some,
    ensures
        ({
            let f = crate::tilt::turned_by(crate::tilt::laid(w, h, left, right, ml, mr)->0);
            &&& f.scale.worth() == 1 as real
            &&& is_beside(
                sinks(f, w, h, left.0 as int) + sinks(f, w, h, right.0 as int),
                ml.1.worth() + mr.1.worth(),
            )
            &&& is_beside(
                sways(f, w, h, left.1 as int) + sways(f, w, h, right.1 as int),
                ml.0.worth() + mr.0.worth(),
            )
            &&& crate::worth::extent(mr.1.worth() - ml.1.worth()) * (2600 as real) >= (right.0
                - left.0) as real ==> is_beside(
                sinks(f, w, h, left.0 as int),
                ml.1.worth(),
            ) && is_beside(sinks(f, w, h, right.0 as int), mr.1.worth())
        }),
{
    let q = 0x100_0000 as real;
    let f = crate::tilt::turned_by(crate::tilt::laid(w, h, left, right, ml, mr)->0);
    let raw = crate::tilt::slant(left, right, ml, mr);
    let deg = crate::tilt::steadied(raw);
    let t = crate::held::times(deg, crate::tilt::radians());
    let s = crate::held::over(
        crate::held::minus(mr.1, ml.1),
        crate::held::minus(Signed::integer(right.0 as int), Signed::integer(left.0 as int)),
    );
    lemma_steepness(left.0, right.0, ml.1, mr.1);
    lemma_turn(s, deg);
    lemma_middle(ml.1, mr.1, left.0 as int, right.0 as int, w, t, true);
    lemma_middle(ml.0, mr.0, left.1 as int, right.1 as int, h, t, false);
    let down = crate::held::over(
        crate::held::plus(
            crate::held::minus(
                ml.1,
                crate::held::times(crate::tilt::centred(left.0 as int, w), t),
            ),
            crate::held::minus(
                mr.1,
                crate::held::times(crate::tilt::centred(right.0 as int, w), t),
            ),
        ),
        Signed::part(2, 1),
    );
    let across = crate::tilt::middle(
        ml.0,
        crate::held::times(crate::tilt::centred(left.1 as int, h), t),
        mr.0,
        crate::held::times(crate::tilt::centred(right.1 as int, h), t),
    );
    lemma_part_of_side(down, h);
    lemma_part_of_side(across, w);
    crate::worth::lemma_settled(deg);
    let (k, r) = (t.worth(), f.rot.worth() * radian());
    let e = k - r;
    let (o, i) = (f.rot.worth(), deg.worth());
    lemma_small_product(radian(), o - i, 1 as real, (1 as real) / (1000 as real));
    assert(radian() * (o - i) == r - i * radian()) by (nonlinear_arith)
        requires
            r == o * radian(),
    ;
    assert(crate::worth::extent(e) * q <= 43 as real);
    let half = (w as real) / (2 as real);
    let tall = (h as real) / (2 as real);
    let (a, b) = ((left.0 as int) as real - half, (right.0 as int) as real - half);
    let (c, d) = ((left.1 as int) as real - tall, (right.1 as int) as real - tall);
    lemma_small_product(a + b, e, 4000 as real, 43 as real);
    lemma_small_product(c + d, e, 4000 as real, 43 as real);
    assert((a + b) * e == (a + b) * k - (a * r + b * r)) by (nonlinear_arith)
        requires
            e == k - r,
    ;
    assert((c + d) * e == (c + d) * k - (c * r + d * r)) by (nonlinear_arith)
        requires
            e == k - r,
    ;
    crate::single::lemma_one();
    crate::worth::law_integer_is_exact(1);
    let (lo, hi) = (sinks(f, w, h, left.0 as int), sinks(f, w, h, right.0 as int));
    assert(lo == f.dy.worth() * (h as real) + a * r);
    assert(hi == f.dy.worth() * (h as real) + b * r);
    assert(is_beside(lo + hi, ml.1.worth() + mr.1.worth()));
    let (u, v) = (sways(f, w, h, left.1 as int), sways(f, w, h, right.1 as int));
    assert(u == f.dx.worth() * (w as real) - c * r);
    assert(v == f.dx.worth() * (w as real) - d * r);
    assert(is_beside(u + v, ml.0.worth() + mr.0.worth()));
    let n = (right.0 - left.0) as real;
    let rise = mr.1.worth() - ml.1.worth();
    if crate::worth::extent(rise) * (2600 as real) >= n {
        let (x, z) = (s.worth(), s.worth() * n);
        assert(crate::worth::extent(x) * (2700 as real) >= 1 as real) by {
            crate::worth::lemma_extent(x, n);
            let ex = crate::worth::extent(x);
            assert(ex * (2700 as real) >= 1 as real) by (nonlinear_arith)
                requires
                    ex * n * (2650 as real) >= n,
                    n > 0 as real,
                    ex >= 0 as real,
            ;
        }
        lemma_small_product(n, k - x, 4000 as real, 46 as real);
        assert(n * (k - x) == n * k - z) by (nonlinear_arith)
            requires
                z == x * n,
        ;
        lemma_small_product(a, e, 2000 as real, 43 as real);
        lemma_small_product(b, e, 2000 as real, 43 as real);
        assert(a * e == a * k - a * r && b * e == b * k - b * r) by (nonlinear_arith)
            requires
                e == k - r,
        ;
        assert(n * k == b * k - a * k) by (nonlinear_arith)
            requires
                n == b - a,
        ;
        assert((a + b) * k == a * k + b * k) by (nonlinear_arith);
        assert(is_beside(lo, ml.1.worth()));
        assert(is_beside(hi, mr.1.worth()));
    }
}

/// Where a shift alone is found, the layer is moved by it, all of it alike.
pub proof fn law_shift_moves_all_alike(s: crate::align::Shift, x: int, y: int)
    requires
        0 < s.w <= 4000,
        0 < s.h <= 4000,
        -1300 <= s.dx <= 1300,
        -1300 <= s.dy <= 1300,
    ensures
        ({
            let f = crate::tilt::moved_by(s);
            &&& f.scale.worth() == 1 as real
            &&& is_beside(sinks(f, s.w as int, s.h as int, x), s.dy as real)
            &&& is_beside(sways(f, s.w as int, s.h as int, y), s.dx as real)
        }),
{
    let f = crate::tilt::moved_by(s);
    crate::worth::lemma_about_signed_integer(s.dx as int);
    crate::worth::lemma_about_signed_integer(s.dy as int);
    lemma_part_of_side(Signed::integer(s.dx as int), s.w as int);
    lemma_part_of_side(Signed::integer(s.dy as int), s.h as int);
    crate::single::lemma_one();
    crate::worth::law_integer_is_exact(1);
    let n = f.rot.size;
    assert(n.worth() == 0 as real) by {
        let t = crate::worth::two_to(n.e as int);
        assert((0 as real) * t == 0 as real) by (nonlinear_arith);
    }
    let r = f.rot.worth() * radian();
    assert(r == 0 as real);
    let (a, b) = (
        x as real - (s.w as real) / (2 as real),
        y as real - (s.h as real) / (2 as real),
    );
    assert(a * r == 0 as real && b * r == 0 as real) by (nonlinear_arith)
        requires
            r == 0 as real,
    ;
}

/// A turn of less than about three degrees is taken, and one of more is not.
pub proof fn law_only_small_turns_are_taken(
    w: int,
    h: int,
    left: (i64, i64),
    right: (i64, i64),
    ml: Point,
    mr: Point,
)
    requires
        0 <= left.0 < right.0 <= 4000,
        crate::stroke::is_spot(ml),
        crate::stroke::is_spot(mr),
        crate::worth::extent(ml.1.worth()) <= 1000 as real,
        crate::worth::extent(mr.1.worth()) <= 1000 as real,
        crate::worth::extent(mr.1.worth() - ml.1.worth()) * (10 as real) <= (right.0 - left.0)
            as real,
    ensures
        crate::worth::extent(mr.1.worth() - ml.1.worth()) * (1000 as real) <= (52 as real) * ((
        right.0 - left.0) as real) ==> crate::tilt::laid(w, h, left, right, ml, mr) is Some,
        crate::worth::extent(mr.1.worth() - ml.1.worth()) * (1000 as real) >= (53 as real) * ((
        right.0 - left.0) as real) ==> crate::tilt::laid(w, h, left, right, ml, mr) is None,
{
    let q = 0x100_0000 as real;
    let n = (right.0 - left.0) as real;
    let rise = mr.1.worth() - ml.1.worth();
    let raw = crate::tilt::slant(left, right, ml, mr);
    let s = crate::held::over(
        crate::held::minus(mr.1, ml.1),
        crate::held::minus(Signed::integer(right.0 as int), Signed::integer(left.0 as int)),
    );
    lemma_steepness(left.0, right.0, ml.1, mr.1);
    let (x, e) = (s.worth(), crate::worth::extent(s.worth()));
    crate::worth::lemma_extent(x, n);
    let k = crate::tilt::degrees();
    let d = (15019745 as real) / (262144 as real);
    crate::worth::law_part_is_close(15019745, 262144);
    crate::worth::lemma_about_times(
        s,
        k,
        x,
        d,
        0 as real,
        58 as real,
        (1 as real) / (8 as real),
        58 as real,
    );
    crate::worth::lemma_extent(x, d);
    crate::worth::law_integer_is_exact(3);
    crate::worth::law_order_is_by_worth(raw, raw);
    crate::worth::law_order_is_by_worth(Signed::part(3, 1), raw.size_of());
    if crate::worth::extent(rise) * (1000 as real) <= (52 as real) * n {
        assert(e * (10_000 as real) <= 521 as real) by (nonlinear_arith)
            requires
                e * n * (10_000 as real) <= (521 as real) * n,
                n > 0 as real,
        ;
    }
    if crate::worth::extent(rise) * (1000 as real) >= (53 as real) * n {
        assert(e * (10_000 as real) >= 529 as real) by (nonlinear_arith)
            requires
                e * n * (10_000 as real) >= (529 as real) * n,
                n > 0 as real,
        ;
    }
}

/// The middle of a pixel, from the middle of them all.
proof fn lemma_from_middle(x: int, n: int)
    requires
        0 <= x < n <= 4000,
    ensures
        crate::worth::is_about(
            crate::sample::from_middle(x, n),
            (x as real) + (1 as real) / (2 as real) - (n as real) / (2 as real),
            8010 as real,
        ),
        crate::worth::extent(
            (x as real) + (1 as real) / (2 as real) - (n as real) / (2 as real),
        ) <= 2000 as real,
{
    let half = (1 as real) / (2 as real);
    crate::worth::lemma_about_integer(x);
    crate::worth::lemma_about_part(1, 2);
    crate::worth::lemma_about_plus(
        Signed::part(x, 1),
        Signed::part(1, 2),
        x as real,
        half,
        0 as real,
        1 as real,
    );
    lemma_half(n);
    crate::worth::lemma_about_minus(
        crate::held::plus(Signed::part(x, 1), Signed::part(1, 2)),
        crate::held::over(Signed::part(n, 1), Signed::part(2, 1)),
        (x as real) + half,
        (n as real) / (2 as real),
        4004 as real,
        2001 as real,
    );
}

/// Half a side.
proof fn lemma_half(n: int)
    requires
        0 < n <= 4000,
    ensures
        crate::worth::is_about(
            crate::held::over(Signed::part(n, 1), Signed::part(2, 1)),
            (n as real) / (2 as real),
            2001 as real,
        ),
{
    crate::worth::law_integer_is_exact(n);
    crate::worth::law_integer_is_exact(2);
    crate::worth::law_order_is_by_worth(Signed::part(2, 1), Signed::part(2, 1));
    crate::worth::law_over_is_off(Signed::part(n, 1), Signed::part(2, 1));
}

/// A place that is turned back, up to rounding: `m` bounds how far from the middle it lies.
proof fn lemma_turned_back(p: Point, sin: Signed, cos: Signed, u: real, v: real, e: real, m: real)
    requires
        crate::worth::is_about(p.0, u, e),
        crate::worth::is_about(p.1, v, e),
        crate::worth::extent(u) <= m <= 6000 as real,
        crate::worth::extent(v) <= m,
        0 as real <= e <= 100_000 as real,
        crate::held::fits(sin),
        crate::held::fits(cos),
        crate::worth::extent(sin.worth()) <= 1 as real,
        crate::worth::extent(cos.worth()) <= 1 as real,
    ensures
        ({
            let q = crate::sample::turned_back(p, sin, cos);
            let (s, c) = (sin.worth(), cos.worth());
            &&& crate::worth::is_about(
                q.0,
                u * c + v * s,
                e * (2 as real) + m * (4 as real) + (12 as real),
            )
            &&& crate::worth::is_about(
                q.1,
                v * c - u * s,
                e * (2 as real) + m * (4 as real) + (12 as real),
            )
            &&& crate::worth::extent(u * c + v * s) <= m * (2 as real)
            &&& crate::worth::extent(v * c - u * s) <= m * (2 as real)
        }),
{
    let (s, c) = (sin.worth(), cos.worth());
    let one = 1 as real;
    let back = p.0.negated();
    crate::worth::law_order_is_by_worth(p.0, p.0);
    assert(crate::worth::is_about(back, -u, e));
    crate::worth::lemma_about_scaled(p.0, cos, u, e, m, one);
    crate::worth::lemma_about_scaled(p.1, sin, v, e, m, one);
    crate::worth::lemma_about_scaled(back, sin, -u, e, m, one);
    crate::worth::lemma_about_scaled(p.1, cos, v, e, m, one);
    assert((-u) * s == -(u * s)) by (nonlinear_arith);
    let d = e + m + (5 as real);
    crate::worth::lemma_about_plus(
        crate::held::times(p.0, cos),
        crate::held::times(p.1, sin),
        u * c,
        v * s,
        d,
        d,
    );
    crate::worth::lemma_about_plus(
        crate::held::times(back, sin),
        crate::held::times(p.1, cos),
        -(u * s),
        v * c,
        d,
        d,
    );
}

/// To turn back and to turn again is to stay, where sine and cosine belong together.
proof fn lemma_turned_again(u: real, v: real, s: real, c: real, x: real, y: real, e: real)
    requires
        crate::worth::extent(x - (u * c + v * s)) <= e,
        crate::worth::extent(y - (v * c - u * s)) <= e,
        crate::worth::extent(u) <= 6000 as real,
        crate::worth::extent(v) <= 6000 as real,
        crate::worth::extent(s) <= 1 as real,
        crate::worth::extent(c) <= 1 as real,
        crate::worth::extent(c * c + s * s - (1 as real)) * (1_000_000 as real) <= 1 as real,
    ensures
        crate::worth::extent(x * c - y * s - u) <= e * (2 as real) + (6 as real) / (1000 as real),
        crate::worth::extent(x * s + y * c - v) <= e * (2 as real) + (6 as real) / (1000 as real),
{
    let (a, b) = (x - (u * c + v * s), y - (v * c - u * s));
    let o = c * c + s * s - (1 as real);
    assert(x * c - y * s - u == u * o + a * c - b * s) by (nonlinear_arith)
        requires
            x == a + u * c + v * s,
            y == b + v * c - u * s,
            o == c * c + s * s - (1 as real),
    ;
    assert(x * s + y * c - v == v * o + a * s + b * c) by (nonlinear_arith)
        requires
            x == a + u * c + v * s,
            y == b + v * c - u * s,
            o == c * c + s * s - (1 as real),
    ;
    lemma_at_most(u, o, 6000 as real, (1 as real) / (1_000_000 as real));
    lemma_at_most(v, o, 6000 as real, (1 as real) / (1_000_000 as real));
    lemma_at_most(c, a, 1 as real, e);
    lemma_at_most(s, b, 1 as real, e);
    lemma_at_most(s, a, 1 as real, e);
    lemma_at_most(c, b, 1 as real, e);
    assert(c * a == a * c && s * b == b * s && s * a == a * s && c * b == b * c)
        by (nonlinear_arith);
}

/// A product is no larger than what bounds its parts make.
proof fn lemma_at_most(x: real, y: real, u: real, v: real)
    requires
        crate::worth::extent(x) <= u,
        crate::worth::extent(y) <= v,
    ensures
        crate::worth::extent(x * y) <= u * v,
{
    crate::worth::lemma_extent(x, y);
    let (a, b) = (crate::worth::extent(x), crate::worth::extent(y));
    assert(a * b <= u * v) by (nonlinear_arith)
        requires
            0 as real <= a <= u,
            0 as real <= b <= v,
    ;
}

/// What a pixel of a picture that is turned shows: the place that the turn brings there, seen from the
/// middle of either.
pub proof fn law_turned_picture_shows_what_comes_there(
    x: int,
    y: int,
    ow: int,
    oh: int,
    w: int,
    h: int,
    sin: Signed,
    cos: Signed,
)
    requires
        0 <= x < ow <= 4000,
        0 <= y < oh <= 4000,
        0 < w <= 4000,
        0 < h <= 4000,
        crate::held::fits(sin),
        crate::held::fits(cos),
        crate::worth::extent(sin.worth()) <= 1 as real,
        crate::worth::extent(cos.worth()) <= 1 as real,
        crate::worth::extent(
            cos.worth() * cos.worth() + sin.worth() * sin.worth() - (1 as real),
        ) * (1_000_000 as real) <= 1 as real,
    ensures
        ({
            let half = (1 as real) / (2 as real);
            let p = crate::sample::shown(x, y, ow, oh, w, h, sin, cos);
            let a = p.0.worth() + half - (w as real) / (2 as real);
            let b = p.1.worth() + half - (h as real) / (2 as real);
            let (s, c) = (sin.worth(), cos.worth());
            &&& is_beside(a * c - b * s, (x as real) + half - (ow as real) / (2 as real))
            &&& is_beside(a * s + b * c, (y as real) + half - (oh as real) / (2 as real))
        }),
{
    let half = (1 as real) / (2 as real);
    let (u, v) = (
        (x as real) + half - (ow as real) / (2 as real),
        (y as real) + half - (oh as real) / (2 as real),
    );
    lemma_from_middle(x, ow);
    lemma_from_middle(y, oh);
    let p = (crate::sample::from_middle(x, ow), crate::sample::from_middle(y, oh));
    lemma_turned_back(p, sin, cos, u, v, 8010 as real, 2000 as real);
    let q = crate::sample::turned_back(p, sin, cos);
    let (s, c) = (sin.worth(), cos.worth());
    lemma_set_down(q.0, w, u * c + v * s, 24_040 as real, 4000 as real);
    lemma_set_down(q.1, h, v * c - u * s, 24_040 as real, 4000 as real);
    let r = crate::sample::shown(x, y, ow, oh, w, h, sin, cos);
    let a = r.0.worth() + half - (w as real) / (2 as real);
    let b = r.1.worth() + half - (h as real) / (2 as real);
    lemma_turned_again(u, v, s, c, a, b, (40_000 as real) / (0x100_0000 as real));
}

/// A place from the middle, as a place from the corner: `m` bounds how far from the middle it lies.
proof fn lemma_set_down(q: Signed, n: int, x: real, e: real, m: real)
    requires
        crate::worth::is_about(q, x, e),
        0 < n <= 4000,
        0 as real <= e <= 200_000 as real,
        crate::worth::extent(x) <= m <= 100_000 as real,
    ensures
        ({
            let r = crate::held::minus(
                crate::held::plus(q, crate::held::over(Signed::part(n, 1), Signed::part(2, 1))),
                Signed::part(1, 2),
            );
            crate::worth::extent(
                r.worth() + (1 as real) / (2 as real) - (n as real) / (2 as real) - x,
            ) * (0x100_0000 as real) <= e + m * (2 as real) + (6100 as real)
        }),
{
    let half = (n as real) / (2 as real);
    lemma_half(n);
    crate::worth::lemma_about_part(1, 2);
    let t = crate::held::over(Signed::part(n, 1), Signed::part(2, 1));
    crate::worth::lemma_about_plus(q, t, x, half, e, 2001 as real);
    crate::worth::lemma_about_minus(
        crate::held::plus(q, t),
        Signed::part(1, 2),
        x + half,
        (1 as real) / (2 as real),
        e + m + (4010 as real),
        1 as real,
    );
}

/// A layer comes down where it is scaled, turned and moved to: what a pixel of the canvas shows is the
/// place of the layer that these bring there, seen from the middle of either.
pub proof fn law_layer_comes_down_where_it_is_moved(
    f: Xform,
    g: crate::turned::Angle,
    gw: int,
    gh: int,
    lw: int,
    lh: int,
    x: int,
    y: int,
)
    requires
        0 <= x < gw <= 4000,
        0 <= y < gh <= 4000,
        0 < lw <= 4000,
        0 < lh <= 4000,
        crate::held::fits(f.dx),
        crate::held::fits(f.dy),
        crate::held::fits(f.scale),
        crate::held::fits(g.sin),
        crate::held::fits(g.cos),
        crate::worth::extent(f.dx.worth()) <= 1 as real,
        crate::worth::extent(f.dy.worth()) <= 1 as real,
        (1 as real) / (2 as real) <= f.scale.worth() <= 2 as real,
        crate::worth::extent(g.sin.worth()) <= 1 as real,
        crate::worth::extent(g.cos.worth()) <= 1 as real,
        crate::worth::extent(
            g.cos.worth() * g.cos.worth() + g.sin.worth() * g.sin.worth() - (1 as real),
        ) * (1_000_000 as real) <= 1 as real,
    ensures
        ({
            let half = (1 as real) / (2 as real);
            let p = crate::turned::source(f, g, gw, gh, lw, lh, x, y);
            let a = f.scale.worth() * (p.0.worth() + half - (lw as real) / (2 as real));
            let b = f.scale.worth() * (p.1.worth() + half - (lh as real) / (2 as real));
            let (s, c) = (g.sin.worth(), g.cos.worth());
            &&& crate::worth::extent(
                a * c - b * s + f.dx.worth() * (gw as real) - ((x as real) + half - (gw as real) / (
                2 as real)),
            ) * (10 as real) <= 1 as real
            &&& crate::worth::extent(
                a * s + b * c + f.dy.worth() * (gh as real) - ((y as real) + half - (gh as real) / (
                2 as real)),
            ) * (10 as real) <= 1 as real
        }),
{
    let half = (1 as real) / (2 as real);
    let (u, v) = (
        (x as real) + half - (gw as real) / (2 as real) - f.dx.worth() * (gw as real),
        (y as real) + half - (gh as real) / (2 as real) - f.dy.worth() * (gh as real),
    );
    lemma_moved_off(f.dx, x, gw);
    lemma_moved_off(f.dy, y, gh);
    let p = (
        crate::held::minus(
            crate::sample::from_middle(x, gw),
            crate::held::times(f.dx, Signed::part(gw, 1)),
        ),
        crate::held::minus(
            crate::sample::from_middle(y, gh),
            crate::held::times(f.dy, Signed::part(gh, 1)),
        ),
    );
    lemma_turned_back(p, g.sin, g.cos, u, v, 18_050 as real, 6000 as real);
    let q = crate::sample::turned_back(p, g.sin, g.cos);
    let (s, c) = (g.sin.worth(), g.cos.worth());
    let (m, n) = (u * c + v * s, v * c - u * s);
    // The scale, and what undoes it.
    let inv = crate::held::over(Signed::part(1, 1), f.scale);
    let (k, z) = (f.scale.worth(), inv.worth());
    crate::worth::law_integer_is_exact(1);
    crate::worth::law_order_is_by_worth(f.scale, f.scale);
    let t = (1 as real) / k;
    crate::worth::lemma_divided(1 as real, k);
    assert(half <= t <= 2 as real) by (nonlinear_arith)
        requires
            t * k == 1 as real,
            half <= k <= 2 as real,
            half * (2 as real) == 1 as real,
    ;
    crate::worth::law_over_is_off(Signed::part(1, 1), f.scale);
    let top = (201 as real) / (100 as real);
    crate::worth::lemma_about_scaled(q.0, inv, m, 60_200 as real, 12_000 as real, top);
    crate::worth::lemma_about_scaled(q.1, inv, n, 60_200 as real, 12_000 as real, top);
    lemma_set_down(crate::held::times(q.0, inv), lw, m * z, 145_200 as real, 24_120 as real);
    lemma_set_down(crate::held::times(q.1, inv), lh, n * z, 145_200 as real, 24_120 as real);
    let r = crate::turned::source(f, g, gw, gh, lw, lh, x, y);
    let i = r.0.worth() + half - (lw as real) / (2 as real);
    let j = r.1.worth() + half - (lh as real) / (2 as real);
    lemma_scaled_again(i, m, z, k, t);
    lemma_scaled_again(j, n, z, k, t);
    lemma_turned_again(u, v, s, c, k * i, k * j, (480_000 as real) / (0x100_0000 as real));
}

/// A place from the middle of the canvas, less a move that is a part of its side.
proof fn lemma_moved_off(d: Signed, x: int, n: int)
    requires
        0 <= x < n <= 4000,
        crate::held::fits(d),
        crate::worth::extent(d.worth()) <= 1 as real,
    ensures
        ({
            let u = (x as real) + (1 as real) / (2 as real) - (n as real) / (2 as real) - d.worth()
                * (n as real);
            &&& crate::worth::is_about(
                crate::held::minus(
                    crate::sample::from_middle(x, n),
                    crate::held::times(d, Signed::part(n, 1)),
                ),
                u,
                18_050 as real,
            )
            &&& crate::worth::extent(u) <= 6000 as real
        }),
{
    let (z, m) = (0 as real, n as real);
    lemma_from_middle(x, n);
    crate::worth::lemma_about_integer(n);
    crate::worth::lemma_about_times(
        d,
        Signed::part(n, 1),
        d.worth(),
        m,
        z,
        z,
        1 as real,
        4000 as real,
    );
    crate::worth::lemma_about_minus(
        crate::sample::from_middle(x, n),
        crate::held::times(d, Signed::part(n, 1)),
        (x as real) + (1 as real) / (2 as real) - m / (2 as real),
        d.worth() * m,
        8010 as real,
        4030 as real,
    );
}

/// What was scaled, scaled back.
proof fn lemma_scaled_again(i: real, m: real, z: real, k: real, t: real)
    requires
        crate::worth::extent(i - m * z) * (0x100_0000 as real) <= 200_000 as real,
        crate::worth::extent(m) <= 12_000 as real,
        crate::worth::extent(z - t) * (0x100_0000 as real) <= 3 as real,
        t * k == 1 as real,
        0 as real <= k <= 2 as real,
    ensures
        crate::worth::extent(k * i - m) <= (480_000 as real) / (0x100_0000 as real),
{
    let (e, d) = (i - m * z, z - t);
    let md = m * d;
    assert(k * i - m == k * e + k * md) by (nonlinear_arith)
        requires
            e == i - m * z,
            z == t + d,
            t * k == 1 as real,
            md == m * d,
    ;
    lemma_small_product(m, d, 12_000 as real, 3 as real);
    lemma_small_product(k, e, 2 as real, 200_000 as real);
    lemma_small_product(k, md, 2 as real, 36_000 as real);
}

} // verus!
