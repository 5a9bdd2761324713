//! Rounded arithmetic keeps order.

use vstd::prelude::*;

use crate::single::Single;

verus! {

/// The number is no larger than another.
pub open spec fn at_most(a: Single, b: Single) -> bool {
    !crate::single::below(b, a)
}

/// Between the powers of two around an integer.
proof fn lemma_binade_of(n: int, e: int) -> (r: int)
    requires
        e >= 0,
        crate::single::LOW * crate::single::up(e) <= n,
    ensures
        r >= e,
        crate::single::LOW * crate::single::up(r) <= n < crate::single::HIGH * crate::single::up(r),
    decreases n - crate::single::LOW * crate::single::up(e),
{
    if n < crate::single::HIGH * crate::single::up(e) {
        e
    } else {
        crate::single::lemma_up_step(e);
        let p = crate::single::up(e);
        assert(crate::single::LOW * (2 * p) == crate::single::HIGH * p) by (nonlinear_arith)
            requires
                crate::single::HIGH == 2 * crate::single::LOW,
        ;
        assert(crate::single::LOW * p < crate::single::LOW * (2 * p)) by (nonlinear_arith)
            requires
                p >= 1,
                crate::single::LOW > 0,
        ;
        lemma_binade_of(n, e + 1)
    }
}

/// Every integer below a power of two has a nearest number.
pub proof fn lemma_has_nearest(n: int, k: int)
    requires
        0 <= k <= 100_000,
        0 < n < crate::single::up(k),
    ensures
        crate::single::is_nearest(n, 1, crate::single::nearest(n, 1)),
        crate::single::nearest(n, 1).wf(),
        crate::single::nearest(n, 1).m > 0,
        -23 <= crate::single::nearest(n, 1).e <= k,
{
    if n < crate::single::LOW {
        crate::single::lemma_small_nearest(n);
    } else {
        assert(crate::single::LOW * crate::single::up(0) == crate::single::LOW);
        let e = lemma_binade_of(n, 0);
        let p = crate::single::up(e);
        crate::single::lemma_up_pos(e);
        if e >= k {
            crate::single::lemma_up_add(k, e - k);
            crate::single::lemma_up_pos(e - k);
            crate::single::lemma_up_pos(k);
            assert(crate::single::LOW * p >= crate::single::up(k)) by (nonlinear_arith)
                requires
                    p == crate::single::up(k) * crate::single::up(e - k),
                    crate::single::up(e - k) >= 1,
                    crate::single::up(k) >= 1,
                    crate::single::LOW >= 1,
            ;
        }
        assert(n * crate::single::up(-e) == n) by (nonlinear_arith)
            requires
                crate::single::up(-e) == 1,
        ;
        assert(crate::single::in_binade(n, 1, e));
        crate::single::lemma_round_even_range(n, 1 * p);
        let q = crate::single::round_even(n * crate::single::up(-e), 1 * crate::single::up(e));
        let s = if q == crate::single::HIGH {
            Single { m: crate::single::LOW, e: (e + 1) as i32 }
        } else {
            Single { m: q as u64, e: e as i32 }
        };
        assert(crate::single::is_rounded_at(q, e, s));
        assert(crate::single::is_nearest(n, 1, s));
        crate::single::law_nearest_unique(n, 1, s);
    }
}

/// Of two small integers, the larger has no smaller number.
pub proof fn law_integers_keep_order(a: int, b: int)
    requires
        0 <= a <= b < crate::single::LOW,
    ensures
        at_most(crate::single::nearest(a, 1), crate::single::nearest(b, 1)),
        crate::single::nearest(a, 1).wf(),
        crate::single::nearest(b, 1).wf(),
{
    lemma_nothing(1);
    if a > 0 {
        crate::single::lemma_small_nearest(a);
        crate::single::lemma_small_nearest(b);
        crate::single::law_nearest_grows(
            a,
            b,
            crate::single::nearest(a, 1),
            crate::single::nearest(b, 1),
        );
    } else if b > 0 {
        crate::single::lemma_small_nearest(b);
    }
}

/// Nothing over something is nothing.
proof fn lemma_nothing(d: int)
    requires
        d > 0,
    ensures
        crate::single::nearest(0, d) == crate::single::nought(),
{
    assert(crate::single::is_nearest(0, d, crate::single::nought()));
    crate::single::law_nearest_unique(0, d, crate::single::nought());
}

/// A sum is no smaller than what something was added to.
pub proof fn law_sum_grows(a: Single, b: Single)
    requires
        a.wf(),
        b.wf(),
        -1000 <= a.e <= 1000,
        -1000 <= b.e <= 1000,
        -100 <= a.e - b.e <= 100,
    ensures
        at_most(a, crate::single::total(a, b)),
        crate::single::total(a, b).wf(),
{
    if a.m > 0 && b.m > 0 {
        let d: int = if a.e <= b.e {
            b.e - a.e
        } else {
            a.e - b.e
        };
        let p = crate::single::up(d);
        crate::single::lemma_up_pos(d);
        crate::single::lemma_up_add(d, 100 - d);
        crate::single::lemma_up_add(100, 100);
        crate::single::lemma_up_pos(100 - d);
        vstd::arithmetic::power2::lemma2_to64();
        crate::single::lemma_up_add(26, 74);
        crate::single::lemma_up_pos(74);
        assert(crate::single::up(100) >= 0x400_0000) by (nonlinear_arith)
            requires
                crate::single::up(100) == crate::single::up(26) * crate::single::up(74),
                crate::single::up(26) == 0x400_0000,
                crate::single::up(74) >= 1,
        ;
        assert(p <= crate::single::up(100)) by (nonlinear_arith)
            requires
                crate::single::up(100) == p * crate::single::up(100 - d),
                crate::single::up(100 - d) >= 1,
                p >= 1,
        ;
        let n = if a.e <= b.e {
            a.m + b.m * p
        } else {
            a.m * p + b.m
        };
        assert(n < crate::single::up(200)) by (nonlinear_arith)
            requires
                n == a.m + b.m * p || n == a.m * p + b.m,
                a.m < 0x100_0000,
                b.m < 0x100_0000,
                1 <= p <= crate::single::up(100),
                crate::single::up(100) >= 0x400_0000,
                crate::single::up(200) == crate::single::up(100) * crate::single::up(100),
        ;
        assert(n >= a.m && n >= a.m * p || a.e <= b.e && n >= a.m) by (nonlinear_arith)
            requires
                a.e <= b.e ==> n == a.m + b.m * p,
                a.e > b.e ==> n == a.m * p + b.m,
                p >= 1,
                b.m >= 0,
                a.m >= 0,
        ;
        lemma_has_nearest(n, 200);
        let raw = crate::single::nearest(n, 1);
        if a.e <= b.e {
            assert(a.m * crate::single::up(0) == a.m);
            crate::single::lemma_shifted_exact(a.m as int, 0);
            let low = crate::single::nearest(a.m as int, 1);
            crate::single::law_nearest_grows(a.m as int, n, low, raw);
        } else {
            crate::single::lemma_shifted_exact(a.m as int, d);
            let low = crate::single::nearest(a.m * p, 1);
            assert(0 < a.m * p) by (nonlinear_arith)
                requires
                    a.m > 0,
                    p >= 1,
            ;
            crate::single::law_nearest_grows(a.m * p, n, low, raw);
        }
    }
}

/// The larger of two numbers has no smaller product with a third.
pub proof fn law_product_keeps_order(a: Single, b: Single, k: Single)
    requires
        a.wf(),
        b.wf(),
        k.wf(),
        -1000000 <= a.e <= 1000000,
        -1000000 <= b.e <= 1000000,
        -1000000 <= k.e <= 1000000,
        at_most(a, b),
    ensures
        at_most(crate::single::product(a, k), crate::single::product(b, k)),
        crate::single::product(a, k).wf(),
        crate::single::product(b, k).wf(),
        a.m > 0 && k.m > 0 ==> crate::single::product(a, k).m > 0 && -30 <= crate::single::product(
            a,
            k,
        ).e - a.e - k.e <= 30,
        b.m > 0 && k.m > 0 ==> crate::single::product(b, k).m > 0 && -30 <= crate::single::product(
            b,
            k,
        ).e - b.e - k.e <= 30,
        a.m == 0 || k.m == 0 ==> crate::single::product(a, k) == crate::single::nought(),
        b.m == 0 || k.m == 0 ==> crate::single::product(b, k) == crate::single::nought(),
{
    lemma_nothing(1);
    if k.m == 0 || b.m == 0 {
        assert(a.m * k.m == 0 && b.m * k.m == 0) by (nonlinear_arith)
            requires
                k.m == 0 || (a.m == 0 && b.m == 0),
        ;
    } else if a.m == 0 {
        assert(a.m * k.m == 0) by (nonlinear_arith)
            requires
                a.m == 0,
        ;
        crate::single::lemma_product_nearest(b, k);
    } else {
        crate::single::lemma_product_nearest(a, k);
        crate::single::lemma_product_nearest(b, k);
        let x = crate::single::nearest(a.m * k.m, 1);
        let y = crate::single::nearest(b.m * k.m, 1);
        assert(0 < a.m * k.m && 0 < b.m * k.m) by (nonlinear_arith)
            requires
                a.m > 0,
                b.m > 0,
                k.m > 0,
        ;
        if a.e == b.e {
            assert(a.m * k.m <= b.m * k.m) by (nonlinear_arith)
                requires
                    a.m <= b.m,
                    k.m > 0,
            ;
            crate::single::law_nearest_grows(a.m * k.m, b.m * k.m, x, y);
        } else {
            vstd::arithmetic::power2::lemma2_to64();
            crate::single::lemma_shifted_exact(k.m as int, 24);
            crate::single::lemma_shifted_exact(k.m as int, 23);
            let hi = Single { m: k.m, e: 24 };
            let lo = Single { m: k.m, e: 23 };
            assert(a.m * k.m <= k.m * crate::single::up(24)) by (nonlinear_arith)
                requires
                    a.m <= 0x100_0000,
                    crate::single::up(24) == 0x100_0000,
                    k.m > 0,
            ;
            assert(0 < k.m * crate::single::up(23) <= b.m * k.m) by (nonlinear_arith)
                requires
                    b.m >= 0x80_0000,
                    crate::single::up(23) == 0x80_0000,
                    k.m > 0,
            ;
            crate::single::law_nearest_grows(a.m * k.m, k.m * crate::single::up(24), x, hi);
            crate::single::law_nearest_grows(k.m * crate::single::up(23), b.m * k.m, lo, y);
        }
    }
}

/// A significand over another has a nearest number.
proof fn lemma_significands(a: int, d: int)
    requires
        crate::single::LOW <= a <= crate::single::HIGH,
        crate::single::LOW <= d < crate::single::HIGH,
    ensures
        crate::single::is_nearest(a, d, crate::single::nearest(a, d)),
        crate::single::nearest(a, d).wf(),
        crate::single::nearest(a, d).m > 0,
        -24 <= crate::single::nearest(a, d).e <= -21,
        a < 2 * d ==> crate::single::nearest(a, d).e <= -22,
{
    vstd::arithmetic::power2::lemma2_to64();
    let e: int = if a < d {
        -24
    } else if a < 2 * d {
        -23
    } else {
        -22
    };
    let p = crate::single::up(-e);
    assert(d * crate::single::up(e) == d) by (nonlinear_arith)
        requires
            crate::single::up(e) == 1,
    ;
    assert(crate::single::LOW * d <= a * p && a * p < crate::single::HIGH * d) by (nonlinear_arith)
        requires
            a < d ==> p == 0x100_0000,
            d <= a < 2 * d ==> p == 0x80_0000,
            2 * d <= a ==> p == 0x40_0000,
            0x80_0000 <= a <= 0x100_0000,
            0x80_0000 <= d < 0x100_0000,
            crate::single::LOW == 0x80_0000,
            crate::single::HIGH == 0x100_0000,
    ;
    assert(crate::single::in_binade(a, d, e));
    crate::single::lemma_round_even_range(a * p, d);
    let q = crate::single::round_even(a * crate::single::up(-e), d * crate::single::up(e));
    let s = if q == crate::single::HIGH {
        Single { m: crate::single::LOW, e: (e + 1) as i32 }
    } else {
        Single { m: q as u64, e: e as i32 }
    };
    assert(crate::single::is_rounded_at(q, e, s));
    assert(crate::single::is_nearest(a, d, s));
    crate::single::law_nearest_unique(a, d, s);
}

/// The next power of two over a significand is one exponent further.
proof fn lemma_double(d: int)
    requires
        crate::single::LOW <= d < crate::single::HIGH,
    ensures
        crate::single::nearest(crate::single::HIGH as int, d) == crate::single::shifted(
            crate::single::nearest(crate::single::LOW as int, d),
            1,
        ),
{
    vstd::arithmetic::power2::lemma2_to64();
    let lo = crate::single::LOW as int;
    let hi = crate::single::HIGH as int;
    lemma_significands(lo, d);
    let s = crate::single::nearest(lo, d);
    let e: int = if lo < d {
        -24
    } else {
        -23
    };
    assert(d * crate::single::up(e) == d && d * crate::single::up(e + 1) == d) by (nonlinear_arith)
        requires
            crate::single::up(e) == 1,
            crate::single::up(e + 1) == 1,
    ;
    assert(lo * crate::single::up(-e) == hi * crate::single::up(-e - 1));
    assert(crate::single::LOW * d <= lo * crate::single::up(-e) && lo * crate::single::up(-e)
        < crate::single::HIGH * d) by (nonlinear_arith)
        requires
            lo < d ==> crate::single::up(-e) == 0x100_0000,
            lo == d ==> crate::single::up(-e) == 0x80_0000,
            lo <= d < 0x100_0000,
            lo == 0x80_0000,
            crate::single::LOW == 0x80_0000,
            crate::single::HIGH == 0x100_0000,
    ;
    assert(crate::single::in_binade(lo, d, e));
    assert(crate::single::in_binade(hi, d, e + 1));
    let q = crate::single::round_even(lo * crate::single::up(-e), d * crate::single::up(e));
    crate::single::lemma_round_even_range(lo * crate::single::up(-e), d);
    let r = if q == crate::single::HIGH {
        Single { m: crate::single::LOW, e: (e + 1) as i32 }
    } else {
        Single { m: q as u64, e: e as i32 }
    };
    assert(crate::single::is_rounded_at(q, e, r));
    assert(crate::single::is_nearest(lo, d, r));
    crate::single::law_nearest_unique(lo, d, r);
    let t = crate::single::shifted(r, 1);
    assert(-(e + 1) == -e - 1);
    assert(crate::single::is_rounded_at(
        crate::single::round_even(
            hi * crate::single::up(-(e + 1)),
            d * crate::single::up(e + 1),
        ),
        e + 1,
        t,
    ));
    assert(crate::single::is_nearest(hi, d, t));
    crate::single::law_nearest_unique(hi, d, t);
}

/// The larger of two numbers has no smaller quotient with a third.
pub proof fn law_quotient_keeps_order(a: Single, b: Single, k: Single)
    requires
        a.wf(),
        b.wf(),
        k.wf(),
        k.m > 0,
        -1000000 <= a.e <= 1000000,
        -1000000 <= b.e <= 1000000,
        -1000000 <= k.e <= 1000000,
        at_most(a, b),
    ensures
        at_most(crate::single::quotient(a, k), crate::single::quotient(b, k)),
        crate::single::quotient(a, k).wf(),
        crate::single::quotient(b, k).wf(),
        a.m > 0 ==> crate::single::quotient(a, k).m > 0 && -30 <= crate::single::quotient(a, k).e
            - a.e + k.e <= 30,
        b.m > 0 ==> crate::single::quotient(b, k).m > 0 && -30 <= crate::single::quotient(b, k).e
            - b.e + k.e <= 30,
        a.m == 0 ==> crate::single::quotient(a, k) == crate::single::nought(),
        b.m == 0 ==> crate::single::quotient(b, k) == crate::single::nought(),
{
    let d = k.m as int;
    lemma_nothing(d);
    if b.m == 0 {
    } else if a.m == 0 {
        lemma_significands(b.m as int, d);
    } else {
        lemma_significands(a.m as int, d);
        lemma_significands(b.m as int, d);
        let x = crate::single::nearest(a.m as int, d);
        let y = crate::single::nearest(b.m as int, d);
        if a.e == b.e {
            crate::single::law_ratio_grows(a.m as int, b.m as int, d, x, y);
        } else {
            let lo = crate::single::LOW as int;
            let hi = crate::single::HIGH as int;
            lemma_significands(lo, d);
            lemma_significands(hi, d);
            lemma_double(d);
            let u = crate::single::nearest(lo, d);
            let v = crate::single::nearest(hi, d);
            crate::single::law_ratio_grows(a.m as int, hi, d, x, v);
            crate::single::law_ratio_grows(lo, b.m as int, d, u, y);
        }
    }
}

/// The exponent of a quotient.
pub proof fn lemma_quotient_exponent(a: Single, k: Single)
    requires
        a.wf(),
        k.wf(),
        a.m > 0,
        k.m > 0,
        -1000000 <= a.e <= 1000000,
        -1000000 <= k.e <= 1000000,
    ensures
        a.e - k.e - 24 <= crate::single::quotient(a, k).e <= a.e - k.e - 22,
        crate::single::quotient(a, k).m > 0,
{
    lemma_significands(a.m as int, k.m as int);
}

/// The larger of two numbers is not rounded to a smaller integer.
pub proof fn law_rounding_keeps_order(a: Single, b: Single)
    requires
        a.wf(),
        b.wf(),
        at_most(a, b),
    ensures
        0 <= crate::single::round(a) <= crate::single::round(b),
{
    lemma_round_natural(a);
    lemma_round_natural(b);
    if a.m == 0 {
        assert(crate::single::up(0) == 1);
    } else {
        crate::single::law_below_is_order(b, a, a.e as int);
        let t = crate::single::up(b.e - a.e);
        assert(a.m * crate::single::up(0) == a.m);
        assert(a.m <= b.m * t);
        crate::single::lemma_up_pos(b.e - a.e);
        if a.e >= 0 {
            crate::single::lemma_up_add(a.e as int, b.e - a.e);
            let p = crate::single::up(a.e as int);
            assert(a.m * p <= b.m * (p * t)) by (nonlinear_arith)
                requires
                    a.m <= b.m * t,
                    p >= 1,
            ;
        } else if b.e >= 0 {
            let x = crate::single::up(-a.e);
            let y = crate::single::up(b.e as int);
            crate::single::lemma_up_add(-a.e, b.e as int);
            crate::single::lemma_up_pos(b.e as int);
            assert((2 * a.m + x) / (2 * x) <= b.m * y) by (nonlinear_arith)
                requires
                    a.m <= b.m * t,
                    t == x * y,
                    x >= 1,
                    y >= 1,
            ;
        } else {
            let x = crate::single::up(-a.e);
            let y = crate::single::up(-b.e);
            crate::single::lemma_up_add(-b.e, b.e - a.e);
            let q = (2 * b.m + y) / (2 * y);
            crate::single::lemma_up_pos(-b.e);
            assert((2 * a.m + x) / (2 * x) <= q) by (nonlinear_arith)
                requires
                    a.m <= b.m * t,
                    x == y * t,
                    t >= 1,
                    y >= 1,
                    q == (2 * b.m + y) / (2 * y),
            ;
        }
    }
}

proof fn lemma_round_natural(a: Single)
    ensures
        crate::single::round(a) >= 0,
{
    crate::single::lemma_up_pos(a.e as int);
    crate::single::lemma_up_pos(-a.e);
    let p = crate::single::up(a.e as int);
    let x = crate::single::up(-a.e);
    assert(a.m * p >= 0) by (nonlinear_arith)
        requires
            p >= 1,
    ;
    assert((2 * a.m + x) / (2 * x) >= 0) by (nonlinear_arith)
        requires
            x >= 1,
    ;
}

/// Rounding to the nearest integer is off by half at most.
pub proof fn lemma_round_even_near(n: int, d: int)
    requires
        n >= 0,
        d > 0,
    ensures
        -d <= 2 * (crate::single::round_even(n, d) * d - n) <= d,
{
    vstd::arithmetic::div_mod::lemma_fundamental_div_mod(n, d);
    vstd::arithmetic::div_mod::lemma_mod_bound(n, d);
    let q = n / d;
    let r = n % d;
    assert(q * d - n == -r && (q + 1) * d - n == d - r) by (nonlinear_arith)
        requires
            n == d * q + r,
    ;
}

/// A quotient of significands times its denominator is close to its numerator.
proof fn lemma_ratio_near(a: int, d: int)
    requires
        crate::single::LOW <= a < crate::single::HIGH,
        crate::single::LOW <= d < crate::single::HIGH,
    ensures
        ({
            let s = crate::single::nearest(a, d);
            &&& -24 <= s.e <= -22
            &&& -d <= 2 * (s.m * d - a * crate::single::up(-s.e)) <= d
        }),
{
    vstd::arithmetic::power2::lemma2_to64();
    lemma_significands(a, d);
    let s = crate::single::nearest(a, d);
    let e = choose|e: int| #[trigger]
        crate::single::in_binade(a, d, e) && crate::single::is_rounded_at(
            crate::single::round_even(a * crate::single::up(-e), d * crate::single::up(e)),
            e,
            s,
        );
    assert(-25 <= e <= -22);
    assert(d * crate::single::up(e) == d) by (nonlinear_arith)
        requires
            crate::single::up(e) == 1,
    ;
    let x = a * crate::single::up(-e);
    assert(x >= 0) by (nonlinear_arith)
        requires
            x == a * crate::single::up(-e),
            a >= 0,
            crate::single::up(-e) >= 0,
    ;
    let q = crate::single::round_even(x, d);
    lemma_round_even_near(x, d);
    if q == crate::single::HIGH {
        crate::single::lemma_up_step(-e - 1);
        let y = a * crate::single::up(-e - 1);
        assert(x == 2 * y) by (nonlinear_arith)
            requires
                x == a * crate::single::up(-e),
                y == a * crate::single::up(-e - 1),
                crate::single::up(-e) == 2 * crate::single::up(-e - 1),
        ;
        assert(q * d == 2 * (s.m * d)) by (nonlinear_arith)
            requires
                q == 2 * s.m,
        ;
    }
}

/// A byte over 255, times 255 again, is rounded to the byte.
pub proof fn law_byte_survives(b: int)
    requires
        0 <= b <= 255,
    ensures
        ({
            let all = crate::single::nearest(255, 1);
            let k = crate::single::quotient(crate::single::nearest(b, 1), all);
            &&& k.wf()
            &&& at_most(k, crate::single::one())
            &&& -100 <= k.e <= 0
            &&& crate::single::product(k, all).wf()
            &&& -100 <= crate::single::product(k, all).e <= 0
            &&& crate::single::round(crate::single::product(k, all)) == b
        }),
{
    vstd::arithmetic::power2::lemma2_to64();
    crate::single::lemma_small_nearest(255);
    let all = crate::single::nearest(255, 1);
    crate::single::lemma_small_exact(255, all);
    assert(crate::single::LOW * (1 * crate::single::up(-16)) <= 255 * crate::single::up(16));
    crate::single::lemma_exponent_from(255, 1, all, -16);
    assert(255 * crate::single::up(16) < crate::single::HIGH * (1 * crate::single::up(-16)));
    crate::single::lemma_exponent_upto(255, 1, all, -16);
    law_integers_keep_order(b, 255);
    let a = crate::single::nearest(b, 1);
    lemma_nothing(1);
    if b > 0 {
        crate::single::lemma_small_nearest(b);
    }
    law_quotient_keeps_order(a, all, all);
    crate::single::lemma_equal_ratio(all.m as int);
    let k = crate::single::quotient(a, all);
    if b == 0 {
        law_product_keeps_order(k, k, all);
        assert(crate::single::up(0) == 1);
    } else {
        crate::single::lemma_small_exact(b, a);
        let q = crate::single::nearest(a.m as int, all.m as int);
        lemma_ratio_near(a.m as int, all.m as int);
        lemma_significands(a.m as int, all.m as int);
        assert(k.m == q.m && k.e == q.e + a.e - all.e);
        law_product_keeps_order(k, k, all);
        crate::single::lemma_product_nearest(k, all);
        assert(a.e <= -16) by {
            crate::single::law_nearest_grows(b, 255, a, all);
        }
        let n = k.m * all.m;
        let raw = crate::single::nearest(n, 1);
        let e = choose|e: int| #[trigger]
            crate::single::in_binade(n, 1, e) && crate::single::is_rounded_at(
                crate::single::round_even(n * crate::single::up(-e), 1 * crate::single::up(e)),
                e,
                raw,
            );
        assert(22 <= e <= 25);
        assert(n * crate::single::up(-e) == n) by (nonlinear_arith)
            requires
                crate::single::up(-e) == 1,
        ;
        let d = crate::single::up(e);
        let m = crate::single::round_even(n, d);
        lemma_round_even_near(n, d);
        let full = raw.m * crate::single::up(raw.e as int);
        crate::single::lemma_up_step(e);
        assert(full == m * d) by (nonlinear_arith)
            requires
                full == raw.m * crate::single::up(raw.e as int),
                (m == 2 * raw.m && crate::single::up(raw.e as int) == 2 * d && m
                    == crate::single::HIGH && raw.m == crate::single::LOW) || (m == raw.m
                    && crate::single::up(raw.e as int) == d) || (2 * raw.m == m
                    && crate::single::up(raw.e as int) == 2 * d),
        ;
        let p = crate::single::product(k, all);
        assert(p.m == raw.m && p.e == raw.e + q.e + a.e);
        let x = crate::single::up(-p.e);
        let u = crate::single::up(raw.e as int);
        let v = crate::single::up(-q.e);
        let w = crate::single::up(-a.e);
        crate::single::lemma_up_add(raw.e as int, -p.e);
        crate::single::lemma_up_add(-q.e, -a.e);
        assert(u * x == v * w);
        crate::single::lemma_up_add(13, -p.e - 13);
        crate::single::lemma_up_pos(-p.e - 13);
        assert(x >= 0x2000) by (nonlinear_arith)
            requires
                x == crate::single::up(13) * crate::single::up(-p.e - 13),
                crate::single::up(13) == 0x2000,
                crate::single::up(-p.e - 13) >= 1,
        ;
        let off = p.m - b * x;
        assert(off * u == full - a.m * v) by (nonlinear_arith)
            requires
                off == p.m - b * x,
                full == p.m * u,
                u * x == v * w,
                a.m == b * w,
        ;
        assert(-0x400_0000 <= 2 * (off * u) <= 0x400_0000);
        assert(-x < 2 * off < x) by (nonlinear_arith)
            requires
                -0x400_0000 <= 2 * (off * u) <= 0x400_0000,
                u >= 0x40_0000,
                x >= 0x2000,
        ;
        assert((2 * p.m + x) / (2 * x) == b) by (nonlinear_arith)
            requires
                off == p.m - b * x,
                -x < 2 * off < x,
                x >= 1,
        ;
    }
}

/// The larger of two numbers leaves no less when a third is taken away.
pub proof fn law_difference_keeps_order(a: Single, b: Single, c: Single)
    requires
        a.wf(),
        b.wf(),
        c.wf(),
        -1000 <= a.e <= 1000,
        -1000 <= b.e <= 1000,
        -1000 <= c.e <= 1000,
        a.e - c.e <= 100,
        b.e - c.e <= 100,
        at_most(c, a),
        at_most(a, b),
    ensures
        at_most(crate::single::difference(a, c), crate::single::difference(b, c)),
        crate::single::difference(a, c).wf(),
        crate::single::difference(b, c).wf(),
        crate::single::difference(a, c).m == 0 ==> crate::single::difference(a, c)
            == crate::single::nought(),
        -2000 <= crate::single::difference(a, c).e <= 2000,
        -2000 <= crate::single::difference(b, c).e <= 2000,
        c.m > 0 && crate::single::difference(b, c).m > 0 ==> crate::single::difference(b, c).e
            >= c.e - 23,
        crate::single::difference(b, c).m == 0 ==> crate::single::difference(b, c)
            == crate::single::nought(),
{
    if c.m > 0 {
        lemma_nothing(1);
        crate::single::law_below_is_order(a, c, c.e as int);
        crate::single::law_below_is_order(b, a, c.e as int);
        assert(c.m * crate::single::up(0) == c.m);
        let x = a.m * crate::single::up(a.e - c.e) - c.m;
        let y = b.m * crate::single::up(b.e - c.e) - c.m;
        assert(0 <= x <= y);
        lemma_scaled_small(b.m as int, b.e - c.e);
        if x > 0 {
            lemma_has_nearest(x, 200);
            lemma_has_nearest(y, 200);
            crate::single::law_nearest_grows(
                x,
                y,
                crate::single::nearest(x, 1),
                crate::single::nearest(y, 1),
            );
        } else if y > 0 {
            lemma_has_nearest(y, 200);
        }
    }
}

/// A significand before up to 100 zeros is below `2^200`.
pub proof fn lemma_scaled_small(m: int, k: int)
    requires
        0 <= m < crate::single::HIGH,
        0 <= k <= 100,
    ensures
        0 <= m * crate::single::up(k),
        2 * (m * crate::single::up(k)) < crate::single::up(200),
{
    vstd::arithmetic::power2::lemma2_to64();
    crate::single::lemma_up_add(k, 100 - k);
    crate::single::lemma_up_pos(k);
    crate::single::lemma_up_pos(100 - k);
    crate::single::lemma_up_add(100, 100);
    crate::single::lemma_up_add(26, 74);
    crate::single::lemma_up_pos(74);
    let h = crate::single::up(100);
    assert(h >= 0x400_0000) by (nonlinear_arith)
        requires
            h == crate::single::up(26) * crate::single::up(74),
            crate::single::up(26) == 0x400_0000,
            crate::single::up(74) >= 1,
    ;
    let u = crate::single::up(k);
    assert(u <= h) by (nonlinear_arith)
        requires
            h == u * crate::single::up(100 - k),
            crate::single::up(100 - k) >= 1,
            u >= 1,
    ;
    assert(0 <= m * u && 2 * (m * u) < crate::single::up(200)) by (nonlinear_arith)
        requires
            0 <= m < 0x100_0000,
            1 <= u <= h,
            h >= 0x400_0000,
            crate::single::up(200) == h * h,
    ;
}

/// A sum whose terms do not pass two numbers does not pass a number that these two add up to.
pub proof fn law_sum_within(a: Single, b: Single, x: Single, y: Single, c: Single)
    requires
        a.wf() && b.wf() && x.wf() && y.wf() && c.wf(),
        a.m > 0 && b.m > 0 && c.m > 0,
        -90 <= a.e <= c.e <= 0,
        -90 <= b.e <= c.e,
        -90 <= x.e && -90 <= y.e,
        at_most(a, x),
        at_most(b, y),
        x.m * crate::single::up(x.e + 90) + y.m * crate::single::up(y.e + 90) == c.m
            * crate::single::up(c.e + 90),
    ensures
        at_most(crate::single::total(a, b), c),
        crate::single::total(a, b).wf(),
        crate::single::total(a, b).m > 0,
        -200 <= crate::single::total(a, b).e <= 200,
{
    let m: int = if a.e <= b.e {
        a.e as int
    } else {
        b.e as int
    };
    crate::single::law_below_is_order(x, a, -90);
    crate::single::law_below_is_order(y, b, -90);
    let k = m + 90;
    let t = crate::single::up(k);
    crate::single::lemma_up_pos(k);
    crate::single::lemma_up_add(a.e - m, k);
    crate::single::lemma_up_add(b.e - m, k);
    crate::single::lemma_up_add(c.e - m, k);
    let p = a.m * crate::single::up(a.e - m);
    let q = b.m * crate::single::up(b.e - m);
    let r = c.m * crate::single::up(c.e - m);
    assert(p + q <= r) by (nonlinear_arith)
        requires
            a.m * crate::single::up(a.e + 90) + b.m * crate::single::up(b.e + 90) <= c.m
                * crate::single::up(c.e + 90),
            crate::single::up(a.e + 90) == crate::single::up(a.e - m) * t,
            crate::single::up(b.e + 90) == crate::single::up(b.e - m) * t,
            crate::single::up(c.e + 90) == crate::single::up(c.e - m) * t,
            p == a.m * crate::single::up(a.e - m),
            q == b.m * crate::single::up(b.e - m),
            r == c.m * crate::single::up(c.e - m),
            t >= 1,
    ;
    crate::single::lemma_shifted_exact(c.m as int, c.e - m);
    lemma_scaled_small(a.m as int, a.e - m);
    lemma_scaled_small(b.m as int, b.e - m);
    let n = p + q;
    assert(a.m * crate::single::up(0) == a.m && b.m * crate::single::up(0) == b.m);
    lemma_has_nearest(n, 200);
    crate::single::law_nearest_grows(
        n,
        r,
        crate::single::nearest(n, 1),
        crate::single::nearest(r, 1),
    );
}

/// A difference does not fall below a number that is what is left of no more, with no less taken away.
pub proof fn law_difference_from(a: Single, b: Single, y: Single, c: Single)
    requires
        a.wf() && b.wf() && y.wf() && c.wf(),
        a.m > 0 && b.m > 0 && c.m > 0,
        -90 <= b.e <= c.e <= a.e <= 0,
        -90 <= y.e,
        at_most(b, y),
        a.m * crate::single::up(a.e + 90) == y.m * crate::single::up(y.e + 90) + c.m
            * crate::single::up(c.e + 90),
    ensures
        at_most(c, crate::single::difference(a, b)),
        crate::single::difference(a, b).wf(),
        crate::single::difference(a, b).m > 0,
        -200 <= crate::single::difference(a, b).e <= 200,
{
    crate::single::law_below_is_order(y, b, -90);
    let m = b.e as int;
    let k = m + 90;
    let t = crate::single::up(k);
    crate::single::lemma_up_pos(k);
    crate::single::lemma_up_add(a.e - m, k);
    crate::single::lemma_up_add(c.e - m, k);
    let p = a.m * crate::single::up(a.e - m);
    let r = c.m * crate::single::up(c.e - m);
    assert(p - b.m >= r) by (nonlinear_arith)
        requires
            a.m * crate::single::up(a.e + 90) >= b.m * t + c.m * crate::single::up(c.e + 90),
            crate::single::up(a.e + 90) == crate::single::up(a.e - m) * t,
            crate::single::up(c.e + 90) == crate::single::up(c.e - m) * t,
            p == a.m * crate::single::up(a.e - m),
            r == c.m * crate::single::up(c.e - m),
            t >= 1,
    ;
    crate::single::lemma_shifted_exact(c.m as int, c.e - m);
    lemma_scaled_small(a.m as int, a.e - m);
    crate::single::lemma_up_pos(c.e - m);
    assert(r > 0) by (nonlinear_arith)
        requires
            r == c.m * crate::single::up(c.e - m),
            c.m > 0,
            crate::single::up(c.e - m) >= 1,
    ;
    let n = p - b.m;
    lemma_has_nearest(n, 200);
    crate::single::law_nearest_grows(
        r,
        n,
        crate::single::nearest(r, 1),
        crate::single::nearest(n, 1),
    );
}

/// Nothing grows when something is taken away.
pub proof fn law_difference_shrinks(a: Single, b: Single)
    requires
        a.wf(),
        b.wf(),
        -1000 <= a.e <= 1000,
        -1000 <= b.e <= 1000,
        a.e - b.e <= 100,
        at_most(b, a),
    ensures
        at_most(crate::single::difference(a, b), a),
{
    if b.m > 0 {
        lemma_nothing(1);
        crate::single::law_below_is_order(a, b, b.e as int);
        assert(b.m * crate::single::up(0) == b.m);
        let d = a.e - b.e;
        let top = a.m * crate::single::up(d);
        let n = top - b.m;
        lemma_scaled_small(a.m as int, d);
        crate::single::lemma_shifted_exact(a.m as int, d);
        if n > 0 {
            lemma_has_nearest(n, 200);
            crate::single::law_nearest_grows(
                n,
                top,
                crate::single::nearest(n, 1),
                crate::single::nearest(top, 1),
            );
        }
    }
}

} // verus!
