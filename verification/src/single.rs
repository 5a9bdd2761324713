//! Single-precision arithmetic on non-negative numbers, carried out on integers.
//!
//! Picture sizes, radii and blending weights are scaled in single precision. A number here is
//! `m * 2^e` with a significand of 24 bits, and every operation gives the nearest such number, ties
//! going to the even significand.

use vstd::prelude::*;

verus! {

/// The number `m * 2^e`; `m` has exactly 24 bits unless the number is zero.
#[derive(Clone, Copy, PartialEq, Eq, Structural, Debug)]
pub struct Single {
    pub m: u64,
    pub e: i32,
}

/// Smallest significand.
pub const LOW: u64 = 0x80_0000;

/// First number past the significands.
pub const HIGH: u64 = 0x100_0000;

impl Single {
    /// The significand has 24 bits, or the number is zero.
    pub open spec fn wf(self) -> bool {
        LOW <= self.m < HIGH || (self.m == 0 && self.e == 0)
    }
}

/// `2^k`, and 1 where `k` is negative.
pub open spec fn up(k: int) -> int {
    if k > 0 {
        vstd::arithmetic::power2::pow2(k as nat) as int
    } else {
        1
    }
}

/// The integer nearest to `n / d`, the even one of two that are equally near.
pub open spec fn round_even(n: int, d: int) -> int {
    let q = n / d;
    let r = n % d;
    if 2 * r < d || (2 * r == d && q % 2 == 0) {
        q
    } else {
        q + 1
    }
}

/// `num / den` lies where numbers with exponent `e` have 24 bits.
pub open spec fn in_binade(num: int, den: int, e: int) -> bool {
    LOW * (den * up(e)) <= num * up(-e) < HIGH * (den * up(e))
}

/// `s` is the number nearest to `num / den`.
pub open spec fn is_nearest(num: int, den: int, s: Single) -> bool {
    if num == 0 {
        s == (Single { m: 0, e: 0 })
    } else {
        exists|e: int| #[trigger]
            in_binade(num, den, e) && is_rounded_at(round_even(num * up(-e), den * up(e)), e, s)
    }
}

/// `s` is `q * 2^e`, carried over to the next exponent where `q` needs a 25th bit.
pub open spec fn is_rounded_at(q: int, e: int, s: Single) -> bool {
    if q == HIGH {
        s.m == LOW && s.e == e + 1
    } else {
        s.m == q && s.e == e
    }
}

/// The number nearest to `num / den`.
pub open spec fn nearest(num: int, den: int) -> Single {
    choose|s: Single| is_nearest(num, den, s)
}

pub proof fn lemma_up_add(a: int, b: int)
    requires
        a >= 0,
        b >= 0,
    ensures
        up(a + b) == up(a) * up(b),
        up(a) >= 1,
{
    vstd::arithmetic::power2::lemma2_to64();
    vstd::arithmetic::power2::lemma_pow2_adds(a as nat, b as nat);
    vstd::arithmetic::power2::lemma_pow2_pos(a as nat);
    vstd::arithmetic::power2::lemma_pow2_pos(b as nat);
    if a == 0 {
        assert(1 * up(b) == up(b)) by (nonlinear_arith);
    }
    if b == 0 {
        assert(up(a) * 1 == up(a)) by (nonlinear_arith);
    }
}

pub proof fn lemma_up_step(k: int)
    requires
        k >= 0,
    ensures
        up(k + 1) == 2 * up(k),
        up(k) >= 1,
        up(-k) == 1,
{
    vstd::arithmetic::power2::lemma2_to64();
    lemma_up_add(k, 1);
    assert(up(k) * 2 == 2 * up(k)) by (nonlinear_arith);
}

/// No ratio fits two exponents.
proof fn lemma_binade_unique(num: int, den: int, a: int, b: int)
    requires
        num > 0,
        den > 0,
        in_binade(num, den, a),
        in_binade(num, den, b),
    ensures
        a == b,
{
    if a < b {
        lemma_binade_apart(num, den, a, b);
    } else if b < a {
        lemma_binade_apart(num, den, b, a);
    }
}

proof fn lemma_binade_apart(num: int, den: int, a: int, b: int)
    requires
        num > 0,
        den > 0,
        a < b,
        num * up(-a) < HIGH * (den * up(a)),
    ensures
        num * up(-b) < LOW * (den * up(b)),
{
    // num * up(-a) < HIGH * den * up(a), while exponent b asks for
    // LOW * den * up(b) <= num * up(-b).
    let p = up(-a);
    let q = up(a);
    let r = up(-b);
    let s = up(b);
    // q / p < s / r, by a factor of at least 2
    if a >= 0 {
        lemma_up_add(a, b - a);
        lemma_up_add(b - a - 1, 1);
        vstd::arithmetic::power2::lemma2_to64();
        let t = up(b - a);
        assert(s == q * t);
        assert(t >= 2) by {
            lemma_up_add(b - a - 1, 1);
            assert(t == up(b - a - 1) * 2);
        }
        assert(!(LOW * (den * s) <= num)) by (nonlinear_arith)
            requires
                num < HIGH * (den * q),
                s == q * t,
                t >= 2,
                den > 0,
                q >= 1,
                HIGH == 2 * LOW,
                LOW > 0,
        ;
        assert(num * p == num) by (nonlinear_arith)
            requires
                p == 1,
        ;
        assert(num * r == num) by (nonlinear_arith)
            requires
                r == 1,
        ;
    } else if b <= 0 {
        lemma_up_add(-b, b - a);
        lemma_up_add(b - a - 1, 1);
        vstd::arithmetic::power2::lemma2_to64();
        let t = up(b - a);
        assert(p == r * t);
        assert(t == up(b - a - 1) * 2);
        assert(den * q == den && den * s == den) by (nonlinear_arith)
            requires
                q == 1,
                s == 1,
        ;
        assert(!(LOW * den <= num * r)) by (nonlinear_arith)
            requires
                num * p < HIGH * den,
                p == r * t,
                t >= 2,
                den > 0,
                num > 0,
                r >= 1,
                HIGH == 2 * LOW,
                LOW > 0,
        ;
    } else {
        lemma_up_add(-a - 1, 1);
        lemma_up_add(b - 1, 1);
        vstd::arithmetic::power2::lemma2_to64();
        assert(p == up(-a - 1) * 2);
        assert(s == up(b - 1) * 2);
        assert(p >= 2);
        assert(s >= 2);
        assert(den * q == den && num * r == num) by (nonlinear_arith)
            requires
                q == 1,
                r == 1,
        ;
        assert(!(LOW * (den * s) <= num)) by (nonlinear_arith)
            requires
                num * p < HIGH * den,
                p >= 2,
                s >= 2,
                den > 0,
                num > 0,
                HIGH == 2 * LOW,
                LOW > 0,
        ;
    }
}

/// Nothing but one number is nearest.
pub proof fn law_nearest_unique(num: int, den: int, s: Single)
    requires
        num >= 0,
        den > 0,
        is_nearest(num, den, s),
    ensures
        s == nearest(num, den),
{
    let t = nearest(num, den);
    assert(is_nearest(num, den, t));
    if num > 0 {
        let a = choose|e: int| #[trigger]
            in_binade(num, den, e) && is_rounded_at(round_even(num * up(-e), den * up(e)), e, s);
        let b = choose|e: int| #[trigger]
            in_binade(num, den, e) && is_rounded_at(round_even(num * up(-e), den * up(e)), e, t);
        lemma_binade_unique(num, den, a, b);
    }
}

/// A ratio of at least `2^(23 + lo)` has an exponent of at least `lo`.
pub proof fn lemma_exponent_from(num: int, den: int, s: Single, lo: int)
    requires
        num > 0,
        den > 0,
        is_nearest(num, den, s),
        LOW * (den * up(lo)) <= num * up(-lo),
    ensures
        s.e >= lo,
{
    let i = choose|e: int| #[trigger]
        in_binade(num, den, e) && is_rounded_at(round_even(num * up(-e), den * up(e)), e, s);
    if i < lo {
        lemma_binade_apart(num, den, i, lo);
    }
}

/// A ratio below `2^(24 + hi)` has an exponent of at most `hi`, but for a carry.
pub proof fn lemma_exponent_upto(num: int, den: int, s: Single, hi: int)
    requires
        num > 0,
        den > 0,
        is_nearest(num, den, s),
        num * up(-hi) < HIGH * (den * up(hi)),
    ensures
        s.e <= hi || (s.e == hi + 1 && s.m == LOW),
{
    let i = choose|e: int| #[trigger]
        in_binade(num, den, e) && is_rounded_at(round_even(num * up(-e), den * up(e)), e, s);
    if i > hi {
        lemma_binade_apart(num, den, hi, i);
    }
}

/// A larger integer has no smaller exponent, but for a carry.
pub proof fn lemma_exponent_grows(a: int, b: int, s: Single, t: Single)
    requires
        0 < a <= b,
        is_nearest(a, 1, s),
        is_nearest(b, 1, t),
    ensures
        s.e <= t.e + 1,
{
    let i = choose|e: int| #[trigger]
        in_binade(a, 1, e) && is_rounded_at(round_even(a * up(-e), 1 * up(e)), e, s);
    let j = choose|e: int| #[trigger]
        in_binade(b, 1, e) && is_rounded_at(round_even(b * up(-e), 1 * up(e)), e, t);
    if j < i {
        lemma_binade_apart(b, 1, j, i);
        assert(a * up(-i) <= b * up(-i)) by (nonlinear_arith)
            requires
                a <= b,
                up(-i) >= 0,
        ;
    }
}

pub proof fn lemma_round_even_range(n: int, d: int)
    requires
        d > 0,
        LOW * d <= n < HIGH * d,
    ensures
        LOW <= round_even(n, d) <= HIGH,
        LOW <= n / d < HIGH,
{
    let q = n / d;
    vstd::arithmetic::div_mod::lemma_fundamental_div_mod(n, d);
    vstd::arithmetic::div_mod::lemma_mod_bound(n, d);
    assert(LOW <= q < HIGH) by (nonlinear_arith)
        requires
            n == d * q + n % d,
            0 <= n % d < d,
            LOW * d <= n < HIGH * d,
            d > 0,
    ;
}

/// The number nearest to `num / den`.
fn wide_ratio(num: u128, den: u64) -> (s: Single)
    requires
        den > 0,
        num < 0x10_0000_0000_0000_0000_0000_0000,
    ensures
        s.wf(),
        s == nearest(num as int, den as int),
        is_nearest(num as int, den as int, s),
        -100 <= s.e <= 100,
        num > 0 ==> s.m > 0,
        s.e >= 1 ==> LOW * up(s.e - 1) <= num,
        num <= 2 * den ==> s.e <= 0 && (s.m > 0 ==> s.e <= -21),
{
    if num == 0 {
        let s = Single { m: 0, e: 0 };
        proof {
            law_nearest_unique(0, den as int, s);
        }
        return s;
    }
    let ghost nu = num as int;
    let ghost de = den as int;
    let mut n: u128 = num;
    let mut d: u128 = den as u128;
    let mut e: i32 = 0;
    proof {
        assert(nu * up(0) == nu && de * up(0) == de) by (nonlinear_arith)
            requires
                up(0) == 1,
        ;
    }
    if n < 2 * d {
        proof {
            vstd::arithmetic::power2::lemma2_to64();
            assert(up(22) == 0x40_0000);
        }
        n = n * 0x40_0000;
        e = -22;
    }
    while n < d * 0x80_0000
        invariant
            -90 <= e <= 0,
            0 < n,
            0 < d,
            d == de,
            nu == num,
            de == den,
            num > 0,
            den > 0,
            n == nu * up(-e),
            n < 0x10_0000_0000_0000_0000_0000_0000,
            num < 0x10_0000_0000_0000_0000_0000_0000,
            e < 0 ==> n < d * 0x100_0000,
            up(-e) <= n,
        decreases 91 + e,
    {
        proof {
            lemma_up_step(-e as int);
            assert(nu * (2 * up(-e as int)) == 2 * (nu * up(-e as int))) by (nonlinear_arith);
            assert(e > -90) by {
                if e == -90 {
                    lemma_up_add(64, 26);
                    vstd::arithmetic::power2::lemma2_to64();
                    assert(up(90) == 0x10000000000000000int * 0x4000000int);
                }
            }
        }
        n = n * 2;
        e = e - 1;
    }
    let ghost e0 = e as int;
    while n >= d * 0x100_0000
        invariant
            e0 <= e <= 77,
            e0 <= 0,
            e > e0 ==> e0 == 0 && e >= 0,
            0 < n,
            0 < d,
            n < 0x10_0000_0000_0000_0000_0000_0000,
            nu == num,
            de == den,
            num > 0,
            den > 0,
            n == nu * up(-e0),
            e0 < 0 ==> n < d * 0x100_0000,
            d == de * up(if e > 0 {
                e as int
            } else {
                0
            }),
            n >= d * 0x80_0000,
            up(if e > 0 {
                e as int
            } else {
                0
            }) <= d,
        decreases 78 - e,
    {
        proof {
            assert(e0 == 0);
            lemma_up_step(e as int);
            assert(de * (2 * up(e as int)) == 2 * (de * up(e as int))) by (nonlinear_arith);
            assert(e < 77) by {
                if e == 77 {
                    vstd::arithmetic::power2::lemma2_to64();
                    lemma_up_add(64, 13);
                    assert(up(77) == 0x10000000000000000int * 0x2000int);
                }
            }
        }
        d = d * 2;
        e = e + 1;
    }
    let short: bool = n <= 0xffff_ffff_ffff_ffff;
    let q0: u128 = if short {
        (n as u64 / d as u64) as u128
    } else {
        n / d
    };
    proof {
        vstd::arithmetic::div_mod::lemma_fundamental_div_mod(n as int, d as int);
        vstd::arithmetic::div_mod::lemma_mod_bound(n as int, d as int);
        assert(q0 == n / d);
        assert(q0 * d == d * q0) by (nonlinear_arith);
    }
    let r: u128 = n - q0 * d;
    proof {
        assert(r == n % d);
        lemma_round_even_range(n as int, d as int);
        if e > 0 {
            assert(up(-(e as int)) == 1);
            assert(nu * 1 == nu) by (nonlinear_arith);
        } else {
            assert(up(e as int) == 1);
            assert(de * 1 == de) by (nonlinear_arith);
        }
        assert(n == nu * up(-(e as int)));
        assert(d == de * up(e as int));
        assert(in_binade(nu, de, e as int));
    }
    let q: u64 = if 2 * r < d || (2 * r == d && q0 % 2 == 0) {
        q0 as u64
    } else {
        q0 as u64 + 1
    };
    assert(q == round_even(nu * up(-(e as int)), de * up(e as int)));
    let s = if q == HIGH {
        Single { m: LOW, e: e + 1 }
    } else {
        Single { m: q, e }
    };
    proof {
        if e >= 0 {
            assert(de * up(e as int) >= up(e as int)) by (nonlinear_arith)
                requires
                    de >= 1,
                    up(e as int) >= 1,
            ;
            lemma_up_step(e as int);
            if s.e >= 1 && s.e == e {
                lemma_up_step(e - 1);
            }
        }
        if num <= 2 * den && e >= -21 {
            if e >= 0 {
                assert(de * up(e as int) >= de) by (nonlinear_arith)
                    requires
                        de >= 1,
                        up(e as int) >= 1,
                ;
            } else {
                vstd::arithmetic::power2::lemma2_to64();
                if e > -21 {
                    vstd::arithmetic::power2::lemma_pow2_strictly_increases(-e as nat, 21);
                }
                assert(nu * up(-(e as int)) <= (2 * de) * 0x20_0000) by (nonlinear_arith)
                    requires
                        0 <= nu <= 2 * de,
                        0 <= up(-(e as int)) <= 0x20_0000,
                ;
            }
        }
        assert(is_rounded_at(q as int, e as int, s));
        assert(is_nearest(nu, de, s));
        law_nearest_unique(nu, de, s);
    }
    s
}

/// The number nearest to `num / den`, for short numbers of which the first is not far larger.
#[inline]
fn short_ratio(num: u64, den: u64, b: u32, c: u32) -> (s: Single)
    requires
        1 <= b <= 32,
        1 <= c <= 32,
        b <= c + 22,
        up(b - 1) <= num < up(b as int),
        up(c - 1) <= den < up(c as int),
    ensures
        s.wf(),
        s == nearest(num as int, den as int),
        is_nearest(num as int, den as int, s),
        -100 <= s.e <= 100,
        s.m > 0,
        s.e <= 0,
        num <= 2 * den ==> s.e <= -21,
{
    let ghost nu = num as int;
    let ghost de = den as int;
    let k: u32 = 24 + c - b;
    let p: u64 = power(k);
    proof {
        vstd::arithmetic::power2::lemma2_to64();
        vstd::arithmetic::power2::lemma2_to64_rest();
        lemma_up_step(b - 1);
        lemma_up_step(c - 1);
        lemma_up_add(b - 1, k as int);
        lemma_up_add(b as int, k as int);
        lemma_up_add(c as int, 23);
        lemma_up_add(c as int, 24);
        lemma_up_add(c - 1, 24);
        assert(up(c + 24) <= 0x100_0000_0000_0000) by {
            if c < 32 {
                vstd::arithmetic::power2::lemma_pow2_strictly_increases((c + 24) as nat, 56);
            }
        }
        let (x, y, z) = (up(b - 1), up(b as int), p as int);
        assert(x * z <= nu * z < y * z) by (nonlinear_arith)
            requires
                x <= nu < y,
                z >= 1,
        ;
        assert(up(c + 23) == up(c as int) * LOW);
        assert(de * LOW < up(c as int) * LOW && up(c - 1) * HIGH <= de * HIGH) by (nonlinear_arith)
            requires
                up(c - 1) <= de < up(c as int),
                LOW == 0x80_0000,
                HIGH == 0x100_0000,
        ;
        lemma_up_add(c - 1, 25);
        assert(up(c + 24) == up(c - 1) * 0x200_0000);
        assert(LOW * de <= nu * z < 2 * (HIGH * de));
    }
    let whole: u64 = num * p;
    let high: bool = whole >= den * 0x100_0000;
    let n: u64 = if high {
        whole / 2
    } else {
        whole
    };
    let e: i32 = if high {
        1 - k as i32
    } else {
        -(k as i32)
    };
    proof {
        lemma_up_step(k - 1);
        let h = up(k - 1);
        assert(nu * (2 * h) == 2 * (nu * h)) by (nonlinear_arith);
        assert(n == nu * up(-e as int));
        assert(up(e as int) == 1);
        assert(de * 1 == de);
        assert(in_binade(nu, de, e as int));
        lemma_round_even_range(n as int, de);
        vstd::arithmetic::div_mod::lemma_fundamental_div_mod(n as int, de);
        vstd::arithmetic::div_mod::lemma_mod_bound(n as int, de);
    }
    let q0: u64 = n / den;
    proof {
        assert(q0 * den == den * q0) by (nonlinear_arith);
    }
    let r: u64 = n - q0 * den;
    let q: u64 = if 2 * r < den || (2 * r == den && q0 % 2 == 0) {
        q0
    } else {
        q0 + 1
    };
    assert(q == round_even(nu * up(-(e as int)), de * up(e as int)));
    let s = if q == HIGH {
        Single { m: LOW, e: e + 1 }
    } else {
        Single { m: q, e }
    };
    proof {
        if num <= 2 * den && e >= -21 {
            if e > -21 {
                vstd::arithmetic::power2::lemma_pow2_strictly_increases(-e as nat, 21);
            }
            assert(nu * up(-(e as int)) <= (2 * de) * 0x20_0000) by (nonlinear_arith)
                requires
                    0 <= nu <= 2 * de,
                    0 <= up(-(e as int)) <= 0x20_0000,
            ;
        }
        assert(is_rounded_at(q as int, e as int, s));
        assert(is_nearest(nu, de, s));
        law_nearest_unique(nu, de, s);
    }
    s
}

/// The number nearest to `num / den`.
#[inline]
pub fn ratio(num: u64, den: u64) -> (s: Single)
    requires
        den > 0,
    ensures
        s.wf(),
        s == nearest(num as int, den as int),
        is_nearest(num as int, den as int, s),
        -100 <= s.e <= 100,
        num > 0 ==> s.m > 0,
        s.e >= 1 ==> LOW * up(s.e - 1) <= num,
        num <= 2 * den ==> s.e <= 0 && (s.m > 0 ==> s.e <= -21),
        num <= u32::MAX ==> s.e <= 9,
{
    let s = if den == 1 {
        nearest_whole(num)
    } else if 0 < num && num <= 0xffff_ffff && den <= 0xffff_ffff {
        let b: u32 = length(num);
        let c: u32 = length(den);
        proof {
            lemma_length_of_short(num as int, b as int);
            lemma_length_of_short(den as int, c as int);
        }
        if b <= c + 22 {
            short_ratio(num, den, b, c)
        } else {
            wide_ratio(num as u128, den)
        }
    } else {
        wide_ratio(num as u128, den)
    };
    proof {
        if num <= u32::MAX && s.e > 9 {
            lemma_power_at_least(s.e - 1, 9);
        }
    }
    s
}

proof fn lemma_length_of_short(n: int, b: int)
    requires
        0 < n <= 0xffff_ffff,
        1 <= b,
        up(b - 1) <= n,
    ensures
        b <= 32,
{
    vstd::arithmetic::power2::lemma2_to64();
    if b > 33 {
        vstd::arithmetic::power2::lemma_pow2_strictly_increases(32, (b - 1) as nat);
    }
}

/// `s * 2^k`.
pub open spec fn shifted(s: Single, k: int) -> Single {
    if s.m == 0 {
        s
    } else {
        Single { m: s.m, e: (s.e + k) as i32 }
    }
}

/// The number nearest to `a * b`.
pub open spec fn product(a: Single, b: Single) -> Single {
    shifted(nearest(a.m * b.m, 1), a.e + b.e)
}

/// The number nearest to `a / b`.
pub open spec fn quotient(a: Single, b: Single) -> Single {
    shifted(nearest(a.m as int, b.m as int), a.e - b.e)
}

/// The number nearest to `a + b`.
pub open spec fn total(a: Single, b: Single) -> Single {
    if a.m == 0 {
        b
    } else if b.m == 0 {
        a
    } else if a.e <= b.e {
        shifted(nearest(a.m + b.m * up(b.e - a.e), 1), a.e as int)
    } else {
        shifted(nearest(a.m * up(a.e - b.e) + b.m, 1), b.e as int)
    }
}

/// The largest integer that is no larger than the number.
pub open spec fn floor(s: Single) -> int {
    if s.e >= 0 {
        s.m * up(s.e as int)
    } else {
        s.m as int / up(-s.e)
    }
}

/// The smallest integer that is no smaller than the number.
pub open spec fn ceil(s: Single) -> int {
    if s.e >= 0 {
        s.m * up(s.e as int)
    } else {
        (s.m + up(-s.e) - 1) / up(-s.e)
    }
}

/// The integer nearest to the number, the larger one of two that are equally near.
pub open spec fn round(s: Single) -> int {
    if s.e >= 0 {
        s.m * up(s.e as int)
    } else {
        (2 * s.m + up(-s.e)) / (2 * up(-s.e))
    }
}

/// `2^k`.
#[inline]
fn power(k: u32) -> (p: u64)
    requires
        k < 64,
    ensures
        p == up(k as int),
        p >= 1,
{
    proof {
        vstd::arithmetic::power2::lemma2_to64();
        vstd::arithmetic::power2::lemma2_to64_rest();
        vstd::arithmetic::power2::lemma_pow2_pos(k as nat);
        if k < 63 {
            vstd::arithmetic::power2::lemma_pow2_strictly_increases(k as nat, 63);
        }
        vstd::bits::lemma_u64_shl_is_mul(1, k as u64);
    }
    1u64 << (k as u64)
}

/// How many bits a number has.
#[inline]
pub fn length(n: u64) -> (b: u32)
    requires
        n > 0,
    ensures
        1 <= b <= 64,
        up(b - 1) <= n < up(b as int),
{
    let z: u32 = n.leading_zeros();
    proof {
        vstd::arithmetic::power2::lemma2_to64();
        vstd::arithmetic::power2::lemma2_to64_rest();
        let k: u64 = (63 - z) as u64;
        vstd::bits::lemma_u64_shr_is_div(n, k);
        assert(0u64 & 1u64 == 0u64) by (bit_vector);
        assert((n >> k) & 1u64 != 0u64);
        assert(n >> k != 0);
        vstd::arithmetic::power2::lemma_pow2_pos(k as nat);
        if n < up(k as int) {
            vstd::arithmetic::div_mod::lemma_basic_div(n as int, up(k as int));
        }
        if z > 0 {
            let j: u64 = (64 - z) as u64;
            vstd::bits::lemma_u64_shr_is_div(n, j);
            vstd::arithmetic::power2::lemma_pow2_pos(j as nat);
            assert(n >> j == 0);
            if n >= up(j as int) {
                vstd::arithmetic::div_mod::lemma_div_is_ordered(up(j as int), n as int, up(j as int));
                vstd::arithmetic::div_mod::lemma_div_by_self(up(j as int));
            }
        }
    }
    64 - z
}

/// The number nearest to an integer.
#[inline]
fn nearest_whole(n: u64) -> (s: Single)
    ensures
        s.wf(),
        s == nearest(n as int, 1),
        is_nearest(n as int, 1, s),
        -100 <= s.e <= 100,
        n > 0 ==> s.m > 0,
        s.e >= 1 ==> LOW * up(s.e - 1) <= n,
        n <= 2 ==> s.e <= 0 && (s.m > 0 ==> s.e <= -21),
{
    if n == 0 {
        let s = Single { m: 0, e: 0 };
        proof {
            law_nearest_unique(0, 1, s);
        }
        return s;
    }
    let b: u32 = length(n);
    let e: i32 = b as i32 - 24;
    proof {
        vstd::arithmetic::power2::lemma2_to64();
    }
    if e <= 0 {
        let p: u64 = power((-e) as u32);
        proof {
            lemma_up_add(b - 1, -e as int);
            lemma_up_add(b as int, -e as int);
            let x = n as int;
            let y = p as int;
            assert(LOW <= x * y < HIGH) by (nonlinear_arith)
                requires
                    up(b - 1) <= x < up(b as int),
                    up(b - 1) * y == LOW,
                    up(b as int) * y == HIGH,
                    y >= 1,
            ;
        }
        let m: u64 = n * p;
        let s = Single { m, e };
        proof {
            assert(n * up(-e as int) == m);
            assert(1 * up(e as int) == 1);
            assert(in_binade(n as int, 1, e as int));
            assert(round_even(m as int, 1) == m);
            assert(is_rounded_at(m as int, e as int, s));
            assert(is_nearest(n as int, 1, s));
            law_nearest_unique(n as int, 1, s);
            if n <= 2 && e > -21 {
                if b >= 4 {
                    vstd::arithmetic::power2::lemma_pow2_strictly_increases(2, (b - 1) as nat);
                }
            }
        }
        s
    } else {
        let d: u64 = power(e as u32);
        proof {
            lemma_up_add(23, e as int);
            lemma_up_add(24, e as int);
            assert(LOW * d <= n < HIGH * d);
            lemma_round_even_range(n as int, d as int);
        }
        proof {
            vstd::bits::lemma_u64_shr_is_div(n, e as u64);
            vstd::arithmetic::div_mod::lemma_fundamental_div_mod(n as int, d as int);
            vstd::arithmetic::div_mod::lemma_mod_bound(n as int, d as int);
        }
        let q0: u64 = n >> (e as u64);
        proof {
            assert(q0 == n as int / d as int);
            assert(q0 * d == d * q0) by (nonlinear_arith);
        }
        let r: u64 = n - q0 * d;
        let rest: u64 = d - r;
        let q: u64 = if r < rest || (r == rest && q0 % 2 == 0) {
            q0
        } else {
            q0 + 1
        };
        let s = if q == HIGH {
            Single { m: LOW, e: e + 1 }
        } else {
            Single { m: q, e }
        };
        proof {
            assert(n * up(-e as int) == n) by (nonlinear_arith)
                requires
                    up(-e as int) == 1,
            ;
            assert(1 * up(e as int) == d);
            assert(in_binade(n as int, 1, e as int));
            assert(q == round_even(n as int, d as int));
            assert(is_rounded_at(q as int, e as int, s));
            assert(is_nearest(n as int, 1, s));
            law_nearest_unique(n as int, 1, s);
            lemma_up_step(e - 1);
            lemma_up_step(e as int);
            assert(LOW * up(e as int) == 2 * (LOW * up(e - 1)));
        }
        s
    }
}

impl Single {
    /// An integer as the nearest number.
    #[inline]
    pub fn of(n: u64) -> (s: Single)
        ensures
            s.wf(),
            s == nearest(n as int, 1),
            is_nearest(n as int, 1, s),
            -100 <= s.e <= 100,
            n > 0 ==> s.m > 0,
            n <= u32::MAX ==> s.e <= 9,
    {
        ratio(n, 1)
    }

    /// The number times `2^k`.
    #[inline]
    pub fn shift(self, k: i32) -> (s: Single)
        requires
            self.wf(),
            -100 <= self.e <= 100,
            -1000000000 <= k <= 1000000000,
        ensures
            s.wf(),
            s == shifted(self, k as int),
            s.e == self.e + k || s.e == 0,
            s.m == self.m,
    {
        if self.m == 0 {
            self
        } else {
            Single { m: self.m, e: self.e + k }
        }
    }

    /// The product of two numbers.
    #[inline]
    pub fn times(self, other: Single) -> (s: Single)
        requires
            self.wf(),
            other.wf(),
            -500000000 <= self.e <= 500000000,
            -500000000 <= other.e <= 500000000,
        ensures
            s.wf(),
            s == product(self, other),
            self.m > 0 && other.m > 0 ==> s.m > 0 && self.e + other.e + 23 <= s.e <= self.e
                + other.e + 25,
            self.m == 0 || other.m == 0 ==> s.m == 0,
            !below(one(), self) && !below(one(), other) ==> !below(one(), s),
    {
        assert(self.m * other.m < 0x100_0000 * 0x100_0000) by (nonlinear_arith)
            requires
                self.m < 0x100_0000,
                other.m < 0x100_0000,
        ;
        assert(self.m * other.m >= 0) by (nonlinear_arith);
        let raw = ratio(self.m * other.m, 1);
        proof {
            if raw.e > 25 {
                lemma_power_at_least(raw.e - 1, 25);
            }
            if self.m > 0 && other.m > 0 {
                vstd::arithmetic::power2::lemma2_to64();
                let t = self.m * other.m;
                assert(t >= 0x80_0000 * 0x80_0000) by (nonlinear_arith)
                    requires
                        t == self.m * other.m,
                        self.m >= 0x80_0000,
                        other.m >= 0x80_0000,
                ;
                assert(t * up(-23) == t) by (nonlinear_arith)
                    requires
                        up(-23) == 1,
                ;
                lemma_exponent_from(t, 1, raw, 23);
                if !below(one(), self) && !below(one(), other) {
                    lemma_product_below_one(self, other, raw);
                }
            } else {
                assert(self.m * other.m == 0) by (nonlinear_arith)
                    requires
                        self.m == 0 || other.m == 0,
                ;
            }
        }
        raw.shift(self.e + other.e)
    }

    /// The quotient of two numbers.
    #[inline]
    pub fn over(self, other: Single) -> (s: Single)
        requires
            self.wf(),
            other.wf(),
            other.m > 0,
            -500000000 <= self.e <= 500000000,
            -500000000 <= other.e <= 500000000,
        ensures
            s.wf(),
            s == quotient(self, other),
            self.m > 0 ==> s.m > 0 && self.e - other.e - 24 <= s.e <= self.e - other.e - 22,
            self.m == 0 ==> s.m == 0 && s.e == 0,
            !below(other, self) ==> !below(one(), s),
    {
        assert(self.m <= 2 * other.m);
        let raw = ratio(self.m, other.m);
        proof {
            if self.m > 0 {
                vstd::arithmetic::power2::lemma2_to64();
                assert(self.m * up(24) == self.m * 0x100_0000);
                assert(other.m * up(-24) == other.m);
                lemma_exponent_from(self.m as int, other.m as int, raw, -24);
                assert(other.m * up(-23) == other.m) by (nonlinear_arith)
                    requires
                        up(-23) == 1,
                ;
                assert(self.m * up(23) < HIGH * other.m) by (nonlinear_arith)
                    requires
                        self.m < 0x100_0000,
                        other.m >= 0x80_0000,
                        up(23) == 0x80_0000,
                        HIGH == 0x100_0000,
                ;
                lemma_exponent_upto(self.m as int, other.m as int, raw, -23);
            }
            if !below(other, self) {
                law_quotient_within_one(self, other, quotient(self, other));
            }
        }
        raw.shift(self.e - other.e)
    }

    /// The sum of two numbers.
    #[inline]
    pub fn plus(self, other: Single) -> (s: Single)
        requires
            self.wf(),
            other.wf(),
            -500000000 <= self.e <= 500000000,
            -500000000 <= other.e <= 500000000,
        ensures
            s.wf(),
            s == total(self, other),
            self.m > 0 && other.m > 0 ==> s.m > 0 && (if self.e <= other.e {
                other.e
            } else {
                self.e
            }) <= s.e <= 1 + (if self.e <= other.e {
                other.e
            } else {
                self.e
            }),
            self.m == 0 ==> s == other,
            other.m == 0 ==> s == self,
    {
        if self.m == 0 {
            other
        } else if other.m == 0 {
            self
        } else if self.e - other.e > 38 {
            proof {
                lemma_absorb_sum(self, other);
            }
            self
        } else if other.e - self.e > 38 {
            proof {
                lemma_absorb_sum(other, self);
            }
            other
        } else if self.e <= other.e {
            let p: u64 = power((other.e - self.e) as u32);
            proof {
                lemma_small_power((other.e - self.e) as int);
                assert(other.m * p <= 0x100_0000 * 0x40_0000_0000) by (nonlinear_arith)
                    requires
                        other.m <= 0x100_0000,
                        p <= 0x40_0000_0000,
                ;
                assert(other.m * p >= 0) by (nonlinear_arith);
            }
            let raw = ratio(self.m + other.m * p, 1);
            proof {
                lemma_sum_exponent(self.m as int, other.m as int, (other.e - self.e) as int, raw);
            }
            raw.shift(self.e)
        } else {
            let p: u64 = power((self.e - other.e) as u32);
            proof {
                lemma_small_power((self.e - other.e) as int);
                assert(self.m * p <= 0x100_0000 * 0x40_0000_0000) by (nonlinear_arith)
                    requires
                        self.m <= 0x100_0000,
                        p <= 0x40_0000_0000,
                ;
                assert(self.m * p >= 0) by (nonlinear_arith);
            }
            let raw = ratio(self.m * p + other.m, 1);
            proof {
                lemma_sum_exponent(other.m as int, self.m as int, (self.e - other.e) as int, raw);
            }
            raw.shift(other.e)
        }
    }

    /// The integer part.
    pub fn floor(self) -> (n: u64)
        requires
            self.wf(),
            self.e <= 38,
        ensures
            n == floor(self),
            self.e <= 24 ==> n <= 0x1_0000_0000_0000,
            self.e <= 2 ==> n <= 0x400_0000,
    {
        if self.e >= 0 {
            let p: u64 = power(self.e as u32);
            proof {
                lemma_small_power(self.e as int);
                assert(self.m * p <= 0x100_0000 * 0x40_0000_0000) by (nonlinear_arith)
                    requires
                        self.m <= 0x100_0000,
                        p <= 0x40_0000_0000,
                ;
                assert(self.m * p >= 0) by (nonlinear_arith);
                vstd::arithmetic::power2::lemma2_to64();
                if self.e <= 2 {
                    assert(p <= 4);
                    assert(self.m * p <= 0x100_0000 * 4) by (nonlinear_arith)
                        requires
                            self.m <= 0x100_0000,
                            p <= 4,
                    ;
                }
                if self.e <= 24 {
                    lemma_power_upto_24(self.e as int);
                    assert(self.m * p <= 0x100_0000 * 0x100_0000) by (nonlinear_arith)
                        requires
                            self.m <= 0x100_0000,
                            p <= 0x100_0000,
                    ;
                }
            }
            self.m * p
        } else if self.e >= -38 {
            let p: u64 = power((-self.e) as u32);
            assert(self.m / p <= self.m) by (nonlinear_arith)
                requires
                    p >= 1,
            ;
            self.m / p
        } else {
            proof {
                lemma_large_power(-self.e);
                vstd::arithmetic::div_mod::lemma_fundamental_div_mod_converse(
                    self.m as int,
                    up(-self.e),
                    0,
                    self.m as int,
                );
            }
            0
        }
    }

    /// The integer, or the next one up.
    pub fn ceil(self) -> (n: u64)
        requires
            self.wf(),
            self.e <= 38,
        ensures
            n == ceil(self),
            self.e <= 24 ==> n <= 0x1_0000_0000_0000,
    {
        if self.e >= 0 {
            self.floor()
        } else if self.e < -38 {
            proof {
                lemma_large_power(-self.e);
                let t = self.m + up(-self.e) - 1;
                vstd::arithmetic::div_mod::lemma_fundamental_div_mod_converse(
                    t,
                    up(-self.e),
                    1,
                    t - up(-self.e),
                );
            }
            1
        } else {
            let p: u64 = power((-self.e) as u32);
            proof {
                lemma_small_power(-self.e);
            }
            assert((self.m + p - 1) / (p as int) <= self.m + p - 1) by (nonlinear_arith)
                requires
                    p >= 1,
                    self.m >= 0,
            ;
            (self.m + p - 1) / p
        }
    }

    /// The nearest integer, halves going up.
    pub fn round(self) -> (n: u64)
        requires
            self.wf(),
            self.e <= 38,
        ensures
            n == round(self),
            self.e <= 24 ==> n <= 0x1_0000_0000_0000,
            self.e <= 0 ==> n <= 0x100_0000,
    {
        if self.e >= 0 {
            let p: u64 = power(self.e as u32);
            proof {
                lemma_small_power(self.e as int);
                assert(self.m * p <= 0x100_0000 * 0x40_0000_0000) by (nonlinear_arith)
                    requires
                        self.m <= 0x100_0000,
                        p <= 0x40_0000_0000,
                ;
                assert(self.m * p >= 0) by (nonlinear_arith);
                if self.e <= 0 {
                    assert(p == 1);
                    assert(self.m * p == self.m) by (nonlinear_arith)
                        requires
                            p == 1,
                    ;
                }
                if self.e <= 24 {
                    lemma_power_upto_24(self.e as int);
                    assert(self.m * p <= 0x100_0000 * 0x100_0000) by (nonlinear_arith)
                        requires
                            self.m <= 0x100_0000,
                            p <= 0x100_0000,
                    ;
                }
            }
            self.m * p
        } else if self.e >= -38 {
            let p: u64 = power((-self.e) as u32);
            proof {
                lemma_small_power(-self.e);
            }
            assert((2 * self.m + p) / (2 * p as int) <= self.m + 1) by (nonlinear_arith)
                requires
                    p >= 1,
                    self.m >= 0,
            ;
            (2 * self.m + p) / (2 * p)
        } else {
            proof {
                lemma_large_power(-self.e);
                let t = 2 * self.m + up(-self.e);
                vstd::arithmetic::div_mod::lemma_fundamental_div_mod_converse(
                    t,
                    2 * up(-self.e),
                    0,
                    t,
                );
            }
            0
        }
    }
}

proof fn lemma_power_upto_24(k: int)
    requires
        0 <= k <= 24,
    ensures
        up(k) <= 0x100_0000,
{
    vstd::arithmetic::power2::lemma2_to64();
    if k < 24 {
        vstd::arithmetic::power2::lemma_pow2_strictly_increases(k as nat, 24);
    }
    lemma_up_step(k);
}

/// A sum has the larger exponent of the two, or the next one.
proof fn lemma_sum_exponent(a: int, b: int, d: int, s: Single)
    requires
        LOW <= a < HIGH,
        LOW <= b < HIGH,
        0 <= d <= 38,
        is_nearest(a + b * up(d), 1, s),
        s.wf(),
    ensures
        d <= s.e <= d + 1,
{
    let n = a + b * up(d);
    let p = up(d);
    lemma_up_step(d);
    lemma_up_step(d + 1);
    assert(n >= LOW * p && n < HIGH * (2 * p)) by (nonlinear_arith)
        requires
            n == a + b * p,
            p >= 1,
            LOW <= a < HIGH,
            LOW <= b < HIGH,
    ;
    assert(n * up(-d) == n && n * up(-(d + 1)) == n) by (nonlinear_arith)
        requires
            up(-d) == 1,
            up(-(d + 1)) == 1,
    ;
    lemma_exponent_from(n, 1, s, d);
    let i = choose|e: int| #[trigger]
        in_binade(n, 1, e) && is_rounded_at(round_even(n * up(-e), 1 * up(e)), e, s);
    if i > d + 1 {
        lemma_binade_apart(n, 1, d + 1, i);
    }
    if s.e == d + 2 {
        lemma_carry_free(a, b, d);
    }
}

/// A sum of two numbers never needs a carry past the next exponent.
proof fn lemma_carry_free(a: int, b: int, d: int)
    requires
        LOW <= a < HIGH,
        LOW <= b < HIGH,
        0 <= d <= 38,
    ensures
        round_even((a + b * up(d)) * up(-(d + 1)), 1 * up(d + 1)) < HIGH,
{
    let n = a + b * up(d);
    let p = up(d);
    lemma_up_step(d);
    lemma_up_step(d + 1);
    assert(n * up(-(d + 1)) == n) by (nonlinear_arith)
        requires
            up(-(d + 1)) == 1,
    ;
    assert(1 * up(d + 1) == 2 * p);
    let q = n / (2 * p);
    vstd::arithmetic::div_mod::lemma_fundamental_div_mod(n, 2 * p);
    vstd::arithmetic::div_mod::lemma_mod_bound(n, 2 * p);
    assert(n <= (HIGH - 1) * (2 * p)) by (nonlinear_arith)
        requires
            n == a + b * p,
            p >= 1,
            a <= HIGH - 1,
            b <= HIGH - 1,
            HIGH >= 2,
    ;
    assert(q <= HIGH - 1) by (nonlinear_arith)
        requires
            n == (2 * p) * q + n % (2 * p),
            n % (2 * p) >= 0,
            n <= (HIGH - 1) * (2 * p),
            p >= 1,
    ;
    if q == HIGH - 1 {
        assert(n % (2 * p) == 0) by (nonlinear_arith)
            requires
                n == (2 * p) * q + n % (2 * p),
                n % (2 * p) >= 0,
                n <= (HIGH - 1) * (2 * p),
                q == HIGH - 1,
        ;
    }
}

/// A number far smaller than another does not change it when it is added.
proof fn lemma_absorb_sum(a: Single, b: Single)
    requires
        a.wf(),
        b.wf(),
        a.m > 0,
        b.m > 0,
        a.e - b.e > 38,
        -500000000 <= a.e <= 500000000,
        -500000000 <= b.e <= 500000000,
    ensures
        shifted(nearest(a.m * up(a.e - b.e) + b.m, 1), b.e as int) == a,
        shifted(nearest(b.m + a.m * up(a.e - b.e), 1), b.e as int) == a,
{
    let d = a.e - b.e;
    let p = up(d);
    lemma_up_step(d);
    lemma_power_at_least(d, 38);
    let n = a.m * p + b.m;
    assert(p >= 0x40_0000_0000);
    assert(LOW * p <= n && n < HIGH * p) by (nonlinear_arith)
        requires
            n == a.m * p + b.m,
            LOW <= a.m < HIGH,
            0 < b.m < 0x100_0000,
            p >= 0x40_0000_0000,
    ;
    assert(n * up(-d) == n && 1 * p == p) by (nonlinear_arith)
        requires
            up(-d) == 1,
    ;
    assert(in_binade(n, 1, d));
    lemma_divides(n, p, a.m as int, b.m as int);
    let s = Single { m: a.m, e: d as i32 };
    assert(is_rounded_at(round_even(n * up(-d), 1 * up(d)), d, s));
    assert(is_nearest(n, 1, s));
    law_nearest_unique(n, 1, s);
}

proof fn lemma_divides(n: int, p: int, q: int, r: int)
    requires
        n == q * p + r,
        0 <= r < p,
    ensures
        n / p == q,
        n % p == r,
{
    vstd::arithmetic::div_mod::lemma_fundamental_div_mod_converse(n, p, q, r);
}

/// A number far smaller than another does not change it when it is taken away.
proof fn lemma_absorb_difference(a: Single, b: Single)
    requires
        a.wf(),
        b.wf(),
        a.m > 0,
        b.m > 0,
        a.e - b.e > 38,
        -500000000 <= a.e <= 500000000,
        -500000000 <= b.e <= 500000000,
    ensures
        shifted(nearest(a.m * up(a.e - b.e) - b.m, 1), b.e as int) == a,
{
    let d = a.e - b.e;
    let n = a.m * up(d) - b.m;
    let h = up(d - 1);
    lemma_up_step(d - 1);
    lemma_up_step(d);
    lemma_power_at_least(d - 1, 38);
    assert(h >= 0x40_0000_0000);
    if a.m > LOW {
        let p = up(d);
        assert(LOW * p <= n && n < HIGH * p) by (nonlinear_arith)
            requires
                n == a.m * p - b.m,
                LOW < a.m < HIGH,
                0 < b.m < 0x100_0000,
                p >= 0x40_0000_0000,
        ;
        assert(n * up(-d) == n && 1 * p == p) by (nonlinear_arith)
            requires
                up(-d) == 1,
        ;
        assert(in_binade(n, 1, d));
        assert(n == (a.m - 1) * p + (p - b.m)) by (nonlinear_arith)
            requires
                n == a.m * p - b.m,
        ;
        lemma_divides(n, p, a.m - 1, p - b.m);
        let s = Single { m: a.m, e: d as i32 };
        assert(is_rounded_at(round_even(n * up(-d), 1 * up(d)), d, s));
        assert(is_nearest(n, 1, s));
        law_nearest_unique(n, 1, s);
    } else {
        assert(n == HIGH * h - b.m) by (nonlinear_arith)
            requires
                n == a.m * up(d) - b.m,
                up(d) == 2 * h,
                a.m == 0x80_0000,
                HIGH == 0x100_0000,
        ;
        assert(LOW * h <= n && n < HIGH * h) by (nonlinear_arith)
            requires
                n == HIGH * h - b.m,
                0 < b.m < 0x100_0000,
                h >= 0x40_0000_0000,
                HIGH == 0x100_0000,
                LOW == 0x80_0000,
        ;
        assert(n * up(-(d - 1)) == n && 1 * h == h) by (nonlinear_arith)
            requires
                up(-(d - 1)) == 1,
        ;
        assert(in_binade(n, 1, d - 1));
        assert(n == (HIGH - 1) * h + (h - b.m)) by (nonlinear_arith)
            requires
                n == HIGH * h - b.m,
        ;
        lemma_divides(n, h, HIGH - 1, h - b.m);
        let s = Single { m: LOW, e: d as i32 };
        assert(is_rounded_at(round_even(n * up(-(d - 1)), 1 * up(d - 1)), d - 1, s));
        assert(is_nearest(n, 1, s));
        law_nearest_unique(n, 1, s);
    }
}

/// The number nearest to `a - b`, for `b` no larger than `a`.
pub open spec fn difference(a: Single, b: Single) -> Single {
    if b.m == 0 {
        a
    } else {
        shifted(nearest(a.m * up(a.e - b.e) - b.m, 1), b.e as int)
    }
}

impl Single {
    /// What is left of a number when one that is no larger is taken away.
    #[inline]
    pub fn minus(self, other: Single) -> (s: Single)
        requires
            self.wf(),
            other.wf(),
            -500000000 <= self.e <= 500000000,
            -500000000 <= other.e <= 500000000,
            !below(self, other),
        ensures
            s.wf(),
            s == difference(self, other),
            below(other, self) <==> s.m > 0,
            s.m > 0 ==> self.e - 62 <= s.e <= self.e,
            other.m == 0 ==> s == self,
            !below(self, s),
    {
        if other.m == 0 {
            self
        } else if self.e - other.e > 38 {
            proof {
                lemma_absorb_difference(self, other);
            }
            self
        } else {
            let p: u64 = power((self.e - other.e) as u32);
            proof {
                lemma_small_power((self.e - other.e) as int);
                assert(self.m * p <= 0x100_0000 * 0x40_0000_0000) by (nonlinear_arith)
                    requires
                        self.m <= 0x100_0000,
                        p <= 0x40_0000_0000,
                ;
                assert(self.m * p >= other.m && (below(other, self) ==> self.m * p > other.m)) by {
                    if self.e == other.e {
                        assert(p == 1);
                        assert(self.m * p == self.m) by (nonlinear_arith)
                            requires
                                p == 1,
                        ;
                    } else {
                        lemma_power_at_least((self.e - other.e) as int, 1);
                        vstd::arithmetic::power2::lemma2_to64();
                        assert(self.m * p >= 0x80_0000 * 2) by (nonlinear_arith)
                            requires
                                self.m >= 0x80_0000,
                                p >= 2,
                        ;
                    }
                }
            }
            let raw = ratio(self.m * p - other.m, 1);
            proof {
                let d = self.e - other.e;
                if self.m * p - other.m > 0 {
                    lemma_shifted_exact(self.m as int, d);
                    law_nearest_grows(
                        self.m * p - other.m,
                        self.m * p,
                        raw,
                        nearest(self.m * p, 1),
                    );
                    vstd::arithmetic::power2::lemma2_to64();
                    let n = self.m * p - other.m;
                    assert(LOW * (1 * up(-23)) <= n * up(23)) by (nonlinear_arith)
                        requires
                            n >= 1,
                            up(-23) == 1,
                            up(23) == 0x80_0000,
                            LOW == 0x80_0000,
                    ;
                    lemma_exponent_from(n, 1, raw, -23);
                }
            }
            raw.shift(other.e)
        }
    }
}

/// What is left of `a` when `b` is taken away, or nothing.
pub open spec fn remainder(a: Single, b: Single) -> Single {
    if below(a, b) {
        nought()
    } else {
        difference(a, b)
    }
}

impl Single {
    /// What is left of a number when another is taken away, or nothing.
    pub fn spare(self, other: Single) -> (s: Single)
        requires
            self.wf(),
            other.wf(),
            -500000000 <= self.e <= 500000000,
            -500000000 <= other.e <= 500000000,
        ensures
            s.wf(),
            s == remainder(self, other),
            s.m > 0 ==> self.e - 62 <= s.e <= self.e,
    {
        if self.less(other) {
            Single { m: 0, e: 0 }
        } else {
            self.minus(other)
        }
    }
}

proof fn lemma_small_power(k: int)
    requires
        0 <= k <= 38,
    ensures
        1 <= up(k) <= 0x40_0000_0000,
{
    vstd::arithmetic::power2::lemma2_to64();
    vstd::arithmetic::power2::lemma2_to64_rest();
    lemma_up_step(k);
    if k < 38 {
        vstd::arithmetic::power2::lemma_pow2_strictly_increases(k as nat, 38);
    }
}

/// A higher power of two is no smaller.
pub proof fn lemma_power_at_least(k: int, j: int)
    requires
        k >= j,
        0 <= j <= 38,
    ensures
        up(k) >= up(j),
        j == 9 ==> up(j) == 512,
        j == 25 ==> up(j) == 0x200_0000,
        j == 38 ==> up(j) == 0x40_0000_0000,
{
    vstd::arithmetic::power2::lemma2_to64();
    vstd::arithmetic::power2::lemma2_to64_rest();
    if k > j {
        vstd::arithmetic::power2::lemma_pow2_strictly_increases(j as nat, k as nat);
    }
    lemma_up_step(k);
}

proof fn lemma_large_power(k: int)
    requires
        k > 38,
    ensures
        up(k) >= 0x40_0000_0000,
{
    vstd::arithmetic::power2::lemma2_to64();
    vstd::arithmetic::power2::lemma2_to64_rest();
    vstd::arithmetic::power2::lemma_pow2_strictly_increases(38, k as nat);
}

/// `a` is smaller than `b`.
pub open spec fn below(a: Single, b: Single) -> bool {
    if a.m == 0 || b.m == 0 {
        a.m < b.m
    } else {
        a.e < b.e || (a.e == b.e && a.m < b.m)
    }
}

/// Every number is as large as it is: order on significands and exponents is order on values.
pub proof fn law_below_is_order(a: Single, b: Single, k: int)
    requires
        a.wf(),
        b.wf(),
        a.e >= k,
        b.e >= k,
    ensures
        below(a, b) <==> a.m * up(a.e - k) < b.m * up(b.e - k),
{
    if a.m == 0 {
        assert(a.m * up(a.e - k) == 0) by (nonlinear_arith)
            requires
                a.m == 0,
        ;
        lemma_up_step(b.e - k);
        if b.m > 0 {
            assert(b.m * up(b.e - k) > 0) by (nonlinear_arith)
                requires
                    b.m > 0,
                    up(b.e - k) >= 1,
            ;
        } else {
            assert(b.m * up(b.e - k) == 0) by (nonlinear_arith)
                requires
                    b.m == 0,
            ;
        }
    } else if b.m == 0 {
        assert(b.m * up(b.e - k) == 0) by (nonlinear_arith)
            requires
                b.m == 0,
        ;
        lemma_up_step(a.e - k);
        assert(a.m * up(a.e - k) > 0) by (nonlinear_arith)
            requires
                a.m > 0,
                up(a.e - k) >= 1,
        ;
    } else if a.e == b.e {
        lemma_up_step(a.e - k);
        let t = up(a.e - k);
        assert(a.m < b.m <==> a.m * t < b.m * t) by (nonlinear_arith)
            requires
                t >= 1,
        ;
    } else if a.e < b.e {
        lemma_apart(a.m as int, b.m as int, a.e - k, b.e - k);
    } else {
        lemma_apart(b.m as int, a.m as int, b.e - k, a.e - k);
    }
}

proof fn lemma_apart(a: int, b: int, i: int, j: int)
    requires
        LOW <= a < HIGH,
        LOW <= b < HIGH,
        0 <= i < j,
    ensures
        a * up(i) < b * up(j),
{
    lemma_up_add(i, j - i);
    lemma_up_add(j - i - 1, 1);
    vstd::arithmetic::power2::lemma2_to64();
    let t = up(j - i);
    assert(t == up(j - i - 1) * 2);
    let u = up(i);
    assert(up(j) == u * t);
    assert(a * u < b * (u * t)) by (nonlinear_arith)
        requires
            a < 0x100_0000,
            b >= 0x80_0000,
            u >= 1,
            t >= 2,
    ;
}

impl Single {
    /// Is this number smaller than the other?
    #[inline]
    pub fn less(self, other: Single) -> (b: bool)
        requires
            self.wf(),
            other.wf(),
        ensures
            b == below(self, other),
    {
        if self.m == 0 || other.m == 0 {
            self.m < other.m
        } else {
            self.e < other.e || (self.e == other.e && self.m < other.m)
        }
    }

    /// The number, or the nearest end of `lo..=hi` where it lies outside.
    #[inline]
    pub fn clamp(self, lo: Single, hi: Single) -> (s: Single)
        requires
            self.wf(),
            lo.wf(),
            hi.wf(),
        ensures
            s.wf(),
            s == clamped(self, lo, hi),
    {
        if self.less(lo) {
            lo
        } else if hi.less(self) {
            hi
        } else {
            self
        }
    }
}

/// `s`, or the nearest end of `lo..=hi` where it lies outside.
pub open spec fn clamped(s: Single, lo: Single, hi: Single) -> Single {
    if below(s, lo) {
        lo
    } else if below(hi, s) {
        hi
    } else {
        s
    }
}

/// The number 1.
pub open spec fn one() -> Single {
    Single { m: LOW, e: -23i32 }
}

/// 1 is the number nearest to 1.
pub proof fn lemma_one()
    ensures
        nearest(1, 1) == one(),
        is_nearest(1, 1, one()),
{
    vstd::arithmetic::power2::lemma2_to64();
    assert(up(23) == LOW);
    assert(up(-23) == 1);
    assert(1 * up(23) == LOW) by (nonlinear_arith)
        requires
            up(23) == LOW,
    ;
    assert(in_binade(1, 1, -23));
    assert(round_even(LOW as int, 1) == LOW);
    assert(is_nearest(1, 1, one()));
    law_nearest_unique(1, 1, one());
}

/// A share of a whole: a number from 0 to 1. Shares below `2^-75` count as nothing.
pub open spec fn is_share(s: Single) -> bool {
    &&& s.wf()
    &&& !below(one(), s)
    &&& s.m > 0 ==> s.e >= -98
}

/// A proper fraction is a share.
pub proof fn lemma_fraction_is_share(num: int, den: int, s: Single)
    requires
        0 < num < den <= u32::MAX,
        s.wf(),
        is_nearest(num, den, s),
    ensures
        is_share(s),
        s.m > 0 ==> -60 <= s.e <= -23,
{
    vstd::arithmetic::power2::lemma2_to64();
    vstd::arithmetic::power2::lemma2_to64_rest();
    assert(up(24) == 0x100_0000);
    assert(up(60) == 0x1000_0000_0000_0000);
    assert(den * up(-24) == den && den * up(-60) == den) by (nonlinear_arith)
        requires
            up(-24) == 1,
            up(-60) == 1,
    ;
    assert(num * up(24) < HIGH * den) by (nonlinear_arith)
        requires
            0 < num < den,
            up(24) == 0x100_0000,
            HIGH == 0x100_0000,
    ;
    lemma_exponent_upto(num, den, s, -24);
    assert(LOW * den <= num * up(60)) by (nonlinear_arith)
        requires
            1 <= num,
            0 < den <= 0xffff_ffff,
            up(60) == 0x1000_0000_0000_0000,
            LOW == 0x80_0000,
    ;
    lemma_exponent_from(num, den, s, -60);
}

/// The product of two numbers up to 1 is at most 1.
proof fn lemma_product_below_one(a: Single, b: Single, raw: Single)
    requires
        a.wf(),
        b.wf(),
        a.m > 0,
        b.m > 0,
        !below(one(), a),
        !below(one(), b),
        is_nearest(a.m * b.m, 1, raw),
    ensures
        raw.e + a.e + b.e < -23 || (raw.e + a.e + b.e == -23 && raw.m == LOW),
{
    let t = a.m * b.m;
    vstd::arithmetic::power2::lemma2_to64();
    assert(t * up(-24) == t && t * up(-23) == t) by (nonlinear_arith)
        requires
            up(-24) == 1,
            up(-23) == 1,
    ;
    assert(0x80_0000 * 0x80_0000 <= t < 0x100_0000 * 0x100_0000) by (nonlinear_arith)
        requires
            t == a.m * b.m,
            0x80_0000 <= a.m < 0x100_0000,
            0x80_0000 <= b.m < 0x100_0000,
    ;
    if a.e == -23 && b.e == -23 {
        assert(a.m == LOW && b.m == LOW);
        assert(in_binade(t, 1, 23));
        assert(round_even(t * up(-23), 1 * up(23)) == LOW);
        let s = Single { m: LOW, e: 23 };
        assert(is_nearest(t, 1, s));
        law_nearest_unique(t, 1, s);
        law_nearest_unique(t, 1, raw);
    } else if a.e == -23 || b.e == -23 {
        assert(t < 0x80_0000 * 0x100_0000) by (nonlinear_arith)
            requires
                t == a.m * b.m,
                a.m < 0x100_0000,
                b.m < 0x100_0000,
                a.m == 0x80_0000 || b.m == 0x80_0000,
        ;
        lemma_exponent_upto(t, 1, raw, 23);
    } else {
        lemma_exponent_upto(t, 1, raw, 24);
    }
}

/// What a share leaves of the whole: the number nearest to `1 - s`.
pub open spec fn rest(s: Single) -> Single {
    if s.m == 0 {
        one()
    } else {
        shifted(nearest(LOW * up(-23 - s.e) - s.m, 1), s.e as int)
    }
}

impl Single {
    /// The number 1.
    pub fn unit() -> (s: Single)
        ensures
            s == one(),
            s.wf(),
            is_share(s),
    {
        Single { m: LOW, e: -23 }
    }

    /// What a share leaves of the whole.
    pub fn complement(self) -> (s: Single)
        requires
            is_share(self),
        ensures
            s == rest(self),
            is_share(s),
            s.m > 0 ==> -60 <= s.e,
    {
        if self.m == 0 {
            return Single::unit();
        }
        let gap: u32 = (-23 - self.e) as u32;
        let p: u128 = wide_power(gap);
        let ghost g = gap as int;
        proof {
            lemma_up_step(g);
            if g == 0 {
                assert(LOW * 1 == LOW);
            } else {
                lemma_up_add(g - 1, 1);
                vstd::arithmetic::power2::lemma2_to64();
                assert(up(g) == up(g - 1) * 2);
                lemma_up_step(g - 1);
                assert(LOW * up(g) >= HIGH);
            }
            assert(LOW * up(g) <= LOW * up(75)) by {
                if g < 75 {
                    vstd::arithmetic::power2::lemma_pow2_strictly_increases(g as nat, 75);
                    lemma_up_step(75);
                }
            }
            lemma_up_add(64, 11);
            vstd::arithmetic::power2::lemma2_to64();
            assert(up(75) == 0x10000000000000000int * 0x800int);
        }
        let num: u128 = 0x80_0000 * p - self.m as u128;
        let raw = wide_ratio(num, 1);
        proof {
            if num > 0 {
                lemma_complement_exponent(self, num as int, raw);
            }
        }
        raw.shift(self.e)
    }
}

/// `1 - s` is at least `2^-24` unless it is zero, and never more than 1.
proof fn lemma_complement_exponent(s: Single, num: int, raw: Single)
    requires
        is_share(s),
        s.m > 0,
        num == LOW * up(-23 - s.e) - s.m,
        num > 0,
        is_nearest(num, 1, raw),
    ensures
        -60 <= raw.e + s.e,
        raw.e + s.e < -23 || (raw.e + s.e == -23 && raw.m == LOW),
{
    let g = -23 - s.e;
    lemma_up_step(g);
    if g == 0 {
        assert(s.m >= LOW);
    } else if g == 1 {
        vstd::arithmetic::power2::lemma2_to64();
        assert(num == HIGH - s.m);
        assert(up(23) == LOW);
        assert(num * up(23) >= LOW) by (nonlinear_arith)
            requires
                num >= 1,
                up(23) == LOW,
        ;
        lemma_exponent_from(num, 1, raw, -23);
        assert(num * up(-0) == num) by (nonlinear_arith)
            requires
                up(-0) == 1,
        ;
        lemma_exponent_upto(num, 1, raw, 0);
    } else {
        lemma_up_add(g - 2, 2);
        vstd::arithmetic::power2::lemma2_to64();
        let t = up(g - 2);
        assert(up(g) == t * 4);
        lemma_up_step(g - 2);
        assert(num >= LOW * t);
        assert(num * up(-(g - 2)) == num) by (nonlinear_arith)
            requires
                up(-(g - 2)) == 1,
        ;
        lemma_exponent_from(num, 1, raw, g - 2);
        lemma_up_step(g - 1);
        assert(num < HIGH * (1 * up(g - 1)));
        assert(num * up(-(g - 1)) == num) by (nonlinear_arith)
            requires
                up(-(g - 1)) == 1,
        ;
        lemma_exponent_upto(num, 1, raw, g - 1);
    }
}

/// `2^k`.
fn wide_power(k: u32) -> (p: u128)
    requires
        k <= 75,
    ensures
        p == up(k as int),
        p >= 1,
{
    let mut p: u128 = 1;
    let mut i: u32 = 0;
    while i < k
        invariant
            i <= k,
            k <= 75,
            p == up(i as int),
            p >= 1,
        decreases k - i,
    {
        proof {
            lemma_up_step(i as int);
            lemma_up_add(64, 11);
            vstd::arithmetic::power2::lemma2_to64();
            assert(up(75) == 0x10000000000000000int * 0x800int);
            vstd::arithmetic::power2::lemma_pow2_strictly_increases(i as nat, 75);
        }
        p = p * 2;
        i += 1;
    }
    p
}

/// The share that a single-precision bit pattern stands for; patterns past 1 stand for none.
pub open spec fn share_of_bits(bits: u32) -> Option<Single> {
    if bits > 0x3F80_0000 {
        None
    } else if bits / 0x80_0000 < 52 {
        Some(Single { m: 0, e: 0 })
    } else {
        Some(Single { m: (LOW + bits % 0x80_0000) as u64, e: (bits / 0x80_0000 - 150) as i32 })
    }
}

/// Reads a share from its single-precision bit pattern: eight bits of exponent above 23 bits of
/// significand. Shares below `2^-75` count as nothing.
pub fn share_from_bits(bits: u32) -> (s: Option<Single>)
    ensures
        s == share_of_bits(bits),
        s matches Some(v) ==> is_share(v),
{
    if bits > 0x3F80_0000 {
        None
    } else if bits / 0x80_0000 < 52 {
        Some(Single { m: 0, e: 0 })
    } else {
        let m: u64 = LOW + (bits % 0x80_0000) as u64;
        let e: i32 = (bits / 0x80_0000) as i32 - 150;
        Some(Single { m, e })
    }
}

/// Zero.
pub open spec fn nought() -> Single {
    Single { m: 0, e: 0 }
}

/// The ratios 2/1000 and 998/1000 have nearest numbers.
pub proof fn lemma_thousandths(num: int, den: int)
    requires
        num == 2 || num == 998,
        den == 1000,
    ensures
        is_nearest(num, den, nearest(num, den)),
        nearest(num, den).wf(),
        nearest(num, den).m > 0,
{
    vstd::arithmetic::power2::lemma2_to64();
    if num == 2 {
        assert(2 * up(32) == 2 * 0x1_0000_0000);
        assert(in_binade(2, 1000, -32));
        let q = round_even(2 * up(32), 1000 * up(-32));
        lemma_round_even_range(2 * up(32), 1000 * up(-32));
        let s = if q == HIGH {
            Single { m: LOW, e: -31i32 }
        } else {
            Single { m: q as u64, e: -32i32 }
        };
        assert(is_rounded_at(q, -32, s));
        assert(is_nearest(2, 1000, s));
        law_nearest_unique(2, 1000, s);
    } else {
        assert(998 * up(24) == 998 * 0x100_0000);
        assert(in_binade(998, 1000, -24));
        let q = round_even(998 * up(24), 1000 * up(-24));
        lemma_round_even_range(998 * up(24), 1000 * up(-24));
        let s = if q == HIGH {
            Single { m: LOW, e: -23i32 }
        } else {
            Single { m: q as u64, e: -24i32 }
        };
        assert(is_rounded_at(q, -24, s));
        assert(is_nearest(998, 1000, s));
        law_nearest_unique(998, 1000, s);
    }
}

/// Zero times anything is zero, and 1 times 1 is 1; what 1 leaves of the whole is nothing.
pub proof fn lemma_units(k: Single)
    ensures
        product(k, nought()) == nought(),
        product(nought(), k) == nought(),
        product(one(), one()) == one(),
        rest(one()) == nought(),
        rest(nought()) == one(),
{
    vstd::arithmetic::power2::lemma2_to64();
    assert(k.m * 0 == 0 && 0 * k.m == 0) by (nonlinear_arith);
    assert(is_nearest(0, 1, nought()));
    law_nearest_unique(0, 1, nought());
    let t = LOW * LOW;
    let s = Single { m: LOW, e: 23 };
    assert(t * up(-23) == t) by (nonlinear_arith)
        requires
            up(-23) == 1,
    ;
    assert(in_binade(t, 1, 23));
    assert(round_even(t * up(-23), 1 * up(23)) == LOW);
    assert(is_nearest(t, 1, s));
    law_nearest_unique(t, 1, s);
}

proof fn lemma_round_even_grows(a: int, b: int, d: int)
    requires
        0 <= a <= b,
        d > 0,
    ensures
        round_even(a, d) <= round_even(b, d),
{
    vstd::arithmetic::div_mod::lemma_div_is_ordered(a, b, d);
    vstd::arithmetic::div_mod::lemma_fundamental_div_mod(a, d);
    vstd::arithmetic::div_mod::lemma_fundamental_div_mod(b, d);
}

/// Of two ratios with one denominator, the larger has no smaller nearest number.
pub proof fn law_ratio_grows(a: int, b: int, d: int, s: Single, t: Single)
    requires
        0 < a <= b,
        d > 0,
        s.wf(),
        t.wf(),
        is_nearest(a, d, s),
        is_nearest(b, d, t),
    ensures
        !below(t, s),
{
    let i = choose|e: int| #[trigger]
        in_binade(a, d, e) && is_rounded_at(round_even(a * up(-e), d * up(e)), e, s);
    let j = choose|e: int| #[trigger]
        in_binade(b, d, e) && is_rounded_at(round_even(b * up(-e), d * up(e)), e, t);
    lemma_up_pos(i);
    lemma_up_pos(-i);
    assert(a * up(-i) <= b * up(-i)) by (nonlinear_arith)
        requires
            a <= b,
            up(-i) >= 1,
    ;
    assert(a * up(-i) >= 0) by (nonlinear_arith)
        requires
            a > 0,
            up(-i) >= 1,
    ;
    if j < i {
        lemma_binade_apart(b, d, j, i);
    } else if i == j {
        lemma_round_even_grows(a * up(-i), b * up(-i), d * up(i));
        lemma_round_even_range(a * up(-i), d * up(i));
        lemma_round_even_range(b * up(-i), d * up(i));
    } else {
        lemma_up_pos(j);
        lemma_up_pos(-j);
        lemma_round_even_range(a * up(-i), d * up(i));
        lemma_round_even_range(b * up(-j), d * up(j));
    }
}

/// Of two integers the larger one has no smaller nearest number.
pub proof fn law_nearest_grows(a: int, b: int, s: Single, t: Single)
    requires
        0 < a <= b,
        s.wf(),
        t.wf(),
        is_nearest(a, 1, s),
        is_nearest(b, 1, t),
    ensures
        !below(t, s),
{
    law_ratio_grows(a, b, 1, s, t);
}

/// Powers of two are positive.
pub proof fn lemma_up_pos(k: int)
    ensures
        up(k) >= 1,
{
    if k > 0 {
        lemma_up_step(k);
    }
}

/// A number below `2^23` is exact.
pub proof fn lemma_small_exact(n: int, s: Single)
    requires
        0 < n < LOW,
        is_nearest(n, 1, s),
    ensures
        s.e <= 0,
        s.m == n * up(-s.e),
{
    let i = choose|e: int| #[trigger]
        in_binade(n, 1, e) && is_rounded_at(round_even(n * up(-e), 1 * up(e)), e, s);
    if i >= 0 {
        lemma_up_step(i);
        assert(LOW * (1 * up(i)) >= LOW) by (nonlinear_arith)
            requires
                up(i) >= 1,
        ;
        assert(n * 1 == n);
    } else {
        let x = n * up(-i);
        assert(x / 1 == x && x % 1 == 0);
    }
}

/// A multiple of a power of two whose significand fits is exact.
pub proof fn lemma_shifted_exact(m: int, k: int)
    requires
        LOW <= m < HIGH,
        0 <= k <= 100,
    ensures
        nearest(m * up(k), 1) == (Single { m: m as u64, e: k as i32 }),
        is_nearest(m * up(k), 1, nearest(m * up(k), 1)),
{
    lemma_up_step(k);
    let p = up(k);
    let n = m * p;
    assert(LOW * p <= n < HIGH * p) by (nonlinear_arith)
        requires
            n == m * p,
            LOW <= m < HIGH,
            p >= 1,
    ;
    assert(n * up(-k) == n && 1 * p == p) by (nonlinear_arith)
        requires
            up(-k) == 1,
    ;
    assert(in_binade(n, 1, k));
    lemma_divides(n, p, m, 0);
    let s = Single { m: m as u64, e: k as i32 };
    assert(is_rounded_at(round_even(n * up(-k), 1 * up(k)), k, s));
    assert(is_nearest(n, 1, s));
    assert(n >= 0) by (nonlinear_arith)
        requires
            n == m * p,
            m >= 0,
            p >= 1,
    ;
    law_nearest_unique(n, 1, s);
}

/// A number times 1 is itself.
pub proof fn law_times_one(a: Single)
    requires
        a.wf(),
        -500000000 <= a.e <= 500000000,
    ensures
        product(a, one()) == a,
{
    vstd::arithmetic::power2::lemma2_to64();
    if a.m == 0 {
        lemma_units(one());
    } else {
        assert(up(23) == LOW);
        lemma_shifted_exact(a.m as int, 23);
    }
}

/// A number times one that is no larger than 1 does not grow.
pub proof fn law_times_share_shrinks(a: Single, k: Single, p: Single)
    requires
        a.wf(),
        k.wf(),
        p.wf(),
        -500000000 <= a.e <= 500000000,
        -500000000 <= k.e <= 500000000,
        !below(one(), k),
        p == product(a, k),
        a.m > 0 && k.m > 0 ==> is_nearest(a.m * k.m, 1, nearest(a.m * k.m, 1)) && nearest(
            a.m * k.m,
            1,
        ).wf() && -100 <= nearest(a.m * k.m, 1).e <= 100,
    ensures
        !below(a, p),
{
    if a.m == 0 || k.m == 0 {
        lemma_units(a);
        lemma_units(k);
        assert(a.m * k.m == 0) by (nonlinear_arith)
            requires
                a.m == 0 || k.m == 0,
        ;
        assert(is_nearest(0, 1, nought()));
        law_nearest_unique(0, 1, nought());
    } else if k == one() {
        law_times_one(a);
    } else {
        vstd::arithmetic::power2::lemma2_to64();
        let raw = nearest(a.m * k.m, 1);
        let n = a.m * up(24);
        lemma_shifted_exact(a.m as int, 24);
        let top = Single { m: a.m, e: 24 };
        assert(0 < a.m * k.m <= n) by (nonlinear_arith)
            requires
                0 < a.m,
                0 < k.m <= 0x100_0000,
                n == a.m * up(24),
                up(24) == 0x100_0000,
        ;
        assert(n * up(-24) == n) by (nonlinear_arith)
            requires
                up(-24) == 1,
        ;
        lemma_divides(n, up(24), a.m as int, 0);
        assert(in_binade(n, 1, 24));
        assert(is_rounded_at(round_even(n * up(-24), 1 * up(24)), 24, top));
        assert(is_nearest(n, 1, top));
        law_nearest_grows(a.m * k.m, n, raw, top);
    }
}

/// Rounding a number that is no larger than a small integer gives no more than that integer.
pub proof fn law_round_within(p: Single, n: int, b: Single)
    requires
        p.wf(),
        b.wf(),
        0 < n < LOW,
        is_nearest(n, 1, b),
        !below(b, p),
    ensures
        round(p) <= n,
        round(b) == n,
{
    lemma_small_exact(n, b);
    lemma_round_exact(n, b);
    if p.m > 0 {
        assert(p.e <= b.e);
        law_below_is_order(b, p, p.e as int);
        lemma_up_add(-b.e, b.e - p.e);
        lemma_up_pos(-p.e);
        let x = up(-p.e);
        assert(n * up(-b.e) * up(b.e - p.e) == n * x) by (nonlinear_arith)
            requires
                x == up(-b.e) * up(b.e - p.e),
        ;
        assert(p.m * up(0) == p.m) by (nonlinear_arith)
            requires
                up(0) == 1,
        ;
        assert(p.m <= n * x);
        if p.e >= 0 {
            assert(p.m >= LOW);
            assert(n * x == n) by (nonlinear_arith)
                requires
                    x == 1,
            ;
        } else {
            assert((2 * p.m + x) / (2 * x) <= n) by (nonlinear_arith)
                requires
                    p.m <= n * x,
                    x >= 1,
            ;
        }
    } else {
        lemma_up_pos(-p.e);
        assert(up(0) == 1);
    }
}

proof fn lemma_round_exact(n: int, b: Single)
    requires
        0 < n < LOW,
        b.e <= 0,
        b.m == n * up(-b.e),
    ensures
        round(b) == n,
{
    let x = up(-b.e);
    lemma_up_pos(-b.e);
    if b.e < 0 {
        assert((2 * (n * x) + x) / (2 * x) == n) by (nonlinear_arith)
            requires
                x >= 1,
                n > 0,
        ;
    } else {
        assert(n * x == n) by (nonlinear_arith)
            requires
                x == 1,
        ;
    }
}

/// Numbers below `2^23` have nearest numbers.
pub proof fn lemma_small_nearest(n: int)
    requires
        0 < n < LOW,
    ensures
        is_nearest(n, 1, nearest(n, 1)),
        nearest(n, 1).wf(),
        nearest(n, 1).m > 0,
        -23 <= nearest(n, 1).e <= 0,
{
    assert(n * up(0) == n) by (nonlinear_arith)
        requires
            up(0) == 1,
    ;
    let k = lemma_shift_into_range(n, 0);
    let x = n * up(k);
    lemma_up_step(k);
    let s = Single { m: x as u64, e: -k as i32 };
    assert(1 * up(-k) == 1);
    assert(x / 1 == x && x % 1 == 0);
    assert(in_binade(n, 1, -k));
    assert(is_rounded_at(round_even(n * up(k), 1 * up(-k)), -k, s));
    assert(is_nearest(n, 1, s));
    law_nearest_unique(n, 1, s);
}

/// A small number times some power of two has 24 bits.
proof fn lemma_shift_into_range(n: int, k: int) -> (r: int)
    requires
        0 < n < LOW,
        0 <= k <= 23,
        n * up(k) < HIGH,
    ensures
        0 <= r <= 23,
        LOW <= n * up(r) < HIGH,
    decreases 24 - k,
{
    if n * up(k) >= LOW {
        k
    } else {
        vstd::arithmetic::power2::lemma2_to64();
        lemma_up_step(k);
        assert(n * up(k + 1) == 2 * (n * up(k))) by (nonlinear_arith)
            requires
                up(k + 1) == 2 * up(k),
        ;
        if k == 23 {
            assert(n * up(23) >= LOW) by (nonlinear_arith)
                requires
                    n >= 1,
                    up(23) == 0x80_0000,
                    LOW == 0x80_0000,
            ;
        }
        lemma_shift_into_range(n, k + 1)
    }
}

/// A significand over a larger one has a nearest number, below 1.
pub proof fn lemma_fraction_nearest(a: int, b: int)
    requires
        LOW <= a < b < HIGH,
    ensures
        is_nearest(a, b, nearest(a, b)),
        nearest(a, b).wf(),
        nearest(a, b).m > 0,
        -24 <= nearest(a, b).e <= -23,
        !below(one(), nearest(a, b)),
{
    vstd::arithmetic::power2::lemma2_to64();
    assert(b * up(-24) == b) by (nonlinear_arith)
        requires
            up(-24) == 1,
    ;
    assert(LOW * b <= a * up(24) && a * up(24) < HIGH * b) by (nonlinear_arith)
        requires
            0x80_0000 <= a < b < 0x100_0000,
            up(24) == 0x100_0000,
            LOW == 0x80_0000,
            HIGH == 0x100_0000,
    ;
    assert(in_binade(a, b, -24));
    lemma_round_even_range(a * up(24), b);
    let q = round_even(a * up(24), b * up(-24));
    let s = if q == HIGH {
        Single { m: LOW, e: -23i32 }
    } else {
        Single { m: q as u64, e: -24i32 }
    };
    assert(is_rounded_at(q, -24, s));
    assert(is_nearest(a, b, s));
    law_nearest_unique(a, b, s);
}

/// A significand over itself is 1.
pub proof fn lemma_equal_ratio(a: int)
    requires
        LOW <= a < HIGH,
    ensures
        nearest(a, a) == one(),
{
    vstd::arithmetic::power2::lemma2_to64();
    assert(a * up(-23) == a) by (nonlinear_arith)
        requires
            up(-23) == 1,
    ;
    assert(a * up(23) == LOW * a) by (nonlinear_arith)
        requires
            up(23) == 0x80_0000,
            LOW == 0x80_0000,
    ;
    assert(in_binade(a, a, -23));
    lemma_divides(a * up(23), a, LOW as int, 0);
    assert(is_rounded_at(round_even(a * up(23), a * up(-23)), -23, one()));
    assert(is_nearest(a, a, one()));
    law_nearest_unique(a, a, one());
}

/// The product of two significands has a nearest number.
pub proof fn lemma_product_nearest(a: Single, b: Single)
    requires
        a.wf(),
        b.wf(),
        a.m > 0,
        b.m > 0,
        -500000000 <= a.e <= 500000000,
        -500000000 <= b.e <= 500000000,
    ensures
        is_nearest(a.m * b.m, 1, nearest(a.m * b.m, 1)),
        nearest(a.m * b.m, 1).wf(),
        nearest(a.m * b.m, 1).m > 0,
        23 <= nearest(a.m * b.m, 1).e <= 25,
        product(a, b).wf(),
{
    vstd::arithmetic::power2::lemma2_to64();
    let n = a.m * b.m;
    assert(0x80_0000 * 0x80_0000 <= n < 0x100_0000 * 0x100_0000) by (nonlinear_arith)
        requires
            n == a.m * b.m,
            0x80_0000 <= a.m < 0x100_0000,
            0x80_0000 <= b.m < 0x100_0000,
    ;
    let e: int = if n < 0x80_0000 * 0x100_0000 {
        23
    } else {
        24
    };
    assert(n * up(-e) == n) by (nonlinear_arith)
        requires
            up(-e) == 1,
    ;
    assert(in_binade(n, 1, e));
    lemma_round_even_range(n, 1 * up(e));
    let q = round_even(n * up(-e), 1 * up(e));
    let s = if q == HIGH {
        Single { m: LOW, e: (e + 1) as i32 }
    } else {
        Single { m: q as u64, e: e as i32 }
    };
    assert(is_rounded_at(q, e, s));
    assert(is_nearest(n, 1, s));
    law_nearest_unique(n, 1, s);
}

/// `q` is the integer nearest to the square root of `n`.
pub open spec fn is_root(n: int, q: int) -> bool {
    q * q - q < n <= q * q + q
}

/// The integer whose root is taken: the significand with 47 or 48 bits, whichever leaves an even
/// exponent.
pub open spec fn radicand(s: Single) -> int {
    if (s.e + 1) % 2 == 0 {
        s.m * up(23)
    } else {
        s.m * up(24)
    }
}

/// The exponent that goes with [`radicand`], halved.
pub open spec fn root_exponent(s: Single) -> int {
    if (s.e + 1) % 2 == 0 {
        (s.e - 23) / 2
    } else {
        (s.e - 24) / 2
    }
}

/// `r` is the number nearest to the square root of `s`.
pub open spec fn is_root_of(s: Single, r: Single) -> bool {
    if s.m == 0 {
        r == nought()
    } else {
        exists|q: int| #[trigger] is_root(radicand(s), q) && q > 0 && is_rounded_at(
            q,
            root_exponent(s),
            r,
        )
    }
}

/// The number nearest to the square root of `s`.
pub open spec fn root(s: Single) -> Single {
    choose|r: Single| is_root_of(s, r)
}

/// No number has two roots.
pub proof fn law_root_unique(s: Single, r: Single)
    requires
        is_root_of(s, r),
    ensures
        r == root(s),
{
    let t = root(s);
    assert(is_root_of(s, t));
    if s.m > 0 {
        let n = radicand(s);
        let a = choose|q: int| #[trigger] is_root(n, q) && q > 0 && is_rounded_at(
            q,
            root_exponent(s),
            r,
        );
        let b = choose|q: int| #[trigger] is_root(n, q) && q > 0 && is_rounded_at(
            q,
            root_exponent(s),
            t,
        );
        assert(a == b) by (nonlinear_arith)
            requires
                a > 0,
                b > 0,
                a * a - a < n <= a * a + a,
                b * b - b < n <= b * b + b,
        ;
    }
}

/// The integer part of the square root.
fn whole_root(n: u64) -> (q: u64)
    requires
        n < 0x1_0000_0000_0000,
    ensures
        q * q <= n < (q + 1) * (q + 1),
        q < 0x100_0000,
{
    let mut lo: u64 = 0;
    let mut hi: u64 = 0x100_0000;
    while lo + 1 < hi
        invariant
            lo < hi <= 0x100_0000,
            n < 0x1_0000_0000_0000,
            lo * lo <= n < hi * hi,
        decreases hi - lo,
    {
        let mid: u64 = (lo + hi) / 2;
        assert(mid * mid <= 0x1_0000_0000_0000) by (nonlinear_arith)
            requires
                mid <= 0x100_0000,
        ;
        if mid * mid <= n {
            lo = mid;
        } else {
            hi = mid;
        }
    }
    lo
}

impl Single {
    /// The square root.
    pub fn sqrt(self) -> (r: Single)
        requires
            self.wf(),
            -500000000 <= self.e <= 500000000,
        ensures
            r.wf(),
            r == root(self),
            is_root_of(self, r),
            self.m == 0 <==> r.m == 0,
            self.m > 0 ==> root_exponent(self) <= r.e <= root_exponent(self) + 1,
    {
        if self.m == 0 {
            let r = Single { m: 0, e: 0 };
            proof {
                law_root_unique(self, r);
            }
            return r;
        }
        proof {
            vstd::arithmetic::power2::lemma2_to64();
            assert(up(23) == 0x80_0000 && up(24) == 0x100_0000);
        }
        let odd = (self.e + 500_000_001) % 2 == 0;
        let n: u64 = if odd {
            self.m * 0x80_0000
        } else {
            self.m * 0x100_0000
        };
        let e: i32 = if odd {
            (self.e + 500_000_001) / 2 - 250_000_012
        } else {
            (self.e + 500_000_000) / 2 - 250_000_012
        };
        assert(0x80_0000 * 0x80_0000 <= n < 0x100_0000 * 0x100_0000);
        assert(n == radicand(self));
        assert(e == root_exponent(self));
        let q: u64 = whole_root(n);
        assert(q >= 0x80_0000) by (nonlinear_arith)
            requires
                n < (q + 1) * (q + 1),
                n >= 0x80_0000 * 0x80_0000,
        ;
        assert(q * q + q < 0x1_0000_0000_0000) by (nonlinear_arith)
            requires
                q < 0x100_0000,
        ;
        let k: u64 = if n <= q * q + q {
            q
        } else {
            q + 1
        };
        proof {
            if k == q {
                assert(is_root(n as int, k as int)) by (nonlinear_arith)
                    requires
                        k == q,
                        q >= 0x80_0000,
                        q * q <= n <= q * q + q,
                ;
            } else {
                assert(is_root(n as int, k as int)) by (nonlinear_arith)
                    requires
                        k == q + 1,
                        n > q * q + q,
                        n < (q + 1) * (q + 1),
                ;
            }
        }
        let r = if k == HIGH {
            Single { m: LOW, e: e + 1 }
        } else {
            Single { m: k, e }
        };
        proof {
            assert(is_rounded_at(k as int, e as int, r));
            assert(is_root_of(self, r));
            law_root_unique(self, r);
        }
        r
    }
}

/// A number over one that is no smaller is at most 1.
pub proof fn law_quotient_within_one(a: Single, b: Single, q: Single)
    requires
        a.wf(),
        b.wf(),
        b.m > 0,
        !below(b, a),
        q == quotient(a, b),
        a.m > 0 ==> is_nearest(a.m as int, b.m as int, nearest(a.m as int, b.m as int)) && -100
            <= nearest(a.m as int, b.m as int).e <= 100,
        -500000000 <= a.e <= 500000000,
        -500000000 <= b.e <= 500000000,
    ensures
        !below(one(), q),
{
    if a.m == 0 {
        assert(is_nearest(0, b.m as int, nought()));
        law_nearest_unique(0, b.m as int, nought());
    } else if a.e == b.e {
        if a.m == b.m {
            lemma_equal_ratio(a.m as int);
        } else {
            lemma_fraction_nearest(a.m as int, b.m as int);
        }
    } else {
        vstd::arithmetic::power2::lemma2_to64();
        let r = nearest(a.m as int, b.m as int);
        assert(b.m * up(-23) == b.m) by (nonlinear_arith)
            requires
                up(-23) == 1,
        ;
        assert(a.m * up(23) < HIGH * b.m) by (nonlinear_arith)
            requires
                a.m < 0x100_0000,
                b.m >= 0x80_0000,
                up(23) == 0x80_0000,
                HIGH == 0x100_0000,
        ;
        lemma_exponent_upto(a.m as int, b.m as int, r, -23);
    }
}

} // verus!
