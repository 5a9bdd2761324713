//! Double-precision arithmetic, carried out on integers. Running sums of maps are kept in it.

use vstd::prelude::*;

use crate::held::hold;
use crate::signed::Signed;
use crate::single::{length, Single};

verus! {

/// The number `m * 2^e`; `m` has exactly 53 bits and a sign unless the number is zero.
#[derive(Clone, Copy, PartialEq, Eq, Structural, Debug)]
pub struct Double {
    pub m: i64,
    pub e: i32,
}

/// Smallest significand.
pub const LEAST: i64 = 0x10_0000_0000_0000;

/// First number past the significands.
pub const PAST: i64 = 0x20_0000_0000_0000;

/// Largest exponent of the range.
pub const DOUBLE_TOP: i32 = 100_000;

/// The size of an integer.
pub open spec fn size(n: int) -> int {
    if n < 0 {
        -n
    } else {
        n
    }
}

impl Double {
    /// The significand has 53 bits, or the number is zero; the exponent lies in the range.
    pub open spec fn wf(self) -> bool {
        &&& LEAST <= size(self.m as int) < PAST || (self.m == 0 && self.e == 0)
        &&& -DOUBLE_TOP <= self.e <= DOUBLE_TOP
    }
}

/// How many bits a number has.
pub open spec fn bits(n: int) -> int
    decreases n,
{
    if n <= 0 {
        0
    } else {
        1 + bits(n / 2)
    }
}

/// `m * 2^e` as far as the range goes.
pub open spec fn kept(m: int, e: int) -> Double {
    if e < -DOUBLE_TOP {
        Double { m: 0, e: 0 }
    } else if e > DOUBLE_TOP {
        Double {
            m: if m < 0 {
                (-LEAST) as i64
            } else {
                LEAST
            },
            e: DOUBLE_TOP,
        }
    } else {
        Double { m: m as i64, e: e as i32 }
    }
}

/// `n * 2^e` with a significand of 53 bits, rounded to the nearest, ties going to the even one; `n` is
/// not negative.
pub open spec fn rounded(n: int, e: int) -> (int, int) {
    let k = bits(n) - 53;
    if k <= 0 {
        (n * crate::single::up(-k), e + k)
    } else {
        let q = crate::single::round_even(n, crate::single::up(k));
        if q == PAST {
            (LEAST as int, e + k + 1)
        } else {
            (q, e + k)
        }
    }
}

/// The number nearest to `n * 2^e`.
#[verifier::opaque]
pub open spec fn nearest(n: int, e: int) -> Double {
    if n == 0 {
        Double { m: 0, e: 0 }
    } else {
        let r = rounded(size(n), e);
        kept(
            if n < 0 {
                -r.0
            } else {
                r.0
            },
            r.1,
        )
    }
}

/// A number with `b` bits lies from `2^(b-1)` to `2^b`.
pub proof fn lemma_bits(n: int)
    requires
        n > 0,
    ensures
        bits(n) >= 1,
        crate::single::up(bits(n) - 1) <= n < crate::single::up(bits(n)),
    decreases n,
{
    vstd::arithmetic::power2::lemma2_to64();
    let b = bits(n);
    if n / 2 > 0 {
        lemma_bits(n / 2);
        vstd::arithmetic::power2::lemma_pow2_unfold(b as nat);
        vstd::arithmetic::power2::lemma_pow2_unfold((b - 1) as nat);
    } else {
        assert(n == 1);
        assert(bits(0) == 0);
        assert(bits(1) == 1 + bits(1int / 2));
    }
}

/// Without its last `k` bits a number is `k` bits shorter.
proof fn lemma_shorter(n: int, k: nat)
    requires
        n >= vstd::arithmetic::power2::pow2(k),
    ensures
        bits(n) == k + bits(n / vstd::arithmetic::power2::pow2(k) as int),
    decreases k,
{
    vstd::arithmetic::power2::lemma2_to64();
    vstd::arithmetic::power2::lemma_pow2_pos(k);
    if k == 0 {
        assert(n / 1 == n);
    } else {
        let j = (k - 1) as nat;
        vstd::arithmetic::power2::lemma_pow2_unfold(k);
        vstd::arithmetic::power2::lemma_pow2_pos(j);
        let p = vstd::arithmetic::power2::pow2(j) as int;
        lemma_shorter(n / 2, j);
        vstd::arithmetic::div_mod::lemma_div_denominator(n, 2, p);
    }
}

/// A number from `2^(b-1)` to before `2^b` has `b` bits.
proof fn lemma_has_bits(n: int, b: int)
    requires
        n > 0,
        b >= 1,
        crate::single::up(b - 1) <= n < crate::single::up(b),
    ensures
        bits(n) == b,
{
    lemma_bits(n);
    let k = bits(n);
    if k < b {
        if k < b - 1 {
            vstd::arithmetic::power2::lemma_pow2_strictly_increases(k as nat, (b - 1) as nat);
        }
    } else if k > b {
        if b < k - 1 {
            vstd::arithmetic::power2::lemma_pow2_strictly_increases(b as nat, (k - 1) as nat);
        }
    }
}

/// How many bits a number has (see [`bits`]).
#[inline]
fn bits_of(n: u128) -> (b: u32)
    ensures
        b == bits(n as int),
        b <= 128,
{
    if n == 0 {
        return 0;
    }
    proof {
        vstd::arithmetic::power2::lemma2_to64();
    }
    if n >= 0x1_0000_0000_0000_0000 {
        proof {
            lemma_shorter(n as int, 64);
        }
        let high: u64 = (n / 0x1_0000_0000_0000_0000) as u64;
        let b: u32 = length(high);
        proof {
            lemma_has_bits(high as int, b as int);
        }
        64 + b
    } else {
        let b: u32 = length(n as u64);
        proof {
            lemma_has_bits(n as int, b as int);
        }
        b
    }
}

/// `2^k`.
#[inline]
fn power_of(k: u32) -> (p: u128)
    requires
        k < 128,
    ensures
        p == crate::single::up(k as int),
        p >= 1,
{
    proof {
        vstd::arithmetic::power2::lemma2_to64();
        vstd::arithmetic::power2::lemma2_to64_rest();
    }
    if k < 64 {
        power_in(k) as u128
    } else {
        proof {
            vstd::arithmetic::power2::lemma_pow2_adds((k - 64) as nat, 64);
        }
        power_in(k - 64) as u128 * 0x1_0000_0000_0000_0000
    }
}

/// `2^k` in 64 bits.
#[inline]
fn power_in(k: u32) -> (p: u64)
    requires
        k < 64,
    ensures
        p == vstd::arithmetic::power2::pow2(k as nat),
        p == crate::single::up(k as int),
        p >= 1,
{
    proof {
        vstd::arithmetic::power2::lemma2_to64();
        vstd::arithmetic::power2::lemma2_to64_rest();
        vstd::arithmetic::power2::lemma_pow2_pos(k as nat);
        if k < 63 {
            vstd::arithmetic::power2::lemma_pow2_strictly_increases(k as nat, 63);
        }
        vstd::bits::lemma_u64_shl_is_mul(1, k as u64);
    }
    1u64 << (k as u64)
}

#[inline]
fn keep(m: i64, e: i32) -> (r: Double)
    requires
        LEAST <= size(m as int) < PAST,
    ensures
        r == kept(m as int, e as int),
        r.wf(),
{
    if e < -DOUBLE_TOP {
        Double { m: 0, e: 0 }
    } else if e > DOUBLE_TOP {
        Double {
            m: if m < 0 {
                -LEAST
            } else {
                LEAST
            },
            e: DOUBLE_TOP,
        }
    } else {
        Double { m, e }
    }
}

/// A significand in single precision has 24 bits.
proof fn lemma_single_bits(m: int)
    requires
        crate::single::LOW <= m < crate::single::HIGH,
    ensures
        bits(m) == 24,
{
    vstd::arithmetic::power2::lemma2_to64();
    lemma_shorter(m, 23);
    assert(bits(1) == 1 + bits(1int / 2));
    assert(bits(0) == 0);
}

/// Short numbers gain bits: they are filled up to 53.
proof fn lemma_filled(n: int, b: int)
    requires
        n > 0,
        b == bits(n),
        b <= 53,
    ensures
        LEAST <= n * crate::single::up(53 - b) < PAST,
        crate::single::up(53 - b) <= LEAST,
        1 <= b,
{
    lemma_bits(n);
    vstd::arithmetic::power2::lemma2_to64();
    vstd::arithmetic::power2::lemma2_to64_rest();
    vstd::arithmetic::power2::lemma_pow2_adds((b - 1) as nat, (53 - b) as nat);
    vstd::arithmetic::power2::lemma_pow2_adds(b as nat, (53 - b) as nat);
    let p = crate::single::up(53 - b);
    assert(crate::single::up(b) * p == PAST);
    assert(crate::single::up(b - 1) * p == LEAST);
    assert(crate::single::up(b - 1) * p <= n * p < crate::single::up(b) * p) by (nonlinear_arith)
        requires
            crate::single::up(b - 1) <= n < crate::single::up(b),
            p >= 1,
    ;
    assert(p <= crate::single::up(b - 1) * p) by (nonlinear_arith)
        requires
            p >= 1,
            crate::single::up(b - 1) >= 1,
    ;
}

/// Long numbers lose bits: 53 are left, but for a carry.
proof fn lemma_cut(n: int, b: int)
    requires
        n > 0,
        b == bits(n),
        b > 53,
    ensures
        LEAST <= n / crate::single::up(b - 53) < PAST,
        crate::single::up(b - 53) >= 2,
        LEAST <= crate::single::round_even(n, crate::single::up(b - 53)) <= PAST,
{
    lemma_bits(n);
    vstd::arithmetic::power2::lemma2_to64();
    vstd::arithmetic::power2::lemma2_to64_rest();
    vstd::arithmetic::power2::lemma_pow2_adds(52, (b - 53) as nat);
    vstd::arithmetic::power2::lemma_pow2_adds(53, (b - 53) as nat);
    vstd::arithmetic::power2::lemma_pow2_unfold((b - 53) as nat);
    vstd::arithmetic::power2::lemma_pow2_pos((b - 54) as nat);
    let d = crate::single::up(b - 53);
    let q = n / d;
    vstd::arithmetic::div_mod::lemma_fundamental_div_mod(n, d);
    vstd::arithmetic::div_mod::lemma_mod_bound(n, d);
    assert(LEAST * d <= n < PAST * d);
    assert(LEAST <= q < PAST) by (nonlinear_arith)
        requires
            n == d * q + n % d,
            0 <= n % d < d,
            LEAST * d <= n < PAST * d,
            d > 0,
    ;
}

/// The number nearest to `n * 2^e`, where `n` is short (see [`nearest`]).
#[inline]
fn near_short(n: i64, e: i32) -> (r: Double)
    requires
        -0x4000_0000_0000_0000 < n < 0x4000_0000_0000_0000,
        -1_000_000_000 <= e <= 1_000_000_000,
    ensures
        r == nearest(n as int, e as int),
        r.wf(),
{
    reveal(nearest);
    if n == 0 {
        return Double { m: 0, e: 0 };
    }
    let neg: bool = n < 0;
    let s: u64 = if neg {
        (-n) as u64
    } else {
        n as u64
    };
    let b: u32 = length(s);
    proof {
        lemma_has_bits(s as int, b as int);
    }
    if b <= 53 {
        let p: u64 = power_in(53 - b);
        proof {
            lemma_filled(s as int, b as int);
        }
        let m: i64 = (s * p) as i64;
        let k: i32 = 53 - b as i32;
        keep(
            if neg {
                -m
            } else {
                m
            },
            e - k,
        )
    } else {
        proof {
            lemma_cut(s as int, b as int);
        }
        let k: u32 = b - 53;
        let p: u64 = power_in(k);
        proof {
            vstd::bits::lemma_u64_shr_is_div(s, k as u64);
            vstd::arithmetic::div_mod::lemma_fundamental_div_mod(s as int, p as int);
            vstd::arithmetic::div_mod::lemma_mod_bound(s as int, p as int);
        }
        let q: u64 = s >> (k as u64);
        proof {
            assert(q == s as int / p as int);
            assert(q * p == p * q) by (nonlinear_arith);
        }
        let r: u64 = s - q * p;
        let half: u64 = p - r;
        let up: bool = !(r < half || (r == half && q % 2 == 0));
        let t: i64 = if up {
            (q + 1) as i64
        } else {
            q as i64
        };
        let (m, f): (i64, i32) = if t == PAST {
            (LEAST, e + k as i32 + 1)
        } else {
            (t, e + k as i32)
        };
        keep(
            if neg {
                -m
            } else {
                m
            },
            f,
        )
    }
}

/// The number nearest to `n * 2^e` (see [`nearest`]).
#[inline]
fn near(n: i128, e: i32) -> (r: Double)
    requires
        -0x4000_0000_0000_0000_0000_0000_0000_0000 < n < 0x4000_0000_0000_0000_0000_0000_0000_0000,
        -1_000_000_000 <= e <= 1_000_000_000,
    ensures
        r == nearest(n as int, e as int),
        r.wf(),
{
    reveal(nearest);
    if n == 0 {
        return Double { m: 0, e: 0 };
    }
    let neg: bool = n < 0;
    let s: u128 = if neg {
        (-n) as u128
    } else {
        n as u128
    };
    let b: u32 = bits_of(s);
    proof {
        lemma_bits(s as int);
    }
    if b <= 53 {
        let p: u128 = power_of(53 - b);
        proof {
            lemma_filled(s as int, b as int);
        }
        let m: i64 = (s * p) as i64;
        let k: i32 = 53 - b as i32;
        keep(
            if neg {
                -m
            } else {
                m
            },
            e - k,
        )
    } else {
        proof {
            lemma_cut(s as int, b as int);
        }
        let k: u32 = b - 53;
        assert(k < 128);
        let p: u128 = power_of(k);
        proof {
            vstd::bits::lemma_u128_shr_is_div(s, k as u128);
            vstd::arithmetic::div_mod::lemma_fundamental_div_mod(s as int, p as int);
            vstd::arithmetic::div_mod::lemma_mod_bound(s as int, p as int);
        }
        let q: u128 = s >> (k as u128);
        proof {
            assert(q == s as int / p as int);
            assert(q * p == p * q) by (nonlinear_arith);
        }
        let r: u128 = s - q * p;
        let half: u128 = p - r;
        let up: bool = !(r < half || (r == half && q % 2 == 0));
        let t: i64 = if up {
            (q + 1) as i64
        } else {
            q as i64
        };
        let (m, f): (i64, i32) = if t == PAST {
            (LEAST, e + k as i32 + 1)
        } else {
            (t, e + k as i32)
        };
        keep(
            if neg {
                -m
            } else {
                m
            },
            f,
        )
    }
}

/// `a + b`. A number that lies more than 64 binary places below the other leaves it as it is.
pub open spec fn sum(a: Double, b: Double) -> Double {
    if a.m == 0 {
        b
    } else if b.m == 0 {
        a
    } else if a.e - b.e > 64 {
        a
    } else if b.e - a.e > 64 {
        b
    } else if a.e <= b.e {
        nearest(a.m + b.m * crate::single::up(b.e - a.e), a.e as int)
    } else {
        nearest(a.m * crate::single::up(a.e - b.e) + b.m, b.e as int)
    }
}

/// `-a`.
pub open spec fn minus(a: Double) -> Double {
    Double { m: (-a.m) as i64, e: a.e }
}

/// `a * b`.
pub open spec fn product(a: Double, b: Double) -> Double {
    nearest(a.m * b.m, a.e + b.e)
}

/// `a / b` for a positive `b`: the quotient to 60 binary places, with one more bit that says whether
/// anything is left over.
pub open spec fn quotient(a: Double, b: Double) -> Double {
    if b.m <= 0 {
        Double { m: 0, e: 0 }
    } else {
        let n = size(a.m as int) * 0x1000_0000_0000_0000;
        let q = 2 * (n / b.m as int) + if n % b.m as int == 0 {
            0int
        } else {
            1int
        };
        nearest(
            if a.m < 0 {
                -q
            } else {
                q
            },
            a.e - b.e - 61,
        )
    }
}

/// An integer as a number.
pub open spec fn of_int(n: int) -> Double {
    nearest(n, 0)
}

/// A number in single precision as one in double precision.
pub open spec fn of_single(s: Signed) -> Double {
    nearest(
        if s.neg {
            -(s.size.m as int)
        } else {
            s.size.m as int
        },
        s.size.e as int,
    )
}

/// The number in single precision.
pub open spec fn to_single(a: Double) -> Signed {
    crate::held::held(
        Signed {
            neg: a.m < 0,
            size: crate::single::shifted(crate::single::nearest(size(a.m as int), 1), a.e as int),
        },
    )
}

impl Double {
    /// The sum of two numbers (see [`sum`]).
    #[inline]
    pub fn plus(self, other: Double) -> (r: Double)
        requires
            self.wf(),
            other.wf(),
        ensures
            r == sum(self, other),
            r.wf(),
    {
        if self.m == 0 {
            return other;
        }
        if other.m == 0 {
            return self;
        }
        let gap: i32 = self.e - other.e;
        if gap > 64 {
            return self;
        }
        if gap < -64 {
            return other;
        }
        if -8 <= gap && gap <= 8 {
            return self.plus_near(other);
        }
        if gap <= 0 {
            let p: u128 = power_of((-gap) as u32);
            proof {
                lemma_gap(-gap);
                lemma_scaled(other.m as int, p as int);
            }
            near(self.m as i128 + other.m as i128 * p as i128, self.e)
        } else {
            let p: u128 = power_of(gap as u32);
            proof {
                lemma_gap(gap as int);
                lemma_scaled(self.m as int, p as int);
            }
            near(self.m as i128 * p as i128 + other.m as i128, other.e)
        }
    }

    /// The sum of two numbers whose exponents lie close together.
    #[inline]
    fn plus_near(self, other: Double) -> (r: Double)
        requires
            self.wf(),
            other.wf(),
            self.m != 0,
            other.m != 0,
            -8 <= self.e - other.e <= 8,
        ensures
            r == sum(self, other),
            r.wf(),
    {
        let gap: i32 = self.e - other.e;
        if gap <= 0 {
            let u: u64 = power_in((-gap) as u32);
            proof {
                lemma_small_gap(-gap);
            }
            let p: i64 = u as i64;
            proof {
                lemma_scaled_short(other.m as int, p as int);
            }
            near_short(self.m + other.m * p, self.e)
        } else {
            let u: u64 = power_in(gap as u32);
            proof {
                lemma_small_gap(gap as int);
            }
            let p: i64 = u as i64;
            proof {
                lemma_scaled_short(self.m as int, p as int);
            }
            near_short(self.m * p + other.m, other.e)
        }
    }

    /// The difference of two numbers.
    #[inline]
    pub fn take(self, other: Double) -> (r: Double)
        requires
            self.wf(),
            other.wf(),
        ensures
            r == sum(self, minus(other)),
            r.wf(),
    {
        self.plus(Double { m: -other.m, e: other.e })
    }

    /// The product of two numbers (see [`product`]).
    #[inline]
    pub fn times(self, other: Double) -> (r: Double)
        requires
            self.wf(),
            other.wf(),
        ensures
            r == product(self, other),
            r.wf(),
    {
        proof {
            lemma_scaled(self.m as int, PAST as int);
            let x = self.m as int;
            let y = other.m as int;
            assert(-(PAST * PAST) <= x * y <= PAST * PAST) by (nonlinear_arith)
                requires
                    -PAST <= x <= PAST,
                    -PAST <= y <= PAST,
                    PAST > 0,
            ;
        }
        near(self.m as i128 * other.m as i128, self.e + other.e)
    }

    /// The quotient of two numbers (see [`quotient`]).
    pub fn over(self, other: Double) -> (r: Double)
        requires
            self.wf(),
            other.wf(),
        ensures
            r == quotient(self, other),
            r.wf(),
    {
        if other.m <= 0 {
            return Double { m: 0, e: 0 };
        }
        let s: u128 = if self.m < 0 {
            (-self.m) as u128
        } else {
            self.m as u128
        };
        let d: u128 = other.m as u128;
        let n: u128 = s * 0x1000_0000_0000_0000;
        let q: u128 = n / d;
        proof {
            vstd::arithmetic::div_mod::lemma_div_is_ordered_by_denominator(n as int, 1, d as int);
            assert(n as int / 1 == n);
        }
        let t: i128 = if n % d == 0 {
            2 * q as i128
        } else {
            2 * q as i128 + 1
        };
        near(
            if self.m < 0 {
                -t
            } else {
                t
            },
            self.e - other.e - 61,
        )
    }

    /// An integer as a number.
    pub fn of(n: u64) -> (r: Double)
        ensures
            r == of_int(n as int),
            r.wf(),
    {
        near(n as i128, 0)
    }

    /// A number in single precision as one in double precision (see [`of_single`]).
    #[inline]
    pub fn widen(s: Signed) -> (r: Double)
        requires
            crate::held::fits(s),
        ensures
            r == of_single(s),
            r.wf(),
    {
        reveal(nearest);
        if s.size.m == 0 {
            return Double { m: 0, e: 0 };
        }
        proof {
            lemma_single_bits(s.size.m as int);
            vstd::arithmetic::power2::lemma2_to64();
            assert(s.size.m * crate::single::up(29) == s.size.m * 0x2000_0000);
        }
        let m: i64 = s.size.m as i64 * 0x2000_0000;
        keep(
            if s.neg {
                -m
            } else {
                m
            },
            s.size.e - 29,
        )
    }

    /// The number in single precision (see [`to_single`]).
    #[inline]
    pub fn narrow(self) -> (r: Signed)
        requires
            self.wf(),
        ensures
            r == to_single(self),
            crate::held::fits(r),
    {
        let s: u64 = if self.m < 0 {
            (-self.m) as u64
        } else {
            self.m as u64
        };
        hold(Signed { neg: self.m < 0, size: Single::of(s).shift(self.e) })
    }
}

proof fn lemma_gap(k: int)
    requires
        0 <= k <= 64,
    ensures
        1 <= crate::single::up(k) <= 0x1_0000_0000_0000_0000,
{
    vstd::arithmetic::power2::lemma2_to64();
    vstd::arithmetic::power2::lemma_pow2_pos(k as nat);
    if k < 64 {
        vstd::arithmetic::power2::lemma_pow2_strictly_increases(k as nat, 64);
    }
}

proof fn lemma_small_gap(k: int)
    requires
        0 <= k <= 8,
    ensures
        1 <= crate::single::up(k) <= 256,
{
    vstd::arithmetic::power2::lemma2_to64();
    vstd::arithmetic::power2::lemma_pow2_pos(k as nat);
    if k < 8 {
        vstd::arithmetic::power2::lemma_pow2_strictly_increases(k as nat, 8);
    }
}

proof fn lemma_scaled_short(m: int, p: int)
    requires
        -PAST < m < PAST,
        1 <= p <= 256,
    ensures
        -0x2000_0000_0000_0000 <= m * p <= 0x2000_0000_0000_0000,
{
    assert(-(PAST * 256) <= m * p <= PAST * 256) by (nonlinear_arith)
        requires
            -PAST < m < PAST,
            1 <= p <= 256,
            PAST > 0,
    ;
}

proof fn lemma_scaled(m: int, p: int)
    requires
        -PAST <= m <= PAST,
        1 <= p <= 0x1_0000_0000_0000_0000,
    ensures
        -0x20_0000_0000_0000_0000_0000_0000_0000 <= m * p <= 0x20_0000_0000_0000_0000_0000_0000_0000,
{
    assert(-(PAST * 0x1_0000_0000_0000_0000) <= m * p <= PAST * 0x1_0000_0000_0000_0000)
        by (nonlinear_arith)
        requires
            -PAST <= m <= PAST,
            1 <= p <= 0x1_0000_0000_0000_0000,
            PAST > 0,
    ;
}

} // verus!
