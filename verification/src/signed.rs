//! Single-precision numbers with a sign: how they compare, how far apart they are, and arithmetic on
//! them.

use vstd::prelude::*;

use crate::single::{ratio, Single};

verus! {

/// A number: its size, and whether it is negative. Zero is not negative.
#[derive(Clone, Copy, PartialEq, Eq, Structural, Debug)]
pub struct Signed {
    pub neg: bool,
    pub size: Single,
}

/// Three numbers: red, green and blue.
pub type Colour = (Signed, Signed, Signed);

impl Signed {
    /// The size is a number in the range of single precision, and zero has no sign.
    pub open spec fn wf(self) -> bool {
        &&& self.size.wf()
        &&& -200 <= self.size.e <= 200
        &&& self.size.m == 0 ==> !self.neg
    }

    /// The number is smaller than another.
    pub open spec fn lies_below(self, other: Signed) -> bool {
        match (self.neg, other.neg) {
            (false, false) => crate::single::below(self.size, other.size),
            (true, true) => crate::single::below(other.size, self.size),
            (true, false) => true,
            (false, true) => false,
        }
    }

    /// How far apart two numbers are.
    pub open spec fn distance(self, other: Signed) -> Single {
        if self.neg != other.neg {
            crate::single::total(self.size, other.size)
        } else if crate::single::below(self.size, other.size) {
            crate::single::difference(other.size, self.size)
        } else {
            crate::single::difference(self.size, other.size)
        }
    }

    /// The nearest number from 0 to 1.
    pub open spec fn kept_in_unit(self) -> Signed {
        if self.neg {
            Signed { neg: false, size: crate::single::nought() }
        } else if crate::single::below(crate::single::one(), self.size) {
            Signed { neg: false, size: crate::single::one() }
        } else {
            self
        }
    }

    /// Is the number smaller than another?
    #[inline]
    pub fn less(self, other: Signed) -> (b: bool)
        requires
            self.size.wf(),
            other.size.wf(),
        ensures
            b == self.lies_below(other),
    {
        if self.neg {
            if other.neg {
                other.size.less(self.size)
            } else {
                true
            }
        } else if other.neg {
            false
        } else {
            self.size.less(other.size)
        }
    }

    /// How far apart two numbers are.
    pub fn gap(self, other: Signed) -> (s: Single)
        requires
            self.wf(),
            other.wf(),
        ensures
            s.wf(),
            s == self.distance(other),
            -300 <= s.e <= 300,
    {
        if self.neg != other.neg {
            self.size.plus(other.size)
        } else if self.size.less(other.size) {
            other.size.minus(self.size)
        } else {
            self.size.minus(other.size)
        }
    }

    /// The nearest number from 0 to 1.
    pub fn into_unit(self) -> (r: Signed)
        requires
            self.wf(),
        ensures
            r == self.kept_in_unit(),
            r.wf(),
            !r.neg,
            !crate::single::below(crate::single::one(), r.size),
    {
        if self.neg {
            Signed { neg: false, size: Single { m: 0, e: 0 } }
        } else if Single::unit().less(self.size) {
            Signed { neg: false, size: Single::unit() }
        } else {
            self
        }
    }
}

/// Exactly one of two numbers is smaller, or they are the same.
pub proof fn law_order_is_total(a: Signed, b: Signed)
    requires
        a.wf(),
        b.wf(),
    ensures
        a == b <==> !a.lies_below(b) && !b.lies_below(a),
        !(a.lies_below(b) && b.lies_below(a)),
{
}

/// Two numbers are as far apart one way as the other.
pub proof fn law_distance_is_symmetric(a: Signed, b: Signed)
    requires
        a.wf(),
        b.wf(),
    ensures
        a.distance(b) == b.distance(a),
{
    let x = a.size;
    let y = b.size;
    assert(x.m * crate::single::up(0) == x.m && y.m * crate::single::up(0) == y.m)
        by (nonlinear_arith)
        requires
            crate::single::up(0) == 1,
    ;
}

impl Signed {
    /// The size is a number whose exponent lies from `-k` to `k`, and zero has no sign.
    pub open spec fn within(self, k: int) -> bool {
        &&& self.size.wf()
        &&& -k <= self.size.e <= k
        &&& self.size.m == 0 ==> !self.neg
    }

    /// The number with the other sign.
    pub open spec fn negated(self) -> Signed {
        Signed { neg: !self.neg && self.size.m > 0, size: self.size }
    }

    /// The number nearest to the sum of two.
    #[verifier::opaque]
    pub open spec fn sum(self, other: Signed) -> Signed {
        if self.neg == other.neg {
            Signed { neg: self.neg, size: crate::single::total(self.size, other.size) }
        } else if crate::single::below(self.size, other.size) {
            Signed { neg: other.neg, size: crate::single::difference(other.size, self.size) }
        } else {
            let size = crate::single::difference(self.size, other.size);
            Signed { neg: self.neg && size.m > 0, size }
        }
    }

    /// The number nearest to what is left when another is taken away.
    pub open spec fn less_by(self, other: Signed) -> Signed {
        self.sum(other.negated())
    }

    /// The number nearest to the product of two.
    #[verifier::opaque]
    pub open spec fn product(self, other: Signed) -> Signed {
        let size = crate::single::product(self.size, other.size);
        Signed { neg: self.neg != other.neg && size.m > 0, size }
    }

    /// The number nearest to the quotient of two.
    #[verifier::opaque]
    pub open spec fn quotient(self, other: Signed) -> Signed {
        let size = crate::single::quotient(self.size, other.size);
        Signed { neg: self.neg != other.neg && size.m > 0, size }
    }

    /// The larger of two numbers.
    pub open spec fn larger(self, other: Signed) -> Signed {
        if self.lies_below(other) {
            other
        } else {
            self
        }
    }

    /// The smaller of two numbers.
    pub open spec fn smaller(self, other: Signed) -> Signed {
        if other.lies_below(self) {
            other
        } else {
            self
        }
    }

    /// The number, or the nearest end of `lo..=hi` where it lies outside.
    pub open spec fn clamped(self, lo: Signed, hi: Signed) -> Signed {
        if self.lies_below(lo) {
            lo
        } else if hi.lies_below(self) {
            hi
        } else {
            self
        }
    }

    /// The nearest integer, halves going away from zero.
    pub open spec fn nearest_integer(self) -> int {
        if self.neg {
            -crate::single::round(self.size)
        } else {
            crate::single::round(self.size)
        }
    }

    /// The number with the other sign.
    #[inline]
    pub fn negate(self) -> (r: Signed)
        requires
            self.size.wf(),
        ensures
            r == self.negated(),
            r.size == self.size,
            r.size.m == 0 ==> !r.neg,
    {
        Signed { neg: !self.neg && self.size.m > 0, size: self.size }
    }

    /// The sum of two numbers.
    #[inline]
    pub fn plus(self, other: Signed) -> (r: Signed)
        requires
            self.within(500000000),
            other.within(500000000),
        ensures
            r == self.sum(other),
            r.size.wf(),
            r.size.m == 0 ==> !r.neg,
            self.size.m > 0 && other.size.m > 0 && r.size.m > 0 ==> max_of(
                self.size.e as int,
                other.size.e as int,
            ) - 62 <= r.size.e <= max_of(self.size.e as int, other.size.e as int) + 1,
            self.size.m == 0 ==> r.size == other.size,
            other.size.m == 0 ==> r.size == self.size,
            self.neg == other.neg && self.size.m > 0 ==> r.size.m > 0,
            self.neg != other.neg ==> (r.size.m > 0 <==> self.size != other.size),
            self.neg == other.neg ==> r.neg == self.neg,
            self.neg && !other.neg ==> r.neg == crate::single::below(other.size, self.size),
            !self.neg && other.neg ==> r.neg == crate::single::below(self.size, other.size),
            !self.neg && (other.neg || other.size.m == 0) ==> !self.lies_below(r),
    {
        reveal(Signed::sum);
        if self.neg == other.neg {
            Signed { neg: self.neg, size: self.size.plus(other.size) }
        } else if self.size.less(other.size) {
            Signed { neg: other.neg, size: other.size.minus(self.size) }
        } else {
            let size = self.size.minus(other.size);
            Signed { neg: self.neg && size.m > 0, size }
        }
    }

    /// What is left of a number when another is taken away.
    #[inline]
    pub fn minus(self, other: Signed) -> (r: Signed)
        requires
            self.within(500000000),
            other.within(500000000),
        ensures
            r == self.less_by(other),
            r.size.wf(),
            r.size.m == 0 ==> !r.neg,
            self.size.m > 0 && other.size.m > 0 && r.size.m > 0 ==> max_of(
                self.size.e as int,
                other.size.e as int,
            ) - 62 <= r.size.e <= max_of(self.size.e as int, other.size.e as int) + 1,
            self.size.m == 0 ==> r.size == other.size,
            other.size.m == 0 ==> r.size == self.size,
            r.size.m > 0 <==> self != other,
            r.neg == self.lies_below(other),
    {
        self.plus(other.negate())
    }

    /// The product of two numbers.
    #[inline]
    pub fn times(self, other: Signed) -> (r: Signed)
        requires
            self.within(500000000),
            other.within(500000000),
        ensures
            r == self.product(other),
            r.size.wf(),
            r.size.m == 0 ==> !r.neg,
            r.size.m > 0 ==> self.size.e + other.size.e + 23 <= r.size.e <= self.size.e
                + other.size.e + 25,
            r.size.m > 0 <==> self.size.m > 0 && other.size.m > 0,
            r.neg == (self.neg != other.neg && r.size.m > 0),
    {
        reveal(Signed::product);
        let size = self.size.times(other.size);
        Signed { neg: self.neg != other.neg && size.m > 0, size }
    }

    /// The quotient of two numbers.
    #[inline]
    pub fn over(self, other: Signed) -> (r: Signed)
        requires
            self.within(500000000),
            other.within(500000000),
            other.size.m > 0,
        ensures
            r == self.quotient(other),
            r.size.wf(),
            r.size.m == 0 ==> !r.neg,
            r.size.m > 0 ==> self.size.e - other.size.e - 24 <= r.size.e <= self.size.e
                - other.size.e - 22,
            r.size.m > 0 <==> self.size.m > 0,
            r.neg == (self.neg != other.neg && r.size.m > 0),
            !crate::single::below(other.size, self.size) ==> !crate::single::below(
                crate::single::one(),
                r.size,
            ),
    {
        reveal(Signed::quotient);
        let size = self.size.over(other.size);
        Signed { neg: self.neg != other.neg && size.m > 0, size }
    }

    /// The larger of two numbers.
    #[inline]
    pub fn max(self, other: Signed) -> (r: Signed)
        requires
            self.size.wf(),
            other.size.wf(),
        ensures
            r == self.larger(other),
    {
        if self.less(other) {
            other
        } else {
            self
        }
    }

    /// The smaller of two numbers.
    #[inline]
    pub fn min(self, other: Signed) -> (r: Signed)
        requires
            self.size.wf(),
            other.size.wf(),
        ensures
            r == self.smaller(other),
    {
        if other.less(self) {
            other
        } else {
            self
        }
    }

    /// The number, or the nearest end of `lo..=hi` where it lies outside.
    #[inline]
    pub fn clamp(self, lo: Signed, hi: Signed) -> (r: Signed)
        requires
            self.size.wf(),
            lo.size.wf(),
            hi.size.wf(),
        ensures
            r == self.clamped(lo, hi),
    {
        if self.less(lo) {
            lo
        } else if hi.less(self) {
            hi
        } else {
            self
        }
    }

    /// The nearest integer, halves going away from zero.
    pub fn round(self) -> (n: i64)
        requires
            self.size.wf(),
            self.size.e <= 24,
        ensures
            n == self.nearest_integer(),
    {
        let n: u64 = self.size.round();
        if self.neg {
            -(n as i64)
        } else {
            n as i64
        }
    }

    /// The square root of a number that is not negative.
    pub open spec fn rooted(self) -> Signed {
        Signed { neg: false, size: crate::single::root(self.size) }
    }

    /// The square root of a number that is not negative.
    pub fn sqrt(self) -> (r: Signed)
        requires
            self.within(500000000),
            !self.neg,
        ensures
            r == self.rooted(),
            r.size.wf(),
            !r.neg,
            self.size.m > 0 ==> (self.size.e - 24) / 2 <= r.size.e <= (self.size.e - 23) / 2 + 1,
            r.size.m > 0 <==> self.size.m > 0,
    {
        Signed { neg: false, size: self.size.sqrt() }
    }

    /// Zero.
    #[inline]
    pub fn zero() -> (r: Signed)
        ensures
            r == Signed::part(0, 1),
            r.within(0),
            r.size.m == 0,
    {
        proof {
            crate::single::law_nearest_unique(0, 1, crate::single::nought());
        }
        Signed { neg: false, size: Single { m: 0, e: 0 } }
    }

    /// The number nearest to `num / den`.
    pub open spec fn part(num: int, den: int) -> Signed {
        Signed { neg: false, size: crate::single::nearest(num, den) }
    }

    /// An integer as a number.
    pub open spec fn integer(n: int) -> Signed {
        if n < 0 {
            Signed::part(-n, 1).negated()
        } else {
            Signed::part(n, 1)
        }
    }

    /// The number nearest to `num / den`.
    #[inline]
    pub fn of(num: u64, den: u64) -> (r: Signed)
        requires
            den > 0,
        ensures
            r == Signed::part(num as int, den as int),
            crate::single::is_nearest(num as int, den as int, r.size),
            r.within(100),
            !r.neg,
            num > 0 ==> r.size.m > 0,
            num <= u32::MAX ==> r.size.e <= 9,
            0 < num <= 2 * den ==> r.size.e <= -21,
    {
        Signed { neg: false, size: ratio(num, den) }
    }
}

/// The longer of two sides.
pub(crate) fn longer_of(w: usize, h: usize) -> (r: usize)
    ensures
        r == max_of(w as int, h as int),
{
    if w < h {
        h
    } else {
        w
    }
}

/// The smaller of two integers.
pub open spec fn min_of(a: int, b: int) -> int {
    if a <= b {
        a
    } else {
        b
    }
}

/// The larger of two integers.
pub open spec fn max_of(a: int, b: int) -> int {
    if a <= b {
        b
    } else {
        a
    }
}

/// The number that a single-precision bit pattern stands for: a sign bit, eight bits of exponent and
/// 23 bits of significand. Infinities and patterns that are no numbers stand for none.
pub open spec fn of_bits(bits: u32) -> Option<Signed> {
    let rest = bits % 0x8000_0000;
    let exp = rest / 0x80_0000;
    let frac = rest % 0x80_0000;
    if exp == 255 {
        None
    } else {
        let size = if exp == 0 {
            crate::single::shifted(crate::single::nearest(frac as int, 1), -149)
        } else {
            Single { m: (0x80_0000 + frac) as u64, e: (exp - 150) as i32 }
        };
        Some(Signed { neg: bits >= 0x8000_0000 && size.m > 0, size })
    }
}

/// The number that a single-precision bit pattern stands for (see [`of_bits`]).
pub fn from_bits(bits: u32) -> (r: Option<Signed>)
    ensures
        r == of_bits(bits),
        r matches Some(v) ==> v.wf(),
{
    let rest: u32 = bits % 0x8000_0000;
    let exp: u32 = rest / 0x80_0000;
    let frac: u32 = rest % 0x80_0000;
    if exp == 255 {
        return None;
    }
    let size = if exp == 0 {
        let raw = Single::of(frac as u64);
        proof {
            if frac > 0 {
                vstd::arithmetic::power2::lemma2_to64();
                assert(frac * crate::single::up(23) >= crate::single::LOW) by (nonlinear_arith)
                    requires
                        frac >= 1,
                        crate::single::up(23) == 0x80_0000,
                        crate::single::LOW == 0x80_0000,
                ;
                crate::single::lemma_exponent_from(frac as int, 1, raw, -23);
            }
        }
        raw.shift(-149)
    } else {
        Single { m: 0x80_0000 + frac as u64, e: exp as i32 - 150 }
    };
    Some(Signed { neg: bits >= 0x8000_0000 && size.m > 0, size })
}

} // verus!
