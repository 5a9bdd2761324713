//! Arithmetic on numbers that are kept in a range, as floats are: what becomes too small is zero, and
//! what becomes too large is the largest number of the range.

use vstd::prelude::*;

use crate::signed::Signed;
use crate::single::Single;

verus! {

/// Largest exponent of the range.
pub const HELD_TOP: i32 = 1000;

/// The number as far as the range goes.
pub open spec fn held(a: Signed) -> Signed {
    if a.size.e < -HELD_TOP {
        Signed::part(0, 1)
    } else if a.size.e > HELD_TOP {
        Signed { neg: a.neg, size: Single { m: crate::single::LOW, e: HELD_TOP } }
    } else {
        a
    }
}

/// The number lies in the range.
pub open spec fn fits(a: Signed) -> bool {
    a.within(HELD_TOP as int)
}

/// The number is not positive.
pub open spec fn is_no_gain(a: Signed) -> bool {
    a.neg || a.size.m == 0
}

/// `a + b`.
#[verifier::opaque]
pub open spec fn plus(a: Signed, b: Signed) -> Signed {
    held(a.sum(b))
}

/// `a - b`.
#[verifier::opaque]
pub open spec fn minus(a: Signed, b: Signed) -> Signed {
    held(a.less_by(b))
}

/// `a * b`.
#[verifier::opaque]
pub open spec fn times(a: Signed, b: Signed) -> Signed {
    held(a.product(b))
}

/// `a / b`, zero where there is nothing to divide by.
#[verifier::opaque]
pub open spec fn over(a: Signed, b: Signed) -> Signed {
    if b.size.m == 0 {
        Signed::part(0, 1)
    } else {
        held(a.quotient(b))
    }
}

/// The square root, zero for a negative number.
#[verifier::opaque]
pub open spec fn root(a: Signed) -> Signed {
    if a.neg {
        Signed::part(0, 1)
    } else {
        held(a.rooted())
    }
}

/// `a` of the way from `b` to `c`.
pub open spec fn mixed(b: Signed, c: Signed, a: Signed) -> Signed {
    plus(b, times(minus(c, b), a))
}

/// The number as far as the range goes (see [`held`]).
#[inline]
pub fn hold(a: Signed) -> (r: Signed)
    requires
        a.size.wf(),
        a.size.m == 0 ==> !a.neg,
    ensures
        r == held(a),
        fits(r),
        a.size.e < -HELD_TOP ==> r.size.m == 0,
        is_no_gain(a) ==> is_no_gain(r),
{
    if a.size.e < -HELD_TOP {
        Signed::zero()
    } else if a.size.e > HELD_TOP {
        Signed { neg: a.neg, size: Single { m: crate::single::LOW, e: HELD_TOP } }
    } else {
        a
    }
}

/// `a + b` (see [`plus`]).
#[inline]
pub fn add_to(a: Signed, b: Signed) -> (r: Signed)
    requires
        fits(a),
        fits(b),
    ensures
        r == plus(a, b),
        fits(r),
        !a.neg && is_no_gain(b) ==> !a.lies_below(r),
{
    reveal(plus);
    hold(a.plus(b))
}

/// `a - b` (see [`minus`]).
#[inline]
pub fn take_from(a: Signed, b: Signed) -> (r: Signed)
    requires
        fits(a),
        fits(b),
    ensures
        r == minus(a, b),
        fits(r),
        !b.lies_below(a) ==> is_no_gain(r),
{
    reveal(minus);
    hold(a.minus(b))
}

/// `a * b` (see [`times`]).
#[inline]
pub fn scale_by(a: Signed, b: Signed) -> (r: Signed)
    requires
        fits(a),
        fits(b),
    ensures
        r == times(a, b),
        fits(r),
        is_no_gain(a) && !b.neg ==> is_no_gain(r),
{
    reveal(times);
    hold(a.times(b))
}

/// `a / b` (see [`over`]).
#[inline]
pub fn divide_by(a: Signed, b: Signed) -> (r: Signed)
    requires
        fits(a),
        fits(b),
    ensures
        r == over(a, b),
        fits(r),
{
    reveal(over);
    if b.size.m == 0 {
        Signed::zero()
    } else {
        hold(a.over(b))
    }
}

/// The square root (see [`root`]).
pub fn root_of(a: Signed) -> (r: Signed)
    requires
        fits(a),
    ensures
        r == root(a),
        fits(r),
{
    reveal(root);
    if a.neg {
        Signed::zero()
    } else {
        hold(a.sqrt())
    }
}

/// `a` of the way from `b` to `c` (see [`mixed`]).
#[inline]
pub fn mix(b: Signed, c: Signed, a: Signed) -> (r: Signed)
    requires
        fits(a),
        fits(b),
        fits(c),
    ensures
        r == mixed(b, c, a),
        fits(r),
        !b.neg && !a.neg && !b.lies_below(c) ==> !b.lies_below(r),
{
    add_to(b, scale_by(take_from(c, b), a))
}

/// An integer as a number.
#[inline]
pub fn whole(n: u64) -> (r: Signed)
    ensures
        r == Signed::part(n as int, 1),
        fits(r),
        !r.neg,
{
    Signed::of(n, 1)
}

/// Zero and one behave as they should: nothing is left of a number that is taken from itself, and a
/// number over itself is one.
pub proof fn law_of_units(a: Signed)
    requires
        fits(a),
    ensures
        plus(a, Signed::part(0, 1)) == a,
        plus(Signed::part(0, 1), a) == a,
        minus(a, a) == Signed::part(0, 1),
        times(a, Signed::part(0, 1)) == Signed::part(0, 1),
        times(Signed::part(0, 1), a) == Signed::part(0, 1),
        times(Signed::part(1, 1), a) == a,
        over(Signed::part(0, 1), a) == Signed::part(0, 1),
        a.size.m > 0 ==> over(a, a) == Signed::part(1, 1),
{
    reveal(plus);
    reveal(minus);
    reveal(times);
    reveal(over);
    reveal(Signed::sum);
    reveal(Signed::product);
    reveal(Signed::quotient);
    let zero = Signed::part(0, 1);
    crate::single::law_nearest_unique(0, 1, crate::single::nought());
    crate::single::lemma_one();
    assert(zero == (Signed { neg: false, size: crate::single::nought() }));
    let s = a.size;
    let one = crate::single::one();
    crate::single::law_times_one(s);
    assert(one.m * s.m == s.m * one.m) by (nonlinear_arith);
    assert(crate::single::product(one, s) == crate::single::product(s, one));
    assert(s.m * 0 == 0 && 0 * s.m == 0) by (nonlinear_arith);
    if s.m > 0 {
        crate::single::lemma_equal_ratio(s.m as int);
        let k = crate::single::up(0);
        assert(s.m * k - s.m == 0) by (nonlinear_arith)
            requires
                k == 1,
        ;
        crate::single::law_nearest_unique(0, s.m as int, crate::single::nought());
    }
}

} // verus!
