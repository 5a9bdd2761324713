//! Whole numbers of any size.

use vstd::prelude::*;

verus! {

/// `b` times itself, `n` factors in all.
pub open spec fn raised(b: int, n: nat) -> int
    decreases n,
{
    if n == 0 {
        1
    } else {
        raised(b, (n - 1) as nat) * b
    }
}

/// Digits are this far apart.
pub open spec fn base() -> int {
    0x1_0000_0000
}

/// Digit `i`; there are zeros above the highest.
pub open spec fn digit_at(d: Seq<u32>, i: int) -> int {
    if 0 <= i < d.len() {
        d[i] as int
    } else {
        0
    }
}

/// The number that the lowest `n` digits stand for.
pub open spec fn value_of(d: Seq<u32>, n: nat) -> int
    decreases n,
{
    if n == 0 {
        0
    } else {
        value_of(d, (n - 1) as nat) + digit_at(d, n - 1) * raised(base(), (n - 1) as nat)
    }
}

/// A whole number, by its digits from the lowest up.
pub struct Natural {
    d: Vec<u32>,
}

impl Natural {
    /// The number.
    pub closed spec fn value(&self) -> int {
        value_of(self.d@, self.d@.len())
    }

    /// The number 1.
    pub fn one() -> (n: Natural)
        ensures
            n.value() == 1,
    {
        let mut d: Vec<u32> = Vec::new();
        d.push(1);
        proof {
            reveal_with_fuel(value_of, 2);
            reveal_with_fuel(raised, 2);
        }
        Natural { d }
    }

    /// The number times a small one.
    pub fn times(self, x: u32) -> (r: Natural)
        ensures
            r.value() == self.value() * x,
    {
        let n: usize = self.d.len();
        let mut out: Vec<u32> = Vec::new();
        let mut carry: u64 = 0;
        let mut i: usize = 0;
        let ghost d = self.d@;
        while i < n
            invariant
                i <= n == self.d@.len(),
                d == self.d@,
                out@.len() == i,
                carry < 0x1_0000_0000,
                value_of(out@, i as nat) + carry * raised(base(), i as nat) == value_of(d, i as nat)
                    * x,
            decreases n - i,
        {
            let a: u64 = self.d[i] as u64;
            assert(a * x <= 0xffff_ffff * 0xffff_ffff) by (nonlinear_arith)
                requires
                    0 <= a <= 0xffff_ffff,
                    0 <= x <= 0xffff_ffff,
            ;
            assert(a * x >= 0) by (nonlinear_arith)
                requires
                    0 <= a,
                    0 <= x,
            ;
            let t: u64 = a * x as u64 + carry;
            let low: u64 = t % 0x1_0000_0000;
            let high: u64 = t / 0x1_0000_0000;
            let ghost before = out@;
            out.push(low as u32);
            proof {
                lemma_value_prefix(before, out@, i as nat);
                let p = raised(base(), i as nat);
                let va = value_of(before, i as nat);
                let vd = value_of(d, i as nat);
                assert(value_of(out@, (i + 1) as nat) == va + low * p);
                assert(value_of(d, (i + 1) as nat) == vd + a * p);
                assert(va + low * p + high * (p * base()) == (vd + a * p) * x) by (nonlinear_arith)
                    requires
                        va + carry * p == vd * x,
                        low + base() * high == a * x + carry,
                ;
            }
            carry = high;
            i += 1;
        }
        let ghost before = out@;
        out.push(carry as u32);
        proof {
            lemma_value_prefix(before, out@, n as nat);
        }
        Natural { d: out }
    }

    /// The number times a power of a small one.
    pub fn times_power(self, x: u32, n: u32) -> (r: Natural)
        ensures
            r.value() == self.value() * raised(x as int, n as nat),
    {
        let ghost start = self.value();
        let mut r = self;
        let mut i: u32 = 0;
        assert(start * 1 == start);
        while i < n
            invariant
                i <= n,
                r.value() == start * raised(x as int, i as nat),
            decreases n - i,
        {
            proof {
                let p = raised(x as int, i as nat);
                assert(start * p * x == start * (p * x)) by (nonlinear_arith);
            }
            r = r.times(x);
            i += 1;
        }
        r
    }

    fn digit(&self, i: usize) -> (x: u32)
        ensures
            x == digit_at(self.d@, i as int),
    {
        if i < self.d.len() {
            self.d[i]
        } else {
            0
        }
    }

    /// Is the number no larger than another?
    pub fn at_most(&self, other: &Natural) -> (b: bool)
        ensures
            b == (self.value() <= other.value()),
    {
        let n: usize = if self.d.len() < other.d.len() {
            other.d.len()
        } else {
            self.d.len()
        };
        let ghost a = self.d@;
        let ghost c = other.d@;
        proof {
            lemma_value_zeros(a, n as nat);
            lemma_value_zeros(c, n as nat);
        }
        let mut i: usize = n;
        while i > 0
            invariant
                i <= n,
                a == self.d@,
                c == other.d@,
                self.value() == value_of(a, n as nat),
                other.value() == value_of(c, n as nat),
                value_of(a, n as nat) - value_of(a, i as nat) == value_of(c, n as nat) - value_of(
                    c,
                    i as nat,
                ),
            decreases i,
        {
            i -= 1;
            let x: u32 = self.digit(i);
            let y: u32 = other.digit(i);
            let ghost p = raised(base(), i as nat);
            proof {
                lemma_value_bound(a, i as nat);
                lemma_value_bound(c, i as nat);
            }
            if x < y {
                assert(y * p >= x * p + p) by (nonlinear_arith)
                    requires
                        y >= x + 1,
                        p >= 0,
                ;
                return true;
            }
            if y < x {
                assert(x * p >= y * p + p) by (nonlinear_arith)
                    requires
                        x >= y + 1,
                        p >= 0,
                ;
                return false;
            }
        }
        true
    }
}

/// A digit more does not change what those below it stand for.
proof fn lemma_value_prefix(a: Seq<u32>, b: Seq<u32>, n: nat)
    requires
        n <= a.len() <= b.len(),
        forall|i: int| 0 <= i < n ==> a[i] == b[i],
    ensures
        value_of(a, n) == value_of(b, n),
    decreases n,
{
    if n > 0 {
        lemma_value_prefix(a, b, (n - 1) as nat);
    }
}

/// Zeros above the highest digit stand for nothing.
proof fn lemma_value_zeros(d: Seq<u32>, n: nat)
    requires
        n >= d.len(),
    ensures
        value_of(d, n) == value_of(d, d.len()),
    decreases n,
{
    if n > d.len() {
        lemma_value_zeros(d, (n - 1) as nat);
        assert(0 * raised(base(), (n - 1) as nat) == 0) by (nonlinear_arith);
    }
}

/// `n` digits stand for less than the lowest number with a digit more.
proof fn lemma_value_bound(d: Seq<u32>, n: nat)
    ensures
        0 <= value_of(d, n) < raised(base(), n),
        raised(base(), n) > 0,
    decreases n,
{
    if n > 0 {
        lemma_value_bound(d, (n - 1) as nat);
        let p = raised(base(), (n - 1) as nat);
        let x = digit_at(d, n - 1);
        assert(0 <= x * p <= (base() - 1) * p) by (nonlinear_arith)
            requires
                0 <= x <= base() - 1,
                p > 0,
        ;
        assert(p * base() == (base() - 1) * p + p) by (nonlinear_arith);
    }
}

/// Powers of larger numbers are larger.
pub proof fn lemma_raised_grows(a: int, b: int, n: nat)
    requires
        0 <= a <= b,
    ensures
        0 <= raised(a, n) <= raised(b, n),
        a > 0 ==> raised(a, n) > 0,
        a < b && n > 0 ==> raised(a, n) < raised(b, n),
    decreases n,
{
    if n > 0 {
        lemma_raised_grows(a, b, (n - 1) as nat);
        let p = raised(a, (n - 1) as nat);
        let q = raised(b, (n - 1) as nat);
        assert(0 <= p * a <= q * b) by (nonlinear_arith)
            requires
                0 <= p <= q,
                0 <= a <= b,
        ;
        if a > 0 {
            assert(p * a > 0) by (nonlinear_arith)
                requires
                    p > 0,
                    a > 0,
            ;
        }
        if a < b {
            lemma_raised_positive(b, (n - 1) as nat);
            assert(p * a < q * b) by (nonlinear_arith)
                requires
                    0 <= p <= q,
                    0 <= a < b,
                    q > 0,
            ;
        }
    }
}

/// Powers of positive numbers are positive.
pub proof fn lemma_raised_positive(b: int, n: nat)
    requires
        b > 0,
    ensures
        raised(b, n) > 0,
    decreases n,
{
    if n > 0 {
        lemma_raised_positive(b, (n - 1) as nat);
        let p = raised(b, (n - 1) as nat);
        assert(p * b > 0) by (nonlinear_arith)
            requires
                p > 0,
                b > 0,
        ;
    }
}

/// The power of a product is the product of the powers.
pub proof fn lemma_raised_product(a: int, b: int, n: nat)
    ensures
        raised(a * b, n) == raised(a, n) * raised(b, n),
    decreases n,
{
    if n > 0 {
        let k = (n - 1) as nat;
        lemma_raised_product(a, b, k);
        let x = raised(a, k);
        let y = raised(b, k);
        assert((x * y) * (a * b) == (x * a) * (y * b)) by (nonlinear_arith);
        assert((a * b) * (x * y) == (a * x) * (b * y)) by (nonlinear_arith);
    }
}

} // verus!
