//! What numbers are worth: rounded arithmetic comes close to the arithmetic of real numbers.

use vstd::prelude::*;

use crate::signed::Signed;
use crate::single::Single;

verus! {

/// `2^e`.
pub open spec fn two_to(e: int) -> real {
    if e >= 0 {
        crate::single::up(e) as real
    } else {
        (1 as real) / (crate::single::up(-e) as real)
    }
}

/// The size of a real number.
pub open spec fn extent(x: real) -> real {
    if x < 0 as real {
        -x
    } else {
        x
    }
}

/// A real number is another, but for a part in `2^24`.
pub open spec fn is_close(x: real, y: real) -> bool {
    extent(x - y) * (0x100_0000 as real) <= extent(y)
}

impl Single {
    /// What the number is worth.
    pub open spec fn worth(self) -> real {
        (self.m as real) * two_to(self.e as int)
    }
}

impl Signed {
    /// What the number is worth.
    pub open spec fn worth(self) -> real {
        if self.neg {
            -self.size.worth()
        } else {
            self.size.worth()
        }
    }
}

/// Powers of two are positive, and multiply as they should.
pub proof fn lemma_two_to(a: int, b: int)
    ensures
        two_to(a) > 0 as real,
        two_to(b) > 0 as real,
        two_to(a + b) == two_to(a) * two_to(b),
        two_to(0) == 1 as real,
        two_to(a) * two_to(-a) == 1 as real,
{
    crate::single::lemma_up_pos(a);
    crate::single::lemma_up_pos(-a);
    crate::single::lemma_up_pos(b);
    crate::single::lemma_up_pos(-b);
    lemma_inverse(crate::single::up(a) as real);
    lemma_inverse(crate::single::up(-a) as real);
    lemma_inverse(crate::single::up(b) as real);
    lemma_inverse(crate::single::up(-b) as real);
    assert(two_to(0) == 1 as real);
    assert(two_to(a + b) == two_to(a) * two_to(b)) by {
        let c = a + b;
        crate::single::lemma_up_pos(c);
        crate::single::lemma_up_pos(-c);
        lemma_inverse(crate::single::up(c) as real);
        lemma_inverse(crate::single::up(-c) as real);
        if a >= 0 && b >= 0 {
            lemma_up_real(a, b);
        } else if a < 0 && b < 0 {
            lemma_up_real(-a, -b);
            lemma_inverses(crate::single::up(-a) as real, crate::single::up(-b) as real);
        } else if a >= 0 {
            lemma_two_to_mixed(a, -b);
        } else {
            lemma_two_to_mixed(b, -a);
            assert(two_to(b) * two_to(a) == two_to(a) * two_to(b)) by (nonlinear_arith);
        }
    }
    let x = two_to(a);
    let y = two_to(-a);
    let z = if a >= 0 {
        x
    } else {
        y
    };
    assert(x * y == 1 as real) by (nonlinear_arith)
        requires
            z > 0 as real,
            (x == z && y == (1 as real) / z) || (y == z && x == (1 as real) / z) || (x == 1 as real
                && y == 1 as real),
    ;
}

proof fn lemma_up_real(a: int, b: int)
    requires
        a >= 0,
        b >= 0,
    ensures
        crate::single::up(a + b) as real == (crate::single::up(a) as real) * (crate::single::up(
            b,
        ) as real),
{
    crate::single::lemma_up_add(a, b);
    lemma_real_product(crate::single::up(a), crate::single::up(b));
}

/// The product of integers is that of real numbers.
pub proof fn lemma_real_product(a: int, b: int)
    ensures
        (a * b) as real == (a as real) * (b as real),
{
    assert((a * b) as real == (a as real) * (b as real)) by (nonlinear_arith);
}

proof fn lemma_inverse(x: real)
    requires
        x > 0 as real,
    ensures
        (1 as real) / x > 0 as real,
        x * ((1 as real) / x) == 1 as real,
{
    assert((1 as real) / x > 0 as real && x * ((1 as real) / x) == 1 as real) by (nonlinear_arith)
        requires
            x > 0 as real,
    ;
}

proof fn lemma_inverses(x: real, y: real)
    requires
        x > 0 as real,
        y > 0 as real,
    ensures
        (1 as real) / (x * y) == ((1 as real) / x) * ((1 as real) / y),
{
    assert((1 as real) / (x * y) == ((1 as real) / x) * ((1 as real) / y)) by (nonlinear_arith)
        requires
            x > 0 as real,
            y > 0 as real,
    ;
}

proof fn lemma_two_to_mixed(a: int, b: int)
    requires
        a >= 0,
        b >= 0,
    ensures
        two_to(a - b) == two_to(a) * two_to(-b),
{
    let x = crate::single::up(a) as real;
    let y = crate::single::up(b) as real;
    crate::single::lemma_up_pos(a);
    crate::single::lemma_up_pos(b);
    if a >= b {
        lemma_up_real(b, a - b);
        let z = crate::single::up(a - b) as real;
        assert(z == (y * z) * ((1 as real) / y)) by (nonlinear_arith)
            requires
                y > 0 as real,
        ;
    } else {
        lemma_up_real(a, b - a);
        let z = crate::single::up(b - a) as real;
        crate::single::lemma_up_pos(b - a);
        assert((1 as real) / z == x * ((1 as real) / (x * z))) by (nonlinear_arith)
            requires
                x > 0 as real,
                z > 0 as real,
        ;
    }
    if b == 0 {
        assert(x * (1 as real) == x);
    }
}

/// A number that is rounded at an exponent is off by half a step at most.
proof fn lemma_rounded(n: int, d: int, q: int)
    requires
        d > 0,
        q == crate::single::round_even(n, d),
        n >= crate::single::LOW * d,
    ensures
        -n <= 0x100_0000 * (q * d - n) <= n,
{
    let f = n / d;
    vstd::arithmetic::div_mod::lemma_fundamental_div_mod(n, d);
    vstd::arithmetic::div_mod::lemma_mod_bound(n, d);
    let r = n % d;
    assert(q * d - n == -r || q * d - n == d - r) by (nonlinear_arith)
        requires
            n == d * f + r,
            q == f || q == f + 1,
            q == f ==> q * d - n == f * d - n,
    ;
    if q == f {
        assert(q * d - n == -r) by (nonlinear_arith)
            requires
                n == d * f + r,
                q == f,
        ;
    } else {
        assert(q * d - n == d - r) by (nonlinear_arith)
            requires
                n == d * f + r,
                q == f + 1,
        ;
    }
    assert(-d <= 2 * (q * d - n) <= d);
    assert(0x80_0000 * d == crate::single::LOW * d);
}

/// The number nearest to a ratio is close to it.
pub proof fn law_nearest_is_close(num: int, den: int, s: Single)
    requires
        num > 0,
        den > 0,
        crate::single::is_nearest(num, den, s),
    ensures
        is_close(s.worth(), (num as real) / (den as real)),
        s.worth() > 0 as real,
{
    let e = choose|e: int| #[trigger]
        crate::single::in_binade(num, den, e) && crate::single::is_rounded_at(
            crate::single::round_even(num * crate::single::up(-e), den * crate::single::up(e)),
            e,
            s,
        );
    let n = num * crate::single::up(-e);
    let d = den * crate::single::up(e);
    let q = crate::single::round_even(n, d);
    crate::single::lemma_up_pos(e);
    crate::single::lemma_up_pos(-e);
    assert(d > 0) by (nonlinear_arith)
        requires
            d == den * crate::single::up(e),
            den > 0,
            crate::single::up(e) >= 1,
    ;
    lemma_rounded(n, d, q);
    lemma_two_to(e, 1);
    vstd::arithmetic::power2::lemma2_to64();
    let t = two_to(e);
    // The worth is that of the rounded quotient at this exponent.
    assert(s.worth() == (q as real) * t) by {
        if q == crate::single::HIGH {
            assert(two_to(1) == 2 as real);
            assert((0x80_0000 as real) * (t * (2 as real)) == (0x100_0000 as real) * t)
                by (nonlinear_arith);
        }
    }
    let (nr, dr) = (num as real, den as real);
    let (up, down) = (crate::single::up(e) as real, crate::single::up(-e) as real);
    lemma_real_product(num, crate::single::up(-e));
    lemma_real_product(den, crate::single::up(e));
    lemma_real_product(q, d);
    lemma_inverse(down);
    // A step is worth the power of two.
    assert(t * down == up) by (nonlinear_arith)
        requires
            down > 0 as real,
            (t == up && down == 1 as real) || (up == 1 as real && t == (1 as real) / down),
    ;
    let x = (q as real) * t;
    let y = nr / dr;
    lemma_close_ratio(q as real, t, nr, dr, up, down, x, y);
}

proof fn lemma_close_ratio(
    q: real,
    t: real,
    n: real,
    d: real,
    up: real,
    down: real,
    x: real,
    y: real,
)
    requires
        n > 0 as real,
        d > 0 as real,
        t > 0 as real,
        up > 0 as real,
        down > 0 as real,
        t * down == up,
        x == q * t,
        y == n / d,
        -(n * down) <= (0x100_0000 as real) * (q * (d * up) - n * down) <= n * down,
    ensures
        is_close(x, y),
        x > 0 as real,
{
    // Over `d * down` both sides become those of the ratio.
    let c = d * down;
    assert(c > 0 as real) by (nonlinear_arith)
        requires
            d > 0 as real,
            down > 0 as real,
            c == d * down,
    ;
    assert(y > 0 as real && y * c == n * down) by (nonlinear_arith)
        requires
            d > 0 as real,
            n > 0 as real,
            y == n / d,
            c == d * down,
    ;
    assert(x * c == q * (d * up)) by (nonlinear_arith)
        requires
            x == q * t,
            c == d * down,
            t * down == up,
    ;
    assert((x - y) * c == q * (d * up) - n * down) by (nonlinear_arith)
        requires
            x * c == q * (d * up),
            y * c == n * down,
    ;
    let z = x - y;
    assert(-y <= (0x100_0000 as real) * z <= y) by (nonlinear_arith)
        requires
            c > 0 as real,
            y * c == n * down,
            -(n * down) <= (0x100_0000 as real) * (z * c) <= n * down,
    ;
}

/// Every ratio of numbers that are not too long has a nearest number.
pub proof fn lemma_has_ratio(num: int, den: int)
    requires
        0 < num <= 0x1_0000_0000_0000,
        0 < den <= 0x1_0000_0000_0000,
    ensures
        crate::single::is_nearest(num, den, crate::single::nearest(num, den)),
        crate::single::nearest(num, den).wf(),
        crate::single::nearest(num, den).m > 0,
        -100 <= crate::single::nearest(num, den).e <= 100,
{
    vstd::arithmetic::power2::lemma2_to64();
    vstd::arithmetic::power2::lemma2_to64_rest();
    crate::single::lemma_up_add(64, 16);
    assert(crate::single::up(80) == 0x1_0000_0000_0000_0000int * 0x1_0000int);
    assert(num * crate::single::up(80) >= crate::single::LOW * (den * crate::single::up(-80)))
        by (nonlinear_arith)
        requires
            num >= 1,
            den <= 0x1_0000_0000_0000,
            crate::single::up(-80) == 1,
            crate::single::LOW == 0x80_0000,
            crate::single::up(80) == 0x1_0000_0000_0000_0000int * 0x1_0000int,
    ;
    let e = lemma_climb(num, den, -80);
    crate::single::lemma_up_pos(e);
    let n = num * crate::single::up(-e);
    let d = den * crate::single::up(e);
    assert(d > 0) by (nonlinear_arith)
        requires
            d == den * crate::single::up(e),
            den > 0,
            crate::single::up(e) >= 1,
    ;
    crate::single::lemma_round_even_range(n, d);
    let q = crate::single::round_even(n, d);
    let s = if q == crate::single::HIGH {
        Single { m: crate::single::LOW, e: (e + 1) as i32 }
    } else {
        Single { m: q as u64, e: e as i32 }
    };
    assert(crate::single::is_rounded_at(q, e, s));
    assert(crate::single::is_nearest(num, den, s));
    crate::single::law_nearest_unique(num, den, s);
}

/// From an exponent that is not too high up to the one that fits.
proof fn lemma_climb(num: int, den: int, e: int) -> (r: int)
    requires
        0 < num <= 0x1_0000_0000_0000,
        0 < den,
        -80 <= e <= 80,
        crate::single::LOW * (den * crate::single::up(e)) <= num * crate::single::up(-e),
    ensures
        e <= r <= 80,
        crate::single::in_binade(num, den, r),
    decreases 80 - e,
{
    let u = crate::single::up(e);
    let v = crate::single::up(-e);
    crate::single::lemma_up_pos(e);
    crate::single::lemma_up_pos(-e);
    if num * v < crate::single::HIGH * (den * u) {
        e
    } else {
        if e == 80 {
            vstd::arithmetic::power2::lemma2_to64();
            crate::single::lemma_up_add(64, 16);
            assert(false) by (nonlinear_arith)
                requires
                    num <= 0x1_0000_0000_0000,
                    den >= 1,
                    v == 1,
                    u == 0x1_0000_0000_0000_0000int * 0x1_0000int,
                    num * v >= crate::single::HIGH * (den * u),
                    crate::single::HIGH == 0x100_0000,
            ;
        }
        let u2 = crate::single::up(e + 1);
        let v2 = crate::single::up(-(e + 1));
        if e >= 0 {
            crate::single::lemma_up_step(e);
            assert(crate::single::LOW * (den * u2) <= num * v2) by (nonlinear_arith)
                requires
                    u2 == 2 * u,
                    v2 == v,
                    num * v >= crate::single::HIGH * (den * u),
                    crate::single::HIGH == 2 * crate::single::LOW,
            ;
        } else {
            crate::single::lemma_up_step(-(e + 1));
            assert(crate::single::LOW * (den * u2) <= num * v2) by (nonlinear_arith)
                requires
                    u2 == u,
                    v == 2 * v2,
                    num * v >= crate::single::HIGH * (den * u),
                    crate::single::HIGH == 2 * crate::single::LOW,
            ;
        }
        lemma_climb(num, den, e + 1)
    }
}

/// A ratio of integers is close to what its number is worth.
pub proof fn law_part_is_close(num: int, den: int)
    requires
        0 <= num <= 0x1_0000_0000_0000,
        0 < den <= 0x1_0000_0000_0000,
    ensures
        is_close(Signed::part(num, den).worth(), (num as real) / (den as real)),
        Signed::part(num, den).within(100),
        !Signed::part(num, den).neg,
        num == 0 <==> Signed::part(num, den).size.m == 0,
        num > 0 ==> Signed::part(num, den).worth() > 0 as real,
{
    if num == 0 {
        crate::single::law_nearest_unique(0, den, crate::single::nought());
        let d = den as real;
        assert((0 as real) / d == 0 as real) by (nonlinear_arith)
            requires
                d > 0 as real,
        ;
        let t = two_to(0);
        assert((0 as real) * t == 0 as real) by (nonlinear_arith);
    } else {
        lemma_has_ratio(num, den);
        law_nearest_is_close(num, den, crate::single::nearest(num, den));
    }
}

/// Small integers are worth what they are.
pub proof fn law_integer_is_exact(n: int)
    requires
        0 <= n < 0x100_0000,
    ensures
        Signed::part(n, 1).worth() == n as real,
        Signed::part(n, 1).within(100),
        !Signed::part(n, 1).neg,
{
    law_part_is_close(n, 1);
    if n > 0 {
        let s = crate::single::nearest(n, 1);
        lemma_has_ratio(n, 1);
        let e = choose|e: int| #[trigger]
            crate::single::in_binade(n, 1, e) && crate::single::is_rounded_at(
                crate::single::round_even(n * crate::single::up(-e), 1 * crate::single::up(e)),
                e,
                s,
            );
        let u = crate::single::up(e);
        let v = crate::single::up(-e);
        crate::single::lemma_up_pos(e);
        crate::single::lemma_up_pos(-e);
        if e > 0 {
            crate::single::lemma_up_step(e - 1);
            assert(false) by (nonlinear_arith)
                requires
                    u >= 2,
                    v == 1,
                    n < 0x100_0000,
                    crate::single::LOW * (1 * u) <= n * v,
                    crate::single::LOW == 0x80_0000,
            ;
        }
        let q = crate::single::round_even(n * v, 1 * u);
        assert((n * v) % 1 == 0);
        assert(q == n * v);
        assert(q < crate::single::HIGH);
        assert(s.m == q && s.e == e);
        lemma_two_to(e, 0);
        lemma_real_product(n, v);
        let (nr, vr, t) = (n as real, v as real, two_to(e));
        assert((nr * vr) * t == nr) by (nonlinear_arith)
            requires
                vr > 0 as real,
                t == (1 as real) / vr || (t == 1 as real && vr == 1 as real),
        ;
    } else {
        let t = two_to(0);
        crate::single::law_nearest_unique(0, 1, crate::single::nought());
        assert((0 as real) * t == 0 as real) by (nonlinear_arith);
    }
}

/// Order is that of what numbers are worth.
pub proof fn law_order_is_by_worth(a: Signed, b: Signed)
    requires
        a.size.wf(),
        b.size.wf(),
        a.size.m == 0 ==> !a.neg,
        b.size.m == 0 ==> !b.neg,
    ensures
        a.lies_below(b) <==> a.worth() < b.worth(),
        a.worth() == 0 as real <==> a.size.m == 0,
        a.neg <==> a.worth() < 0 as real,
        a.size.worth() >= 0 as real,
{
    lemma_sizes(a.size, b.size);
    lemma_sizes(b.size, a.size);
}

/// The order of sizes is that of what they are worth.
pub proof fn lemma_sizes(a: Single, b: Single)
    requires
        a.wf(),
        b.wf(),
    ensures
        crate::single::below(a, b) <==> a.worth() < b.worth(),
        a.worth() >= 0 as real,
        a.worth() == 0 as real <==> a.m == 0,
{
    let k: int = if a.e < b.e {
        a.e as int
    } else {
        b.e as int
    };
    crate::single::law_below_is_order(a, b, k);
    lemma_two_to(k, a.e - k);
    lemma_two_to(k, b.e - k);
    let t = two_to(k);
    let x = crate::single::up(a.e - k);
    let y = crate::single::up(b.e - k);
    lemma_real_product(a.m as int, x);
    lemma_real_product(b.m as int, y);
    crate::single::lemma_up_pos(a.e - k);
    crate::single::lemma_up_pos(b.e - k);
    let (ar, br, xr, yr) = (a.m as real, b.m as real, x as real, y as real);
    assert(ar * (t * xr) == (ar * xr) * t && br * (t * yr) == (br * yr) * t) by (nonlinear_arith);
    let (p, q) = (ar * xr, br * yr);
    assert(p < q <==> p * t < q * t) by (nonlinear_arith)
        requires
            t > 0 as real,
    ;
    let s = two_to(a.e as int);
    lemma_two_to(a.e as int, 0);
    assert(ar * s >= 0 as real && (ar * s == 0 as real <==> ar == 0 as real)) by (nonlinear_arith)
        requires
            s > 0 as real,
            ar >= 0 as real,
    ;
}

/// A number that is shifted is worth so much more.
proof fn lemma_shifted_worth(s: Single, k: int)
    requires
        s.wf(),
        -2_000_000_000 <= s.e + k <= 2_000_000_000,
    ensures
        crate::single::shifted(s, k).worth() == s.worth() * two_to(k),
{
    lemma_two_to(s.e as int, k);
    let (m, t, u) = (s.m as real, two_to(s.e as int), two_to(k));
    assert((m * t) * u == m * (t * u)) by (nonlinear_arith);
    if s.m == 0 {
        assert((m * t) * u == m * t) by (nonlinear_arith)
            requires
                m == 0 as real,
        ;
    }
}

/// What is close stays close when both are multiplied.
pub proof fn lemma_close_times(x: real, y: real, k: real)
    requires
        is_close(x, y),
    ensures
        is_close(x * k, y * k),
{
    let d = x - y;
    assert(x * k - y * k == d * k) by (nonlinear_arith)
        requires
            d == x - y,
    ;
    let (ed, ey, ek) = (extent(d), extent(y), extent(k));
    assert(extent(d * k) == ed * ek) by {
        lemma_extent(d, k);
    }
    assert(extent(y * k) == ey * ek) by {
        lemma_extent(y, k);
    }
    assert((ed * ek) * (0x100_0000 as real) <= ey * ek) by (nonlinear_arith)
        requires
            ed * (0x100_0000 as real) <= ey,
            ek >= 0 as real,
    ;
}

/// The size of a product is the product of the sizes.
pub proof fn lemma_extent(x: real, y: real)
    ensures
        extent(x * y) == extent(x) * extent(y),
        extent(-x) == extent(x),
        extent(x) >= 0 as real,
{
    if x < 0 as real {
        lemma_extent_of(-x, y);
        assert((-x) * y == -(x * y)) by (nonlinear_arith);
    } else {
        lemma_extent_of(x, y);
    }
}

proof fn lemma_extent_of(x: real, y: real)
    requires
        x >= 0 as real,
    ensures
        extent(x * y) == x * extent(y),
{
    if y < 0 as real {
        assert(x * (-y) == -(x * y)) by (nonlinear_arith);
        assert(x * y <= 0 as real) by (nonlinear_arith)
            requires
                x >= 0 as real,
                y < 0 as real,
        ;
    } else {
        assert(x * y >= 0 as real) by (nonlinear_arith)
            requires
                x >= 0 as real,
                y >= 0 as real,
        ;
    }
}

/// A product of sizes is close to the product of what they are worth.
pub proof fn lemma_product_worth(a: Single, b: Single)
    requires
        a.wf(),
        b.wf(),
        -500_000_000 <= a.e <= 500_000_000,
        -500_000_000 <= b.e <= 500_000_000,
    ensures
        is_close(crate::single::product(a, b).worth(), a.worth() * b.worth()),
        crate::single::product(a, b).wf(),
        a.m > 0 && b.m > 0 <==> crate::single::product(a, b).m > 0,
        crate::single::product(a, b).m > 0 ==> -100 <= crate::single::product(a, b).e - a.e - b.e
            <= 100,
{
    let (am, bm) = (a.m as real, b.m as real);
    let (s, t) = (two_to(a.e as int), two_to(b.e as int));
    lemma_two_to(a.e as int, b.e as int);
    lemma_real_product(a.m as int, b.m as int);
    assert((am * bm) * (s * t) == (am * s) * (bm * t)) by (nonlinear_arith);
    if a.m == 0 || b.m == 0 {
        assert(a.m * b.m == 0) by (nonlinear_arith)
            requires
                a.m == 0 || b.m == 0,
        ;
        crate::single::law_nearest_unique(0, 1, crate::single::nought());
        let u = two_to(0);
        assert((0 as real) * u == 0 as real) by (nonlinear_arith);
        assert((am * bm) * (s * t) == 0 as real) by (nonlinear_arith)
            requires
                am == 0 as real || bm == 0 as real,
        ;
    } else {
        let n = a.m * b.m;
        assert(0 < n <= 0x1_0000_0000_0000) by (nonlinear_arith)
            requires
                0 < a.m <= 0x100_0000,
                0 < b.m <= 0x100_0000,
                n == a.m * b.m,
        ;
        lemma_has_ratio(n, 1);
        let raw = crate::single::nearest(n, 1);
        law_nearest_is_close(n, 1, raw);
        let nr = n as real;
        assert(nr / (1 as real) == nr) by (nonlinear_arith);
        lemma_shifted_worth(raw, a.e + b.e);
        lemma_close_times(raw.worth(), nr, s * t);
    }
}

/// What gives a number when it is multiplied is its quotient.
pub proof fn lemma_divides(x: real, y: real, n: real)
    requires
        y != 0 as real,
        x * y == n,
    ensures
        n / y == x,
{
    assert(n / y == x) by (nonlinear_arith)
        requires
            y != 0 as real,
            x * y == n,
    ;
}

/// A quotient times its divisor.
pub proof fn lemma_divided(n: real, y: real)
    requires
        y != 0 as real,
    ensures
        (n / y) * y == n,
{
    assert((n / y) * y == n) by (nonlinear_arith)
        requires
            y != 0 as real,
    ;
}

proof fn lemma_quotient_of(a: real, s: real, b: real, t: real, u: real)
    requires
        b > 0 as real,
        t > 0 as real,
        s == u * t,
    ensures
        (a / b) * u == (a * s) / (b * t),
        b * t > 0 as real,
{
    let z = a / b;
    lemma_divided(a, b);
    let d = b * t;
    assert(d > 0 as real) by (nonlinear_arith)
        requires
            b > 0 as real,
            t > 0 as real,
            d == b * t,
    ;
    let x = z * u;
    assert(x * d == (z * b) * (u * t)) by (nonlinear_arith)
        requires
            x == z * u,
            d == b * t,
    ;
    lemma_divides(x, d, a * s);
}

/// A quotient of sizes is close to the quotient of what they are worth.
pub proof fn lemma_quotient_worth(a: Single, b: Single)
    requires
        a.wf(),
        b.wf(),
        b.m > 0,
        -500_000_000 <= a.e <= 500_000_000,
        -500_000_000 <= b.e <= 500_000_000,
    ensures
        is_close(crate::single::quotient(a, b).worth(), a.worth() / b.worth()),
        crate::single::quotient(a, b).wf(),
        a.m > 0 <==> crate::single::quotient(a, b).m > 0,
        a.m > 0 ==> -100 <= crate::single::quotient(a, b).e - a.e + b.e <= 100,
{
    let (am, bm) = (a.m as real, b.m as real);
    let (s, t, u) = (two_to(a.e as int), two_to(b.e as int), two_to(a.e - b.e));
    lemma_two_to(a.e - b.e, b.e as int);
    lemma_two_to(a.e as int, 0);
    lemma_quotient_of(am, s, bm, t, u);
    if a.m == 0 {
        crate::single::law_nearest_unique(0, b.m as int, crate::single::nought());
        let v = two_to(0);
        assert((0 as real) * v == 0 as real) by (nonlinear_arith);
        lemma_divides(0 as real, bm, 0 as real);
        assert((0 as real) * bm == 0 as real) by (nonlinear_arith);
        assert((0 as real) * u == 0 as real) by (nonlinear_arith);
    } else {
        lemma_has_ratio(a.m as int, b.m as int);
        let raw = crate::single::nearest(a.m as int, b.m as int);
        law_nearest_is_close(a.m as int, b.m as int, raw);
        lemma_shifted_worth(raw, a.e - b.e);
        lemma_close_times(raw.worth(), am / bm, u);
    }
}

/// A large integer is close to what its number is worth.
proof fn lemma_integer_worth(n: int, k: int, e: int)
    requires
        0 < n < crate::single::up(k),
        0 <= k <= 60_000,
        -30_000 <= e <= 30_000,
    ensures
        is_close(
            crate::single::shifted(crate::single::nearest(n, 1), e).worth(),
            (n as real) * two_to(e),
        ),
        crate::single::shifted(crate::single::nearest(n, 1), e).wf(),
        crate::single::shifted(crate::single::nearest(n, 1), e).m > 0,
        e - 23 <= crate::single::shifted(crate::single::nearest(n, 1), e).e <= e + k,
{
    crate::rounding::lemma_has_nearest(n, k);
    let raw = crate::single::nearest(n, 1);
    law_nearest_is_close(n, 1, raw);
    let nr = n as real;
    assert(nr / (1 as real) == nr) by (nonlinear_arith);
    lemma_shifted_worth(raw, e);
    lemma_close_times(raw.worth(), nr, two_to(e));
}

/// A significand times a power of two has no more bits than both together.
proof fn lemma_bits(m: int, d: int)
    requires
        0 <= m < 0x100_0000,
        0 <= d <= 40_000,
    ensures
        0 <= m * crate::single::up(d) < crate::single::up(24 + d),
        0x100_0000 <= crate::single::up(24 + d),
        crate::single::up(25 + d) == 2 * crate::single::up(24 + d),
{
    vstd::arithmetic::power2::lemma2_to64();
    crate::single::lemma_up_add(24, d);
    crate::single::lemma_up_pos(d);
    crate::single::lemma_up_step(24 + d);
    let x = crate::single::up(d);
    assert(0 <= m * x < 0x100_0000 * x && 0x100_0000 <= 0x100_0000 * x) by (nonlinear_arith)
        requires
            0 <= m < 0x100_0000,
            x >= 1,
    ;
}

/// A sum of sizes is close to the sum of what they are worth.
pub proof fn lemma_total_worth(a: Single, b: Single)
    requires
        a.wf(),
        b.wf(),
        -20_000 <= a.e <= 20_000,
        -20_000 <= b.e <= 20_000,
    ensures
        is_close(crate::single::total(a, b).worth(), a.worth() + b.worth()),
        crate::single::total(a, b).wf(),
        a.m > 0 || b.m > 0 <==> crate::single::total(a, b).m > 0,
        crate::single::total(a, b).m > 0 ==> crate::signed::min_of(a.e as int, b.e as int) - 23
            <= crate::single::total(a, b).e <= crate::signed::max_of(a.e as int, b.e as int) + 25,
{
    lemma_sizes(a, b);
    lemma_sizes(b, a);
    if a.m > 0 && b.m > 0 {
        if a.e <= b.e {
            lemma_two_to(a.e as int, b.e - a.e);
            lemma_bits(b.m as int, b.e - a.e);
            let u = crate::single::up(b.e - a.e);
            let n = a.m + b.m * u;
            lemma_integer_worth(n, 25 + b.e - a.e, a.e as int);
            lemma_real_product(b.m as int, u);
            let (x, y, t, ur) = (a.m as real, b.m as real, two_to(a.e as int), u as real);
            assert((x + y * ur) * t == x * t + y * (t * ur)) by (nonlinear_arith);
        } else {
            lemma_two_to(b.e as int, a.e - b.e);
            lemma_bits(a.m as int, a.e - b.e);
            let u = crate::single::up(a.e - b.e);
            let n = a.m * u + b.m;
            lemma_integer_worth(n, 25 + a.e - b.e, b.e as int);
            lemma_real_product(a.m as int, u);
            let (x, y, t, ur) = (a.m as real, b.m as real, two_to(b.e as int), u as real);
            assert((x * ur + y) * t == x * (t * ur) + y * t) by (nonlinear_arith);
        }
    }
}

/// A difference of sizes is close to the difference of what they are worth.
pub proof fn lemma_difference_worth(a: Single, b: Single)
    requires
        a.wf(),
        b.wf(),
        -20_000 <= a.e <= 20_000,
        -20_000 <= b.e <= 20_000,
        !crate::single::below(a, b),
    ensures
        is_close(crate::single::difference(a, b).worth(), a.worth() - b.worth()),
        crate::single::difference(a, b).wf(),
        crate::single::below(b, a) <==> crate::single::difference(a, b).m > 0,
        crate::single::difference(a, b).m > 0 ==> crate::signed::min_of(a.e as int, b.e as int) - 23
            <= crate::single::difference(a, b).e <= crate::signed::max_of(a.e as int, b.e as int)
            + 25,
{
    lemma_sizes(a, b);
    lemma_sizes(b, a);
    if b.m > 0 {
        lemma_two_to(b.e as int, a.e - b.e);
        lemma_bits(a.m as int, a.e - b.e);
        let u = crate::single::up(a.e - b.e);
        let n = a.m * u - b.m;
        lemma_real_product(a.m as int, u);
        let (x, y, t, ur) = (a.m as real, b.m as real, two_to(b.e as int), u as real);
        assert((x * ur - y) * t == x * (t * ur) - y * t) by (nonlinear_arith);
        let z = x * ur - y;
        assert(z * t > 0 as real <==> z > 0 as real) by (nonlinear_arith)
            requires
                t > 0 as real,
        ;
        assert(z * t == 0 as real <==> z == 0 as real) by (nonlinear_arith)
            requires
                t > 0 as real,
        ;
        assert(n as real == z);
        if n > 0 {
            lemma_integer_worth(n, 25 + a.e - b.e, b.e as int);
        } else {
            assert(n == 0);
            crate::single::law_nearest_unique(0, 1, crate::single::nought());
            let v = two_to(0);
            assert((0 as real) * v == 0 as real) by (nonlinear_arith);
        }
    }
}

/// The sum of two numbers is close to the sum of what they are worth.
pub proof fn law_sum_is_close(a: Signed, b: Signed)
    requires
        a.within(20_000),
        b.within(20_000),
    ensures
        is_close(a.sum(b).worth(), a.worth() + b.worth()),
        a.sum(b).size.wf(),
        a.sum(b).size.m == 0 ==> !a.sum(b).neg,
        a.sum(b).size.m > 0 ==> crate::signed::min_of(a.size.e as int, b.size.e as int) - 23 <= a.sum(
            b,
        ).size.e <= crate::signed::max_of(a.size.e as int, b.size.e as int) + 25,
{
    reveal(Signed::sum);
    lemma_sizes(a.size, b.size);
    lemma_sizes(b.size, a.size);
    if a.neg == b.neg {
        lemma_total_worth(a.size, b.size);
    } else if crate::single::below(a.size, b.size) {
        lemma_difference_worth(b.size, a.size);
    } else {
        lemma_difference_worth(a.size, b.size);
        let s = crate::single::difference(a.size, b.size);
        lemma_sizes(s, s);
    }
}

/// The difference of two numbers is close to the difference of what they are worth.
pub proof fn law_difference_is_close(a: Signed, b: Signed)
    requires
        a.within(20_000),
        b.within(20_000),
    ensures
        is_close(a.less_by(b).worth(), a.worth() - b.worth()),
        a.less_by(b).size.wf(),
        a.less_by(b).size.m == 0 ==> !a.less_by(b).neg,
        a.less_by(b).size.m > 0 ==> crate::signed::min_of(a.size.e as int, b.size.e as int) - 23
            <= a.less_by(b).size.e <= crate::signed::max_of(a.size.e as int, b.size.e as int) + 25,
{
    lemma_sizes(b.size, b.size);
    law_sum_is_close(a, b.negated());
}

/// The product of two numbers is close to the product of what they are worth.
pub proof fn law_product_is_close(a: Signed, b: Signed)
    requires
        a.within(500_000_000),
        b.within(500_000_000),
    ensures
        is_close(a.product(b).worth(), a.worth() * b.worth()),
        a.product(b).size.wf(),
        a.product(b).size.m == 0 ==> !a.product(b).neg,
        a.product(b).size.m > 0 ==> -100 <= a.product(b).size.e - a.size.e - b.size.e <= 100,
{
    reveal(Signed::product);
    lemma_product_worth(a.size, b.size);
    let s = crate::single::product(a.size, b.size);
    lemma_sizes(s, s);
    let (x, y) = (a.size.worth(), b.size.worth());
    assert((-x) * y == -(x * y) && x * (-y) == -(x * y) && (-x) * (-y) == x * y) by (nonlinear_arith);
    lemma_sizes(a.size, b.size);
    lemma_sizes(b.size, a.size);
    if s.m == 0 {
        assert(x * y == 0 as real) by (nonlinear_arith)
            requires
                x == 0 as real || y == 0 as real,
        ;
    }
}

/// The quotient of two numbers is close to the quotient of what they are worth.
pub proof fn law_quotient_is_close(a: Signed, b: Signed)
    requires
        a.within(500_000_000),
        b.within(500_000_000),
        b.size.m > 0,
    ensures
        is_close(a.quotient(b).worth(), a.worth() / b.worth()),
        a.quotient(b).size.wf(),
        a.quotient(b).size.m == 0 ==> !a.quotient(b).neg,
        a.quotient(b).size.m > 0 ==> -100 <= a.quotient(b).size.e - a.size.e + b.size.e <= 100,
{
    reveal(Signed::quotient);
    lemma_quotient_worth(a.size, b.size);
    let s = crate::single::quotient(a.size, b.size);
    lemma_sizes(s, s);
    lemma_sizes(a.size, b.size);
    lemma_sizes(b.size, a.size);
    let (x, y) = (a.size.worth(), b.size.worth());
    let z = x / y;
    lemma_divided(x, y);
    assert((-z) * y == -x && (-z) * (-y) == x && z * (-y) == -x) by (nonlinear_arith)
        requires
            z * y == x,
    ;
    lemma_divides(-z, y, -x);
    lemma_divides(-z, -y, x);
    lemma_divides(z, -y, -x);
    if s.m == 0 {
        assert((0 as real) * y == 0 as real) by (nonlinear_arith);
        lemma_divides(0 as real, y, 0 as real);
    }
}

/// A real number that single precision reaches easily: nothing, or from `2^-60` to `2^60`.
pub open spec fn is_plain(x: real) -> bool {
    x == 0 as real || (1 as real) <= extent(x) * (0x1000_0000_0000_0000 as real) && extent(x)
        <= 0x1000_0000_0000_0000 as real
}

/// A number that is worth something plain is far from the ends of the range.
pub proof fn lemma_plain(a: Signed)
    requires
        a.size.wf(),
        a.size.m == 0 ==> !a.neg,
        is_plain(a.worth()),
    ensures
        a.within(90),
        crate::held::fits(a),
        crate::held::held(a) == a,
{
    let e = a.size.e as int;
    lemma_sizes(a.size, a.size);
    vstd::arithmetic::power2::lemma2_to64();
    vstd::arithmetic::power2::lemma2_to64_rest();
    lemma_two_to(e, 0);
    if a.size.m > 0 {
        let (m, t) = (a.size.m as real, two_to(e));
        assert(m * t > 0 as real);
        assert(extent(a.worth()) == m * t);
        if e > 90 {
            lemma_two_to(60, e - 60);
            crate::single::lemma_up_pos(e - 60);
            let u = two_to(e - 60);
            assert(false) by (nonlinear_arith)
                requires
                    t == two_to(60) * u,
                    two_to(60) == 0x1000_0000_0000_0000 as real,
                    u >= 1 as real,
                    m >= 0x80_0000 as real,
                    m * t <= 0x1000_0000_0000_0000 as real,
            ;
        }
        if e < -90 {
            lemma_two_to(e, -e);
            lemma_two_to(60, -e - 60);
            lemma_two_to(30, -e - 90);
            crate::single::lemma_up_pos(-e - 90);
            let (u, v) = (two_to(-e), two_to(-e - 60));
            assert(v >= 0x4000_0000 as real) by (nonlinear_arith)
                requires
                    v == two_to(30) * two_to(-e - 90),
                    two_to(30) == 0x4000_0000 as real,
                    two_to(-e - 90) >= 1 as real,
            ;
            assert(false) by (nonlinear_arith)
                requires
                    t * u == 1 as real,
                    u == (0x1000_0000_0000_0000 as real) * v,
                    v >= 0x4000_0000 as real,
                    t > 0 as real,
                    m < 0x100_0000 as real,
                    (1 as real) <= (m * t) * (0x1000_0000_0000_0000 as real),
            ;
        }
    }
}

/// What is close to a number from a range lies in a range that is hardly wider.
pub proof fn lemma_close_range(x: real, y: real)
    requires
        is_close(x, y),
    ensures
        y >= 0 as real ==> y * (0xff_ffff as real) <= x * (0x100_0000 as real) <= y * (0x100_0001
            as real),
        y <= 0 as real ==> y * (0x100_0001 as real) <= x * (0x100_0000 as real) <= y * (0xff_ffff
            as real),
{
}

/// A real number well inside the range: nothing, or from `2^-50` to `2^50`.
pub open spec fn is_tame(x: real) -> bool {
    x == 0 as real || (1 as real) <= extent(x) * (0x4_0000_0000_0000 as real) && extent(x)
        <= 0x4_0000_0000_0000 as real
}

/// A number that is close to something tame lies well inside the range.
pub proof fn lemma_tame(a: Signed, y: real)
    requires
        a.size.wf(),
        a.size.m == 0 ==> !a.neg,
        is_tame(y),
        is_close(a.worth(), y),
    ensures
        a.within(90),
        crate::held::fits(a),
        crate::held::held(a) == a,
{
    lemma_close_range(a.worth(), y);
    lemma_plain(a);
}

/// A sum is close to the sum of what is added.
pub proof fn law_plus_is_close(a: Signed, b: Signed)
    requires
        crate::held::fits(a),
        crate::held::fits(b),
        is_tame(a.worth() + b.worth()),
    ensures
        is_close(crate::held::plus(a, b).worth(), a.worth() + b.worth()),
        crate::held::plus(a, b).within(90),
{
    reveal(crate::held::plus);
    law_sum_is_close(a, b);
    lemma_tame(a.sum(b), a.worth() + b.worth());
}

/// A difference is close to what is left.
pub proof fn law_minus_is_close(a: Signed, b: Signed)
    requires
        crate::held::fits(a),
        crate::held::fits(b),
        is_tame(a.worth() - b.worth()),
    ensures
        is_close(crate::held::minus(a, b).worth(), a.worth() - b.worth()),
        crate::held::minus(a, b).within(90),
{
    reveal(crate::held::minus);
    law_difference_is_close(a, b);
    lemma_tame(a.less_by(b), a.worth() - b.worth());
}

/// A product is close to the product of what is multiplied.
pub proof fn law_times_is_close(a: Signed, b: Signed)
    requires
        crate::held::fits(a),
        crate::held::fits(b),
        is_tame(a.worth() * b.worth()),
    ensures
        is_close(crate::held::times(a, b).worth(), a.worth() * b.worth()),
        crate::held::times(a, b).within(90),
{
    reveal(crate::held::times);
    law_product_is_close(a, b);
    lemma_tame(a.product(b), a.worth() * b.worth());
}

/// A quotient is close to the quotient of what is divided.
pub proof fn law_over_is_close(a: Signed, b: Signed)
    requires
        crate::held::fits(a),
        crate::held::fits(b),
        b.size.m > 0,
        is_tame(a.worth() / b.worth()),
    ensures
        is_close(crate::held::over(a, b).worth(), a.worth() / b.worth()),
        crate::held::over(a, b).within(90),
{
    reveal(crate::held::over);
    law_quotient_is_close(a, b);
    lemma_tame(a.quotient(b), a.worth() / b.worth());
}

/// The nearest integer is at most half away.
pub proof fn law_round_is_near(s: Single)
    requires
        s.wf(),
    ensures
        crate::single::round(s) >= 0,
        (2 * crate::single::round(s) - 1) as real <= s.worth() * (2 as real) < (2
            * crate::single::round(s) + 1) as real,
{
    let e = s.e as int;
    let n = crate::single::round(s);
    let m = s.m as real;
    lemma_two_to(e, 0);
    if e >= 0 {
        let u = crate::single::up(e);
        crate::single::lemma_up_pos(e);
        lemma_real_product(s.m as int, u);
        assert(s.m * u >= 0) by (nonlinear_arith)
            requires
                u >= 1,
        ;
        assert(n as real == s.worth());
    } else {
        let p = crate::single::up(-e);
        crate::single::lemma_up_pos(-e);
        let a = 2 * s.m + p;
        let d = 2 * p;
        vstd::arithmetic::div_mod::lemma_fundamental_div_mod(a, d);
        vstd::arithmetic::div_mod::lemma_mod_bound(a, d);
        assert(n >= 0) by (nonlinear_arith)
            requires
                a == d * n + a % d,
                0 <= a % d < d,
                a >= 0,
                d > 0,
        ;
        assert(n * p * 2 <= 2 * s.m + p && 2 * s.m < n * p * 2 + p) by (nonlinear_arith)
            requires
                a == 2 * s.m + p,
                d == 2 * p,
                a == d * n + a % d,
                0 <= a % d < d,
        ;
        lemma_real_product(n, p);
        let (nr, pr, t) = (n as real, p as real, two_to(e));
        let x = s.worth();
        lemma_divided(1 as real, pr);
        assert(x * pr == m) by (nonlinear_arith)
            requires
                x == m * t,
                t * pr == 1 as real,
        ;
        assert((nr * pr) * (2 as real) <= (2 as real) * m + pr);
        assert((2 as real) * m < (nr * pr) * (2 as real) + pr);
        assert((2 as real) * nr - (1 as real) <= x * (2 as real)) by (nonlinear_arith)
            requires
                pr > 0 as real,
                x * pr == m,
                (nr * pr) * (2 as real) <= (2 as real) * m + pr,
        ;
        assert(x * (2 as real) < (2 as real) * nr + (1 as real)) by (nonlinear_arith)
            requires
                pr > 0 as real,
                x * pr == m,
                (2 as real) * m < (nr * pr) * (2 as real) + pr,
        ;
    }
}

/// A real number is another, but for `n` parts in `2^24`.
pub open spec fn is_near(x: real, y: real, n: int) -> bool {
    extent(x - y) * (0x100_0000 as real) <= (n as real) * extent(y)
}

/// What is close is near.
pub proof fn lemma_near(x: real, y: real)
    requires
        is_close(x, y),
    ensures
        is_near(x, y, 1),
{
    let e = extent(y);
    assert((1int as real) * e == e) by (nonlinear_arith);
}

/// The range that nearness leaves, for numbers that are not negative.
pub proof fn lemma_near_range(x: real, y: real, n: int)
    requires
        is_near(x, y, n),
        y >= 0 as real,
        0 <= n <= 1000,
    ensures
        y * (0x100_0000 as real) - y * (n as real) <= x * (0x100_0000 as real) <= y * (0x100_0000
            as real) + y * (n as real),
        x >= 0 as real,
        y > 0 as real ==> x > 0 as real,
{
    let r = n as real;
    assert(r * y == y * r) by (nonlinear_arith);
    assert(y * r <= y * (1000 as real)) by (nonlinear_arith)
        requires
            y >= 0 as real,
            r <= 1000 as real,
    ;
}

/// Nearness from a range, for numbers that are not negative.
pub proof fn lemma_range_near(x: real, y: real, n: int)
    requires
        y >= 0 as real,
        0 <= n,
        y * (0x100_0000 as real) - y * (n as real) <= x * (0x100_0000 as real) <= y * (0x100_0000
            as real) + y * (n as real),
    ensures
        is_near(x, y, n),
{
    let r = n as real;
    assert(r * y == y * r) by (nonlinear_arith);
}

/// Nearness adds up along a chain.
pub proof fn lemma_near_chain(x: real, y: real, z: real, m: int, n: int)
    requires
        is_near(x, y, m),
        is_near(y, z, n),
        z >= 0 as real,
        0 <= m <= 1000,
        0 <= n <= 1000,
    ensures
        is_near(x, z, m + n + 1),
        x >= 0 as real,
        y >= 0 as real,
{
    lemma_near_range(y, z, n);
    lemma_near_range(x, y, m);
    let (mr, nr) = (m as real, n as real);
    let q = 0x100_0000 as real;
    // The error of `y` is at most `z`, so that of `x` grows by one part at most.
    let (zn, zm, ym) = (z * nr, z * mr, y * mr);
    assert(zn <= z * (1000 as real)) by (nonlinear_arith)
        requires
            zn == z * nr,
            nr <= 1000 as real,
            z >= 0 as real,
    ;
    assert(ym * q <= zm * q + zn * (1000 as real)) by (nonlinear_arith)
        requires
            ym == y * mr,
            zm == z * mr,
            zn == z * nr,
            y * q <= z * q + zn,
            0 as real <= mr <= 1000 as real,
            zn >= 0 as real,
    ;
    assert(zn * (1000 as real) <= z * (1000000 as real));
    assert(ym <= zm + z);
    assert(z * (mr + nr + (1 as real)) == zm + zn + z) by (nonlinear_arith)
        requires
            zm == z * mr,
            zn == z * nr,
    ;
    assert((m + n + 1) as real == mr + nr + (1 as real));
    lemma_range_near(x, z, m + n + 1);
}

/// Products of what is near are near.
pub proof fn lemma_near_product(x: real, a: real, y: real, b: real, m: int, n: int)
    requires
        is_near(x, a, m),
        is_near(y, b, n),
        a >= 0 as real,
        b >= 0 as real,
        0 <= m <= 1000,
        0 <= n <= 1000,
    ensures
        is_near(x * y, a * b, m + n + 1),
        x * y >= 0 as real,
        a * b >= 0 as real,
{
    lemma_near_range(x, a, m);
    lemma_near_range(y, b, n);
    lemma_near_times(x, a, y, m);
    assert(a * y == y * a && a * b == b * a) by (nonlinear_arith);
    lemma_near_times(y, b, a, n);
    assert(a * b >= 0 as real) by (nonlinear_arith)
        requires
            a >= 0 as real,
            b >= 0 as real,
    ;
    lemma_near_chain(x * y, a * y, a * b, m, n);
}

/// What is near stays near when both are multiplied by a number that is not negative.
pub proof fn lemma_near_times(x: real, y: real, k: real, n: int)
    requires
        is_near(x, y, n),
        k >= 0 as real,
    ensures
        is_near(x * k, y * k, n),
{
    lemma_extent(x - y, k);
    lemma_extent(y, k);
    let (d, e, r) = (extent(x - y), extent(y), n as real);
    assert((x - y) * k == x * k - y * k) by (nonlinear_arith);
    assert((d * k) * (0x100_0000 as real) <= r * (e * k)) by (nonlinear_arith)
        requires
            d * (0x100_0000 as real) <= r * e,
            k >= 0 as real,
    ;
}

/// Quotients of what is near are near.
pub proof fn lemma_near_quotient(x: real, a: real, y: real, b: real, m: int, n: int)
    requires
        is_near(x, a, m),
        is_near(y, b, n),
        a >= 0 as real,
        b > 0 as real,
        0 <= m <= 400,
        0 <= n <= 400,
    ensures
        y > 0 as real,
        is_near(x / y, a / b, m + n + 3),
        x / y >= 0 as real,
        a / b >= 0 as real,
{
    lemma_near_range(x, a, m);
    lemma_near_range(y, b, n);
    let (q, p) = (x / y, a / b);
    lemma_divided(x, y);
    lemma_divided(a, b);
    assert(q >= 0 as real) by (nonlinear_arith)
        requires
            q * y == x,
            y > 0 as real,
            x >= 0 as real,
    ;
    assert(p >= 0 as real) by (nonlinear_arith)
        requires
            p * b == a,
            b > 0 as real,
            a >= 0 as real,
    ;
    // `q * b` is near `a`.
    lemma_near_back(y, b, n);
    lemma_near_times(b, y, q, n + 1);
    assert(b * q == q * b && y * q == q * y) by (nonlinear_arith);
    lemma_near_chain(q * b, x, a, n + 1, m);
    let r = (m + n + 2) as real;
    let d = extent(q - p);
    assert((q - p) * b == q * b - a) by (nonlinear_arith)
        requires
            p * b == a,
    ;
    lemma_extent(q - p, b);
    assert(d * (0x100_0000 as real) <= r * p) by (nonlinear_arith)
        requires
            (d * b) * (0x100_0000 as real) <= r * a,
            p * b == a,
            b > 0 as real,
    ;
    assert(r * p <= (r + (1 as real)) * p) by (nonlinear_arith)
        requires
            p >= 0 as real,
    ;
    assert((m + n + 3) as real == r + (1 as real));
}

/// Nearness goes both ways, but for a part.
pub proof fn lemma_near_back(x: real, y: real, n: int)
    requires
        is_near(x, y, n),
        y >= 0 as real,
        0 <= n <= 1000,
    ensures
        is_near(y, x, n + 1),
{
    lemma_near_range(x, y, n);
    let (r, q) = (n as real, 0x100_0000 as real);
    let (xr, yr) = (x * r, y * r);
    assert(yr <= y * (1000 as real)) by (nonlinear_arith)
        requires
            yr == y * r,
            r <= 1000 as real,
            y >= 0 as real,
    ;
    assert(yr * q <= xr * q + yr * (1000 as real)) by (nonlinear_arith)
        requires
            xr == x * r,
            yr == y * r,
            y * q - yr <= x * q,
            0 as real <= r <= 1000 as real,
            yr >= 0 as real,
    ;
    assert(x * (r + (1 as real)) == xr + x) by (nonlinear_arith)
        requires
            xr == x * r,
    ;
    assert((n + 1) as real == r + (1 as real));
    lemma_range_near(y, x, n + 1);
}

/// Sums of what is near are near.
pub proof fn lemma_near_sum(x: real, a: real, y: real, b: real, n: int)
    requires
        is_near(x, a, n),
        is_near(y, b, n),
        a >= 0 as real,
        b >= 0 as real,
        0 <= n <= 1000,
    ensures
        is_near(x + y, a + b, n),
{
    lemma_near_range(x, a, n);
    lemma_near_range(y, b, n);
    let r = n as real;
    assert((a + b) * r == a * r + b * r) by (nonlinear_arith);
    lemma_range_near(x + y, a + b, n);
}

/// What is near within fewer parts is near within more.
pub proof fn lemma_near_wider(x: real, y: real, m: int, n: int)
    requires
        is_near(x, y, m),
        m <= n,
    ensures
        is_near(x, y, n),
{
    let (a, b, e) = (m as real, n as real, extent(y));
    assert(a * e <= b * e) by (nonlinear_arith)
        requires
            a <= b,
            e >= 0 as real,
    ;
}

/// A real number is another, but for a part in `2^24` of it and of one.
pub open spec fn is_off(x: real, y: real) -> bool {
    extent(x - y) * (0x100_0000 as real) <= extent(y) + (1 as real)
}

/// A real number that is not too large.
pub open spec fn is_small(x: real) -> bool {
    extent(x) <= 0x100_0000_0000 as real
}

/// A small number is hardly changed by what the range leaves of it.
pub proof fn lemma_held_off(a: Signed, y: real)
    requires
        a.size.wf(),
        a.size.m == 0 ==> !a.neg,
        is_small(y),
        is_close(a.worth(), y),
    ensures
        is_off(crate::held::held(a).worth(), y),
        crate::held::fits(crate::held::held(a)),
{
    lemma_close_range(a.worth(), y);
    law_integer_is_exact(0);
    law_order_is_by_worth(a, a);
    if is_plain(a.worth()) {
        lemma_plain(a);
    } else {
        assert(extent(a.worth()) * (0x1000_0000_0000_0000 as real) < 1 as real);
        if a.size.e > 1000 {
            let b = Signed::part(1, 1);
            law_integer_is_exact(1);
            lemma_sizes(b.size, a.size);
        }
    }
}

/// A sum is that of what is added, but for rounding.
pub proof fn law_plus_is_off(a: Signed, b: Signed)
    requires
        crate::held::fits(a),
        crate::held::fits(b),
        is_small(a.worth() + b.worth()),
    ensures
        is_off(crate::held::plus(a, b).worth(), a.worth() + b.worth()),
        crate::held::fits(crate::held::plus(a, b)),
{
    reveal(crate::held::plus);
    law_sum_is_close(a, b);
    lemma_held_off(a.sum(b), a.worth() + b.worth());
}

/// A difference is what is left, but for rounding.
pub proof fn law_minus_is_off(a: Signed, b: Signed)
    requires
        crate::held::fits(a),
        crate::held::fits(b),
        is_small(a.worth() - b.worth()),
    ensures
        is_off(crate::held::minus(a, b).worth(), a.worth() - b.worth()),
        crate::held::fits(crate::held::minus(a, b)),
{
    reveal(crate::held::minus);
    law_difference_is_close(a, b);
    lemma_held_off(a.less_by(b), a.worth() - b.worth());
}

/// A product is that of what is multiplied, but for rounding.
pub proof fn law_times_is_off(a: Signed, b: Signed)
    requires
        crate::held::fits(a),
        crate::held::fits(b),
        is_small(a.worth() * b.worth()),
    ensures
        is_off(crate::held::times(a, b).worth(), a.worth() * b.worth()),
        crate::held::fits(crate::held::times(a, b)),
{
    reveal(crate::held::times);
    law_product_is_close(a, b);
    lemma_held_off(a.product(b), a.worth() * b.worth());
}

/// A quotient is that of what is divided, but for rounding.
pub proof fn law_over_is_off(a: Signed, b: Signed)
    requires
        crate::held::fits(a),
        crate::held::fits(b),
        b.size.m > 0,
        is_small(a.worth() / b.worth()),
    ensures
        is_off(crate::held::over(a, b).worth(), a.worth() / b.worth()),
        crate::held::fits(crate::held::over(a, b)),
{
    reveal(crate::held::over);
    law_quotient_is_close(a, b);
    lemma_held_off(a.quotient(b), a.worth() / b.worth());
}

/// A byte as a part of 255.
pub proof fn lemma_tone(b: int)
    requires
        0 <= b <= 255,
    ensures
        ({
            let v = crate::held::over(Signed::part(b, 1), Signed::part(255, 1));
            &&& is_off(v.worth(), (b as real) / (255 as real))
            &&& crate::held::fits(v)
        }),
{
    law_integer_is_exact(b);
    law_integer_is_exact(255);
    law_order_is_by_worth(Signed::part(255, 1), Signed::part(255, 1));
    law_over_is_off(Signed::part(b, 1), Signed::part(255, 1));
}

/// The integer part is at most one below.
pub proof fn law_floor_is_near(s: Single)
    requires
        s.wf(),
    ensures
        crate::single::floor(s) >= 0,
        crate::single::floor(s) as real <= s.worth() < (crate::single::floor(s) + 1) as real,
{
    let e = s.e as int;
    let n = crate::single::floor(s);
    let m = s.m as real;
    lemma_two_to(e, 0);
    if e >= 0 {
        let u = crate::single::up(e);
        crate::single::lemma_up_pos(e);
        lemma_real_product(s.m as int, u);
        assert(s.m * u >= 0) by (nonlinear_arith)
            requires
                u >= 1,
        ;
        assert(n as real == s.worth());
    } else {
        let p = crate::single::up(-e);
        crate::single::lemma_up_pos(-e);
        let a = s.m as int;
        vstd::arithmetic::div_mod::lemma_fundamental_div_mod(a, p);
        vstd::arithmetic::div_mod::lemma_mod_bound(a, p);
        assert(n >= 0) by (nonlinear_arith)
            requires
                a == p * n + a % p,
                0 <= a % p < p,
                a >= 0,
                p > 0,
        ;
        assert(n * p <= a < n * p + p) by (nonlinear_arith)
            requires
                a == p * n + a % p,
                0 <= a % p < p,
        ;
        lemma_real_product(n, p);
        let (nr, pr, t) = (n as real, p as real, two_to(e));
        let x = s.worth();
        lemma_divided(1 as real, pr);
        assert(x * pr == m) by (nonlinear_arith)
            requires
                x == m * t,
                t * pr == 1 as real,
        ;
        assert(nr <= x) by (nonlinear_arith)
            requires
                pr > 0 as real,
                x * pr == m,
                nr * pr <= m,
        ;
        assert(x < nr + (1 as real)) by (nonlinear_arith)
            requires
                pr > 0 as real,
                x * pr == m,
                m < nr * pr + pr,
        ;
    }
}

/// A number is a real one, but for `a` parts in `2^24` of one.
pub open spec fn is_about(s: Signed, x: real, a: real) -> bool {
    crate::held::fits(s) && extent(s.worth() - x) * (0x100_0000 as real) <= a
}

/// A ratio of integers.
pub proof fn lemma_about_part(num: int, den: int)
    requires
        0 <= num <= 1_000_000,
        0 < den <= 1_000_000,
        num <= 1000 * den,
    ensures
        is_about(Signed::part(num, den), (num as real) / (den as real), 1000 as real),
        num <= den ==> is_about(Signed::part(num, den), (num as real) / (den as real), 1 as real),
        (num as real) / (den as real) >= 0 as real,
        num <= den ==> (num as real) / (den as real) <= 1 as real,
{
    law_part_is_close(num, den);
    let (n, d) = (num as real, den as real);
    let q = n / d;
    lemma_divided(n, d);
    assert(0 as real <= q <= 1000 as real) by (nonlinear_arith)
        requires
            q * d == n,
            d > 0 as real,
            0 as real <= n <= (1000 as real) * d,
    ;
    if num <= den {
        assert(q <= 1 as real) by (nonlinear_arith)
            requires
                q * d == n,
                d > 0 as real,
                n <= d,
        ;
    }
}

/// An integer.
pub proof fn lemma_about_integer(n: int)
    requires
        0 <= n < 0x100_0000,
    ensures
        is_about(Signed::part(n, 1), n as real, 0 as real),
{
    law_integer_is_exact(n);
}

/// A sum.
pub proof fn lemma_about_plus(s: Signed, t: Signed, x: real, y: real, a: real, b: real)
    requires
        is_about(s, x, a),
        is_about(t, y, b),
        extent(x + y) <= 1_000_000 as real,
        0 as real <= a <= 1_000_000 as real,
        0 as real <= b <= 1_000_000 as real,
    ensures
        is_about(crate::held::plus(s, t), x + y, a + b + extent(x + y) + (2 as real)),
{
    law_plus_is_off(s, t);
}

/// A difference.
pub proof fn lemma_about_minus(s: Signed, t: Signed, x: real, y: real, a: real, b: real)
    requires
        is_about(s, x, a),
        is_about(t, y, b),
        extent(x - y) <= 1_000_000 as real,
        0 as real <= a <= 1_000_000 as real,
        0 as real <= b <= 1_000_000 as real,
    ensures
        is_about(crate::held::minus(s, t), x - y, a + b + extent(x - y) + (2 as real)),
{
    law_minus_is_off(s, t);
}

/// A product: `u` and `v` bound what is multiplied.
pub proof fn lemma_about_times(
    s: Signed,
    t: Signed,
    x: real,
    y: real,
    a: real,
    b: real,
    u: real,
    v: real,
)
    requires
        is_about(s, x, a),
        is_about(t, y, b),
        extent(x) <= u <= 10_000 as real,
        extent(y) <= v <= 10_000 as real,
        0 as real <= a <= 10_000 as real,
        0 as real <= b <= 10_000 as real,
    ensures
        is_about(
            crate::held::times(s, t),
            x * y,
            a * v + u * b + u * v + (30 as real),
        ),
        extent(x * y) <= u * v,
{
    let q = 0x100_0000 as real;
    let (c, d) = (s.worth() - x, t.worth() - y);
    lemma_extent(c, y);
    lemma_extent(x, d);
    lemma_extent(c, d);
    lemma_extent(x, y);
    let p = s.worth() * t.worth();
    let (cy, xd, cd, xy) = (c * y, x * d, c * d, x * y);
    assert(p == xy + cy + xd + cd) by (nonlinear_arith)
        requires
            p == (x + c) * (y + d),
            cy == c * y,
            xd == x * d,
            cd == c * d,
            xy == x * y,
    ;
    let (ec, ed, ex, ey) = (extent(c), extent(d), extent(x), extent(y));
    assert(ec * ey * q <= a * v) by (nonlinear_arith)
        requires
            ec * q <= a,
            0 as real <= ey <= v,
            0 as real <= ec,
            0 as real <= a,
    ;
    assert(ex * ed * q <= u * b) by (nonlinear_arith)
        requires
            ed * q <= b,
            0 as real <= ex <= u,
            0 as real <= ed,
            0 as real <= b,
    ;
    assert(ec * ed * q <= 10 as real) by (nonlinear_arith)
        requires
            ec * q <= 10_000 as real,
            ed * q <= 10_000 as real,
            0 as real <= ec,
            0 as real <= ed,
            q == 0x100_0000 as real,
    ;
    assert(ex * ey <= u * v) by (nonlinear_arith)
        requires
            0 as real <= ex <= u,
            0 as real <= ey <= v,
    ;
    assert(u * v <= 100_000_000 as real) by (nonlinear_arith)
        requires
            0 as real <= u <= 10_000 as real,
            0 as real <= v <= 10_000 as real,
    ;
    assert(a * v <= 100_000_000 as real) by (nonlinear_arith)
        requires
            0 as real <= a <= 10_000 as real,
            0 as real <= v <= 10_000 as real,
    ;
    assert(u * b <= 100_000_000 as real) by (nonlinear_arith)
        requires
            0 as real <= b <= 10_000 as real,
            0 as real <= u <= 10_000 as real,
    ;
    assert(extent(cy) == ec * ey && extent(xd) == ex * ed && extent(cd) == ec * ed);
    law_times_is_off(s, t);
}

/// An integer, of either sign.
pub proof fn lemma_about_signed_integer(n: int)
    requires
        -0x100_0000 < n < 0x100_0000,
    ensures
        is_about(Signed::integer(n), n as real, 0 as real),
        Signed::integer(n).worth() == n as real,
{
    if n < 0 {
        law_integer_is_exact(-n);
        law_order_is_by_worth(Signed::part(-n, 1), Signed::part(-n, 1));
    } else {
        law_integer_is_exact(n);
    }
}

/// A product with a number of at most 2: `u` bounds what is multiplied.
pub proof fn lemma_about_scaled(s: Signed, t: Signed, x: real, a: real, u: real, v: real)
    requires
        is_about(s, x, a),
        crate::held::fits(t),
        extent(x) <= u <= 100_000 as real,
        extent(t.worth()) <= v <= 3 as real,
        0 as real <= a <= 1_000_000 as real,
    ensures
        is_about(crate::held::times(s, t), x * t.worth(), a * v + u * v + (5 as real)),
        extent(x * t.worth()) <= u * v,
{
    let q = 0x100_0000 as real;
    let (c, y) = (s.worth() - x, t.worth());
    lemma_extent(c, y);
    lemma_extent(x, y);
    let (ec, ex, ey) = (extent(c), extent(x), extent(y));
    let p = s.worth() * y;
    assert(p - x * y == c * y) by (nonlinear_arith)
        requires
            p == (x + c) * y,
    ;
    assert(ec * ey * q <= a * v) by (nonlinear_arith)
        requires
            ec * q <= a,
            0 as real <= ey <= v,
            0 as real <= ec,
            0 as real <= a,
    ;
    assert(ex * ey <= u * v) by (nonlinear_arith)
        requires
            0 as real <= ex <= u,
            0 as real <= ey <= v,
    ;
    assert(a * v <= 3_000_000 as real && u * v <= 300_000 as real) by (nonlinear_arith)
        requires
            0 as real <= a <= 1_000_000 as real,
            0 as real <= u <= 100_000 as real,
            0 as real <= v <= 3 as real,
    ;
    law_times_is_off(s, t);
}

/// A quotient by an integer.
pub proof fn lemma_about_over(s: Signed, n: int, x: real, a: real)
    requires
        is_about(s, x, a),
        0 < n < 0x100_0000,
        0 as real <= a <= 1_000_000 as real,
        extent(x) <= 1_000_000 as real,
    ensures
        extent(crate::held::over(s, Signed::part(n, 1)).worth() * (n as real) - x) * (0x100_0000
            as real) <= a + extent(x) + (n as real) + (1 as real),
        crate::held::fits(crate::held::over(s, Signed::part(n, 1))),
        extent(crate::held::over(s, Signed::part(n, 1)).worth()) <= extent(x) + (2 as real),
{
    let d = Signed::part(n, 1);
    let m = n as real;
    law_integer_is_exact(n);
    law_order_is_by_worth(d, d);
    let y = s.worth();
    let z = y / m;
    lemma_divided(y, m);
    assert(extent(z) <= extent(y)) by {
        lemma_extent(z, m);
        let (ez, ey) = (extent(z), extent(y));
        assert(ez <= ey) by (nonlinear_arith)
            requires
                ez * m == ey,
                m >= 1 as real,
                ez >= 0 as real,
        ;
    }
    law_over_is_off(s, d);
    let w = crate::held::over(s, d).worth();
    let e = w - z;
    lemma_extent(e, m);
    assert(e * m == w * m - y) by (nonlinear_arith)
        requires
            e == w - z,
            z * m == y,
    ;
    lemma_extent(z, m);
    let (ee, ez) = (extent(e), extent(z));
    assert((ee * m) * (0x100_0000 as real) <= ez * m + m) by (nonlinear_arith)
        requires
            ee * (0x100_0000 as real) <= ez + (1 as real),
            m > 0 as real,
    ;
}

/// What the range of single precision leaves of a number of modest size.
pub proof fn lemma_settled(a: Signed)
    requires
        crate::held::fits(a),
        extent(a.worth()) <= 0x1000_0000 as real,
    ensures
        crate::measure::settled(a).wf(),
        extent(crate::measure::settled(a).worth() - a.worth()) * (0x1000_0000_0000_0000 as real)
            <= 1 as real,
{
    law_integer_is_exact(0);
    law_order_is_by_worth(a, a);
    if is_plain(a.worth()) {
        lemma_plain(a);
    } else {
        assert(extent(a.worth()) * (0x1000_0000_0000_0000 as real) < 1 as real);
        if a.size.e > 200 {
            let b = Signed::part(1, 1);
            law_integer_is_exact(1);
            lemma_sizes(b.size, a.size);
        }
    }
}

} // verus!
