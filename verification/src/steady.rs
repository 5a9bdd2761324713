//! Means over maps that are the same everywhere.

use vstd::prelude::*;

use crate::double::Double;
use crate::signed::Signed;

verus! {

/// Every number is the same.
pub open spec fn is_even(d: Seq<Signed>, v: Signed) -> bool {
    forall|i: int| 0 <= i < d.len() ==> #[trigger] d[i] == v
}

/// Nothing, in double precision.
spec fn nothing() -> Double {
    Double { m: 0, e: 0 }
}

/// A count, in double precision.
spec fn count(k: int) -> Double {
    crate::double::of_int(k)
}

proof fn lemma_zero()
    ensures
        Signed::part(0, 1).size == crate::single::nought(),
        crate::double::of_single(Signed::part(0, 1)) == nothing(),
{
    reveal(crate::double::nearest);
    assert(crate::single::is_nearest(0, 1, crate::single::nought()));
    crate::single::law_nearest_unique(0, 1, crate::single::nought());
}

proof fn lemma_zero_first(line: Seq<Signed>, k: int)
    requires
        is_even(line, Signed::part(0, 1)),
        k <= line.len(),
    ensures
        crate::field::first_sum(line, k) == nothing(),
    decreases k,
{
    if k > 0 {
        lemma_zero_first(line, k - 1);
        lemma_zero();
        assert(line[k - 1] == Signed::part(0, 1));
    }
}

proof fn lemma_zero_row(line: Seq<Signed>, r: int, x: int)
    requires
        is_even(line, Signed::part(0, 1)),
        0 <= x < line.len(),
        r >= 0,
    ensures
        crate::field::row_sum(line, r, x) == nothing(),
    decreases x,
{
    if x <= 0 {
        lemma_zero_first(line, crate::signed::min_of(r + 1, line.len() as int));
    } else {
        lemma_zero_row(line, r, x - 1);
        lemma_zero();
        assert(x + r < line.len() ==> line[x + r] == Signed::part(0, 1));
        assert(x > r ==> line[x - r - 1] == Signed::part(0, 1));
    }
}

proof fn lemma_zero_column(line: Seq<Signed>, r: int, y: int)
    requires
        is_even(line, Signed::part(0, 1)),
        0 <= y < line.len(),
        r >= 0,
    ensures
        crate::field::column_sum(line, r, y) == nothing(),
    decreases y,
{
    if y <= 0 {
        lemma_zero_first(line, crate::signed::min_of(r + 1, line.len() as int));
    } else {
        lemma_zero_column(line, r, y - 1);
        lemma_zero();
        assert(y + r < line.len() ==> line[y + r] == Signed::part(0, 1));
        assert(y > r ==> line[y - r - 1] == Signed::part(0, 1));
    }
}

proof fn lemma_zero_mean(n: int)
    ensures
        crate::field::mean(nothing(), n) == Signed::part(0, 1),
{
    reveal(crate::double::nearest);
    lemma_zero();
    let q = crate::double::quotient(crate::double::of_int(1), crate::double::of_int(n));
    assert(0 * q.m == 0);
}

/// A number with `k` zeros behind it has `k` bits more.
proof fn lemma_bits_shift(n: int, k: int)
    requires
        n > 0,
        k >= 0,
    ensures
        crate::double::bits(n * crate::single::up(k)) == crate::double::bits(n) + k,
    decreases k,
{
    if k == 0 {
        assert(n * crate::single::up(0) == n);
    } else {
        lemma_bits_shift(n, k - 1);
        crate::single::lemma_up_step(k - 1);
        let m = n * crate::single::up(k - 1);
        let t = n * crate::single::up(k);
        assert(t == 2 * m && m > 0) by (nonlinear_arith)
            requires
                t == n * crate::single::up(k),
                m == n * crate::single::up(k - 1),
                crate::single::up(k) == 2 * crate::single::up(k - 1),
                crate::single::up(k - 1) >= 1,
                n > 0,
        ;
        assert(t / 2 == m);
    }
}

/// Zeros behind a number of at most 53 bits change nothing but the exponent.
proof fn lemma_scale(n: int, k: int, e: int)
    requires
        0 < n,
        crate::double::bits(n) <= 53,
        k >= 0,
    ensures
        crate::double::nearest(n * crate::single::up(k), e) == crate::double::nearest(n, e + k),
{
    reveal(crate::double::nearest);
    let b = crate::double::bits(n);
    let t = n * crate::single::up(k);
    lemma_bits_shift(n, k);
    crate::single::lemma_up_pos(k);
    assert(t > 0) by (nonlinear_arith)
        requires
            t == n * crate::single::up(k),
            n > 0,
            crate::single::up(k) >= 1,
    ;
    let j = b + k - 53;
    let full = n * crate::single::up(53 - b);
    if j <= 0 {
        crate::single::lemma_up_add(k, -j);
        assert(t * crate::single::up(-j) == full) by (nonlinear_arith)
            requires
                t == n * crate::single::up(k),
                full == n * crate::single::up(53 - b),
                crate::single::up(53 - b) == crate::single::up(k) * crate::single::up(-j),
        ;
    } else {
        let d = crate::single::up(j);
        crate::single::lemma_up_pos(j);
        crate::single::lemma_up_add(53 - b, j);
        assert(t == full * d) by (nonlinear_arith)
            requires
                t == n * crate::single::up(k),
                full == n * crate::single::up(53 - b),
                crate::single::up(k) == crate::single::up(53 - b) * d,
        ;
        vstd::arithmetic::div_mod::lemma_fundamental_div_mod_converse(t, d, full, 0);
        lemma_bits_shift(n, 53 - b);
        crate::double::lemma_bits(full);
        vstd::arithmetic::power2::lemma2_to64();
        vstd::arithmetic::power2::lemma2_to64_rest();
        assert(full < crate::double::PAST);
    }
}

/// What a count is made of.
proof fn lemma_count(k: int)
    requires
        1 <= k < 0x2_0000_0000,
    ensures
        crate::double::bits(k) <= 33,
        crate::double::bits(k) >= 1,
        count(k).m == k * crate::single::up(53 - crate::double::bits(k)),
        count(k).e == crate::double::bits(k) - 53,
        crate::double::LEAST <= count(k).m < crate::double::PAST,
{
    reveal(crate::double::nearest);
    vstd::arithmetic::power2::lemma2_to64();
    vstd::arithmetic::power2::lemma2_to64_rest();
    crate::double::lemma_bits(k);
    let b = crate::double::bits(k);
    if b > 33 {
        vstd::arithmetic::power2::lemma_pow2_strictly_increases(32, (b - 1) as nat);
        if b - 1 > 33 {
            vstd::arithmetic::power2::lemma_pow2_strictly_increases(33, (b - 1) as nat);
        }
    }
    let m = k * crate::single::up(53 - b);
    lemma_bits_shift(k, 53 - b);
    crate::single::lemma_up_pos(53 - b);
    assert(m > 0) by (nonlinear_arith)
        requires
            m == k * crate::single::up(53 - b),
            k > 0,
            crate::single::up(53 - b) >= 1,
    ;
    crate::double::lemma_bits(m);
}

/// Counting on by one, and back.
proof fn lemma_step(k: int)
    requires
        1 <= k < 0x1_FFFF_FFFF,
    ensures
        crate::double::sum(count(k), count(1)) == count(k + 1),
        crate::double::sum(count(k + 1), crate::double::minus(count(1))) == count(k),
{
    vstd::arithmetic::power2::lemma2_to64();
    vstd::arithmetic::power2::lemma2_to64_rest();
    lemma_count(1);
    lemma_count(k);
    lemma_count(k + 1);
    assert(crate::double::bits(1) == 1) by {
        reveal_with_fuel(crate::double::bits, 2);
    }
    let u = crate::single::up(52);
    assert(count(1).m == u && count(1).e == -52);
    lemma_spread(k);
    lemma_spread(k + 1);
    assert((k + 1) * u == k * u + u) by (nonlinear_arith);
    lemma_scale(k + 1, 52, -52);
    lemma_scale(k, 52, -52);
}

/// A count in units of `2^-52`.
proof fn lemma_spread(k: int)
    requires
        1 <= k < 0x2_0000_0000,
    ensures
        count(k).e >= -52,
        count(k).m * crate::single::up(count(k).e + 52) == k * crate::single::up(52),
        count(k).e + 52 <= 32,
{
    lemma_count(k);
    let b = crate::double::bits(k);
    crate::single::lemma_up_add(53 - b, b - 1);
    let p = crate::single::up(53 - b);
    let q = crate::single::up(b - 1);
    assert((k * p) * q == k * (p * q)) by (nonlinear_arith);
}

proof fn lemma_one()
    ensures
        crate::double::of_single(Signed::part(1, 1)) == count(1),
        Signed::part(1, 1).size == crate::single::one(),
{
    vstd::arithmetic::power2::lemma2_to64();
    crate::single::lemma_one();
    assert(crate::double::bits(1) == 1) by {
        reveal_with_fuel(crate::double::bits, 2);
    }
    lemma_scale(1, 23, -23);
    assert(1 * crate::single::up(23) == 0x80_0000);
}

proof fn lemma_one_first(line: Seq<Signed>, k: int)
    requires
        is_even(line, Signed::part(1, 1)),
        1 <= k <= line.len(),
        k < 0x2_0000_0000,
    ensures
        crate::field::first_sum(line, k) == count(k),
    decreases k,
{
    lemma_one();
    assert(line[k - 1] == Signed::part(1, 1));
    if k > 1 {
        lemma_one_first(line, k - 1);
        lemma_step(k - 1);
    } else {
        assert(crate::field::first_sum(line, 0) == nothing());
    }
}

proof fn lemma_one_row(line: Seq<Signed>, r: int, x: int)
    requires
        is_even(line, Signed::part(1, 1)),
        0 <= x < line.len() <= u32::MAX,
        1 <= r,
    ensures
        crate::field::row_sum(line, r, x) == count(
            crate::field::window(x, r, line.len() as int),
        ),
        1 <= crate::field::window(x, r, line.len() as int) <= line.len(),
    decreases x,
{
    let n = line.len() as int;
    if x <= 0 {
        lemma_one_first(line, crate::signed::min_of(r + 1, n));
    } else {
        lemma_one_row(line, r, x - 1);
        lemma_one();
        let k = crate::field::window(x - 1, r, n);
        assert(x + r < n ==> line[x + r] == Signed::part(1, 1));
        assert(x > r ==> line[x - r - 1] == Signed::part(1, 1));
        lemma_step(k);
        if x + r >= n && x > r {
            lemma_step(k - 1);
        }
    }
}

proof fn lemma_one_column(line: Seq<Signed>, r: int, y: int)
    requires
        is_even(line, Signed::part(1, 1)),
        0 <= y < line.len() <= u32::MAX,
        1 <= r,
    ensures
        crate::field::column_sum(line, r, y) == count(
            crate::field::window(y, r, line.len() as int),
        ),
        1 <= crate::field::window(y, r, line.len() as int) <= line.len(),
    decreases y,
{
    let n = line.len() as int;
    if y <= 0 {
        lemma_one_first(line, crate::signed::min_of(r + 1, n));
    } else {
        lemma_one_column(line, r, y - 1);
        lemma_one();
        let k = crate::field::window(y - 1, r, n);
        assert(y + r < n ==> line[y + r] == Signed::part(1, 1));
        assert(y > r ==> line[y - r - 1] == Signed::part(1, 1));
        if y > r {
            assert(k >= 2);
            lemma_step(k - 1);
            if y + r < n {
                lemma_step(k - 1);
            }
        } else if y + r < n {
            lemma_step(k);
        }
    }
}

/// The inverse of a count, and how far its product with the count is from 1.
proof fn lemma_inverse(k: int) -> (ie: int)
    requires
        1 <= k <= u32::MAX,
    ensures
        8 <= ie <= 10,
        ({
            let inv = crate::double::quotient(count(1), count(k));
            let n = count(k).m * inv.m;
            &&& count(k).e + inv.e == ie - 113
            &&& -0x40_0000_0000_0000 <= n - crate::single::up(113 - ie) <= 0x40_0000_0000_0000
        }),
{
    reveal(crate::double::nearest);
    vstd::arithmetic::power2::lemma2_to64();
    vstd::arithmetic::power2::lemma2_to64_rest();
    lemma_count(1);
    lemma_count(k);
    assert(crate::double::bits(1) == 1) by {
        reveal_with_fuel(crate::double::bits, 2);
    }
    let b = count(k).m as int;
    let n: int = 0x10_0000_0000_0000int * 0x1000_0000_0000_0000int;
    assert(count(1).m == 0x10_0000_0000_0000);
    let f = n / b;
    let rem = n % b;
    vstd::arithmetic::div_mod::lemma_fundamental_div_mod(n, b);
    vstd::arithmetic::div_mod::lemma_mod_bound(n, b);
    let q = 2 * f + if rem == 0 {
        0int
    } else {
        1int
    };
    assert(0x800_0000_0000_0000 <= f <= 0x1000_0000_0000_0000) by (nonlinear_arith)
        requires
            n == b * f + rem,
            0 <= rem < b,
            n == 0x10_0000_0000_0000 * 0x1000_0000_0000_0000,
            0x10_0000_0000_0000 <= b < 0x20_0000_0000_0000,
    ;
    assert(f == 0x1000_0000_0000_0000 ==> rem == 0) by (nonlinear_arith)
        requires
            n == b * f + rem,
            0 <= rem < b,
            n == 0x10_0000_0000_0000 * 0x1000_0000_0000_0000,
            0x10_0000_0000_0000 <= b,
    ;
    assert(0x1000_0000_0000_0000 <= q <= 0x2000_0000_0000_0000);
    assert(-b <= q * b - 2 * n <= b) by (nonlinear_arith)
        requires
            n == b * f + rem,
            0 <= rem < b,
            rem == 0 ==> q == 2 * f,
            rem != 0 ==> q == 2 * f + 1,
    ;
    crate::double::lemma_bits(q);
    let bq = crate::double::bits(q);
    assert(61 <= bq <= 62) by {
        if bq < 61 {
            vstd::arithmetic::power2::lemma_pow2_strictly_increases(bq as nat, 61);
            if bq < 60 {
                vstd::arithmetic::power2::lemma_pow2_strictly_increases(bq as nat, 60);
            }
        }
        if bq > 62 {
            vstd::arithmetic::power2::lemma_pow2_strictly_increases(61, (bq - 1) as nat);
        }
    }
    let kk = bq - 53;
    let d = crate::single::up(kk);
    let m = crate::single::round_even(q, d);
    crate::rounding::lemma_round_even_near(q, d);
    let inv = crate::double::quotient(count(1), count(k));
    let ie: int = if m == crate::double::PAST {
        kk + 1
    } else {
        kk
    };
    assert(crate::single::up(8) == 256 && crate::single::up(9) == 512 && crate::single::up(10)
        == 1024);
    assert(0 <= m <= crate::double::PAST) by (nonlinear_arith)
        requires
            -d <= 2 * (m * d - q) <= d,
            (d == 256 && q < 0x2000_0000_0000_0000) || (d == 512 && q <= 0x2000_0000_0000_0000),
            q >= 0,
            crate::double::PAST == 0x20_0000_0000_0000,
    ;
    assert(inv.e == -113 - count(k).e + ie);
    let t = crate::single::up(ie);
    let w = inv.m * t;
    crate::single::lemma_up_step(kk);
    assert(m == crate::double::PAST ==> inv.m == crate::double::LEAST && t == 2 * d);
    assert(m != crate::double::PAST ==> inv.m == m && t == d);
    assert(w == m * d) by (nonlinear_arith)
        requires
            w == inv.m * t,
            (m == 2 * inv.m && t == 2 * d) || (m == inv.m && t == d),
    ;
    let p = b * inv.m;
    assert(p * t == b * w) by (nonlinear_arith)
        requires
            p == b * inv.m,
            w == inv.m * t,
    ;
    assert(-0x4000_0000_0000_0000 <= p * t - 2 * n <= 0x4000_0000_0000_0000) by (nonlinear_arith)
        requires
            p * t == b * w,
            -512 <= 2 * (w - q) <= 512,
            -b <= q * b - 2 * n <= b,
            0 < b < 0x20_0000_0000_0000,
    ;
    crate::single::lemma_up_add(113 - ie, ie);
    crate::single::lemma_up_add(60, 53);
    assert(crate::single::up(113) == 2 * n);
    let one = crate::single::up(113 - ie);
    assert(-0x40_0000_0000_0000 <= p - one <= 0x40_0000_0000_0000) by (nonlinear_arith)
        requires
            -0x4000_0000_0000_0000 <= p * t - 2 * n <= 0x4000_0000_0000_0000,
            2 * n == one * t,
            t >= 256,
    ;
    ie
}

/// A count over itself is 1.
proof fn lemma_one_mean(k: int)
    requires
        1 <= k <= u32::MAX,
    ensures
        crate::field::mean(count(k), k) == Signed::part(1, 1),
{
    reveal(crate::double::nearest);
    vstd::arithmetic::power2::lemma2_to64();
    vstd::arithmetic::power2::lemma2_to64_rest();
    lemma_one();
    let ie = lemma_inverse(k);
    let inv = crate::double::quotient(count(1), count(k));
    let n = count(k).m * inv.m;
    let t: int = 113 - ie;
    let one = crate::single::up(t);
    crate::single::lemma_up_add(60, t - 60);
    crate::single::lemma_up_add(t - 53, 53);
    crate::single::lemma_up_add(t - 52, 52);
    crate::single::lemma_up_step(t);
    crate::single::lemma_up_step(t - 1);
    crate::single::lemma_up_step(t - 53);
    assert(crate::single::up(43) == 0x800_0000_0000 && crate::single::up(44) == 0x1000_0000_0000
        && crate::single::up(45) == 0x2000_0000_0000);
    assert(one >= 0x80_0000_0000_0000_0000_0000) by (nonlinear_arith)
        requires
            one == crate::single::up(60) * crate::single::up(t - 60),
            crate::single::up(60) == 0x1000_0000_0000_0000,
            crate::single::up(t - 60) >= 0x800_0000_0000,
    ;
    assert(n > 0);
    crate::double::lemma_bits(n);
    let bn = crate::double::bits(n);
    let p = crate::double::product(count(k), inv);
    let s = crate::single::up(t - 53);
    crate::single::lemma_up_add(50, t - 103);
    crate::single::lemma_up_pos(t - 103);
    assert(s >= 0x4_0000_0000_0000) by (nonlinear_arith)
        requires
            s == crate::single::up(50) * crate::single::up(t - 103),
            crate::single::up(50) == 0x4_0000_0000_0000,
            crate::single::up(t - 103) >= 1,
    ;
    assert(one == s * 0x20_0000_0000_0000);
    if n < one {
        assert(bn == t) by {
            if bn < t {
                if bn < t - 1 {
                    vstd::arithmetic::power2::lemma_pow2_strictly_increases(
                        bn as nat,
                        (t - 1) as nat,
                    );
                }
            }
            if bn > t {
                if bn - 1 > t {
                    vstd::arithmetic::power2::lemma_pow2_strictly_increases(
                        t as nat,
                        (bn - 1) as nat,
                    );
                }
            }
        }
        let m = crate::single::round_even(n, s);
        crate::rounding::lemma_round_even_near(n, s);
        assert(0x20_0000_0000_0000 - 17 <= m <= 0x20_0000_0000_0000) by (nonlinear_arith)
            requires
                -s <= 2 * (m * s - n) <= s,
                n < s * 0x20_0000_0000_0000,
                n >= s * 0x20_0000_0000_0000 - 0x40_0000_0000_0000,
                s >= 0x4_0000_0000_0000,
        ;
        assert(p.e == -52 && p.m == 0x10_0000_0000_0000 || p.e == -53 && p.m == m && m
            < 0x20_0000_0000_0000);
    } else {
        assert(bn == t + 1) by {
            if bn < t + 1 {
                if bn < t {
                    vstd::arithmetic::power2::lemma_pow2_strictly_increases(bn as nat, t as nat);
                }
            }
            if bn > t + 1 {
                if bn - 1 > t + 1 {
                    vstd::arithmetic::power2::lemma_pow2_strictly_increases(
                        (t + 1) as nat,
                        (bn - 1) as nat,
                    );
                }
            }
        }
        let u = crate::single::up(t - 52);
        assert(u == 2 * s);
        let m = crate::single::round_even(n, u);
        crate::rounding::lemma_round_even_near(n, u);
        assert(0x10_0000_0000_0000 <= m <= 0x10_0000_0000_0000 + 9) by (nonlinear_arith)
            requires
                -u <= 2 * (m * u - n) <= u,
                n >= u * 0x10_0000_0000_0000,
                n <= u * 0x10_0000_0000_0000 + 0x40_0000_0000_0000,
                u >= 0x8_0000_0000_0000,
        ;
        assert(p.e == -52 && p.m == m);
    }
    lemma_narrow(p);
}

/// What is hardly more or less than 1 in double precision is 1 in single precision.
proof fn lemma_narrow(p: Double)
    requires
        p.e == -52 && 0x10_0000_0000_0000 <= p.m <= 0x10_0000_0000_0000 + 9 || p.e == -53
            && 0x20_0000_0000_0000 - 17 <= p.m < 0x20_0000_0000_0000,
    ensures
        crate::double::to_single(p) == Signed::part(1, 1),
{
    vstd::arithmetic::power2::lemma2_to64();
    lemma_one();
    let n = p.m as int;
    assert(crate::single::up(29) == 0x2000_0000);
    assert(n * crate::single::up(-29) == n);
    assert(crate::single::in_binade(n, 1, 29));
    let s = if p.e == -52 {
        crate::single::Single { m: 0x80_0000, e: 29 }
    } else {
        crate::single::Single { m: 0x80_0000, e: 30 }
    };
    if p.e == -52 {
        assert(n / 0x2000_0000 == 0x80_0000 && n % 0x2000_0000 <= 9);
    } else {
        assert(n / 0x2000_0000 == 0xFF_FFFF && n % 0x2000_0000 >= 0x2000_0000 - 17);
    }
    assert(crate::single::is_rounded_at(
        crate::single::round_even(n * crate::single::up(-29), 1 * crate::single::up(29)),
        29,
        s,
    ));
    assert(crate::single::is_nearest(n, 1, s));
    crate::single::law_nearest_unique(n, 1, s);
}

/// The means over a map of nothing are nothing, and those over a map of ones are ones.
pub proof fn law_even_maps_stay(c: crate::maps::Chart, r: int)
    requires
        0 < c.w <= u32::MAX,
        0 <= c.h <= u32::MAX,
        c.d.len() == c.w * c.h,
        r >= 1,
    ensures
        crate::field::box_means(c, r).d.len() == c.d.len(),
        is_even(c.d, Signed::part(0, 1)) ==> is_even(crate::field::box_means(c, r).d, Signed::part(0, 1)),
        is_even(c.d, Signed::part(1, 1)) ==> is_even(crate::field::box_means(c, r).d, Signed::part(1, 1)),
{
    let (w, h) = (c.w, c.h);
    let a = crate::field::row_means(c.d, w, h, r);
    let out = crate::field::box_means(c, r).d;
    assert forall|v: Signed|
        (v == Signed::part(0, 1) || v == Signed::part(1, 1)) && is_even(c.d, v) implies #[trigger] is_even(
        out,
        v,
    ) by {
        assert forall|i: int| 0 <= i < a.len() implies #[trigger] a[i] == v by {
            crate::grid::lemma_cell_split(i, w, h);
            let line = crate::spread::row(c.d, w, i / w);
            assert forall|x: int| 0 <= x < line.len() implies #[trigger] line[x] == v by {
                crate::grid::lemma_cell_bound(x, i / w, w, h);
            }
            if v == Signed::part(0, 1) {
                lemma_zero_row(line, r, i % w);
                lemma_zero_mean(crate::field::window(i % w, r, w));
            } else {
                lemma_one_row(line, r, i % w);
                lemma_one_mean(crate::field::window(i % w, r, w));
            }
        }
        assert forall|i: int| 0 <= i < out.len() implies #[trigger] out[i] == v by {
            crate::grid::lemma_cell_split(i, w, h);
            let line = crate::spread::column(a, w, h, i % w);
            assert forall|y: int| 0 <= y < line.len() implies #[trigger] line[y] == v by {
                crate::grid::lemma_cell_bound(i % w, y, w, h);
            }
            if v == Signed::part(0, 1) {
                lemma_zero_column(line, r, i / w);
                lemma_zero_mean(crate::field::window(i / w, r, h));
            } else {
                lemma_one_column(line, r, i / w);
                lemma_one_mean(crate::field::window(i / w, r, h));
            }
        }
    }
    assert(is_even(c.d, Signed::part(0, 1)) ==> is_even(out, Signed::part(0, 1)));
}

} // verus!
