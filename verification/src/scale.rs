//! Sizes and radii that follow a picture's size.

use vstd::prelude::*;

use crate::single::{ratio, Single};

verus! {

/// Long edge at which the smoke layer is estimated.
pub const WORK_LONG_EDGE: u32 = 2560;

/// Long edge at which the smoke layer is estimated when speed comes first.
pub const FAST_WORK_EDGE: u32 = 1280;

/// `n` in single precision, times `k`, rounded to an integer.
pub open spec fn scaled(n: int, k: Single) -> int {
    crate::single::round(crate::single::product(crate::single::nearest(n, 1), k))
}

/// The fraction `num / den` of `n`, rounded to an integer.
pub open spec fn portion(n: int, num: int, den: int) -> int {
    scaled(n, crate::single::nearest(num, den))
}

/// The larger of `a` and `b`.
pub open spec fn at_least(a: int, b: int) -> int {
    if a < b {
        b
    } else {
        a
    }
}

/// `v`, or the nearest end of `lo..=hi` where it lies outside.
pub open spec fn within(v: int, lo: int, hi: int) -> int {
    if v < lo {
        lo
    } else if v > hi {
        hi
    } else {
        v
    }
}

/// The longer of two sides.
pub open spec fn longer(a: int, b: int) -> int {
    if a < b {
        b
    } else {
        a
    }
}

fn clamp(v: u64, lo: u64, hi: u64) -> (r: u64)
    requires
        lo <= hi,
    ensures
        r == within(v as int, lo as int, hi as int),
{
    if v < lo {
        lo
    } else if v > hi {
        hi
    } else {
        v
    }
}

/// `n` times `k`, rounded to an integer.
pub fn scale(n: u32, k: Single) -> (r: u64)
    requires
        k.wf(),
        -300 <= k.e <= 4,
    ensures
        r == scaled(n as int, k),
        k.e <= -10 ==> r <= 0x1_0000_0000_0000,
{
    Single::of(n as u64).times(k).round()
}

/// The fraction `num / den` of `n`, rounded to an integer.
pub fn share_of(n: u32, num: u64, den: u64) -> (r: u64)
    requires
        den > 0,
        num <= 2 * den,
    ensures
        r == portion(n as int, num as int, den as int),
        num > 0 ==> r <= 0x1_0000_0000_0000,
        0 < num < den <= u32::MAX && 0 < n < 0x80_0000 ==> r <= n,
{
    let k = ratio(num, den);
    let a = Single::of(n as u64);
    let r: u64 = scale(n, k);
    proof {
        if 0 < num < den && den <= u32::MAX && 0 < n < 0x80_0000 {
            crate::single::lemma_fraction_is_share(num as int, den as int, k);
            crate::single::lemma_product_nearest(a, k);
            let p = crate::single::product(a, k);
            crate::single::law_times_share_shrinks(a, k, p);
            crate::single::law_round_within(p, n as int, a);
        }
    }
    r
}

/// Factor that brings a long edge of `long` down to `edge`; 1 when it is no longer than that.
pub open spec fn shrink_factor(long: int, edge: int) -> Single {
    if long > edge {
        crate::single::quotient(
            crate::single::nearest(edge, 1),
            crate::single::nearest(long, 1),
        )
    } else {
        crate::single::nearest(1, 1)
    }
}

/// Length of a side `side` of a `fw` by `fh` picture that is brought down so that its long edge is
/// `edge`; a smaller picture keeps its size. No side falls below 1.
pub open spec fn work_side(side: int, fw: int, fh: int, edge: int) -> int {
    at_least(scaled(side, shrink_factor(longer(fw, fh), edge)), 1)
}

/// A side brought down to a short edge is short.
proof fn lemma_shrunk_bound(side: int, long: int, edge: int, k: Single)
    requires
        0 <= side <= long <= u32::MAX,
        0 < edge <= 1024,
        k == shrink_factor(long, edge),
        k.wf(),
        long > edge ==> {
            let a = crate::single::nearest(edge, 1);
            let b = crate::single::nearest(long, 1);
            &&& k.m > 0 ==> k.e <= a.e - b.e - 22
            &&& a.wf()
            &&& b.wf()
            &&& crate::single::is_nearest(long, 1, b)
            &&& -300 <= k.e <= 300
        },
        side > 0 ==> crate::single::is_nearest(side, 1, crate::single::nearest(side, 1))
            && crate::single::nearest(side, 1).wf() && crate::single::nearest(side, 1).m > 0 && -100
            <= crate::single::nearest(side, 1).e <= 100,
    ensures
        scaled(side, k) <= 0x8000,
{
    let s = crate::single::nearest(side, 1);
    let p = crate::single::product(s, k);
    let top = crate::single::nearest(0x8000, 1);
    crate::single::lemma_small_nearest(0x8000);
    crate::single::lemma_small_nearest(edge);
    crate::single::law_nearest_unique(0, 1, crate::single::nought());
    if side == 0 || k.m == 0 {
        assert(s.m * k.m == 0) by (nonlinear_arith)
            requires
                s.m == 0 || k.m == 0,
        ;
        assert(p == crate::single::nought());
        assert(0 * crate::single::up(0) == 0);
    } else if long > edge {
        let a = crate::single::nearest(edge, 1);
        let b = crate::single::nearest(long, 1);
        crate::single::lemma_exponent_grows(side, long, s, b);
        crate::single::lemma_product_nearest(s, k);
        lemma_short_exponents(edge);
        crate::single::law_round_within(p, 0x8000, top);
    } else {
        crate::single::lemma_one();
        crate::single::law_times_one(s);
        crate::single::lemma_small_nearest(side);
        crate::single::law_round_within(s, side, s);
    }
}

/// The exponents of a short edge and of a bound far above it.
proof fn lemma_short_exponents(edge: int)
    requires
        0 < edge <= 1024,
    ensures
        crate::single::nearest(edge, 1).e <= -13,
        crate::single::nearest(0x8000, 1).e >= -8,
{
    vstd::arithmetic::power2::lemma2_to64();
    crate::single::lemma_small_nearest(edge);
    crate::single::lemma_small_nearest(0x8000);
    let a = crate::single::nearest(edge, 1);
    let top = crate::single::nearest(0x8000, 1);
    assert(crate::single::up(14) == 0x4000 && crate::single::up(8) == 0x100);
    assert(edge * crate::single::up(14) <= 0x100_0000);
    assert(0x8000 * crate::single::up(8) == 0x80_0000);
    if edge < 1024 {
        crate::single::lemma_exponent_upto(edge, 1, a, -14);
    } else {
        assert(crate::single::up(13) == 0x2000);
        assert(1024 * crate::single::up(13) == 0x80_0000);
        crate::single::lemma_small_exact(edge, a);
        crate::single::lemma_exponent_upto(edge, 1, a, -13);
    }
    crate::single::lemma_exponent_from(0x8000, 1, top, -8);
}

/// A side brought down to an edge of up to 4096 is not much longer.
proof fn lemma_shrunk_wide(side: int, long: int, edge: int, k: Single)
    requires
        0 <= side <= long <= u32::MAX,
        0 < edge <= 0x1000,
        k == shrink_factor(long, edge),
        k.wf(),
        long > edge ==> {
            let a = crate::single::nearest(edge, 1);
            let b = crate::single::nearest(long, 1);
            &&& k.m > 0 ==> k.e <= a.e - b.e - 22
            &&& a.wf()
            &&& b.wf()
            &&& crate::single::is_nearest(long, 1, b)
            &&& -300 <= k.e <= 300
        },
        side > 0 ==> crate::single::is_nearest(side, 1, crate::single::nearest(side, 1))
            && crate::single::nearest(side, 1).wf() && crate::single::nearest(side, 1).m > 0 && -100
            <= crate::single::nearest(side, 1).e <= 100,
    ensures
        scaled(side, k) <= 0x2_0000,
{
    let s = crate::single::nearest(side, 1);
    let p = crate::single::product(s, k);
    let top = crate::single::nearest(0x2_0000, 1);
    crate::single::lemma_small_nearest(0x2_0000);
    crate::single::lemma_small_nearest(edge);
    crate::single::law_nearest_unique(0, 1, crate::single::nought());
    if side == 0 || k.m == 0 {
        assert(s.m * k.m == 0) by (nonlinear_arith)
            requires
                s.m == 0 || k.m == 0,
        ;
        assert(p == crate::single::nought());
        assert(0 * crate::single::up(0) == 0);
    } else if long > edge {
        let a = crate::single::nearest(edge, 1);
        let b = crate::single::nearest(long, 1);
        crate::single::lemma_exponent_grows(side, long, s, b);
        crate::single::lemma_product_nearest(s, k);
        lemma_edge_exponents(edge);
        crate::single::law_round_within(p, 0x2_0000, top);
    } else {
        crate::single::lemma_one();
        crate::single::law_times_one(s);
        crate::single::lemma_small_nearest(side);
        crate::single::law_round_within(s, side, s);
    }
}

/// The exponents of an edge of up to 4096 and of a bound far above it.
proof fn lemma_edge_exponents(edge: int)
    requires
        0 < edge <= 0x1000,
    ensures
        crate::single::nearest(edge, 1).e <= -11,
        crate::single::nearest(0x2_0000, 1).e >= -6,
{
    vstd::arithmetic::power2::lemma2_to64();
    crate::single::lemma_small_nearest(edge);
    crate::single::lemma_small_nearest(0x2_0000);
    let a = crate::single::nearest(edge, 1);
    let top = crate::single::nearest(0x2_0000, 1);
    assert(crate::single::up(12) == 0x1000 && crate::single::up(6) == 0x40);
    assert(edge * crate::single::up(12) <= 0x100_0000);
    assert(0x2_0000 * crate::single::up(6) == 0x80_0000);
    if edge < 0x1000 {
        crate::single::lemma_exponent_upto(edge, 1, a, -12);
    } else {
        assert(crate::single::up(11) == 0x800);
        assert(0x1000 * crate::single::up(11) == 0x80_0000);
        crate::single::lemma_small_exact(edge, a);
        crate::single::lemma_exponent_upto(edge, 1, a, -11);
    }
    crate::single::lemma_exponent_from(0x2_0000, 1, top, -6);
}

/// No more than all of a side is left of it.
proof fn lemma_shrinks(side: int, k: Single)
    requires
        0 < side < crate::single::LOW,
        k.wf(),
        -500 <= k.e <= 500,
        !crate::single::below(crate::single::one(), k),
    ensures
        scaled(side, k) <= side,
{
    let s = crate::single::nearest(side, 1);
    let p = crate::single::product(s, k);
    crate::single::lemma_small_nearest(side);
    if k.m == 0 {
        crate::single::law_nearest_unique(0, 1, crate::single::nought());
        assert(s.m * k.m == 0) by (nonlinear_arith)
            requires
                k.m == 0,
        ;
        assert(0 * crate::single::up(0) == 0);
    } else {
        crate::single::lemma_product_nearest(s, k);
        crate::single::law_times_share_shrinks(s, k, p);
        crate::single::law_round_within(p, side, s);
    }
}

/// The size at which a picture is worked on (see [`work_side`]).
pub fn work_size(fw: u32, fh: u32, edge: u32) -> (r: (u64, u64))
    ensures
        r.0 == work_side(fw as int, fw as int, fh as int, edge as int),
        r.1 == work_side(fh as int, fw as int, fh as int, edge as int),
        0 < edge <= 1024 ==> r.0 <= 0x8000 && r.1 <= 0x8000,
        0 < edge <= 0x1000 ==> r.0 <= 0x2_0000 && r.1 <= 0x2_0000,
        0 < edge <= 0x1000 && fw > 0 ==> r.0 <= fw,
        0 < edge <= 0x1000 && fh > 0 ==> r.1 <= fh,
        r.0 >= 1,
        r.1 >= 1,
        0 < fw < crate::single::LOW && fh < crate::single::LOW && edge > 0 ==> r.0 <= fw,
        0 < fh < crate::single::LOW && fw < crate::single::LOW && edge > 0 ==> r.1 <= fh,
{
    let long: u32 = if fw < fh {
        fh
    } else {
        fw
    };
    let k: Single = if long > edge {
        let a = Single::of(edge as u64);
        let b = Single::of(long as u64);
        proof {
            if edge > 0 {
                crate::single::lemma_exponent_grows(edge as int, long as int, a, b);
            }
        }
        a.over(b)
    } else {
        ratio(1, 1)
    };
    let x = Single::of(fw as u64);
    let y = Single::of(fh as u64);
    let w: u64 = x.times(k).round();
    let h: u64 = y.times(k).round();
    proof {
        if 0 < edge <= 1024 {
            lemma_shrunk_bound(fw as int, long as int, edge as int, k);
            lemma_shrunk_bound(fh as int, long as int, edge as int, k);
        }
        if 0 < edge <= 0x1000 {
            lemma_shrunk_wide(fw as int, long as int, edge as int, k);
            lemma_shrunk_wide(fh as int, long as int, edge as int, k);
        }
        if edge > 0 {
            assert(!crate::single::below(crate::single::one(), k)) by {
                crate::single::lemma_one();
                if long > edge {
                    let a = crate::single::nearest(edge as int, 1);
                    let b = crate::single::nearest(long as int, 1);
                    crate::single::law_nearest_grows(edge as int, long as int, a, b);
                }
            }
            if 0 < fw < crate::single::LOW {
                lemma_shrinks(fw as int, k);
            }
            if 0 < fh < crate::single::LOW {
                lemma_shrinks(fh as int, k);
            }
        }
    }
    (
        if w < 1 {
            1
        } else {
            w
        },
        if h < 1 {
            1
        } else {
            h
        },
    )
}

/// How far to look round a cell of the streak grid: about 3% of its long edge, from 3 to 32.
pub fn streak_radius(cw: u32, ch: u32) -> (r: u64)
    ensures
        r == within(portion(longer(cw as int, ch as int), 3, 100), 3, 32),
{
    let long: u32 = if cw < ch {
        ch
    } else {
        cw
    };
    clamp(share_of(long, 3, 100), 3, 32)
}

/// Radii for fine detail and for a neighbourhood, on a picture with long edge `long`.
pub fn detail_radii(long: u32) -> (r: (u64, u64))
    ensures
        r.0 == within(portion(long as int, 15, 10000), 1, 6),
        r.1 == within(portion(long as int, 1, 100), 4, 40),
{
    (clamp(share_of(long, 15, 10000), 1, 6), clamp(share_of(long, 1, 100), 4, 40))
}

/// A part of a long edge, rounded, from `lo` to `hi`.
pub fn window(long: u32, num: u64, den: u64, lo: u64, hi: u64) -> (r: u64)
    requires
        0 < num <= den,
        lo <= hi,
    ensures
        r == within(portion(long as int, num as int, den as int), lo as int, hi as int),
{
    clamp(share_of(long, num, den), lo, hi)
}

/// A radius for a photo with long edge `source`, as it comes out on a copy with long edge `long`: the
/// fraction `num / den` of the photo's edge, from `lo` to `hi`, scaled down with the copy and rounded.
pub open spec fn copied_radius(
    long: int,
    source: int,
    num: int,
    den: int,
    lo: int,
    hi: int,
) -> int {
    let n = crate::single::nearest(source, 1);
    let k = crate::single::quotient(
        crate::single::nearest(long, 1),
        crate::single::nearest(at_least(source, 1), 1),
    );
    crate::single::round(
        crate::single::product(
            crate::single::clamped(
                crate::single::product(n, crate::single::nearest(num, den)),
                crate::single::nearest(lo, 1),
                crate::single::nearest(hi, 1),
            ),
            k,
        ),
    )
}

fn copy_radius(long: u32, source: u32, num: u64, den: u64, lo: u64, hi: u64) -> (r: u64)
    requires
        0 < num <= den,
        0 < lo <= hi <= 100,
    ensures
        r == copied_radius(
            long as int,
            source as int,
            num as int,
            den as int,
            lo as int,
            hi as int,
        ),
{
    let base: u32 = if source < 1 {
        1
    } else {
        source
    };
    let a = Single::of(long as u64);
    let b = Single::of(base as u64);
    proof {
        vstd::arithmetic::power2::lemma2_to64();
        assert(crate::single::up(23) == 0x80_0000);
        assert(base * crate::single::up(23) >= crate::single::LOW) by (nonlinear_arith)
            requires
                base >= 1,
                crate::single::up(23) == 0x80_0000,
                crate::single::LOW == 0x80_0000,
        ;
        crate::single::lemma_exponent_from(base as int, 1, b, -23);
    }
    let k = a.over(b);
    let l = Single::of(lo);
    let h = Single::of(hi);
    let r = Single::of(source as u64).times(ratio(num, den)).clamp(l, h);
    proof {
        lemma_hundred(lo as int, l);
        lemma_hundred(hi as int, h);
        lemma_clamped_exponent(
            crate::single::product(
                crate::single::nearest(source as int, 1),
                crate::single::nearest(num as int, den as int),
            ),
            l,
            h,
            r,
        );
    }
    r.times(k).round()
}

proof fn lemma_hundred(n: int, s: Single)
    requires
        0 < n <= 100,
        s.wf(),
        crate::single::is_nearest(n, 1, s),
    ensures
        s.m > 0,
        -23 <= s.e <= -16,
{
    vstd::arithmetic::power2::lemma2_to64();
    crate::single::lemma_small_exact(n, s);
    crate::single::lemma_up_pos(-s.e);
    assert(s.m >= 1) by (nonlinear_arith)
        requires
            s.m == n * crate::single::up(-s.e),
            n >= 1,
            crate::single::up(-s.e) >= 1,
    ;
    assert(n * crate::single::up(23) >= crate::single::LOW) by (nonlinear_arith)
        requires
            n >= 1,
            crate::single::up(23) == 0x80_0000,
            crate::single::LOW == 0x80_0000,
    ;
    crate::single::lemma_exponent_from(n, 1, s, -23);
    assert(n * crate::single::up(17) < crate::single::HIGH) by (nonlinear_arith)
        requires
            n <= 100,
            crate::single::up(17) == 0x2_0000,
            crate::single::HIGH == 0x100_0000,
    ;
    crate::single::lemma_exponent_upto(n, 1, s, -17);
}

proof fn lemma_clamped_exponent(v: Single, lo: Single, hi: Single, r: Single)
    requires
        v.wf(),
        lo.wf(),
        hi.wf(),
        lo.m > 0,
        hi.m > 0,
        -23 <= lo.e <= -16,
        -23 <= hi.e <= -16,
        r == crate::single::clamped(v, lo, hi),
    ensures
        -23 <= r.e <= -16,
{
}

/// Radii for fine detail and for the neighbourhood of a place in the sky, on a copy with long edge
/// `long` of a photo with long edge `source`.
pub fn region_radii(long: u32, source: u32) -> (r: (u64, u64))
    ensures
        r.0 == at_least(copied_radius(long as int, source as int, 15, 10000, 1, 6), 1),
        r.1 == at_least(copied_radius(long as int, source as int, 1, 100, 4, 40), 2),
{
    let a: u64 = copy_radius(long, source, 15, 10000, 1, 6);
    let b: u64 = copy_radius(long, source, 1, 100, 4, 40);
    (
        if a < 1 {
            1
        } else {
            a
        },
        if b < 2 {
            2
        } else {
            b
        },
    )
}

/// How many blocks of a `ww` wide grid over a `fw` wide photo go into one cell of the streak grid:
/// enough for eight pixels.
pub fn gate_factor(fw: u32, ww: u32) -> (f: u64)
    ensures
        f == at_least((8 * ww + at_least(fw as int, 1) - 1) / at_least(fw as int, 1), 1),
{
    let w: u64 = if fw < 1 {
        1
    } else {
        fw as u64
    };
    let f: u64 = (8 * ww as u64 + w - 1) / w;
    if f < 1 {
        1
    } else {
        f
    }
}

} // verus!
