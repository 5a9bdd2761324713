//! Filters on maps: means, guided filters, extremes and enlargement.

use vstd::prelude::*;

use crate::double::Double;
use crate::held::{add_to, divide_by, mix, scale_by, take_from, whole};
use crate::maps::Mask;
use crate::morph::Plane;
use crate::signed::Signed;
use crate::single::Single;
use crate::stroke::first_cell_of;

verus! {

/// An integer that orders as a number does.
pub open spec fn key(s: Signed) -> int {
    if s.size.m == 0 {
        0
    } else {
        let v = (s.size.e + 1001) * 0x80_0000 + (s.size.m - 0x80_0000);
        if s.neg {
            -v
        } else {
            v
        }
    }
}

/// The number that an integer stands for (see [`key`]).
pub open spec fn of_key(k: int) -> Signed {
    if k == 0 {
        Signed::part(0, 1)
    } else {
        let v = if k < 0 {
            -k
        } else {
            k
        };
        Signed {
            neg: k < 0,
            size: Single { m: (v % 0x80_0000 + 0x80_0000) as u64, e: (v / 0x80_0000 - 1001) as i32 },
        }
    }
}

/// Keys stand for numbers, and order as they do.
pub proof fn law_keys(a: Signed, b: Signed)
    requires
        crate::held::fits(a),
        crate::held::fits(b),
    ensures
        of_key(key(a)) == a,
        -0x4_0000_0000 <= key(a) <= 0x4_0000_0000,
        key(a) < key(b) <==> a.lies_below(b),
{
    crate::single::law_nearest_unique(0, 1, crate::single::nought());
}

/// The keys of a map.
pub open spec fn keys(d: Seq<Signed>, w: int, h: int) -> crate::morph::Grid {
    crate::morph::Grid { w, h, d: Seq::new(d.len(), |i: int| key(d[i]) as i64) }
}

/// The map that keys stand for.
pub open spec fn unkeyed(d: Seq<i64>) -> Seq<Signed> {
    Seq::new(d.len(), |i: int| of_key(d[i] as int))
}

fn key_of(s: Signed) -> (k: i64)
    requires
        crate::held::fits(s),
    ensures
        k == key(s),
{
    if s.size.m == 0 {
        0
    } else {
        let v: i64 = (s.size.e as i64 + 1001) * 0x80_0000 + (s.size.m as i64 - 0x80_0000);
        if s.neg {
            -v
        } else {
            v
        }
    }
}

fn number_of(k: i64) -> (s: Signed)
    requires
        -0x4_0000_0000 <= k <= 0x4_0000_0000,
    ensures
        s == of_key(k as int),
{
    if k == 0 {
        Signed::zero()
    } else {
        let v: u64 = if k < 0 {
            (-k) as u64
        } else {
            k as u64
        };
        Signed {
            neg: k < 0,
            size: Single { m: v % 0x80_0000 + 0x80_0000, e: (v / 0x80_0000) as i32 - 1001 },
        }
    }
}

/// The keys of a map (see [`keys`]).
pub fn keys_of(m: &Mask) -> (p: Plane)
    requires
        m@.wf(),
    ensures
        p@ == keys(m@.d, m@.w, m@.h),
        p@.wf(),
{
    let n: usize = m.d.len();
    let mut d: Vec<i64> = Vec::new();
    let mut i: usize = 0;
    while i < n
        invariant
            i <= n == m.d@.len(),
            crate::maps::is_map(m.d@),
            d@.len() == i,
            forall|j: int| 0 <= j < i ==> #[trigger] d@[j] == key(m.d@[j]),
        decreases n - i,
    {
        proof {
            law_keys(m.d@[i as int], m.d@[i as int]);
        }
        d.push(key_of(m.d[i]));
        i += 1;
    }
    assert(d@ =~= keys(m@.d, m@.w, m@.h).d);
    Plane { w: m.w, h: m.h, d }
}

/// The map that keys stand for (see [`unkeyed`]), where they come from another map.
fn unkey_all(d: &Vec<i64>, of: &Vec<Signed>) -> (out: Vec<Signed>)
    requires
        crate::maps::is_map(of@),
        forall|i: int|
            0 <= i < d@.len() ==> Seq::new(of@.len(), |j: int| key(of@[j]) as i64).contains(
                #[trigger] d@[i],
            ),
    ensures
        out@ == unkeyed(d@),
        crate::maps::is_map(out@),
{
    let n: usize = d.len();
    let mut out: Vec<Signed> = Vec::new();
    let mut i: usize = 0;
    let ghost ks = Seq::new(of@.len(), |j: int| key(of@[j]) as i64);
    while i < n
        invariant
            i <= n == d@.len(),
            crate::maps::is_map(of@),
            ks == Seq::new(of@.len(), |j: int| key(of@[j]) as i64),
            forall|k: int| 0 <= k < d@.len() ==> ks.contains(#[trigger] d@[k]),
            out@.len() == i,
            forall|j: int| 0 <= j < i ==> #[trigger] out@[j] == unkeyed(d@)[j],
            crate::maps::is_map(out@),
        decreases n - i,
    {
        proof {
            assert(ks.contains(d@[i as int]));
            let j = choose|j: int| 0 <= j < ks.len() && ks[j] == d@[i as int];
            law_keys(of@[j], of@[j]);
        }
        out.push(number_of(d[i]));
        i += 1;
    }
    out
}

/// A map of the greatest or the least numbers within `r` of each cell.
pub open spec fn extremes(c: crate::maps::Chart, r: int, max: bool) -> crate::maps::Chart {
    crate::maps::Chart {
        d: unkeyed(crate::morph::filtered(keys(c.d, c.w, c.h), r, max).d),
        w: c.w,
        h: c.h,
    }
}

/// The greatest numbers within `r` of each cell.
pub fn max_filter(m: &Mask, r: usize) -> (out: Mask)
    requires
        m@.wf(),
        r <= crate::spread::longest(),
    ensures
        out@ == extremes(m@, r as int, true),
        out@.wf(),
{
    let p = keys_of(m);
    let q = crate::morph::max_filter(&p, r);
    proof {
        crate::morph::law_filtered_unique(p@, r as int, true, q@);
    }
    Mask { d: unkey_all(&q.d, &m.d), w: m.w, h: m.h }
}

fn min_filter(m: &Mask, r: usize) -> (out: Mask)
    requires
        m@.wf(),
        r <= crate::spread::longest(),
    ensures
        out@ == extremes(m@, r as int, false),
        out@.wf(),
{
    let p = keys_of(m);
    let q = crate::morph::min_filter(&p, r);
    proof {
        crate::morph::law_filtered_unique(p@, r as int, false, q@);
    }
    Mask { d: unkey_all(&q.d, &m.d), w: m.w, h: m.h }
}

/// A map without bright spots that are narrower than `2 r + 1` cells.
pub open spec fn opened(c: crate::maps::Chart, r: int) -> crate::maps::Chart {
    extremes(extremes(c, r, false), r, true)
}

/// A map without narrow bright spots (see [`opened`]).
pub fn open_filter(m: &Mask, r: usize) -> (out: Mask)
    requires
        m@.wf(),
        r <= crate::spread::longest(),
    ensures
        out@ == opened(m@, r as int),
        out@.wf(),
{
    let low = min_filter(m, r);
    max_filter(&low, r)
}

/// A map of the extremes of blocks of `f` by `f` cells.
pub open spec fn pooled(c: crate::maps::Chart, f: int, max: bool) -> crate::maps::Chart {
    let p = crate::morph::pooled(keys(c.d, c.w, c.h), f, max);
    crate::maps::Chart { d: unkeyed(p.d), w: p.w, h: p.h }
}

/// A map of the extremes of blocks (see [`pooled`]).
pub fn pool(m: &Mask, f: usize, max: bool) -> (out: Mask)
    requires
        m@.wf(),
        1 <= f <= crate::spread::longest(),
    ensures
        out@ == pooled(m@, f as int, max),
        out@.wf(),
        out@.w == crate::morph::blocks_along(m@.w, f as int),
        out@.h == crate::morph::blocks_along(m@.h, f as int),
{
    let p = keys_of(m);
    let q = crate::morph::pool(&p, f, max);
    proof {
        crate::morph::law_pooled_unique(p@, f as int, max, q@);
        lemma_blocks(m@.w, f as int);
        lemma_blocks(m@.h, f as int);
    }
    Mask { d: unkey_all(&q.d, &m.d), w: q.w, h: q.h }
}

/// There are blocks, and no more than cells.
pub proof fn lemma_blocks(n: int, f: int)
    requires
        n > 0,
        f >= 1,
    ensures
        1 <= crate::morph::blocks_along(n, f) <= n,
        (n - 1) / f < crate::morph::blocks_along(n, f),
{
    let b = crate::morph::blocks_along(n, f);
    let m = n + f - 1;
    vstd::arithmetic::div_mod::lemma_fundamental_div_mod(m, f);
    vstd::arithmetic::div_mod::lemma_mod_bound(m, f);
    vstd::arithmetic::div_mod::lemma_fundamental_div_mod(n - 1, f);
    vstd::arithmetic::div_mod::lemma_mod_bound(n - 1, f);
    assert(1 <= b) by (nonlinear_arith)
        requires
            m == f * b + m % f,
            0 <= m % f < f,
            m >= f,
            f >= 1,
    ;
    assert(b <= n) by (nonlinear_arith)
        requires
            m == f * b + m % f,
            0 <= m % f,
            m == n + f - 1,
            f >= 1,
            n >= 1,
    ;
    let q = (n - 1) / f;
    assert(q < b) by (nonlinear_arith)
        requires
            m == f * b + m % f,
            m % f < f,
            n - 1 == f * q + (n - 1) % f,
            0 <= (n - 1) % f,
            m == n - 1 + f,
            f >= 1,
    ;
}

/// How strongly the cells of a map hang together with its top edge.
pub open spec fn reached(c: crate::maps::Chart, r: int) -> crate::maps::Chart {
    crate::maps::Chart {
        d: unkeyed(crate::sky::reached(keys(c.d, c.w, c.h), r).d),
        w: c.w,
        h: c.h,
    }
}

/// How strongly the cells of a map hang together with its top edge (see [`reached`]).
pub fn reach_down(m: &Mask, r: usize) -> (out: Mask)
    requires
        m@.wf(),
        r <= crate::spread::longest(),
    ensures
        out@ == reached(m@, r as int),
        out@.wf(),
{
    let p = keys_of(m);
    let q = crate::sky::reach_down(&p, r);
    proof {
        crate::sky::law_reach_unique(p@, r as int, q@);
    }
    Mask { d: unkey_all(&q.d, &m.d), w: m.w, h: m.h }
}

/// The sum of the first `k` numbers, in double precision.
pub open spec fn first_sum(line: Seq<Signed>, k: int) -> Double
    decreases k,
{
    if k <= 0 {
        Double { m: 0, e: 0 }
    } else {
        crate::double::sum(first_sum(line, k - 1), crate::double::of_single(line[k - 1]))
    }
}

/// The running sum of the numbers within `r` of place `x`: the one that enters is added before the one
/// that leaves is taken off.
pub open spec fn row_sum(line: Seq<Signed>, r: int, x: int) -> Double
    decreases x,
{
    if x <= 0 {
        first_sum(line, crate::signed::min_of(r + 1, line.len() as int))
    } else {
        let a = row_sum(line, r, x - 1);
        let b = if x + r < line.len() {
            crate::double::sum(a, crate::double::of_single(line[x + r]))
        } else {
            a
        };
        if x > r {
            crate::double::sum(b, crate::double::minus(crate::double::of_single(line[x - r - 1])))
        } else {
            b
        }
    }
}

/// The running sum of the numbers within `r` of place `y`: the one that leaves is taken off before the
/// one that enters is added.
pub open spec fn column_sum(line: Seq<Signed>, r: int, y: int) -> Double
    decreases y,
{
    if y <= 0 {
        first_sum(line, crate::signed::min_of(r + 1, line.len() as int))
    } else {
        let a = column_sum(line, r, y - 1);
        let b = if y > r {
            crate::double::sum(a, crate::double::minus(crate::double::of_single(line[y - r - 1])))
        } else {
            a
        };
        if y + r < line.len() {
            crate::double::sum(b, crate::double::of_single(line[y + r]))
        } else {
            b
        }
    }
}

/// How many of `n` places lie within `r` of place `x`.
pub open spec fn window(x: int, r: int, n: int) -> int {
    crate::signed::min_of(x + r + 1, n) - crate::signed::max_of(x - r, 0)
}

/// A sum over `n`, in single precision.
pub open spec fn mean(s: Double, n: int) -> Signed {
    crate::double::to_single(
        crate::double::product(
            s,
            crate::double::quotient(crate::double::of_int(1), crate::double::of_int(n)),
        ),
    )
}

/// The means along the rows of a map.
pub open spec fn row_means(d: Seq<Signed>, w: int, h: int, r: int) -> Seq<Signed> {
    Seq::new(
        (w * h) as nat,
        |i: int|
            mean(row_sum(crate::spread::row(d, w, i / w), r, i % w), window(i % w, r, w)),
    )
}

/// The means over the squares of radius `r` round the cells of a map.
pub open spec fn box_means(c: crate::maps::Chart, r: int) -> crate::maps::Chart {
    let a = row_means(c.d, c.w, c.h, r);
    crate::maps::Chart {
        d: Seq::new(
            (c.w * c.h) as nat,
            |i: int|
                mean(
                    column_sum(crate::spread::column(a, c.w, c.h, i % c.w), r, i / c.w),
                    window(i / c.w, r, c.h),
                ),
        ),
        w: c.w,
        h: c.h,
    }
}

fn inverse(n: usize) -> (r: Double)
    ensures
        r == crate::double::quotient(crate::double::of_int(1), crate::double::of_int(n as int)),
        r.wf(),
{
    Double::of(1).over(Double::of(n as u64))
}

fn window_of(x: usize, r: usize, n: usize) -> (k: usize)
    requires
        x < n <= crate::spread::longest(),
        r <= crate::spread::longest(),
    ensures
        k == window(x as int, r as int, n as int),
{
    let hi: usize = if x + r + 1 < n {
        x + r + 1
    } else {
        n
    };
    let lo: usize = if x < r {
        0
    } else {
        x - r
    };
    hi - lo
}

/// The means along a row.
fn row_of(line: &Vec<Signed>, r: usize) -> (out: Vec<Signed>)
    requires
        0 < line@.len() <= crate::spread::longest(),
        r <= crate::spread::longest(),
        crate::maps::is_map(line@),
    ensures
        out@.len() == line@.len(),
        forall|x: int|
            0 <= x < line@.len() ==> #[trigger] out@[x] == mean(
                row_sum(line@, r as int, x),
                window(x, r as int, line@.len() as int),
            ),
        crate::maps::is_map(out@),
{
    let w: usize = line.len();
    let first: usize = if r + 1 < w {
        r + 1
    } else {
        w
    };
    let mut sum = Double { m: 0, e: 0 };
    let mut k: usize = 0;
    while k < first
        invariant
            k <= first <= w == line@.len(),
            crate::maps::is_map(line@),
            sum.wf(),
            sum == first_sum(line@, k as int),
        decreases first - k,
    {
        sum = sum.plus(Double::widen(line[k]));
        k += 1;
    }
    let mut out: Vec<Signed> = Vec::new();
    let mut count: usize = window_of(0, r, w);
    let mut part: Double = inverse(count);
    out.push(sum.times(part).narrow());
    let mut x: usize = 1;
    while x < w
        invariant
            part == crate::double::quotient(
                crate::double::of_int(1),
                crate::double::of_int(count as int),
            ),
            part.wf(),
            1 <= x <= w == line@.len(),
            w <= crate::spread::longest(),
            r <= crate::spread::longest(),
            crate::maps::is_map(line@),
            sum.wf(),
            sum == row_sum(line@, r as int, x - 1),
            out@.len() == x,
            forall|j: int|
                0 <= j < x ==> #[trigger] out@[j] == mean(
                    row_sum(line@, r as int, j),
                    window(j, r as int, w as int),
                ),
            crate::maps::is_map(out@),
        decreases w - x,
    {
        if x + r < w {
            sum = sum.plus(Double::widen(line[x + r]));
        }
        if x > r {
            sum = sum.take(Double::widen(line[x - r - 1]));
        }
        let n: usize = window_of(x, r, w);
        if n != count {
            count = n;
            part = inverse(n);
        }
        out.push(sum.times(part).narrow());
        x += 1;
    }
    out
}

fn rows_of(m: &Mask, r: usize) -> (out: Vec<Signed>)
    requires
        m@.wf(),
        r <= crate::spread::longest(),
    ensures
        out@ == row_means(m@.d, m@.w, m@.h, r as int),
        crate::maps::is_map(out@),
{
    let w: usize = m.w;
    let h: usize = m.h;
    let n: usize = m.d.len();
    let mut out: Vec<Signed> = Vec::with_capacity(n);
    let mut y: usize = 0;
    while y < h
        invariant
            m@.wf(),
            w == m.w,
            h == m.h,
            n == m.d@.len() == w * h,
            r <= crate::spread::longest(),
            y <= h,
            out@.len() == y * w,
            crate::maps::is_map(out@),
            forall|i: int|
                0 <= i < out@.len() ==> #[trigger] out@[i] == row_means(
                    m.d@,
                    w as int,
                    h as int,
                    r as int,
                )[i],
        decreases h - y,
    {
        proof {
            crate::grid::lemma_cell_bound(0, y as int, w as int, h as int);
        }
        let start: usize = y * w;
        let mut line: Vec<Signed> = Vec::new();
        let mut x: usize = 0;
        while x < w
            invariant
                x <= w,
                start + w <= n == m.d@.len(),
                crate::maps::is_map(m.d@),
                crate::maps::is_map(line@),
                line@.len() == x,
                forall|j: int| 0 <= j < x ==> #[trigger] line@[j] == m.d@[start + j],
            decreases w - x,
        {
            line.push(m.d[start + x]);
            x += 1;
        }
        assert(line@ =~= crate::spread::row(m.d@, w as int, y as int));
        let mut row = row_of(&line, r);
        let ghost had = out@;
        let ghost fresh = row@;
        out.append(&mut row);
        proof {
            assert forall|i: int| 0 <= i < out@.len() implies #[trigger] out@[i] == row_means(
                m.d@,
                w as int,
                h as int,
                r as int,
            )[i] by {
                if i < had.len() {
                    assert(out@[i] == had[i]);
                } else {
                    crate::grid::lemma_cell_div_mod(i - y * w, y as int, w as int);
                    assert(out@[i] == fresh[i - y * w]);
                }
            }
        }
        y += 1;
    }
    assert(h * w == w * h) by (nonlinear_arith);
    assert(out@ =~= row_means(m@.d, m@.w, m@.h, r as int));
    out
}

/// Column `x` of a map, as a row.
pub open spec fn line(a: Seq<Signed>, w: int, h: int, x: int) -> Seq<Signed> {
    crate::spread::column(a, w, h, x)
}

/// The sums of the first rows, column by column.
fn first_columns(a: &Vec<Signed>, w: usize, h: usize, k: usize) -> (col: Vec<Double>)
    requires
        0 < w,
        k <= h,
        a@.len() == w * h,
        crate::maps::is_map(a@),
    ensures
        col@.len() == w,
        forall|x: int|
            0 <= x < w ==> (#[trigger] col@[x]).wf() && col@[x] == first_sum(
                line(a@, w as int, h as int, x),
                k as int,
            ),
{
    let n: usize = a.len();
    let mut col: Vec<Double> = Vec::new();
    let mut x: usize = 0;
    while x < w
        invariant
            0 < w,
            x <= w,
            k <= h,
            n == a@.len() == w * h,
            crate::maps::is_map(a@),
            col@.len() == x,
            forall|j: int|
                0 <= j < x ==> (#[trigger] col@[j]).wf() && col@[j] == first_sum(
                    line(a@, w as int, h as int, j),
                    k as int,
                ),
        decreases w - x,
    {
        let mut sum = Double { m: 0, e: 0 };
        let mut y: usize = 0;
        while y < k
            invariant
                x < w,
                y <= k <= h,
                n == a@.len() == w * h,
                crate::maps::is_map(a@),
                sum.wf(),
                sum == first_sum(line(a@, w as int, h as int, x as int), y as int),
            decreases k - y,
        {
            proof {
                crate::grid::lemma_cell_bound(x as int, y as int, w as int, h as int);
                assert(0 <= y * w) by (nonlinear_arith);
            }
            sum = sum.plus(Double::widen(a[y * w + x]));
            y += 1;
        }
        col.push(sum);
        x += 1;
    }
    col
}

/// The cell of a column that lies `y` rows down.
fn widened(a: &Vec<Signed>, w: usize, h: usize, x: usize, y: usize) -> (r: Double)
    requires
        x < w,
        y < h,
        a@.len() == w * h,
        crate::maps::is_map(a@),
    ensures
        r == crate::double::of_single(line(a@, w as int, h as int, x as int)[y as int]),
        r.wf(),
{
    let n: usize = a.len();
    proof {
        crate::grid::lemma_cell_bound(x as int, y as int, w as int, h as int);
        assert(0 <= y * w) by (nonlinear_arith);
    }
    Double::widen(a[y * w + x])
}

/// The means over the squares of radius `r` round the cells of a map (see [`box_means`]).
pub fn box_mean(m: &Mask, r: usize) -> (out: Mask)
    requires
        m@.wf(),
        r <= crate::spread::longest(),
    ensures
        out@ == box_means(m@, r as int),
        out@.wf(),
{
    let w: usize = m.w;
    let h: usize = m.h;
    let n: usize = m.d.len();
    let a = rows_of(m, r);
    let first: usize = if r + 1 < h {
        r + 1
    } else {
        h
    };
    let mut col = first_columns(&a, w, h, first);
    let mut d: Vec<Signed> = Vec::with_capacity(n);
    let ghost (wi, hi, ri) = (w as int, h as int, r as int);
    let mut count: usize = window_of(0, r, h);
    let mut part: Double = inverse(count);
    let mut i: usize = 0;
    let mut x: usize = 0;
    let mut y: usize = 0;
    while i < n
        invariant
            x == i as int % wi,
            y == i as int / wi,
            part == crate::double::quotient(
                crate::double::of_int(1),
                crate::double::of_int(count as int),
            ),
            part.wf(),
            m@.wf(),
            w == m.w == wi,
            h == m.h == hi,
            r == ri,
            n == w * h == a@.len(),
            r <= crate::spread::longest(),
            i <= n,
            a@ == row_means(m@.d, m@.w, m@.h, ri),
            crate::maps::is_map(a@),
            col@.len() == w,
            forall|x: int|
                0 <= x < w ==> (#[trigger] col@[x]).wf() && col@[x] == column_sum(
                    line(a@, wi, hi, x),
                    ri,
                    if x < i % w {
                        i as int / wi
                    } else {
                        i as int / wi - 1
                    },
                ),
            d@.len() == i,
            forall|j: int| 0 <= j < i ==> #[trigger] d@[j] == box_means(m@, ri).d[j],
            crate::maps::is_map(d@),
        decreases n - i,
    {
        proof {
            crate::grid::lemma_cell_split(i as int, wi, hi);
        }
        let mut sum = col[x];
        if y > 0 {
            if y > r {
                sum = sum.take(widened(&a, w, h, x, y - r - 1));
            }
            if y + r < h {
                sum = sum.plus(widened(&a, w, h, x, y + r));
            }
        }
        proof {
            assert(sum == column_sum(line(a@, wi, hi, x as int), ri, y as int));
        }
        let ghost had = col@;
        col.set(x, sum);
        let k: usize = window_of(y, r, h);
        if k != count {
            count = k;
            part = inverse(k);
        }
        d.push(sum.times(part).narrow());
        proof {
            lemma_next_cell(i as int, wi);
            assert forall|k: int| 0 <= k < w implies (#[trigger] col@[k]).wf() && col@[k]
                == column_sum(
                line(a@, wi, hi, k),
                ri,
                if k < (i + 1) as int % wi {
                    (i + 1) as int / wi
                } else {
                    (i + 1) as int / wi - 1
                },
            ) by {
                if k != x {
                    assert(col@[k] == had[k]);
                }
            }
        }
        i += 1;
        x += 1;
        if x == w {
            x = 0;
            y += 1;
        }
    }
    assert(d@ =~= box_means(m@, ri).d);
    Mask { d, w, h }
}

/// The next cell lies in the same row, or at the start of the next one.
proof fn lemma_next_cell(i: int, w: int)
    requires
        i >= 0,
        w > 0,
    ensures
        i % w + 1 < w ==> (i + 1) % w == i % w + 1 && (i + 1) / w == i / w,
        i % w + 1 == w ==> (i + 1) % w == 0 && (i + 1) / w == i / w + 1,
        0 <= i % w < w,
{
    let q = i / w;
    let m = i % w;
    vstd::arithmetic::div_mod::lemma_fundamental_div_mod(i, w);
    vstd::arithmetic::div_mod::lemma_mod_bound(i, w);
    assert(w * q == q * w) by (nonlinear_arith);
    if m + 1 < w {
        vstd::arithmetic::div_mod::lemma_fundamental_div_mod_converse(i + 1, w, q, m + 1);
    } else {
        assert((q + 1) * w == q * w + w) by (nonlinear_arith);
        vstd::arithmetic::div_mod::lemma_fundamental_div_mod_converse(i + 1, w, q + 1, 0);
    }
}

/// The products of two maps.
pub open spec fn products(a: Seq<Signed>, b: Seq<Signed>) -> Seq<Signed> {
    Seq::new(a.len(), |i: int| crate::held::times(a[i], b[i]))
}

/// The products of two maps (see [`products`]).
pub fn products_of(a: &Vec<Signed>, b: &Vec<Signed>) -> (out: Vec<Signed>)
    requires
        a@.len() == b@.len(),
        crate::maps::is_map(a@),
        crate::maps::is_map(b@),
    ensures
        out@ == products(a@, b@),
        crate::maps::is_map(out@),
{
    let n: usize = a.len();
    let mut out: Vec<Signed> = Vec::new();
    let mut i: usize = 0;
    while i < n
        invariant
            i <= n == a@.len() == b@.len(),
            crate::maps::is_map(a@),
            crate::maps::is_map(b@),
            out@.len() == i,
            forall|j: int| 0 <= j < i ==> #[trigger] out@[j] == products(a@, b@)[j],
            crate::maps::is_map(out@),
        decreases n - i,
    {
        out.push(scale_by(a[i], b[i]));
        i += 1;
    }
    out
}

/// How much of the guide a filtered map follows: the covariance over the variance.
pub open spec fn slope(
    mi: Signed,
    mii: Signed,
    mp: Signed,
    mip: Signed,
    eps: Signed,
) -> Signed {
    crate::held::over(
        crate::held::minus(mip, crate::held::times(mi, mp)),
        crate::held::plus(crate::held::minus(mii, crate::held::times(mi, mi)), eps),
    )
}

/// The slopes of a guided filter.
pub open spec fn slopes(
    mi: Seq<Signed>,
    mii: Seq<Signed>,
    mp: Seq<Signed>,
    mip: Seq<Signed>,
    eps: Signed,
) -> Seq<Signed> {
    Seq::new(mi.len(), |i: int| slope(mi[i], mii[i], mp[i], mip[i], eps))
}

/// What a filtered map adds to what it follows of its guide.
pub open spec fn offsets(mi: Seq<Signed>, mp: Seq<Signed>, a: Seq<Signed>) -> Seq<Signed> {
    Seq::new(mi.len(), |i: int| crate::held::minus(mp[i], crate::held::times(a[i], mi[i])))
}

/// A map, smoothed within `r` but along the edges of a guide.
pub open spec fn guided(
    g: crate::maps::Chart,
    src: Seq<Signed>,
    r: int,
    eps: Signed,
) -> crate::maps::Chart {
    let mi = box_means(g, r).d;
    let mii = box_means(crate::maps::Chart { d: products(g.d, g.d), ..g }, r).d;
    let mp = box_means(crate::maps::Chart { d: src, ..g }, r).d;
    let mip = box_means(crate::maps::Chart { d: products(g.d, src), ..g }, r).d;
    let a = slopes(mi, mii, mp, mip, eps);
    let b = offsets(mi, mp, a);
    let ma = box_means(crate::maps::Chart { d: a, ..g }, r).d;
    let mb = box_means(crate::maps::Chart { d: b, ..g }, r).d;
    crate::maps::Chart {
        d: Seq::new(
            g.d.len(),
            |i: int| crate::held::plus(crate::held::times(ma[i], g.d[i]), mb[i]),
        ),
        w: g.w,
        h: g.h,
    }
}

fn lines_of(mi: &Vec<Signed>, mii: &Vec<Signed>, mp: &Vec<Signed>, mip: &Vec<Signed>, eps: Signed)
    -> (r: (Vec<Signed>, Vec<Signed>))
    requires
        mi@.len() == mii@.len() == mp@.len() == mip@.len(),
        crate::maps::is_map(mi@),
        crate::maps::is_map(mii@),
        crate::maps::is_map(mp@),
        crate::maps::is_map(mip@),
        crate::held::fits(eps),
    ensures
        r.0@ == slopes(mi@, mii@, mp@, mip@, eps),
        r.1@ == offsets(mi@, mp@, r.0@),
        crate::maps::is_map(r.0@),
        crate::maps::is_map(r.1@),
{
    let n: usize = mi.len();
    let mut a: Vec<Signed> = Vec::new();
    let mut b: Vec<Signed> = Vec::new();
    let ghost all = slopes(mi@, mii@, mp@, mip@, eps);
    let mut i: usize = 0;
    while i < n
        invariant
            i <= n,
            n == mi@.len() == mii@.len() == mp@.len() == mip@.len(),
            crate::maps::is_map(mi@),
            crate::maps::is_map(mii@),
            crate::maps::is_map(mp@),
            crate::maps::is_map(mip@),
            crate::held::fits(eps),
            all == slopes(mi@, mii@, mp@, mip@, eps),
            a@.len() == i,
            b@.len() == i,
            forall|j: int| 0 <= j < i ==> #[trigger] a@[j] == all[j],
            forall|j: int| 0 <= j < i ==> #[trigger] b@[j] == offsets(mi@, mp@, all)[j],
            crate::maps::is_map(a@),
            crate::maps::is_map(b@),
        decreases n - i,
    {
        let var = take_from(mii[i], scale_by(mi[i], mi[i]));
        let cov = take_from(mip[i], scale_by(mi[i], mp[i]));
        let k = divide_by(cov, add_to(var, eps));
        a.push(k);
        b.push(take_from(mp[i], scale_by(k, mi[i])));
        i += 1;
    }
    assert(a@ =~= all);
    assert(b@ =~= offsets(mi@, mp@, all));
    (a, b)
}

/// A guide with its means.
pub struct Guide {
    pub g: Mask,
    pub r: usize,
    pub mean_i: Mask,
    pub mean_ii: Mask,
}

impl Guide {
    /// The means are those of the guide.
    pub open spec fn wf(&self) -> bool {
        &&& self.g@.wf()
        &&& self.r <= crate::spread::longest()
        &&& self.mean_i@ == box_means(self.g@, self.r as int)
        &&& self.mean_ii@ == box_means(
            crate::maps::Chart { d: products(self.g@.d, self.g@.d), ..self.g@ },
            self.r as int,
        )
        &&& self.mean_i@.wf()
        &&& self.mean_ii@.wf()
    }

    /// A guide for filters of radius `r`.
    pub fn new(g: Mask, r: usize) -> (s: Guide)
        requires
            g@.wf(),
            r <= crate::spread::longest(),
        ensures
            s.wf(),
            s.g@ == g@,
            s.r == r,
    {
        let ii = Mask { d: products_of(&g.d, &g.d), w: g.w, h: g.h };
        let mean_i = box_mean(&g, r);
        let mean_ii = box_mean(&ii, r);
        Guide { g, r, mean_i, mean_ii }
    }

    /// A map, smoothed along the edges of the guide (see [`guided`]).
    pub fn filter(&self, src: &Mask, eps: Signed) -> (out: Mask)
        requires
            self.wf(),
            src@.wf(),
            src@.w == self.g@.w,
            src@.h == self.g@.h,
            crate::held::fits(eps),
        ensures
            out@ == guided(self.g@, src@.d, self.r as int, eps),
            out@.wf(),
    {
        let w: usize = self.g.w;
        let h: usize = self.g.h;
        let n: usize = self.g.d.len();
        let ip = Mask { d: products_of(&self.g.d, &src.d), w, h };
        let mean_p = box_mean(src, self.r);
        let mean_ip = box_mean(&ip, self.r);
        let (a, b) = lines_of(&self.mean_i.d, &self.mean_ii.d, &mean_p.d, &mean_ip.d, eps);
        let mean_a = box_mean(&Mask { d: a, w, h }, self.r);
        let mean_b = box_mean(&Mask { d: b, w, h }, self.r);
        let mut d: Vec<Signed> = Vec::new();
        let mut i: usize = 0;
        let ghost all = guided(self.g@, src@.d, self.r as int, eps);
        while i < n
            invariant
                i <= n == self.g.d@.len() == mean_a.d@.len() == mean_b.d@.len(),
                crate::maps::is_map(self.g.d@),
                crate::maps::is_map(mean_a.d@),
                crate::maps::is_map(mean_b.d@),
                all.d.len() == n,
                forall|j: int|
                    0 <= j < n ==> #[trigger] all.d[j] == crate::held::plus(
                        crate::held::times(mean_a.d@[j], self.g.d@[j]),
                        mean_b.d@[j],
                    ),
                d@.len() == i,
                forall|j: int| 0 <= j < i ==> #[trigger] d@[j] == all.d[j],
                crate::maps::is_map(d@),
            decreases n - i,
        {
            d.push(add_to(scale_by(mean_a.d[i], self.g.d[i]), mean_b.d[i]));
            i += 1;
        }
        assert(d@ =~= all.d);
        Mask { d, w, h }
    }
}

/// The place among `m` cells of the middle of cell `x` of `n`, no lower than the first one.
pub open spec fn spot(x: int, m: int, n: int) -> Signed {
    crate::held::minus(
        crate::held::times(
            crate::held::plus(Signed::part(x, 1), Signed::part(1, 2)),
            crate::held::over(Signed::part(m, 1), Signed::part(n, 1)),
        ),
        Signed::part(1, 2),
    ).larger(Signed::part(0, 1))
}

/// The cells before and after a place, and how far past the first one it lies.
pub open spec fn ends(f: Signed, m: int) -> (int, int, Signed) {
    let i = crate::stroke::first_cell(f, m);
    (i, crate::signed::min_of(i + 1, m - 1), crate::held::minus(f, Signed::part(i, 1)))
}

/// What a map holds at cell `(x, y)` of `w` by `h`.
pub open spec fn spread_at(c: crate::maps::Chart, x: int, y: int, w: int, h: int) -> Signed {
    let a = ends(spot(x, c.w, w), c.w);
    let b = ends(spot(y, c.h, h), c.h);
    crate::held::mixed(
        crate::held::mixed(c.d[b.0 * c.w + a.0], c.d[b.0 * c.w + a.1], a.2),
        crate::held::mixed(c.d[b.1 * c.w + a.0], c.d[b.1 * c.w + a.1], a.2),
        b.2,
    )
}

/// A map brought to `w` by `h` cells.
pub open spec fn upscaled(c: crate::maps::Chart, w: int, h: int) -> crate::maps::Chart {
    if c.w == w && c.h == h {
        c
    } else {
        crate::maps::Chart {
            d: Seq::new((w * h) as nat, |i: int| spread_at(c, i % w, i / w, w, h)),
            w,
            h,
        }
    }
}

fn ends_of(x: usize, m: usize, n: usize) -> (r: (usize, usize, Signed))
    requires
        0 < m <= crate::spread::longest(),
        0 < n <= crate::spread::longest(),
        x < n,
    ensures
        (r.0 as int, r.1 as int, r.2) == ends(spot(x as int, m as int, n as int), m as int),
        r.0 < m,
        r.1 < m,
        crate::held::fits(r.2),
{
    let half = Signed::of(1, 2);
    let f = take_from(
        scale_by(add_to(whole(x as u64), half), divide_by(whole(m as u64), whole(n as u64))),
        half,
    ).max(Signed::zero());
    let i: usize = first_cell_of(f, m as u32) as usize;
    let j: usize = if i + 1 < m {
        i + 1
    } else {
        m - 1
    };
    (i, j, take_from(f, whole(i as u64)))
}

/// The cells that a row of `n` places lies between, of `m`.
pub open spec fn are_ends(v: Seq<(usize, usize, Signed)>, m: int, n: int) -> bool {
    &&& v.len() == n
    &&& forall|x: int|
        0 <= x < n ==> ((#[trigger] v[x]).0 as int, v[x].1 as int, v[x].2) == ends(
            spot(x, m, n),
            m,
        ) && v[x].0 < m && v[x].1 < m && crate::held::fits(v[x].2)
}

fn all_ends(m: usize, n: usize) -> (v: Vec<(usize, usize, Signed)>)
    requires
        0 < m <= crate::spread::longest(),
        0 < n <= crate::spread::longest(),
    ensures
        are_ends(v@, m as int, n as int),
{
    let mut v: Vec<(usize, usize, Signed)> = Vec::new();
    let mut x: usize = 0;
    while x < n
        invariant
            0 < m <= crate::spread::longest(),
            x <= n <= crate::spread::longest(),
            v@.len() == x,
            forall|k: int|
                0 <= k < x ==> ((#[trigger] v@[k]).0 as int, v@[k].1 as int, v@[k].2) == ends(
                    spot(k, m as int, n as int),
                    m as int,
                ) && v@[k].0 < m && v@[k].1 < m && crate::held::fits(v@[k].2),
        decreases n - x,
    {
        v.push(ends_of(x, m, n));
        x += 1;
    }
    v
}

/// A copy of a map.
pub fn copy_of(m: &Mask) -> (out: Mask)
    ensures
        out@ == m@,
{
    let n: usize = m.d.len();
    let mut d: Vec<Signed> = Vec::new();
    let mut i: usize = 0;
    while i < n
        invariant
            i <= n == m.d@.len(),
            d@ == m.d@.take(i as int),
        decreases n - i,
    {
        d.push(m.d[i]);
        assert(m.d@.take(i + 1) =~= m.d@.take(i as int).push(m.d@[i as int]));
        i += 1;
    }
    assert(d@ =~= m.d@);
    Mask { d, w: m.w, h: m.h }
}

fn cell_of(m: &Mask, x: usize, y: usize) -> (v: Signed)
    requires
        m@.wf(),
        x < m.w,
        y < m.h,
    ensures
        v == m@.d[y * m.w + x],
        crate::held::fits(v),
{
    let n: usize = m.d.len();
    proof {
        crate::grid::lemma_cell_bound(x as int, y as int, m.w as int, m.h as int);
        assert(0 <= y * m.w) by (nonlinear_arith);
    }
    m.d[y * m.w + x]
}

/// A map brought to `w` by `h` cells (see [`upscaled`]).
pub fn upscale(m: &Mask, w: usize, h: usize) -> (out: Mask)
    requires
        m@.wf(),
        0 < w <= crate::spread::longest(),
        0 < h <= crate::spread::longest(),
        w * h <= usize::MAX,
    ensures
        out@ == upscaled(m@, w as int, h as int),
        out@.wf(),
{
    if m.w == w && m.h == h {
        return copy_of(m);
    }
    let n: usize = w * h;
    let across = all_ends(m.w, w);
    let along = all_ends(m.h, h);
    let mut d: Vec<Signed> = Vec::with_capacity(n);
    let mut i: usize = 0;
    let mut x: usize = 0;
    let mut y: usize = 0;
    while i < n
        invariant
            x == i as int % (w as int),
            y == i as int / (w as int),
            m@.wf(),
            0 < w <= crate::spread::longest(),
            0 < h <= crate::spread::longest(),
            i <= n == w * h,
            are_ends(across@, m@.w, w as int),
            are_ends(along@, m@.h, h as int),
            d@.len() == i,
            forall|j: int|
                0 <= j < i ==> #[trigger] d@[j] == spread_at(
                    m@,
                    j % w as int,
                    j / w as int,
                    w as int,
                    h as int,
                ),
            crate::maps::is_map(d@),
        decreases n - i,
    {
        proof {
            crate::grid::lemma_cell_split(i as int, w as int, h as int);
            lemma_next_cell(i as int, w as int);
        }
        let a = across[x];
        let b = along[y];
        let top = mix(cell_of(m, a.0, b.0), cell_of(m, a.1, b.0), a.2);
        let bottom = mix(cell_of(m, a.0, b.1), cell_of(m, a.1, b.1), a.2);
        d.push(mix(top, bottom, b.2));
        i += 1;
        x += 1;
        if x == w {
            x = 0;
            y += 1;
        }
    }
    assert(d@ =~= upscaled(m@, w as int, h as int).d);
    Mask { d, w, h }
}

/// The mean of the numbers within `r` of place `i` of a row.
pub open spec fn smooth_at(v: Seq<Signed>, r: int, i: int) -> Signed {
    let lo = crate::signed::max_of(i - r, 0);
    let hi = crate::signed::min_of(i + r + 1, v.len() as int);
    crate::double::to_single(
        crate::double::quotient(
            crate::double::sum(first_sum(v, hi), crate::double::minus(first_sum(v, lo))),
            crate::double::of_int(hi - lo),
        ),
    )
}

/// The means of a row.
pub open spec fn smoothed(v: Seq<Signed>, r: int) -> Seq<Signed> {
    Seq::new(v.len(), |i: int| smooth_at(v, r, i))
}

/// The means of a row (see [`smoothed`]).
pub fn smooth_row(v: &Vec<Signed>, r: usize) -> (out: Vec<Signed>)
    requires
        v@.len() <= crate::spread::longest(),
        r <= crate::spread::longest(),
        crate::maps::is_map(v@),
    ensures
        out@ == smoothed(v@, r as int),
        crate::maps::is_map(out@),
{
    let n: usize = v.len();
    let mut sums: Vec<Double> = Vec::new();
    sums.push(Double { m: 0, e: 0 });
    let mut k: usize = 0;
    while k < n
        invariant
            k <= n == v@.len(),
            crate::maps::is_map(v@),
            sums@.len() == k + 1,
            forall|j: int|
                0 <= j <= k ==> (#[trigger] sums@[j]).wf() && sums@[j] == first_sum(v@, j),
        decreases n - k,
    {
        let next = sums[k].plus(Double::widen(v[k]));
        sums.push(next);
        k += 1;
    }
    let mut out: Vec<Signed> = Vec::new();
    let mut i: usize = 0;
    while i < n
        invariant
            i <= n == v@.len() <= crate::spread::longest(),
            r <= crate::spread::longest(),
            sums@.len() == n + 1,
            forall|j: int|
                0 <= j <= n ==> (#[trigger] sums@[j]).wf() && sums@[j] == first_sum(v@, j),
            out@.len() == i,
            forall|j: int| 0 <= j < i ==> #[trigger] out@[j] == smoothed(v@, r as int)[j],
            crate::maps::is_map(out@),
        decreases n - i,
    {
        let lo: usize = if i < r {
            0
        } else {
            i - r
        };
        let hi: usize = if i + r + 1 < n {
            i + r + 1
        } else {
            n
        };
        out.push(sums[hi].take(sums[lo]).over(Double::of((hi - lo) as u64)).narrow());
        i += 1;
    }
    out
}

/// The number at a share of a list, or another one where the list is empty.
pub open spec fn quantile(v: Seq<Signed>, num: int, den: int, other: Signed) -> Signed {
    if v.len() == 0 {
        other
    } else {
        crate::enhance::in_order(v)[crate::signed::min_of(
            crate::scale::portion(v.len() - 1, num, den),
            v.len() - 1,
        )]
    }
}

/// The number at a share of a list (see [`quantile`]).
pub fn quantile_of(v: &Vec<Signed>, num: u64, den: u64, other: Signed) -> (r: Signed)
    requires
        v@.len() <= u32::MAX,
        crate::maps::is_map(v@),
        0 < num <= den,
        crate::held::fits(other),
    ensures
        r == quantile(v@, num as int, den as int, other),
        crate::held::fits(r),
{
    if v.len() == 0 {
        return other;
    }
    let l = crate::enhance::Ladder::of(v);
    let r = l.nearest(num, den);
    proof {
        let i = choose|i: int| 0 <= i < l.levels().len() && l.levels()[i] == r;
        assert(v@.contains(l.levels()[i]));
    }
    r
}

} // verus!
