//! Box blur of planes of numbers.

use vstd::prelude::*;

use crate::held::{add_to, divide_by, hold, scale_by, take_from, whole};
use crate::signed::Signed;

verus! {

/// The longest side of a picture: it has 32 bits, and a row of its bytes can be addressed.
pub open spec fn longest() -> int {
    if usize::MAX > u32::MAX {
        u32::MAX as int
    } else {
        isize::MAX as int / 3
    }
}

/// The longest side of a picture (see [`longest`]).
pub fn longest_side() -> (n: usize)
    ensures
        n == longest(),
        n > 0,
{
    if usize::MAX as u64 > 0xFFFF_FFFF {
        0xFFFF_FFFF
    } else {
        0x2AAA_AAAA
    }
}

pub const SPREAD_REACH: usize = 1000;

/// Place `i` of a line, or its last place.
pub open spec fn upto(i: int, n: int) -> int {
    if i < n {
        i
    } else {
        n - 1
    }
}

/// Place `i` of a line, or its first place.
pub open spec fn from(i: int) -> int {
    if i < 0 {
        0
    } else {
        i
    }
}

/// What lies around the first place: the first number `r` times over, and the first `k` numbers.
pub open spec fn opening(line: Seq<Signed>, r: int, k: int) -> Signed
    decreases k,
{
    if k <= 0 {
        crate::held::times(line[0], Signed::part(r, 1))
    } else {
        crate::held::plus(opening(line, r, k - 1), line[upto(k - 1, line.len() as int)])
    }
}

/// What lies up to `r` places away from place `x`, the ends going on for ever.
pub open spec fn around(line: Seq<Signed>, r: int, x: int) -> Signed
    decreases x,
{
    if x <= 0 {
        opening(line, r, r + 1)
    } else {
        crate::held::plus(
            around(line, r, x - 1),
            crate::held::minus(line[upto(x + r, line.len() as int)], line[from(x - 1 - r)]),
        )
    }
}

/// The numbers of a line as far as the range goes.
pub open spec fn tamed(line: Seq<Signed>) -> Seq<Signed> {
    Seq::new(line.len(), |i: int| crate::held::held(line[i]))
}

/// The mean of what lies around a place.
pub open spec fn mean(line: Seq<Signed>, r: int, x: int) -> Signed {
    crate::held::over(around(tamed(line), r, x), Signed::part(2 * r + 1, 1))
}

fn tame(line: &Vec<Signed>) -> (out: Vec<Signed>)
    requires
        forall|i: int| 0 <= i < line@.len() ==> (#[trigger] line@[i]).within(20_000),
    ensures
        out@ == tamed(line@),
        forall|i: int| 0 <= i < out@.len() ==> crate::held::fits(#[trigger] out@[i]),
{
    let n: usize = line.len();
    let mut out: Vec<Signed> = Vec::new();
    let mut i: usize = 0;
    while i < n
        invariant
            i <= n == line@.len(),
            forall|j: int| 0 <= j < line@.len() ==> (#[trigger] line@[j]).within(20_000),
            out@.len() == i,
            forall|j: int| 0 <= j < i ==> #[trigger] out@[j] == crate::held::held(line@[j]),
            forall|j: int| 0 <= j < i ==> crate::held::fits(#[trigger] out@[j]),
        decreases n - i,
    {
        out.push(hold(line[i]));
        i += 1;
    }
    assert(out@ =~= tamed(line@));
    out
}

/// The mean of what lies around each place of a line.
fn blur_line(all: &Vec<Signed>, r: usize) -> (out: Vec<Signed>)
    requires
        0 < all@.len() <= longest(),
        r <= SPREAD_REACH,
        forall|i: int| 0 <= i < all@.len() ==> (#[trigger] all@[i]).within(20_000),
    ensures
        out@.len() == all@.len(),
        forall|x: int| 0 <= x < out@.len() ==> #[trigger] out@[x] == mean(all@, r as int, x),
        forall|x: int| 0 <= x < out@.len() ==> crate::held::fits(#[trigger] out@[x]),
{
    let line = tame(all);
    let n: usize = line.len();
    let mut sum = scale_by(line[0], whole(r as u64));
    let mut i: usize = 0;
    while i < r + 1
        invariant
            i <= r + 1,
            r <= SPREAD_REACH,
            n == line@.len() > 0,
            forall|j: int| 0 <= j < line@.len() ==> crate::held::fits(#[trigger] line@[j]),
            sum == opening(line@, r as int, i as int),
            crate::held::fits(sum),
        decreases r + 1 - i,
    {
        let at: usize = if i < n {
            i
        } else {
            n - 1
        };
        sum = add_to(sum, line[at]);
        i += 1;
    }
    let count = whole(2 * r as u64 + 1);
    let mut out: Vec<Signed> = Vec::new();
    let mut x: usize = 0;
    while x < n
        invariant
            x <= n,
            r <= SPREAD_REACH,
            n == line@.len() <= longest(),
            n > 0,
            line@ == tamed(all@),
            forall|j: int| 0 <= j < line@.len() ==> crate::held::fits(#[trigger] line@[j]),
            x < n ==> sum == around(line@, r as int, x as int),
            crate::held::fits(sum),
            count == Signed::part(2 * r + 1, 1),
            crate::held::fits(count),
            out@.len() == x,
            forall|j: int| 0 <= j < x ==> #[trigger] out@[j] == mean(all@, r as int, j),
            forall|j: int| 0 <= j < x ==> crate::held::fits(#[trigger] out@[j]),
        decreases n - x,
    {
        out.push(divide_by(sum, count));
        let a: usize = if r + 1 < n - x {
            x + r + 1
        } else {
            n - 1
        };
        let b: usize = if x < r {
            0
        } else {
            x - r
        };
        sum = add_to(sum, take_from(line[a], line[b]));
        x += 1;
    }
    out
}

/// Row `y` of a plane `w` wide.
pub open spec fn row(d: Seq<Signed>, w: int, y: int) -> Seq<Signed> {
    Seq::new(w as nat, |x: int| d[y * w + x])
}

/// Column `x` of a plane.
pub open spec fn column(d: Seq<Signed>, w: int, h: int, x: int) -> Seq<Signed> {
    Seq::new(h as nat, |y: int| d[y * w + x])
}

/// A plane with its rows blurred.
pub open spec fn across(d: Seq<Signed>, w: int, h: int, r: int) -> Seq<Signed> {
    Seq::new((w * h) as nat, |i: int| mean(row(d, w, i / w), r, i % w))
}

/// A plane with its columns blurred.
pub open spec fn down(d: Seq<Signed>, w: int, h: int, r: int) -> Seq<Signed> {
    Seq::new((w * h) as nat, |i: int| mean(column(d, w, h, i % w), r, i / w))
}

/// A plane with its rows and then its columns blurred.
pub open spec fn blurred(d: Seq<Signed>, w: int, h: int, r: int) -> Seq<Signed> {
    down(across(d, w, h, r), w, h, r)
}

/// Blurs the rows of a plane.
fn blur_rows(d: &Vec<Signed>, w: usize, h: usize, r: usize) -> (out: Vec<Signed>)
    requires
        0 < w <= longest(),
        d@.len() == w * h,
        r <= SPREAD_REACH,
        forall|i: int| 0 <= i < d@.len() ==> (#[trigger] d@[i]).within(20_000),
    ensures
        out@ == across(d@, w as int, h as int, r as int),
        forall|i: int| 0 <= i < out@.len() ==> crate::held::fits(#[trigger] out@[i]),
{
    let n: usize = d.len();
    let mut out: Vec<Signed> = Vec::new();
    let mut y: usize = 0;
    while y < h
        invariant
            y <= h,
            0 < w <= longest(),
            n == d@.len() == w * h,
            r <= SPREAD_REACH,
            forall|i: int| 0 <= i < d@.len() ==> (#[trigger] d@[i]).within(20_000),
            out@.len() == y * w,
            forall|i: int|
                0 <= i < out@.len() ==> #[trigger] out@[i] == mean(
                    row(d@, w as int, i / w as int),
                    r as int,
                    i % w as int,
                ),
            forall|i: int| 0 <= i < out@.len() ==> crate::held::fits(#[trigger] out@[i]),
        decreases h - y,
    {
        let mut line: Vec<Signed> = Vec::new();
        let mut x: usize = 0;
        proof {
            crate::grid::lemma_cell_bound(0, y as int, w as int, h as int);
        }
        while x < w
            invariant
                x <= w,
                y < h,
                n == d@.len() == w * h,
                y * w + w <= n,
                line@.len() == x,
                forall|i: int| 0 <= i < x ==> #[trigger] line@[i] == d@[y * w + i],
            decreases w - x,
        {
            line.push(d[y * w + x]);
            x += 1;
        }
        assert(line@ =~= row(d@, w as int, y as int));
        assert forall|i: int| 0 <= i < line@.len() implies (#[trigger] line@[i]).within(20_000) by {
            assert(d@[y * w + i].within(20_000));
        }
        let mut soft = blur_line(&line, r);
        let ghost before = out@;
        let ghost added = soft@;
        out.append(&mut soft);
        proof {
            assert((y + 1) * w == y * w + w) by (nonlinear_arith);
            assert forall|i: int| 0 <= i < out@.len() implies #[trigger] out@[i] == mean(
                row(d@, w as int, i / w as int),
                r as int,
                i % w as int,
            ) by {
                if i < before.len() {
                    assert(out@[i] == before[i]);
                } else {
                    let j = i - before.len();
                    assert(out@[i] == added[j]);
                    crate::grid::lemma_cell_div_mod(j, y as int, w as int);
                    assert(crate::grid::cell(j, y as int, w as int) == i);
                }
            }
            assert forall|i: int| 0 <= i < out@.len() implies crate::held::fits(#[trigger] out@[i]) by {
                if i < before.len() {
                    assert(out@[i] == before[i]);
                } else {
                    assert(out@[i] == added[i - before.len()]);
                }
            }
        }
        y += 1;
    }
    proof {
        assert(h * w == w * h) by (nonlinear_arith);
    }
    assert(out@ =~= across(d@, w as int, h as int, r as int));
    out
}

/// A plane with rows and columns exchanged.
fn flip(d: &Vec<Signed>, w: usize, h: usize) -> (out: Vec<Signed>)
    requires
        0 < h,
        d@.len() == w * h,
    ensures
        out@.len() == w * h,
        forall|i: int|
            0 <= i < out@.len() ==> #[trigger] out@[i] == d@[(i % h as int) * w + i / h as int],
{
    let n: usize = d.len();
    let mut out: Vec<Signed> = Vec::new();
    let mut i: usize = 0;
    while i < n
        invariant
            i <= n,
            n == d@.len() == w * h,
            0 < h,
            out@.len() == i,
            forall|j: int|
                0 <= j < i ==> #[trigger] out@[j] == d@[(j % h as int) * w + j / h as int],
        decreases n - i,
    {
        proof {
            assert(h * w == w * h) by (nonlinear_arith);
            crate::grid::lemma_cell_split(i as int, h as int, w as int);
            crate::grid::lemma_cell_bound(i as int / h as int, i as int % h as int, w as int, h as int);
        }
        out.push(d[(i % h) * w + i / h]);
        i += 1;
    }
    out
}

/// The mean of what lies up to `r` places away along rows, and then along columns (see [`blurred`]).
pub fn box_blur(d: &Vec<Signed>, w: usize, h: usize, r: usize) -> (out: Vec<Signed>)
    requires
        0 < w <= longest(),
        0 < h <= longest(),
        d@.len() == w * h,
        r <= SPREAD_REACH,
        forall|i: int| 0 <= i < d@.len() ==> (#[trigger] d@[i]).within(20_000),
    ensures
        out@ == blurred(d@, w as int, h as int, r as int),
        forall|i: int| 0 <= i < out@.len() ==> crate::held::fits(#[trigger] out@[i]),
{
    let rows = blur_rows(d, w, h, r);
    let turned = flip(&rows, w, h);
    proof {
        assert forall|i: int| 0 <= i < turned@.len() implies (#[trigger] turned@[i]).within(20_000) by {
            assert(h * w == w * h) by (nonlinear_arith);
            crate::grid::lemma_cell_split(i, h as int, w as int);
            crate::grid::lemma_cell_bound(i / h as int, i % h as int, w as int, h as int);
            assert(rows@[(i % h as int) * w + i / h as int].within(20_000));
        }
        assert(w * h == h * w) by (nonlinear_arith);
    }
    let soft = blur_rows(&turned, h, w, r);
    let out = flip(&soft, h, w);
    proof {
        let all = across(d@, w as int, h as int, r as int);
        assert forall|i: int| 0 <= i < out@.len() implies #[trigger] out@[i] == blurred(
            d@,
            w as int,
            h as int,
            r as int,
        )[i] && crate::held::fits(out@[i]) by {
            crate::grid::lemma_cell_split(i, w as int, h as int);
            let x = i % w as int;
            let y = i / w as int;
            assert(h * w == w * h) by (nonlinear_arith);
            crate::grid::lemma_cell_bound(y, x, h as int, w as int);
            crate::grid::lemma_cell_div_mod(y, x, h as int);
            let j = crate::grid::cell(y, x, h as int);
            assert(out@[i] == soft@[j]);
            assert forall|k: int| 0 <= k < h implies #[trigger] row(turned@, h as int, x)[k] == column(
                all,
                w as int,
                h as int,
                x,
            )[k] by {
                crate::grid::lemma_cell_bound(k, x, h as int, w as int);
                crate::grid::lemma_cell_div_mod(k, x, h as int);
                assert(turned@[crate::grid::cell(k, x, h as int)] == rows@[k * w + x]);
            }
            assert(row(turned@, h as int, x) =~= column(all, w as int, h as int, x));
        }
        assert(out@ =~= blurred(d@, w as int, h as int, r as int));
    }
    out
}

} // verus!
