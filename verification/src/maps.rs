//! Maps: one number per pixel of a picture.

use vstd::prelude::*;

use crate::held::{add_to, divide_by, scale_by, take_from, whole};
use crate::raster::Raster;
use crate::signed::Signed;
use crate::stroke::first_cell_of;

verus! {

/// Every number lies in the range.
pub open spec fn is_map(d: Seq<Signed>) -> bool {
    forall|i: int| 0 <= i < d.len() ==> crate::held::fits(#[trigger] d[i])
}

/// How far `v` has come from `lo` to `hi`, from 0 to 1, slow at either end. Where the ends coincide
/// it has either not started or arrived.
pub open spec fn eased(lo: Signed, hi: Signed, v: Signed) -> Signed {
    if !lo.lies_below(hi) {
        if v.lies_below(hi) {
            Signed::part(0, 1)
        } else {
            Signed::part(1, 1)
        }
    } else {
        let t = crate::held::over(crate::held::minus(v, lo), crate::held::minus(hi, lo)).clamped(
            Signed::part(0, 1),
            Signed::part(1, 1),
        );
        crate::held::times(
            crate::held::times(t, t),
            crate::held::minus(Signed::part(3, 1), crate::held::times(Signed::part(2, 1), t)),
        )
    }
}

/// How far `v` has come from `lo` to `hi` (see [`eased`]).
pub fn ease_between(lo: Signed, hi: Signed, v: Signed) -> (r: Signed)
    requires
        crate::held::fits(lo),
        crate::held::fits(hi),
        crate::held::fits(v),
    ensures
        r == eased(lo, hi, v),
        crate::held::fits(r),
{
    let zero = Signed::zero();
    let one = Signed::of(1, 1);
    if !lo.less(hi) {
        if v.less(hi) {
            zero
        } else {
            one
        }
    } else {
        let t = divide_by(take_from(v, lo), take_from(hi, lo)).clamp(zero, one);
        scale_by(scale_by(t, t), take_from(Signed::of(3, 1), scale_by(Signed::of(2, 1), t)))
    }
}

/// Channel `c` of pixel `i`, from 0 to 1.
pub open spec fn tone(d: Seq<u8>, i: int, c: int) -> Signed {
    crate::held::over(Signed::part(d[i * 3 + c] as int, 1), Signed::part(255, 1))
}

/// A byte as a number from 0 to 1.
pub fn tone_of(b: u8) -> (v: Signed)
    ensures
        v == crate::held::over(Signed::part(b as int, 1), Signed::part(255, 1)),
        crate::held::fits(v),
{
    divide_by(whole(b as u64), whole(255))
}

/// How bright a colour is.
pub open spec fn brightness(r: Signed, g: Signed, b: Signed) -> Signed {
    crate::held::plus(
        crate::held::plus(
            crate::held::times(r, Signed::part(2126, 10000)),
            crate::held::times(g, Signed::part(7152, 10000)),
        ),
        crate::held::times(b, Signed::part(722, 10000)),
    )
}

/// How bright a colour is (see [`brightness`]).
pub fn brightness_of(r: Signed, g: Signed, b: Signed) -> (y: Signed)
    requires
        crate::held::fits(r),
        crate::held::fits(g),
        crate::held::fits(b),
    ensures
        y == brightness(r, g, b),
        crate::held::fits(y),
{
    add_to(
        add_to(scale_by(r, Signed::of(2126, 10000)), scale_by(g, Signed::of(7152, 10000))),
        scale_by(b, Signed::of(722, 10000)),
    )
}

/// How bright the pixels of a picture are.
pub open spec fn lights(d: Seq<u8>, n: int) -> Seq<Signed> {
    Seq::new(n as nat, |i: int| brightness(tone(d, i, 0), tone(d, i, 1), tone(d, i, 2)))
}

/// How bright the pixels of a picture are (see [`lights`]).
pub fn lights_of(img: &Raster) -> (v: Vec<Signed>)
    requires
        img@.wf(),
    ensures
        v@ == lights(img@.d, img@.w * img@.h),
        is_map(v@),
{
    let len: usize = img.d.len();
    let ghost n = img@.w * img@.h;
    let mut v: Vec<Signed> = Vec::new();
    let mut i: usize = 0;
    while i < len / 3
        invariant
            len == img.d@.len() == n * 3,
            i <= len / 3 == n,
            v@.len() == i,
            forall|j: int| 0 <= j < i ==> #[trigger] v@[j] == lights(img.d@, n)[j],
            is_map(v@),
        decreases len / 3 - i,
    {
        v.push(
            brightness_of(
                tone_of(img.d[i * 3]),
                tone_of(img.d[i * 3 + 1]),
                tone_of(img.d[i * 3 + 2]),
            ),
        );
        i += 1;
    }
    v
}

/// The sum that a row opens with: its first number `r + 1` times, then the next `k`, the last one
/// standing for those past the end.
pub open spec fn opening(line: Seq<Signed>, r: int, k: int) -> Signed
    decreases k,
{
    if k <= 0 {
        crate::held::times(line[0], Signed::part(r + 1, 1))
    } else {
        crate::held::plus(
            opening(line, r, k - 1),
            line[crate::spread::upto(k, line.len() as int)],
        )
    }
}

/// The running sum round place `x` of a row.
pub open spec fn around(line: Seq<Signed>, r: int, x: int) -> Signed
    decreases x,
{
    if x <= 0 {
        opening(line, r, r)
    } else {
        crate::held::minus(
            crate::held::plus(
                around(line, r, x - 1),
                line[crate::spread::upto(x + r, line.len() as int)],
            ),
            line[crate::spread::from(x - 1 - r)],
        )
    }
}

/// The means of a row.
pub open spec fn means(line: Seq<Signed>, r: int) -> Seq<Signed> {
    Seq::new(
        line.len(),
        |x: int| crate::held::over(around(line, r, x), Signed::part(2 * r + 1, 1)),
    )
}

/// The means of a row (see [`means`]).
fn means_of(line: &Vec<Signed>, r: usize) -> (out: Vec<Signed>)
    requires
        0 < line@.len() <= crate::spread::longest(),
        0 < r <= crate::spread::longest(),
        is_map(line@),
    ensures
        out@ == means(line@, r as int),
        is_map(out@),
{
    let w: usize = line.len();
    let win = whole(2 * r as u64 + 1);
    let mut acc = scale_by(line[0], whole(r as u64 + 1));
    let mut k: usize = 1;
    while k <= r
        invariant
            1 <= k <= r + 1 <= crate::spread::longest() + 1,
            w == line@.len(),
            0 < w <= crate::spread::longest(),
            is_map(line@),
            crate::held::fits(acc),
            acc == opening(line@, r as int, k - 1),
        decreases r + 1 - k,
    {
        let at: usize = if k < w {
            k
        } else {
            w - 1
        };
        acc = add_to(acc, line[at]);
        k += 1;
    }
    let mut out: Vec<Signed> = Vec::new();
    let mut x: usize = 0;
    while x < w
        invariant
            x <= w == line@.len(),
            0 < w <= crate::spread::longest(),
            0 < r <= crate::spread::longest(),
            is_map(line@),
            crate::held::fits(acc),
            acc == around(line@, r as int, x as int),
            crate::held::fits(win),
            win == Signed::part(2 * r + 1, 1),
            out@.len() == x,
            is_map(out@),
            forall|j: int| 0 <= j < x ==> #[trigger] out@[j] == means(line@, r as int)[j],
        decreases w - x,
    {
        out.push(divide_by(acc, win));
        let enter: usize = if x + r + 1 < w {
            x + r + 1
        } else {
            w - 1
        };
        let leave: usize = if x < r {
            0
        } else {
            x - r
        };
        acc = take_from(add_to(acc, line[enter]), line[leave]);
        x += 1;
    }
    out
}

/// The means along the rows of a map.
pub open spec fn across(d: Seq<Signed>, w: int, h: int, r: int) -> Seq<Signed> {
    Seq::new((w * h) as nat, |i: int| means(crate::spread::row(d, w, i / w), r)[i % w])
}

/// A map with rows and columns swapped.
pub open spec fn flipped(d: Seq<Signed>, w: int, h: int) -> Seq<Signed> {
    Seq::new((w * h) as nat, |i: int| d[(i % h) * w + i / h])
}

/// A map, blurred along its rows and then along its columns.
pub open spec fn blurred(d: Seq<Signed>, w: int, h: int, r: int) -> Seq<Signed> {
    flipped(across(flipped(across(d, w, h, r), w, h), h, w, r), h, w)
}

/// The means along the rows of a map (see [`across`]).
fn blur_across(d: &Vec<Signed>, w: usize, h: usize, r: usize) -> (out: Vec<Signed>)
    requires
        0 < w <= crate::spread::longest(),
        0 < h <= crate::spread::longest(),
        d@.len() == w * h,
        0 < r <= crate::spread::longest(),
        is_map(d@),
    ensures
        out@ == across(d@, w as int, h as int, r as int),
        is_map(out@),
{
    let n: usize = d.len();
    let mut out: Vec<Signed> = Vec::new();
    let mut y: usize = 0;
    while y < h
        invariant
            0 < w <= crate::spread::longest(),
            y <= h,
            n == d@.len() == w * h,
            0 < r <= crate::spread::longest(),
            is_map(d@),
            is_map(out@),
            out@.len() == y * w,
            forall|i: int|
                0 <= i < out@.len() ==> #[trigger] out@[i] == across(
                    d@,
                    w as int,
                    h as int,
                    r as int,
                )[i],
        decreases h - y,
    {
        proof {
            crate::grid::lemma_cell_bound(0, y as int, w as int, h as int);
        }
        let start: usize = y * w;
        let mut line: Vec<Signed> = Vec::new();
        let mut x: usize = 0;
        while x < w
            invariant
                x <= w,
                start + w <= n == d@.len(),
                is_map(d@),
                is_map(line@),
                line@.len() == x,
                forall|j: int| 0 <= j < x ==> #[trigger] line@[j] == d@[start + j],
            decreases w - x,
        {
            line.push(d[start + x]);
            x += 1;
        }
        assert(line@ =~= crate::spread::row(d@, w as int, y as int));
        let mut m = means_of(&line, r);
        let ghost had = out@;
        let ghost row = m@;
        out.append(&mut m);
        proof {
            assert forall|i: int| 0 <= i < out@.len() implies #[trigger] out@[i] == across(
                d@,
                w as int,
                h as int,
                r as int,
            )[i] by {
                if i < had.len() {
                    assert(out@[i] == had[i]);
                } else {
                    crate::grid::lemma_cell_div_mod(i - y * w, y as int, w as int);
                    assert(out@[i] == row[i - y * w]);
                }
            }
        }
        y += 1;
    }
    assert(h * w == w * h) by (nonlinear_arith);
    assert(out@ =~= across(d@, w as int, h as int, r as int));
    out
}

/// A map with rows and columns swapped (see [`flipped`]).
fn flip(d: &Vec<Signed>, w: usize, h: usize) -> (out: Vec<Signed>)
    requires
        0 < w,
        0 < h,
        d@.len() == w * h,
        is_map(d@),
    ensures
        out@ == flipped(d@, w as int, h as int),
        is_map(out@),
{
    let n: usize = d.len();
    let mut out: Vec<Signed> = Vec::new();
    let mut i: usize = 0;
    while i < n
        invariant
            i <= n == d@.len() == w * h,
            0 < w,
            0 < h,
            is_map(d@),
            is_map(out@),
            out@.len() == i,
            forall|j: int| 0 <= j < i ==> #[trigger] out@[j] == flipped(d@, w as int, h as int)[j],
        decreases n - i,
    {
        proof {
            assert(w * h == h * w) by (nonlinear_arith);
            crate::grid::lemma_cell_split(i as int, h as int, w as int);
            crate::grid::lemma_cell_bound((i / h) as int, (i % h) as int, w as int, h as int);
        }
        let y: usize = i % h;
        let x: usize = i / h;
        assert(0 <= y * w) by (nonlinear_arith);
        out.push(d[y * w + x]);
        i += 1;
    }
    out
}

/// A map, blurred with a radius (see [`blurred`]).
pub fn blur(d: &Vec<Signed>, w: usize, h: usize, r: usize) -> (out: Vec<Signed>)
    requires
        0 < w <= crate::spread::longest(),
        0 < h <= crate::spread::longest(),
        d@.len() == w * h,
        0 < r <= crate::spread::longest(),
        is_map(d@),
    ensures
        out@ == blurred(d@, w as int, h as int, r as int),
        out@.len() == d@.len(),
        is_map(out@),
{
    assert(w * h == h * w) by (nonlinear_arith);
    let a = blur_across(d, w, h, r);
    let b = flip(&a, w, h);
    let c = blur_across(&b, h, w, r);
    flip(&c, h, w)
}

/// The longer of two sides over `k`, but at least `lo`.
pub open spec fn reach(w: int, h: int, k: int, lo: int) -> int {
    crate::signed::max_of(crate::signed::max_of(w, h) / k, lo)
}

/// The longer of two sides over `k` (see [`reach`]).
pub fn reach_of(w: usize, h: usize, k: usize, lo: usize) -> (r: usize)
    requires
        w <= crate::spread::longest(),
        h <= crate::spread::longest(),
        k > 0,
        lo <= crate::spread::longest(),
    ensures
        r == reach(w as int, h as int, k as int, lo as int),
        lo <= r <= crate::spread::longest(),
{
    let long: usize = if w < h {
        h
    } else {
        w
    };
    let r: usize = long / k;
    assert(long as int / k as int <= long) by (nonlinear_arith)
        requires
            k > 0,
            long >= 0,
    ;
    if r < lo {
        lo
    } else {
        r
    }
}

/// The mean of a map, summed up in order.
pub open spec fn sum_upto(d: Seq<Signed>, n: int) -> Signed
    decreases n,
{
    if n <= 0 {
        Signed::part(0, 1)
    } else {
        crate::held::plus(sum_upto(d, n - 1), d[n - 1])
    }
}

/// How much of a map is on.
pub open spec fn cover(d: Seq<Signed>) -> Signed {
    crate::held::over(
        sum_upto(d, d.len() as int),
        Signed::part(crate::signed::max_of(d.len() as int, 1), 1),
    )
}

/// How much of a map is on (see [`cover`]).
pub fn cover_of(d: &Vec<Signed>) -> (v: Signed)
    requires
        is_map(d@),
    ensures
        v == cover(d@),
        crate::held::fits(v),
{
    let n: usize = d.len();
    let mut sum = Signed::zero();
    let mut i: usize = 0;
    while i < n
        invariant
            i <= n == d@.len(),
            is_map(d@),
            crate::held::fits(sum),
            sum == sum_upto(d@, i as int),
        decreases n - i,
    {
        sum = add_to(sum, d[i]);
        i += 1;
    }
    let count: usize = if n < 1 {
        1
    } else {
        n
    };
    divide_by(sum, whole(count as u64))
}

/// A map and its sides.
pub struct Mask {
    pub d: Vec<Signed>,
    pub w: usize,
    pub h: usize,
}

/// What a map holds, and its sides.
pub struct Chart {
    pub d: Seq<Signed>,
    pub w: int,
    pub h: int,
}

impl View for Mask {
    type V = Chart;

    open spec fn view(&self) -> Chart {
        Chart { d: self.d@, w: self.w as int, h: self.h as int }
    }
}

impl Chart {
    /// There is a number in the range for every cell, and no side is too long.
    pub open spec fn wf(self) -> bool {
        &&& 0 < self.w <= crate::spread::longest()
        &&& 0 < self.h <= crate::spread::longest()
        &&& self.d.len() == self.w * self.h
        &&& is_map(self.d)
    }
}

/// The place among `m` cells of the middle of pixel `x` of `n`.
pub open spec fn place(x: int, m: int, n: int) -> Signed {
    crate::held::minus(
        crate::held::over(
            crate::held::times(
                crate::held::plus(Signed::part(x, 1), Signed::part(1, 2)),
                Signed::part(m, 1),
            ),
            Signed::part(n, 1),
        ),
        Signed::part(1, 2),
    )
}

/// The cells before and after a place, and how far past the first one it lies, from 0 to 1.
pub open spec fn cells(f: Signed, m: int) -> (int, int, Signed) {
    let i = crate::stroke::first_cell(f, m);
    (
        i,
        crate::signed::min_of(i + 1, m - 1),
        crate::held::minus(f, Signed::part(i, 1)).clamped(Signed::part(0, 1), Signed::part(1, 1)),
    )
}

/// `t` of the way from one number to another.
pub open spec fn between(a: Signed, b: Signed, t: Signed) -> Signed {
    crate::held::plus(
        crate::held::times(a, crate::held::minus(Signed::part(1, 1), t)),
        crate::held::times(b, t),
    )
}

/// What a map says of pixel `(x, y)` of a `w` by `h` picture.
pub open spec fn told(m: Chart, x: int, y: int, w: int, h: int) -> Signed {
    if m.w == w && m.h == h {
        m.d[y * w + x]
    } else {
        let a = cells(place(x, m.w, w), m.w);
        let b = cells(place(y, m.h, h), m.h);
        between(
            between(m.d[b.0 * m.w + a.0], m.d[b.0 * m.w + a.1], a.2),
            between(m.d[b.1 * m.w + a.0], m.d[b.1 * m.w + a.1], a.2),
            b.2,
        )
    }
}

fn cells_of(x: usize, m: usize, n: usize) -> (r: (usize, usize, Signed))
    requires
        0 < m <= crate::spread::longest(),
        n <= crate::spread::longest(),
        x < n,
    ensures
        (r.0 as int, r.1 as int, r.2) == cells(place(x as int, m as int, n as int), m as int),
        r.0 < m,
        r.1 < m,
        crate::held::fits(r.2),
{
    let half = Signed::of(1, 2);
    let f = take_from(
        divide_by(
            scale_by(add_to(whole(x as u64), half), whole(m as u64)),
            whole(n as u64),
        ),
        half,
    );
    let i: usize = first_cell_of(f, m as u32) as usize;
    let j: usize = if i + 1 < m {
        i + 1
    } else {
        m - 1
    };
    (i, j, take_from(f, whole(i as u64)).clamp(Signed::zero(), Signed::of(1, 1)))
}

fn between_of(a: Signed, b: Signed, t: Signed) -> (r: Signed)
    requires
        crate::held::fits(a),
        crate::held::fits(b),
        crate::held::fits(t),
    ensures
        r == between(a, b, t),
        crate::held::fits(r),
{
    add_to(scale_by(a, take_from(Signed::of(1, 1), t)), scale_by(b, t))
}

impl Mask {
    fn at(&self, x: usize, y: usize) -> (v: Signed)
        requires
            self@.wf(),
            x < self.w,
            y < self.h,
        ensures
            v == self.d@[y * self.w + x],
            crate::held::fits(v),
    {
        proof {
            crate::grid::lemma_cell_bound(x as int, y as int, self.w as int, self.h as int);
            assert(0 <= y * self.w) by (nonlinear_arith);
        }
        let n: usize = self.d.len();
        self.d[y * self.w + x]
    }

    /// What the map says of a pixel of a picture (see [`told`]).
    pub fn tell(&self, x: usize, y: usize, w: usize, h: usize) -> (v: Signed)
        requires
            self@.wf(),
            x < w <= crate::spread::longest(),
            y < h <= crate::spread::longest(),
        ensures
            v == told(self@, x as int, y as int, w as int, h as int),
            crate::held::fits(v),
    {
        if self.w == w && self.h == h {
            return self.at(x, y);
        }
        let a = cells_of(x, self.w, w);
        let b = cells_of(y, self.h, h);
        between_of(
            between_of(self.at(a.0, b.0), self.at(a.1, b.0), a.2),
            between_of(self.at(a.0, b.1), self.at(a.1, b.1), a.2),
            b.2,
        )
    }
}

} // verus!
