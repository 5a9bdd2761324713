//! Box blur of a picture, row by row from the top, on integers.

use std::collections::VecDeque;

use vstd::prelude::*;

use crate::raster::Raster;

verus! {

/// The position nearest to `i` among `0..n`.
pub open spec fn held(i: int, n: int) -> int {
    if i < 0 {
        0
    } else if i >= n {
        n - 1
    } else {
        i
    }
}

/// Sum of channel `c` over the `2r + 1` pixels of row `y` round column `x`; the outermost pixels
/// stand for what lies beyond the edge.
pub open spec fn row_sum(p: crate::raster::Picture, r: int, x: int, y: int, c: int) -> int {
    crate::sums::sum_over(|i: int| p.at(held(i, p.w), held(y, p.h), c) as int, x - r, x + r + 1)
}

/// Sum of channel `c` over the square of radius `r` round the pixel in column `x` of row `y`.
pub open spec fn box_sum(p: crate::raster::Picture, r: int, x: int, y: int, c: int) -> int {
    crate::sums::sum_over(|j: int| row_sum(p, r, x, j, c), y - r, y + r + 1)
}

/// Number of pixels in a square of radius `r`.
pub open spec fn box_area(r: int) -> int {
    (2 * r + 1) * (2 * r + 1)
}

/// The rounded mean of channel `c` over the square of radius `r` round a pixel.
pub open spec fn box_mean(p: crate::raster::Picture, r: int, x: int, y: int, c: int) -> int {
    (box_sum(p, r, x, y, c) + box_area(r) / 2) / box_area(r)
}

/// `row` holds the sums of row `y`, three channels per column.
spec fn is_row_sums(p: crate::raster::Picture, r: int, y: int, row: Seq<u32>) -> bool {
    &&& row.len() == p.w * 3
    &&& forall|x: int, c: int|
        0 <= x < p.w && 0 <= c < 3 ==> row[#[trigger] at3(x, c)] == row_sum(p, r, x, y, c)
}

spec fn at3(x: int, c: int) -> int {
    x * 3 + c
}

proof fn lemma_row_sum_bound(p: crate::raster::Picture, r: int, x: int, y: int, c: int)
    requires
        r >= 0,
    ensures
        0 <= row_sum(p, r, x, y, c) <= (2 * r + 1) * 255,
{
    crate::sums::lemma_sum_bound(
        |i: int| p.at(held(i, p.w), held(y, p.h), c) as int,
        x - r,
        x + r + 1,
        255,
    );
}

proof fn lemma_box_sum_bound(p: crate::raster::Picture, r: int, x: int, y: int, c: int)
    requires
        r >= 0,
    ensures
        0 <= box_sum(p, r, x, y, c) <= box_area(r) * 255,
{
    let f = |j: int| row_sum(p, r, x, j, c);
    assert forall|j: int| y - r <= j < y + r + 1 implies 0 <= #[trigger] f(j) <= (2 * r + 1)
        * 255 by {
        lemma_row_sum_bound(p, r, x, j, c);
    }
    crate::sums::lemma_sum_bound(f, y - r, y + r + 1, (2 * r + 1) * 255);
    assert((2 * r + 1) * ((2 * r + 1) * 255) == (2 * r + 1) * (2 * r + 1) * 255)
        by (nonlinear_arith);
}

/// The square is small enough for its sums to fit in 32 bits.
pub open spec fn fits(r: int) -> bool {
    box_area(r) * 256 <= u32::MAX
}

proof fn lemma_fits(r: int)
    requires
        r >= 0,
        fits(r),
    ensures
        2 * r + 1 <= box_area(r),
        (2 * r + 1) * 255 <= u32::MAX,
        r <= 4096,
{
    assert(2 * r + 1 <= (2 * r + 1) * (2 * r + 1)) by (nonlinear_arith)
        requires
            r >= 0,
    ;
    assert(r <= 4096) by (nonlinear_arith)
        requires
            r >= 0,
            (2 * r + 1) * (2 * r + 1) * 256 <= u32::MAX,
    ;
}

/// The row sums of row `y`; beyond the bottom edge the last row stands in.
fn sum_row(img: &Raster, r: usize, y: usize) -> (row: Vec<u32>)
    requires
        img@.wf(),
        img.w > 0,
        img.h > 0,
        fits(r as int),
    ensures
        is_row_sums(img@, r as int, y as int, row@),
{
    let w: usize = img.w;
    let yy: usize = if y < img.h {
        y
    } else {
        img.h - 1
    };
    let len: usize = img.d.len();
    proof {
        crate::raster::lemma_slot_bound(0, 0, 0, img@.w, img@.h);
        lemma_fits(r as int);
    }
    let mut row: Vec<u32> = Vec::new();
    let mut c: usize = 0;
    while c < 3
        invariant
            img@.wf(),
            w == img.w,
            w > 0,
            img.h > 0,
            yy == held(y as int, img@.h),
            r <= 4096,
            (2 * r + 1) * 255 <= u32::MAX,
            c <= 3,
            row@.len() == c,
            forall|k: int| 0 <= k < c ==> row@[k] == row_sum(img@, r as int, 0, y as int, k),
        decreases 3 - c,
    {
        let ghost f = |i: int| img@.at(held(i, img@.w), held(y as int, img@.h), c as int) as int;
        let mut acc: u32 = 0;
        let mut i: usize = 0;
        while i < 2 * r + 1
            invariant
                img@.wf(),
                w == img.w,
                w > 0,
                img.h > 0,
                yy == held(y as int, img@.h),
                r <= 4096,
                (2 * r + 1) * 255 <= u32::MAX,
                c < 3,
                i <= 2 * r + 1,
                f == (|i: int| img@.at(held(i, img@.w), held(y as int, img@.h), c as int) as int),
                acc == crate::sums::sum_over(f, -(r as int), i - r),
            decreases 2 * r + 1 - i,
        {
            let xx: usize = if i < r {
                0
            } else if i - r >= w {
                w - 1
            } else {
                i - r
            };
            proof {
                crate::sums::lemma_sum_bound(f, -(r as int), i - r, 255);
                assert(xx == held(i - r, img@.w));
                assert(f(i - r) == img@.at(xx as int, yy as int, c as int));
            }
            acc = acc + img.get(xx, yy, c) as u32;
            i += 1;
        }
        row.push(acc);
        c += 1;
    }
    let mut x: usize = 1;
    while x < w
        invariant
            img@.wf(),
            w == img.w,
            w > 0,
            img.h > 0,
            yy == held(y as int, img@.h),
            r <= 4096,
            w * 3 <= len,
            (2 * r + 1) * 255 <= u32::MAX,
            1 <= x <= w,
            row@.len() == x * 3,
            forall|xx: int, c: int|
                0 <= xx < x && 0 <= c < 3 ==> row@[#[trigger] at3(xx, c)] == row_sum(
                    img@,
                    r as int,
                    xx,
                    y as int,
                    c,
                ),
        decreases w - x,
    {
        let drop: usize = if x < r + 1 {
            0
        } else {
            x - (r + 1)
        };
        let add: usize = if x + r >= w {
            w - 1
        } else {
            x + r
        };
        let mut c: usize = 0;
        while c < 3
            invariant
                img@.wf(),
                w == img.w,
                w > 0,
                img.h > 0,
                yy == held(y as int, img@.h),
                r <= 4096,
                w * 3 <= len,
                (2 * r + 1) * 255 <= u32::MAX,
                1 <= x < w,
                drop == held(x - r - 1, img@.w),
                add == held(x + r, img@.w),
                c <= 3,
                row@.len() == x * 3 + c,
                forall|xx: int, k: int|
                    0 <= xx <= x && 0 <= k < 3 && (xx < x || k < c) ==> row@[#[trigger] at3(xx, k)]
                        == row_sum(img@, r as int, xx, y as int, k),
            decreases 3 - c,
        {
            let ghost ri = r as int;
            let ghost xi = x as int;
            let ghost f = |i: int|
                img@.at(held(i, img@.w), held(y as int, img@.h), c as int) as int;
            let prev: u32 = row[(x - 1) * 3 + c];
            let up: u8 = img.get(add, yy, c);
            let down: u8 = img.get(drop, yy, c);
            proof {
                assert(at3(xi - 1, c as int) == (x - 1) * 3 + c);
                assert(prev == crate::sums::sum_over(f, xi - 1 - ri, xi - 1 + ri + 1));
                crate::sums::lemma_sum_first(f, xi - 1 - ri, xi + ri);
                assert(f(xi - 1 - ri) == down);
                assert(f(xi + ri) == up);
                assert(crate::sums::sum_over(f, xi - ri, xi + ri + 1) == crate::sums::sum_over(f, xi - ri, xi + ri) + up);
                crate::sums::lemma_sum_bound(f, xi - ri, xi + ri, 255);
                assert(row_sum(img@, ri, xi, y as int, c as int) == prev - down + up);
            }
            row.push(prev - down as u32 + up as u32);
            c += 1;
        }
        x += 1;
    }
    row
}

/// Sum of channel `c` over columns `x - r ..= x + r` of rows `lo..hi`.
spec fn band_sum(p: crate::raster::Picture, r: int, lo: int, hi: int, x: int, c: int) -> int {
    crate::sums::sum_over(|j: int| row_sum(p, r, x, j, c), lo, hi)
}

/// `v` holds the sums over rows `lo..hi`, three channels per column.
spec fn is_band(p: crate::raster::Picture, r: int, lo: int, hi: int, v: Seq<u32>) -> bool {
    &&& v.len() == p.w * 3
    &&& forall|x: int, c: int|
        0 <= x < p.w && 0 <= c < 3 ==> v[#[trigger] at3(x, c)] == band_sum(p, r, lo, hi, x, c)
}

proof fn lemma_split3(i: int, w: int)
    requires
        0 <= i < w * 3,
    ensures
        0 <= i / 3 < w,
        0 <= i % 3 < 3,
        at3(i / 3, i % 3) == i,
{
}

/// One more row still fits on top of fewer than `2r + 1` of them.
proof fn lemma_band_room(p: crate::raster::Picture, r: int, lo: int, hi: int, v: Seq<u32>, row: Seq<u32>)
    requires
        r >= 0,
        fits(r),
        lo <= hi <= lo + 2 * r,
        is_band(p, r, lo, hi, v),
        is_row_sums(p, r, hi, row),
    ensures
        forall|i: int| 0 <= i < v.len() ==> #[trigger] v[i] + row[i] <= u32::MAX,
{
    assert forall|i: int| 0 <= i < v.len() implies #[trigger] v[i] + row[i] <= u32::MAX by {
        lemma_split3(i, p.w);
        let x = i / 3;
        let c = i % 3;
        assert(v[at3(x, c)] == band_sum(p, r, lo, hi, x, c));
        assert(row[at3(x, c)] == row_sum(p, r, x, hi, c));
        let f = |j: int| row_sum(p, r, x, j, c);
        assert forall|j: int| lo <= j < hi + 1 implies 0 <= #[trigger] f(j) <= (2 * r + 1) * 255 by {
            lemma_row_sum_bound(p, r, x, j, c);
        }
        crate::sums::lemma_sum_bound(f, lo, hi + 1, (2 * r + 1) * 255);
        assert((hi + 1 - lo) * ((2 * r + 1) * 255) <= (2 * r + 1) * (2 * r + 1) * 255)
            by (nonlinear_arith)
            requires
                hi + 1 - lo <= 2 * r + 1,
                r >= 0,
        ;
    }
}

proof fn lemma_band_add(
    p: crate::raster::Picture,
    r: int,
    lo: int,
    hi: int,
    v: Seq<u32>,
    row: Seq<u32>,
    sum: Seq<u32>,
)
    requires
        lo <= hi,
        is_band(p, r, lo, hi, v),
        is_row_sums(p, r, hi, row),
        sum.len() == v.len(),
        forall|i: int| 0 <= i < v.len() ==> #[trigger] sum[i] == v[i] + row[i],
    ensures
        is_band(p, r, lo, hi + 1, sum),
{
    assert forall|x: int, c: int| 0 <= x < p.w && 0 <= c < 3 implies sum[#[trigger] at3(x, c)]
        == band_sum(p, r, lo, hi + 1, x, c) by {
        assert(sum[at3(x, c)] == v[at3(x, c)] + row[at3(x, c)]);
    }
}

proof fn lemma_band_drop(
    p: crate::raster::Picture,
    r: int,
    lo: int,
    hi: int,
    v: Seq<u32>,
    row: Seq<u32>,
)
    requires
        lo < hi,
        r >= 0,
        is_band(p, r, lo, hi, v),
        is_row_sums(p, r, lo, row),
    ensures
        forall|i: int| 0 <= i < v.len() ==> #[trigger] v[i] >= row[i],
        forall|x: int, c: int|
            0 <= x < p.w && 0 <= c < 3 ==> v[#[trigger] at3(x, c)] - row[at3(x, c)] == band_sum(
                p,
                r,
                lo + 1,
                hi,
                x,
                c,
            ),
{
    assert forall|x: int, c: int| 0 <= x < p.w && 0 <= c < 3 implies v[#[trigger] at3(x, c)]
        - row[at3(x, c)] == band_sum(p, r, lo + 1, hi, x, c) && v[at3(x, c)] >= row[at3(x, c)] by {
        let f = |j: int| row_sum(p, r, x, j, c);
        crate::sums::lemma_sum_first(f, lo, hi);
        assert forall|j: int| lo + 1 <= j < hi implies 0 <= #[trigger] f(j) <= (2 * r + 1) * 255 by {
            lemma_row_sum_bound(p, r, x, j, c);
        }
        crate::sums::lemma_sum_bound(f, lo + 1, hi, (2 * r + 1) * 255);
    }
    assert forall|i: int| 0 <= i < v.len() implies #[trigger] v[i] >= row[i] by {
        lemma_split3(i, p.w);
        assert(v[at3(i / 3, i % 3)] >= row[at3(i / 3, i % 3)]);
    }
}

proof fn lemma_band_dropped(
    p: crate::raster::Picture,
    r: int,
    lo: int,
    hi: int,
    v: Seq<u32>,
    row: Seq<u32>,
    rest: Seq<u32>,
)
    requires
        lo < hi,
        r >= 0,
        is_band(p, r, lo, hi, v),
        is_row_sums(p, r, lo, row),
        rest.len() == v.len(),
        forall|i: int| 0 <= i < v.len() ==> #[trigger] rest[i] == v[i] - row[i],
    ensures
        is_band(p, r, lo + 1, hi, rest),
{
    lemma_band_drop(p, r, lo, hi, v, row);
    assert forall|x: int, c: int| 0 <= x < p.w && 0 <= c < 3 implies rest[#[trigger] at3(x, c)]
        == band_sum(p, r, lo + 1, hi, x, c) by {
        assert(rest[at3(x, c)] == v[at3(x, c)] - row[at3(x, c)]);
    }
}

/// Rows that the edge makes alike have the same sums.
proof fn lemma_same_row(p: crate::raster::Picture, r: int, a: int, b: int, row: Seq<u32>)
    requires
        is_row_sums(p, r, a, row),
        held(a, p.h) == held(b, p.h),
    ensures
        is_row_sums(p, r, b, row),
{
}

fn add_rows(v: &mut Vec<u32>, row: &Vec<u32>)
    requires
        old(v)@.len() == row@.len(),
        forall|i: int| 0 <= i < row@.len() ==> #[trigger] old(v)@[i] + row@[i] <= u32::MAX,
    ensures
        final(v)@.len() == old(v)@.len(),
        forall|i: int| 0 <= i < row@.len() ==> #[trigger] final(v)@[i] == old(v)@[i] + row@[i],
{
    let ghost v0 = v@;
    let mut i: usize = 0;
    while i < row.len()
        invariant
            i <= row@.len(),
            v@.len() == row@.len(),
            v0.len() == row@.len(),
            forall|k: int| 0 <= k < row@.len() ==> #[trigger] v0[k] + row@[k] <= u32::MAX,
            forall|k: int| 0 <= k < i ==> #[trigger] v@[k] == v0[k] + row@[k],
            forall|k: int| i <= k < row@.len() ==> #[trigger] v@[k] == v0[k],
        decreases row@.len() - i,
    {
        assert(v0[i as int] + row@[i as int] <= u32::MAX);
        let t: u32 = v[i] + row[i];
        v.set(i, t);
        i += 1;
    }
}

fn drop_row(v: &mut Vec<u32>, row: &Vec<u32>)
    requires
        old(v)@.len() == row@.len(),
        forall|i: int| 0 <= i < row@.len() ==> #[trigger] old(v)@[i] >= row@[i],
    ensures
        final(v)@.len() == old(v)@.len(),
        forall|i: int| 0 <= i < row@.len() ==> #[trigger] final(v)@[i] == old(v)@[i] - row@[i],
{
    let ghost v0 = v@;
    let mut i: usize = 0;
    while i < row.len()
        invariant
            i <= row@.len(),
            v@.len() == row@.len(),
            v0.len() == row@.len(),
            forall|k: int| 0 <= k < row@.len() ==> #[trigger] v0[k] >= row@[k],
            forall|k: int| 0 <= k < i ==> #[trigger] v@[k] == v0[k] - row@[k],
            forall|k: int| i <= k < row@.len() ==> #[trigger] v@[k] == v0[k],
        decreases row@.len() - i,
    {
        assert(v0[i as int] >= row@[i as int]);
        let t: u32 = v[i] - row[i];
        v.set(i, t);
        i += 1;
    }
}

/// A picture's box blur, given out row by row from the top. Only the row sums of the `2r + 1` rows
/// under the square are held, the oldest first, together with their column totals.
pub struct RowBlur<'a> {
    img: &'a Raster,
    r: usize,
    ring: VecDeque<Vec<u32>>,
    vsum: Vec<u32>,
    next: usize,
}

impl<'a> RowBlur<'a> {
    /// The picture being blurred.
    pub closed spec fn image(&self) -> crate::raster::Picture {
        self.img@
    }

    /// Radius of the square.
    pub closed spec fn radius(&self) -> int {
        self.r as int
    }

    /// The row that comes next.
    pub closed spec fn upcoming(&self) -> int {
        self.next as int
    }

    spec fn centre(&self) -> int {
        if self.next == 0 {
            0
        } else {
            self.next - 1
        }
    }

    spec fn holds(&self, y: int) -> bool {
        &&& self.ring@.len() == 2 * self.r + 1
        &&& forall|k: int|
            0 <= k < self.ring@.len() ==> is_row_sums(
                self.img@,
                self.r as int,
                y - self.r + k,
                (#[trigger] self.ring@[k])@,
            )
        &&& is_band(self.img@, self.r as int, y - self.r, y + self.r + 1, self.vsum@)
    }

    /// The square's sums are those of the row given out last.
    pub closed spec fn wf(&self) -> bool {
        &&& self.img@.wf()
        &&& self.img.w > 0
        &&& self.img.h > 0
        &&& fits(self.r as int)
        &&& self.next <= self.img.h
        &&& self.holds(self.centre())
    }

    /// Starts at the top row: the square covers rows `-r..=r`, and the top row stands in for those
    /// above it.
    pub fn new(img: &'a Raster, r: usize) -> (s: RowBlur<'a>)
        requires
            img@.wf(),
            img.w > 0,
            img.h > 0,
            fits(r as int),
        ensures
            s.wf(),
            s.image() == img@,
            s.radius() == r,
            s.upcoming() == 0,
    {
        let w: usize = img.w;
        let len: usize = img.d.len();
        proof {
            crate::raster::lemma_slot_bound(0, 0, 0, img@.w, img@.h);
            lemma_fits(r as int);
        }
        let n: usize = w * 3;
        let mut ring: VecDeque<Vec<u32>> = VecDeque::new();
        let mut vsum: Vec<u32> = vec![0u32; n];
        let ghost ri = r as int;
        proof {
            assert forall|x: int, c: int| 0 <= x < w && 0 <= c < 3 implies vsum@[
            #[trigger] at3(x, c)] == band_sum(img@, ri, -ri, -ri, x, c) by {}
        }
        let mut yy: usize = 0;
        while yy < 2 * r + 1
            invariant
                img@.wf(),
                w == img.w,
                w > 0,
                img.h > 0,
                n == w * 3,
                ri == r,
                r <= 4096,
                fits(ri),
                yy <= 2 * r + 1,
                ring@.len() == yy,
                forall|k: int|
                    0 <= k < yy ==> is_row_sums(img@, ri, -ri + k, (#[trigger] ring@[k])@),
                is_band(img@, ri, -ri, -ri + yy, vsum@),
            decreases 2 * r + 1 - yy,
        {
            let src: usize = if yy < r {
                0
            } else {
                yy - r
            };
            let row = sum_row(img, r, src);
            let ghost v0 = vsum@;
            proof {
                lemma_same_row(img@, ri, src as int, -ri + yy, row@);
                lemma_band_room(img@, ri, -ri, -ri + yy, vsum@, row@);
            }
            add_rows(&mut vsum, &row);
            proof {
                lemma_band_add(img@, ri, -ri, -ri + yy, v0, row@, vsum@);
            }
            ring.push_back(row);
            yy += 1;
        }
        RowBlur { img, r, ring, vsum, next: 0 }
    }

    /// The next blurred row, three channels per column.
    pub fn row(&mut self) -> (out: Vec<u8>)
        requires
            old(self).wf(),
            old(self).upcoming() < old(self).image().h,
        ensures
            final(self).wf(),
            final(self).image() == old(self).image(),
            final(self).radius() == old(self).radius(),
            final(self).upcoming() == old(self).upcoming() + 1,
            out@.len() == old(self).image().w * 3,
            forall|x: int, c: int|
                0 <= x < old(self).image().w && 0 <= c < 3 ==> #[trigger] out@[x * 3 + c]
                    == box_mean(
                    old(self).image(),
                    old(self).radius(),
                    x,
                    old(self).upcoming(),
                    c,
                ),
    {
        let y: usize = self.next;
        let img = self.img;
        let r: usize = self.r;
        let ghost ri = r as int;
        let ghost yi = y as int;
        proof {
            lemma_fits(ri);
            crate::raster::lemma_slot_bound(0, 0, 0, img@.w, img@.h);
        }
        let len: usize = img.d.len();
        if y > 0 {
            let ghost ring0 = self.ring@;
            let ghost v0 = self.vsum@;
            match self.ring.pop_front() {
                Some(old_row) => {
                    assert(old_row == ring0[0]);
                    proof {
                        lemma_band_drop(img@, ri, yi - 1 - ri, yi + ri, v0, old_row@);
                    }
                    drop_row(&mut self.vsum, &old_row);
                    proof {
                        lemma_band_dropped(
                            img@,
                            ri,
                            yi - 1 - ri,
                            yi + ri,
                            v0,
                            old_row@,
                            self.vsum@,
                        );
                    }
                },
                None => {},
            }
            let ghost v1 = self.vsum@;
            assert(is_band(img@, ri, yi - ri, yi + ri, v1));
            let bottom: usize = if y < img.h && r < img.h - y {
                y + r
            } else {
                img.h - 1
            };
            let row = sum_row(img, r, bottom);
            proof {
                lemma_same_row(img@, ri, bottom as int, yi + ri, row@);
                lemma_band_room(img@, ri, yi - ri, yi + ri, v1, row@);
            }
            add_rows(&mut self.vsum, &row);
            proof {
                lemma_band_add(img@, ri, yi - ri, yi + ri, v1, row@, self.vsum@);
            }
            self.ring.push_back(row);
            assert forall|k: int| 0 <= k < self.ring@.len() implies is_row_sums(
                img@,
                ri,
                yi - ri + k,
                (#[trigger] self.ring@[k])@,
            ) by {
                if k < 2 * ri {
                    assert(self.ring@[k] == ring0[k + 1]);
                }
            }
        }
        self.next = y + 1;
        assert(self.holds(yi));
        let area: u32 = ((2 * r + 1) * (2 * r + 1)) as u32;
        let n: usize = img.w * 3;
        let mut out: Vec<u8> = Vec::new();
        let mut i: usize = 0;
        while i < n
            invariant
                i <= n,
                n == img@.w * 3,
                ri == r,
                fits(ri),
                area == box_area(ri),
                is_band(img@, ri, yi - ri, yi + ri + 1, self.vsum@),
                out@.len() == i,
                forall|k: int|
                    0 <= k < i ==> #[trigger] out@[k] == box_mean(img@, ri, k / 3, yi, k % 3),
            decreases n - i,
        {
            proof {
                let x = i / 3;
                let c = i % 3;
                lemma_split3(i as int, img@.w);
                assert(self.vsum@[at3(x as int, c as int)] == box_sum(img@, ri, x as int, yi, c as int));
                lemma_box_sum_bound(img@, ri, x as int, yi, c as int);
                let s = box_sum(img@, ri, x as int, yi, c as int);
                let a = box_area(ri);
                assert(a >= 1) by (nonlinear_arith)
                    requires
                        a == (2 * ri + 1) * (2 * ri + 1),
                        ri >= 0,
                ;
                assert((s + a / 2) / a <= 255) by (nonlinear_arith)
                    requires
                        0 <= s <= a * 255,
                        a >= 1,
                ;
            }
            out.push(((self.vsum[i] + area / 2) / area) as u8);
            i += 1;
        }
        proof {
            assert forall|x: int, c: int| 0 <= x < img@.w && 0 <= c < 3 implies #[trigger] out@[x
                * 3 + c] == box_mean(img@, ri, x, yi, c) by {
                assert((x * 3 + c) / 3 == x && (x * 3 + c) % 3 == c);
            }
        }
        out
    }
}

} // verus!
