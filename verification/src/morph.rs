//! Sliding extremes over rows and planes.
//!
//! Erosion, dilation and opening only ever compare samples, so a plane holds ordering keys: any
//! sample type is brought here by an order-preserving map into `i64` and taken back by its inverse.

use vstd::prelude::*;

use crate::grid;

verus! {

/// A row-major plane of ordering keys.
pub struct Plane {
    pub w: usize,
    pub h: usize,
    pub d: Vec<i64>,
}

/// A plane as mathematics sees it: a width, a height and one key per cell.
#[verifier::ext_equal]
pub struct Grid {
    pub w: int,
    pub h: int,
    pub d: Seq<i64>,
}

impl Grid {
    /// There is exactly one key per cell.
    pub open spec fn wf(self) -> bool {
        0 <= self.w && 0 <= self.h && self.d.len() == self.w * self.h
    }

    /// Key at column `x` of row `y`.
    pub open spec fn at(self, x: int, y: int) -> i64 {
        self.d[grid::cell(x, y, self.w)]
    }

    /// The cell lies on the plane.
    pub open spec fn has(self, x: int, y: int) -> bool {
        0 <= x < self.w && 0 <= y < self.h
    }

    /// The keys of row `y`.
    pub open spec fn row(self, y: int) -> Seq<i64> {
        self.d.subrange(y * self.w, y * self.w + self.w)
    }
}

impl View for Plane {
    type V = Grid;

    open spec fn view(&self) -> Grid {
        Grid { w: self.w as int, h: self.h as int, d: self.d@ }
    }
}

/// `a` is at least as extreme as `b`: no smaller when looking for the maximum, no larger otherwise.
pub open spec fn beats(max: bool, a: i64, b: i64) -> bool {
    if max {
        a >= b
    } else {
        a <= b
    }
}

/// `v` is the extreme of `s[lo..hi]`.
pub open spec fn is_best(s: Seq<i64>, lo: int, hi: int, max: bool, v: i64) -> bool {
    &&& exists|i: int| lo <= i < hi && #[trigger] s[i] == v
    &&& forall|i: int| lo <= i < hi ==> beats(max, v, #[trigger] s[i])
}

/// First index of the window of radius `r` round `x`, cut off at the row's start.
pub open spec fn win_lo(x: int, r: int) -> int {
    if x - r < 0 {
        0
    } else {
        x - r
    }
}

/// End of the window of radius `r` round `x`, cut off at the row's end.
pub open spec fn win_hi(x: int, r: int, w: int) -> int {
    if x + r + 1 > w {
        w
    } else {
        x + r + 1
    }
}

/// `out` holds, for every position of `row`, the extreme of the window of radius `r` round it.
pub open spec fn is_row_extreme(row: Seq<i64>, r: int, max: bool, out: Seq<i64>) -> bool {
    &&& out.len() == row.len()
    &&& forall|x: int|
        0 <= x < row.len() ==> is_best(
            row,
            win_lo(x, r),
            win_hi(x, r, row.len() as int),
            max,
            #[trigger] out[x],
        )
}

fn pick(max: bool, a: i64, b: i64) -> (r: i64)
    ensures
        r == a || r == b,
        beats(max, r, a),
        beats(max, r, b),
{
    if max {
        if a >= b {
            a
        } else {
            b
        }
    } else if a <= b {
        a
    } else {
        b
    }
}

/// The key that every other key is at least as extreme as.
fn neutral(max: bool) -> (id: i64)
    ensures
        forall|v: i64| #[trigger] beats(max, v, id),
{
    if max {
        i64::MIN
    } else {
        i64::MAX
    }
}

/// Start of the block of length `k` that holds index `i`.
spec fn block_of(i: int, k: int) -> int {
    i - i % k
}

proof fn lemma_block_of(s: int, k: int, b: int, i: int)
    requires
        k > 0,
        s == b * k,
        s <= i < s + k,
    ensures
        block_of(i, k) == s,
{
    vstd::arithmetic::div_mod::lemma_fundamental_div_mod_converse(i, k, b, i - s);
}

/// Joining two touching windows joins their extremes.
proof fn lemma_best_join(s: Seq<i64>, lo: int, mid: int, hi: int, max: bool, a: i64, b: i64, v: i64)
    requires
        is_best(s, lo, mid, max, a),
        is_best(s, mid, hi, max, b),
        lo <= mid <= hi,
        v == a || v == b,
        beats(max, v, a),
        beats(max, v, b),
    ensures
        is_best(s, lo, hi, max, v),
{
    let i = choose|i: int| lo <= i < mid && #[trigger] s[i] == a;
    let j = choose|j: int| mid <= j < hi && #[trigger] s[j] == b;
    if v == a {
        assert(lo <= i < hi && s[i] == v);
    } else {
        assert(lo <= j < hi && s[j] == v);
    }
    assert forall|t: int| lo <= t < hi implies beats(max, v, #[trigger] s[t]) by {
        if t < mid {
            assert(beats(max, a, s[t]));
        } else {
            assert(beats(max, b, s[t]));
        }
    }
}

/// Sliding extreme of one row: the window of radius `r` round each position, cut off at both ends.
///
/// The row is padded with `r` neutral keys on each side and cut into blocks as long as the window;
/// a window then spans at most two blocks, and its extreme is that of a block's tail and the next
/// block's head.
pub fn extreme_row(row: &Vec<i64>, r: usize, max: bool) -> (out: Vec<i64>)
    requires
        row@.len() + 4 * r + 1 <= usize::MAX,
    ensures
        is_row_extreme(row@, r as int, max, out@),
{
    let w: usize = row.len();
    let id: i64 = neutral(max);
    let k: usize = 2 * r + 1;
    let blocks: usize = (w + 2 * r + (k - 1)) / k;
    proof {
        let t = w + 2 * r + (k - 1);
        vstd::arithmetic::div_mod::lemma_fundamental_div_mod(t, k as int);
        vstd::arithmetic::div_mod::lemma_mod_bound(t, k as int);
        assert(blocks * k == k * (t / (k as int))) by (nonlinear_arith)
            requires
                blocks == t / (k as int),
        ;
    }
    assert(w + 2 * r <= blocks * k <= w + 4 * r);
    let m: usize = blocks * k;
    let mut ext: Vec<i64> = vec![id; m];
    let mut x: usize = 0;
    while x < w
        invariant
            x <= w,
            w == row@.len(),
            ext@.len() == m,
            w + 2 * r <= m,
            forall|i: int| 0 <= i < m && !(r <= i < r + x) ==> #[trigger] ext@[i] == id,
            forall|i: int| r <= i < r + x ==> #[trigger] ext@[i] == row@[i - r],
        decreases w - x,
    {
        ext.set(r + x, row[x]);
        x += 1;
    }
    let mut pre: Vec<i64> = vec![id; m];
    let mut suf: Vec<i64> = vec![id; m];
    let mut b: usize = 0;
    let mut s: usize = 0;
    while b < blocks
        invariant
            b <= blocks,
            s == b * k,
            m == blocks * k,
            k == 2 * r + 1,
            ext@.len() == m,
            pre@.len() == m,
            suf@.len() == m,
            s <= m,
            forall|i: int|
                0 <= i < s ==> is_best(ext@, block_of(i, k as int), i + 1, max, #[trigger] pre@[i]),
            forall|i: int|
                0 <= i < s ==> is_best(
                    ext@,
                    i,
                    block_of(i, k as int) + k,
                    max,
                    #[trigger] suf@[i],
                ),
        decreases blocks - b,
    {
        assert(s + k <= m) by (nonlinear_arith)
            requires
                s == b * k,
                m == blocks * k,
                b < blocks,
        ;
        assert((b + 1) * k == s + k) by (nonlinear_arith)
            requires
                s == b * k,
        ;
        let ghost pre0 = pre@;
        let ghost suf0 = suf@;
        let mut acc: i64 = ext[s];
        pre.set(s, acc);
        let mut i: usize = 1;
        assert(is_best(ext@, s as int, s + 1, max, acc)) by {
            assert(ext@[s as int] == acc);
        }
        while i < k
            invariant
                1 <= i <= k,
                s + k <= m,
                ext@.len() == m,
                pre@.len() == m,
                pre0.len() == m,
                forall|j: int| 0 <= j < s ==> #[trigger] pre@[j] == pre0[j],
                forall|j: int|
                    s <= j < s + i ==> is_best(ext@, s as int, j + 1, max, #[trigger] pre@[j]),
                acc == pre@[s + i - 1],
            decreases k - i,
        {
            let nxt: i64 = pick(max, acc, ext[s + i]);
            proof {
                let e = ext@[s + i];
                assert(is_best(ext@, s + i, s + i + 1, max, e));
                assert(is_best(ext@, s as int, (s + i - 1) + 1, max, acc));
                lemma_best_join(ext@, s as int, s + i, s + i + 1, max, acc, e, nxt);
            }
            acc = nxt;
            pre.set(s + i, acc);
            i += 1;
        }
        let mut acc: i64 = ext[s + (k - 1)];
        suf.set(s + (k - 1), acc);
        let mut i: usize = k - 1;
        while i > 0
            invariant
                0 <= i <= k - 1,
                s + k <= m,
                ext@.len() == m,
                suf@.len() == m,
                suf0.len() == m,
                forall|j: int| 0 <= j < s ==> #[trigger] suf@[j] == suf0[j],
                forall|j: int|
                    s + i <= j < s + k ==> is_best(ext@, j, s + k, max, #[trigger] suf@[j]),
                acc == suf@[s + i],
            decreases i,
        {
            i -= 1;
            let nxt: i64 = pick(max, acc, ext[s + i]);
            proof {
                let e = ext@[s + i];
                assert(is_best(ext@, s + i, s + i + 1, max, e));
                lemma_best_join(ext@, s + i, s + i + 1, s + k, max, e, acc, nxt);
            }
            acc = nxt;
            suf.set(s + i, acc);
        }
        proof {
            assert forall|i: int| 0 <= i < s + k implies is_best(
                ext@,
                block_of(i, k as int),
                i + 1,
                max,
                #[trigger] pre@[i],
            ) by {
                if i < s {
                    assert(pre@[i] == pre0[i]);
                } else {
                    lemma_block_of(s as int, k as int, b as int, i);
                }
            }
            assert forall|i: int| 0 <= i < s + k implies is_best(
                ext@,
                i,
                block_of(i, k as int) + k,
                max,
                #[trigger] suf@[i],
            ) by {
                if i < s {
                    assert(suf@[i] == suf0[i]);
                } else {
                    lemma_block_of(s as int, k as int, b as int, i);
                }
            }
        }
        b += 1;
        s += k;
    }
    let mut out: Vec<i64> = Vec::new();
    let mut x: usize = 0;
    while x < w
        invariant
            x <= w,
            w == row@.len(),
            out@.len() == x,
            w + 2 * r <= m,
            m == s,
            k == 2 * r + 1,
            ext@.len() == m,
            pre@.len() == m,
            suf@.len() == m,
            forall|v: i64| #[trigger] beats(max, v, id),
            forall|i: int| 0 <= i < m && !(r <= i < r + w) ==> #[trigger] ext@[i] == id,
            forall|i: int| r <= i < r + w ==> #[trigger] ext@[i] == row@[i - r],
            forall|i: int|
                0 <= i < s ==> is_best(ext@, block_of(i, k as int), i + 1, max, #[trigger] pre@[i]),
            forall|i: int|
                0 <= i < s ==> is_best(
                    ext@,
                    i,
                    block_of(i, k as int) + k,
                    max,
                    #[trigger] suf@[i],
                ),
            forall|j: int|
                0 <= j < x ==> is_best(
                    row@,
                    win_lo(j, r as int),
                    win_hi(j, r as int, w as int),
                    max,
                    #[trigger] out@[j],
                ),
        decreases w - x,
    {
        let v: i64 = pick(max, suf[x], pre[x + 2 * r]);
        proof {
            let ki = k as int;
            let xi = x as int;
            lemma_window(ext@, ki, xi, max, suf@[xi], pre@[x + 2 * r], v);
            lemma_unpad(row@, ext@, r as int, id, max, xi, v);
        }
        out.push(v);
        x += 1;
    }
    out
}

/// A window as long as a block is the tail of one block and the head of the next.
proof fn lemma_window(ext: Seq<i64>, k: int, x: int, max: bool, tail: i64, head: i64, v: i64)
    requires
        k > 0,
        x >= 0,
        is_best(ext, x, block_of(x, k) + k, max, tail),
        is_best(ext, block_of(x + k - 1, k), x + k, max, head),
        v == tail || v == head,
        beats(max, v, tail),
        beats(max, v, head),
    ensures
        is_best(ext, x, x + k, max, v),
{
    let q = x / k;
    let m = x % k;
    vstd::arithmetic::div_mod::lemma_fundamental_div_mod(x, k);
    vstd::arithmetic::div_mod::lemma_mod_bound(x, k);
    assert(k * q == q * k) by (nonlinear_arith);
    if m == 0 {
        assert(block_of(x, k) == x);
        lemma_block_of(q * k, k, q, x + k - 1);
        assert(block_of(x + k - 1, k) == x);
        let i = choose|i: int| x <= i < x + k && #[trigger] ext[i] == tail;
        let j = choose|j: int| x <= j < x + k && #[trigger] ext[j] == head;
        if v == tail {
            assert(ext[i] == v);
        } else {
            assert(ext[j] == v);
        }
    } else {
        assert((q + 1) * k == q * k + k) by (nonlinear_arith);
        lemma_block_of((q + 1) * k, k, q + 1, x + k - 1);
        lemma_best_join(ext, x, block_of(x, k) + k, x + k, max, tail, head, v);
    }
}

/// The neutral padding never changes the extreme of a window that holds a real key.
proof fn lemma_unpad(row: Seq<i64>, ext: Seq<i64>, r: int, id: i64, max: bool, x: int, v: i64)
    requires
        0 <= x < row.len(),
        r >= 0,
        ext.len() >= row.len() + 2 * r,
        forall|u: i64| #[trigger] beats(max, u, id),
        forall|i: int| 0 <= i < ext.len() && !(r <= i < r + row.len()) ==> #[trigger] ext[i] == id,
        forall|i: int| r <= i < r + row.len() ==> #[trigger] ext[i] == row[i - r],
        is_best(ext, x, x + 2 * r + 1, max, v),
    ensures
        is_best(row, win_lo(x, r), win_hi(x, r, row.len() as int), max, v),
{
    let lo = win_lo(x, r);
    let hi = win_hi(x, r, row.len() as int);
    assert forall|i: int| lo <= i < hi implies beats(max, v, #[trigger] row[i]) by {
        assert(ext[i + r] == row[i]);
    }
    let j = choose|j: int| x <= j < x + 2 * r + 1 && #[trigger] ext[j] == v;
    if r <= j < r + row.len() {
        assert(row[j - r] == v);
        assert(lo <= j - r < hi);
    } else {
        assert(v == id);
        assert(beats(max, row[x], id));
        assert(beats(max, v, row[x]));
        assert(row[x] == v);
    }
}

/// `out` is `p` with every row replaced by its sliding extreme of radius `r`.
pub open spec fn is_rows_extreme(p: Grid, r: int, max: bool, out: Grid) -> bool {
    &&& out.wf()
    &&& out.w == p.w
    &&& out.h == p.h
    &&& forall|x: int, y: int|
        p.has(x, y) ==> is_best(
            p.row(y),
            win_lo(x, r),
            win_hi(x, r, p.w as int),
            max,
            #[trigger] out.at(x, y),
        )
}

/// Sliding extreme of every row of a plane.
pub fn extreme_1d_rows(p: &Plane, r: usize, max: bool) -> (out: Plane)
    requires
        p@.wf(),
        p.w + 4 * r + 1 <= usize::MAX,
    ensures
        is_rows_extreme(p@, r as int, max, out@),
{
    let w: usize = p.w;
    let h: usize = p.h;
    let n: usize = p.d.len();
    let mut d: Vec<i64> = Vec::new();
    let mut y: usize = 0;
    let mut base: usize = 0;
    proof {
        assert(0 * w == 0) by (nonlinear_arith);
    }
    while y < h
        invariant
            p@.wf(),
            w == p.w,
            h == p.h,
            n == w * h,
            w + 4 * r + 1 <= usize::MAX,
            y <= h,
            base == y * w,
            d@.len() == base,
            base <= w * h,
            forall|xx: int, yy: int|
                0 <= xx < w && 0 <= yy < y ==> is_best(
                    p@.row(yy),
                    win_lo(xx, r as int),
                    win_hi(xx, r as int, w as int),
                    max,
                    d@[#[trigger] grid::cell(xx, yy, w as int)],
                ),
        decreases h - y,
    {
        assert((y + 1) * w == base + w) by (nonlinear_arith)
            requires
                base == y * w,
        ;
        assert(base + w <= w * h) by (nonlinear_arith)
            requires
                base == y * w,
                y < h,
        ;
        let mut row: Vec<i64> = Vec::new();
        let mut x: usize = 0;
        while x < w
            invariant
                x <= w,
                p@.wf(),
                w == p.w,
                h == p.h,
                n == w * h,
                base + w <= w * h,
                row@ == p.d@.subrange(base as int, base + x),
            decreases w - x,
        {
            row.push(p.d[base + x]);
            x += 1;
        }
        assert(row@ == p@.row(y as int));
        let mut best: Vec<i64> = extreme_row(&row, r, max);
        let ghost d0 = d@;
        let ghost b0 = best@;
        d.append(&mut best);
        proof {
            assert forall|xx: int, yy: int| 0 <= xx < w && 0 <= yy < y + 1 implies is_best(
                p@.row(yy),
                win_lo(xx, r as int),
                win_hi(xx, r as int, w as int),
                max,
                d@[#[trigger] grid::cell(xx, yy, w as int)],
            ) by {
                grid::lemma_cell_bound(xx, yy, w as int, h as int);
                if yy < y {
                    grid::lemma_cell_bound(xx, yy, w as int, y as int);
                    assert(w * y == y * w) by (nonlinear_arith);
                    assert(d@[grid::cell(xx, yy, w as int)] == d0[grid::cell(xx, yy, w as int)]);
                } else {
                    assert(d@[grid::cell(xx, yy, w as int)] == b0[xx]);
                }
            }
        }
        y += 1;
        base += w;
    }
    let out = Plane { w, h, d };
    proof {
        assert(h * w == w * h) by (nonlinear_arith);
        assert forall|xx: int, yy: int| p@.has(xx, yy) implies is_best(
            p@.row(yy),
            win_lo(xx, r as int),
            win_hi(xx, r as int, p.w as int),
            max,
            #[trigger] out@.at(xx, yy),
        ) by {
            assert(out@.at(xx, yy) == d@[grid::cell(xx, yy, w as int)]);
        }
    }
    out
}

/// `out` is `p` with rows and columns exchanged.
pub open spec fn is_transposed(p: Grid, out: Grid) -> bool {
    &&& out.wf()
    &&& out.w == p.h
    &&& out.h == p.w
    &&& forall|x: int, y: int| p.has(x, y) ==> #[trigger] out.at(y, x) == p.at(x, y)
}

/// Rows become columns and columns become rows.
pub fn transpose(p: &Plane) -> (out: Plane)
    requires
        p@.wf(),
    ensures
        is_transposed(p@, out@),
{
    let w: usize = p.w;
    let h: usize = p.h;
    let n: usize = p.d.len();
    let mut d: Vec<i64> = Vec::new();
    let mut x: usize = 0;
    proof {
        assert(0 * h == 0) by (nonlinear_arith);
    }
    while x < w
        invariant
            p@.wf(),
            w == p.w,
            h == p.h,
            n == w * h,
            x <= w,
            d@.len() == x * h,
            forall|xx: int, yy: int|
                0 <= xx < x && 0 <= yy < h ==> d@[#[trigger] grid::cell(yy, xx, h as int)]
                    == p@.at(xx, yy),
        decreases w - x,
    {
        assert((x + 1) * h == x * h + h) by (nonlinear_arith);
        let mut y: usize = 0;
        let mut i: usize = x;
        proof {
            assert(grid::cell(x as int, 0, w as int) == x) by (nonlinear_arith);
        }
        while y < h
            invariant
                p@.wf(),
                w == p.w,
                h == p.h,
                n == w * h,
                x < w,
                y <= h,
                y < h ==> i == grid::cell(x as int, y as int, w as int),
                d@.len() == x * h + y,
                forall|xx: int, yy: int|
                    0 <= xx <= x && 0 <= yy < h && (xx < x || yy < y) ==> d@[#[trigger] grid::cell(
                        yy,
                        xx,
                        h as int,
                    )] == p@.at(xx, yy),
            decreases h - y,
        {
            proof {
                grid::lemma_cell_bound(x as int, y as int, w as int, h as int);
            }
            let ghost d0 = d@;
            d.push(p.d[i]);
            proof {
                assert forall|xx: int, yy: int|
                    0 <= xx <= x && 0 <= yy < h && (xx < x || yy < y + 1) implies d@[
                    #[trigger] grid::cell(yy, xx, h as int)] == p@.at(xx, yy) by {
                    if xx < x {
                        grid::lemma_cell_bound(yy, xx, h as int, x as int);
                        assert(h * x == x * h) by (nonlinear_arith);
                        assert(d@[grid::cell(yy, xx, h as int)] == d0[grid::cell(yy, xx, h as int)]);
                    } else if yy < y {
                        assert(d@[grid::cell(yy, xx, h as int)] == d0[grid::cell(yy, xx, h as int)]);
                    } else {
                        assert(grid::cell(yy, xx, h as int) == d0.len());
                    }
                }
                if y + 1 < h {
                    grid::lemma_cell_bound(x as int, y + 1, w as int, h as int);
                }
            }
            y += 1;
            if y < h {
                i += w;
            }
        }
        x += 1;
    }
    let out = Plane { w: h, h: w, d };
    proof {
        assert(w * h == h * w) by (nonlinear_arith);
        assert forall|xx: int, yy: int| p@.has(xx, yy) implies #[trigger] out@.at(yy, xx) == p@.at(
            xx,
            yy,
        ) by {
            assert(out@.at(yy, xx) == d@[grid::cell(yy, xx, h as int)]);
        }
    }
    out
}

/// The cell `(xx, yy)` lies on the plane and in the square of radius `r` round `(x, y)`.
pub open spec fn near(p: Grid, x: int, y: int, r: int, xx: int, yy: int) -> bool {
    p.has(xx, yy) && x - r <= xx <= x + r && y - r <= yy <= y + r
}

/// `v` is the extreme of `p` over the square of radius `r` round `(x, y)`.
pub open spec fn is_best_near(p: Grid, x: int, y: int, r: int, max: bool, v: i64) -> bool {
    &&& exists|xx: int, yy: int| near(p, x, y, r, xx, yy) && #[trigger] p.at(xx, yy) == v
    &&& forall|xx: int, yy: int|
        near(p, x, y, r, xx, yy) ==> beats(max, v, #[trigger] p.at(xx, yy))
}

/// `out` holds, for every cell of `p`, the extreme over the square of radius `r` round it.
pub open spec fn is_filtered(p: Grid, r: int, max: bool, out: Grid) -> bool {
    &&& out.wf()
    &&& out.w == p.w
    &&& out.h == p.h
    &&& forall|x: int, y: int|
        p.has(x, y) ==> is_best_near(p, x, y, r, max, #[trigger] out.at(x, y))
}

/// A row of a plane, cell by cell.
proof fn lemma_row(p: Grid, y: int)
    requires
        p.wf(),
        0 <= y < p.h,
    ensures
        p.row(y).len() == p.w,
        forall|x: int| 0 <= x < p.w ==> #[trigger] p.row(y)[x] == p.at(x, y),
{
    assert(y * p.w >= 0 && y * p.w + p.w <= p.w * p.h) by (nonlinear_arith)
        requires
            0 <= y < p.h,
            0 <= p.w,
    ;
}

/// `out` holds, for every cell of `p`, the extreme over the column segment of radius `r` round it.
spec fn is_cols_extreme(p: Grid, r: int, max: bool, out: Grid) -> bool {
    &&& out.wf()
    &&& out.w == p.w
    &&& out.h == p.h
    &&& forall|x: int, y: int|
        p.has(x, y) ==> is_best_col(p, x, y, r, max, #[trigger] out.at(x, y))
}

spec fn is_best_col(p: Grid, x: int, y: int, r: int, max: bool, v: i64) -> bool {
    &&& exists|yy: int| 0 <= yy < p.h && y - r <= yy <= y + r && #[trigger] p.at(x, yy) == v
    &&& forall|yy: int|
        0 <= yy < p.h && y - r <= yy <= y + r ==> beats(max, v, #[trigger] p.at(x, yy))
}

spec fn is_best_row(p: Grid, x: int, y: int, r: int, max: bool, v: i64) -> bool {
    &&& exists|xx: int| 0 <= xx < p.w && x - r <= xx <= x + r && #[trigger] p.at(xx, y) == v
    &&& forall|xx: int|
        0 <= xx < p.w && x - r <= xx <= x + r ==> beats(max, v, #[trigger] p.at(xx, y))
}

proof fn lemma_rows_cellwise(p: Grid, r: int, max: bool, out: Grid)
    requires
        p.wf(),
        r >= 0,
        is_rows_extreme(p, r, max, out),
    ensures
        forall|x: int, y: int|
            p.has(x, y) ==> is_best_row(p, x, y, r, max, #[trigger] out.at(x, y)),
{
    assert forall|x: int, y: int| p.has(x, y) implies is_best_row(
        p,
        x,
        y,
        r,
        max,
        #[trigger] out.at(x, y),
    ) by {
        lemma_row(p, y);
        let v = out.at(x, y);
        let s = p.row(y);
        let lo = win_lo(x, r);
        let hi = win_hi(x, r, p.w as int);
        assert(is_best(s, lo, hi, max, v));
        let i = choose|i: int| lo <= i < hi && #[trigger] s[i] == v;
        assert(p.at(i, y) == v);
        assert forall|xx: int| 0 <= xx < p.w && x - r <= xx <= x + r implies beats(
            max,
            v,
            #[trigger] p.at(xx, y),
        ) by {
            assert(s[xx] == p.at(xx, y));
        }
    }
}

/// Exchanging rows and columns, sliding along rows and exchanging back slides along columns.
proof fn lemma_cols(p: Grid, t: Grid, u: Grid, q: Grid, r: int, max: bool)
    requires
        p.wf(),
        r >= 0,
        is_transposed(p, t),
        is_rows_extreme(t, r, max, u),
        is_transposed(u, q),
    ensures
        is_cols_extreme(p, r, max, q),
{
    lemma_rows_cellwise(t, r, max, u);
    assert forall|x: int, y: int| p.has(x, y) implies is_best_col(
        p,
        x,
        y,
        r,
        max,
        #[trigger] q.at(x, y),
    ) by {
        assert(u.has(y, x));
        assert(q.at(x, y) == u.at(y, x));
        let v = u.at(y, x);
        assert(t.has(y, x));
        assert(is_best_row(t, y, x, r, max, v));
        let i = choose|i: int|
            0 <= i < t.w && y - r <= i <= y + r && #[trigger] t.at(i, x) == v;
        assert(p.has(x, i));
        assert(t.at(i, x) == p.at(x, i));
        assert forall|yy: int| 0 <= yy < p.h && y - r <= yy <= y + r implies beats(
            max,
            v,
            #[trigger] p.at(x, yy),
        ) by {
            assert(p.has(x, yy));
            assert(t.at(yy, x) == p.at(x, yy));
        }
    }
}

/// Sliding along rows, then along columns, is the extreme over the square.
proof fn lemma_rows_then_cols(p: Grid, a: Grid, q: Grid, r: int, max: bool)
    requires
        p.wf(),
        r >= 0,
        is_rows_extreme(p, r, max, a),
        is_cols_extreme(a, r, max, q),
    ensures
        is_filtered(p, r, max, q),
{
    lemma_rows_cellwise(p, r, max, a);
    assert forall|x: int, y: int| p.has(x, y) implies is_best_near(
        p,
        x,
        y,
        r,
        max,
        #[trigger] q.at(x, y),
    ) by {
        let v = q.at(x, y);
        assert(a.has(x, y));
        assert(is_best_col(a, x, y, r, max, v));
        let yy = choose|yy: int|
            0 <= yy < a.h && y - r <= yy <= y + r && #[trigger] a.at(x, yy) == v;
        assert(p.has(x, yy));
        assert(is_best_row(p, x, yy, r, max, a.at(x, yy)));
        let xx = choose|xx: int|
            0 <= xx < p.w && x - r <= xx <= x + r && #[trigger] p.at(xx, yy) == v;
        assert(near(p, x, y, r, xx, yy) && p.at(xx, yy) == v);
        assert forall|x2: int, y2: int| near(p, x, y, r, x2, y2) implies beats(
            max,
            v,
            #[trigger] p.at(x2, y2),
        ) by {
            assert(p.has(x, y2));
            assert(is_best_row(p, x, y2, r, max, a.at(x, y2)));
            assert(beats(max, v, a.at(x, y2)));
            assert(beats(max, a.at(x, y2), p.at(x2, y2)));
        }
    }
}

/// Sliding along columns, then along rows, is the extreme over the square.
proof fn lemma_cols_then_rows(p: Grid, a: Grid, q: Grid, r: int, max: bool)
    requires
        p.wf(),
        r >= 0,
        is_cols_extreme(p, r, max, a),
        is_rows_extreme(a, r, max, q),
    ensures
        is_filtered(p, r, max, q),
{
    lemma_rows_cellwise(a, r, max, q);
    assert forall|x: int, y: int| p.has(x, y) implies is_best_near(
        p,
        x,
        y,
        r,
        max,
        #[trigger] q.at(x, y),
    ) by {
        let v = q.at(x, y);
        assert(a.has(x, y));
        assert(is_best_row(a, x, y, r, max, v));
        let xx = choose|xx: int|
            0 <= xx < a.w && x - r <= xx <= x + r && #[trigger] a.at(xx, y) == v;
        assert(p.has(xx, y));
        assert(is_best_col(p, xx, y, r, max, a.at(xx, y)));
        let yy = choose|yy: int|
            0 <= yy < p.h && y - r <= yy <= y + r && #[trigger] p.at(xx, yy) == v;
        assert(near(p, x, y, r, xx, yy) && p.at(xx, yy) == v);
        assert forall|x2: int, y2: int| near(p, x, y, r, x2, y2) implies beats(
            max,
            v,
            #[trigger] p.at(x2, y2),
        ) by {
            assert(p.has(x2, y));
            assert(is_best_col(p, x2, y, r, max, a.at(x2, y)));
            assert(beats(max, v, a.at(x2, y)));
            assert(beats(max, a.at(x2, y), p.at(x2, y2)));
        }
    }
}

/// Erosion: the minimum over the square of radius `r` round each cell.
pub fn min_filter(p: &Plane, r: usize) -> (out: Plane)
    requires
        p@.wf(),
        p.w + 4 * r + 1 <= usize::MAX,
        p.h + 4 * r + 1 <= usize::MAX,
    ensures
        is_filtered(p@, r as int, false, out@),
{
    let a = extreme_1d_rows(p, r, false);
    let t = transpose(&a);
    let u = extreme_1d_rows(&t, r, false);
    let out = transpose(&u);
    proof {
        lemma_cols(a@, t@, u@, out@, r as int, false);
        lemma_rows_then_cols(p@, a@, out@, r as int, false);
    }
    out
}

/// Dilation: the maximum over the square of radius `r` round each cell.
pub fn max_filter(p: &Plane, r: usize) -> (out: Plane)
    requires
        p@.wf(),
        p.w + 4 * r + 1 <= usize::MAX,
        p.h + 4 * r + 1 <= usize::MAX,
    ensures
        is_filtered(p@, r as int, true, out@),
{
    let a = extreme_1d_rows(p, r, true);
    let t = transpose(&a);
    let u = extreme_1d_rows(&t, r, true);
    let out = transpose(&u);
    proof {
        lemma_cols(a@, t@, u@, out@, r as int, true);
        lemma_rows_then_cols(p@, a@, out@, r as int, true);
    }
    out
}

/// `out` is the erosion of `p` followed by a dilation, both of radius `r`.
pub open spec fn is_opened(p: Grid, r: int, out: Grid) -> bool {
    exists|mid: Grid|
        #[trigger] is_filtered(p, r, false, mid) && is_filtered(mid, r, true, out)
}

/// The plane with rows and columns exchanged.
spec fn turned(p: Grid) -> Grid {
    Grid { w: p.h, h: p.w, d: Seq::new((p.w * p.h) as nat, |i: int| p.at(i / p.h, i % p.h)) }
}

proof fn lemma_turned(p: Grid)
    requires
        p.wf(),
    ensures
        is_transposed(p, turned(p)),
        is_transposed(turned(p), p),
{
    let q = turned(p);
    assert(p.w * p.h == p.h * p.w) by (nonlinear_arith);
    assert(p.w * p.h >= 0) by (nonlinear_arith)
        requires
            0 <= p.w,
            0 <= p.h,
    ;
    assert forall|x: int, y: int| p.has(x, y) implies #[trigger] q.at(y, x) == p.at(x, y) by {
        grid::lemma_cell_bound(y, x, p.h, p.w);
        grid::lemma_cell_div_mod(y, x, p.h);
    }
    assert forall|x: int, y: int| q.has(x, y) implies #[trigger] p.at(y, x) == q.at(x, y) by {
        assert(p.has(y, x));
        assert(q.at(x, y) == p.at(y, x));
    }
}

/// Opening: erosion, then dilation. The two steps share the pass along columns, so that the plane
/// is turned twice instead of four times.
pub fn open_filter(p: &Plane, r: usize) -> (out: Plane)
    requires
        p@.wf(),
        p.w + 4 * r + 1 <= usize::MAX,
        p.h + 4 * r + 1 <= usize::MAX,
    ensures
        is_opened(p@, r as int, out@),
{
    let a = extreme_1d_rows(p, r, false);
    let t = transpose(&a);
    let e = extreme_1d_rows(&t, r, false);
    let u = extreme_1d_rows(&e, r, true);
    let b = transpose(&u);
    let out = extreme_1d_rows(&b, r, true);
    proof {
        let mid = turned(e@);
        lemma_turned(e@);
        lemma_cols(a@, t@, e@, mid, r as int, false);
        lemma_rows_then_cols(p@, a@, mid, r as int, false);
        lemma_cols(mid, e@, u@, b@, r as int, true);
        lemma_cols_then_rows(mid, b@, out@, r as int, true);
        assert(is_filtered(p@, r as int, false, mid) && is_filtered(mid, r as int, true, out@));
    }
    out
}

/// The extremes over all squares leave no choice: two filtered planes of one plane are equal.
pub proof fn law_filter_unique(p: Grid, r: int, max: bool, a: Grid, b: Grid)
    requires
        p.wf(),
        is_filtered(p, r, max, a),
        is_filtered(p, r, max, b),
    ensures
        a == b,
{
    assert forall|i: int| 0 <= i < a.d.len() implies a.d[i] == b.d[i] by {
        if p.w == 0 {
            assert(p.w * p.h == 0) by (nonlinear_arith)
                requires
                    p.w == 0,
            ;
        }
        grid::lemma_cell_split(i, p.w, p.h);
        let x = i % p.w;
        let y = i / p.w;
        assert(p.has(x, y));
        let u = a.at(x, y);
        let v = b.at(x, y);
        assert(is_best_near(p, x, y, r, max, u));
        assert(is_best_near(p, x, y, r, max, v));
        let (xu, yu) = choose|xx: int, yy: int|
            near(p, x, y, r, xx, yy) && #[trigger] p.at(xx, yy) == u;
        let (xv, yv) = choose|xx: int, yy: int|
            near(p, x, y, r, xx, yy) && #[trigger] p.at(xx, yy) == v;
        assert(beats(max, u, p.at(xv, yv)));
        assert(beats(max, v, p.at(xu, yu)));
    }
    assert(a.d =~= b.d);
}

/// Opening never raises a key.
pub proof fn law_open_below(p: Grid, r: int, q: Grid, x: int, y: int)
    requires
        p.wf(),
        r >= 0,
        is_opened(p, r, q),
        p.has(x, y),
    ensures
        q.at(x, y) <= p.at(x, y),
{
    let mid = choose|mid: Grid|
        #[trigger] is_filtered(p, r, false, mid) && is_filtered(mid, r, true, q);
    assert(mid.has(x, y));
    let v = q.at(x, y);
    assert(is_best_near(mid, x, y, r, true, v));
    let (xx, yy) = choose|xx: int, yy: int|
        near(mid, x, y, r, xx, yy) && #[trigger] mid.at(xx, yy) == v;
    assert(p.has(xx, yy));
    assert(is_best_near(p, xx, yy, r, false, mid.at(xx, yy)));
    assert(near(p, xx, yy, r, x, y));
    assert(beats(false, mid.at(xx, yy), p.at(x, y)));
}

/// What is at least as wide as the square survives opening: where every cell of the square of
/// radius `r` round `(cx, cy)` reaches `level`, so does the opened plane all over that square.
pub proof fn law_open_keeps_wide(p: Grid, r: int, q: Grid, cx: int, cy: int, level: i64)
    requires
        p.wf(),
        r >= 0,
        is_opened(p, r, q),
        p.has(cx, cy),
        forall|x: int, y: int| near(p, cx, cy, r, x, y) ==> #[trigger] p.at(x, y) >= level,
    ensures
        forall|x: int, y: int| near(p, cx, cy, r, x, y) ==> #[trigger] q.at(x, y) >= level,
{
    let mid = choose|mid: Grid|
        #[trigger] is_filtered(p, r, false, mid) && is_filtered(mid, r, true, q);
    let c = mid.at(cx, cy);
    assert(is_best_near(p, cx, cy, r, false, c));
    let (xx, yy) = choose|xx: int, yy: int|
        near(p, cx, cy, r, xx, yy) && #[trigger] p.at(xx, yy) == c;
    assert(c >= level);
    assert forall|x: int, y: int| near(p, cx, cy, r, x, y) implies #[trigger] q.at(x, y)
        >= level by {
        assert(mid.has(x, y));
        assert(is_best_near(mid, x, y, r, true, q.at(x, y)));
        assert(near(mid, x, y, r, cx, cy));
        assert(beats(true, q.at(x, y), mid.at(cx, cy)));
    }
}

/// The cell `(xx, yy)` lies on the plane and in block `(x, y)` of blocks of `f` by `f` cells.
pub open spec fn in_block(p: Grid, x: int, y: int, f: int, xx: int, yy: int) -> bool {
    p.has(xx, yy) && xx / f == x && yy / f == y
}

/// `v` is the extreme of `p` over block `(x, y)`.
pub open spec fn is_best_block(p: Grid, x: int, y: int, f: int, max: bool, v: i64) -> bool {
    &&& exists|xx: int, yy: int| in_block(p, x, y, f, xx, yy) && #[trigger] p.at(xx, yy) == v
    &&& forall|xx: int, yy: int|
        in_block(p, x, y, f, xx, yy) ==> beats(max, v, #[trigger] p.at(xx, yy))
}

/// `a / b`, rounded up.
pub open spec fn blocks_along(a: int, b: int) -> int {
    (a + b - 1) / b
}

/// The extreme of every block of `f` by `f` cells; blocks at the right and lower rim may be cut off.
pub fn pool(p: &Plane, f: usize, max: bool) -> (out: Plane)
    requires
        p@.wf(),
        f >= 1,
        p.w + f <= usize::MAX,
        p.h + f <= usize::MAX,
    ensures
        out@.wf(),
        out@.w == blocks_along(p@.w, f as int),
        out@.h == blocks_along(p@.h, f as int),
        forall|x: int, y: int|
            out@.has(x, y) ==> is_best_block(p@, x, y, f as int, max, #[trigger] out@.at(x, y)),
{
    let len: usize = p.d.len();
    let cw: usize = (p.w + f - 1) / f;
    let ch: usize = (p.h + f - 1) / f;
    let ghost g = p@;
    let ghost fi = f as int;
    proof {
        lemma_blocks(g.w, fi);
        lemma_blocks(g.h, fi);
    }
    let mut d: Vec<i64> = Vec::new();
    let mut y: usize = 0;
    while y < ch
        invariant
            y <= ch,
            g == p@,
            g.wf(),
            fi == f,
            f >= 1,
            p.w + f <= usize::MAX,
            p.h + f <= usize::MAX,
            cw == blocks_along(g.w, fi),
            ch == blocks_along(g.h, fi),
            cw <= g.w,
            ch <= g.h,
            d@.len() == y * cw,
            forall|i: int, j: int|
                0 <= i < cw && 0 <= j < y ==> is_best_block(
                    g,
                    i,
                    j,
                    fi,
                    max,
                    #[trigger] d@[grid::cell(i, j, cw as int)],
                ),
        decreases ch - y,
    {
        let mut x: usize = 0;
        while x < cw
            invariant
                x <= cw,
                y < ch,
                g == p@,
                g.wf(),
                fi == f,
                f >= 1,
                p.w + f <= usize::MAX,
                p.h + f <= usize::MAX,
                cw == blocks_along(g.w, fi),
                ch == blocks_along(g.h, fi),
                d@.len() == y * cw + x,
                forall|i: int, j: int|
                    0 <= i < cw && 0 <= j < y ==> is_best_block(
                        g,
                        i,
                        j,
                        fi,
                        max,
                        #[trigger] d@[grid::cell(i, j, cw as int)],
                    ),
                forall|i: int|
                    0 <= i < x ==> is_best_block(
                        g,
                        i,
                        y as int,
                        fi,
                        max,
                        #[trigger] d@[grid::cell(i, y as int, cw as int)],
                    ),
            decreases cw - x,
        {
            let ghost before = d@;
            let v: i64 = block_extreme(p, x, y, f, max);
            d.push(v);
            proof {
                assert forall|i: int, j: int| 0 <= i < cw && 0 <= j < y implies is_best_block(
                    g,
                    i,
                    j,
                    fi,
                    max,
                    #[trigger] d@[grid::cell(i, j, cw as int)],
                ) by {
                    grid::lemma_cell_bound(i, j, cw as int, y as int);
                    assert(cw * y == y * cw) by (nonlinear_arith);
                    assert(before[grid::cell(i, j, cw as int)] == d@[grid::cell(i, j, cw as int)]);
                }
                assert forall|i: int| 0 <= i < x + 1 implies is_best_block(
                    g,
                    i,
                    y as int,
                    fi,
                    max,
                    #[trigger] d@[grid::cell(i, y as int, cw as int)],
                ) by {
                    if i < x {
                        assert(before[grid::cell(i, y as int, cw as int)] == d@[
                            grid::cell(i, y as int, cw as int)]);
                    }
                }
            }
            x += 1;
        }
        assert((y + 1) * cw == y * cw + cw) by (nonlinear_arith);
        y += 1;
    }
    assert(ch * cw == cw * ch) by (nonlinear_arith);
    let out = Plane { w: cw, h: ch, d };
    proof {
        assert forall|x: int, y: int| out@.has(x, y) implies is_best_block(
            p@,
            x,
            y,
            f as int,
            max,
            #[trigger] out@.at(x, y),
        ) by {
            assert(out@.at(x, y) == d@[grid::cell(x, y, cw as int)]);
        }
    }
    out
}

/// Every block starts on the plane.
proof fn lemma_blocks(n: int, f: int)
    requires
        n >= 0,
        f >= 1,
    ensures
        0 <= blocks_along(n, f) <= n,
{
    vstd::arithmetic::div_mod::lemma_fundamental_div_mod(n + f - 1, f);
    vstd::arithmetic::div_mod::lemma_mod_bound(n + f - 1, f);
    let q = blocks_along(n, f);
    assert(0 <= q <= n) by (nonlinear_arith)
        requires
            n + f - 1 == f * q + (n + f - 1) % f,
            0 <= (n + f - 1) % f < f,
            n >= 0,
            f >= 1,
    ;
}

/// Blocks and the cells in them.
proof fn lemma_in_block(x: int, f: int, n: int, xx: int)
    requires
        f >= 1,
        0 <= x < blocks_along(n, f),
        0 <= n,
    ensures
        0 <= x * f < n,
        xx / f == x <==> x * f <= xx < x * f + f,
{
    vstd::arithmetic::div_mod::lemma_fundamental_div_mod(n + f - 1, f);
    vstd::arithmetic::div_mod::lemma_mod_bound(n + f - 1, f);
    let q = blocks_along(n, f);
    assert(0 <= x * f < n) by (nonlinear_arith)
        requires
            n + f - 1 == f * q + (n + f - 1) % f,
            0 <= (n + f - 1) % f < f,
            0 <= x < q,
            f >= 1,
    ;
    if x * f <= xx < x * f + f {
        vstd::arithmetic::div_mod::lemma_fundamental_div_mod_converse(xx, f, x, xx - x * f);
    }
    if xx / f == x {
        vstd::arithmetic::div_mod::lemma_fundamental_div_mod(xx, f);
        vstd::arithmetic::div_mod::lemma_mod_bound(xx, f);
        assert(f * x == x * f) by (nonlinear_arith);
    }
}

fn block_extreme(p: &Plane, x: usize, y: usize, f: usize, max: bool) -> (v: i64)
    requires
        p@.wf(),
        f >= 1,
        p.w + f <= usize::MAX,
        p.h + f <= usize::MAX,
        x < blocks_along(p@.w, f as int),
        y < blocks_along(p@.h, f as int),
    ensures
        is_best_block(p@, x as int, y as int, f as int, max, v),
{
    let len: usize = p.d.len();
    let ghost g = p@;
    let ghost fi = f as int;
    proof {
        lemma_in_block(x as int, fi, g.w, x * f);
        lemma_in_block(y as int, fi, g.h, y * f);
    }
    let x0: usize = x * f;
    let y0: usize = y * f;
    let x1: usize = if p.w - x0 < f {
        p.w
    } else {
        x0 + f
    };
    let y1: usize = if p.h - y0 < f {
        p.h
    } else {
        y0 + f
    };
    proof {
        grid::lemma_cell_bound(x0 as int, y0 as int, g.w, g.h);
    }
    let mut v: i64 = p.d[y0 * p.w + x0];
    assert(g.at(x0 as int, y0 as int) == v);
    assert(in_block(g, x as int, y as int, fi, x0 as int, y0 as int));
    let mut yy: usize = y0;
    while yy < y1
        invariant
            g == p@,
            g.wf(),
            fi == f,
            f >= 1,
            len == p.d@.len(),
            x0 == x * f,
            y0 == y * f,
            x0 < x1 <= g.w,
            x1 <= x0 + f,
            y0 <= yy <= y1 <= g.h,
            y1 <= y0 + f,
            x < blocks_along(g.w, fi),
            y < blocks_along(g.h, fi),
            exists|a: int, b: int|
                in_block(g, x as int, y as int, fi, a, b) && #[trigger] g.at(a, b) == v,
            forall|a: int, b: int|
                x0 <= a < x1 && y0 <= b < yy ==> beats(max, v, #[trigger] g.at(a, b)),
        decreases y1 - yy,
    {
        let mut xx: usize = x0;
        while xx < x1
            invariant
                g == p@,
                g.wf(),
                fi == f,
                f >= 1,
                len == p.d@.len(),
                x0 == x * f,
                y0 == y * f,
                x0 <= xx <= x1 <= g.w,
                x1 <= x0 + f,
                y0 <= yy < y1 <= g.h,
                y1 <= y0 + f,
                x < blocks_along(g.w, fi),
                y < blocks_along(g.h, fi),
                exists|a: int, b: int|
                    in_block(g, x as int, y as int, fi, a, b) && #[trigger] g.at(a, b) == v,
                forall|a: int, b: int|
                    x0 <= a < x1 && y0 <= b < yy ==> beats(max, v, #[trigger] g.at(a, b)),
                forall|a: int|
                    x0 <= a < xx ==> beats(max, v, #[trigger] g.at(a, yy as int)),
            decreases x1 - xx,
        {
            proof {
                grid::lemma_cell_bound(xx as int, yy as int, g.w, g.h);
                lemma_in_block(x as int, fi, g.w, xx as int);
                lemma_in_block(y as int, fi, g.h, yy as int);
            }
            let c: i64 = p.d[yy * p.w + xx];
            assert(g.at(xx as int, yy as int) == c);
            let better = if max {
                c > v
            } else {
                c < v
            };
            if better {
                v = c;
                assert(in_block(g, x as int, y as int, fi, xx as int, yy as int));
            }
            xx += 1;
        }
        yy += 1;
    }
    proof {
        assert forall|a: int, b: int| in_block(g, x as int, y as int, fi, a, b) implies beats(
            max,
            v,
            #[trigger] g.at(a, b),
        ) by {
            lemma_in_block(x as int, fi, g.w, a);
            lemma_in_block(y as int, fi, g.h, b);
        }
    }
    v
}

/// The plane that holds the extreme over the square of radius `r` round every cell.
pub open spec fn filtered(p: Grid, r: int, max: bool) -> Grid {
    choose|out: Grid| is_filtered(p, r, max, out)
}

/// The extremes of the blocks of `f` by `f` cells.
pub open spec fn is_pooled(p: Grid, f: int, max: bool, out: Grid) -> bool {
    &&& out.wf()
    &&& out.w == blocks_along(p.w, f)
    &&& out.h == blocks_along(p.h, f)
    &&& forall|x: int, y: int|
        out.has(x, y) ==> is_best_block(p, x, y, f, max, #[trigger] out.at(x, y))
}

/// The plane that holds the extreme of every block of `f` by `f` cells.
pub open spec fn pooled(p: Grid, f: int, max: bool) -> Grid {
    choose|out: Grid| is_pooled(p, f, max, out)
}

/// Planes that agree in every cell are the same.
pub proof fn lemma_same_plane(a: Grid, b: Grid)
    requires
        a.wf(),
        b.wf(),
        a.w == b.w,
        a.h == b.h,
        forall|x: int, y: int| a.has(x, y) ==> #[trigger] a.at(x, y) == b.at(x, y),
    ensures
        a == b,
{
    assert forall|i: int| 0 <= i < a.d.len() implies a.d[i] == b.d[i] by {
        assert(a.w > 0) by (nonlinear_arith)
            requires
                a.w * a.h > 0,
                a.w >= 0,
        ;
        grid::lemma_cell_split(i, a.w, a.h);
        assert(a.at(i % a.w, i / a.w) == b.at(i % a.w, i / a.w));
    }
    assert(a.d =~= b.d);
}

/// There is but one plane of extremes round the cells, and what it holds comes from the plane itself.
pub proof fn law_filtered_unique(p: Grid, r: int, max: bool, out: Grid)
    requires
        p.wf(),
        is_filtered(p, r, max, out),
    ensures
        out == filtered(p, r, max),
        forall|i: int| 0 <= i < out.d.len() ==> p.d.contains(#[trigger] out.d[i]),
{
    let q = filtered(p, r, max);
    assert(is_filtered(p, r, max, q));
    assert forall|x: int, y: int| out.has(x, y) implies #[trigger] out.at(x, y) == q.at(x, y) by {
        assert(is_best_near(p, x, y, r, max, out.at(x, y)));
        assert(is_best_near(p, x, y, r, max, q.at(x, y)));
    }
    lemma_same_plane(out, q);
    assert forall|i: int| 0 <= i < out.d.len() implies p.d.contains(#[trigger] out.d[i]) by {
        assert(out.w > 0) by (nonlinear_arith)
            requires
                out.w * out.h > 0,
                out.w >= 0,
        ;
        grid::lemma_cell_split(i, out.w, out.h);
        let (x, y) = (i % out.w, i / out.w);
        assert(is_best_near(p, x, y, r, max, out.at(x, y)));
        let (xx, yy) = choose|xx: int, yy: int|
            near(p, x, y, r, xx, yy) && #[trigger] p.at(xx, yy) == out.at(x, y);
        grid::lemma_cell_bound(xx, yy, p.w, p.h);
        assert(p.d[grid::cell(xx, yy, p.w)] == out.d[i]);
    }
}

/// There is but one plane of extremes of blocks, and what it holds comes from the plane itself.
pub proof fn law_pooled_unique(p: Grid, f: int, max: bool, out: Grid)
    requires
        p.wf(),
        is_pooled(p, f, max, out),
    ensures
        out == pooled(p, f, max),
        forall|i: int| 0 <= i < out.d.len() ==> p.d.contains(#[trigger] out.d[i]),
{
    let q = pooled(p, f, max);
    assert(is_pooled(p, f, max, q));
    assert forall|x: int, y: int| out.has(x, y) implies #[trigger] out.at(x, y) == q.at(x, y) by {
        assert(is_best_block(p, x, y, f, max, out.at(x, y)));
        assert(is_best_block(p, x, y, f, max, q.at(x, y)));
    }
    lemma_same_plane(out, q);
    assert forall|i: int| 0 <= i < out.d.len() implies p.d.contains(#[trigger] out.d[i]) by {
        assert(out.w > 0) by (nonlinear_arith)
            requires
                out.w * out.h > 0,
                out.w >= 0,
        ;
        grid::lemma_cell_split(i, out.w, out.h);
        let (x, y) = (i % out.w, i / out.w);
        assert(is_best_block(p, x, y, f, max, out.at(x, y)));
        let (xx, yy) = choose|xx: int, yy: int|
            in_block(p, x, y, f, xx, yy) && #[trigger] p.at(xx, yy) == out.at(x, y);
        grid::lemma_cell_bound(xx, yy, p.w, p.h);
        assert(p.d[grid::cell(xx, yy, p.w)] == out.d[i]);
    }
}

} // verus!
