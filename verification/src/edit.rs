//! Editing photos: turning and cropping them, mixing a graded copy in, and what is put on them.

use vstd::prelude::*;

use crate::cli::split;
use crate::grid;
use crate::raster::Raster;
use crate::signed::Signed;
use crate::single::{ratio, Single};
use crate::smoke::exceeds;
use crate::text::{chars_of, trim, trim_tail};

verus! {

/// Byte `c` of pixel `k`.
pub open spec fn byte_of(d: Seq<u8>, k: int, c: int) -> u8 {
    d[k * 3 + c]
}

/// The pixel that a quarter turn brings to column `x` of row `y`; `q` turns, clockwise, of a `w` by
/// `h` picture.
pub open spec fn turned_from(q: int, w: int, h: int, x: int, y: int) -> (int, int) {
    if q == 1 {
        (y, h - 1 - x)
    } else if q == 2 {
        (w - 1 - x, h - 1 - y)
    } else if q == 3 {
        (w - 1 - y, x)
    } else {
        (x, y)
    }
}

/// The size of a picture after quarter turns.
pub open spec fn turned_size(q: int, w: int, h: int) -> (int, int) {
    if q == 1 || q == 3 {
        (h, w)
    } else {
        (w, h)
    }
}

/// The picture after `q` quarter turns, clockwise; any number but 1, 2 and 3 leaves it as it is.
pub fn turn(img: &Raster, q: u8) -> (out: Raster)
    requires
        img@.wf(),
    ensures
        out@.wf(),
        (out@.w, out@.h) == turned_size(q as int, img@.w, img@.h),
        forall|x: int, y: int, c: int|
            out@.has(x, y) && 0 <= c < 3 ==> #[trigger] out@.at(x, y, c) == ({
                let s = turned_from(q as int, img@.w, img@.h, x, y);
                img@.at(s.0, s.1, c)
            }),
{
    let (ow, oh) = if q == 1 || q == 3 {
        (img.h, img.w)
    } else {
        (img.w, img.h)
    };
    let n: usize = img.d.len();
    let ghost p = img@;
    let mut d: Vec<u8> = Vec::new();
    assert(img.w * img.h == img.h * img.w) by (nonlinear_arith);
    let mut y: usize = 0;
    while y < oh
        invariant
            y <= oh,
            p == img@,
            p.wf(),
            (ow as int, oh as int) == turned_size(q as int, p.w, p.h),
            d@.len() == y * ow * 3,
            forall|k: int, r: int, c: int|
                0 <= k < ow && 0 <= r < y && 0 <= c < 3 ==> #[trigger] byte_of(
                    d@,
                    grid::cell(k, r, ow as int),
                    c,
                ) == ({
                    let s = turned_from(q as int, p.w, p.h, k, r);
                    p.at(s.0, s.1, c)
                }),
        decreases oh - y,
    {
        let mut x: usize = 0;
        proof {
            assert forall|k: int, r: int, c: int|
                0 <= k < ow && 0 <= r && grid::cell(k, r, ow as int) < y * ow && 0 <= c
                    < 3 implies #[trigger] byte_of(d@, grid::cell(k, r, ow as int), c) == ({
                let s = turned_from(q as int, p.w, p.h, k, r);
                p.at(s.0, s.1, c)
            }) by {
                lemma_row_before(k, r, ow as int, y as int);
            }
        }
        while x < ow
            invariant
                x <= ow,
                y < oh,
                p == img@,
                p.wf(),
                (ow as int, oh as int) == turned_size(q as int, p.w, p.h),
                d@.len() == (y * ow + x) * 3,
                forall|k: int, r: int, c: int|
                    0 <= k < ow && 0 <= r && grid::cell(k, r, ow as int) < y * ow + x && 0 <= c < 3
                        ==> #[trigger] byte_of(d@, grid::cell(k, r, ow as int), c) == ({
                        let s = turned_from(q as int, p.w, p.h, k, r);
                        p.at(s.0, s.1, c)
                    }),
            decreases ow - x,
        {
            let (sx, sy) = if q == 1 {
                (y, img.h - 1 - x)
            } else if q == 2 {
                (img.w - 1 - x, img.h - 1 - y)
            } else if q == 3 {
                (img.w - 1 - y, x)
            } else {
                (x, y)
            };
            let ghost before = d@;
            let a: u8 = img.get(sx, sy, 0);
            let b: u8 = img.get(sx, sy, 1);
            let c: u8 = img.get(sx, sy, 2);
            d.push(a);
            d.push(b);
            d.push(c);
            proof {
                let here = grid::cell(x as int, y as int, ow as int);
                assert forall|k: int, r: int, c: int|
                    0 <= k < ow && 0 <= r && grid::cell(k, r, ow as int) < y * ow + x + 1 && 0 <= c
                        < 3 implies #[trigger] byte_of(d@, grid::cell(k, r, ow as int), c) == ({
                    let s = turned_from(q as int, p.w, p.h, k, r);
                    p.at(s.0, s.1, c)
                }) by {
                    let i = grid::cell(k, r, ow as int);
                    assert(r * ow >= 0) by (nonlinear_arith)
                        requires
                            r >= 0,
                            ow >= 0,
                    ;
                    if i < here {
                        assert(byte_of(before, i, c) == byte_of(d@, i, c));
                    } else {
                        grid::lemma_cell_injective(k, r, x as int, y as int, ow as int);
                    }
                }
            }
            x += 1;
        }
        proof {
            assert((y + 1) * ow == y * ow + ow) by (nonlinear_arith);
            assert forall|k: int, r: int, c: int|
                0 <= k < ow && 0 <= r < y + 1 && 0 <= c < 3 implies #[trigger] byte_of(
                d@,
                grid::cell(k, r, ow as int),
                c,
            ) == ({
                let s = turned_from(q as int, p.w, p.h, k, r);
                p.at(s.0, s.1, c)
            }) by {
                grid::lemma_cell_bound(k, r, ow as int, y + 1);
                assert(ow * (y + 1) == (y + 1) * ow) by (nonlinear_arith);
            }
        }
        y += 1;
    }
    assert(oh * ow == ow * oh) by (nonlinear_arith);
    let out = Raster { w: ow, h: oh, d };
    proof {
        assert forall|x: int, y: int, c: int|
            out@.has(x, y) && 0 <= c < 3 implies #[trigger] out@.at(x, y, c) == ({
            let s = turned_from(q as int, img@.w, img@.h, x, y);
            img@.at(s.0, s.1, c)
        }) by {
            assert(out@.at(x, y, c) == byte_of(d@, grid::cell(x, y, ow as int), c));
        }
    }
    out
}

/// A cell before row `y` lies in an earlier row.
proof fn lemma_row_before(k: int, r: int, w: int, y: int)
    requires
        0 <= k < w,
        grid::cell(k, r, w) < y * w,
    ensures
        r < y,
{
    assert(r < y) by (nonlinear_arith)
        requires
            0 <= k < w,
            r * w + k < y * w,
    ;
}

/// Turns add up: `b` quarter turns after `a` of them show the same pixels as both at once, and four
/// show the picture as it was.
pub proof fn law_turns_add_up(a: int, b: int, w: int, h: int, x: int, y: int)
    requires
        0 <= a < 4,
        0 <= b < 4,
    ensures
        ({
            let mid = turned_size(a, w, h);
            let s = turned_from(b, mid.0, mid.1, x, y);
            turned_from(a, w, h, s.0, s.1) == turned_from((a + b) % 4, w, h, x, y)
        }),
        ({
            let mid = turned_size(a, w, h);
            turned_size(b, mid.0, mid.1) == turned_size((a + b) % 4, w, h)
        }),
{
}

/// The part of a side of `side` pixels that `n` pixels from `at` on cover.
pub open spec fn covered(at: int, n: int, side: int) -> (int, int) {
    let a = if at < side {
        at
    } else {
        side
    };
    (
        a,
        if n < side - a {
            n
        } else {
            side - a
        },
    )
}

/// The part of a picture that lies in a box of `w` by `h` pixels at `(x, y)`.
pub fn crop(img: &Raster, x: u32, y: u32, w: u32, h: u32) -> (out: Raster)
    requires
        img@.wf(),
    ensures
        out@.wf(),
        out@.w == covered(x as int, w as int, img@.w).1,
        out@.h == covered(y as int, h as int, img@.h).1,
        forall|k: int, r: int, c: int|
            out@.has(k, r) && 0 <= c < 3 ==> #[trigger] out@.at(k, r, c) == img@.at(x + k, y + r, c),
{
    let x0: usize = if (x as usize) < img.w {
        x as usize
    } else {
        img.w
    };
    let y0: usize = if (y as usize) < img.h {
        y as usize
    } else {
        img.h
    };
    let ow: usize = if (w as usize) < img.w - x0 {
        w as usize
    } else {
        img.w - x0
    };
    let oh: usize = if (h as usize) < img.h - y0 {
        h as usize
    } else {
        img.h - y0
    };
    let ghost p = img@;
    let mut d: Vec<u8> = Vec::new();
    let mut r: usize = 0;
    while r < oh
        invariant
            r <= oh,
            p == img@,
            p.wf(),
            x0 + ow <= p.w,
            y0 + oh <= p.h,
            d@.len() == r * ow * 3,
            forall|k: int, j: int, c: int|
                0 <= k < ow && 0 <= j < r && 0 <= c < 3 ==> #[trigger] byte_of(
                    d@,
                    grid::cell(k, j, ow as int),
                    c,
                ) == p.at(x0 + k, y0 + j, c),
        decreases oh - r,
    {
        let mut k: usize = 0;
        proof {
            assert forall|i: int, j: int, c: int|
                0 <= i < ow && 0 <= j && grid::cell(i, j, ow as int) < r * ow && 0 <= c
                    < 3 implies #[trigger] byte_of(d@, grid::cell(i, j, ow as int), c) == p.at(
                x0 + i,
                y0 + j,
                c,
            ) by {
                lemma_row_before(i, j, ow as int, r as int);
            }
        }
        while k < ow
            invariant
                k <= ow,
                r < oh,
                p == img@,
                p.wf(),
                x0 + ow <= p.w,
                y0 + oh <= p.h,
                d@.len() == (r * ow + k) * 3,
                forall|i: int, j: int, c: int|
                    0 <= i < ow && 0 <= j && grid::cell(i, j, ow as int) < r * ow + k && 0 <= c < 3
                        ==> #[trigger] byte_of(d@, grid::cell(i, j, ow as int), c) == p.at(
                        x0 + i,
                        y0 + j,
                        c,
                    ),
            decreases ow - k,
        {
            let ghost before = d@;
            let a: u8 = img.get(x0 + k, y0 + r, 0);
            let b: u8 = img.get(x0 + k, y0 + r, 1);
            let c: u8 = img.get(x0 + k, y0 + r, 2);
            d.push(a);
            d.push(b);
            d.push(c);
            proof {
                let here = grid::cell(k as int, r as int, ow as int);
                assert forall|i: int, j: int, c: int|
                    0 <= i < ow && 0 <= j && grid::cell(i, j, ow as int) < r * ow + k + 1 && 0 <= c
                        < 3 implies #[trigger] byte_of(d@, grid::cell(i, j, ow as int), c) == p.at(
                    x0 + i,
                    y0 + j,
                    c,
                ) by {
                    let t = grid::cell(i, j, ow as int);
                    assert(j * ow >= 0) by (nonlinear_arith)
                        requires
                            j >= 0,
                            ow >= 0,
                    ;
                    if t < here {
                        assert(byte_of(before, t, c) == byte_of(d@, t, c));
                    } else {
                        grid::lemma_cell_injective(i, j, k as int, r as int, ow as int);
                    }
                }
            }
            k += 1;
        }
        proof {
            assert((r + 1) * ow == r * ow + ow) by (nonlinear_arith);
            assert forall|i: int, j: int, c: int|
                0 <= i < ow && 0 <= j < r + 1 && 0 <= c < 3 implies #[trigger] byte_of(
                d@,
                grid::cell(i, j, ow as int),
                c,
            ) == p.at(x0 + i, y0 + j, c) by {
                grid::lemma_cell_bound(i, j, ow as int, r + 1);
                assert(ow * (r + 1) == (r + 1) * ow) by (nonlinear_arith);
            }
        }
        r += 1;
    }
    assert(oh * ow == ow * oh) by (nonlinear_arith);
    let out = Raster { w: ow, h: oh, d };
    proof {
        assert forall|k: int, r: int, c: int|
            out@.has(k, r) && 0 <= c < 3 implies #[trigger] out@.at(k, r, c) == img@.at(
            x + k,
            y + r,
            c,
        ) by {
            assert(out@.at(k, r, c) == byte_of(d@, grid::cell(k, r, ow as int), c));
        }
    }
    out
}

/// A channel moved from `d` towards `l` by the share `k`: a share of at most 1/512 leaves it alone,
/// one of at least 511/512 moves it all the way.
pub open spec fn moved(d: u8, l: u8, k: Single) -> u8 {
    if !crate::single::below(crate::single::nearest(1, 512), k) {
        d
    } else if !crate::single::below(k, crate::single::nearest(511, 512)) {
        l
    } else {
        let v = crate::single::round(
            if l >= d {
                crate::single::total(
                    crate::single::nearest(d as int, 1),
                    crate::single::product(k, crate::single::nearest(l - d, 1)),
                )
            } else {
                crate::single::remainder(
                    crate::single::nearest(d as int, 1),
                    crate::single::product(k, crate::single::nearest(d - l, 1)),
                )
            },
        );
        if v > 255 {
            255
        } else {
            v as u8
        }
    }
}

fn move_channel(d: u8, l: u8, k: Single) -> (v: u8)
    requires
        crate::single::is_share(k),
    ensures
        v == moved(d, l, k),
{
    let lo = ratio(1, 512);
    if !lo.less(k) {
        return d;
    }
    let hi = ratio(511, 512);
    if !k.less(hi) {
        return l;
    }
    let base = Single::of(d as u64);
    proof {
        vstd::arithmetic::power2::lemma2_to64();
        assert(crate::single::up(32) == 0x1_0000_0000);
        assert(crate::single::up(24) == 0x100_0000);
        crate::single::lemma_exponent_from(1, 512, lo, -32);
        crate::single::lemma_exponent_upto(511, 512, hi, -24);
        if d > 0 {
            crate::stack::lemma_byte_exponent(d as int, base);
        }
    }
    let v: u64 = if l >= d {
        let step = Single::of((l - d) as u64);
        proof {
            if l > d {
                crate::stack::lemma_byte_exponent(l - d, step);
            }
        }
        base.plus(k.times(step)).round()
    } else {
        base.spare(k.times(Single::of((d - l) as u64))).round()
    };
    if v > 255 {
        255
    } else {
        v as u8
    }
}

/// Mixes a graded copy into a picture: each pixel is moved towards the copy's by its weight.
pub fn blend_masked(img: &mut Raster, layer: &Raster, weights: &Vec<Single>)
    requires
        old(img)@.wf(),
        layer@.wf(),
        layer@.w == old(img)@.w,
        layer@.h == old(img)@.h,
        weights@.len() == old(img)@.w * old(img)@.h,
        forall|i: int|
            0 <= i < weights@.len() ==> crate::single::is_share(#[trigger] weights@[i]),
    ensures
        final(img)@.wf(),
        final(img)@.w == old(img)@.w,
        final(img)@.h == old(img)@.h,
        forall|i: int, c: int|
            0 <= i < weights@.len() && 0 <= c < 3 ==> #[trigger] byte_of(final(img)@.d, i, c)
                == moved(byte_of(old(img)@.d, i, c), byte_of(layer@.d, i, c), weights@[i]),
{
    let ghost p = img@;
    let n: usize = weights.len();
    let m: usize = img.d.len();
    let mut i: usize = 0;
    while i < n
        invariant
            i <= n == weights@.len(),
            p.wf(),
            m == p.d.len() == n * 3,
            layer@.d.len() == m,
            img.w == p.w,
            img.h == p.h,
            img.d@.len() == m,
            forall|i: int|
                0 <= i < weights@.len() ==> crate::single::is_share(#[trigger] weights@[i]),
            forall|k: int, c: int|
                0 <= k < i && 0 <= c < 3 ==> #[trigger] byte_of(img.d@, k, c) == moved(
                    byte_of(p.d, k, c),
                    byte_of(layer@.d, k, c),
                    weights@[k],
                ),
            forall|j: int| 3 * i <= j < m ==> #[trigger] img.d@[j] == p.d[j],
        decreases n - i,
    {
        let ghost before = img.d@;
        let k = weights[i];
        let a: u8 = move_channel(img.d[i * 3], layer.d[i * 3], k);
        let b: u8 = move_channel(img.d[i * 3 + 1], layer.d[i * 3 + 1], k);
        let c: u8 = move_channel(img.d[i * 3 + 2], layer.d[i * 3 + 2], k);
        img.d.set(i * 3, a);
        img.d.set(i * 3 + 1, b);
        img.d.set(i * 3 + 2, c);
        proof {
            assert forall|k: int, c: int| 0 <= k < i + 1 && 0 <= c < 3 implies #[trigger] byte_of(
                img.d@,
                k,
                c,
            ) == moved(byte_of(p.d, k, c), byte_of(layer@.d, k, c), weights@[k]) by {
                if k < i {
                    assert(byte_of(before, k, c) == byte_of(img.d@, k, c));
                }
            }
        }
        i += 1;
    }
}

/// A weight of nothing leaves every channel as it is, and a weight of 1 takes the copy's.
pub proof fn law_mask_ends(d: u8, l: u8)
    ensures
        moved(d, l, crate::single::nought()) == d,
        moved(d, l, crate::single::one()) == l,
{
    lemma_512(1);
    lemma_512(511);
}

proof fn lemma_512(n: int)
    requires
        n == 1 || n == 511,
    ensures
        !crate::single::below(crate::single::nearest(n, 512), crate::single::nought()),
        !crate::single::below(crate::single::one(), crate::single::nearest(n, 512)),
        crate::single::below(crate::single::nearest(n, 512), crate::single::one()),
{
    vstd::arithmetic::power2::lemma2_to64();
    if n == 1 {
        let s = Single { m: crate::single::LOW, e: -32i32 };
        assert(1 * crate::single::up(32) == 0x1_0000_0000);
        assert(512 * crate::single::up(-32) == 512);
        assert(0x1_0000_0000int / 512 == 0x80_0000 && 0x1_0000_0000int % 512 == 0);
        assert(crate::single::in_binade(1, 512, -32));
        assert(crate::single::round_even(1 * crate::single::up(32), 512 * crate::single::up(-32))
            == crate::single::LOW);
        assert(crate::single::is_nearest(1, 512, s));
        crate::single::law_nearest_unique(1, 512, s);
    } else {
        let s = Single { m: 0xFF_8000, e: -24i32 };
        assert(511 * crate::single::up(24) == 511 * 0x100_0000);
        assert(512 * crate::single::up(-24) == 512);
        assert(crate::single::in_binade(511, 512, -24));
        assert(crate::single::round_even(511 * crate::single::up(24), 512 * crate::single::up(-24))
            == 0xFF_8000);
        assert(crate::single::is_nearest(511, 512, s));
        crate::single::law_nearest_unique(511, 512, s);
    }
}

/// Most cells along a side of the grid that smoke is wiped on.
pub const WIPE_GRID: usize = 64;

/// `a / b`, rounded up.
pub open spec fn parts(a: int, b: int) -> int {
    (a + b - 1) / b
}

/// `a / b`, rounded up.
pub fn divide_up(a: usize, b: usize) -> (r: usize)
    requires
        b > 0,
    ensures
        r == parts(a as int, b as int),
        r <= a,
        a > 0 ==> r > 0,
{
    let q: usize = a / b;
    let m: usize = a % b;
    proof {
        vstd::arithmetic::div_mod::lemma_fundamental_div_mod(a as int, b as int);
        assert(q * b == b * q) by (nonlinear_arith);
        if m == 0 {
            vstd::arithmetic::div_mod::lemma_fundamental_div_mod_converse(
                a + b - 1,
                b as int,
                q as int,
                b - 1,
            );
        } else {
            assert((q + 1) * b == q * b + b) by (nonlinear_arith);
            vstd::arithmetic::div_mod::lemma_fundamental_div_mod_converse(
                a + b - 1,
                b as int,
                q + 1,
                m - 1,
            );
        }
        assert(q <= a && (m > 0 ==> q + 1 <= a)) by (nonlinear_arith)
            requires
                a == b * q + m,
                b >= 1,
                q >= 0,
                m >= 0,
        ;
        assert(a > 0 ==> q > 0 || m > 0) by (nonlinear_arith)
            requires
                a == b * q + m,
                q >= 0,
                m >= 0,
        ;
    }
    if m == 0 {
        q
    } else {
        q + 1
    }
}

/// Side of the cells that a part of `bw` by `bh` pixels is divided into, and the numbers of columns
/// and rows: at most [`WIPE_GRID`] cells along the longer side.
pub fn wipe_grid(bw: usize, bh: usize) -> (r: (usize, usize, usize))
    ensures
        r.0 == crate::scale::at_least(parts(crate::scale::longer(bw as int, bh as int), 64), 1),
        r.1 == parts(bw as int, r.0 as int),
        r.2 == parts(bh as int, r.0 as int),
        r.1 <= bw,
        r.2 <= bh,
        bw > 0 ==> r.1 > 0,
        bh > 0 ==> r.2 > 0,
{
    let long: usize = if bw < bh {
        bh
    } else {
        bw
    };
    let c: usize = divide_up(long, 64);
    let cell: usize = if c < 1 {
        1
    } else {
        c
    };
    (cell, divide_up(bw, cell), divide_up(bh, cell))
}

/// The cell that pixel `i` of a part `bw` pixels wide falls in, on a grid of `gw` columns of cells of
/// `cell` pixels.
pub open spec fn cell_of(i: int, bw: int, cell: int, gw: int) -> int {
    (i / bw / cell) * gw + (i % bw) / cell
}

/// Cells of pixels lie on the grid.
pub proof fn lemma_cell_of(i: int, bw: int, bh: int, cell: int)
    requires
        0 <= i < bw * bh,
        bw > 0,
        cell > 0,
    ensures
        0 <= (i % bw) / cell < parts(bw, cell),
        0 <= i / bw / cell < parts(bh, cell),
        0 <= cell_of(i, bw, cell, parts(bw, cell)) < parts(bw, cell) * parts(bh, cell),
        0 <= (i / bw / cell) * parts(bw, cell) <= cell_of(i, bw, cell, parts(bw, cell)),
{
    grid::lemma_cell_split(i, bw, bh);
    lemma_part(i % bw, bw, cell);
    lemma_part(i / bw, bh, cell);
    grid::lemma_cell_bound(
        (i % bw) / cell,
        i / bw / cell,
        parts(bw, cell),
        parts(bh, cell),
    );
}

proof fn lemma_part(x: int, n: int, cell: int)
    requires
        0 <= x < n,
        cell > 0,
    ensures
        0 <= x / cell < parts(n, cell),
{
    vstd::arithmetic::div_mod::lemma_div_is_ordered(x + cell, n + cell - 1, cell);
    vstd::arithmetic::div_mod::lemma_div_plus_one(x, cell);
    vstd::arithmetic::div_mod::lemma_div_pos_is_pos(x, cell);
}

/// A text on a photo: its middle, as parts of the photo's sides, its size and its turn in degrees.
pub struct TextItem {
    pub text: String,
    pub x: Signed,
    pub y: Signed,
    pub size: i32,
    pub rot: Signed,
}

impl Default for TextItem {
    fn default() -> (t: TextItem)
        ensures
            t.text@.len() == 0,
            t.x == crate::stack::fraction(false, 5, 10),
            t.y == crate::stack::fraction(false, 85, 100),
            t.size == 48,
            t.rot == crate::stack::none(),
    {
        TextItem {
            text: String::new(),
            x: Signed { neg: false, size: ratio(5, 10) },
            y: Signed { neg: false, size: ratio(85, 100) },
            size: 48,
            rot: Signed { neg: false, size: Single { m: 0, e: 0 } },
        }
    }
}

impl TextItem {
    /// Is there anything to be seen of the text?
    pub fn visible(&self) -> (b: bool)
        ensures
            b == (crate::text::trimmed(self.text@).len() > 0),
    {
        let t = trim(self.text.as_str());
        let v = chars_of(t.as_str());
        v.len() > 0
    }
}

/// The lines of a text, without white space at its end.
pub fn text_lines(text: &str) -> (v: Vec<String>)
    ensures
        crate::path::names(v@) == crate::cli::pieces(crate::text::trim_end(text@), '\n'),
{
    let t = trim_tail(text);
    split(t.as_str(), '\n')
}

/// A picture on a photo: its file, its middle, its width as a part of the photo's, its turn in
/// degrees and how opaque it is.
pub struct ImageItem {
    pub path: String,
    pub x: Signed,
    pub y: Signed,
    pub scale: Signed,
    pub rot: Signed,
    pub opacity: Signed,
}

impl Default for ImageItem {
    fn default() -> (t: ImageItem)
        ensures
            t.path@.len() == 0,
            t.x == crate::stack::fraction(false, 5, 10),
            t.y == crate::stack::fraction(false, 5, 10),
            t.scale == crate::stack::fraction(false, 3, 10),
            t.rot == crate::stack::none(),
            t.opacity == (Signed { neg: false, size: crate::single::one() }),
    {
        ImageItem {
            path: String::new(),
            x: Signed { neg: false, size: ratio(5, 10) },
            y: Signed { neg: false, size: ratio(5, 10) },
            scale: Signed { neg: false, size: ratio(3, 10) },
            rot: Signed { neg: false, size: Single { m: 0, e: 0 } },
            opacity: Signed { neg: false, size: Single::unit() },
        }
    }
}

impl ImageItem {
    /// Is there anything to be seen of the picture?
    pub fn visible(&self) -> (b: bool)
        requires
            self.scale.wf(),
            self.opacity.wf(),
        ensures
            b == (self.path@.len() > 0 && crate::smoke::above(self.scale, 1, 1000)
                && crate::smoke::above(self.opacity, 2, 1000)),
    {
        let v = chars_of(self.path.as_str());
        v.len() > 0 && exceeds(self.scale, 1, 1000) && exceeds(self.opacity, 2, 1000)
    }
}

/// A stroke that wipes smoke away: the points it goes through, half its width as a part of the
/// photo's long edge, whether it keeps the trails of fireworks, how soft its edge is, how much each
/// touch wipes and how much all of them do.
pub struct Wipe {
    pub pts: Vec<(Signed, Signed)>,
    pub radius: Signed,
    pub keep_detail: bool,
    pub feather: Signed,
    pub flow: Signed,
    pub density: Signed,
}

impl Default for Wipe {
    fn default() -> (t: Wipe)
        ensures
            t.pts@.len() == 0,
            t.radius == crate::stack::none(),
            t.keep_detail,
            t.feather == crate::stack::fraction(false, 45, 100),
            t.flow == (Signed { neg: false, size: crate::single::one() }),
            t.density == (Signed { neg: false, size: crate::single::one() }),
    {
        Wipe {
            pts: Vec::new(),
            radius: Signed { neg: false, size: Single { m: 0, e: 0 } },
            keep_detail: true,
            feather: Signed { neg: false, size: ratio(45, 100) },
            flow: Signed { neg: false, size: Single::unit() },
            density: Signed { neg: false, size: Single::unit() },
        }
    }
}

impl Wipe {
    /// Does the stroke do anything?
    pub fn is_usable(&self) -> (b: bool)
        requires
            self.radius.wf(),
            self.density.wf(),
        ensures
            b == (self.pts@.len() > 0 && crate::smoke::above(self.radius, 1, 1000)
                && crate::smoke::above(self.density, 1, 1000)),
    {
        self.pts.len() > 0 && exceeds(self.radius, 1, 1000) && exceeds(self.density, 1, 1000)
    }
}

/// What is done to a photo once the smoke is out.
pub struct Finish<G> {
    pub grade: G,
    pub texts: Vec<TextItem>,
    pub images: Vec<ImageItem>,
    pub wipes: Vec<Wipe>,
}

impl<G> Finish<G> {
    /// Nothing but a grade.
    pub fn new(grade: G) -> (f: Finish<G>)
        ensures
            f.grade == grade,
            f.texts@.len() == 0,
            f.images@.len() == 0,
            f.wipes@.len() == 0,
    {
        Finish { grade, texts: Vec::new(), images: Vec::new(), wipes: Vec::new() }
    }
}

} // verus!
