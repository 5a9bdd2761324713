//! The smoke in a photo: what it adds to the light of each pixel, and where streaks cross it.

use vstd::prelude::*;

use crate::blocks::{block_index, block_minima};
use crate::field::{box_mean, open_filter, pool, upscale, Guide};
use crate::held::{add_to, divide_by, scale_by, take_from, whole};
use crate::maps::{ease_between, Mask};
use crate::raster::Raster;
use crate::scale::{gate_factor, streak_radius, window, work_size};
use crate::signed::{longer_of, Signed};
use crate::turned::nearest_pixel_of;

verus! {

/// How often smoke is peeled off.
pub const PEELS: usize = 3;

/// Tables of light: the linear light of each byte, that of each percentage of the brightest tone, and
/// how far a guided filter smooths for each setting of detail.
pub struct Light {
    pub tones: Vec<Signed>,
    pub shares: Vec<Signed>,
    pub smoothing: Vec<Signed>,
}

impl Light {
    /// The tables are full, and every number in them is in the range of single precision.
    pub open spec fn wf(&self) -> bool {
        &&& self.tones@.len() == 256
        &&& self.shares@.len() == 101
        &&& self.smoothing@.len() == 101
        &&& forall|i: int| 0 <= i < 256 ==> (#[trigger] self.tones@[i]).wf()
        &&& forall|i: int| 0 <= i < 101 ==> (#[trigger] self.shares@[i]).wf()
        &&& forall|i: int| 0 <= i < 101 ==> (#[trigger] self.smoothing@[i]).wf()
    }
}

/// The light of a colour.
pub open spec fn glow(r: Signed, g: Signed, b: Signed) -> Signed {
    crate::held::plus(
        crate::held::plus(
            crate::held::times(Signed::part(2126, 10000), r),
            crate::held::times(Signed::part(7152, 10000), g),
        ),
        crate::held::times(Signed::part(722, 10000), b),
    )
}

/// The light of a colour (see [`glow`]).
pub fn glow_of(r: Signed, g: Signed, b: Signed) -> (y: Signed)
    requires
        crate::held::fits(r),
        crate::held::fits(g),
        crate::held::fits(b),
    ensures
        y == glow(r, g, b),
        crate::held::fits(y),
{
    add_to(
        add_to(scale_by(Signed::of(2126, 10000), r), scale_by(Signed::of(7152, 10000), g)),
        scale_by(Signed::of(722, 10000), b),
    )
}

/// Three maps, one for each channel.
pub struct Planes {
    pub r: Vec<Signed>,
    pub g: Vec<Signed>,
    pub b: Vec<Signed>,
    pub w: usize,
    pub h: usize,
}

/// What three maps hold.
pub struct Tri {
    pub r: Seq<Signed>,
    pub g: Seq<Signed>,
    pub b: Seq<Signed>,
    pub w: int,
    pub h: int,
}

impl View for Planes {
    type V = Tri;

    open spec fn view(&self) -> Tri {
        Tri { r: self.r@, g: self.g@, b: self.b@, w: self.w as int, h: self.h as int }
    }
}

impl Tri {
    /// There is a number in the range for every cell and channel, and no side is too long.
    pub open spec fn wf(self) -> bool {
        &&& 0 < self.w <= crate::spread::longest()
        &&& 0 < self.h <= crate::spread::longest()
        &&& self.r.len() == self.w * self.h
        &&& self.g.len() == self.w * self.h
        &&& self.b.len() == self.w * self.h
        &&& crate::maps::is_map(self.r)
        &&& crate::maps::is_map(self.g)
        &&& crate::maps::is_map(self.b)
    }

    /// A channel as a map.
    pub open spec fn channel(self, c: int) -> crate::maps::Chart {
        crate::maps::Chart {
            d: if c == 0 {
                self.r
            } else if c == 1 {
                self.g
            } else {
                self.b
            },
            w: self.w,
            h: self.h,
        }
    }

    /// The light of each cell.
    pub open spec fn glows(self) -> crate::maps::Chart {
        crate::maps::Chart {
            d: Seq::new(self.r.len(), |i: int| glow(self.r[i], self.g[i], self.b[i])),
            w: self.w,
            h: self.h,
        }
    }
}

impl Planes {
    /// The light of each cell.
    pub fn light(&self) -> (out: Mask)
        requires
            self@.wf(),
        ensures
            out@ == self@.glows(),
            out@.wf(),
    {
        let n: usize = self.r.len();
        let mut d: Vec<Signed> = Vec::new();
        let mut i: usize = 0;
        while i < n
            invariant
                self@.wf(),
                i <= n == self.r@.len(),
                d@.len() == i,
                forall|j: int| 0 <= j < i ==> #[trigger] d@[j] == self@.glows().d[j],
                crate::maps::is_map(d@),
            decreases n - i,
        {
            d.push(glow_of(self.r[i], self.g[i], self.b[i]));
            i += 1;
        }
        assert(d@ =~= self@.glows().d);
        Mask { d, w: self.w, h: self.h }
    }
}

/// Channel `c` of a photo in linear light.
pub open spec fn lit(d: Seq<u8>, tones: Seq<Signed>, n: int, c: int) -> Seq<Signed> {
    Seq::new(n as nat, |i: int| tones[d[i * 3 + c] as int])
}

/// A photo in linear light.
pub open spec fn linear(p: crate::raster::Picture, tones: Seq<Signed>) -> Tri {
    let n = p.w * p.h;
    Tri { r: lit(p.d, tones, n, 0), g: lit(p.d, tones, n, 1), b: lit(p.d, tones, n, 2), w: p.w, h: p.h }
}

fn lit_of(img: &Raster, light: &Light, c: usize) -> (v: Vec<Signed>)
    requires
        img@.wf(),
        light.wf(),
        c < 3,
    ensures
        v@ == lit(img@.d, light.tones@, img@.w * img@.h, c as int),
        crate::maps::is_map(v@),
        forall|i: int| 0 <= i < v@.len() ==> (#[trigger] v@[i]).wf(),
{
    let len: usize = img.d.len();
    let ghost n = img@.w * img@.h;
    let mut v: Vec<Signed> = Vec::new();
    let mut i: usize = 0;
    while i < len / 3
        invariant
            len == img.d@.len() == n * 3,
            i <= len / 3 == n,
            c < 3,
            light.wf(),
            v@.len() == i,
            forall|j: int| 0 <= j < i ==> #[trigger] v@[j] == lit(img.d@, light.tones@, n, c as int)[j],
            forall|j: int| 0 <= j < i ==> (#[trigger] v@[j]).wf(),
        decreases len / 3 - i,
    {
        let b: usize = img.d[i * 3 + c] as usize;
        v.push(light.tones[b]);
        i += 1;
    }
    v
}

/// A photo in linear light (see [`linear`]).
pub fn linear_of(img: &Raster, light: &Light) -> (out: Planes)
    requires
        crate::subject::is_photo(img@),
        light.wf(),
    ensures
        out@ == linear(img@, light.tones@),
        out@.wf(),
        forall|i: int| 0 <= i < out@.r.len() ==> (#[trigger] out@.r[i]).wf(),
        forall|i: int| 0 <= i < out@.g.len() ==> (#[trigger] out@.g[i]).wf(),
        forall|i: int| 0 <= i < out@.b.len() ==> (#[trigger] out@.b[i]).wf(),
{
    let r = lit_of(img, light, 0);
    let g = lit_of(img, light, 1);
    let b = lit_of(img, light, 2);
    Planes { r, g, b, w: img.w, h: img.h }
}

/// What falls together: the sum, the greatest number above zero, and how many there are.
pub struct Pile {
    pub sum: Signed,
    pub max: Signed,
    pub count: int,
}

/// Of the first `n` numbers, those that fall in heap `b`.
pub open spec fn pile(v: Seq<Signed>, at: Seq<usize>, b: int, n: int) -> Pile
    decreases n,
{
    if n <= 0 {
        Pile { sum: Signed::part(0, 1), max: Signed::part(0, 1), count: 0 }
    } else {
        let t = pile(v, at, b, n - 1);
        if at[n - 1] == b {
            Pile {
                sum: crate::held::plus(t.sum, v[n - 1]),
                max: if t.max.lies_below(v[n - 1]) {
                    v[n - 1]
                } else {
                    t.max
                },
                count: t.count + 1,
            }
        } else {
            t
        }
    }
}

/// The means of heaps.
pub open spec fn pile_means(v: Seq<Signed>, at: Seq<usize>, k: int) -> Seq<Signed> {
    Seq::new(
        k as nat,
        |b: int|
            {
                let t = pile(v, at, b, v.len() as int);
                crate::held::over(t.sum, Signed::part(crate::signed::max_of(t.count, 1), 1))
            },
    )
}

/// The greatest numbers of heaps.
pub open spec fn pile_maxima(v: Seq<Signed>, at: Seq<usize>, k: int) -> Seq<Signed> {
    Seq::new(k as nat, |b: int| pile(v, at, b, v.len() as int).max)
}

/// The means and the greatest numbers of `k` heaps.
fn pile_up(v: &Vec<Signed>, at: &Vec<usize>, k: usize) -> (r: (Vec<Signed>, Vec<Signed>))
    requires
        v@.len() == at@.len(),
        crate::maps::is_map(v@),
        forall|i: int| 0 <= i < at@.len() ==> #[trigger] at@[i] < k,
    ensures
        r.0@ == pile_means(v@, at@, k as int),
        r.1@ == pile_maxima(v@, at@, k as int),
        crate::maps::is_map(r.0@),
        crate::maps::is_map(r.1@),
{
    let n: usize = v.len();
    let zero = Signed::zero();
    let mut sums: Vec<Signed> = Vec::new();
    let mut tops: Vec<Signed> = Vec::new();
    let mut counts: Vec<usize> = Vec::new();
    let mut b: usize = 0;
    while b < k
        invariant
            b <= k,
            zero == Signed::part(0, 1),
            crate::held::fits(zero),
            sums@.len() == b,
            tops@.len() == b,
            counts@.len() == b,
            forall|j: int| 0 <= j < b ==> #[trigger] sums@[j] == zero,
            forall|j: int| 0 <= j < b ==> #[trigger] tops@[j] == zero,
            forall|j: int| 0 <= j < b ==> #[trigger] counts@[j] == 0,
        decreases k - b,
    {
        sums.push(zero);
        tops.push(zero);
        counts.push(0);
        b += 1;
    }
    let mut i: usize = 0;
    while i < n
        invariant
            i <= n == v@.len() == at@.len(),
            crate::maps::is_map(v@),
            forall|j: int| 0 <= j < at@.len() ==> #[trigger] at@[j] < k,
            sums@.len() == tops@.len() == counts@.len() == k,
            forall|j: int| 0 <= j < k ==> #[trigger] sums@[j] == pile(v@, at@, j, i as int).sum,
            forall|j: int| 0 <= j < k ==> #[trigger] tops@[j] == pile(v@, at@, j, i as int).max,
            forall|j: int|
                0 <= j < k ==> #[trigger] counts@[j] == pile(v@, at@, j, i as int).count,
            forall|j: int| 0 <= j < k ==> #[trigger] counts@[j] <= i,
            crate::maps::is_map(sums@),
            crate::maps::is_map(tops@),
        decreases n - i,
    {
        let a: usize = at[i];
        let s = add_to(sums[a], v[i]);
        sums.set(a, s);
        if tops[a].less(v[i]) {
            tops.set(a, v[i]);
        }
        let c: usize = counts[a];
        counts.set(a, c + 1);
        i += 1;
    }
    let mut means: Vec<Signed> = Vec::new();
    let mut b: usize = 0;
    while b < k
        invariant
            b <= k == sums@.len() == counts@.len(),
            forall|j: int|
                0 <= j < k ==> #[trigger] sums@[j] == pile(v@, at@, j, v@.len() as int).sum,
            forall|j: int|
                0 <= j < k ==> #[trigger] counts@[j] == pile(v@, at@, j, v@.len() as int).count,
            crate::maps::is_map(sums@),
            means@.len() == b,
            forall|j: int| 0 <= j < b ==> #[trigger] means@[j] == pile_means(v@, at@, k as int)[j],
            crate::maps::is_map(means@),
        decreases k - b,
    {
        let c: usize = if counts[b] < 1 {
            1
        } else {
            counts[b]
        };
        means.push(divide_by(sums[b], whole(c as u64)));
        b += 1;
    }
    assert(tops@ =~= pile_maxima(v@, at@, k as int));
    (means, tops)
}

/// The block of `ww` by `wh` that each pixel of a `fw` by `fh` photo falls in.
pub open spec fn places(fw: int, fh: int, ww: int, wh: int) -> Seq<usize> {
    Seq::new(
        (fw * fh) as nat,
        |j: int|
            (crate::blocks::block_of(j / fw, fh, wh) * ww + crate::blocks::block_of(j % fw, fw, ww))
                as usize,
    )
}

/// There are no more blocks than pixels, and places among them can be counted.
proof fn lemma_fits_in(fw: int, fh: int, ww: int, wh: int)
    requires
        0 < ww <= fw <= crate::spread::longest(),
        0 < wh <= fh <= crate::spread::longest(),
    ensures
        0 < ww * wh <= fw * fh,
        fw * ww <= u64::MAX,
        fh * wh <= u64::MAX,
{
    assert(0 < ww * wh <= fw * fh && fw * ww <= 0xFFFF_FFFF * 0xFFFF_FFFF && fh * wh <= 0xFFFF_FFFF
        * 0xFFFF_FFFF) by (nonlinear_arith)
        requires
            0 < ww <= fw <= 0xFFFF_FFFF,
            0 < wh <= fh <= 0xFFFF_FFFF,
    ;
}

fn places_of(fw: usize, fh: usize, ww: usize, wh: usize) -> (at: Vec<usize>)
    requires
        0 < ww <= fw <= crate::spread::longest(),
        0 < wh <= fh <= crate::spread::longest(),
        fw * fh <= usize::MAX,
    ensures
        at@ == places(fw as int, fh as int, ww as int, wh as int),
        forall|i: int| 0 <= i < at@.len() ==> #[trigger] at@[i] < ww * wh,
{
    let n: usize = fw * fh;
    proof {
        lemma_fits_in(fw as int, fh as int, ww as int, wh as int);
    }
    let mut at: Vec<usize> = Vec::new();
    let mut j: usize = 0;
    while j < n
        invariant
            0 < ww <= fw <= crate::spread::longest(),
            0 < wh <= fh <= crate::spread::longest(),
            n == fw * fh,
            fw * ww <= u64::MAX,
            fh * wh <= u64::MAX,
            ww * wh <= n,
            j <= n,
            at@.len() == j,
            forall|i: int|
                0 <= i < j ==> #[trigger] at@[i] == places(
                    fw as int,
                    fh as int,
                    ww as int,
                    wh as int,
                )[i],
            forall|i: int| 0 <= i < j ==> #[trigger] at@[i] < ww * wh,
        decreases n - j,
    {
        proof {
            crate::grid::lemma_cell_split(j as int, fw as int, fh as int);
        }
        let by: usize = block_index(j / fw, fh, wh);
        let bx: usize = block_index(j % fw, fw, ww);
        proof {
            crate::grid::lemma_cell_bound(bx as int, by as int, ww as int, wh as int);
            assert(0 <= by * ww) by (nonlinear_arith);
        }
        at.push(by * ww + bx);
        j += 1;
    }
    at
}

/// Per block of pixels: the least light of each channel, the mean light and the greatest.
pub struct Blocks {
    pub low: Planes,
    pub mean: Mask,
    pub max: Mask,
}

/// What blocks hold.
pub struct Pool {
    pub low: Tri,
    pub mean: crate::maps::Chart,
    pub max: crate::maps::Chart,
}

impl View for Blocks {
    type V = Pool;

    open spec fn view(&self) -> Pool {
        Pool { low: self.low@, mean: self.mean@, max: self.max@ }
    }
}

impl Pool {
    /// All maps are there and have the same sides.
    pub open spec fn wf(self) -> bool {
        &&& self.low.wf()
        &&& self.mean.wf()
        &&& self.max.wf()
        &&& self.mean.w == self.low.w
        &&& self.mean.h == self.low.h
        &&& self.max.w == self.low.w
        &&& self.max.h == self.low.h
    }
}

/// The radius of the blur that keeps single pixels from setting a block: half a block, from 1 to 1999.
pub open spec fn block_blur(fw: int, ww: int) -> int {
    crate::signed::max_of(
        crate::turned::nearest_pixel(
            crate::held::over(
                crate::held::over(Signed::part(fw, 1), Signed::part(ww, 1)),
                Signed::part(2, 1),
            ),
            2000,
        ),
        1,
    )
}

/// Channel `c` of the least light of the blocks.
pub open spec fn low_light(
    p: crate::raster::Picture,
    tones: Seq<Signed>,
    ww: int,
    wh: int,
    c: int,
) -> Seq<Signed> {
    let low = crate::blocks::lows(p, block_blur(p.w, ww), c, ww, wh);
    Seq::new((ww * wh) as nat, |b: int| tones[low[b] as int])
}

/// A photo brought down to blocks.
pub open spec fn blocked(p: crate::raster::Picture, tones: Seq<Signed>, ww: int, wh: int) -> Pool {
    let lum = linear(p, tones).glows().d;
    let at = places(p.w, p.h, ww, wh);
    Pool {
        low: Tri {
            r: low_light(p, tones, ww, wh, 0),
            g: low_light(p, tones, ww, wh, 1),
            b: low_light(p, tones, ww, wh, 2),
            w: ww,
            h: wh,
        },
        mean: crate::maps::Chart { d: pile_means(lum, at, ww * wh), w: ww, h: wh },
        max: crate::maps::Chart { d: pile_maxima(lum, at, ww * wh), w: ww, h: wh },
    }
}

fn low_light_of(low: &Vec<u32>, light: &Light) -> (v: Vec<Signed>)
    requires
        light.wf(),
        forall|i: int| 0 <= i < low@.len() ==> #[trigger] low@[i] <= 255,
    ensures
        v@.len() == low@.len(),
        forall|i: int| 0 <= i < v@.len() ==> #[trigger] v@[i] == light.tones@[low@[i] as int],
        crate::maps::is_map(v@),
{
    let n: usize = low.len();
    let mut v: Vec<Signed> = Vec::new();
    let mut i: usize = 0;
    while i < n
        invariant
            i <= n == low@.len(),
            light.wf(),
            forall|j: int| 0 <= j < low@.len() ==> #[trigger] low@[j] <= 255,
            v@.len() == i,
            forall|j: int| 0 <= j < i ==> #[trigger] v@[j] == light.tones@[low@[j] as int],
            crate::maps::is_map(v@),
        decreases n - i,
    {
        let b: usize = low[i] as usize;
        v.push(light.tones[b]);
        i += 1;
    }
    v
}

fn block_blur_of(fw: usize, ww: usize) -> (r: usize)
    requires
        0 < ww,
    ensures
        r == block_blur(fw as int, ww as int),
        1 <= r < 2000,
{
    let f = divide_by(divide_by(whole(fw as u64), whole(ww as u64)), Signed::of(2, 1));
    let r: usize = nearest_pixel_of(f, 2000);
    if r < 1 {
        1
    } else {
        r
    }
}

/// Brings a photo down to blocks (see [`blocked`]).
pub fn downsample(img: &Raster, light: &Light, ww: usize, wh: usize) -> (b: Blocks)
    requires
        crate::subject::is_photo(img@),
        light.wf(),
        0 < ww <= img.w,
        0 < wh <= img.h,
    ensures
        b@ == blocked(img@, light.tones@, ww as int, wh as int),
        b@.wf(),
{
    let fw: usize = img.w;
    let fh: usize = img.h;
    let r: usize = block_blur_of(fw, ww);
    proof {
        lemma_fits_in(fw as int, fh as int, ww as int, wh as int);
    }
    assert(crate::blur::fits(r as int)) by {
        assert((2 * r + 1) * (2 * r + 1) <= 4000 * 4000) by (nonlinear_arith)
            requires
                0 <= r < 2000,
        ;
    }
    let ghost n = fw * fh;
    assert(0 <= n);
    let low = block_minima(img, ww, wh, r);
    proof {
        crate::blocks::law_lows_unique(img@, r as int, 0, ww as int, wh as int, low@[0]@);
        crate::blocks::law_lows_unique(img@, r as int, 1, ww as int, wh as int, low@[1]@);
        crate::blocks::law_lows_unique(img@, r as int, 2, ww as int, wh as int, low@[2]@);
    }
    let red = low_light_of(&low[0], light);
    let green = low_light_of(&low[1], light);
    let blue = low_light_of(&low[2], light);
    let lum = linear_of(img, light).light();
    let at = places_of(fw, fh, ww, wh);
    let (mean, max) = pile_up(&lum.d, &at, ww * wh);
    let ghost want = blocked(img@, light.tones@, ww as int, wh as int);
    assert(red@ =~= want.low.r);
    assert(green@ =~= want.low.g);
    assert(blue@ =~= want.low.b);
    Blocks {
        low: Planes { r: red, g: green, b: blue, w: ww, h: wh },
        mean: Mask { d: mean, w: ww, h: wh },
        max: Mask { d: max, w: ww, h: wh },
    }
}

/// The sums of two maps.
pub open spec fn sums(a: Seq<Signed>, b: Seq<Signed>) -> Seq<Signed> {
    Seq::new(a.len(), |i: int| crate::held::plus(a[i], b[i]))
}

fn sums_of(a: &Vec<Signed>, b: &Vec<Signed>) -> (out: Vec<Signed>)
    requires
        a@.len() == b@.len(),
        crate::maps::is_map(a@),
        crate::maps::is_map(b@),
    ensures
        out@ == sums(a@, b@),
        crate::maps::is_map(out@),
{
    let n: usize = a.len();
    let mut out: Vec<Signed> = Vec::new();
    let mut i: usize = 0;
    while i < n
        invariant
            i <= n == a@.len() == b@.len(),
            crate::maps::is_map(a@),
            crate::maps::is_map(b@),
            out@.len() == i,
            forall|j: int| 0 <= j < i ==> #[trigger] out@[j] == sums(a@, b@)[j],
            crate::maps::is_map(out@),
        decreases n - i,
    {
        out.push(add_to(a[i], b[i]));
        i += 1;
    }
    out
}

/// What is left of one map above another.
pub open spec fn excess(a: Seq<Signed>, b: Seq<Signed>) -> Seq<Signed> {
    Seq::new(a.len(), |i: int| crate::held::minus(a[i], b[i]).larger(Signed::part(0, 1)))
}

/// What is left of one map above another (see [`excess`]).
pub fn excess_of(a: &Vec<Signed>, b: &Vec<Signed>) -> (out: Vec<Signed>)
    requires
        a@.len() == b@.len(),
        crate::maps::is_map(a@),
        crate::maps::is_map(b@),
    ensures
        out@ == excess(a@, b@),
        crate::maps::is_map(out@),
{
    let n: usize = a.len();
    let mut out: Vec<Signed> = Vec::new();
    let mut i: usize = 0;
    while i < n
        invariant
            i <= n == a@.len() == b@.len(),
            crate::maps::is_map(a@),
            crate::maps::is_map(b@),
            out@.len() == i,
            forall|j: int| 0 <= j < i ==> #[trigger] out@[j] == excess(a@, b@)[j],
            crate::maps::is_map(out@),
        decreases n - i,
    {
        out.push(take_from(a[i], b[i]).max(Signed::zero()));
        i += 1;
    }
    out
}

/// The smooth cover below a map: its narrow bright spots are taken out, and it is smoothed along the
/// edges of a guide, but it stays from zero to the map.
pub open spec fn envelope(
    ch: crate::maps::Chart,
    guide: crate::maps::Chart,
    rg: int,
    ro: int,
    eps: Signed,
) -> Seq<Signed> {
    let s = crate::field::guided(guide, crate::field::opened(ch, ro).d, rg, eps).d;
    Seq::new(ch.d.len(), |i: int| s[i].clamped(Signed::part(0, 1), ch.d[i]))
}

fn envelope_of(ch: &Mask, guide: &Guide, ro: usize, eps: Signed) -> (out: Vec<Signed>)
    requires
        ch@.wf(),
        guide.wf(),
        ch@.w == guide.g@.w,
        ch@.h == guide.g@.h,
        ro <= crate::spread::longest(),
        crate::held::fits(eps),
    ensures
        out@ == envelope(ch@, guide.g@, guide.r as int, ro as int, eps),
        crate::maps::is_map(out@),
{
    let flat = open_filter(ch, ro);
    let s = guide.filter(&flat, eps);
    let n: usize = ch.d.len();
    let zero = Signed::zero();
    let mut out: Vec<Signed> = Vec::new();
    let mut i: usize = 0;
    while i < n
        invariant
            i <= n == ch.d@.len() == s.d@.len(),
            crate::maps::is_map(ch.d@),
            crate::maps::is_map(s.d@),
            zero == Signed::part(0, 1),
            crate::held::fits(zero),
            out@.len() == i,
            forall|j: int| 0 <= j < i ==> #[trigger] out@[j] == s.d@[j].clamped(zero, ch.d@[j]),
            crate::maps::is_map(out@),
        decreases n - i,
    {
        out.push(s.d[i].clamp(zero, ch.d[i]));
        i += 1;
    }
    assert(out@ =~= envelope(ch@, guide.g@, guide.r as int, ro as int, eps));
    out
}

/// Smoke that was peeled off, and what is left.
pub struct Peel {
    pub layer: Tri,
    pub rest: Tri,
}

/// A map of zeros.
pub open spec fn nothing(n: int) -> Seq<Signed> {
    Seq::new(n as nat, |i: int| Signed::part(0, 1))
}

fn nothing_of(n: usize) -> (out: Vec<Signed>)
    ensures
        out@ == nothing(n as int),
        crate::maps::is_map(out@),
{
    let zero = Signed::zero();
    let mut out: Vec<Signed> = Vec::new();
    let mut i: usize = 0;
    while i < n
        invariant
            i <= n,
            zero == Signed::part(0, 1),
            crate::held::fits(zero),
            out@.len() == i,
            forall|j: int| 0 <= j < i ==> #[trigger] out@[j] == zero,
            crate::maps::is_map(out@),
        decreases n - i,
    {
        out.push(zero);
        i += 1;
    }
    assert(out@ =~= nothing(n as int));
    out
}

/// Channel `c` after one more round: what goes onto the layer, and what is left.
pub open spec fn peel_channel(p: Peel, rg: int, ro: int, eps: Signed, c: int) -> (
    Seq<Signed>,
    Seq<Signed>,
) {
    let s = envelope(p.rest.channel(c), p.rest.glows(), rg, ro, eps);
    (sums(p.layer.channel(c).d, s), excess(p.rest.channel(c).d, s))
}

/// Smoke peeled off once more; the light that is left guides the filter.
pub open spec fn peel_once(p: Peel, rg: int, ro: int, eps: Signed) -> Peel {
    let r = peel_channel(p, rg, ro, eps, 0);
    let g = peel_channel(p, rg, ro, eps, 1);
    let b = peel_channel(p, rg, ro, eps, 2);
    Peel {
        layer: Tri { r: r.0, g: g.0, b: b.0, w: p.rest.w, h: p.rest.h },
        rest: Tri { r: r.1, g: g.1, b: b.1, w: p.rest.w, h: p.rest.h },
    }
}

/// Smoke peeled off `k` times.
pub open spec fn peeled(low: Tri, rg: int, ro: int, eps: Signed, k: int) -> Peel
    decreases k,
{
    if k <= 0 {
        let n = low.w * low.h;
        Peel {
            layer: Tri { r: nothing(n), g: nothing(n), b: nothing(n), w: low.w, h: low.h },
            rest: low,
        }
    } else {
        peel_once(peeled(low, rg, ro, eps, k - 1), rg, ro, eps)
    }
}

fn peel_step(layer: &Planes, rest: &Planes, rg: usize, ro: usize, eps: Signed) -> (out: (
    Planes,
    Planes,
))
    requires
        layer@.wf(),
        rest@.wf(),
        layer@.w == rest@.w,
        layer@.h == rest@.h,
        rg <= crate::spread::longest(),
        ro <= crate::spread::longest(),
        crate::held::fits(eps),
    ensures
        (Peel { layer: out.0@, rest: out.1@ }) == peel_once(
            Peel { layer: layer@, rest: rest@ },
            rg as int,
            ro as int,
            eps,
        ),
        out.0@.wf(),
        out.1@.wf(),
{
    let w: usize = rest.w;
    let h: usize = rest.h;
    let guide = Guide::new(rest.light(), rg);
    let red = Mask { d: copy_row(&rest.r), w, h };
    let green = Mask { d: copy_row(&rest.g), w, h };
    let blue = Mask { d: copy_row(&rest.b), w, h };
    let sr = envelope_of(&red, &guide, ro, eps);
    let sg = envelope_of(&green, &guide, ro, eps);
    let sb = envelope_of(&blue, &guide, ro, eps);
    (
        Planes {
            r: sums_of(&layer.r, &sr),
            g: sums_of(&layer.g, &sg),
            b: sums_of(&layer.b, &sb),
            w,
            h,
        },
        Planes {
            r: excess_of(&rest.r, &sr),
            g: excess_of(&rest.g, &sg),
            b: excess_of(&rest.b, &sb),
            w,
            h,
        },
    )
}

/// A copy of a row of numbers.
pub fn copy_row(v: &Vec<Signed>) -> (out: Vec<Signed>)
    ensures
        out@ == v@,
{
    let n: usize = v.len();
    let mut out: Vec<Signed> = Vec::new();
    let mut i: usize = 0;
    while i < n
        invariant
            i <= n == v@.len(),
            out@ == v@.take(i as int),
        decreases n - i,
    {
        out.push(v[i]);
        assert(v@.take(i + 1) =~= v@.take(i as int).push(v@[i as int]));
        i += 1;
    }
    assert(out@ =~= v@);
    out
}

/// The side of the square over which bright spots are taken out, for a long edge.
pub open spec fn spot_radius(long: int) -> int {
    crate::scale::within(crate::scale::portion(long, 6, 1000), 2, 8)
}

/// The radius of the guided filter, for a long edge and a setting of detail.
pub open spec fn guide_radius(long: int, detail: int) -> int {
    let share = crate::held::minus(
        Signed::part(6, 100),
        crate::held::times(
            Signed::part(45, 1000),
            crate::held::over(Signed::part(detail, 1), Signed::part(100, 1)),
        ),
    );
    crate::signed::max_of(
        crate::turned::nearest_pixel(crate::held::times(Signed::part(long, 1), share), 61),
        3,
    )
}

fn guide_radius_of(long: usize, detail: usize) -> (r: usize)
    ensures
        r == guide_radius(long as int, detail as int),
        3 <= r <= 60,
{
    let share = take_from(
        Signed::of(6, 100),
        scale_by(Signed::of(45, 1000), divide_by(whole(detail as u64), whole(100))),
    );
    let r: usize = nearest_pixel_of(scale_by(whole(long as u64), share), 61);
    if r < 3 {
        3
    } else {
        r
    }
}

/// The layer of smoke over blocks.
pub open spec fn layered(low: Tri, detail: int, eps: Signed) -> Tri {
    let long = crate::signed::max_of(low.w, low.h);
    let ro = spot_radius(long);
    let p = peeled(low, guide_radius(long, detail), ro, eps, PEELS as int);
    let rr = crate::signed::max_of(ro / 4, 2);
    Tri {
        r: sums(p.layer.r, crate::field::opened(p.rest.channel(0), rr).d),
        g: sums(p.layer.g, crate::field::opened(p.rest.channel(1), rr).d),
        b: sums(p.layer.b, crate::field::opened(p.rest.channel(2), rr).d),
        w: low.w,
        h: low.h,
    }
}

fn layer_of(low: Planes, detail: usize, eps: Signed) -> (out: Planes)
    requires
        low@.wf(),
        crate::held::fits(eps),
    ensures
        out@ == layered(low@, detail as int, eps),
        out@.wf(),
{
    let w: usize = low.w;
    let h: usize = low.h;
    let n: usize = low.r.len();
    let long: usize = longer_of(w, h);
    let ro: usize = window(long as u32, 6, 1000, 2, 8) as usize;
    let rg: usize = guide_radius_of(long, detail);
    let ghost start = low@;
    let mut layer = Planes { r: nothing_of(n), g: nothing_of(n), b: nothing_of(n), w, h };
    let mut rest = low;
    let mut k: usize = 0;
    while k < PEELS
        invariant
            k <= PEELS,
            layer@.wf(),
            rest@.wf(),
            layer@.w == rest@.w == start.w == w,
            layer@.h == rest@.h == start.h == h,
            rg <= crate::spread::longest(),
            ro <= crate::spread::longest(),
            crate::held::fits(eps),
            (Peel { layer: layer@, rest: rest@ }) == peeled(
                start,
                rg as int,
                ro as int,
                eps,
                k as int,
            ),
        decreases PEELS - k,
    {
        let (a, b) = peel_step(&layer, &rest, rg, ro, eps);
        layer = a;
        rest = b;
        k += 1;
    }
    let rr: usize = if ro / 4 < 2 {
        2
    } else {
        ro / 4
    };
    let fr = open_filter(&Mask { d: rest.r, w, h }, rr);
    let fg = open_filter(&Mask { d: rest.g, w, h }, rr);
    let fb = open_filter(&Mask { d: rest.b, w, h }, rr);
    Planes {
        r: sums_of(&layer.r, &fr.d),
        g: sums_of(&layer.g, &fg.d),
        b: sums_of(&layer.b, &fb.d),
        w,
        h,
    }
}

/// The size at which the smoke in a photo is looked for.
pub open spec fn work(p: crate::raster::Picture, edge: int) -> (int, int) {
    (
        crate::scale::work_side(p.w, p.w, p.h, edge),
        crate::scale::work_side(p.h, p.w, p.h, edge),
    )
}

fn work_of(img: &Raster, edge: u32) -> (r: (usize, usize))
    requires
        crate::subject::is_photo(img@),
        0 < edge <= 0x1000,
    ensures
        (r.0 as int, r.1 as int) == work(img@, edge as int),
        0 < r.0 <= img.w,
        0 < r.1 <= img.h,
{
    let (w, h) = work_size(img.w as u32, img.h as u32, edge);
    (w as usize, h as usize)
}

/// The smoke in front of each pixel of a photo.
pub open spec fn smoke(
    p: crate::raster::Picture,
    tones: Seq<Signed>,
    edge: int,
    detail: int,
    eps: Signed,
) -> Tri {
    let (ww, wh) = work(p, edge);
    let t = layered(blocked(p, tones, ww, wh).low, detail, eps);
    Tri {
        r: crate::field::upscaled(t.channel(0), p.w, p.h).d,
        g: crate::field::upscaled(t.channel(1), p.w, p.h).d,
        b: crate::field::upscaled(t.channel(2), p.w, p.h).d,
        w: p.w,
        h: p.h,
    }
}

/// The smoke in front of each pixel of a photo (see [`smoke`]).
pub fn estimate_smoke(img: &Raster, light: &Light, edge: u32, detail: usize) -> (out: Planes)
    requires
        crate::subject::is_photo(img@),
        light.wf(),
        0 < edge <= 0x1000,
        detail <= 100,
    ensures
        out@ == smoke(
            img@,
            light.tones@,
            edge as int,
            detail as int,
            light.smoothing@[detail as int],
        ),
        out@.wf(),
{
    let (ww, wh) = work_of(img, edge);
    let blocks = downsample(img, light, ww, wh);
    let t = layer_of(blocks.low, detail, light.smoothing[detail]);
    let w: usize = img.w;
    let h: usize = img.h;
    let r = upscale(&Mask { d: t.r, w: ww, h: wh }, w, h);
    let g = upscale(&Mask { d: t.g, w: ww, h: wh }, w, h);
    let b = upscale(&Mask { d: t.b, w: ww, h: wh }, w, h);
    Planes { r: r.d, g: g.d, b: b.d, w, h }
}

/// Blocks of `f` by `f` blocks: which of them each block falls in.
pub open spec fn coarse_places(w: int, h: int, f: int) -> Seq<usize> {
    Seq::new(
        (w * h) as nat,
        |j: int| ((j / w) / f * crate::morph::blocks_along(w, f) + (j % w) / f) as usize,
    )
}

fn coarse_places_of(w: usize, h: usize, f: usize) -> (at: Vec<usize>)
    requires
        0 < w <= crate::spread::longest(),
        0 < h <= crate::spread::longest(),
        w * h <= usize::MAX,
        1 <= f <= crate::spread::longest(),
    ensures
        at@ == coarse_places(w as int, h as int, f as int),
        forall|i: int|
            0 <= i < at@.len() ==> #[trigger] at@[i] < crate::morph::blocks_along(
                w as int,
                f as int,
            ) * crate::morph::blocks_along(h as int, f as int),
        0 < crate::morph::blocks_along(w as int, f as int) * crate::morph::blocks_along(
            h as int,
            f as int,
        ) <= w * h,
{
    let n: usize = w * h;
    let cw: usize = (w + f - 1) / f;
    let ch: usize = (h + f - 1) / f;
    proof {
        crate::field::lemma_blocks(w as int, f as int);
        crate::field::lemma_blocks(h as int, f as int);
        assert(0 < cw * ch <= w * h) by (nonlinear_arith)
            requires
                0 < cw <= w,
                0 < ch <= h,
        ;
    }
    let mut at: Vec<usize> = Vec::new();
    let mut j: usize = 0;
    while j < n
        invariant
            0 < w <= crate::spread::longest(),
            0 < h <= crate::spread::longest(),
            1 <= f <= crate::spread::longest(),
            n == w * h,
            cw == crate::morph::blocks_along(w as int, f as int),
            ch == crate::morph::blocks_along(h as int, f as int),
            cw * ch <= n,
            j <= n,
            at@.len() == j,
            forall|i: int|
                0 <= i < j ==> #[trigger] at@[i] == coarse_places(w as int, h as int, f as int)[i],
            forall|i: int| 0 <= i < j ==> #[trigger] at@[i] < cw * ch,
        decreases n - j,
    {
        proof {
            crate::grid::lemma_cell_split(j as int, w as int, h as int);
            lemma_in_blocks((j % w) as int, w as int, f as int);
            lemma_in_blocks((j / w) as int, h as int, f as int);
        }
        let x: usize = (j % w) / f;
        let y: usize = (j / w) / f;
        proof {
            crate::grid::lemma_cell_bound(x as int, y as int, cw as int, ch as int);
            assert(0 <= y * cw) by (nonlinear_arith);
        }
        at.push(y * cw + x);
        j += 1;
    }
    at
}

/// Every cell falls in a block.
proof fn lemma_in_blocks(x: int, n: int, f: int)
    requires
        0 <= x < n,
        f >= 1,
    ensures
        0 <= x / f < crate::morph::blocks_along(n, f),
{
    crate::field::lemma_blocks(n, f);
    vstd::arithmetic::div_mod::lemma_div_is_ordered(x, n - 1, f);
    vstd::arithmetic::div_mod::lemma_div_pos_is_pos(x, f);
}

/// Blocks of blocks.
pub open spec fn coarse(b: Pool, f: int) -> Pool {
    let r = crate::field::pooled(b.low.channel(0), f, false);
    let g = crate::field::pooled(b.low.channel(1), f, false);
    let l = crate::field::pooled(b.low.channel(2), f, false);
    let max = crate::field::pooled(b.max, f, true);
    let cw = crate::morph::blocks_along(b.low.w, f);
    let ch = crate::morph::blocks_along(b.low.h, f);
    Pool {
        low: Tri { r: r.d, g: g.d, b: l.d, w: cw, h: ch },
        mean: crate::maps::Chart {
            d: pile_means(b.mean.d, coarse_places(b.low.w, b.low.h, f), cw * ch),
            w: cw,
            h: ch,
        },
        max,
    }
}

fn coarsen(b: Blocks, f: usize) -> (out: Blocks)
    requires
        b@.wf(),
        1 <= f <= crate::spread::longest(),
    ensures
        out@ == coarse(b@, f as int),
        out@.wf(),
{
    let w: usize = b.low.w;
    let h: usize = b.low.h;
    let n: usize = b.mean.d.len();
    let at = coarse_places_of(w, h, f);
    let r = pool(&Mask { d: b.low.r, w, h }, f, false);
    let g = pool(&Mask { d: b.low.g, w, h }, f, false);
    let l = pool(&Mask { d: b.low.b, w, h }, f, false);
    let max = pool(&b.max, f, true);
    let cw: usize = max.w;
    let ch: usize = max.h;
    let (mean, tops) = pile_up(&b.mean.d, &at, cw * ch);
    Blocks {
        low: Planes { r: r.d, g: g.d, b: l.d, w: cw, h: ch },
        mean: Mask { d: mean, w: cw, h: ch },
        max,
    }
}

/// How much of a block streaks fill: it must be much brighter than its darkest part, and count by how
/// much of it is bright.
pub open spec fn filled(lo: Signed, mean: Signed, max: Signed) -> Signed {
    let span = crate::held::minus(max, lo);
    let hot = crate::maps::eased(
        Signed::part(1, 2),
        Signed::part(2, 1),
        crate::held::over(span, crate::held::plus(lo, Signed::part(4, 1000))),
    );
    let fill = if Signed::part(1, 1_000_000).lies_below(span) {
        crate::held::over(crate::held::minus(mean, lo), span)
    } else {
        Signed::part(0, 1)
    };
    crate::held::times(hot, fill)
}

fn filled_of(lo: Signed, mean: Signed, max: Signed) -> (r: Signed)
    requires
        crate::held::fits(lo),
        crate::held::fits(mean),
        crate::held::fits(max),
    ensures
        r == filled(lo, mean, max),
        crate::held::fits(r),
{
    let span = take_from(max, lo);
    let hot = ease_between(
        Signed::of(1, 2),
        Signed::of(2, 1),
        divide_by(span, add_to(lo, Signed::of(4, 1000))),
    );
    let fill = if Signed::of(1, 1_000_000).less(span) {
        divide_by(take_from(mean, lo), span)
    } else {
        Signed::zero()
    };
    scale_by(hot, fill)
}

/// How densely streaks fill blocks and their surroundings.
pub open spec fn fills(b: Pool, r: int) -> crate::maps::Chart {
    let lo = b.low.glows().d;
    crate::field::box_means(
        crate::maps::Chart {
            d: Seq::new(lo.len(), |i: int| filled(lo[i], b.mean.d[i], b.max.d[i])),
            w: b.low.w,
            h: b.low.h,
        },
        r,
    )
}

fn fills_of(b: &Blocks, r: usize) -> (out: Mask)
    requires
        b@.wf(),
        r <= crate::spread::longest(),
    ensures
        out@ == fills(b@, r as int),
        out@.wf(),
{
    let lo = b.low.light();
    let n: usize = lo.d.len();
    let mut d: Vec<Signed> = Vec::new();
    let mut i: usize = 0;
    while i < n
        invariant
            i <= n == lo.d@.len() == b.mean.d@.len() == b.max.d@.len(),
            crate::maps::is_map(lo.d@),
            crate::maps::is_map(b.mean.d@),
            crate::maps::is_map(b.max.d@),
            d@.len() == i,
            forall|j: int|
                0 <= j < i ==> #[trigger] d@[j] == filled(lo.d@[j], b.mean.d@[j], b.max.d@[j]),
            crate::maps::is_map(d@),
        decreases n - i,
    {
        d.push(filled_of(lo.d[i], b.mean.d[i], b.max.d[i]));
        i += 1;
    }
    let ghost want = Seq::new(
        lo.d@.len(),
        |j: int| filled(lo.d@[j], b.mean.d@[j], b.max.d@[j]),
    );
    assert(d@ =~= want);
    box_mean(&Mask { d, w: b.low.w, h: b.low.h }, r)
}

/// Doubled, but at most a half.
pub open spec fn gated(v: Seq<Signed>) -> Seq<Signed> {
    Seq::new(v.len(), |i: int| crate::held::times(v[i], Signed::part(2, 1)).smaller(Signed::part(1, 2)))
}

fn gated_of(v: &Vec<Signed>) -> (out: Vec<Signed>)
    requires
        crate::maps::is_map(v@),
    ensures
        out@ == gated(v@),
        crate::maps::is_map(out@),
{
    let n: usize = v.len();
    let mut out: Vec<Signed> = Vec::new();
    let mut i: usize = 0;
    while i < n
        invariant
            i <= n == v@.len(),
            crate::maps::is_map(v@),
            out@.len() == i,
            forall|j: int| 0 <= j < i ==> #[trigger] out@[j] == gated(v@)[j],
            crate::maps::is_map(out@),
        decreases n - i,
    {
        out.push(scale_by(v[i], Signed::of(2, 1)).min(Signed::of(1, 2)));
        i += 1;
    }
    out
}

/// How densely streaks cross a photo, at the size at which smoke is looked for.
pub open spec fn streaks(p: crate::raster::Picture, tones: Seq<Signed>, edge: int) -> crate::maps::Chart {
    let (ww, wh) = work(p, edge);
    let f = crate::scale::at_least((8 * ww + p.w - 1) / p.w, 1);
    let c = coarse(blocked(p, tones, ww, wh), f);
    let r = crate::scale::within(
        crate::scale::portion(crate::scale::longer(c.low.w, c.low.h), 3, 100),
        3,
        32,
    );
    crate::field::upscaled(
        crate::maps::Chart { d: gated(fills(c, r).d), w: c.low.w, h: c.low.h },
        ww,
        wh,
    )
}

/// How densely streaks cross a photo (see [`streaks`]).
pub fn streak_plane(img: &Raster, light: &Light, edge: u32) -> (out: Mask)
    requires
        crate::subject::is_photo(img@),
        light.wf(),
        0 < edge <= 0x1000,
    ensures
        out@ == streaks(img@, light.tones@, edge as int),
        out@.wf(),
{
    let (ww, wh) = work_of(img, edge);
    proof {
        lemma_fits_in(img@.w, img@.h, ww as int, wh as int);
        let fw = img@.w;
        let q = (8 * ww + fw - 1) / fw;
        assert(q <= 9) by (nonlinear_arith)
            requires
                q == (8 * ww + fw - 1) / fw,
                0 < ww <= fw,
        ;
    }
    let n: usize = img.d.len();
    let blocks = downsample(img, light, ww, wh);
    let f: usize = gate_factor(img.w as u32, ww as u32) as usize;
    let c = coarsen(blocks, f);
    let r: usize = streak_radius(c.low.w as u32, c.low.h as u32) as usize;
    let fill = fills_of(&c, r);
    let g = Mask { d: gated_of(&fill.d), w: c.low.w, h: c.low.h };
    upscale(&g, ww, wh)
}

} // verus!
