//! Where a night photo shows sky, how dark and quiet it is, and what glow it has.

use vstd::prelude::*;

use crate::auto::{clear_depths, dim, scarce};
use crate::blocks::block_index;
use crate::field::{
    box_mean, keys_of, max_filter, quantile_of, reach_down, smooth_row, upscale,
};
use crate::haze::{estimate_smoke, linear_of, streak_plane, Light, Planes};
use crate::held::{add_to, divide_by, scale_by, take_from, whole};
use crate::maps::{ease_between, Mask};
use crate::measure::settle;
use crate::raster::Raster;
use crate::resample::shrink;
use crate::scale::{detail_radii, region_radii, window, WORK_LONG_EDGE};
use crate::signed::{Colour, Signed};
use crate::sky::skyline;
use crate::spread::longest_side;
use crate::subject::apart_of;

verus! {

/// Long edge at which the reach of the sky is looked for.
pub const REGION_LONG_EDGE: u32 = 1600;

/// Long edge at which the glow of the sky is looked for.
pub const PROBE_LONG_EDGE: u32 = 768;

/// Shortest side of a copy that is looked at.
pub const PROBE_SHORT: usize = 32;

/// The range with which clear sky is looked for.
pub const CLEAR_RANGE: usize = 20;

/// The detail with which the glow of the sky is looked for.
pub const PROBE_DETAIL: usize = 60;

/// What is left to 1 of how far `v` has come from `lo` to `hi`.
pub open spec fn calm(lo: Signed, hi: Signed, v: Signed) -> Signed {
    crate::held::minus(Signed::part(1, 1), crate::maps::eased(lo, hi, v))
}

fn calm_of(lo: Signed, hi: Signed, v: Signed) -> (r: Signed)
    requires
        crate::held::fits(lo),
        crate::held::fits(hi),
        crate::held::fits(v),
    ensures
        r == calm(lo, hi, v),
        crate::held::fits(r),
{
    take_from(Signed::of(1, 1), ease_between(lo, hi, v))
}

/// How strongly detail stands out from the light that it lies in.
pub open spec fn contrast(d: Signed, y: Signed) -> Signed {
    crate::held::over(d, crate::held::plus(y, Signed::part(2, 100)))
}

/// How strongly detail stands out from the light that it lies in (see [`contrast`]).
pub fn contrast_of(d: Signed, y: Signed) -> (r: Signed)
    requires
        crate::held::fits(d),
        crate::held::fits(y),
    ensures
        r == contrast(d, y),
        crate::held::fits(r),
{
    divide_by(d, add_to(y, Signed::of(2, 100)))
}

/// The limits between which light and contrast count as sky.
pub struct Limits {
    pub dark: (Signed, Signed),
    pub area: (Signed, Signed),
    pub spot: (Signed, Signed),
}

impl Limits {
    /// The numbers lie in the range.
    pub open spec fn wf(&self) -> bool {
        &&& crate::held::fits(self.dark.0) && crate::held::fits(self.dark.1)
        &&& crate::held::fits(self.area.0) && crate::held::fits(self.area.1)
        &&& crate::held::fits(self.spot.0) && crate::held::fits(self.spot.1)
    }
}

/// The limits of a range in percent, whose light is given.
pub open spec fn limits(range: int, share: Signed) -> Limits {
    let rr = crate::held::over(Signed::part(range, 1), Signed::part(100, 1));
    let y1 = crate::held::plus(Signed::part(4, 1000), share);
    let a1 = crate::held::plus(Signed::part(5, 100), crate::held::times(rr, Signed::part(20, 100)));
    let p1 = crate::held::plus(
        Signed::part(10, 100),
        crate::held::times(rr, Signed::part(40, 100)),
    );
    Limits {
        dark: (crate::held::times(y1, Signed::part(30, 100)), y1),
        area: (crate::held::times(a1, Signed::part(25, 100)), a1),
        spot: (crate::held::times(p1, Signed::part(25, 100)), p1),
    }
}

fn limits_of(range: usize, share: Signed) -> (l: Limits)
    requires
        crate::held::fits(share),
    ensures
        l == limits(range as int, share),
        l.wf(),
{
    let rr = divide_by(whole(range as u64), whole(100));
    let quarter = Signed::of(25, 100);
    let y1 = add_to(Signed::of(4, 1000), share);
    let a1 = add_to(Signed::of(5, 100), scale_by(rr, Signed::of(20, 100)));
    let p1 = add_to(Signed::of(10, 100), scale_by(rr, Signed::of(40, 100)));
    Limits {
        dark: (scale_by(y1, Signed::of(30, 100)), y1),
        area: (scale_by(a1, quarter), a1),
        spot: (scale_by(p1, quarter), p1),
    }
}

/// How much of a streak lies over pixel `i` of a `w` by `h` photo.
pub open spec fn burst(s: crate::maps::Chart, i: int, w: int, h: int) -> Signed {
    let x = crate::blocks::block_of(i % w, w, s.w);
    let y = crate::blocks::block_of(i / w, h, s.h);
    crate::held::over(s.d[y * s.w + x], Signed::part(1, 2)).clamped(
        Signed::part(0, 1),
        Signed::part(1, 1),
    )
}

fn burst_of(s: &Mask, i: usize, w: usize, h: usize) -> (r: Signed)
    requires
        s@.wf(),
        0 < w <= crate::spread::longest(),
        0 < h <= crate::spread::longest(),
        i < w * h,
    ensures
        r == burst(s@, i as int, w as int, h as int),
        crate::held::fits(r),
{
    proof {
        crate::grid::lemma_cell_split(i as int, w as int, h as int);
        assert(w * s.w <= 0xFFFF_FFFF * 0xFFFF_FFFF && h * s.h <= 0xFFFF_FFFF * 0xFFFF_FFFF)
            by (nonlinear_arith)
            requires
                w <= 0xFFFF_FFFF,
                h <= 0xFFFF_FFFF,
                s.w <= 0xFFFF_FFFF,
                s.h <= 0xFFFF_FFFF,
        ;
    }
    let x: usize = block_index(i % w, w, s.w);
    let y: usize = block_index(i / w, h, s.h);
    let n: usize = s.d.len();
    proof {
        crate::grid::lemma_cell_bound(x as int, y as int, s.w as int, s.h as int);
        assert(0 <= y * s.w) by (nonlinear_arith);
    }
    divide_by(s.d[y * s.w + x], Signed::of(1, 2)).clamp(Signed::zero(), Signed::of(1, 1))
}

/// What a map says of a cell, nothing where there is none.
pub open spec fn said(m: Option<crate::maps::Chart>, i: int) -> Signed {
    match m {
        Some(c) => c.d[i],
        None => Signed::part(0, 1),
    }
}

/// Light, detail and their means, as sky is told by them.
pub struct Looks {
    pub near: crate::maps::Chart,
    pub wide: crate::maps::Chart,
    pub near_detail: crate::maps::Chart,
    pub wide_detail: crate::maps::Chart,
}

/// The looks of a map of light, for a small and a large radius.
pub open spec fn looks(y: crate::maps::Chart, small: int, large: int) -> Looks {
    let near = crate::field::box_means(y, small);
    let detail = crate::maps::Chart { d: crate::subject::apart(y.d, near.d), w: y.w, h: y.h };
    Looks {
        near,
        wide: crate::field::box_means(y, large),
        near_detail: crate::field::box_means(detail, small),
        wide_detail: crate::field::box_means(detail, large),
    }
}

/// The radii for fine detail and for a neighbourhood.
pub open spec fn radii(w: int, h: int) -> (int, int) {
    let long = crate::signed::max_of(w, h);
    (
        crate::scale::within(crate::scale::portion(long, 15, 10000), 1, 6),
        crate::scale::within(crate::scale::portion(long, 1, 100), 4, 40),
    )
}

/// How much the neighbourhood of cell `i` is dark, flat and quiet, or cloud.
pub open spec fn wide_sky(
    k: Looks,
    l: Limits,
    cloud: Option<crate::maps::Chart>,
    streaks: Option<crate::maps::Chart>,
    i: int,
) -> Signed {
    let dark = calm(l.dark.0, l.dark.1, k.wide.d[i]);
    let flat = calm(l.area.0, l.area.1, contrast(k.wide_detail.d[i], k.wide.d[i]));
    let b = match streaks {
        Some(s) => burst(s, i, k.wide.w, k.wide.h),
        None => Signed::part(0, 1),
    };
    let quiet = calm(Signed::part(15, 100), Signed::part(60, 100), b);
    crate::held::times(crate::held::times(dark, flat), quiet).larger(said(cloud, i))
}

/// How much cell `i` itself is dark and flat, or cloud.
pub open spec fn near_sky(
    k: Looks,
    l: Limits,
    cloud: Option<crate::maps::Chart>,
    i: int,
) -> Signed {
    let dark = calm(l.dark.0, l.dark.1, k.near.d[i]);
    let flat = calm(l.spot.0, l.spot.1, contrast(k.near_detail.d[i], k.near.d[i]));
    crate::held::times(dark, flat).larger(said(cloud, i))
}

/// The means of a map, if there is one.
pub open spec fn soft(m: Option<crate::maps::Chart>, r: int) -> Option<crate::maps::Chart> {
    match m {
        Some(c) => Some(crate::field::box_means(c, r)),
        None => None,
    }
}

/// How much each pixel is sky: what hangs together with the top edge as dark, flat and quiet.
pub open spec fn sky(
    y: crate::maps::Chart,
    range: int,
    share: Signed,
    cloud: Option<crate::maps::Chart>,
    streaks: Option<crate::maps::Chart>,
) -> crate::maps::Chart {
    let (small, large) = radii(y.w, y.h);
    let k = looks(y, small, large);
    let l = limits(range, share);
    let wide = crate::maps::Chart {
        d: Seq::new(y.d.len(), |i: int| wide_sky(k, l, soft(cloud, large), streaks, i)),
        w: y.w,
        h: y.h,
    };
    let area = crate::field::box_means(
        crate::field::extremes(crate::field::reached(wide, 1), large, true),
        large,
    );
    crate::field::box_means(
        crate::maps::Chart {
            d: Seq::new(
                y.d.len(),
                |i: int| crate::held::times(area.d[i], near_sky(k, l, soft(cloud, small), i)),
            ),
            w: y.w,
            h: y.h,
        },
        small * 2,
    )
}

/// A map, or none.
pub open spec fn chart(m: Option<&Mask>) -> Option<crate::maps::Chart> {
    match m {
        Some(v) => Some(v@),
        None => None,
    }
}

/// A map fits another: it is there for every cell.
pub open spec fn is_cover(m: Option<crate::maps::Chart>, w: int, h: int) -> bool {
    m matches Some(c) ==> c.wf() && c.w == w && c.h == h
}

fn said_of(m: &Option<Mask>, i: usize) -> (v: Signed)
    requires
        m matches Some(c) ==> i < c@.d.len() && crate::maps::is_map(c@.d),
    ensures
        v == said(owned(*m), i as int),
        crate::held::fits(v),
{
    match m {
        Some(c) => c.d[i],
        None => Signed::zero(),
    }
}

/// A map, or none.
pub open spec fn owned(m: Option<Mask>) -> Option<crate::maps::Chart> {
    match m {
        Some(v) => Some(v@),
        None => None,
    }
}

fn soft_of(m: Option<&Mask>, r: usize) -> (out: Option<Mask>)
    requires
        chart(m) matches Some(c) ==> c.wf(),
        r <= crate::spread::longest(),
    ensures
        owned(out) == soft(chart(m), r as int),
        out matches Some(c) ==> c@.wf() && chart(m) is Some && c@.w == chart(m)->0.w && c@.h
            == chart(m)->0.h,
{
    match m {
        Some(c) => Some(box_mean(c, r)),
        None => None,
    }
}

struct Views {
    near: Mask,
    wide: Mask,
    near_detail: Mask,
    wide_detail: Mask,
}

impl Views {
    spec fn model(&self) -> Looks {
        Looks {
            near: self.near@,
            wide: self.wide@,
            near_detail: self.near_detail@,
            wide_detail: self.wide_detail@,
        }
    }

    spec fn wf(&self, w: int, h: int) -> bool {
        &&& self.near@.wf() && self.near@.w == w && self.near@.h == h
        &&& self.wide@.wf() && self.wide@.w == w && self.wide@.h == h
        &&& self.near_detail@.wf() && self.near_detail@.w == w && self.near_detail@.h == h
        &&& self.wide_detail@.wf() && self.wide_detail@.w == w && self.wide_detail@.h == h
    }
}

fn views_of(y: &Mask, small: usize, large: usize) -> (v: Views)
    requires
        y@.wf(),
        small <= crate::spread::longest(),
        large <= crate::spread::longest(),
    ensures
        v.model() == looks(y@, small as int, large as int),
        v.wf(y@.w, y@.h),
{
    let near = box_mean(y, small);
    let detail = Mask { d: apart_of(&y.d, &near.d), w: y.w, h: y.h };
    let wide = box_mean(y, large);
    let near_detail = box_mean(&detail, small);
    let wide_detail = box_mean(&detail, large);
    Views { near, wide, near_detail, wide_detail }
}

fn wide_sky_of(
    v: &Views,
    l: &Limits,
    cloud: &Option<Mask>,
    streaks: Option<&Mask>,
    i: usize,
    w: usize,
    h: usize,
) -> (r: Signed)
    requires
        0 < w <= crate::spread::longest(),
        0 < h <= crate::spread::longest(),
        v.wf(w as int, h as int),
        l.wf(),
        is_cover(owned(*cloud), w as int, h as int),
        chart(streaks) matches Some(c) ==> c.wf(),
        i < w * h,
    ensures
        r == wide_sky(v.model(), *l, owned(*cloud), chart(streaks), i as int),
        crate::held::fits(r),
{
    let y = v.wide.d[i];
    let dark = calm_of(l.dark.0, l.dark.1, y);
    let flat = calm_of(l.area.0, l.area.1, contrast_of(v.wide_detail.d[i], y));
    let b = match streaks {
        Some(s) => burst_of(s, i, w, h),
        None => Signed::zero(),
    };
    let quiet = calm_of(Signed::of(15, 100), Signed::of(60, 100), b);
    scale_by(scale_by(dark, flat), quiet).max(said_of(cloud, i))
}

fn near_sky_of(v: &Views, l: &Limits, cloud: &Option<Mask>, i: usize) -> (r: Signed)
    requires
        v.wf(v.near@.w, v.near@.h),
        l.wf(),
        is_cover(owned(*cloud), v.near@.w, v.near@.h),
        i < v.near@.w * v.near@.h,
    ensures
        r == near_sky(v.model(), *l, owned(*cloud), i as int),
        crate::held::fits(r),
{
    let y = v.near.d[i];
    let dark = calm_of(l.dark.0, l.dark.1, y);
    let flat = calm_of(l.spot.0, l.spot.1, contrast_of(v.near_detail.d[i], y));
    scale_by(dark, flat).max(said_of(cloud, i))
}

fn wide_map(
    v: &Views,
    l: &Limits,
    cloud: &Option<Mask>,
    streaks: Option<&Mask>,
    w: usize,
    h: usize,
) -> (out: Mask)
    requires
        0 < w <= crate::spread::longest(),
        0 < h <= crate::spread::longest(),
        v.wf(w as int, h as int),
        l.wf(),
        is_cover(owned(*cloud), w as int, h as int),
        chart(streaks) matches Some(c) ==> c.wf(),
    ensures
        out@.wf(),
        out@ == (crate::maps::Chart {
            d: Seq::new(
                (w * h) as nat,
                |i: int| wide_sky(v.model(), *l, owned(*cloud), chart(streaks), i),
            ),
            w: w as int,
            h: h as int,
        }),
{
    let n: usize = v.wide.d.len();
    let ghost want = Seq::new(
        (w * h) as nat,
        |i: int| wide_sky(v.model(), *l, owned(*cloud), chart(streaks), i),
    );
    let mut d: Vec<Signed> = Vec::new();
    let mut i: usize = 0;
    while i < n
        invariant
            0 < w <= crate::spread::longest(),
            0 < h <= crate::spread::longest(),
            v.wf(w as int, h as int),
            l.wf(),
            is_cover(owned(*cloud), w as int, h as int),
            chart(streaks) matches Some(c) ==> c.wf(),
            i <= n == w * h == want.len(),
            forall|j: int|
                0 <= j < n ==> #[trigger] want[j] == wide_sky(
                    v.model(),
                    *l,
                    owned(*cloud),
                    chart(streaks),
                    j,
                ),
            d@.len() == i,
            forall|j: int| 0 <= j < i ==> #[trigger] d@[j] == want[j],
            crate::maps::is_map(d@),
        decreases n - i,
    {
        d.push(wide_sky_of(v, l, cloud, streaks, i, w, h));
        i += 1;
    }
    assert(d@ =~= want);
    Mask { d, w, h }
}

fn near_map(v: &Views, l: &Limits, cloud: &Option<Mask>, area: &Mask) -> (out: Mask)
    requires
        area@.wf(),
        v.wf(area@.w, area@.h),
        l.wf(),
        is_cover(owned(*cloud), area@.w, area@.h),
    ensures
        out@.wf(),
        out@ == (crate::maps::Chart {
            d: Seq::new(
                area@.d.len(),
                |i: int|
                    crate::held::times(area@.d[i], near_sky(v.model(), *l, owned(*cloud), i)),
            ),
            w: area@.w,
            h: area@.h,
        }),
{
    let n: usize = area.d.len();
    let ghost want = Seq::new(
        area@.d.len(),
        |i: int| crate::held::times(area@.d[i], near_sky(v.model(), *l, owned(*cloud), i)),
    );
    let mut d: Vec<Signed> = Vec::new();
    let mut i: usize = 0;
    while i < n
        invariant
            area@.wf(),
            v.wf(area@.w, area@.h),
            l.wf(),
            is_cover(owned(*cloud), area@.w, area@.h),
            i <= n == area@.d.len() == want.len(),
            forall|j: int|
                0 <= j < n ==> #[trigger] want[j] == crate::held::times(
                    area@.d[j],
                    near_sky(v.model(), *l, owned(*cloud), j),
                ),
            d@.len() == i,
            forall|j: int| 0 <= j < i ==> #[trigger] d@[j] == want[j],
            crate::maps::is_map(d@),
        decreases n - i,
    {
        d.push(scale_by(area.d[i], near_sky_of(v, l, cloud, i)));
        i += 1;
    }
    assert(d@ =~= want);
    Mask { d, w: area.w, h: area.h }
}

/// How much each pixel is sky (see [`sky`]).
pub fn sky_mask(
    y: &Mask,
    range: usize,
    light: &Light,
    cloud: Option<&Mask>,
    streaks: Option<&Mask>,
) -> (out: Mask)
    requires
        y@.wf(),
        range <= 100,
        light.wf(),
        is_cover(chart(cloud), y@.w, y@.h),
        chart(streaks) matches Some(c) ==> c.wf(),
    ensures
        out@ == sky(y@, range as int, light.shares@[range as int], chart(cloud), chart(streaks)),
        out@.wf(),
{
    let w: usize = y.w;
    let h: usize = y.h;
    let long: usize = if w < h {
        h
    } else {
        w
    };
    let (rh, ra) = detail_radii(long as u32);
    let (small, large): (usize, usize) = (rh as usize, ra as usize);
    let v = views_of(y, small, large);
    let l = limits_of(range, light.shares[range]);
    let cloud_wide = soft_of(cloud, large);
    let cloud_near = soft_of(cloud, small);
    let wide = wide_map(&v, &l, &cloud_wide, streaks, w, h);
    let hung = reach_down(&wide, 1);
    let area = box_mean(&max_filter(&hung, large), large);
    let m = near_map(&v, &l, &cloud_near, &area);
    box_mean(&m, small * 2)
}

/// A radius that no map passes.
pub open spec fn capped(r: int) -> int {
    crate::signed::min_of(r, crate::spread::longest())
}

/// A radius that no map passes (see [`capped`]).
pub fn cap(r: u64) -> (n: usize)
    ensures
        n == capped(r as int),
        n <= crate::spread::longest(),
{
    if r < longest_side() as u64 {
        r as usize
    } else {
        longest_side()
    }
}

/// The radii for fine detail and for a neighbourhood on a copy of a photo with long edge `source`.
pub open spec fn copy_radii(w: int, h: int, source: int) -> (int, int) {
    let long = crate::signed::max_of(w, h);
    (
        capped(
            crate::scale::at_least(crate::scale::copied_radius(long, source, 15, 10000, 1, 6), 1),
        ),
        capped(
            crate::scale::at_least(crate::scale::copied_radius(long, source, 1, 100, 4, 40), 2),
        ),
    )
}

fn copy_radii_of(w: usize, h: usize, source: u32) -> (r: (usize, usize))
    requires
        w <= crate::spread::longest(),
        h <= crate::spread::longest(),
    ensures
        (r.0 as int, r.1 as int) == copy_radii(w as int, h as int, source as int),
        r.0 <= crate::spread::longest(),
        r.1 <= crate::spread::longest(),
{
    let long: usize = if w < h {
        h
    } else {
        w
    };
    let (a, b) = region_radii(long as u32, source);
    (cap(a), cap(b))
}

/// The contrast from which a neighbourhood is no longer flat.
pub open spec fn flat_limit() -> Signed {
    crate::held::plus(
        Signed::part(5, 100),
        crate::held::times(Signed::part(40, 100), Signed::part(20, 100)),
    )
}

/// How flat the neighbourhood of each place is.
pub open spec fn flatness(y: crate::maps::Chart, small: int, large: int) -> crate::maps::Chart {
    let k = looks(y, small, large);
    let hi = flat_limit();
    crate::maps::Chart {
        d: Seq::new(
            y.d.len(),
            |i: int|
                calm(
                    crate::held::times(hi, Signed::part(25, 100)),
                    hi,
                    contrast(k.wide_detail.d[i], k.wide.d[i]),
                ),
        ),
        w: y.w,
        h: y.h,
    }
}

/// How flat the neighbourhood of each place is (see [`flatness`]).
pub fn region_seed(y: &Mask, source: u32) -> (out: Mask)
    requires
        y@.wf(),
    ensures
        out@ == flatness(
            y@,
            copy_radii(y@.w, y@.h, source as int).0,
            copy_radii(y@.w, y@.h, source as int).1,
        ),
        out@.wf(),
{
    let (small, large) = copy_radii_of(y.w, y.h, source);
    let v = views_of(y, small, large);
    let hi = add_to(Signed::of(5, 100), scale_by(Signed::of(40, 100), Signed::of(20, 100)));
    let lo = scale_by(hi, Signed::of(25, 100));
    let n: usize = y.d.len();
    let ghost want = flatness(y@, small as int, large as int).d;
    let mut d: Vec<Signed> = Vec::new();
    let mut i: usize = 0;
    while i < n
        invariant
            v.wf(y@.w, y@.h),
            i <= n == y@.w * y@.h == want.len(),
            crate::held::fits(lo),
            crate::held::fits(hi),
            forall|j: int|
                0 <= j < n ==> #[trigger] want[j] == calm(
                    lo,
                    hi,
                    contrast(v.wide_detail@.d[j], v.wide@.d[j]),
                ),
            d@.len() == i,
            forall|j: int| 0 <= j < i ==> #[trigger] d@[j] == want[j],
            crate::maps::is_map(d@),
        decreases n - i,
    {
        d.push(calm_of(lo, hi, contrast_of(v.wide_detail.d[i], v.wide.d[i])));
        i += 1;
    }
    assert(d@ =~= want);
    Mask { d, w: y.w, h: y.h }
}

/// `n` rows of a column hang together with the top edge.
pub open spec fn is_depth(c: crate::maps::Chart, x: int, n: int) -> bool {
    crate::sky::is_skyline(
        crate::field::keys(c.d, c.w, c.h),
        crate::field::key(Signed::part(35, 100)) as i64,
        x,
        n,
    )
}

/// How many rows of a column hang together with the top edge.
pub open spec fn depth(c: crate::maps::Chart, x: int) -> int {
    choose|n: int| is_depth(c, x, n)
}

/// There is but one such number of rows.
proof fn lemma_depth(c: crate::maps::Chart, x: int, n: int)
    requires
        is_depth(c, x, n),
    ensures
        n == depth(c, x),
{
    let p = crate::field::keys(c.d, c.w, c.h);
    let floor = crate::field::key(Signed::part(35, 100)) as i64;
    let m = depth(c, x);
    assert(is_depth(c, x, m));
    if m < n {
        assert(p.at(x, n - 1) <= floor);
    } else if n < m {
        assert(p.at(x, m - 1) <= floor);
    }
}

/// The lowest row of the sky in each column, no lower than the sea.
pub open spec fn low_rows(c: crate::maps::Chart, sea: Signed) -> Seq<Signed> {
    Seq::new(c.w as nat, |x: int| Signed::part(depth(c, x), 1).smaller(sea))
}

fn low_rows_of(m: &Mask, sea: Signed) -> (out: Vec<Signed>)
    requires
        m@.wf(),
        crate::held::fits(sea),
    ensures
        out@ == low_rows(m@, sea),
        crate::maps::is_map(out@),
{
    let p = keys_of(m);
    let edge = Signed::of(35, 100);
    let one = Mask { d: vec![edge], w: 1, h: 1 };
    assert(one@.wf());
    let k = keys_of(&one);
    assert(k@.d[0] == crate::field::key(edge) as i64);
    let rows = skyline(&p, k.d[0]);
    let w: usize = m.w;
    let mut out: Vec<Signed> = Vec::new();
    let mut x: usize = 0;
    while x < w
        invariant
            x <= w == m.w == rows@.len(),
            crate::held::fits(sea),
            forall|j: int| 0 <= j < w ==> is_depth(m@, j, #[trigger] rows@[j] as int),
            out@.len() == x,
            forall|j: int| 0 <= j < x ==> #[trigger] out@[j] == low_rows(m@, sea)[j],
            crate::maps::is_map(out@),
        decreases w - x,
    {
        let n: usize = rows[x];
        proof {
            lemma_depth(m@, x as int, n as int);
        }
        out.push(whole(n as u64).min(sea));
        x += 1;
    }
    out
}

/// The lowest row of the sky, from the side: bridged over gaps and smoothed.
pub open spec fn skyline_of(
    area: crate::maps::Chart,
    sea: Signed,
) -> Seq<Signed> {
    let gap = crate::scale::within(crate::scale::portion(area.w, 8, 100), 1, crate::spread::longest());
    let level = crate::held::times(
        crate::held::plus(
            sea.clamped(Signed::part(0, 1), Signed::part(1, 1)),
            Signed::part(3, 100),
        ),
        Signed::part(area.h, 1),
    );
    let rows = low_rows(crate::field::reached(area, gap), level);
    let bridged = crate::field::extremes(
        crate::maps::Chart { d: rows, w: area.w, h: 1 },
        gap,
        true,
    );
    crate::field::smoothed(
        bridged.d,
        crate::scale::within(crate::scale::portion(area.w, 2, 100), 1, crate::spread::longest()),
    )
}

fn find_skyline(area: &Mask, sea: Signed) -> (out: Vec<Signed>)
    requires
        area@.wf(),
        crate::held::fits(sea),
    ensures
        out@ == skyline_of(area@, sea),
        out@.len() == area@.w,
        crate::maps::is_map(out@),
{
    let w: usize = area.w;
    let gap: usize = window(w as u32, 8, 100, 1, longest_side() as u64) as usize;
    let level = scale_by(
        add_to(sea.clamp(Signed::zero(), Signed::of(1, 1)), Signed::of(3, 100)),
        whole(area.h as u64),
    );
    let hung = reach_down(area, gap);
    let rows = low_rows_of(&hung, level);
    assert(w * 1 == w);
    let bridged = max_filter(&Mask { d: rows, w, h: 1 }, gap);
    let r: usize = window(w as u32, 2, 100, 1, longest_side() as u64) as usize;
    smooth_row(&bridged.d, r)
}

/// How much a row lies above the skyline of its column.
pub open spec fn above(low: Signed, y: int, h: int) -> Signed {
    let edge = crate::held::times(Signed::part(h, 1), Signed::part(1, 100)).larger(
        Signed::part(2, 1),
    );
    let at = low.smaller(Signed::part(h, 1));
    calm(crate::held::minus(at, edge), crate::held::plus(at, edge), Signed::part(y, 1))
}

fn above_of(low: Signed, y: usize, h: usize) -> (r: Signed)
    requires
        crate::held::fits(low),
    ensures
        r == above(low, y as int, h as int),
        crate::held::fits(r),
{
    let edge = scale_by(whole(h as u64), Signed::of(1, 100)).max(Signed::of(2, 1));
    let at = low.min(whole(h as u64));
    calm_of(take_from(at, edge), add_to(at, edge), whole(y as u64))
}

/// The part of a map of light that is sky: all above a smoothed skyline. `sea` is how far down the sky
/// reaches at most.
pub open spec fn region(y: crate::maps::Chart, source: int, sea: Signed) -> crate::maps::Chart {
    let (small, large) = copy_radii(y.w, y.h, source);
    let low = skyline_of(flatness(y, small, large), sea);
    crate::field::box_means(
        crate::maps::Chart {
            d: Seq::new((y.w * y.h) as nat, |i: int| above(low[i % y.w], i / y.w, y.h)),
            w: y.w,
            h: y.h,
        },
        large,
    )
}

/// The part of a map of light that is sky (see [`region`]).
pub fn sky_region(y: &Mask, source: u32, sea: Signed) -> (out: Mask)
    requires
        y@.wf(),
        crate::held::fits(sea),
    ensures
        out@ == region(y@, source as int, sea),
        out@.wf(),
{
    let w: usize = y.w;
    let h: usize = y.h;
    let n: usize = y.d.len();
    let seed = region_seed(y, source);
    let low = find_skyline(&seed, sea);
    let (small, large) = copy_radii_of(w, h, source);
    let ghost want = Seq::new(
        (y@.w * y@.h) as nat,
        |i: int| above(low@[i % y@.w], i / y@.w, y@.h),
    );
    let mut d: Vec<Signed> = Vec::new();
    let mut i: usize = 0;
    while i < n
        invariant
            0 < w == y@.w,
            0 < h == y@.h,
            i <= n == w * h == want.len(),
            low@.len() == w,
            crate::maps::is_map(low@),
            forall|j: int|
                0 <= j < n ==> #[trigger] want[j] == above(
                    low@[j % w as int],
                    j / w as int,
                    h as int,
                ),
            d@.len() == i,
            forall|j: int| 0 <= j < i ==> #[trigger] d@[j] == want[j],
            crate::maps::is_map(d@),
        decreases n - i,
    {
        proof {
            crate::grid::lemma_cell_split(i as int, w as int, h as int);
        }
        d.push(above_of(low[i % w], i / w, h));
        i += 1;
    }
    assert(d@ =~= want);
    box_mean(&Mask { d, w, h }, large)
}

/// The part of a photo that is sky, looked for on a copy; none where it cannot be resampled.
pub open spec fn photo_region(
    p: crate::raster::Picture,
    tones: Seq<Signed>,
    source: int,
    sea: Signed,
) -> Option<crate::maps::Chart> {
    match crate::resample::shrunk(p, REGION_LONG_EDGE as int) {
        Some(s) => Some(
            crate::field::upscaled(
                region(crate::haze::linear(s, tones).glows(), source, sea),
                p.w,
                p.h,
            ),
        ),
        None => None,
    }
}

/// A copy of a photo with so long a long edge; none where it cannot be resampled.
pub fn copy_photo(img: &Raster, long: u32) -> (r: Option<Raster>)
    requires
        crate::subject::is_photo(img@),
        long > 0,
    ensures
        r is Some <==> crate::resample::shrunk(img@, long as int) is Some,
        r matches Some(s) ==> s@ == crate::resample::shrunk(img@, long as int)->0
            && crate::subject::is_photo(s@),
        r matches Some(s) ==> long <= 1024 ==> crate::subject::is_copy(s@),
        r matches Some(s) ==> long <= 0x1000 ==> s.w <= 0x2_0000 && s.h <= 0x2_0000,
        long <= 0x1000 ==> (r is Some <==> crate::resample::can_hold(img@, long as int)),
{
    match shrink(img, long) {
        Some(s) => {
            if long <= 1024 {
                assert(s.w * s.h <= 0x8000 * 0x8000) by (nonlinear_arith)
                    requires
                        s.w <= 0x8000,
                        s.h <= 0x8000,
                ;
            }
            Some(s)
        },
        None => None,
    }
}

/// The part of a photo that is sky (see [`photo_region`]).
pub fn sky_region_of(img: &Raster, light: &Light, source: u32, sea: Signed) -> (out: Option<Mask>)
    requires
        crate::subject::is_photo(img@),
        light.wf(),
        crate::held::fits(sea),
    ensures
        owned(out) == photo_region(img@, light.tones@, source as int, sea),
        out matches Some(m) ==> m@.wf() && m@.w == img@.w && m@.h == img@.h,
{
    match copy_photo(img, REGION_LONG_EDGE) {
        Some(s) => {
            let y = linear_of(&s, light).light();
            let r = sky_region(&y, source, sea);
            let len: usize = img.d.len();
            Some(upscale(&r, img.w, img.h))
        },
        None => None,
    }
}

/// How much of each place of a copy is sky, and the copy's sides; none where the photo cannot be
/// resampled.
pub open spec fn guarded(
    p: crate::raster::Picture,
    tones: Seq<Signed>,
    long: int,
) -> Option<crate::maps::Chart> {
    match crate::resample::shrunk(p, long) {
        Some(s) => Some(
            region(
                crate::haze::linear(s, tones).glows(),
                crate::signed::max_of(s.w, s.h),
                Signed::part(1, 1),
            ),
        ),
        None => None,
    }
}

/// How much of each place of a copy is sky (see [`guarded`]).
pub fn sky_weights(img: &Raster, light: &Light, long: u32) -> (out: Option<Mask>)
    requires
        crate::subject::is_photo(img@),
        light.wf(),
        long > 0,
    ensures
        owned(out) == guarded(img@, light.tones@, long as int),
        out matches Some(m) ==> m@.wf(),
{
    match copy_photo(img, long) {
        Some(s) => {
            let y = linear_of(&s, light).light();
            let source: usize = if s.w < s.h {
                s.h
            } else {
                s.w
            };
            Some(sky_region(&y, source as u32, Signed::of(1, 1)))
        },
        None => None,
    }
}

/// The numbers of the first `n` cells that are more than half clear.
pub open spec fn clear_upto(v: Seq<Signed>, clear: Seq<Signed>, n: int) -> Seq<Signed>
    decreases n,
{
    if n <= 0 {
        Seq::empty()
    } else if Signed::part(1, 2).lies_below(clear[n - 1]) {
        clear_upto(v, clear, n - 1).push(v[n - 1])
    } else {
        clear_upto(v, clear, n - 1)
    }
}

/// The numbers of the cells that are more than half clear (see [`clear_upto`]).
pub fn clear_cells(v: &Vec<Signed>, clear: &Vec<Signed>) -> (out: Vec<Signed>)
    requires
        v@.len() == clear@.len(),
        crate::maps::is_map(v@),
        crate::maps::is_map(clear@),
    ensures
        out@ == clear_upto(v@, clear@, v@.len() as int),
        out@.len() <= v@.len(),
        crate::maps::is_map(out@),
{
    let n: usize = v.len();
    let half = Signed::of(1, 2);
    let mut out: Vec<Signed> = Vec::new();
    let mut i: usize = 0;
    while i < n
        invariant
            i <= n == v@.len() == clear@.len(),
            crate::maps::is_map(v@),
            crate::maps::is_map(clear@),
            half == Signed::part(1, 2),
            crate::held::fits(half),
            out@ == clear_upto(v@, clear@, i as int),
            out@.len() <= i,
            crate::maps::is_map(out@),
        decreases n - i,
    {
        if half.less(clear[i]) {
            out.push(v[i]);
        }
        i += 1;
    }
    out
}

/// The glow that a clear night sky has: none where hardly any sky is clear.
pub open spec fn floor(smoke: crate::haze::Tri, clear: Seq<Signed>) -> Colour {
    let n = clear.len() as int;
    let r = clear_upto(smoke.r, clear, n);
    let g = clear_upto(smoke.g, clear, n);
    let b = clear_upto(smoke.b, clear, n);
    if crate::auto::is_scarce(r.len() as u32, n as u32) {
        (Signed::part(0, 1), Signed::part(0, 1), Signed::part(0, 1))
    } else {
        lowered(
            crate::auto::dimmed(
                (
                    crate::measure::settled(crate::field::quantile(r, 15, 100, Signed::part(0, 1))),
                    crate::measure::settled(crate::field::quantile(g, 15, 100, Signed::part(0, 1))),
                    crate::measure::settled(crate::field::quantile(b, 15, 100, Signed::part(0, 1))),
                ),
            ),
        )
    }
}

/// A colour in the range of single precision.
pub open spec fn lowered(c: Colour) -> Colour {
    (
        crate::measure::settled(crate::held::held(c.0)),
        crate::measure::settled(crate::held::held(c.1)),
        crate::measure::settled(crate::held::held(c.2)),
    )
}

/// The glow that a clear night sky has (see [`floor`]).
pub fn floor_from(smoke: &Planes, clear: &Vec<Signed>) -> (c: Colour)
    requires
        smoke@.wf(),
        clear@.len() == smoke@.w * smoke@.h,
        clear@.len() <= u32::MAX,
        crate::maps::is_map(clear@),
    ensures
        c == floor(smoke@, clear@),
        c.0.wf(),
        c.1.wf(),
        c.2.wf(),
{
    let n: usize = clear.len();
    let zero = Signed::zero();
    let r = clear_cells(&smoke.r, clear);
    let g = clear_cells(&smoke.g, clear);
    let b = clear_cells(&smoke.b, clear);
    if scarce(r.len() as u32, n as u32) {
        return (zero, zero, zero);
    }
    let f = (
        settle(quantile_of(&r, 15, 100, zero)),
        settle(quantile_of(&g, 15, 100, zero)),
        settle(quantile_of(&b, 15, 100, zero)),
    );
    let d = dim(f);
    (
        settle(crate::held::hold(d.0)),
        settle(crate::held::hold(d.1)),
        settle(crate::held::hold(d.2)),
    )
}

/// Where a map is more than half on.
pub open spec fn more_than_half(v: Seq<Signed>) -> Seq<bool> {
    Seq::new(v.len(), |i: int| Signed::part(1, 2).lies_below(v[i]))
}

/// Where a map is more than half on (see [`more_than_half`]).
pub fn more_than_half_of(v: &Vec<Signed>) -> (out: Vec<bool>)
    requires
        crate::maps::is_map(v@),
    ensures
        out@ == more_than_half(v@),
{
    let n: usize = v.len();
    let half = Signed::of(1, 2);
    let mut out: Vec<bool> = Vec::new();
    let mut i: usize = 0;
    while i < n
        invariant
            i <= n == v@.len(),
            crate::maps::is_map(v@),
            half == Signed::part(1, 2),
            crate::held::fits(half),
            out@.len() == i,
            forall|j: int| 0 <= j < i ==> #[trigger] out@[j] == more_than_half(v@)[j],
        decreases n - i,
    {
        out.push(half.less(v[i]));
        i += 1;
    }
    out
}

/// How far down each column is clear, as a part of the height.
pub open spec fn depths(open: Seq<bool>, w: int, h: int) -> Seq<Signed> {
    Seq::new(
        w as nat,
        |x: int|
            crate::held::over(
                Signed::part(crate::auto::clear_depth(open, w, h, x) as int, 1),
                Signed::part(h, 1),
            ),
    )
}

fn depths_of(open: &Vec<bool>, w: usize, h: usize) -> (out: Vec<Signed>)
    requires
        open@.len() == w * h,
    ensures
        out@ == depths(open@, w as int, h as int),
        crate::maps::is_map(out@),
{
    let rows = clear_depths(open, w, h);
    let mut out: Vec<Signed> = Vec::new();
    let mut x: usize = 0;
    while x < w
        invariant
            x <= w == rows@.len(),
            forall|j: int|
                0 <= j < w ==> #[trigger] rows@[j] == crate::auto::clear_depth(
                    open@,
                    w as int,
                    h as int,
                    j,
                ),
            out@.len() == x,
            forall|j: int| 0 <= j < x ==> #[trigger] out@[j] == depths(open@, w as int, h as int)[j],
            crate::maps::is_map(out@),
        decreases w - x,
    {
        out.push(divide_by(whole(rows[x] as u64), whole(h as u64)));
        x += 1;
    }
    out
}

/// The glow of the sky, and how far down it reaches as a part of the height.
pub struct SkyProbe {
    pub floor: Colour,
    pub sea: Signed,
}

/// No glow, and the sky may reach all the way down.
pub open spec fn unknown() -> SkyProbe {
    SkyProbe { floor: (Signed::part(0, 1), Signed::part(0, 1), Signed::part(0, 1)), sea: Signed::part(1, 1) }
}

/// What a copy of a photo tells of its sky.
pub open spec fn probed(
    s: crate::raster::Picture,
    tones: Seq<Signed>,
    share: Signed,
    eps: Signed,
) -> SkyProbe {
    let y = crate::haze::linear(s, tones).glows();
    let streaks = crate::haze::streaks(s, tones, WORK_LONG_EDGE as int);
    let clear = sky(y, CLEAR_RANGE as int, share, None, Some(streaks)).d;
    let n = s.w * s.h;
    if crate::auto::is_scarce(clear_upto(clear, clear, n).len() as u32, n as u32) {
        unknown()
    } else {
        let smoke = crate::haze::smoke(
            s,
            tones,
            WORK_LONG_EDGE as int,
            PROBE_DETAIL as int,
            eps,
        );
        SkyProbe {
            floor: floor(smoke, clear),
            sea: crate::field::quantile(
                depths(more_than_half(clear), s.w, s.h),
                90,
                100,
                Signed::part(1, 1),
            ),
        }
    }
}

/// What a photo tells of its sky; none where it cannot be resampled.
pub open spec fn probe(
    p: crate::raster::Picture,
    tones: Seq<Signed>,
    share: Signed,
    eps: Signed,
) -> Option<SkyProbe> {
    match crate::resample::shrunk(p, PROBE_LONG_EDGE as int) {
        Some(s) => Some(
            if s.w < PROBE_SHORT || s.h < PROBE_SHORT {
                unknown()
            } else {
                probed(s, tones, share, eps)
            },
        ),
        None => None,
    }
}

fn unknown_of() -> (r: SkyProbe)
    ensures
        r == unknown(),
        r.floor.0.wf(),
        r.floor.1.wf(),
        r.floor.2.wf(),
        crate::held::fits(r.sea),
{
    let zero = Signed::zero();
    SkyProbe { floor: (zero, zero, zero), sea: Signed::of(1, 1) }
}

/// What a photo tells of its sky (see [`probe`]).
pub fn sky_probe(img: &Raster, light: &Light) -> (r: Option<SkyProbe>)
    requires
        crate::subject::is_photo(img@),
        light.wf(),
    ensures
        r == probe(
            img@,
            light.tones@,
            light.shares@[CLEAR_RANGE as int],
            light.smoothing@[PROBE_DETAIL as int],
        ),
        r matches Some(v) ==> v.floor.0.wf() && v.floor.1.wf() && v.floor.2.wf()
            && crate::held::fits(v.sea),
{
    match copy_photo(img, PROBE_LONG_EDGE) {
        Some(s) => {
            if s.w < PROBE_SHORT || s.h < PROBE_SHORT {
                return Some(unknown_of());
            }
            let y = linear_of(&s, light).light();
            let streaks = streak_plane(&s, light, WORK_LONG_EDGE);
            let clear = sky_mask(&y, CLEAR_RANGE, light, None, Some(&streaks));
            let n: usize = clear.d.len();
            let open = clear_cells(&clear.d, &clear.d);
            if scarce(open.len() as u32, n as u32) {
                return Some(unknown_of());
            }
            let smoke = estimate_smoke(&s, light, WORK_LONG_EDGE, PROBE_DETAIL);
            let rows = depths_of(&more_than_half_of(&clear.d), s.w, s.h);
            let floor = floor_from(&smoke, &clear.d);
            let sea = quantile_of(&rows, 90, 100, Signed::of(1, 1));
            Some(SkyProbe { floor, sea })
        },
        None => None,
    }
}

} // verus!
