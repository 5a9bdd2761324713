//! What is measured of a photo before settings for its smoke are chosen.

use vstd::prelude::*;

use crate::auto::{
    detail_for, enough_smoke, horizon, level_for, pull_for, sky_target, strength_for, Findings,
    AUTO_LEAST_SIDE,
};
use crate::field::{quantile_of, upscale};
use crate::haze::{estimate_smoke, glow_of, linear_of, streak_plane, Light, Planes};
use crate::held::{add_to, divide_by, hold, scale_by, take_from, whole};
use crate::maps::Mask;
use crate::measure::settle;
use crate::raster::Raster;
use crate::scale::WORK_LONG_EDGE;
use crate::signed::{Colour, Signed};
use crate::skies::{
    copy_photo, floor_from, more_than_half_of, sky_mask, CLEAR_RANGE, PROBE_LONG_EDGE,
};
use crate::strength::pool_gain_at;

verus! {

/// The range with which all of the sky is looked for.
pub const WIDE_RANGE: usize = 70;

/// The numbers of the first `n` places that are picked.
pub open spec fn picked_upto(v: Seq<Signed>, on: Seq<bool>, n: int) -> Seq<Signed>
    decreases n,
{
    if n <= 0 {
        Seq::empty()
    } else if on[n - 1] {
        picked_upto(v, on, n - 1).push(v[n - 1])
    } else {
        picked_upto(v, on, n - 1)
    }
}

/// The numbers of the places that are picked.
pub open spec fn picked(v: Seq<Signed>, on: Seq<bool>) -> Seq<Signed> {
    picked_upto(v, on, v.len() as int)
}

/// The numbers of the places that are picked (see [`picked`]).
pub fn picked_of(v: &Vec<Signed>, on: &Vec<bool>) -> (out: Vec<Signed>)
    requires
        v@.len() == on@.len(),
        crate::maps::is_map(v@),
    ensures
        out@ == picked(v@, on@),
        out@.len() <= v@.len(),
        crate::maps::is_map(out@),
{
    let n: usize = v.len();
    let mut out: Vec<Signed> = Vec::new();
    let mut i: usize = 0;
    while i < n
        invariant
            i <= n == v@.len() == on@.len(),
            crate::maps::is_map(v@),
            out@ == picked_upto(v@, on@, i as int),
            out@.len() <= i,
            crate::maps::is_map(out@),
        decreases n - i,
    {
        if on[i] {
            out.push(v[i]);
        }
        i += 1;
    }
    out
}

/// The sum of numbers, in order.
pub open spec fn sum(v: Seq<Signed>) -> Signed {
    crate::maps::sum_upto(v, v.len() as int)
}

/// The sum of numbers, in order (see [`sum`]).
pub fn sum_of(v: &Vec<Signed>) -> (s: Signed)
    requires
        crate::maps::is_map(v@),
    ensures
        s == sum(v@),
        crate::held::fits(s),
{
    let n: usize = v.len();
    let mut s = Signed::zero();
    let mut i: usize = 0;
    while i < n
        invariant
            i <= n == v@.len(),
            crate::maps::is_map(v@),
            crate::held::fits(s),
            s == crate::maps::sum_upto(v@, i as int),
        decreases n - i,
    {
        s = add_to(s, v[i]);
        i += 1;
    }
    s
}

/// How much of each row is sky.
pub open spec fn rows(c: crate::maps::Chart) -> Seq<Signed> {
    Seq::new(
        c.h as nat,
        |y: int|
            crate::measure::settled(
                crate::held::over(sum(crate::spread::row(c.d, c.w, y)), Signed::part(c.w, 1)),
            ),
    )
}

fn rows_of(m: &Mask) -> (out: Vec<Signed>)
    requires
        m@.wf(),
    ensures
        out@ == rows(m@),
        forall|i: int| 0 <= i < out@.len() ==> (#[trigger] out@[i]).wf(),
{
    let w: usize = m.w;
    let h: usize = m.h;
    let n: usize = m.d.len();
    let mut out: Vec<Signed> = Vec::new();
    let mut y: usize = 0;
    while y < h
        invariant
            m@.wf(),
            w == m.w,
            h == m.h,
            n == m.d@.len() == w * h,
            y <= h,
            out@.len() == y,
            forall|j: int| 0 <= j < y ==> #[trigger] out@[j] == rows(m@)[j],
            forall|j: int| 0 <= j < y ==> (#[trigger] out@[j]).wf(),
        decreases h - y,
    {
        proof {
            crate::grid::lemma_cell_bound(0, y as int, w as int, h as int);
        }
        let start: usize = y * w;
        let mut line: Vec<Signed> = Vec::new();
        let mut x: usize = 0;
        while x < w
            invariant
                x <= w,
                start + w <= n == m.d@.len(),
                crate::maps::is_map(m.d@),
                crate::maps::is_map(line@),
                line@.len() == x,
                forall|j: int| 0 <= j < x ==> #[trigger] line@[j] == m.d@[start + j],
            decreases w - x,
        {
            line.push(m.d[start + x]);
            x += 1;
        }
        assert(line@ =~= crate::spread::row(m@.d, m@.w, y as int));
        out.push(settle(divide_by(sum_of(&line), whole(w as u64))));
        y += 1;
    }
    out
}

/// The last of the first `n` rows that holds a good part of the sky, or the last row of all.
pub open spec fn last_upto(v: Seq<Signed>, n: int) -> int
    decreases n,
{
    if n <= 0 {
        v.len() - 1
    } else if crate::auto::holds_sky(v, n - 1) {
        n - 1
    } else {
        last_upto(v, n - 1)
    }
}

proof fn lemma_last(v: Seq<Signed>, r: int, n: int)
    requires
        0 <= r < v.len(),
        0 <= n <= v.len(),
        crate::auto::holds_sky(v, r) ==> n > r,
        forall|i: int| r < i < v.len() && crate::auto::holds_sky(v, r) ==> !#[trigger]
            crate::auto::holds_sky(v, i),
        !crate::auto::holds_sky(v, r) ==> r == v.len() - 1 && forall|i: int|
            0 <= i < v.len() ==> !#[trigger] crate::auto::holds_sky(v, i),
    ensures
        last_upto(v, n) == r,
    decreases n,
{
    if n > 0 && !crate::auto::holds_sky(v, n - 1) {
        lemma_last(v, r, n - 1);
    }
}

/// What was seen on the copy of a photo.
pub struct Seen {
    pub y: crate::maps::Chart,
    pub streaks: crate::maps::Chart,
    pub sky: crate::maps::Chart,
    pub clear: crate::maps::Chart,
}

/// What is seen on the copy of a photo.
pub open spec fn seen(s: crate::raster::Picture, light: &Light) -> Seen {
    let y = crate::haze::linear(s, light.tones@).glows();
    let st = crate::haze::streaks(s, light.tones@, WORK_LONG_EDGE as int);
    Seen {
        y,
        streaks: crate::field::upscaled(st, s.w, s.h),
        sky: crate::skies::sky(
            y,
            WIDE_RANGE as int,
            light.shares@[WIDE_RANGE as int],
            None,
            Some(st),
        ),
        clear: crate::skies::sky(
            y,
            CLEAR_RANGE as int,
            light.shares@[CLEAR_RANGE as int],
            None,
            Some(st),
        ),
    }
}

/// Places above the horizon.
pub open spec fn above(e: Seen) -> int {
    e.sky.w * (last_upto(rows(e.sky), e.sky.h) + 1)
}

/// Places above the horizon that streaks cross.
pub open spec fn is_hot(e: Seen) -> Seq<bool> {
    Seq::new(
        e.streaks.d.len(),
        |i: int| i < above(e) && Signed::part(10, 100).lies_below(e.streaks.d[i]),
    )
}

/// The density of the streaks above the horizon.
pub open spec fn hot(e: Seen) -> Seq<Signed> {
    picked(e.streaks.d, is_hot(e))
}

/// The setting of detail that the streaks call for.
pub open spec fn detail(e: Seen) -> int {
    crate::auto::detail(crate::measure::settled(sum(hot(e))), hot(e).len() as u32)
}

/// How much brighter than the glow of the sky the smoke is.
pub open spec fn thickness(smoke: crate::haze::Tri, floor: Colour) -> Seq<Signed> {
    Seq::new(
        smoke.r.len(),
        |i: int|
            crate::haze::glow(
                crate::held::minus(smoke.r[i], floor.0).larger(Signed::part(0, 1)),
                crate::held::minus(smoke.g[i], floor.1).larger(Signed::part(0, 1)),
                crate::held::minus(smoke.b[i], floor.2).larger(Signed::part(0, 1)),
            ),
    )
}

/// Places above the horizon without streaks.
pub open spec fn is_smoky(e: Seen, i: int) -> bool {
    i < above(e) && e.streaks.d[i].lies_below(Signed::part(15, 100))
}

/// Places where smoke can be measured.
pub open spec fn is_thick(e: Seen, ys: Seq<Signed>) -> Seq<bool> {
    Seq::new(ys.len(), |i: int| is_smoky(e, i) && Signed::part(4, 1000).lies_below(ys[i]))
}

/// Places of the thickest smoke.
pub open spec fn is_thickest(e: Seen, ys: Seq<Signed>, hi: Signed) -> Seq<bool> {
    Seq::new(ys.len(), |i: int| is_smoky(e, i) && !ys[i].lies_below(hi))
}

/// The share of the smoke that has to go for each place to come down to a target.
pub open spec fn shares(y: Seq<Signed>, ys: Seq<Signed>, target: Signed) -> Seq<Signed> {
    Seq::new(
        ys.len(),
        |i: int| crate::held::over(crate::held::minus(y[i], target), ys[i]).larger(Signed::part(0, 1)),
    )
}

/// Places of the sky without streaks.
pub open spec fn is_open(e: Seen) -> Seq<bool> {
    Seq::new(
        e.sky.d.len(),
        |i: int| Signed::part(1, 2).lies_below(e.sky.d[i]) && e.streaks.d[i].lies_below(Signed::part(15, 100)),
    )
}

/// The light that is left where `k` of the smoke has gone, above the glow.
pub open spec fn left(y: Seq<Signed>, ys: Seq<Signed>, k: Signed, fy: Signed) -> Seq<Signed> {
    Seq::new(
        y.len(),
        |i: int|
            crate::held::minus(
                crate::held::minus(y[i], crate::held::times(k, ys[i])),
                fy,
            ).larger(Signed::part(0, 1)),
    )
}

/// What was found, and how bright the sky is that is to be cleaned.
pub struct Survey {
    pub found: Findings,
    pub level: Signed,
}

/// The darkest light that the sky is to come down to.
pub open spec fn target(e: Seen, fy: Signed) -> Signed {
    let dark = picked(e.y.d, crate::skies::more_than_half(e.clear.d));
    crate::held::held(
        crate::measure::settled(crate::field::quantile(dark, 20, 100, Signed::part(4, 1000))).clamped(
            crate::auto::deepest(),
            crate::auto::night(),
        ),
    ).larger(fy)
}

/// The share of the smoke that has to go, where it can be measured.
pub open spec fn share(e: Seen, ys: Seq<Signed>, fy: Signed) -> Option<Signed> {
    let thick = picked(ys, is_thick(e, ys));
    let hi = crate::field::quantile(thick, 90, 100, Signed::part(0, 1));
    let ks = picked(shares(e.y.d, ys, target(e, fy)), is_thickest(e, ys, hi));
    if ks.len() == 0 {
        None
    } else {
        Some(crate::measure::settled(crate::field::quantile(ks, 50, 100, Signed::part(0, 1))))
    }
}

/// What is found on the copy of a photo with long edge `source`.
pub open spec fn surveyed(s: crate::raster::Picture, source: int, light: &Light) -> Survey {
    let e = seen(s, light);
    let smoke = crate::haze::smoke(
        s,
        light.tones@,
        WORK_LONG_EDGE as int,
        detail(e),
        light.smoothing@[detail(e)],
    );
    let floor = crate::skies::floor(smoke, e.clear.d);
    let fy = crate::haze::glow(floor.0, floor.1, floor.2);
    let ys = thickness(smoke, floor);
    let pool = crate::strength::gain(source, WORK_LONG_EDGE as int);
    let thick = picked(ys, is_thick(e, ys));
    let k = share(e, ys, fy);
    let strength = crate::auto::strength(
        crate::auto::is_enough(thick.len() as u32, above(e) as u32),
        k,
        pool,
    );
    let rest = picked(
        left(e.y.d, ys, crate::held::held(crate::auto::pull(strength, pool)), fy),
        is_open(e),
    );
    let glow = crate::measure::settled(crate::field::quantile(rest, 90, 100, Signed::part(0, 1)));
    Survey {
        found: Findings {
            w: s.w as u32,
            h: s.h as u32,
            sky: crate::measure::settled(sum(e.sky.d)),
            streaks: hot(e).len() as u32,
            density: crate::measure::settled(sum(hot(e))),
            thick: thick.len() as u32,
            above: above(e) as u32,
            k,
            pool,
            deep: crate::measure::settled(crate::field::quantile(rest, 2, 100, Signed::part(0, 1))),
            glow,
            tone: Signed::part(0, 1),
        },
        level: crate::held::held(crate::auto::level(glow, crate::measure::settled(fy))),
    }
}

fn hot_map(streaks: &Vec<Signed>, above: usize) -> (on: Vec<bool>)
    requires
        crate::maps::is_map(streaks@),
    ensures
        on@ == Seq::new(
            streaks@.len(),
            |i: int| i < above && Signed::part(10, 100).lies_below(streaks@[i]),
        ),
{
    let n: usize = streaks.len();
    let least = Signed::of(10, 100);
    let ghost want = Seq::new(
        streaks@.len(),
        |i: int| i < above && Signed::part(10, 100).lies_below(streaks@[i]),
    );
    let mut on: Vec<bool> = Vec::new();
    let mut i: usize = 0;
    while i < n
        invariant
            i <= n == streaks@.len() == want.len(),
            crate::maps::is_map(streaks@),
            least == Signed::part(10, 100),
            crate::held::fits(least),
            forall|j: int|
                0 <= j < n ==> #[trigger] want[j] == (j < above && least.lies_below(streaks@[j])),
            on@.len() == i,
            forall|j: int| 0 <= j < i ==> #[trigger] on@[j] == want[j],
        decreases n - i,
    {
        on.push(i < above && least.less(streaks[i]));
        i += 1;
    }
    assert(on@ =~= want);
    on
}

fn thickness_of(smoke: &Planes, floor: Colour) -> (out: Vec<Signed>)
    requires
        smoke@.wf(),
        floor.0.wf(),
        floor.1.wf(),
        floor.2.wf(),
    ensures
        out@ == thickness(smoke@, floor),
        crate::maps::is_map(out@),
{
    let n: usize = smoke.r.len();
    let zero = Signed::zero();
    let mut out: Vec<Signed> = Vec::new();
    let mut i: usize = 0;
    while i < n
        invariant
            smoke@.wf(),
            i <= n == smoke@.r.len(),
            zero == Signed::part(0, 1),
            crate::held::fits(zero),
            floor.0.wf(),
            floor.1.wf(),
            floor.2.wf(),
            out@.len() == i,
            forall|j: int| 0 <= j < i ==> #[trigger] out@[j] == thickness(smoke@, floor)[j],
            crate::maps::is_map(out@),
        decreases n - i,
    {
        out.push(
            glow_of(
                take_from(smoke.r[i], floor.0).max(zero),
                take_from(smoke.g[i], floor.1).max(zero),
                take_from(smoke.b[i], floor.2).max(zero),
            ),
        );
        i += 1;
    }
    out
}

fn smoky_map(streaks: &Vec<Signed>, above: usize, ys: &Vec<Signed>, hi: Option<Signed>) -> (on: Vec<
    bool,
>)
    requires
        streaks@.len() == ys@.len(),
        crate::maps::is_map(streaks@),
        crate::maps::is_map(ys@),
        hi matches Some(v) ==> crate::held::fits(v),
    ensures
        on@.len() == ys@.len(),
        forall|i: int|
            0 <= i < on@.len() ==> #[trigger] on@[i] == (i < above && streaks@[i].lies_below(
                Signed::part(15, 100),
            ) && match hi {
                Some(v) => !ys@[i].lies_below(v),
                None => Signed::part(4, 1000).lies_below(ys@[i]),
            }),
{
    let n: usize = ys.len();
    let most = Signed::of(15, 100);
    let night = Signed::of(4, 1000);
    let mut on: Vec<bool> = Vec::new();
    let mut i: usize = 0;
    while i < n
        invariant
            i <= n == ys@.len() == streaks@.len(),
            crate::maps::is_map(streaks@),
            crate::maps::is_map(ys@),
            hi matches Some(v) ==> crate::held::fits(v),
            most == Signed::part(15, 100),
            night == Signed::part(4, 1000),
            crate::held::fits(most),
            crate::held::fits(night),
            on@.len() == i,
            forall|j: int|
                0 <= j < i ==> #[trigger] on@[j] == (j < above && streaks@[j].lies_below(most)
                    && match hi {
                    Some(v) => !ys@[j].lies_below(v),
                    None => night.lies_below(ys@[j]),
                }),
        decreases n - i,
    {
        let smoky: bool = i < above && streaks[i].less(most);
        let much: bool = match hi {
            Some(v) => !ys[i].less(v),
            None => night.less(ys[i]),
        };
        on.push(smoky && much);
        i += 1;
    }
    on
}

fn shares_of(y: &Vec<Signed>, ys: &Vec<Signed>, target: Signed) -> (out: Vec<Signed>)
    requires
        y@.len() == ys@.len(),
        crate::maps::is_map(y@),
        crate::maps::is_map(ys@),
        crate::held::fits(target),
    ensures
        out@ == shares(y@, ys@, target),
        crate::maps::is_map(out@),
{
    let n: usize = y.len();
    let mut out: Vec<Signed> = Vec::new();
    let mut i: usize = 0;
    while i < n
        invariant
            i <= n == y@.len() == ys@.len(),
            crate::maps::is_map(y@),
            crate::maps::is_map(ys@),
            crate::held::fits(target),
            out@.len() == i,
            forall|j: int| 0 <= j < i ==> #[trigger] out@[j] == shares(y@, ys@, target)[j],
            crate::maps::is_map(out@),
        decreases n - i,
    {
        out.push(divide_by(take_from(y[i], target), ys[i]).max(Signed::zero()));
        i += 1;
    }
    out
}

fn left_of(y: &Vec<Signed>, ys: &Vec<Signed>, k: Signed, fy: Signed) -> (out: Vec<Signed>)
    requires
        y@.len() == ys@.len(),
        crate::maps::is_map(y@),
        crate::maps::is_map(ys@),
        crate::held::fits(k),
        crate::held::fits(fy),
    ensures
        out@ == left(y@, ys@, k, fy),
        crate::maps::is_map(out@),
{
    let n: usize = y.len();
    let mut out: Vec<Signed> = Vec::new();
    let mut i: usize = 0;
    while i < n
        invariant
            i <= n == y@.len() == ys@.len(),
            crate::maps::is_map(y@),
            crate::maps::is_map(ys@),
            crate::held::fits(k),
            crate::held::fits(fy),
            out@.len() == i,
            forall|j: int| 0 <= j < i ==> #[trigger] out@[j] == left(y@, ys@, k, fy)[j],
            crate::maps::is_map(out@),
        decreases n - i,
    {
        out.push(take_from(take_from(y[i], scale_by(k, ys[i])), fy).max(Signed::zero()));
        i += 1;
    }
    out
}

fn open_map(sky: &Vec<Signed>, streaks: &Vec<Signed>) -> (on: Vec<bool>)
    requires
        sky@.len() == streaks@.len(),
        crate::maps::is_map(sky@),
        crate::maps::is_map(streaks@),
    ensures
        on@.len() == sky@.len(),
        forall|i: int|
            0 <= i < on@.len() ==> #[trigger] on@[i] == (Signed::part(1, 2).lies_below(sky@[i])
                && streaks@[i].lies_below(Signed::part(15, 100))),
{
    let n: usize = sky.len();
    let half = Signed::of(1, 2);
    let most = Signed::of(15, 100);
    let mut on: Vec<bool> = Vec::new();
    let mut i: usize = 0;
    while i < n
        invariant
            i <= n == sky@.len() == streaks@.len(),
            crate::maps::is_map(sky@),
            crate::maps::is_map(streaks@),
            half == Signed::part(1, 2),
            most == Signed::part(15, 100),
            crate::held::fits(half),
            crate::held::fits(most),
            on@.len() == i,
            forall|j: int|
                0 <= j < i ==> #[trigger] on@[j] == (half.lies_below(sky@[j])
                    && streaks@[j].lies_below(most)),
        decreases n - i,
    {
        on.push(half.less(sky[i]) && streaks[i].less(most));
        i += 1;
    }
    on
}

struct Views {
    y: Mask,
    streaks: Mask,
    sky: Mask,
    clear: Mask,
}

impl Views {
    spec fn model(&self) -> Seen {
        Seen { y: self.y@, streaks: self.streaks@, sky: self.sky@, clear: self.clear@ }
    }

    spec fn wf(&self, w: int, h: int) -> bool {
        &&& self.y@.wf() && self.y@.w == w && self.y@.h == h
        &&& self.streaks@.wf() && self.streaks@.w == w && self.streaks@.h == h
        &&& self.sky@.wf() && self.sky@.w == w && self.sky@.h == h
        &&& self.clear@.wf() && self.clear@.w == w && self.clear@.h == h
    }
}

fn look(s: &Raster, light: &Light) -> (e: Views)
    requires
        crate::subject::is_copy(s@),
        s@.w * s@.h * 3 <= isize::MAX,
        light.wf(),
    ensures
        e.model() == seen(s@, light),
        e.wf(s@.w, s@.h),
{
    let y = linear_of(s, light).light();
    let st = streak_plane(s, light, WORK_LONG_EDGE);
    let sky = sky_mask(&y, WIDE_RANGE, light, None, Some(&st));
    let clear = sky_mask(&y, CLEAR_RANGE, light, None, Some(&st));
    let n: usize = s.d.len();
    let streaks = upscale(&st, s.w, s.h);
    Views { y, streaks, sky, clear }
}

fn above_of(e: &Views) -> (n: usize)
    requires
        e.wf(e.sky@.w, e.sky@.h),
    ensures
        n == above(e.model()),
        n <= e.sky@.w * e.sky@.h,
{
    let r = rows_of(&e.sky);
    let last: usize = horizon(&r);
    let n: usize = e.sky.d.len();
    proof {
        lemma_last(r@, last as int, r@.len() as int);
        crate::grid::lemma_cell_bound(0, last as int, e.sky@.w, e.sky@.h);
        assert(e.sky@.w * (last + 1) == (last + 1) * e.sky@.w) by (nonlinear_arith);
    }
    e.sky.w * (last + 1)
}

fn target_of(e: &Views, fy: Signed) -> (t: Signed)
    requires
        e.wf(e.sky@.w, e.sky@.h),
        e.y@.d.len() <= u32::MAX,
        crate::held::fits(fy),
    ensures
        t == target(e.model(), fy),
        crate::held::fits(t),
{
    let dark = picked_of(&e.y.d, &more_than_half_of(&e.clear.d));
    let d = settle(quantile_of(&dark, 20, 100, Signed::of(4, 1000)));
    hold(sky_target(d)).max(fy)
}

fn share_of(e: &Views, ys: &Vec<Signed>, thick: &Vec<Signed>, above: usize, fy: Signed) -> (k: Option<
    Signed,
>)
    requires
        e.wf(e.sky@.w, e.sky@.h),
        ys@.len() == e.y@.d.len(),
        ys@.len() <= u32::MAX,
        crate::maps::is_map(ys@),
        thick@ == picked(ys@, is_thick(e.model(), ys@)),
        thick@.len() <= u32::MAX,
        crate::maps::is_map(thick@),
        above == crate::survey::above(e.model()),
        crate::held::fits(fy),
    ensures
        k == share(e.model(), ys@, fy),
        k matches Some(v) ==> v.wf(),
{
    let zero = Signed::zero();
    let hi = quantile_of(thick, 90, 100, zero);
    let on = smoky_map(&e.streaks.d, above, ys, Some(hi));
    assert(on@ =~= is_thickest(e.model(), ys@, hi));
    let all = shares_of(&e.y.d, ys, target_of(e, fy));
    let ks = picked_of(&all, &on);
    if ks.len() == 0 {
        None
    } else {
        Some(settle(quantile_of(&ks, 50, 100, zero)))
    }
}

/// What is found on the copy of a photo with long edge `source` (see [`surveyed`]).
pub fn survey(s: &Raster, source: u32, light: &Light) -> (r: Survey)
    requires
        crate::subject::is_copy(s@),
        s@.w * s@.h * 3 <= isize::MAX,
        light.wf(),
    ensures
        r == surveyed(s@, source as int, light),
        r.found.wf(),
        crate::held::fits(r.level),
{
    let zero = Signed::zero();
    let e = look(s, light);
    let n: usize = e.y.d.len();
    let above: usize = above_of(&e);
    let on = hot_map(&e.streaks.d, above);
    assert(on@ =~= is_hot(e.model()));
    let hot = picked_of(&e.streaks.d, &on);
    let density = settle(sum_of(&hot));
    let d: i32 = detail_for(density, hot.len() as u32);
    let smoke = estimate_smoke(s, light, WORK_LONG_EDGE, d as usize);
    let floor = floor_from(&smoke, &e.clear.d);
    let fy = glow_of(floor.0, floor.1, floor.2);
    let ys = thickness_of(&smoke, floor);
    let pool = pool_gain_at(source, WORK_LONG_EDGE);
    let many = smoky_map(&e.streaks.d, above, &ys, None);
    assert(many@ =~= is_thick(e.model(), ys@));
    let thick = picked_of(&ys, &many);
    let k = share_of(&e, &ys, &thick, above, fy);
    let enough: bool = enough_smoke(thick.len() as u32, above as u32);
    let strength: i32 = strength_for(enough, k, pool);
    let gone = hold(pull_for(strength, pool));
    let open = open_map(&e.sky.d, &e.streaks.d);
    assert(open@ =~= is_open(e.model()));
    let rest = picked_of(&left_of(&e.y.d, &ys, gone, fy), &open);
    let deep = settle(quantile_of(&rest, 2, 100, zero));
    let glow = settle(quantile_of(&rest, 90, 100, zero));
    let level = hold(level_for(glow, settle(fy)));
    Survey {
        found: Findings {
            w: s.w as u32,
            h: s.h as u32,
            sky: settle(sum_of(&e.sky.d)),
            streaks: hot.len() as u32,
            density,
            thick: thick.len() as u32,
            above: above as u32,
            k,
            pool,
            deep,
            glow,
            tone: zero,
        },
        level,
    }
}

/// What is found on a copy that is too small to look at.
pub open spec fn blank(s: crate::raster::Picture, source: int) -> Survey {
    Survey {
        found: Findings {
            w: s.w as u32,
            h: s.h as u32,
            sky: Signed::part(0, 1),
            streaks: 0,
            density: Signed::part(0, 1),
            thick: 0,
            above: 0,
            k: None,
            pool: crate::strength::gain(source, WORK_LONG_EDGE as int),
            deep: Signed::part(0, 1),
            glow: Signed::part(0, 1),
            tone: Signed::part(0, 1),
        },
        level: Signed::part(0, 1),
    }
}

/// What is found on a photo: on a copy of it, unless that is too small to look at. `None` where there
/// is no room for the copy.
pub fn survey_photo(img: &Raster, source: u32, light: &Light) -> (r: Option<Survey>)
    requires
        crate::subject::is_photo(img@),
        light.wf(),
    ensures
        r is Some <==> crate::resample::can_hold(img@, PROBE_LONG_EDGE as int),
        r matches Some(v) ==> v.found.wf() && crate::held::fits(v.level) && ({
            let s = crate::resample::shrunk(img@, PROBE_LONG_EDGE as int)->0;
            v == if s.w < AUTO_LEAST_SIDE || s.h < AUTO_LEAST_SIDE {
                blank(s, source as int)
            } else {
                surveyed(s, source as int, light)
            }
        }),
{
    let small = match copy_photo(img, PROBE_LONG_EDGE) {
        None => return None,
        Some(s) => s,
    };
    if small.w < AUTO_LEAST_SIDE as usize || small.h < AUTO_LEAST_SIDE as usize {
        let zero = Signed::of(0, 1);
        return Some(
            Survey {
                found: Findings {
                    w: small.w as u32,
                    h: small.h as u32,
                    sky: zero,
                    streaks: 0,
                    density: zero,
                    thick: 0,
                    above: 0,
                    k: None,
                    pool: pool_gain_at(source, WORK_LONG_EDGE),
                    deep: zero,
                    glow: zero,
                    tone: zero,
                },
                level: zero,
            },
        );
    }
    Some(survey(&small, source, light))
}

} // verus!
