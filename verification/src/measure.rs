//! What is measured of a photo before settings are advised.

use vstd::prelude::*;

use crate::advice::{advise, Stats};
use crate::enhance::{Ladder, Preset, Targets, MASK_LONG_EDGE, WORK_LONG_EDGE};
use crate::grade::Grade;
use crate::held::{add_to, divide_by, take_from};
use crate::maps::{blur, cover_of, lights_of, reach_of, tone_of};
use crate::raster::Raster;
use crate::resample::shrink;
use crate::signed::Signed;
use crate::single::{ratio, Single};
use crate::subject::{apart_of, extremes_of, level_of, skin_mask, subject_mask_of};

verus! {

/// Shortest side of a photo that is judged.
pub const JUDGED_SHORT: usize = 16;

/// A number in the range of single precision.
pub open spec fn settled(v: Signed) -> Signed {
    if v.size.e < -200 {
        Signed::part(0, 1)
    } else if v.size.e > 200 {
        Signed { neg: v.neg, size: Single { m: crate::single::LOW, e: 200 } }
    } else {
        v
    }
}

/// A number in the range of single precision (see [`settled`]).
pub fn settle(v: Signed) -> (r: Signed)
    requires
        crate::held::fits(v),
    ensures
        r == settled(v),
        r.wf(),
{
    if v.size.e < -200 {
        Signed::zero()
    } else if v.size.e > 200 {
        Signed { neg: v.neg, size: Single { m: crate::single::LOW, e: 200 } }
    } else {
        v
    }
}

/// The number that `k` percent of a map do not pass.
pub open spec fn percentile(v: Seq<Signed>, k: int) -> Signed {
    settled(
        crate::enhance::in_order(v)[crate::signed::min_of(
            crate::scale::portion(v.len() - 1, k, 100),
            v.len() - 1,
        )],
    )
}

fn percentile_of(l: &Ladder, v: &Vec<Signed>, k: u64) -> (r: Signed)
    requires
        l.levels() == crate::enhance::in_order(v@),
        0 < l.levels().len() == v@.len(),
        v@.len() <= u32::MAX,
        forall|i: int| 0 <= i < l.levels().len() ==> v@.contains(#[trigger] l.levels()[i]),
        crate::maps::is_map(v@),
        0 < k <= 100,
    ensures
        r == percentile(v@, k as int),
        r.wf(),
{
    let r = l.nearest(k, 100);
    proof {
        let i = choose|i: int| 0 <= i < l.levels().len() && l.levels()[i] == r;
        assert(v@.contains(l.levels()[i]));
    }
    settle(r)
}

/// How many of the first `n` numbers lie below `top`.
pub open spec fn below_upto(v: Seq<Signed>, top: Signed, n: int) -> int
    decreases n,
{
    if n <= 0 {
        0
    } else {
        below_upto(v, top, n - 1) + if v[n - 1].lies_below(top) {
            1int
        } else {
            0int
        }
    }
}

/// How many of the first `n` numbers lie above `floor`.
pub open spec fn above_upto(v: Seq<Signed>, floor: Signed, n: int) -> int
    decreases n,
{
    if n <= 0 {
        0
    } else {
        above_upto(v, floor, n - 1) + if floor.lies_below(v[n - 1]) {
            1int
        } else {
            0int
        }
    }
}

fn extremes_count(v: &Vec<Signed>) -> (r: (u32, u32))
    requires
        v@.len() < u32::MAX,
        crate::maps::is_map(v@),
    ensures
        r.0 == below_upto(v@, Signed::part(10, 100), v@.len() as int),
        r.1 == above_upto(v@, Signed::part(88, 100), v@.len() as int),
{
    let n: usize = v.len();
    let dark = Signed::of(10, 100);
    let bright = Signed::of(88, 100);
    let mut a: u32 = 0;
    let mut b: u32 = 0;
    let mut i: usize = 0;
    while i < n
        invariant
            i <= n == v@.len() < u32::MAX,
            crate::maps::is_map(v@),
            dark == Signed::part(10, 100),
            bright == Signed::part(88, 100),
            crate::held::fits(dark),
            crate::held::fits(bright),
            a <= i,
            b <= i,
            a == below_upto(v@, dark, i as int),
            b == above_upto(v@, bright, i as int),
        decreases n - i,
    {
        if v[i].less(dark) {
            a += 1;
        }
        if bright.less(v[i]) {
            b += 1;
        }
        i += 1;
    }
    (a, b)
}

/// Pixels that were counted, and the sums of their channels.
pub struct Tally {
    pub count: int,
    pub red: Signed,
    pub green: Signed,
    pub blue: Signed,
}

/// Of the first `n` pixels, those that are neither dark nor bright.
pub open spec fn middle_upto(d: Seq<u8>, y: Seq<Signed>, n: int) -> Tally
    decreases n,
{
    if n <= 0 {
        Tally { count: 0, red: Signed::part(0, 1), green: Signed::part(0, 1), blue: Signed::part(0, 1) }
    } else {
        let t = middle_upto(d, y, n - 1);
        if Signed::part(8, 100).lies_below(y[n - 1]) && y[n - 1].lies_below(Signed::part(92, 100)) {
            Tally {
                count: t.count + 1,
                red: crate::held::plus(t.red, crate::maps::tone(d, n - 1, 0)),
                green: crate::held::plus(t.green, crate::maps::tone(d, n - 1, 1)),
                blue: crate::held::plus(t.blue, crate::maps::tone(d, n - 1, 2)),
            }
        } else {
            t
        }
    }
}

fn middle_of(img: &Raster, y: &Vec<Signed>) -> (r: (u32, Signed, Signed, Signed))
    requires
        crate::subject::is_copy(img@),
        y@.len() == img@.w * img@.h,
        crate::maps::is_map(y@),
    ensures
        (Tally { count: r.0 as int, red: r.1, green: r.2, blue: r.3 }) == middle_upto(
            img@.d,
            y@,
            y@.len() as int,
        ),
        crate::held::fits(r.1),
        crate::held::fits(r.2),
        crate::held::fits(r.3),
{
    let n: usize = y.len();
    let len: usize = img.d.len();
    let low = Signed::of(8, 100);
    let high = Signed::of(92, 100);
    let mut count: u32 = 0;
    let mut red = Signed::zero();
    let mut green = Signed::zero();
    let mut blue = Signed::zero();
    let mut i: usize = 0;
    while i < n
        invariant
            i <= n == y@.len() < u32::MAX,
            len == img.d@.len() == n * 3,
            crate::maps::is_map(y@),
            low == Signed::part(8, 100),
            high == Signed::part(92, 100),
            crate::held::fits(low),
            crate::held::fits(high),
            count <= i,
            (Tally { count: count as int, red, green, blue }) == middle_upto(img.d@, y@, i as int),
            crate::held::fits(red),
            crate::held::fits(green),
            crate::held::fits(blue),
        decreases n - i,
    {
        if low.less(y[i]) && y[i].less(high) {
            count += 1;
            red = add_to(red, tone_of(img.d[i * 3]));
            green = add_to(green, tone_of(img.d[i * 3 + 1]));
            blue = add_to(blue, tone_of(img.d[i * 3 + 2]));
        }
        i += 1;
    }
    (count, red, green, blue)
}

/// The largest and the smallest channel of pixel `i`, from 0 to 1.
pub open spec fn range(d: Seq<u8>, i: int) -> (Signed, Signed) {
    let e = crate::subject::extremes(d[i * 3], d[i * 3 + 1], d[i * 3 + 2]);
    (
        crate::held::over(Signed::part(e.0, 1), Signed::part(255, 1)),
        crate::held::over(Signed::part(e.1, 1), Signed::part(255, 1)),
    )
}

fn range_of(img: &Raster, i: usize) -> (r: (Signed, Signed))
    requires
        i * 3 + 3 <= img.d@.len(),
    ensures
        r == range(img.d@, i as int),
        crate::held::fits(r.0),
        crate::held::fits(r.1),
{
    let len: usize = img.d.len();
    let (mx, mn) = extremes_of(img.d[i * 3], img.d[i * 3 + 1], img.d[i * 3 + 2]);
    (tone_of(mx), tone_of(mn))
}

/// How dark the darkest channel of each pixel is.
pub open spec fn darkest(d: Seq<u8>, n: int) -> Seq<Signed> {
    Seq::new(n as nat, |i: int| range(d, i).1)
}

/// Of the first `n` pixels, how many show a colour, and the sum of their saturations.
pub open spec fn coloured_upto(d: Seq<u8>, n: int) -> (int, Signed)
    decreases n,
{
    if n <= 0 {
        (0, Signed::part(0, 1))
    } else {
        let t = coloured_upto(d, n - 1);
        let (mx, mn) = range(d, n - 1);
        if Signed::part(6, 100).lies_below(mx) {
            (t.0 + 1, crate::held::plus(t.1, crate::held::over(crate::held::minus(mx, mn), mx)))
        } else {
            t
        }
    }
}

fn colours_of(img: &Raster) -> (r: (Vec<Signed>, u32, Signed))
    requires
        crate::subject::is_copy(img@),
    ensures
        r.0@ == darkest(img@.d, img@.w * img@.h),
        crate::maps::is_map(r.0@),
        (r.1 as int, r.2) == coloured_upto(img@.d, img@.w * img@.h),
        crate::held::fits(r.2),
{
    let len: usize = img.d.len();
    let ghost n = img@.w * img@.h;
    let least = Signed::of(6, 100);
    let mut v: Vec<Signed> = Vec::new();
    let mut count: u32 = 0;
    let mut sum = Signed::zero();
    let mut i: usize = 0;
    while i < len / 3
        invariant
            len == img.d@.len() == n * 3,
            i <= len / 3 == n < u32::MAX,
            least == Signed::part(6, 100),
            crate::held::fits(least),
            v@.len() == i,
            forall|j: int| 0 <= j < i ==> #[trigger] v@[j] == darkest(img.d@, n)[j],
            crate::maps::is_map(v@),
            count <= i,
            (count as int, sum) == coloured_upto(img.d@, i as int),
            crate::held::fits(sum),
        decreases len / 3 - i,
    {
        let (mx, mn) = range_of(img, i);
        v.push(mn);
        if least.less(mx) {
            count += 1;
            sum = add_to(sum, divide_by(take_from(mx, mn), mx));
        }
        i += 1;
    }
    (v, count, sum)
}

/// What is measured of a photo; `stops` is how many stops its middle is short of the target.
pub open spec fn measured(p: crate::raster::Picture, stops: Signed) -> Stats {
    let n = p.w * p.h;
    let y = crate::maps::lights(p.d, n);
    let m = middle_upto(p.d, y, n);
    let c = coloured_upto(p.d, n);
    Stats {
        pixels: n as u32,
        p01: percentile(y, 1),
        p05: percentile(y, 5),
        p25: percentile(y, 25),
        p50: percentile(y, 50),
        p95: percentile(y, 95),
        p99: percentile(y, 99),
        dark: below_upto(y, Signed::part(10, 100), n) as u32,
        bright: above_upto(y, Signed::part(88, 100), n) as u32,
        middle: m.count as u32,
        red: settled(m.red),
        green: settled(m.green),
        blue: settled(m.blue),
        veil: settled(crate::subject::level(darkest(p.d, n), crate::single::nearest(15, 100))),
        stops,
        coloured: c.0 as u32,
        chroma: settled(c.1),
        local: settled(
            crate::maps::cover(
                crate::subject::apart(
                    y,
                    crate::maps::blurred(y, p.w, p.h, crate::maps::reach(p.w, p.h, 24, 2)),
                ),
            ),
        ),
    }
}

/// What is measured of a photo (see [`measured`]).
pub fn measure(img: &Raster, stops: Signed) -> (s: Stats)
    requires
        crate::subject::is_copy(img@),
        stops.wf(),
    ensures
        s == measured(img@, stops),
        s.wf(),
{
    let y = lights_of(img);
    let n: usize = y.len();
    proof {
        assert(img@.w * img@.h > 0) by (nonlinear_arith)
            requires
                img@.w > 0,
                img@.h > 0,
        ;
    }
    let l = Ladder::of(&y);
    let ends = extremes_count(&y);
    let m = middle_of(img, &y);
    let c = colours_of(img);
    let veil = level_of(&c.0, ratio(15, 100));
    let soft = blur(&y, img.w, img.h, reach_of(img.w, img.h, 24, 2));
    let local = cover_of(&apart_of(&y, &soft));
    Stats {
        pixels: n as u32,
        p01: percentile_of(&l, &y, 1),
        p05: percentile_of(&l, &y, 5),
        p25: percentile_of(&l, &y, 25),
        p50: percentile_of(&l, &y, 50),
        p95: percentile_of(&l, &y, 95),
        p99: percentile_of(&l, &y, 99),
        dark: ends.0,
        bright: ends.1,
        middle: m.0,
        red: settle(m.1),
        green: settle(m.2),
        blue: settle(m.3),
        veil: settle(veil),
        stops,
        coloured: c.1,
        chroma: settle(c.2),
        local: settle(local),
    }
}

/// What is advised for a photo: its settings, and how much of it is subject and skin.
#[derive(Clone, Copy, PartialEq, Eq, Structural, Debug)]
pub struct Auto {
    pub grade: Grade,
    pub subject_cover: Signed,
    pub skin_cover: Signed,
}

/// The share of a photo from which skin counts.
pub open spec fn skin_present() -> Signed {
    Signed::part(12, 1000)
}

/// Enough of a photo is skin.
pub open spec fn shows_skin(cover: Signed) -> bool {
    !cover.lies_below(skin_present())
}

impl Auto {
    /// Enough of the photo is skin.
    pub fn has_skin(&self) -> (b: bool)
        requires
            crate::held::fits(self.skin_cover),
        ensures
            b == shows_skin(self.skin_cover),
    {
        !self.skin_cover.less(Signed::of(12, 1000))
    }
}

/// Settings that change nothing.
pub open spec fn untouched() -> Grade {
    Grade {
        temp: 0,
        tint: 0,
        exposure: 0,
        contrast: 0,
        brightness: 0,
        shadows: 0,
        whites: 0,
        blacks: 0,
        dehaze: 0,
        vibrance: 0,
        saturation: 0,
        clarity: 0,
    }
}

/// A photo that is too small to be judged.
pub open spec fn is_tiny(p: crate::raster::Picture) -> bool {
    p.w < JUDGED_SHORT || p.h < JUDGED_SHORT
}

/// The photo at the size at which it is measured; none where it is too small or cannot be resampled.
pub open spec fn working(p: crate::raster::Picture) -> Option<crate::raster::Picture> {
    if p.w == 0 || p.h == 0 {
        None
    } else {
        match crate::resample::shrunk(p, WORK_LONG_EDGE as int) {
            Some(s) => if is_tiny(s) {
                None
            } else {
                Some(s)
            },
            None => None,
        }
    }
}

fn working_of(img: &Raster) -> (r: Option<Raster>)
    requires
        img@.wf(),
    ensures
        r is Some <==> working(img@) is Some,
        r matches Some(s) ==> s@ == working(img@)->0 && crate::subject::is_copy(s@),
{
    if img.w == 0 || img.h == 0 {
        return None;
    }
    match shrink(img, WORK_LONG_EDGE) {
        Some(s) => {
            if s.w < JUDGED_SHORT || s.h < JUDGED_SHORT {
                None
            } else {
                assert(s.w * s.h <= 0x8000 * 0x8000) by (nonlinear_arith)
                    requires
                        s.w <= 0x8000,
                        s.h <= 0x8000,
                ;
                Some(s)
            }
        },
        None => None,
    }
}

/// The photo at the size at which its subject is looked for; none where it cannot be resampled.
pub fn mask_photo(img: &Raster) -> (r: Option<Raster>)
    requires
        img@.wf(),
        img.w > 0,
        img.h > 0,
    ensures
        r is Some <==> crate::resample::shrunk(img@, MASK_LONG_EDGE as int) is Some,
        r matches Some(s) ==> s@ == crate::resample::shrunk(img@, MASK_LONG_EDGE as int)->0
            && crate::subject::is_copy(s@),
{
    match shrink(img, MASK_LONG_EDGE) {
        Some(s) => {
            assert(s.w * s.h <= 0x8000 * 0x8000) by (nonlinear_arith)
                requires
                    s.w <= 0x8000,
                    s.h <= 0x8000,
            ;
            Some(s)
        },
        None => None,
    }
}

/// The target of a photo's middle over the brightness that it has; none where that is nothing or
/// where nothing is measured.
pub open spec fn lack(p: crate::raster::Picture, preset: Preset) -> Option<Signed> {
    match working(p) {
        Some(s) => {
            let mid = percentile(crate::maps::lights(s.d, s.w * s.h), 50);
            if mid.size.m == 0 {
                None
            } else {
                Some(
                    crate::held::over(
                        Signed::part(crate::enhance::targets(preset).mid as int, 1000),
                        mid,
                    ),
                )
            }
        },
        None => None,
    }
}

/// The target of a photo's middle over the brightness that it has (see [`lack`]). Its binary logarithm
/// is how many stops the photo is short of the target.
pub fn lack_of(img: &Raster, preset: Preset) -> (r: Option<Signed>)
    requires
        img@.wf(),
    ensures
        r == lack(img@, preset),
        r matches Some(v) ==> crate::held::fits(v),
{
    match working_of(img) {
        Some(s) => {
            proof {
                assert(s@.w * s@.h > 0) by (nonlinear_arith)
                    requires
                        s@.w > 0,
                        s@.h > 0,
                ;
            }
            let y = lights_of(&s);
            let mid = percentile_of(&Ladder::of(&y), &y, 50);
            if mid.size.m == 0 {
                None
            } else {
                Some(divide_by(Signed::of(Targets::of(preset).mid as u64, 1000), mid))
            }
        },
        None => None,
    }
}

/// What is advised for a photo; none where it cannot be resampled. `stops` is how many stops its middle
/// is short of the target (see [`lack`]).
pub open spec fn judged(p: crate::raster::Picture, preset: Preset, stops: Signed) -> Option<Auto> {
    match working(p) {
        Some(s) => match crate::resample::shrunk(p, MASK_LONG_EDGE as int) {
            Some(t) => {
                let skin = crate::subject::skin(t);
                Some(
                    Auto {
                        grade: crate::advice::advice(
                            crate::enhance::targets(preset),
                            measured(s, stops),
                        ),
                        subject_cover: crate::maps::cover(
                            crate::subject::subject(t, preset, skin).d,
                        ),
                        skin_cover: crate::maps::cover(skin.d),
                    },
                )
            },
            None => None,
        },
        None => if p.w == 0 || p.h == 0 || crate::resample::shrunk(p, WORK_LONG_EDGE as int) is Some {
            Some(
                Auto { grade: untouched(), subject_cover: Signed::part(0, 1), skin_cover: Signed::part(0, 1) },
            )
        } else {
            None
        },
    }
}

/// What is advised for a photo (see [`judged`]), within the limits of its kind. One that is too small
/// is left as it is.
pub fn analyze(img: &Raster, preset: Preset, stops: Signed) -> (r: Option<Auto>)
    requires
        img@.wf(),
        stops.wf(),
    ensures
        r == judged(img@, preset, stops),
        r matches Some(a) ==> crate::advice::is_modest(crate::enhance::targets(preset), a.grade),
{
    match working_of(img) {
        Some(s) => {
            let grade = advise(preset, &measure(&s, stops));
            match mask_photo(img) {
                Some(t) => {
                    let skin = skin_mask(&t);
                    let subject = subject_mask_of(&t, preset, &skin);
                    Some(
                        Auto {
                            grade,
                            subject_cover: cover_of(&subject.d),
                            skin_cover: cover_of(&skin.d),
                        },
                    )
                },
                None => None,
            }
        },
        None => {
            let readable: bool = if img.w == 0 || img.h == 0 {
                true
            } else {
                shrink(img, WORK_LONG_EDGE).is_some()
            };
            if readable {
                let grade = Grade {
                    temp: 0,
                    tint: 0,
                    exposure: 0,
                    contrast: 0,
                    brightness: 0,
                    shadows: 0,
                    whites: 0,
                    blacks: 0,
                    dehaze: 0,
                    vibrance: 0,
                    saturation: 0,
                    clarity: 0,
                };
                let none = Signed::zero();
                Some(Auto { grade, subject_cover: none, skin_cover: none })
            } else {
                None
            }
        },
    }
}

} // verus!
