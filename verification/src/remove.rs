//! Taking the smoke out of a photo: what is found of it, what each pixel keeps, and what is done to the
//! sky. The photo comes out in linear light.

use vstd::prelude::*;

use crate::clear::{ColorMatch, Pixel, SkyWork, SmokeField};
use crate::enhance::part_of;
use crate::field::{box_mean, copy_of, open_filter};
use crate::haze::{estimate_smoke, linear_of, streak_plane, Light, Planes};
use crate::held::{divide_by, hold, scale_by, take_from, whole};
use crate::maps::{ease_between, Mask};
use crate::mask::ShapeMask;
use crate::measure::settle;
use crate::raster::Raster;
use crate::scale::window;
use crate::signed::{longer_of, Colour, Signed};
use crate::single::ratio;
use crate::skies::{contrast_of, sky_mask, sky_probe, sky_region_of};
use crate::smoke::{Rgb, SmokeParams};
use crate::spread::longest_side;
use crate::strength::fast_strength;

verus! {

/// A map in the range of single precision.
pub open spec fn settled_map(v: Seq<Signed>) -> Seq<Signed> {
    Seq::new(v.len(), |i: int| crate::measure::settled(v[i]))
}

/// A map in the range of single precision (see [`settled_map`]).
pub fn settle_all(v: &Vec<Signed>) -> (out: Vec<Signed>)
    requires
        crate::maps::is_map(v@),
    ensures
        out@ == settled_map(v@),
        forall|i: int| 0 <= i < out@.len() ==> (#[trigger] out@[i]).wf(),
{
    let n: usize = v.len();
    let mut out: Vec<Signed> = Vec::new();
    let mut i: usize = 0;
    while i < n
        invariant
            i <= n == v@.len(),
            crate::maps::is_map(v@),
            out@.len() == i,
            forall|j: int| 0 <= j < i ==> #[trigger] out@[j] == settled_map(v@)[j],
            forall|j: int| 0 <= j < i ==> (#[trigger] out@[j]).wf(),
        decreases n - i,
    {
        out.push(settle(v[i]));
        i += 1;
    }
    out
}

/// Settings that are in their ranges, with shapes that can be drawn.
pub open spec fn is_ready(q: &SmokeParams) -> bool {
    &&& 0 <= q.strength <= 100
    &&& 0 <= q.detail <= 100
    &&& 0 <= q.feather <= 100
    &&& 0 <= q.tolerance <= 100
    &&& 0 <= q.sky_clean <= 100
    &&& 0 <= q.sky_range <= 100
    &&& 0 <= q.sky_tint <= 100
    &&& 0 <= q.cloud_range <= 100
    &&& q.shapes@.len() <= crate::smoke::MAX_SHAPES
    &&& forall|i: int|
        0 <= i < q.shapes@.len() ==> crate::mask::is_drawable(#[trigger] q.shapes@[i])
}

/// The strength that settings come to on a photo with a long edge: what is lost by working at a smaller
/// size is made up for.
pub open spec fn real_strength(q: SmokeParams, long: int) -> int {
    let s = crate::scale::within(q.strength as int, 0, 100);
    if q.fast {
        crate::strength::bent(
            s,
            crate::strength::gain(long, crate::scale::FAST_WORK_EDGE as int),
            crate::strength::gain(long, crate::scale::WORK_LONG_EDGE as int),
        )
    } else {
        s
    }
}

/// `p` holds settings as they are used on a photo with a long edge: each in its range, with the shapes
/// that are used.
pub open spec fn is_normal(p: SmokeParams, q: SmokeParams, long: int) -> bool {
    &&& p.strength == real_strength(q, long)
    &&& p.detail == crate::scale::within(q.detail as int, 0, 100)
    &&& p.feather == crate::scale::within(q.feather as int, 0, 100)
    &&& p.tolerance == crate::scale::within(q.tolerance as int, 0, 100)
    &&& p.sky_clean == crate::scale::within(q.sky_clean as int, 0, 100)
    &&& p.sky_range == crate::scale::within(q.sky_range as int, 0, 100)
    &&& p.sky_tint == crate::scale::within(q.sky_tint as int, 0, 100)
    &&& p.cloud_range == crate::scale::within(q.cloud_range as int, 0, 100)
    &&& p.shapes@ == crate::smoke::used_shapes(q.shapes@)
    &&& p.restore_trails == q.restore_trails
    &&& p.sky_only == q.sky_only
    &&& p.mask_density == q.mask_density
    &&& p.protect == q.protect
    &&& p.sky_color == q.sky_color
    &&& p.cloud == q.cloud
    &&& p.preview_of == q.preview_of
    &&& p.fast == q.fast
}

/// The shapes of settings can be drawn.
pub open spec fn can_draw(q: SmokeParams) -> bool {
    q.wf() && forall|i: int|
        0 <= i < q.shapes@.len() ==> crate::mask::is_drawable(#[trigger] q.shapes@[i])
}

/// Settings as they are used on a photo with a long edge (see [`is_normal`]).
pub fn normalized(q: SmokeParams, long: u32) -> (p: SmokeParams)
    requires
        q.wf(),
    ensures
        is_normal(p, q, long as int),
        0 <= p.strength <= 100,
        can_draw(q) ==> is_ready(&p),
{
    let ghost all = q.shapes@;
    let mut p = q.clamped();
    if p.fast {
        let s: i32 = fast_strength(p.strength, long);
        p.strength = s;
    }
    proof {
        if can_draw(q) {
            crate::mask::lemma_used_are_drawable(all);
            assert forall|i: int| 0 <= i < p.shapes@.len() implies crate::mask::is_drawable(
                #[trigger] p.shapes@[i],
            ) by {
                assert(p.shapes@[i] == crate::smoke::cleaned_all(all)[i]);
            }
        }
    }
    p
}

/// The linear light of the setting of detail.
pub open spec fn edge_of(q: &SmokeParams) -> int {
    if q.fast {
        crate::scale::FAST_WORK_EDGE as int
    } else {
        crate::scale::WORK_LONG_EDGE as int
    }
}

/// The long edge of the photo that settings speak of.
pub open spec fn source_of(q: &SmokeParams, p: crate::raster::Picture) -> int {
    match q.preview_of {
        Some(n) => n as int,
        None => crate::signed::max_of(p.w, p.h),
    }
}

/// `f` is the smoke in a photo, as settings ask for it.
pub open spec fn is_field(
    p: crate::raster::Picture,
    q: &SmokeParams,
    light: &Light,
    f: &SmokeField,
) -> bool {
    let smoke = crate::haze::smoke(
        p,
        light.tones@,
        edge_of(q),
        q.detail as int,
        light.smoothing@[q.detail as int],
    );
    let sky = probe_of(p, light)->0;
    &&& f.wf()
    &&& f.w == p.w
    &&& f.h == p.h
    &&& if q.strength > 0 {
        &&& f.smoke@.len() == 3
        &&& f.smoke@[0]@ == settled_map(smoke.r)
        &&& f.smoke@[1]@ == settled_map(smoke.g)
        &&& f.smoke@[2]@ == settled_map(smoke.b)
    } else {
        f.smoke@.len() == 0
    }
    &&& f.floor == sky.floor
    &&& f.sky is Some <==> q.sky_only && q.strength > 0
    &&& f.sky matches Some(v) ==> v@ == settled_map(
        crate::skies::photo_region(p, light.tones@, source_of(q, p), sky.sea)->0.d,
    )
}

/// No smoke was looked for.
pub open spec fn is_empty_field(p: crate::raster::Picture, f: &SmokeField) -> bool {
    &&& f.wf()
    &&& f.smoke@.len() == 0
    &&& f.sky is None
    &&& f.w == p.w
    &&& f.h == p.h
    &&& f.floor == (Signed::part(0, 1), Signed::part(0, 1), Signed::part(0, 1))
}

/// What a photo tells of its sky.
pub open spec fn probe_of(p: crate::raster::Picture, light: &Light) -> Option<crate::skies::SkyProbe> {
    crate::skies::probe(
        p,
        light.tones@,
        light.shares@[crate::skies::CLEAR_RANGE as int],
        light.smoothing@[crate::skies::PROBE_DETAIL as int],
    )
}

/// The photo can be brought down to the sizes at which its sky is looked for.
pub open spec fn can_look(p: crate::raster::Picture, q: &SmokeParams) -> bool {
    &&& crate::resample::shrunk(p, crate::skies::PROBE_LONG_EDGE as int) is Some
    &&& q.sky_only && q.strength > 0 ==> crate::resample::shrunk(
        p,
        crate::skies::REGION_LONG_EDGE as int,
    ) is Some
}

/// What is found of the smoke in a photo: nothing where settings change nothing, and none where the
/// photo cannot be brought down to the sizes at which its sky is looked for.
pub open spec fn is_found(
    p: crate::raster::Picture,
    q: &SmokeParams,
    light: &Light,
    r: Option<SmokeField>,
) -> bool {
    if q.strength <= 0 && !q.changes_sky() {
        r is Some && is_empty_field(p, &r->0)
    } else {
        (r is Some <==> can_look(p, q)) && (r matches Some(f) ==> is_field(p, q, light, &f))
    }
}

/// The smoke in a photo by settings that are ready to be used (see [`is_found`]).
#[verifier::rlimit(60)]
pub fn field_of(img: &Raster, q: &SmokeParams, light: &Light) -> (r: Option<SmokeField>)
    requires
        crate::subject::is_photo(img@),
        is_ready(q),
        light.wf(),
    ensures
        is_found(img@, q, light, r),
        r matches Some(f) ==> f.wf(),
{
    let zero = Signed::zero();
    let w: usize = img.w;
    let h: usize = img.h;
    if q.is_neutral() {
        return Some(
            SmokeField { smoke: Vec::new(), floor: (zero, zero, zero), sky: None, w, h },
        );
    }
    let probe = match sky_probe(img, light) {
        Some(v) => v,
        None => {
            return None;
        },
    };
    let sky: Option<Vec<Signed>> = if q.sky_only && q.strength > 0 {
        let source: u32 = q.source_long(longer_of(w, h) as u32);
        match sky_region_of(img, light, source, probe.sea) {
            Some(m) => Some(settle_all(&m.d)),
            None => {
                return None;
            },
        }
    } else {
        None
    };
    let mut smoke: Vec<Vec<Signed>> = Vec::new();
    if q.strength > 0 {
        let t = estimate_smoke(img, light, q.work_edge(), q.detail as usize);
        smoke.push(settle_all(&t.r));
        smoke.push(settle_all(&t.g));
        smoke.push(settle_all(&t.b));
    }
    Some(SmokeField { smoke, floor: probe.floor, sky, w, h })
}

/// How strongly bright places and their skirts keep their light.
pub open spec fn kernel(y: crate::maps::Chart, tones: Seq<Signed>) -> Seq<Signed> {
    let long = crate::signed::max_of(y.w, y.h);
    let area = crate::field::box_means(
        y,
        crate::scale::within(crate::scale::portion(long, 7, 1000), 3, 80),
    );
    let bright = crate::maps::Chart {
        d: Seq::new(y.d.len(), |i: int| crate::maps::eased(tones[190], tones[220], area.d[i])),
        w: y.w,
        h: y.h,
    };
    let r = crate::scale::within(crate::scale::portion(long, 15, 1000), 2, 120);
    let s = crate::field::box_means(
        crate::field::box_means(crate::field::box_means(bright, r), r),
        r,
    );
    Seq::new(
        y.d.len(),
        |i: int|
            crate::held::times(
                crate::maps::eased(Signed::part(0, 1), Signed::part(1, 2), s.d[i]),
                crate::maps::eased(tones[110], tones[190], area.d[i]),
            ).larger(bright.d[i]),
    )
}

fn kernel_of(y: &Mask, light: &Light) -> (out: Vec<Signed>)
    requires
        y@.wf(),
        light.wf(),
    ensures
        out@ == kernel(y@, light.tones@),
        crate::maps::is_map(out@),
{
    let n: usize = y.d.len();
    let long: u32 = longer_of(y.w, y.h) as u32;
    let area = box_mean(y, window(long, 7, 1000, 3, 80) as usize);
    let lo = light.tones[190];
    let hi = light.tones[220];
    let glow = light.tones[110];
    let mut d: Vec<Signed> = Vec::new();
    let ghost bright = Seq::new(
        y@.d.len(),
        |i: int| crate::maps::eased(light.tones@[190], light.tones@[220], area@.d[i]),
    );
    let mut i: usize = 0;
    while i < n
        invariant
            i <= n == area.d@.len() == bright.len(),
            crate::maps::is_map(area.d@),
            lo.wf(),
            hi.wf(),
            forall|j: int|
                0 <= j < n ==> #[trigger] bright[j] == crate::maps::eased(lo, hi, area.d@[j]),
            d@.len() == i,
            forall|j: int| 0 <= j < i ==> #[trigger] d@[j] == bright[j],
            crate::maps::is_map(d@),
        decreases n - i,
    {
        d.push(ease_between(lo, hi, area.d[i]));
        i += 1;
    }
    assert(d@ =~= bright);
    let b = Mask { d, w: y.w, h: y.h };
    let r: usize = window(long, 15, 1000, 2, 120) as usize;
    let s = box_mean(&box_mean(&box_mean(&b, r), r), r);
    let ghost want = kernel(y@, light.tones@);
    let mut out: Vec<Signed> = Vec::new();
    let mut i: usize = 0;
    while i < n
        invariant
            i <= n == area.d@.len() == s.d@.len() == b.d@.len() == want.len(),
            crate::maps::is_map(area.d@),
            crate::maps::is_map(s.d@),
            crate::maps::is_map(b.d@),
            lo.wf(),
            glow.wf(),
            forall|j: int|
                0 <= j < n ==> #[trigger] want[j] == crate::held::times(
                    crate::maps::eased(Signed::part(0, 1), Signed::part(1, 2), s.d@[j]),
                    crate::maps::eased(glow, lo, area.d@[j]),
                ).larger(b.d@[j]),
            out@.len() == i,
            forall|j: int| 0 <= j < i ==> #[trigger] out@[j] == want[j],
            crate::maps::is_map(out@),
        decreases n - i,
    {
        let skirt = scale_by(
            ease_between(Signed::zero(), Signed::of(1, 2), s.d[i]),
            ease_between(glow, lo, area.d[i]),
        );
        out.push(skirt.max(b.d[i]));
        i += 1;
    }
    assert(out@ =~= want);
    out
}

/// The radius over which grain is taken out before lines are looked for; a preview has less of it.
pub open spec fn grain(long: int, preview: bool) -> int {
    if preview {
        crate::signed::min_of(
            crate::enhance::whole_part(long, crate::single::nearest(5, 10000)),
            crate::spread::longest(),
        )
    } else {
        crate::scale::within(crate::scale::portion(long, 5, 10000), 1, crate::spread::longest())
    }
}

fn grain_of(long: u32, preview: bool) -> (r: usize)
    ensures
        r == grain(long as int, preview),
        r <= crate::spread::longest(),
{
    if preview {
        let k = ratio(5, 10000);
        let n: u64 = part_of(long, k);
        if n < longest_side() as u64 {
            n as usize
        } else {
            longest_side()
        }
    } else {
        window(long, 5, 10000, 1, longest_side() as u64) as usize
    }
}

/// A line that stands above its ground: the more it stands out, the more of it counts.
pub open spec fn line(y: Signed, lo: Signed) -> Signed {
    let ex = crate::held::minus(y, lo).larger(Signed::part(0, 1));
    crate::held::times(
        ex,
        crate::maps::eased(
            Signed::part(10, 100),
            Signed::part(30, 100),
            crate::skies::contrast(ex, lo),
        ),
    )
}

fn line_of(y: Signed, lo: Signed) -> (r: Signed)
    requires
        crate::held::fits(y),
        crate::held::fits(lo),
    ensures
        r == line(y, lo),
        crate::held::fits(r),
{
    let ex = take_from(y, lo).max(Signed::zero());
    scale_by(ex, ease_between(Signed::of(10, 100), Signed::of(30, 100), contrast_of(ex, lo)))
}

/// The lines in a map of light.
pub open spec fn trails(y: crate::maps::Chart, preview: bool) -> Seq<Signed> {
    let long = crate::signed::max_of(y.w, y.h);
    let g = grain(long, preview);
    let soft = if g > 0 {
        crate::field::box_means(y, g)
    } else {
        y
    };
    let r = crate::scale::within(crate::scale::portion(long, 25, 10000), 2, 40);
    let lo = crate::field::opened(soft, crate::signed::max_of(r / 2, 2));
    Seq::new(y.d.len(), |i: int| line(soft.d[i], lo.d[i]))
}

fn trails_of(y: &Mask, preview: bool) -> (out: Vec<Signed>)
    requires
        y@.wf(),
    ensures
        out@ == trails(y@, preview),
        crate::maps::is_map(out@),
{
    let n: usize = y.d.len();
    let long: u32 = longer_of(y.w, y.h) as u32;
    let g: usize = grain_of(long, preview);
    let soft = if g > 0 {
        box_mean(y, g)
    } else {
        copy_of(y)
    };
    let r: usize = window(long, 25, 10000, 2, 40) as usize;
    let half: usize = if r / 2 < 2 {
        2
    } else {
        r / 2
    };
    let lo = open_filter(&soft, half);
    let ghost want = trails(y@, preview);
    let mut out: Vec<Signed> = Vec::new();
    let mut i: usize = 0;
    while i < n
        invariant
            i <= n == soft.d@.len() == lo.d@.len() == want.len(),
            crate::maps::is_map(soft.d@),
            crate::maps::is_map(lo.d@),
            forall|j: int| 0 <= j < n ==> #[trigger] want[j] == line(soft.d@[j], lo.d@[j]),
            out@.len() == i,
            forall|j: int| 0 <= j < i ==> #[trigger] out@[j] == want[j],
            crate::maps::is_map(out@),
        decreases n - i,
    {
        out.push(line_of(soft.d[i], lo.d[i]));
        i += 1;
    }
    assert(out@ =~= want);
    out
}

/// The bytes of pixel `i`.
pub open spec fn bytes(d: Seq<u8>, i: int) -> Rgb {
    [d[i * 3], d[i * 3 + 1], d[i * 3 + 2]]
}

/// Colours in the order in which they are listed.
pub open spec fn listed(c: Seq<(usize, Rgb)>) -> Seq<Colour> {
    Seq::new(c.len(), |i: int| crate::clear::lit(c[i].1))
}

/// How far the settings reach pixel `i`: by their shapes, by the colours that they protect, and by the
/// sky.
pub open spec fn reach(
    p: crate::raster::Picture,
    q: &SmokeParams,
    sky: Option<Seq<Signed>>,
    i: int,
) -> Signed {
    let shape = crate::held::held(
        crate::mask::weight(
            q.shapes@,
            q.feather as int,
            q.mask_density as int,
            p.w,
            p.h,
            i % p.w,
            i / p.w,
        ),
    );
    let colour = crate::held::held(
        crate::clear::difference(
            listed(crate::smoke::numbered(q.protect, 6)),
            q.tolerance as int,
            crate::clear::lit(bytes(p.d, i)),
        ),
    );
    let here = match sky {
        Some(s) => s[i].clamped(Signed::part(0, 1), Signed::part(1, 1)),
        None => Signed::part(1, 1),
    };
    crate::held::times(crate::held::times(shape, colour), here)
}

/// How far the settings reach each pixel.
pub open spec fn reaches(
    p: crate::raster::Picture,
    q: &SmokeParams,
    sky: Option<Seq<Signed>>,
) -> Seq<Signed> {
    Seq::new((p.w * p.h) as nat, |i: int| crate::measure::settled(reach(p, q, sky, i)))
}

fn bytes_of(img: &Raster, i: usize) -> (b: Rgb)
    requires
        i * 3 + 3 <= img.d@.len(),
    ensures
        b == bytes(img.d@, i as int),
{
    let len: usize = img.d.len();
    let b: Rgb = [img.d[i * 3], img.d[i * 3 + 1], img.d[i * 3 + 2]];
    assert(b@ =~= bytes(img.d@, i as int)@);
    b
}

/// The numbers of a map, or none.
pub open spec fn numbers(v: Option<&Vec<Signed>>) -> Option<Seq<Signed>> {
    match v {
        Some(s) => Some(s@),
        None => None,
    }
}

fn reaches_of(img: &Raster, q: &SmokeParams, sky: Option<&Vec<Signed>>) -> (out: Vec<Signed>)
    requires
        crate::subject::is_photo(img@),
        is_ready(q),
        numbers(sky) matches Some(s) ==> s.len() == img@.w * img@.h && forall|i: int|
            0 <= i < s.len() ==> (#[trigger] s[i]).wf(),
    ensures
        out@ == reaches(img@, q, numbers(sky)),
        forall|i: int| 0 <= i < out@.len() ==> (#[trigger] out@[i]).wf(),
{
    let w: usize = img.w;
    let len: usize = img.d.len();
    let n: usize = len / 3;
    let mask = ShapeMask::new(&q.shapes, q.feather, q.mask_density, img.w as u32, img.h as u32);
    let protect = ColorMatch::new(&q.protect_colors(), q.tolerance);
    assert(protect.keys() =~= listed(crate::smoke::numbered(q.protect, 6)));
    let zero = Signed::zero();
    let one = Signed::of(1, 1);
    let mut out: Vec<Signed> = Vec::new();
    let mut i: usize = 0;
    while i < n
        invariant
            crate::subject::is_photo(img@),
            w == img.w,
            len == img.d@.len() == n * 3,
            i <= n == img@.w * img@.h,
            numbers(sky) matches Some(s) ==> s.len() == n && forall|j: int|
                0 <= j < s.len() ==> (#[trigger] s[j]).wf(),
            mask.wf(),
            mask.shapes() == q.shapes@,
            mask.feather() == q.feather,
            mask.density() == q.mask_density,
            mask.width() == img@.w,
            mask.height() == img@.h,
            protect.wf(),
            protect.keys() == listed(crate::smoke::numbered(q.protect, 6)),
            protect.tolerance() == q.tolerance,
            zero == Signed::part(0, 1),
            one == Signed::part(1, 1),
            zero.wf(),
            crate::held::fits(one),
            one.wf(),
            out@.len() == i,
            forall|j: int| 0 <= j < i ==> #[trigger] out@[j] == reaches(img@, q, numbers(sky))[j],
            forall|j: int| 0 <= j < i ==> (#[trigger] out@[j]).wf(),
        decreases n - i,
    {
        proof {
            crate::grid::lemma_cell_split(i as int, img@.w, img@.h);
        }
        let shape = hold(mask.at((i % w) as u32, (i / w) as u32));
        let colour = hold(protect.at(bytes_of(img, i)));
        let here = match sky {
            Some(s) => s[i].clamp(zero, one),
            None => one,
        };
        out.push(settle(scale_by(scale_by(shape, colour), here)));
        i += 1;
    }
    out
}

/// How much of the smoke a strength takes away.
pub open spec fn pull(strength: int) -> Signed {
    Signed::part(strength, 1).quotient(Signed::part(100, 1)).product(Signed::part(16, 10))
}

fn pull_of(strength: i32) -> (k: Signed)
    requires
        0 <= strength <= 100,
    ensures
        k == pull(strength as int),
        k.within(375),
{
    Signed::of(strength as u64, 1).over(Signed::of(100, 1)).times(Signed::of(16, 10))
}

/// The smoke at pixel `i`, where it was looked for.
pub open spec fn smoke_at(f: &SmokeField, i: int) -> Option<Colour> {
    if f.smoke@.len() == 3 {
        Some((f.smoke@[0]@[i], f.smoke@[1]@[i], f.smoke@[2]@[i]))
    } else {
        None
    }
}

/// What each pixel is cleared by: its light in full, what bright places keep, and its lines.
pub struct Maps {
    pub lin: crate::haze::Tri,
    pub reach: Seq<Signed>,
    pub kernel: Option<Seq<Signed>>,
    pub lines: Option<Seq<Signed>>,
}

/// One number of a map, if there is one.
pub open spec fn one_of(v: Option<Seq<Signed>>, i: int) -> Option<Signed> {
    match v {
        Some(s) => Some(s[i]),
        None => None,
    }
}

/// Pixel `i` as it is cleared.
pub open spec fn pixel(p: crate::raster::Picture, f: &SmokeField, m: Maps, i: int) -> Pixel {
    Pixel {
        src: bytes(p.d, i),
        lin: (m.lin.r[i], m.lin.g[i], m.lin.b[i]),
        smoke: smoke_at(f, i),
        w: m.reach[i],
        centre: one_of(m.kernel, i),
        excess: one_of(m.lines, i),
    }
}

/// What pixels are cleared by, as settings ask for it.
pub open spec fn maps(
    p: crate::raster::Picture,
    q: &SmokeParams,
    light: &Light,
    f: &SmokeField,
) -> Maps {
    let lin = crate::haze::linear(p, light.tones@);
    let sky = match f.sky {
        Some(v) => Some(v@),
        None => None,
    };
    Maps {
        lin,
        reach: reaches(p, q, sky),
        kernel: if q.strength > 0 {
            Some(settled_map(kernel(lin.glows(), light.tones@)))
        } else {
            None
        },
        lines: if q.restore_trails && q.strength > 0 {
            Some(settled_map(trails(lin.glows(), q.preview_of is Some)))
        } else {
            None
        },
    }
}

/// Pixel `i` in linear light once its smoke has gone.
pub open spec fn cleared(
    p: crate::raster::Picture,
    q: &SmokeParams,
    light: &Light,
    f: &SmokeField,
    i: int,
) -> Colour {
    crate::skies::lowered(
        pixel(p, f, maps(p, q, light, f), i).clear(pull(q.strength as int), f.floor),
    )
}

/// A photo in linear light once its smoke has gone.
pub open spec fn clear_photo(
    p: crate::raster::Picture,
    q: &SmokeParams,
    light: &Light,
    f: &SmokeField,
) -> crate::haze::Tri {
    let n = p.w * p.h;
    crate::haze::Tri {
        r: Seq::new(n as nat, |i: int| cleared(p, q, light, f, i).0),
        g: Seq::new(n as nat, |i: int| cleared(p, q, light, f, i).1),
        b: Seq::new(n as nat, |i: int| cleared(p, q, light, f, i).2),
        w: p.w,
        h: p.h,
    }
}

fn pick(v: &Option<Vec<Signed>>, i: usize) -> (r: Option<Signed>)
    requires
        v matches Some(s) ==> i < s@.len(),
    ensures
        r == match *v {
            Some(s) => Some(s@[i as int]),
            None => None,
        },
{
    match v {
        Some(s) => Some(s[i]),
        None => None,
    }
}

fn smoke_at_of(f: &SmokeField, i: usize) -> (c: Option<Colour>)
    requires
        f.wf(),
        i < f.w * f.h,
    ensures
        c == smoke_at(f, i as int),
        c matches Some(v) ==> crate::clear::spans(v, 200),
{
    if f.smoke.len() == 3 {
        assert(crate::clear::is_plane(f.smoke@[0]@, f.w as int, f.h as int));
        assert(crate::clear::is_plane(f.smoke@[1]@, f.w as int, f.h as int));
        assert(crate::clear::is_plane(f.smoke@[2]@, f.w as int, f.h as int));
        Some((f.smoke[0][i], f.smoke[1][i], f.smoke[2][i]))
    } else {
        None
    }
}

fn lower(c: Colour) -> (r: Colour)
    requires
        crate::clear::spans(c, 100_000),
    ensures
        r == crate::skies::lowered(c),
        r.0.wf(),
        r.1.wf(),
        r.2.wf(),
{
    (settle(hold(c.0)), settle(hold(c.1)), settle(hold(c.2)))
}

/// A photo in linear light once its smoke has gone (see [`clear_photo`]), and how far the settings reach
/// each of its pixels (see [`reaches`]).
pub fn dehaze_to_linear(img: &Raster, q: &SmokeParams, light: &Light, f: &SmokeField) -> (r: (
    Planes,
    Vec<Signed>,
))
    requires
        crate::subject::is_photo(img@),
        is_ready(q),
        light.wf(),
        f.wf(),
        f.w == img.w,
        f.h == img.h,
    ensures
        r.0@ == clear_photo(img@, q, light, f),
        r.0@.wf(),
        forall|i: int| 0 <= i < r.0@.r.len() ==> (#[trigger] r.0@.r[i]).wf(),
        forall|i: int| 0 <= i < r.0@.g.len() ==> (#[trigger] r.0@.g[i]).wf(),
        forall|i: int| 0 <= i < r.0@.b.len() ==> (#[trigger] r.0@.b[i]).wf(),
        r.1@ == maps(img@, q, light, f).reach,
        forall|i: int| 0 <= i < r.1@.len() ==> (#[trigger] r.1@[i]).wf(),
{
    let lin = linear_of(img, light);
    let n: usize = lin.r.len();
    let sky: Option<&Vec<Signed>> = match &f.sky {
        Some(v) => Some(v),
        None => None,
    };
    let reach = reaches_of(img, q, sky);
    let kernel: Option<Vec<Signed>> = if q.strength > 0 {
        Some(settle_all(&kernel_of(&lin.light(), light)))
    } else {
        None
    };
    let lines: Option<Vec<Signed>> = if q.restore_trails && q.strength > 0 {
        Some(settle_all(&trails_of(&lin.light(), q.preview_of.is_some())))
    } else {
        None
    };
    let k = pull_of(q.strength);
    let ghost m = maps(img@, q, light, f);
    assert(m.reach == reach@);
    assert(m.lin == lin@);
    assert(m.kernel == match kernel {
        Some(s) => Some(s@),
        None => None,
    });
    assert(m.lines == match lines {
        Some(s) => Some(s@),
        None => None,
    });
    let mut r: Vec<Signed> = Vec::new();
    let mut g: Vec<Signed> = Vec::new();
    let mut b: Vec<Signed> = Vec::new();
    let mut i: usize = 0;
    while i < n
        invariant
            crate::subject::is_photo(img@),
            f.wf(),
            f.w == img.w,
            f.h == img.h,
            i <= n == img@.w * img@.h,
            n == lin@.r.len() == lin@.g.len() == lin@.b.len() == reach@.len(),
            m == maps(img@, q, light, f),
            m.lin == lin@,
            m.reach == reach@,
            m.kernel == match kernel {
                Some(s) => Some(s@),
                None => None,
            },
            m.lines == match lines {
                Some(s) => Some(s@),
                None => None,
            },
            kernel matches Some(s) ==> s@.len() == n && forall|j: int|
                0 <= j < n ==> (#[trigger] s@[j]).wf(),
            lines matches Some(s) ==> s@.len() == n && forall|j: int|
                0 <= j < n ==> (#[trigger] s@[j]).wf(),
            forall|j: int| 0 <= j < n ==> (#[trigger] lin@.r[j]).wf(),
            forall|j: int| 0 <= j < n ==> (#[trigger] lin@.g[j]).wf(),
            forall|j: int| 0 <= j < n ==> (#[trigger] lin@.b[j]).wf(),
            forall|j: int| 0 <= j < n ==> (#[trigger] reach@[j]).wf(),
            k == pull(q.strength as int),
            k.within(375),
            r@.len() == i,
            g@.len() == i,
            b@.len() == i,
            forall|j: int| 0 <= j < i ==> #[trigger] r@[j] == cleared(img@, q, light, f, j).0,
            forall|j: int| 0 <= j < i ==> #[trigger] g@[j] == cleared(img@, q, light, f, j).1,
            forall|j: int| 0 <= j < i ==> #[trigger] b@[j] == cleared(img@, q, light, f, j).2,
            forall|j: int| 0 <= j < i ==> (#[trigger] r@[j]).wf(),
            forall|j: int| 0 <= j < i ==> (#[trigger] g@[j]).wf(),
            forall|j: int| 0 <= j < i ==> (#[trigger] b@[j]).wf(),
        decreases n - i,
    {
        let one = Pixel {
            src: bytes_of(img, i),
            lin: (lin.r[i], lin.g[i], lin.b[i]),
            smoke: smoke_at_of(f, i),
            w: reach[i],
            centre: pick(&kernel, i),
            excess: pick(&lines, i),
        };
        assert(one == pixel(img@, f, m, i as int));
        let c = lower(one.cleared(k, f.floor));
        r.push(c.0);
        g.push(c.1);
        b.push(c.2);
        i += 1;
    }
    let ghost want = clear_photo(img@, q, light, f);
    assert(r@ =~= want.r);
    assert(g@ =~= want.g);
    assert(b@ =~= want.b);
    (Planes { r, g, b, w: img.w, h: img.h }, reach)
}

/// How much each pixel shows one of the colours of clouds; none where there are no such colours.
pub open spec fn cloud(p: crate::raster::Picture, q: &SmokeParams) -> Option<crate::maps::Chart> {
    let colours = crate::smoke::numbered(q.cloud, 6);
    if colours.len() == 0 {
        None
    } else {
        Some(
            crate::maps::Chart {
                d: Seq::new(
                    (p.w * p.h) as nat,
                    |i: int|
                        crate::held::minus(
                            Signed::part(1, 1),
                            crate::held::held(
                                crate::clear::difference(
                                    listed(colours),
                                    q.cloud_range as int,
                                    crate::clear::lit(bytes(p.d, i)),
                                ),
                            ),
                        ),
                ),
                w: p.w,
                h: p.h,
            },
        )
    }
}

/// How much each pixel shows one of the colours of clouds (see [`cloud`]).
pub fn cloud_mask(img: &Raster, q: &SmokeParams) -> (r: Option<Mask>)
    requires
        crate::subject::is_photo(img@),
        is_ready(q),
    ensures
        crate::skies::owned(r) == cloud(img@, q),
        r matches Some(m) ==> m@.wf() && m@.w == img@.w && m@.h == img@.h,
{
    let colours = q.cloud_colors();
    if colours.len() == 0 {
        return None;
    }
    let keys = ColorMatch::new(&colours, q.cloud_range);
    assert(keys.keys() =~= listed(crate::smoke::numbered(q.cloud, 6)));
    let len: usize = img.d.len();
    let n: usize = len / 3;
    let one = Signed::of(1, 1);
    let mut d: Vec<Signed> = Vec::new();
    let ghost want = cloud(img@, q)->0.d;
    let mut i: usize = 0;
    while i < n
        invariant
            len == img.d@.len() == n * 3,
            i <= n == want.len(),
            keys.wf(),
            keys.keys() == listed(crate::smoke::numbered(q.cloud, 6)),
            keys.tolerance() == q.cloud_range,
            one == Signed::part(1, 1),
            crate::held::fits(one),
            forall|j: int|
                0 <= j < n ==> #[trigger] want[j] == crate::held::minus(
                    one,
                    crate::held::held(
                        crate::clear::difference(
                            keys.keys(),
                            keys.tolerance(),
                            crate::clear::lit(bytes(img.d@, j)),
                        ),
                    ),
                ),
            d@.len() == i,
            forall|j: int| 0 <= j < i ==> #[trigger] d@[j] == want[j],
            crate::maps::is_map(d@),
        decreases n - i,
    {
        d.push(take_from(one, hold(keys.at(bytes_of(img, i)))));
        i += 1;
    }
    assert(d@ =~= want);
    Some(Mask { d, w: img.w, h: img.h })
}

/// A percentage as a number.
pub open spec fn share(n: int) -> Signed {
    crate::measure::settled(crate::held::over(Signed::part(n, 1), Signed::part(100, 1)))
}

fn share_of(n: i32) -> (v: Signed)
    requires
        n >= 0,
    ensures
        v == share(n as int),
        v.wf(),
{
    settle(divide_by(whole(n as u64), whole(100)))
}

/// A colour in linear light.
pub open spec fn lit_by(c: Rgb, tones: Seq<Signed>) -> Colour {
    (tones[c@[0] as int], tones[c@[1] as int], tones[c@[2] as int])
}

/// What settings do to the sky.
pub open spec fn sky_work(q: &SmokeParams, tones: Seq<Signed>, floor: Colour) -> SkyWork {
    SkyWork {
        clean: share(q.sky_clean as int),
        tint: share(q.sky_tint as int),
        colour: match q.sky_color {
            Some(c) => Some(lit_by(c, tones)),
            None => None,
        },
        floor,
    }
}

fn sky_work_of(q: &SmokeParams, light: &Light, floor: Colour) -> (w: SkyWork)
    requires
        is_ready(q),
        light.wf(),
        crate::clear::spans(floor, 200),
    ensures
        w == sky_work(q, light.tones@, floor),
        w.wf(),
{
    let colour: Option<Colour> = match q.sky_color {
        Some(c) => Some(
            (
                light.tones[c[0] as usize],
                light.tones[c[1] as usize],
                light.tones[c[2] as usize],
            ),
        ),
        None => None,
    };
    SkyWork { clean: share_of(q.sky_clean), tint: share_of(q.sky_tint), colour, floor }
}

/// A photo in linear light whose sky has been worked on, as strongly as `sky` and `reach` say.
pub open spec fn worked(
    t: crate::haze::Tri,
    work: SkyWork,
    sky: Seq<Signed>,
    reach: Seq<Signed>,
    i: int,
) -> Colour {
    crate::skies::lowered(
        work.worked(
            (t.r[i], t.g[i], t.b[i]),
            crate::measure::settled(crate::held::times(sky[i], reach[i])),
        ),
    )
}

/// A photo in linear light once its smoke has gone and its sky has been worked on.
pub open spec fn finished(
    p: crate::raster::Picture,
    q: &SmokeParams,
    light: &Light,
    f: &SmokeField,
) -> crate::haze::Tri {
    let t = clear_photo(p, q, light, f);
    if q.changes_sky() {
        let sky = crate::skies::sky(
            t.glows(),
            q.sky_range as int,
            light.shares@[q.sky_range as int],
            cloud(p, q),
            Some(crate::haze::streaks(p, light.tones@, edge_of(q))),
        ).d;
        let reach = maps(p, q, light, f).reach;
        let work = sky_work(q, light.tones@, f.floor);
        crate::haze::Tri {
            r: Seq::new(t.r.len(), |i: int| worked(t, work, sky, reach, i).0),
            g: Seq::new(t.r.len(), |i: int| worked(t, work, sky, reach, i).1),
            b: Seq::new(t.r.len(), |i: int| worked(t, work, sky, reach, i).2),
            w: t.w,
            h: t.h,
        }
    } else {
        t
    }
}

fn work_on(t: &Planes, work: &SkyWork, sky: &Vec<Signed>, reach: &Vec<Signed>) -> (out: Planes)
    requires
        t@.wf(),
        work.wf(),
        sky@.len() == reach@.len() == t@.r.len(),
        crate::maps::is_map(sky@),
        forall|i: int| 0 <= i < reach@.len() ==> (#[trigger] reach@[i]).wf(),
        forall|i: int| 0 <= i < t@.r.len() ==> (#[trigger] t@.r[i]).wf(),
        forall|i: int| 0 <= i < t@.g.len() ==> (#[trigger] t@.g[i]).wf(),
        forall|i: int| 0 <= i < t@.b.len() ==> (#[trigger] t@.b[i]).wf(),
    ensures
        out@.wf(),
        out@.w == t@.w,
        out@.h == t@.h,
        forall|i: int|
            0 <= i < t@.r.len() ==> #[trigger] out@.r[i] == worked(t@, *work, sky@, reach@, i).0,
        forall|i: int|
            0 <= i < t@.r.len() ==> #[trigger] out@.g[i] == worked(t@, *work, sky@, reach@, i).1,
        forall|i: int|
            0 <= i < t@.r.len() ==> #[trigger] out@.b[i] == worked(t@, *work, sky@, reach@, i).2,
{
    let n: usize = t.r.len();
    let mut r: Vec<Signed> = Vec::new();
    let mut g: Vec<Signed> = Vec::new();
    let mut b: Vec<Signed> = Vec::new();
    let mut i: usize = 0;
    while i < n
        invariant
            t@.wf(),
            work.wf(),
            i <= n == sky@.len() == reach@.len() == t@.r.len(),
            crate::maps::is_map(sky@),
            forall|j: int| 0 <= j < reach@.len() ==> (#[trigger] reach@[j]).wf(),
            forall|j: int| 0 <= j < t@.r.len() ==> (#[trigger] t@.r[j]).wf(),
            forall|j: int| 0 <= j < t@.g.len() ==> (#[trigger] t@.g[j]).wf(),
            forall|j: int| 0 <= j < t@.b.len() ==> (#[trigger] t@.b[j]).wf(),
            r@.len() == i,
            g@.len() == i,
            b@.len() == i,
            crate::maps::is_map(r@),
            crate::maps::is_map(g@),
            crate::maps::is_map(b@),
            forall|j: int|
                0 <= j < i ==> #[trigger] r@[j] == worked(t@, *work, sky@, reach@, j).0,
            forall|j: int|
                0 <= j < i ==> #[trigger] g@[j] == worked(t@, *work, sky@, reach@, j).1,
            forall|j: int|
                0 <= j < i ==> #[trigger] b@[j] == worked(t@, *work, sky@, reach@, j).2,
        decreases n - i,
    {
        let s = settle(scale_by(sky[i], reach[i]));
        let c = lower(work.work((t.r[i], t.g[i], t.b[i]), s));
        r.push(c.0);
        g.push(c.1);
        b.push(c.2);
        i += 1;
    }
    Planes { r, g, b, w: t.w, h: t.h }
}

/// A photo in linear light once its smoke has gone and its sky has been worked on (see [`finished`]).
pub fn finish(img: &Raster, q: &SmokeParams, light: &Light, f: &SmokeField) -> (out: Planes)
    requires
        crate::subject::is_photo(img@),
        is_ready(q),
        light.wf(),
        f.wf(),
        f.w == img.w,
        f.h == img.h,
    ensures
        out@ == finished(img@, q, light, f),
        out@.wf(),
{
    let (t, reach) = dehaze_to_linear(img, q, light, f);
    if !q.touches_sky() {
        return t;
    }
    let clouds = cloud_mask(img, q);
    let streaks = streak_plane(img, light, q.work_edge());
    let over: Option<&Mask> = match &clouds {
        Some(m) => Some(m),
        None => None,
    };
    let sky = sky_mask(&t.light(), q.sky_range as usize, light, over, Some(&streaks));
    let work = sky_work_of(q, light, f.floor);
    let out = work_on(&t, &work, &sky.d, &reach);
    let ghost want = finished(img@, q, light, f);
    assert(out@.r =~= want.r);
    assert(out@.g =~= want.g);
    assert(out@.b =~= want.b);
    out
}

/// What becomes of a photo.
pub enum Outcome {
    /// Settings change nothing.
    Same,
    /// The photo in linear light once its smoke has gone.
    Clear(Planes),
    /// The photo cannot be brought down to the sizes at which its sky is looked for.
    TooLarge,
}

/// What becomes of a photo once its smoke was looked for and taken out.
pub open spec fn is_cleared(
    p: crate::raster::Picture,
    q: &SmokeParams,
    light: &Light,
    r: Outcome,
) -> bool {
    &&& q.strength <= 0 && !q.changes_sky() <==> r is Same
    &&& !(r is Same) ==> (r is Clear <==> can_look(p, q))
    &&& r matches Outcome::Clear(t) ==> exists|g: SmokeField| #[trigger]
        is_field(p, q, light, &g) && t@ == finished(p, q, light, &g)
}

/// What becomes of a photo whose smoke was found before: the field is used where it has the photo's
/// size, otherwise the smoke is looked for.
pub open spec fn is_cleared_with(
    p: crate::raster::Picture,
    q: &SmokeParams,
    light: &Light,
    f: &SmokeField,
    r: Outcome,
) -> bool {
    &&& q.strength <= 0 && !q.changes_sky() <==> r is Same
    &&& !(r is Same) && f.w == p.w && f.h == p.h ==> (r matches Outcome::Clear(t) && t@ == finished(
        p,
        q,
        light,
        f,
    ))
    &&& !(f.w == p.w && f.h == p.h) ==> is_cleared(p, q, light, r)
}

fn clear_of(img: &Raster, q: &SmokeParams, light: &Light) -> (r: Outcome)
    requires
        crate::subject::is_photo(img@),
        is_ready(q),
        light.wf(),
    ensures
        is_cleared(img@, q, light, r),
{
    if q.is_neutral() {
        return Outcome::Same;
    }
    match field_of(img, q, light) {
        Some(g) => {
            let t = finish(img, q, light, &g);
            assert(is_field(img@, q, light, &g));
            Outcome::Clear(t)
        },
        None => Outcome::TooLarge,
    }
}

/// The smoke in a photo (see [`is_found`]), by settings as they are used on it.
pub fn smoke_field(img: &Raster, q: SmokeParams, light: &Light) -> (r: Option<SmokeField>)
    requires
        crate::subject::is_photo(img@),
        can_draw(q),
        light.wf(),
    ensures
        exists|n: SmokeParams| #[trigger]
            is_normal(n, q, crate::signed::max_of(img@.w, img@.h)) && is_ready(&n) && is_found(
                img@,
                &n,
                light,
                r,
            ),
        r matches Some(f) ==> f.wf(),
{
    let n = normalized(q, longer_of(img.w, img.h) as u32);
    let r = field_of(img, &n, light);
    assert(is_normal(n, q, crate::signed::max_of(img@.w, img@.h)));
    r
}

/// Takes the smoke that was found before out of a photo (see [`is_cleared_with`]), by settings as they
/// are used on it.
pub fn remove_smoke_with(img: &Raster, q: SmokeParams, light: &Light, f: &SmokeField) -> (r: Outcome)
    requires
        crate::subject::is_photo(img@),
        can_draw(q),
        light.wf(),
        f.wf(),
    ensures
        exists|n: SmokeParams| #[trigger]
            is_normal(n, q, crate::signed::max_of(img@.w, img@.h)) && is_ready(&n)
                && is_cleared_with(img@, &n, light, f, r),
{
    let n = normalized(q, longer_of(img.w, img.h) as u32);
    assert(is_normal(n, q, crate::signed::max_of(img@.w, img@.h)));
    if n.is_neutral() {
        Outcome::Same
    } else if f.w == img.w && f.h == img.h {
        Outcome::Clear(finish(img, &n, light, f))
    } else {
        clear_of(img, &n, light)
    }
}

/// Takes the smoke out of a photo (see [`is_cleared`]), by settings as they are used on it.
pub fn remove_smoke(img: &Raster, q: SmokeParams, light: &Light) -> (r: Outcome)
    requires
        crate::subject::is_photo(img@),
        can_draw(q),
        light.wf(),
    ensures
        exists|n: SmokeParams| #[trigger]
            is_normal(n, q, crate::signed::max_of(img@.w, img@.h)) && is_ready(&n) && is_cleared(
                img@,
                &n,
                light,
                r,
            ),
{
    let n = normalized(q, longer_of(img.w, img.h) as u32);
    assert(is_normal(n, q, crate::signed::max_of(img@.w, img@.h)));
    clear_of(img, &n, light)
}

/// The smoke of a photo is one: whenever settings are brought to use, and whichever of two fields of the
/// photo is used, the photo comes out the same. So a field that was found before gives what looking for
/// the smoke anew gives.
pub proof fn law_found_before_or_anew(
    p: crate::raster::Picture,
    q: SmokeParams,
    a: SmokeParams,
    b: SmokeParams,
    light: &Light,
    f: &SmokeField,
    g: &SmokeField,
)
    requires
        is_normal(a, q, crate::signed::max_of(p.w, p.h)),
        is_normal(b, q, crate::signed::max_of(p.w, p.h)),
        is_field(p, &a, light, f),
        is_field(p, &b, light, g),
    ensures
        finished(p, &a, light, f) == finished(p, &b, light, g),
        a.changes_sky() == b.changes_sky(),
        a.strength == b.strength,
{
    let ma = maps(p, &a, light, f);
    let mb = maps(p, &b, light, g);
    assert(ma.reach =~= mb.reach);
    assert(ma == mb);
    assert forall|i: int| #[trigger]
        cleared(p, &a, light, f, i) == cleared(p, &b, light, g, i) by {
        assert(smoke_at(f, i) == smoke_at(g, i));
        assert(pixel(p, f, ma, i) == pixel(p, g, mb, i));
    }
    let s = clear_photo(p, &a, light, f);
    let t = clear_photo(p, &b, light, g);
    assert(s.r =~= t.r);
    assert(s.g =~= t.g);
    assert(s.b =~= t.b);
    assert(s == t);
    if a.changes_sky() {
        assert(cloud(p, &a) == cloud(p, &b)) by {
            if crate::smoke::numbered(a.cloud, 6).len() > 0 {
                assert(cloud(p, &a)->0.d =~= cloud(p, &b)->0.d);
            }
        }
    }
}

/// What settings spare stays as it was: a pixel that they do not reach keeps its light, whatever is
/// done to the smoke and to the sky.
pub proof fn law_spared_pixels_stay(
    p: crate::raster::Picture,
    q: &SmokeParams,
    light: &Light,
    f: &SmokeField,
    i: int,
)
    requires
        crate::subject::is_photo(p),
        light.wf(),
        0 <= i < p.w * p.h,
        maps(p, q, light, f).reach[i] == Signed::part(0, 1),
    ensures
        finished(p, q, light, f).r[i] == light.tones@[p.d[i * 3] as int],
        finished(p, q, light, f).g[i] == light.tones@[p.d[i * 3 + 1] as int],
        finished(p, q, light, f).b[i] == light.tones@[p.d[i * 3 + 2] as int],
{
    let m = maps(p, q, light, f);
    crate::single::law_nearest_unique(0, 1, crate::single::nought());
    let t = clear_photo(p, q, light, f);
    assert(cleared(p, q, light, f, i) == crate::skies::lowered((m.lin.r[i], m.lin.g[i], m.lin.b[i])));
    assert(m.lin.r[i] == light.tones@[p.d[i * 3] as int]);
    assert(t.r[i] == light.tones@[p.d[i * 3] as int]);
    assert(t.g[i] == light.tones@[p.d[i * 3 + 1] as int]);
    assert(t.b[i] == light.tones@[p.d[i * 3 + 2] as int]);
    if q.changes_sky() {
        let sky = crate::skies::sky(
            t.glows(),
            q.sky_range as int,
            light.shares@[q.sky_range as int],
            cloud(p, q),
            Some(crate::haze::streaks(p, light.tones@, edge_of(q))),
        ).d;
        reveal(crate::held::times);
        reveal(Signed::product);
        let s = sky[i];
        assert(s.size.m * 0 == 0) by (nonlinear_arith);
        assert(crate::held::times(s, Signed::part(0, 1)) == Signed::part(0, 1));
    }
}

/// Where only the sky is worked on, the ground is not reached: nothing happens to a pixel that is no
/// sky at all.
pub proof fn law_ground_is_not_reached(
    p: crate::raster::Picture,
    q: &SmokeParams,
    sky: Seq<Signed>,
    i: int,
)
    requires
        0 <= i < p.w * p.h,
        sky[i].wf(),
        !Signed::part(0, 1).lies_below(sky[i]),
    ensures
        reaches(p, q, Some(sky))[i] == Signed::part(0, 1),
{
    crate::single::law_nearest_unique(0, 1, crate::single::nought());
    let here = sky[i].clamped(Signed::part(0, 1), Signed::part(1, 1));
    assert(here == Signed::part(0, 1));
    let shape = crate::held::held(
        crate::mask::weight(
            q.shapes@,
            q.feather as int,
            q.mask_density as int,
            p.w,
            p.h,
            i % p.w,
            i / p.w,
        ),
    );
    let colour = crate::held::held(
        crate::clear::difference(
            listed(crate::smoke::numbered(q.protect, 6)),
            q.tolerance as int,
            crate::clear::lit(bytes(p.d, i)),
        ),
    );
    reveal(crate::held::times);
    reveal(Signed::product);
    let s = crate::held::times(shape, colour);
    assert(s.size.m * 0 == 0) by (nonlinear_arith);
    assert(crate::held::times(s, here) == Signed::part(0, 1));
}

/// A channel, tinted by how much of it is covered: what is left out turns red.
pub open spec fn tinted(b: u8, red: int, covered: Signed) -> u8 {
    if !Signed::part(0, 1).lies_below(covered) {
        b
    } else {
        let a = crate::held::times(covered, Signed::part(55, 100));
        crate::sample::byte(
            crate::held::plus(
                crate::held::times(
                    Signed::part(b as int, 1),
                    crate::held::minus(Signed::part(1, 1), a),
                ),
                crate::held::times(Signed::part(red, 1), a),
            ),
        )
    }
}

fn tinted_of(b: u8, red: u64, covered: Signed) -> (r: u8)
    requires
        crate::held::fits(covered),
    ensures
        r == tinted(b, red as int, covered),
{
    if !Signed::zero().less(covered) {
        return b;
    }
    let a = scale_by(covered, Signed::of(55, 100));
    crate::sample::byte_of(
        crate::held::add_to(
            scale_by(whole(b as u64), take_from(Signed::of(1, 1), a)),
            scale_by(whole(red), a),
        ),
    )
}

/// The colour that shows what is left out.
pub open spec fn red(c: int) -> int {
    if c == 0 {
        220
    } else if c == 1 {
        40
    } else {
        60
    }
}

/// Byte `j` of a photo with what a map leaves out tinted.
pub open spec fn tinted_byte(d: Seq<u8>, kept: Seq<Signed>, j: int) -> u8 {
    tinted(d[j], red(j % 3), crate::held::minus(Signed::part(1, 1), kept[j / 3]))
}

fn tint_all(img: &Raster, kept: &Vec<Signed>) -> (out: Raster)
    requires
        img@.wf(),
        kept@.len() == img@.w * img@.h,
        crate::maps::is_map(kept@),
    ensures
        out@.wf(),
        out@.w == img@.w,
        out@.h == img@.h,
        forall|j: int| 0 <= j < out@.d.len() ==> #[trigger] out@.d[j] == tinted_byte(
            img@.d,
            kept@,
            j,
        ),
{
    let len: usize = img.d.len();
    let n: usize = kept.len();
    let mut d: Vec<u8> = Vec::new();
    let mut i: usize = 0;
    while i < n
        invariant
            i <= n == kept@.len(),
            len == img.d@.len() == n * 3,
            crate::maps::is_map(kept@),
            d@.len() == i * 3,
            forall|j: int| 0 <= j < d@.len() ==> #[trigger] d@[j] == tinted_byte(img.d@, kept@, j),
        decreases n - i,
    {
        let c = take_from(Signed::of(1, 1), kept[i]);
        d.push(tinted_of(img.d[i * 3], 220, c));
        d.push(tinted_of(img.d[i * 3 + 1], 40, c));
        d.push(tinted_of(img.d[i * 3 + 2], 60, c));
        i += 1;
    }
    Raster { w: img.w, h: img.h, d }
}

/// The photo with what settings leave alone tinted.
pub fn mask_overlay(img: &Raster, q: &SmokeParams) -> (out: Raster)
    requires
        crate::subject::is_photo(img@),
        is_ready(q),
    ensures
        out@.wf(),
        out@.w == img@.w,
        out@.h == img@.h,
        forall|j: int|
            0 <= j < out@.d.len() ==> #[trigger] out@.d[j] == tinted_byte(
                img@.d,
                reaches(img@, q, None),
                j,
            ),
{
    let kept = reaches_of(img, q, None);
    tint_all(img, &kept)
}

/// How strongly shapes cover pixel `i`, or leave it out where they are turned inside out.
pub open spec fn covering(
    shapes: Seq<crate::smoke::Shape>,
    feather: int,
    density: int,
    invert: bool,
    w: int,
    h: int,
    i: int,
) -> Signed {
    let v = crate::held::held(
        crate::mask::weight(shapes, feather, density, w, h, i % w, i / w),
    );
    if invert && shapes.len() > 0 {
        crate::held::minus(Signed::part(1, 1), v)
    } else {
        v
    }
}

/// How strongly shapes cover each pixel.
pub open spec fn coverings(
    shapes: Seq<crate::smoke::Shape>,
    feather: int,
    density: int,
    invert: bool,
    w: int,
    h: int,
) -> Seq<Signed> {
    Seq::new((w * h) as nat, |i: int| covering(shapes, feather, density, invert, w, h, i))
}

/// The photo with what shapes leave out tinted. Shapes come as they are drawn.
pub fn shape_overlay(
    img: &Raster,
    shapes: &Vec<crate::smoke::Shape>,
    feather: i32,
    density: i32,
    invert: bool,
) -> (out: Raster)
    requires
        crate::subject::is_photo(img@),
        shapes@.len() <= crate::smoke::MAX_SHAPES,
        forall|i: int| 0 <= i < shapes@.len() ==> crate::mask::is_drawable(#[trigger] shapes@[i]),
    ensures
        out@.wf(),
        out@.w == img@.w,
        out@.h == img@.h,
        forall|j: int|
            0 <= j < out@.d.len() ==> #[trigger] out@.d[j] == tinted_byte(
                img@.d,
                coverings(
                    shapes@,
                    crate::scale::within(feather as int, 0, 100),
                    density as int,
                    invert,
                    img@.w,
                    img@.h,
                ),
                j,
            ),
{
    let w: usize = img.w;
    let len: usize = img.d.len();
    let n: usize = len / 3;
    let soft: i32 = crate::smoke::clamp(feather, 0, 100);
    let mask = ShapeMask::new(shapes, soft, density, img.w as u32, img.h as u32);
    let turn: bool = invert && shapes.len() > 0;
    let ghost want = coverings(shapes@, soft as int, density as int, invert, img@.w, img@.h);
    let mut kept: Vec<Signed> = Vec::new();
    let mut i: usize = 0;
    while i < n
        invariant
            crate::subject::is_photo(img@),
            w == img.w,
            len == img.d@.len() == n * 3,
            i <= n == img@.w * img@.h == want.len(),
            want == coverings(shapes@, soft as int, density as int, invert, img@.w, img@.h),
            turn == (invert && shapes@.len() > 0),
            mask.wf(),
            mask.shapes() == shapes@,
            mask.feather() == soft,
            mask.density() == density,
            mask.width() == img@.w,
            mask.height() == img@.h,
            kept@.len() == i,
            forall|j: int| 0 <= j < i ==> #[trigger] kept@[j] == want[j],
            crate::maps::is_map(kept@),
        decreases n - i,
    {
        proof {
            crate::grid::lemma_cell_split(i as int, img@.w, img@.h);
        }
        let v = hold(mask.at((i % w) as u32, (i / w) as u32));
        if turn {
            kept.push(take_from(Signed::of(1, 1), v));
        } else {
            kept.push(v);
        }
        i += 1;
    }
    assert(kept@ =~= want);
    tint_all(img, &kept)
}

} // verus!
