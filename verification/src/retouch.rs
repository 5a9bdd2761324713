//! Bringing out the subject of a photo, smoothing skin, and showing what counts as either.

use vstd::prelude::*;

use crate::enhance::{radius_of, Local, Preset};
use crate::held::{add_to, divide_by, scale_by, take_from, whole};
use crate::maps::{blur, brightness_of, cover_of, ease_between, lights_of, tone_of, Mask};
use crate::measure::mask_photo;
use crate::raster::Raster;
use crate::resample::copy;
use crate::signed::{longer_of, Colour, Signed};
use crate::stroke::first_cell_of;
use crate::subject::{skin_mask, subject_mask_of};

verus! {

/// Shortest side of a photo that is retouched.
pub const RETOUCHED_SHORT: usize = 8;

/// A number from 0 to 1 as a byte.
pub open spec fn shade(v: Signed) -> u8 {
    crate::stroke::first_cell(
        crate::held::plus(
            crate::held::times(
                v.clamped(Signed::part(0, 1), Signed::part(1, 1)),
                Signed::part(255, 1),
            ),
            Signed::part(1, 2),
        ),
        256,
    ) as u8
}

/// A number from 0 to 1 as a byte (see [`shade`]).
pub fn shade_of(v: Signed) -> (b: u8)
    requires
        crate::held::fits(v),
    ensures
        b == shade(v),
{
    let u = v.clamp(Signed::zero(), Signed::of(1, 1));
    first_cell_of(add_to(scale_by(u, whole(255)), Signed::of(1, 2)), 256) as u8
}

/// What a subject gains at each pixel: local contrast and sharpness.
pub open spec fn gains(y: Seq<Signed>, wide: Seq<Signed>, near: Seq<Signed>) -> Seq<Signed> {
    Seq::new(
        y.len(),
        |i: int|
            crate::held::plus(
                crate::held::times(crate::held::minus(y[i], wide[i]), Signed::part(75, 100)),
                crate::held::times(crate::held::minus(y[i], near[i]), Signed::part(55, 100)),
            ),
    )
}

fn gains_of(y: &Vec<Signed>, wide: &Vec<Signed>, near: &Vec<Signed>) -> (out: Vec<Signed>)
    requires
        y@.len() == wide@.len() == near@.len(),
        crate::maps::is_map(y@),
        crate::maps::is_map(wide@),
        crate::maps::is_map(near@),
    ensures
        out@ == gains(y@, wide@, near@),
        crate::maps::is_map(out@),
{
    let n: usize = y.len();
    let mut out: Vec<Signed> = Vec::new();
    let mut i: usize = 0;
    while i < n
        invariant
            i <= n == y@.len() == wide@.len() == near@.len(),
            crate::maps::is_map(y@),
            crate::maps::is_map(wide@),
            crate::maps::is_map(near@),
            out@.len() == i,
            forall|j: int| 0 <= j < i ==> #[trigger] out@[j] == gains(y@, wide@, near@)[j],
            crate::maps::is_map(out@),
        decreases n - i,
    {
        out.push(
            add_to(
                scale_by(take_from(y[i], wide[i]), Signed::of(75, 100)),
                scale_by(take_from(y[i], near[i]), Signed::of(55, 100)),
            ),
        );
        i += 1;
    }
    out
}

/// How much the subject counts at a pixel; skin is left out where it is to be avoided.
pub open spec fn pull(
    mask: crate::maps::Chart,
    skin: crate::maps::Chart,
    avoid: bool,
    x: int,
    y: int,
    w: int,
    h: int,
) -> Signed {
    let m = crate::maps::told(mask, x, y, w, h);
    if avoid {
        crate::held::times(
            m,
            crate::held::minus(Signed::part(1, 1), crate::maps::told(skin, x, y, w, h)),
        )
    } else {
        m
    }
}

fn pull_of(mask: &Mask, skin: &Mask, avoid: bool, x: usize, y: usize, w: usize, h: usize) -> (m:
    Signed)
    requires
        mask@.wf(),
        skin@.wf(),
        x < w <= crate::spread::longest(),
        y < h <= crate::spread::longest(),
    ensures
        m == pull(mask@, skin@, avoid, x as int, y as int, w as int, h as int),
        crate::held::fits(m),
{
    let m = mask.tell(x, y, w, h);
    if avoid {
        scale_by(m, take_from(Signed::of(1, 1), skin.tell(x, y, w, h)))
    } else {
        m
    }
}

/// The brightness of a colour once it has been brought out by `k`.
pub open spec fn lifted(c: Colour, gain: Signed, k: Signed) -> Signed {
    crate::held::plus(
        crate::held::times(
            crate::maps::brightness(c.0, c.1, c.2),
            crate::held::plus(Signed::part(1, 1), crate::held::times(Signed::part(18, 100), k)),
        ),
        crate::held::times(gain, k),
    )
}

/// A channel `v` of a colour once it has been brought out by `k`.
pub open spec fn brought(c: Colour, v: Signed, gain: Signed, k: Signed) -> u8 {
    shade(
        crate::held::plus(
            lifted(c, gain, k),
            crate::held::times(
                crate::held::minus(v, crate::maps::brightness(c.0, c.1, c.2)),
                crate::held::plus(Signed::part(1, 1), crate::held::times(Signed::part(10, 100), k)),
            ),
        ),
    )
}

/// The bytes of a pixel once it has been brought out; it stays where the subject hardly counts.
pub open spec fn sharpened(b: (u8, u8, u8), gain: Signed, m: Signed, amount: Signed) -> (u8, u8, u8) {
    if !Signed::part(2, 1000).lies_below(m) {
        b
    } else {
        let k = crate::held::times(m, amount);
        let c = (
            crate::held::over(Signed::part(b.0 as int, 1), Signed::part(255, 1)),
            crate::held::over(Signed::part(b.1 as int, 1), Signed::part(255, 1)),
            crate::held::over(Signed::part(b.2 as int, 1), Signed::part(255, 1)),
        );
        (brought(c, c.0, gain, k), brought(c, c.1, gain, k), brought(c, c.2, gain, k))
    }
}

fn sharpened_of(b: (u8, u8, u8), gain: Signed, m: Signed, amount: Signed) -> (r: (u8, u8, u8))
    requires
        crate::held::fits(gain),
        crate::held::fits(m),
        crate::held::fits(amount),
    ensures
        r == sharpened(b, gain, m, amount),
{
    if !Signed::of(2, 1000).less(m) {
        return b;
    }
    let one = Signed::of(1, 1);
    let k = scale_by(m, amount);
    let c = (tone_of(b.0), tone_of(b.1), tone_of(b.2));
    let base = brightness_of(c.0, c.1, c.2);
    let lift = add_to(
        scale_by(base, add_to(one, scale_by(Signed::of(18, 100), k))),
        scale_by(gain, k),
    );
    let s = add_to(one, scale_by(Signed::of(10, 100), k));
    (
        shade_of(add_to(lift, scale_by(take_from(c.0, base), s))),
        shade_of(add_to(lift, scale_by(take_from(c.1, base), s))),
        shade_of(add_to(lift, scale_by(take_from(c.2, base), s))),
    )
}

/// What the subject of a photo gains.
pub open spec fn gains_in(p: crate::raster::Picture) -> Seq<Signed> {
    let y = crate::maps::lights(p.d, p.w * p.h);
    let long = crate::signed::max_of(p.w, p.h);
    gains(
        y,
        crate::maps::blurred(y, p.w, p.h, crate::enhance::radius(long, 300, 1, 60)),
        crate::maps::blurred(y, p.w, p.h, crate::enhance::radius(long, 900, 1, 12)),
    )
}

/// Pixel `i` of a photo whose subject has been brought out.
pub open spec fn sharper(
    p: crate::raster::Picture,
    mask: crate::maps::Chart,
    skin: crate::maps::Chart,
    avoid: bool,
    amount: Signed,
    i: int,
) -> (u8, u8, u8) {
    sharpened(
        crate::wipe::triple(p.d, i),
        gains_in(p)[i],
        pull(mask, skin, avoid, i % p.w, i / p.w, p.w, p.h),
        amount,
    )
}

/// `q` is the photo `p` with its subject brought out.
pub open spec fn is_sharper(
    p: crate::raster::Picture,
    q: crate::raster::Picture,
    mask: crate::maps::Chart,
    skin: crate::maps::Chart,
    avoid: bool,
    amount: Signed,
) -> bool {
    &&& q.wf()
    &&& q.w == p.w
    &&& q.h == p.h
    &&& forall|i: int|
        0 <= i < p.w * p.h ==> #[trigger] crate::wipe::triple(q.d, i) == sharper(
            p,
            mask,
            skin,
            avoid,
            amount,
            i,
        )
}

/// Brings out the subject of a photo (see [`is_sharper`]).
pub fn sharpen_subject(img: &mut Raster, mask: &Mask, skin: &Mask, avoid: bool, amount: Signed)
    requires
        crate::subject::is_photo(old(img)@),
        mask@.wf(),
        skin@.wf(),
        crate::held::fits(amount),
    ensures
        is_sharper(old(img)@, final(img)@, mask@, skin@, avoid, amount),
{
    let ghost before = img@;
    let w: usize = img.w;
    let h: usize = img.h;
    let bytes: usize = img.d.len();
    let long: usize = longer_of(w, h);
    let y = lights_of(img);
    let n: usize = y.len();
    let wide = blur(&y, w, h, radius_of(long, 300, 1, 60));
    let near = blur(&y, w, h, radius_of(long, 900, 1, 12));
    let gain = gains_of(&y, &wide, &near);
    let mut i: usize = 0;
    while i < n
        invariant
            i <= n == before.w * before.h,
            crate::subject::is_photo(before),
            w == before.w == img.w,
            h == before.h == img.h,
            bytes == n * 3 == img.d@.len() == before.d.len(),
            gain@ == gains_in(before),
            gain@.len() == n,
            crate::maps::is_map(gain@),
            mask@.wf(),
            skin@.wf(),
            crate::held::fits(amount),
            forall|j: int| i * 3 <= j < bytes ==> #[trigger] img@.d[j] == before.d[j],
            forall|j: int|
                0 <= j < i ==> #[trigger] crate::wipe::triple(img@.d, j) == sharper(
                    before,
                    mask@,
                    skin@,
                    avoid,
                    amount,
                    j,
                ),
        decreases n - i,
    {
        proof {
            crate::grid::lemma_cell_split(i as int, before.w, before.h);
        }
        let ghost mid = img@.d;
        let m = pull_of(mask, skin, avoid, i % w, i / w, w, h);
        let b = (img.d[i * 3], img.d[i * 3 + 1], img.d[i * 3 + 2]);
        let r = sharpened_of(b, gain[i], m, amount);
        img.d.set(i * 3, r.0);
        img.d.set(i * 3 + 1, r.1);
        img.d.set(i * 3 + 2, r.2);
        proof {
            assert forall|j: int| 0 <= j < i implies #[trigger] crate::wipe::triple(img@.d, j)
                == crate::wipe::triple(mid, j) by {}
            assert(crate::wipe::triple(img@.d, i as int) == sharper(
                before,
                mask@,
                skin@,
                avoid,
                amount,
                i as int,
            ));
        }
        i += 1;
    }
}

/// How much a pixel is smoothed: less where it differs from its surroundings by `d`.
pub open spec fn softness(m: Signed, d: Signed, amount: Signed) -> u8 {
    if !Signed::part(4, 1000).lies_below(m) {
        0
    } else {
        let keep = crate::maps::eased(Signed::part(45, 1000), Signed::part(16, 100), d);
        shade(
            crate::held::times(
                crate::held::times(
                    crate::held::times(m, amount),
                    crate::held::minus(Signed::part(1, 1), keep),
                ),
                Signed::part(85, 100),
            ),
        )
    }
}

fn softness_of(m: Signed, d: Signed, amount: Signed) -> (b: u8)
    requires
        crate::held::fits(m),
        crate::held::fits(d),
        crate::held::fits(amount),
    ensures
        b == softness(m, d, amount),
{
    if !Signed::of(4, 1000).less(m) {
        return 0;
    }
    let keep = ease_between(Signed::of(45, 1000), Signed::of(16, 100), d);
    shade_of(
        scale_by(
            scale_by(scale_by(m, amount), take_from(Signed::of(1, 1), keep)),
            Signed::of(85, 100),
        ),
    )
}

/// How much each pixel of a photo is smoothed.
pub open spec fn softnesses(
    p: crate::raster::Picture,
    skin: crate::maps::Chart,
    amount: Signed,
    r: int,
) -> Seq<u8> {
    let y = crate::maps::lights(p.d, p.w * p.h);
    let lo = crate::maps::blurred(y, p.w, p.h, r);
    Seq::new(
        (p.w * p.h) as nat,
        |i: int|
            softness(
                crate::maps::told(skin, i % p.w, i / p.w, p.w, p.h),
                crate::held::minus(y[i], lo[i]).size_of(),
                amount,
            ),
    )
}

fn softnesses_of(img: &Raster, skin: &Mask, amount: Signed, r: usize) -> (out: Vec<u8>)
    requires
        crate::subject::is_photo(img@),
        skin@.wf(),
        crate::held::fits(amount),
        0 < r <= crate::spread::longest(),
    ensures
        out@ == softnesses(img@, skin@, amount, r as int),
{
    let w: usize = img.w;
    let h: usize = img.h;
    let y = lights_of(img);
    let n: usize = y.len();
    let lo = blur(&y, w, h, r);
    let mut out: Vec<u8> = Vec::new();
    let mut i: usize = 0;
    while i < n
        invariant
            i <= n == img@.w * img@.h,
            crate::subject::is_photo(img@),
            w == img.w,
            h == img.h,
            skin@.wf(),
            crate::held::fits(amount),
            y@ == crate::maps::lights(img@.d, img@.w * img@.h),
            lo@ == crate::maps::blurred(y@, w as int, h as int, r as int),
            lo@.len() == n,
            crate::maps::is_map(y@),
            crate::maps::is_map(lo@),
            out@.len() == i,
            forall|j: int|
                0 <= j < i ==> #[trigger] out@[j] == softnesses(img@, skin@, amount, r as int)[j],
        decreases n - i,
    {
        proof {
            crate::grid::lemma_cell_split(i as int, img@.w, img@.h);
        }
        let m = skin.tell(i % w, i / w, w, h);
        let d = take_from(y[i], lo[i]);
        out.push(softness_of(m, Signed { neg: false, size: d.size }, amount));
        i += 1;
    }
    out
}

/// Channel `c` of the pixels of a photo.
pub open spec fn plane(d: Seq<u8>, n: int, c: int) -> Seq<Signed> {
    Seq::new(n as nat, |i: int| crate::maps::tone(d, i, c))
}

fn plane_of(img: &Raster, c: usize) -> (v: Vec<Signed>)
    requires
        img@.wf(),
        c < 3,
    ensures
        v@ == plane(img@.d, img@.w * img@.h, c as int),
        crate::maps::is_map(v@),
{
    let len: usize = img.d.len();
    let ghost n = img@.w * img@.h;
    let mut v: Vec<Signed> = Vec::new();
    let mut i: usize = 0;
    while i < len / 3
        invariant
            len == img.d@.len() == n * 3,
            i <= len / 3 == n,
            c < 3,
            v@.len() == i,
            forall|j: int| 0 <= j < i ==> #[trigger] v@[j] == plane(img.d@, n, c as int)[j],
            crate::maps::is_map(v@),
        decreases len / 3 - i,
    {
        v.push(tone_of(img.d[i * 3 + c]));
        i += 1;
    }
    v
}

/// A channel that is moved towards its surroundings.
pub open spec fn softer(b: u8, v: Signed, lo: Signed, soft: u8) -> u8 {
    if soft == 0 {
        b
    } else {
        let k = crate::held::over(Signed::part(soft as int, 1), Signed::part(255, 1));
        shade(
            crate::held::plus(
                lo,
                crate::held::times(
                    crate::held::minus(v, lo),
                    crate::held::minus(Signed::part(1, 1), k),
                ),
            ),
        )
    }
}

fn softer_of(b: u8, v: Signed, lo: Signed, soft: u8) -> (r: u8)
    requires
        crate::held::fits(v),
        crate::held::fits(lo),
    ensures
        r == softer(b, v, lo, soft),
{
    if soft == 0 {
        b
    } else {
        let k = tone_of(soft);
        shade_of(add_to(lo, scale_by(take_from(v, lo), take_from(Signed::of(1, 1), k))))
    }
}

/// The bytes of a photo whose skin has been smoothed.
pub open spec fn smoother(
    p: crate::raster::Picture,
    skin: crate::maps::Chart,
    amount: Signed,
) -> Seq<u8> {
    let n = p.w * p.h;
    let r = crate::enhance::radius(crate::signed::max_of(p.w, p.h), 260, 1, 90);
    let soft = softnesses(p, skin, amount, r);
    Seq::new(
        p.d.len(),
        |j: int|
            {
                let v = plane(p.d, n, j % 3);
                softer(
                    p.d[j],
                    v[j / 3],
                    crate::maps::blurred(v, p.w, p.h, r)[j / 3],
                    soft[j / 3],
                )
            },
    )
}

/// Smooths the skin in a photo (see [`smoother`]).
pub fn smooth_skin(img: &mut Raster, skin: &Mask, amount: Signed)
    requires
        crate::subject::is_photo(old(img)@),
        skin@.wf(),
        crate::held::fits(amount),
    ensures
        final(img)@.w == old(img)@.w,
        final(img)@.h == old(img)@.h,
        final(img)@.d == smoother(old(img)@, skin@, amount),
        final(img)@.wf(),
{
    let ghost before = img@;
    let w: usize = img.w;
    let h: usize = img.h;
    let len: usize = img.d.len();
    let r: usize = radius_of(longer_of(w, h), 260, 1, 90);
    let soft = softnesses_of(img, skin, amount, r);
    let red = plane_of(img, 0);
    let green = plane_of(img, 1);
    let blue = plane_of(img, 2);
    let low_red = blur(&red, w, h, r);
    let low_green = blur(&green, w, h, r);
    let low_blue = blur(&blue, w, h, r);
    let mut d: Vec<u8> = Vec::new();
    let mut j: usize = 0;
    while j < len
        invariant
            j <= len == before.d.len() == img.d@.len(),
            len == before.w * before.h * 3,
            img@ == before,
            red@ == plane(before.d, before.w * before.h, 0),
            green@ == plane(before.d, before.w * before.h, 1),
            blue@ == plane(before.d, before.w * before.h, 2),
            low_red@ == crate::maps::blurred(red@, before.w, before.h, r as int),
            low_green@ == crate::maps::blurred(green@, before.w, before.h, r as int),
            low_blue@ == crate::maps::blurred(blue@, before.w, before.h, r as int),
            low_red@.len() == low_green@.len() == low_blue@.len() == before.w * before.h,
            crate::maps::is_map(red@),
            crate::maps::is_map(green@),
            crate::maps::is_map(blue@),
            crate::maps::is_map(low_red@),
            crate::maps::is_map(low_green@),
            crate::maps::is_map(low_blue@),
            r == crate::enhance::radius(crate::signed::max_of(before.w, before.h), 260, 1, 90),
            soft@ == softnesses(before, skin@, amount, r as int),
            d@.len() == j,
            forall|i: int| 0 <= i < j ==> #[trigger] d@[i] == smoother(before, skin@, amount)[i],
        decreases len - j,
    {
        let i: usize = j / 3;
        let c: usize = j % 3;
        let b: u8 = img.d[j];
        if c == 0 {
            d.push(softer_of(b, red[i], low_red[i], soft[i]));
        } else if c == 1 {
            d.push(softer_of(b, green[i], low_green[i], soft[i]));
        } else {
            d.push(softer_of(b, blue[i], low_blue[i], soft[i]));
        }
        j += 1;
    }
    assert(d@ =~= smoother(before, skin@, amount));
    img.d = d;
}

/// A percentage as a number.
pub open spec fn percent(n: int) -> Signed {
    crate::held::over(Signed::part(n, 1), Signed::part(100, 1))
}

fn percent_of(n: i32) -> (v: Signed)
    requires
        n >= 0,
    ensures
        v == percent(n as int),
        crate::held::fits(v),
{
    divide_by(whole(n as u64), whole(100))
}

/// Nothing is done to a photo: nothing is asked for, or it is too small.
pub open spec fn is_left(p: crate::raster::Picture, l: Local) -> bool {
    (l.subject <= 0 && l.skin <= 0) || p.w < RETOUCHED_SHORT || p.h < RETOUCHED_SHORT
}

/// A photo whose skin has been smoothed where that is asked for and there is enough of it.
pub open spec fn with_skin(
    p: crate::raster::Picture,
    skin: crate::maps::Chart,
    l: Local,
) -> crate::raster::Picture {
    if l.skin > 0 && crate::measure::shows_skin(crate::maps::cover(skin.d)) {
        crate::raster::Picture { d: smoother(p, skin, percent(l.skin as int)), ..p }
    } else {
        p
    }
}

/// `q` is the photo `p` after retouching.
pub open spec fn is_retouched(
    p: crate::raster::Picture,
    q: crate::raster::Picture,
    preset: Preset,
    l: Local,
    small: crate::raster::Picture,
) -> bool {
    let skin = crate::subject::skin(small);
    let smooth = with_skin(p, skin, l);
    if l.subject > 0 {
        is_sharper(
            smooth,
            q,
            crate::subject::subject(small, preset, skin),
            skin,
            preset == Preset::Portrait,
            percent(l.subject as int),
        )
    } else {
        q == smooth
    }
}

/// Retouches a photo as it is asked for. Says whether that could be done; where the photo cannot be
/// brought down to the size at which its subject is looked for, it stays as it is.
pub fn apply_local(img: &mut Raster, preset: Preset, l: Local) -> (done: bool)
    requires
        old(img)@.wf(),
        old(img).w <= crate::spread::longest(),
        old(img).h <= crate::spread::longest(),
        old(img)@.w * old(img)@.h * 3 <= isize::MAX,
    ensures
        final(img)@.wf(),
        is_left(old(img)@, l) ==> done && final(img)@ == old(img)@,
        !is_left(old(img)@, l) ==> match crate::resample::shrunk(
            old(img)@,
            crate::enhance::MASK_LONG_EDGE as int,
        ) {
            Some(small) => done && is_retouched(old(img)@, final(img)@, preset, l, small),
            None => !done && final(img)@ == old(img)@,
        },
{
    if l.is_none() || img.w < RETOUCHED_SHORT || img.h < RETOUCHED_SHORT {
        return true;
    }
    match mask_photo(img) {
        Some(small) => {
            let skin = skin_mask(&small);
            if l.skin > 0 && !cover_of(&skin.d).less(Signed::of(12, 1000)) {
                smooth_skin(img, &skin, percent_of(l.skin));
            }
            if l.subject > 0 {
                let mask = subject_mask_of(&small, preset, &skin);
                sharpen_subject(
                    img,
                    &mask,
                    &skin,
                    preset == Preset::Portrait,
                    percent_of(l.subject),
                );
            }
            true
        },
        None => false,
    }
}

/// A channel of the photo that shows subject and skin: what is neither is dark and cold, skin is warm.
pub open spec fn marked(b: u8, m: Signed, s: Signed, cold: Signed, warm: Signed) -> u8 {
    let dim = crate::held::plus(
        Signed::part(30, 100),
        crate::held::times(Signed::part(70, 100), m.larger(s)),
    );
    let tint = crate::held::plus(cold, crate::held::times(crate::held::minus(warm, cold), s));
    shade(
        crate::held::times(
            crate::held::times(
                crate::held::over(Signed::part(b as int, 1), Signed::part(255, 1)),
                dim,
            ),
            crate::held::plus(
                m,
                crate::held::times(crate::held::minus(Signed::part(1, 1), m), tint),
            ),
        ),
    )
}

fn marked_of(b: u8, m: Signed, s: Signed, cold: Signed, warm: Signed) -> (r: u8)
    requires
        crate::held::fits(m),
        crate::held::fits(s),
        crate::held::fits(cold),
        crate::held::fits(warm),
    ensures
        r == marked(b, m, s, cold, warm),
{
    let dim = add_to(Signed::of(30, 100), scale_by(Signed::of(70, 100), m.max(s)));
    let tint = add_to(cold, scale_by(take_from(warm, cold), s));
    shade_of(
        scale_by(
            scale_by(tone_of(b), dim),
            add_to(m, scale_by(take_from(Signed::of(1, 1), m), tint)),
        ),
    )
}

/// The colour of what is neither subject nor skin, channel by channel.
pub open spec fn cold(c: int) -> Signed {
    if c == 0 {
        Signed::part(35, 100)
    } else if c == 1 {
        Signed::part(55, 100)
    } else {
        Signed::part(1, 1)
    }
}

/// The colour of skin, channel by channel.
pub open spec fn warm(c: int) -> Signed {
    if c == 0 {
        Signed::part(1, 1)
    } else if c == 1 {
        Signed::part(45, 100)
    } else {
        Signed::part(62, 100)
    }
}

/// Byte `j` of the photo that shows subject and skin.
pub open spec fn mark(
    p: crate::raster::Picture,
    mask: crate::maps::Chart,
    skin: crate::maps::Chart,
    j: int,
) -> u8 {
    let x = (j / 3) % p.w;
    let y = (j / 3) / p.w;
    marked(
        p.d[j],
        crate::maps::told(mask, x, y, p.w, p.h),
        crate::maps::told(skin, x, y, p.w, p.h),
        cold(j % 3),
        warm(j % 3),
    )
}

fn mark_all(img: &Raster, mask: &Mask, skin: &Mask) -> (d: Vec<u8>)
    requires
        crate::subject::is_photo(img@),
        mask@.wf(),
        skin@.wf(),
    ensures
        d@.len() == img@.d.len(),
        forall|j: int| 0 <= j < d@.len() ==> #[trigger] d@[j] == mark(img@, mask@, skin@, j),
{
    let w: usize = img.w;
    let h: usize = img.h;
    let len: usize = img.d.len();
    let mut d: Vec<u8> = Vec::new();
    let mut i: usize = 0;
    while i < len / 3
        invariant
            crate::subject::is_photo(img@),
            w == img.w,
            h == img.h,
            len == img.d@.len() == img@.w * img@.h * 3,
            i <= len / 3,
            mask@.wf(),
            skin@.wf(),
            d@.len() == i * 3,
            forall|j: int| 0 <= j < d@.len() ==> #[trigger] d@[j] == mark(img@, mask@, skin@, j),
        decreases len / 3 - i,
    {
        proof {
            crate::grid::lemma_cell_split(i as int, img@.w, img@.h);
        }
        let m = mask.tell(i % w, i / w, w, h);
        let s = skin.tell(i % w, i / w, w, h);
        d.push(marked_of(img.d[i * 3], m, s, Signed::of(35, 100), Signed::of(1, 1)));
        d.push(marked_of(img.d[i * 3 + 1], m, s, Signed::of(55, 100), Signed::of(45, 100)));
        d.push(marked_of(img.d[i * 3 + 2], m, s, Signed::of(1, 1), Signed::of(62, 100)));
        i += 1;
    }
    d
}

/// The photo with its subject and skin shown; none where it cannot be brought down to the size at which
/// its subject is looked for.
pub fn mask_overlay(img: &Raster, preset: Preset) -> (out: Option<Raster>)
    requires
        img@.wf(),
        img.w <= crate::spread::longest(),
        img.h <= crate::spread::longest(),
        img@.w * img@.h * 3 <= isize::MAX,
    ensures
        img.w == 0 || img.h == 0 ==> out is Some && out->0@ == img@,
        img.w > 0 && img.h > 0 ==> (out is Some <==> crate::resample::shrunk(
            img@,
            crate::enhance::MASK_LONG_EDGE as int,
        ) is Some),
        img.w > 0 && img.h > 0 && out is Some ==> {
            let small = crate::resample::shrunk(img@, crate::enhance::MASK_LONG_EDGE as int)->0;
            let skin = crate::subject::skin(small);
            let q = out->0@;
            &&& q.wf()
            &&& q.w == img@.w
            &&& q.h == img@.h
            &&& forall|j: int|
                0 <= j < q.d.len() ==> #[trigger] q.d[j] == mark(
                    img@,
                    crate::subject::subject(small, preset, skin),
                    skin,
                    j,
                )
        },
{
    if img.w == 0 || img.h == 0 {
        return Some(copy(img));
    }
    match mask_photo(img) {
        Some(small) => {
            let skin = skin_mask(&small);
            let mask = subject_mask_of(&small, preset, &skin);
            let d = mark_all(img, &mask, &skin);
            Some(Raster { w: img.w, h: img.h, d })
        },
        None => None,
    }
}

} // verus!
