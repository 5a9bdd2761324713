//! Where a photo shows skin, and where its subject is.

use vstd::prelude::*;

use crate::enhance::{keep_main_blobs, off_subject_share, Ladder, Preset};
use crate::held::{add_to, divide_by, root_of, scale_by, take_from, whole};
use crate::maps::{blur, ease_between, lights_of, reach_of, tone_of, Mask};
use crate::raster::Raster;
use crate::signed::Signed;
use crate::single::{ratio, Single};

verus! {

/// A photo that maps can be made of: it has pixels, and its bytes can be addressed.
pub open spec fn is_photo(p: crate::raster::Picture) -> bool {
    &&& p.wf()
    &&& 0 < p.w <= crate::spread::longest()
    &&& 0 < p.h <= crate::spread::longest()
    &&& p.w * p.h * 3 <= isize::MAX
}

/// A copy of a photo on which pixels are counted: no side has more than 20 bits, and the pixels can be
/// counted in 32.
pub open spec fn is_copy(p: crate::raster::Picture) -> bool {
    &&& p.wf()
    &&& 0 < p.w <= 0x10_0000
    &&& 0 < p.h <= 0x10_0000
    &&& p.w * p.h < u32::MAX
}

/// How far `v` lies between two edges: it comes in from `a` to `b` and goes out from `c` to `d`.
pub open spec fn band(a: Signed, b: Signed, c: Signed, d: Signed, v: Signed) -> Signed {
    crate::held::times(
        crate::maps::eased(a, b, v),
        crate::held::minus(Signed::part(1, 1), crate::maps::eased(c, d, v)),
    )
}

fn band_of(a: Signed, b: Signed, c: Signed, d: Signed, v: Signed) -> (r: Signed)
    requires
        crate::held::fits(a),
        crate::held::fits(b),
        crate::held::fits(c),
        crate::held::fits(d),
        crate::held::fits(v),
    ensures
        r == band(a, b, c, d, v),
        crate::held::fits(r),
{
    scale_by(ease_between(a, b, v), take_from(Signed::of(1, 1), ease_between(c, d, v)))
}

/// The brightness of a colour.
pub open spec fn luma(r: Signed, g: Signed, b: Signed) -> Signed {
    crate::held::plus(
        crate::held::plus(
            crate::held::times(Signed::part(299, 1000), r),
            crate::held::times(Signed::part(587, 1000), g),
        ),
        crate::held::times(Signed::part(114, 1000), b),
    )
}

/// The blue difference of a colour.
pub open spec fn blueness(r: Signed, g: Signed, b: Signed) -> Signed {
    crate::held::plus(
        crate::held::minus(
            crate::held::minus(
                Signed::part(128, 1),
                crate::held::times(Signed::part(168_736, 1_000_000), r),
            ),
            crate::held::times(Signed::part(331_264, 1_000_000), g),
        ),
        crate::held::times(Signed::part(1, 2), b),
    )
}

/// The red difference of a colour.
pub open spec fn redness(r: Signed, g: Signed, b: Signed) -> Signed {
    crate::held::minus(
        crate::held::minus(
            crate::held::plus(Signed::part(128, 1), crate::held::times(Signed::part(1, 2), r)),
            crate::held::times(Signed::part(418_688, 1_000_000), g),
        ),
        crate::held::times(Signed::part(81_312, 1_000_000), b),
    )
}

/// The largest and the smallest of three bytes.
pub open spec fn extremes(r: u8, g: u8, b: u8) -> (int, int) {
    (
        crate::signed::max_of(crate::signed::max_of(r as int, g as int), b as int),
        crate::signed::min_of(crate::signed::min_of(r as int, g as int), b as int),
    )
}

/// How strong a colour is.
pub open spec fn vividness(r: u8, g: u8, b: u8) -> Signed {
    let (mx, mn) = extremes(r, g, b);
    if mx > 1 {
        crate::held::over(
            crate::held::minus(Signed::part(mx, 1), Signed::part(mn, 1)),
            Signed::part(mx, 1),
        )
    } else {
        Signed::part(0, 1)
    }
}

/// How far red leads green, and green leads blue.
pub open spec fn warmth(r: Signed, g: Signed, b: Signed) -> Signed {
    crate::held::times(
        crate::maps::eased(Signed::part(4, 1), Signed::part(16, 1), crate::held::minus(r, g)),
        crate::maps::eased(Signed::part(0, 1), Signed::part(10, 1), crate::held::minus(g, b)),
    )
}

/// How much a colour looks like skin.
pub open spec fn skin_like(r8: u8, g8: u8, b8: u8) -> Signed {
    let (r, g, b) = (Signed::part(r8 as int, 1), Signed::part(g8 as int, 1), Signed::part(b8 as int, 1));
    let wy = band(
        Signed::part(45, 1),
        Signed::part(75, 1),
        Signed::part(238, 1),
        Signed::part(252, 1),
        luma(r, g, b),
    );
    let wcb = band(
        Signed::part(72, 1),
        Signed::part(84, 1),
        Signed::part(120, 1),
        Signed::part(132, 1),
        blueness(r, g, b),
    );
    let wcr = band(
        Signed::part(128, 1),
        Signed::part(138, 1),
        Signed::part(168, 1),
        Signed::part(178, 1),
        redness(r, g, b),
    );
    let wsat = band(
        Signed::part(12, 100),
        Signed::part(20, 100),
        Signed::part(42, 100),
        Signed::part(60, 100),
        vividness(r8, g8, b8),
    );
    crate::held::times(
        crate::held::times(
            crate::held::times(crate::held::times(wy, wcb), wcr),
            warmth(r, g, b),
        ),
        wsat,
    )
}

fn luma_of(r: Signed, g: Signed, b: Signed) -> (y: Signed)
    requires
        crate::held::fits(r),
        crate::held::fits(g),
        crate::held::fits(b),
    ensures
        y == luma(r, g, b),
        crate::held::fits(y),
{
    add_to(
        add_to(scale_by(Signed::of(299, 1000), r), scale_by(Signed::of(587, 1000), g)),
        scale_by(Signed::of(114, 1000), b),
    )
}

fn blueness_of(r: Signed, g: Signed, b: Signed) -> (v: Signed)
    requires
        crate::held::fits(r),
        crate::held::fits(g),
        crate::held::fits(b),
    ensures
        v == blueness(r, g, b),
        crate::held::fits(v),
{
    add_to(
        take_from(
            take_from(Signed::of(128, 1), scale_by(Signed::of(168_736, 1_000_000), r)),
            scale_by(Signed::of(331_264, 1_000_000), g),
        ),
        scale_by(Signed::of(1, 2), b),
    )
}

fn redness_of(r: Signed, g: Signed, b: Signed) -> (v: Signed)
    requires
        crate::held::fits(r),
        crate::held::fits(g),
        crate::held::fits(b),
    ensures
        v == redness(r, g, b),
        crate::held::fits(v),
{
    take_from(
        take_from(
            add_to(Signed::of(128, 1), scale_by(Signed::of(1, 2), r)),
            scale_by(Signed::of(418_688, 1_000_000), g),
        ),
        scale_by(Signed::of(81_312, 1_000_000), b),
    )
}

/// The largest and the smallest of three bytes (see [`extremes`]).
pub fn extremes_of(r: u8, g: u8, b: u8) -> (e: (u8, u8))
    ensures
        (e.0 as int, e.1 as int) == extremes(r, g, b),
{
    let a: u8 = if r < g {
        g
    } else {
        r
    };
    let c: u8 = if r < g {
        r
    } else {
        g
    };
    let mx: u8 = if a < b {
        b
    } else {
        a
    };
    let mn: u8 = if b < c {
        b
    } else {
        c
    };
    (mx, mn)
}

fn vividness_of(r: u8, g: u8, b: u8) -> (v: Signed)
    ensures
        v == vividness(r, g, b),
        crate::held::fits(v),
{
    let (mx, mn) = extremes_of(r, g, b);
    if mx > 1 {
        let top = whole(mx as u64);
        divide_by(take_from(top, whole(mn as u64)), top)
    } else {
        Signed::zero()
    }
}

fn warmth_of(r: Signed, g: Signed, b: Signed) -> (v: Signed)
    requires
        crate::held::fits(r),
        crate::held::fits(g),
        crate::held::fits(b),
    ensures
        v == warmth(r, g, b),
        crate::held::fits(v),
{
    scale_by(
        ease_between(Signed::of(4, 1), Signed::of(16, 1), take_from(r, g)),
        ease_between(Signed::zero(), Signed::of(10, 1), take_from(g, b)),
    )
}

/// How much a colour looks like skin (see [`skin_like`]).
pub fn skin_like_of(r8: u8, g8: u8, b8: u8) -> (v: Signed)
    ensures
        v == skin_like(r8, g8, b8),
        crate::held::fits(v),
{
    let r = whole(r8 as u64);
    let g = whole(g8 as u64);
    let b = whole(b8 as u64);
    let wy = band_of(
        Signed::of(45, 1),
        Signed::of(75, 1),
        Signed::of(238, 1),
        Signed::of(252, 1),
        luma_of(r, g, b),
    );
    let wcb = band_of(
        Signed::of(72, 1),
        Signed::of(84, 1),
        Signed::of(120, 1),
        Signed::of(132, 1),
        blueness_of(r, g, b),
    );
    let wcr = band_of(
        Signed::of(128, 1),
        Signed::of(138, 1),
        Signed::of(168, 1),
        Signed::of(178, 1),
        redness_of(r, g, b),
    );
    let wsat = band_of(
        Signed::of(12, 100),
        Signed::of(20, 100),
        Signed::of(42, 100),
        Signed::of(60, 100),
        vividness_of(r8, g8, b8),
    );
    scale_by(scale_by(scale_by(scale_by(wy, wcb), wcr), warmth_of(r, g, b)), wsat)
}

/// How much the pixels of a photo look like skin.
pub open spec fn skin_tones(d: Seq<u8>, n: int) -> Seq<Signed> {
    Seq::new(n as nat, |i: int| skin_like(d[i * 3], d[i * 3 + 1], d[i * 3 + 2]))
}

/// A map whose numbers have come from `lo` to `hi`.
pub open spec fn eased_map(v: Seq<Signed>, lo: Signed, hi: Signed) -> Seq<Signed> {
    Seq::new(v.len(), |i: int| crate::maps::eased(lo, hi, v[i]))
}

/// Where a map is at least half on.
pub open spec fn half_on(v: Seq<Signed>) -> Seq<bool> {
    Seq::new(v.len(), |i: int| !v[i].lies_below(Signed::part(1, 2)))
}

/// A map whose small blobs are faded.
pub open spec fn faded(v: Seq<Signed>, w: int, rel: int, floor: int) -> Seq<Signed> {
    Seq::new(
        v.len(),
        |i: int|
            if crate::enhance::is_faded(half_on(v), w, rel, floor, i) {
                crate::held::times(v[i], Signed::part(15, 100))
            } else {
                v[i]
            },
    )
}

/// Where a photo shows skin.
pub open spec fn skin(p: crate::raster::Picture) -> crate::maps::Chart {
    let soft = crate::maps::blurred(
        skin_tones(p.d, p.w * p.h),
        p.w,
        p.h,
        crate::maps::reach(p.w, p.h, 60, 1),
    );
    crate::maps::Chart {
        d: faded(eased_map(soft, Signed::part(12, 100), Signed::part(45, 100)), p.w, 0, 1),
        w: p.w,
        h: p.h,
    }
}

fn skin_tones_of(img: &Raster) -> (v: Vec<Signed>)
    requires
        img@.wf(),
    ensures
        v@ == skin_tones(img@.d, img@.w * img@.h),
        crate::maps::is_map(v@),
{
    let len: usize = img.d.len();
    let ghost n = img@.w * img@.h;
    let mut v: Vec<Signed> = Vec::new();
    let mut i: usize = 0;
    while i < len / 3
        invariant
            len == img.d@.len() == n * 3,
            i <= len / 3 == n,
            v@.len() == i,
            forall|j: int| 0 <= j < i ==> #[trigger] v@[j] == skin_tones(img.d@, n)[j],
            crate::maps::is_map(v@),
        decreases len / 3 - i,
    {
        v.push(skin_like_of(img.d[i * 3], img.d[i * 3 + 1], img.d[i * 3 + 2]));
        i += 1;
    }
    v
}

fn ease_map(v: &Vec<Signed>, lo: Signed, hi: Signed) -> (out: Vec<Signed>)
    requires
        crate::maps::is_map(v@),
        crate::held::fits(lo),
        crate::held::fits(hi),
    ensures
        out@ == eased_map(v@, lo, hi),
        crate::maps::is_map(out@),
{
    let n: usize = v.len();
    let mut out: Vec<Signed> = Vec::new();
    let mut i: usize = 0;
    while i < n
        invariant
            i <= n == v@.len(),
            crate::maps::is_map(v@),
            crate::held::fits(lo),
            crate::held::fits(hi),
            out@.len() == i,
            forall|j: int| 0 <= j < i ==> #[trigger] out@[j] == eased_map(v@, lo, hi)[j],
            crate::maps::is_map(out@),
        decreases n - i,
    {
        out.push(ease_between(lo, hi, v[i]));
        i += 1;
    }
    out
}

fn fade_small_blobs(v: &Vec<Signed>, w: usize, h: usize, rel: u64, floor: u64) -> (out: Vec<Signed>)
    requires
        0 < w,
        0 < h,
        v@.len() == w * h,
        v@.len() < u32::MAX,
        crate::maps::is_map(v@),
        rel <= 1000,
        floor <= 1000,
    ensures
        out@ == faded(v@, w as int, rel as int, floor as int),
        crate::maps::is_map(out@),
{
    let n: usize = v.len();
    let half = Signed::of(1, 2);
    let mut on: Vec<bool> = Vec::new();
    let mut i: usize = 0;
    while i < n
        invariant
            i <= n == v@.len(),
            crate::maps::is_map(v@),
            crate::held::fits(half),
            half == Signed::part(1, 2),
            on@.len() == i,
            forall|j: int| 0 <= j < i ==> #[trigger] on@[j] == half_on(v@)[j],
        decreases n - i,
    {
        on.push(!v[i].less(half));
        i += 1;
    }
    assert(on@ =~= half_on(v@));
    let fade = keep_main_blobs(&on, w, h, rel, floor);
    let mut out: Vec<Signed> = Vec::new();
    let mut i: usize = 0;
    while i < n
        invariant
            i <= n == v@.len() == fade@.len(),
            crate::maps::is_map(v@),
            forall|j: int|
                0 <= j < n ==> #[trigger] fade@[j] == crate::enhance::is_faded(
                    half_on(v@),
                    w as int,
                    rel as int,
                    floor as int,
                    j,
                ),
            out@.len() == i,
            forall|j: int|
                0 <= j < i ==> #[trigger] out@[j] == faded(
                    v@,
                    w as int,
                    rel as int,
                    floor as int,
                )[j],
            crate::maps::is_map(out@),
        decreases n - i,
    {
        if fade[i] {
            out.push(scale_by(v[i], Signed::of(15, 100)));
        } else {
            out.push(v[i]);
        }
        i += 1;
    }
    out
}

/// Where a photo shows skin (see [`skin`]).
pub fn skin_mask(img: &Raster) -> (m: Mask)
    requires
        is_copy(img@),
    ensures
        m@ == skin(img@),
        m@.wf(),
{
    let tones = skin_tones_of(img);
    let soft = blur(&tones, img.w, img.h, reach_of(img.w, img.h, 60, 1));
    let eased = ease_map(&soft, Signed::of(12, 100), Signed::of(45, 100));
    let d = fade_small_blobs(&eased, img.w, img.h, 0, 1);
    Mask { d, w: img.w, h: img.h }
}

/// How far apart two maps are.
pub open spec fn apart(a: Seq<Signed>, b: Seq<Signed>) -> Seq<Signed> {
    Seq::new(a.len(), |i: int| crate::held::minus(a[i], b[i]).size_of())
}

/// How far apart two maps are (see [`apart`]).
pub fn apart_of(a: &Vec<Signed>, b: &Vec<Signed>) -> (out: Vec<Signed>)
    requires
        a@.len() == b@.len(),
        crate::maps::is_map(a@),
        crate::maps::is_map(b@),
    ensures
        out@ == apart(a@, b@),
        crate::maps::is_map(out@),
{
    let n: usize = a.len();
    let mut out: Vec<Signed> = Vec::new();
    let mut i: usize = 0;
    while i < n
        invariant
            i <= n == a@.len() == b@.len(),
            crate::maps::is_map(a@),
            crate::maps::is_map(b@),
            out@.len() == i,
            forall|j: int| 0 <= j < i ==> #[trigger] out@[j] == apart(a@, b@)[j],
            crate::maps::is_map(out@),
        decreases n - i,
    {
        let d = take_from(a[i], b[i]);
        out.push(Signed { neg: false, size: d.size });
        i += 1;
    }
    out
}

/// How far red leads green.
pub open spec fn red_leads(d: Seq<u8>, n: int) -> Seq<Signed> {
    Seq::new(
        n as nat,
        |i: int| crate::held::minus(crate::maps::tone(d, i, 0), crate::maps::tone(d, i, 1)),
    )
}

/// How far yellow leads blue.
pub open spec fn yellow_leads(d: Seq<u8>, n: int) -> Seq<Signed> {
    Seq::new(
        n as nat,
        |i: int|
            crate::held::minus(
                crate::held::over(
                    crate::held::plus(crate::maps::tone(d, i, 0), crate::maps::tone(d, i, 1)),
                    Signed::part(2, 1),
                ),
                crate::maps::tone(d, i, 2),
            ),
    )
}

fn colours_of(img: &Raster) -> (out: (Vec<Signed>, Vec<Signed>))
    requires
        img@.wf(),
    ensures
        out.0@ == red_leads(img@.d, img@.w * img@.h),
        out.1@ == yellow_leads(img@.d, img@.w * img@.h),
        crate::maps::is_map(out.0@),
        crate::maps::is_map(out.1@),
{
    let len: usize = img.d.len();
    let ghost n = img@.w * img@.h;
    let mut a: Vec<Signed> = Vec::new();
    let mut b: Vec<Signed> = Vec::new();
    let mut i: usize = 0;
    while i < len / 3
        invariant
            len == img.d@.len() == n * 3,
            i <= len / 3 == n,
            a@.len() == i,
            b@.len() == i,
            forall|j: int| 0 <= j < i ==> #[trigger] a@[j] == red_leads(img.d@, n)[j],
            forall|j: int| 0 <= j < i ==> #[trigger] b@[j] == yellow_leads(img.d@, n)[j],
            crate::maps::is_map(a@),
            crate::maps::is_map(b@),
        decreases len / 3 - i,
    {
        let red = tone_of(img.d[i * 3]);
        let green = tone_of(img.d[i * 3 + 1]);
        let blue = tone_of(img.d[i * 3 + 2]);
        a.push(take_from(red, green));
        b.push(take_from(divide_by(add_to(red, green), Signed::of(2, 1)), blue));
        i += 1;
    }
    (a, b)
}

/// The length of `(a, b)`.
pub open spec fn length(a: Signed, b: Signed) -> Signed {
    crate::held::root(crate::held::plus(crate::held::times(a, a), crate::held::times(b, b)))
}

fn length_of(a: Signed, b: Signed) -> (r: Signed)
    requires
        crate::held::fits(a),
        crate::held::fits(b),
    ensures
        r == length(a, b),
        crate::held::fits(r),
{
    root_of(add_to(scale_by(a, a), scale_by(b, b)))
}

/// How far each pixel stands out from its wider surroundings, in brightness and in colour.
pub open spec fn contrasts(
    y: Seq<Signed>,
    wide_y: Seq<Signed>,
    rg: Seq<Signed>,
    wide_rg: Seq<Signed>,
    yb: Seq<Signed>,
    wide_yb: Seq<Signed>,
) -> Seq<Signed> {
    Seq::new(
        y.len(),
        |i: int|
            crate::held::plus(
                crate::held::minus(y[i], wide_y[i]).size_of(),
                length(
                    crate::held::minus(rg[i], wide_rg[i]),
                    crate::held::minus(yb[i], wide_yb[i]),
                ),
            ),
    )
}

fn contrasts_of(
    y: &Vec<Signed>,
    wide_y: &Vec<Signed>,
    rg: &Vec<Signed>,
    wide_rg: &Vec<Signed>,
    yb: &Vec<Signed>,
    wide_yb: &Vec<Signed>,
) -> (out: Vec<Signed>)
    requires
        y@.len() == wide_y@.len() == rg@.len() == wide_rg@.len() == yb@.len() == wide_yb@.len(),
        crate::maps::is_map(y@),
        crate::maps::is_map(wide_y@),
        crate::maps::is_map(rg@),
        crate::maps::is_map(wide_rg@),
        crate::maps::is_map(yb@),
        crate::maps::is_map(wide_yb@),
    ensures
        out@ == contrasts(y@, wide_y@, rg@, wide_rg@, yb@, wide_yb@),
        crate::maps::is_map(out@),
{
    let n: usize = y.len();
    let mut out: Vec<Signed> = Vec::new();
    let mut i: usize = 0;
    while i < n
        invariant
            i <= n,
            n == y@.len() == wide_y@.len() == rg@.len() == wide_rg@.len() == yb@.len()
                == wide_yb@.len(),
            crate::maps::is_map(y@),
            crate::maps::is_map(wide_y@),
            crate::maps::is_map(rg@),
            crate::maps::is_map(wide_rg@),
            crate::maps::is_map(yb@),
            crate::maps::is_map(wide_yb@),
            out@.len() == i,
            forall|j: int|
                0 <= j < i ==> #[trigger] out@[j] == contrasts(
                    y@,
                    wide_y@,
                    rg@,
                    wide_rg@,
                    yb@,
                    wide_yb@,
                )[j],
            crate::maps::is_map(out@),
        decreases n - i,
    {
        let dy = take_from(y[i], wide_y[i]);
        let dc = length_of(take_from(rg[i], wide_rg[i]), take_from(yb[i], wide_yb[i]));
        out.push(add_to(Signed { neg: false, size: dy.size }, dc));
        i += 1;
    }
    out
}

/// The level of a map that a share of it does not pass.
pub open spec fn level(v: Seq<Signed>, share: Single) -> Signed {
    crate::enhance::in_order(v)[crate::signed::min_of(
        crate::enhance::whole_part(v.len() - 1, share),
        v.len() - 1,
    )]
}

/// The level of a map that a share of it does not pass (see [`level`]).
pub fn level_of(v: &Vec<Signed>, share: Single) -> (r: Signed)
    requires
        0 < v@.len() <= u32::MAX,
        crate::maps::is_map(v@),
        share.wf(),
        -300 <= share.e <= 4,
    ensures
        r == level(v@, share),
        crate::held::fits(r),
{
    let l = Ladder::of(v);
    let r = l.lower(share);
    proof {
        let i = choose|i: int| 0 <= i < l.levels().len() && l.levels()[i] == r;
        assert(v@.contains(l.levels()[i]));
    }
    r
}

/// The numbers of a map as parts of nearly the greatest one, from 0 to 1.
pub open spec fn scaled(v: Seq<Signed>) -> Seq<Signed> {
    let hi = level(v, crate::single::nearest(98, 100)).larger(Signed::part(1, 1_000_000));
    Seq::new(v.len(), |i: int| crate::held::over(v[i], hi).clamped(Signed::part(0, 1), Signed::part(1, 1)))
}

fn scaled_of(v: &Vec<Signed>) -> (out: Vec<Signed>)
    requires
        0 < v@.len() <= u32::MAX,
        crate::maps::is_map(v@),
    ensures
        out@ == scaled(v@),
        crate::maps::is_map(out@),
{
    let n: usize = v.len();
    let hi = level_of(v, ratio(98, 100)).max(Signed::of(1, 1_000_000));
    let zero = Signed::zero();
    let one = Signed::of(1, 1);
    let mut out: Vec<Signed> = Vec::new();
    let mut i: usize = 0;
    while i < n
        invariant
            i <= n == v@.len(),
            crate::maps::is_map(v@),
            crate::held::fits(hi),
            hi == level(v@, crate::single::nearest(98, 100)).larger(Signed::part(1, 1_000_000)),
            zero == Signed::part(0, 1),
            one == Signed::part(1, 1),
            crate::held::fits(zero),
            crate::held::fits(one),
            out@.len() == i,
            forall|j: int| 0 <= j < i ==> #[trigger] out@[j] == scaled(v@)[j],
            crate::maps::is_map(out@),
        decreases n - i,
    {
        out.push(divide_by(v[i], hi).clamp(zero, one));
        i += 1;
    }
    out
}

/// How much pixel `i` counts for lying near the middle.
pub open spec fn central(i: int, w: int, h: int) -> Signed {
    let dx = crate::held::minus(
        crate::held::over(Signed::part(i % w, 1), Signed::part(w, 1)),
        Signed::part(1, 2),
    );
    let dy = crate::held::minus(
        crate::held::over(Signed::part(i / w, 1), Signed::part(h, 1)),
        Signed::part(1, 2),
    );
    let d = crate::held::over(length(dx, dy), Signed::part(707, 1000));
    crate::held::plus(
        Signed::part(86, 100),
        crate::held::times(Signed::part(14, 100), crate::held::minus(Signed::part(1, 1), d)),
    )
}

fn central_of(i: usize, w: usize, h: usize) -> (r: Signed)
    requires
        0 < w,
        0 < h,
    ensures
        r == central(i as int, w as int, h as int),
        crate::held::fits(r),
{
    let half = Signed::of(1, 2);
    let dx = take_from(divide_by(whole((i % w) as u64), whole(w as u64)), half);
    let dy = take_from(divide_by(whole((i / w) as u64), whole(h as u64)), half);
    let d = divide_by(length_of(dx, dy), Signed::of(707, 1000));
    add_to(
        Signed::of(86, 100),
        scale_by(Signed::of(14, 100), take_from(Signed::of(1, 1), d)),
    )
}

/// How much pixel `i` draws the eye, by detail and contrast; on a portrait, skin does too.
pub open spec fn appeal(
    detail: Seq<Signed>,
    contrast: Seq<Signed>,
    w: int,
    h: int,
    preset: Preset,
    skin: crate::maps::Chart,
) -> Seq<Signed> {
    Seq::new(
        detail.len(),
        |i: int|
            {
                let v = crate::held::times(
                    crate::held::plus(
                        crate::held::times(detail[i], Signed::part(60, 100)),
                        crate::held::times(contrast[i], Signed::part(40, 100)),
                    ),
                    central(i, w, h),
                );
                if preset == Preset::Portrait {
                    v.larger(crate::maps::told(skin, i % w, i / w, w, h))
                } else {
                    v
                }
            },
    )
}

fn appeal_of(
    detail: &Vec<Signed>,
    contrast: &Vec<Signed>,
    w: usize,
    h: usize,
    preset: Preset,
    skin: &Mask,
) -> (out: Vec<Signed>)
    requires
        0 < w <= crate::spread::longest(),
        0 < h <= crate::spread::longest(),
        detail@.len() == contrast@.len() == w * h,
        crate::maps::is_map(detail@),
        crate::maps::is_map(contrast@),
        skin@.wf(),
    ensures
        out@ == appeal(detail@, contrast@, w as int, h as int, preset, skin@),
        crate::maps::is_map(out@),
{
    let n: usize = detail.len();
    let mut out: Vec<Signed> = Vec::new();
    let mut i: usize = 0;
    while i < n
        invariant
            0 < w <= crate::spread::longest(),
            0 < h <= crate::spread::longest(),
            i <= n == detail@.len() == contrast@.len() == w * h,
            crate::maps::is_map(detail@),
            crate::maps::is_map(contrast@),
            skin@.wf(),
            out@.len() == i,
            forall|j: int|
                0 <= j < i ==> #[trigger] out@[j] == appeal(
                    detail@,
                    contrast@,
                    w as int,
                    h as int,
                    preset,
                    skin@,
                )[j],
            crate::maps::is_map(out@),
        decreases n - i,
    {
        proof {
            crate::grid::lemma_cell_split(i as int, w as int, h as int);
        }
        let v = scale_by(
            add_to(
                scale_by(detail[i], Signed::of(60, 100)),
                scale_by(contrast[i], Signed::of(40, 100)),
            ),
            central_of(i, w, h),
        );
        if preset == Preset::Portrait {
            out.push(v.max(skin.tell(i % w, i / w, w, h)));
        } else {
            out.push(v);
        }
        i += 1;
    }
    out
}

/// Detail round the pixels of a photo.
pub open spec fn details(y: Seq<Signed>, w: int, h: int) -> Seq<Signed> {
    let fine = crate::maps::blurred(y, w, h, crate::maps::reach(w, h, 128, 1));
    crate::maps::blurred(apart(y, fine), w, h, crate::maps::reach(w, h, 20, 2))
}

/// Contrast round the pixels of a photo.
pub open spec fn surprises(p: crate::raster::Picture) -> Seq<Signed> {
    let y = crate::maps::lights(p.d, p.w * p.h);
    let rg = red_leads(p.d, p.w * p.h);
    let yb = yellow_leads(p.d, p.w * p.h);
    let r = crate::maps::reach(p.w, p.h, 5, 3);
    crate::maps::blurred(
        contrasts(
            y,
            crate::maps::blurred(y, p.w, p.h, r),
            rg,
            crate::maps::blurred(rg, p.w, p.h, r),
            yb,
            crate::maps::blurred(yb, p.w, p.h, r),
        ),
        p.w,
        p.h,
        crate::maps::reach(p.w, p.h, 32, 2),
    )
}

/// The part of a map that stands above a level, without small blobs unless a landscape is shown, with
/// soft edges.
pub open spec fn picked(v: Seq<Signed>, w: int, h: int, preset: Preset) -> Seq<Signed> {
    let at = level(v, crate::enhance::off_subject(preset));
    let m = eased_map(
        v,
        crate::held::times(at, Signed::part(75, 100)),
        crate::held::times(at, Signed::part(115, 100)),
    );
    let kept = if preset == Preset::Landscape {
        m
    } else {
        faded(m, w, 200, 0)
    };
    crate::maps::blurred(kept, w, h, crate::maps::reach(w, h, 40, 2))
}

/// Where the subject of a photo is.
pub open spec fn subject(
    p: crate::raster::Picture,
    preset: Preset,
    skin: crate::maps::Chart,
) -> crate::maps::Chart {
    let v = appeal(
        scaled(details(crate::maps::lights(p.d, p.w * p.h), p.w, p.h)),
        scaled(surprises(p)),
        p.w,
        p.h,
        preset,
        skin,
    );
    crate::maps::Chart { d: picked(v, p.w, p.h, preset), w: p.w, h: p.h }
}

fn details_of(y: &Vec<Signed>, w: usize, h: usize) -> (out: Vec<Signed>)
    requires
        0 < w <= crate::spread::longest(),
        0 < h <= crate::spread::longest(),
        y@.len() == w * h,
        crate::maps::is_map(y@),
    ensures
        out@ == details(y@, w as int, h as int),
        out@.len() == y@.len(),
        crate::maps::is_map(out@),
{
    let fine = blur(y, w, h, reach_of(w, h, 128, 1));
    blur(&apart_of(y, &fine), w, h, reach_of(w, h, 20, 2))
}

fn surprises_of(img: &Raster, y: &Vec<Signed>) -> (out: Vec<Signed>)
    requires
        is_copy(img@),
        y@ == crate::maps::lights(img@.d, img@.w * img@.h),
        crate::maps::is_map(y@),
    ensures
        out@ == surprises(img@),
        out@.len() == y@.len(),
        crate::maps::is_map(out@),
{
    let w: usize = img.w;
    let h: usize = img.h;
    let (rg, yb) = colours_of(img);
    let r: usize = reach_of(w, h, 5, 3);
    let wide_y = blur(y, w, h, r);
    let wide_rg = blur(&rg, w, h, r);
    let wide_yb = blur(&yb, w, h, r);
    let c = contrasts_of(y, &wide_y, &rg, &wide_rg, &yb, &wide_yb);
    blur(&c, w, h, reach_of(w, h, 32, 2))
}

fn picked_of(v: &Vec<Signed>, w: usize, h: usize, preset: Preset) -> (out: Vec<Signed>)
    requires
        0 < w <= crate::spread::longest(),
        0 < h <= crate::spread::longest(),
        0 < v@.len() == w * h,
        v@.len() < u32::MAX,
        crate::maps::is_map(v@),
    ensures
        out@ == picked(v@, w as int, h as int, preset),
        out@.len() == v@.len(),
        crate::maps::is_map(out@),
{
    let at = level_of(v, off_subject_share(preset));
    let m = ease_map(v, scale_by(at, Signed::of(75, 100)), scale_by(at, Signed::of(115, 100)));
    let r: usize = reach_of(w, h, 40, 2);
    if preset == Preset::Landscape {
        blur(&m, w, h, r)
    } else {
        let kept = fade_small_blobs(&m, w, h, 200, 0);
        blur(&kept, w, h, r)
    }
}

/// Where the subject of a photo is (see [`subject`]).
pub fn subject_mask_of(img: &Raster, preset: Preset, skin: &Mask) -> (m: Mask)
    requires
        is_copy(img@),
        skin@.wf(),
    ensures
        m@ == subject(img@, preset, skin@),
        m@.wf(),
{
    let w: usize = img.w;
    let h: usize = img.h;
    let y = lights_of(img);
    proof {
        assert(img@.w * img@.h > 0) by (nonlinear_arith)
            requires
                img@.w > 0,
                img@.h > 0,
        ;
    }
    let detail = scaled_of(&details_of(&y, w, h));
    let contrast = scaled_of(&surprises_of(img, &y));
    let v = appeal_of(&detail, &contrast, w, h, preset, skin);
    Mask { d: picked_of(&v, w, h, preset), w, h }
}

} // verus!
