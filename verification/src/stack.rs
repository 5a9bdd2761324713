//! Stacking photographs of fireworks: one ground picture and layers blended onto it.

use vstd::prelude::*;

use crate::grid;
use crate::haze::Light;
use crate::raster::Raster;
use crate::resample::copy;
use crate::shares::share_of;
use crate::signed::Signed;
use crate::single::{ratio, Single};
use crate::skies::sky_weights;

verus! {

/// How a layer is blended onto what lies below it.
#[derive(Clone, Copy, PartialEq, Eq, Structural, Debug)]
pub enum BlendMode {
    /// The brighter of the two channels stays.
    Lighten,
    /// The light of both adds up.
    Screen,
}

impl BlendMode {
    /// All modes, in the order they are offered.
    pub const ALL: [BlendMode; 2] = [BlendMode::Lighten, BlendMode::Screen];

    /// Name of the mode.
    pub open spec fn label_text(self) -> Seq<char> {
        match self {
            BlendMode::Lighten => "加亮"@,
            BlendMode::Screen => "濾色"@,
        }
    }

    /// Name of the mode.
    pub fn label(self) -> (s: &'static str)
        ensures
            s@ == self.label_text(),
    {
        match self {
            BlendMode::Lighten => "加亮",
            BlendMode::Screen => "濾色",
        }
    }

    /// What the mode does, in a sentence.
    pub open spec fn hint_text(self) -> Seq<char> {
        match self {
            BlendMode::Lighten =>
                "只留比較亮的那一個：地景不會愈疊愈亮，最保險（預設）"@,
            BlendMode::Screen =>
                "兩張的光相加：煙火重疊處更亮、更像重複曝光，但地景與殘煙也會一起變亮"@,
        }
    }

    /// What the mode does, in a sentence.
    pub fn hint(self) -> (s: &'static str)
        ensures
            s@ == self.hint_text(),
    {
        match self {
            BlendMode::Lighten => "只留比較亮的那一個：地景不會愈疊愈亮，最保險（預設）",
            BlendMode::Screen =>
                "兩張的光相加：煙火重疊處更亮、更像重複曝光，但地景與殘煙也會一起變亮",
        }
    }

    /// One channel of the blend.
    pub open spec fn mixed(self, base: u8, top: u8) -> u8 {
        match self {
            BlendMode::Lighten => if base < top {
                top
            } else {
                base
            },
            BlendMode::Screen => (255 - ((255 - base) * (255 - top) + 127) / 255) as u8,
        }
    }

    /// Blends one channel.
    pub fn mix(self, base: u8, top: u8) -> (v: u8)
        ensures
            v == self.mixed(base, top),
            v >= base,
    {
        proof {
            law_mix_never_darkens(self, base, top);
        }
        match self {
            BlendMode::Lighten => if base < top {
                top
            } else {
                base
            },
            BlendMode::Screen => {
                assert((255 - base) * (255 - top) <= 255 * 255) by (nonlinear_arith)
                    requires
                        0 <= 255 - base <= 255,
                        0 <= 255 - top <= 255,
                ;
                assert(0 <= (255 - base) * (255 - top)) by (nonlinear_arith)
                    requires
                        0 <= 255 - base,
                        0 <= 255 - top,
                ;
                let inv: u32 = (255 - base) as u32 * (255 - top) as u32;
                (255 - (inv + 127) / 255) as u8
            },
        }
    }
}

/// Blending never makes a channel darker than either of the two.
pub proof fn law_mix_never_darkens(mode: BlendMode, base: u8, top: u8)
    ensures
        mode.mixed(base, top) >= base,
        mode.mixed(base, top) >= top,
{
    let a = 255 - base;
    let b = 255 - top;
    assert((a * b + 127) / 255 <= a && (a * b + 127) / 255 <= b && (a * b + 127) / 255 >= 0)
        by (nonlinear_arith)
        requires
            0 <= a <= 255,
            0 <= b <= 255,
    ;
}

/// Both modes treat base and layer alike.
pub proof fn law_mix_commutes(mode: BlendMode, base: u8, top: u8)
    ensures
        mode.mixed(base, top) == mode.mixed(top, base),
{
    assert((255 - base) * (255 - top) == (255 - top) * (255 - base)) by (nonlinear_arith);
}

/// A black layer changes nothing, and nothing is brighter than a white one.
pub proof fn law_mix_black_and_white(mode: BlendMode, base: u8)
    ensures
        mode.mixed(base, 0) == base,
        mode.mixed(base, 255) == 255,
{
}

/// Blending by the brighter channel the same layer over and over does not brighten the picture.
pub proof fn law_lighten_does_not_creep(base: u8, top: u8)
    ensures
        BlendMode::Lighten.mixed(BlendMode::Lighten.mixed(base, top), top)
            == BlendMode::Lighten.mixed(base, top),
        BlendMode::Lighten.mixed(base, base) == base,
{
}

/// A brighter base or layer never gives a darker blend.
pub proof fn law_mix_monotone(mode: BlendMode, b0: u8, b1: u8, t0: u8, t1: u8)
    requires
        b0 <= b1,
        t0 <= t1,
    ensures
        mode.mixed(b0, t0) <= mode.mixed(b1, t1),
{
    let p = (255 - b0) * (255 - t0);
    let q = (255 - b1) * (255 - t1);
    assert(0 <= q <= p) by (nonlinear_arith)
        requires
            p == (255 - b0) * (255 - t0),
            q == (255 - b1) * (255 - t1),
            0 <= 255 - b1 <= 255 - b0,
            0 <= 255 - t1 <= 255 - t0,
    ;
    assert(p <= 255 * 255) by (nonlinear_arith)
        requires
            p == (255 - b0) * (255 - t0),
            0 <= 255 - b0 <= 255,
            0 <= 255 - t0 <= 255,
    ;
}

/// One channel after a layer came down on it with weight `k`: a weight of at most 0.002 leaves it
/// alone, one of at least 0.998 blends it in full, and one between moves it that far.
pub open spec fn put(mode: BlendMode, b: u8, t: u8, k: Single) -> u8 {
    let m = mode.mixed(b, t);
    if !crate::single::below(crate::single::nearest(2, 1000), k) {
        b
    } else if !crate::single::below(k, crate::single::nearest(998, 1000)) {
        m
    } else {
        let v = crate::single::round(
            crate::single::total(
                crate::single::nearest(b as int, 1),
                crate::single::product(crate::single::nearest(m - b, 1), k),
            ),
        );
        if v > 255 {
            255
        } else {
            v as u8
        }
    }
}

/// A positive byte has an exponent from -23 to -15.
pub proof fn lemma_byte_exponent(n: int, s: Single)
    requires
        1 <= n <= 255,
        crate::single::is_nearest(n, 1, s),
    ensures
        -23 <= s.e <= -15,
{
    vstd::arithmetic::power2::lemma2_to64();
    assert(crate::single::up(23) == 0x80_0000);
    assert(crate::single::up(16) == 0x1_0000);
    assert(n * crate::single::up(23) == n * 0x80_0000);
    assert(n * crate::single::up(16) == n * 0x1_0000);
    crate::single::lemma_exponent_from(n, 1, s, -23);
    crate::single::lemma_exponent_upto(n, 1, s, -16);
}

/// A layer never makes a channel darker, whatever the weight that it comes down with.
pub proof fn law_put_never_darkens(mode: BlendMode, b: u8, t: u8, k: Single)
    ensures
        put(mode, b, t, k) >= b,
{
    let lo = crate::single::nearest(2, 1000);
    let hi = crate::single::nearest(998, 1000);
    let m = mode.mixed(b, t);
    law_mix_never_darkens(mode, b, t);
    crate::single::lemma_thousandths(2, 1000);
    crate::single::lemma_thousandths(998, 1000);
    vstd::arithmetic::power2::lemma2_to64();
    assert(crate::single::up(32) == 0x1_0000_0000);
    assert(crate::single::up(24) == 0x100_0000);
    crate::single::lemma_exponent_from(2, 1000, lo, -32);
    crate::single::lemma_exponent_upto(998, 1000, hi, -24);
    if crate::single::below(lo, k) && crate::single::below(k, hi) {
        let base = crate::single::nearest(b as int, 1);
        let gain = crate::single::nearest(m - b, 1);
        let p = crate::single::product(gain, k);
        crate::rounding::law_integers_keep_order(b as int, b as int);
        assert(crate::single::is_nearest(0, 1, crate::single::nought()));
        crate::single::law_nearest_unique(0, 1, crate::single::nought());
        if b > 0 {
            crate::single::lemma_small_nearest(b as int);
            lemma_byte_exponent(b as int, base);
            crate::single::law_round_within(base, b as int, base);
        }
        if m > b {
            crate::single::lemma_small_nearest(m - b);
            lemma_byte_exponent(m - b, gain);
            let n = gain.m * k.m;
            crate::single::lemma_up_add(50, 50);
            assert(crate::single::up(50) == 0x4_0000_0000_0000) by {
                vstd::arithmetic::power2::lemma2_to64_rest();
            }
            assert(0 < n < crate::single::up(100)) by (nonlinear_arith)
                requires
                    n == gain.m * k.m,
                    0 < gain.m < 0x100_0000,
                    0 < k.m <= 0xFFFF_FFFF_FFFF_FFFF,
                    crate::single::up(100) == 0x4_0000_0000_0000 * 0x4_0000_0000_0000,
            ;
            crate::rounding::lemma_has_nearest(n, 100);
        } else {
            assert(0 * k.m == 0);
            assert(gain.m * k.m == 0) by (nonlinear_arith)
                requires
                    gain.m == 0,
            ;
        }
        if b > 0 {
            crate::rounding::law_sum_grows(base, p);
            crate::rounding::law_rounding_keeps_order(base, crate::single::total(base, p));
        } else {
            crate::rounding::law_rounding_keeps_order(p, p);
        }
    }
}

/// Lets a layer's channel come down on a channel with weight `k`.
fn put_channel(mode: BlendMode, b: u8, t: u8, k: Single) -> (v: u8)
    requires
        k.wf(),
    ensures
        v == put(mode, b, t, k),
{
    let lo = ratio(2, 1000);
    if !lo.less(k) {
        return b;
    }
    let m: u8 = mode.mix(b, t);
    let hi = ratio(998, 1000);
    if !k.less(hi) {
        return m;
    }
    let base = Single::of(b as u64);
    let gain = Single::of((m - b) as u64);
    proof {
        vstd::arithmetic::power2::lemma2_to64();
        assert(crate::single::up(32) == 0x1_0000_0000);
        assert(crate::single::up(24) == 0x100_0000);
        crate::single::lemma_exponent_from(2, 1000, lo, -32);
        crate::single::lemma_exponent_upto(998, 1000, hi, -24);
        if b > 0 {
            lemma_byte_exponent(b as int, base);
        }
        if m > b {
            lemma_byte_exponent(m - b, gain);
        }
    }
    let v: u64 = base.plus(gain.times(k)).round();
    if v > 255 {
        255
    } else {
        v as u8
    }
}

/// The larger of three differences.
pub open spec fn largest(a: int, b: int, c: int) -> int {
    let m = if a < b {
        b
    } else {
        a
    };
    if m < c {
        c
    } else {
        m
    }
}

/// Protection of the land: a coarse map of how much of each place is sky, and how much brighter a
/// layer must be for the land to let it through.
pub struct Guard {
    pub sky: Vec<Single>,
    pub w: usize,
    pub h: usize,
    pub threshold: u8,
}

/// Brightness over which the land opens up to a layer, past the threshold.
pub const GUARD_RAMP: u64 = 40;

/// Threshold of a guard made from a ground picture.
pub const GUARD_LIFT: u8 = 30;

/// Long edge of the map a guard is made from.
pub const GUARD_LONG: u32 = 320;

impl Guard {
    /// The map has one share per cell.
    pub open spec fn wf(&self) -> bool {
        &&& self.sky@.len() == self.w * self.h
        &&& forall|i: int|
            0 <= i < self.sky@.len() ==> crate::single::is_share(#[trigger] self.sky@[i])
    }

    /// How far the land opens up to a layer that is `lift` brighter.
    pub open spec fn pass(&self, lift: int) -> Single {
        let d = lift - self.threshold;
        if d <= 0 {
            Single { m: 0, e: 0 }
        } else if d >= 40 {
            crate::single::one()
        } else {
            crate::single::nearest(d, 40)
        }
    }

    /// How much of the land below pixel `(x, y)` of a `gw` by `gh` picture is kept from a layer that
    /// is `lift` brighter.
    pub open spec fn kept(&self, x: int, y: int, gw: int, gh: int, lift: int) -> Single {
        if self.w == 0 || self.h == 0 {
            Single { m: 0, e: 0 }
        } else {
            let sx = crate::blocks::block_of(x, gw, self.w as int);
            let sy = crate::blocks::block_of(y, gh, self.h as int);
            let land = crate::single::rest(self.sky@[grid::cell(sx, sy, self.w as int)]);
            crate::single::product(land, crate::single::rest(self.pass(lift)))
        }
    }

    /// How much of the land is kept from a layer (see [`Guard::kept`]).
    fn keep(&self, x: usize, y: usize, gw: usize, gh: usize, lift: i32) -> (k: Single)
        requires
            self.wf(),
            x < gw,
            y < gh,
            gw * self.w <= usize::MAX,
            gh * self.h <= usize::MAX,
            -255 <= lift <= 255,
        ensures
            k == self.kept(x as int, y as int, gw as int, gh as int, lift as int),
            crate::single::is_share(k),
    {
        if self.w == 0 || self.h == 0 {
            return Single { m: 0, e: 0 };
        }
        let n: usize = self.sky.len();
        let sx: usize = crate::blocks::block_index(x, gw, self.w);
        let sy: usize = crate::blocks::block_index(y, gh, self.h);
        proof {
            grid::lemma_cell_bound(sx as int, sy as int, self.w as int, self.h as int);
        }
        let land = self.sky[sy * self.w + sx].complement();
        let d: i32 = lift - self.threshold as i32;
        let pass: Single = if d <= 0 {
            Single { m: 0, e: 0 }
        } else if d >= 40 {
            Single::unit()
        } else {
            let s = ratio(d as u64, GUARD_RAMP);
            proof {
                vstd::arithmetic::power2::lemma2_to64();
                assert(crate::single::up(30) == 0x4000_0000);
                assert(crate::single::up(24) == 0x100_0000);
                assert(d * crate::single::up(30) == d * 0x4000_0000);
                assert(d * crate::single::up(24) == d * 0x100_0000);
                crate::single::lemma_exponent_from(d as int, 40, s, -30);
                crate::single::lemma_exponent_upto(d as int, 40, s, -24);
            }
            s
        };
        land.times(pass.complement())
    }
}

/// A coarse map of how much of each place of a ground picture is sky, from which guards are lent.
pub struct GuardMap {
    pub sky: Vec<Single>,
    pub w: usize,
    pub h: usize,
}

/// The numbers of a map as shares.
pub open spec fn sky_shares(c: crate::maps::Chart) -> Seq<Single> {
    c.d.map_values(|v: Signed| crate::shares::share(v))
}

impl GuardMap {
    /// The map has one share per cell.
    pub open spec fn wf(&self) -> bool {
        &&& self.sky@.len() == self.w * self.h
        &&& forall|i: int|
            0 <= i < self.sky@.len() ==> crate::single::is_share(#[trigger] self.sky@[i])
    }

    /// Finds the sky of a ground picture on a small copy of it; none where the picture cannot be
    /// resampled.
    pub fn new(ground: &Raster, light: &Light) -> (m: Option<GuardMap>)
        requires
            crate::subject::is_photo(ground@),
            light.wf(),
        ensures
            m is Some <==> crate::skies::guarded(ground@, light.tones@, GUARD_LONG as int) is Some,
            m matches Some(g) ==> {
                let c = crate::skies::guarded(ground@, light.tones@, GUARD_LONG as int)->0;
                &&& g.wf()
                &&& g.sky@ == sky_shares(c)
                &&& g.w == c.w
                &&& g.h == c.h
            },
    {
        match sky_weights(ground, light, GUARD_LONG) {
            Some(m) => {
                let n: usize = m.d.len();
                let mut sky: Vec<Single> = Vec::new();
                let mut i: usize = 0;
                while i < n
                    invariant
                        i <= n == m.d@.len(),
                        m@.wf(),
                        sky@ == sky_shares(m@).subrange(0, i as int),
                        forall|k: int|
                            0 <= k < sky@.len() ==> crate::single::is_share(#[trigger] sky@[k]),
                    decreases n - i,
                {
                    sky.push(share_of(m.d[i]));
                    assert(sky@ =~= sky_shares(m@).subrange(0, i + 1));
                    i += 1;
                }
                assert(sky@ =~= sky_shares(m@));
                Some(GuardMap { sky, w: m.w, h: m.h })
            },
            None => None,
        }
    }

    /// A guard made from the map: the land opens up to what is [`GUARD_LIFT`] brighter.
    pub fn guard(&self) -> (g: Guard)
        requires
            self.wf(),
        ensures
            g.wf(),
            g.sky@ == self.sky@,
            g.w == self.w,
            g.h == self.h,
            g.threshold == GUARD_LIFT,
    {
        let n: usize = self.sky.len();
        let mut sky: Vec<Single> = Vec::new();
        let mut i: usize = 0;
        while i < n
            invariant
                i <= n == self.sky@.len(),
                sky@ == self.sky@.subrange(0, i as int),
            decreases n - i,
        {
            sky.push(self.sky[i]);
            assert(sky@ =~= self.sky@.subrange(0, i + 1));
            i += 1;
        }
        assert(sky@ =~= self.sky@);
        Guard { sky, w: self.w, h: self.h, threshold: GUARD_LIFT }
    }
}

/// Half of a difference, towards zero.
pub open spec fn half(d: int) -> int {
    if d >= 0 {
        d / 2
    } else {
        -((-d) / 2)
    }
}

/// Column (or row) of a layer that comes to lie on column (or row) `i` of a canvas: the layer is
/// centred at its own size, then moved by `shift`.
pub open spec fn source(i: int, shift: int, canvas: int, layer: int) -> int {
    i - shift + half(layer - canvas)
}

/// One share per cell of a `w` by `h` grid, or none at all.
pub open spec fn is_share_map(m: Option<Seq<Single>>, w: int, h: int) -> bool {
    m matches Some(v) ==> v.len() == w * h && forall|i: int|
        0 <= i < v.len() ==> crate::single::is_share(#[trigger] v[i])
}

/// Weight with which a layer comes down: what neither its own mask nor the ground's protection
/// holds back.
pub open spec fn open_weight(
    mask: Option<Seq<Single>>,
    si: int,
    protect: Option<Seq<Single>>,
    i: int,
) -> Single {
    match (mask, protect) {
        (None, None) => crate::single::one(),
        (Some(m), None) => crate::single::rest(m[si]),
        (None, Some(p)) => crate::single::rest(p[i]),
        (Some(m), Some(p)) => crate::single::product(
            crate::single::rest(m[si]),
            crate::single::rest(p[i]),
        ),
    }
}

/// A layer as it lies on the canvas: where it is moved to, and what its mask holds back.
pub struct Cover {
    pub ox: int,
    pub oy: int,
    pub mask: Option<Seq<Single>>,
    pub protect: Option<Seq<Single>>,
}

/// Channel `c` of pixel `(x, y)` once a layer has come down on the canvas.
pub open spec fn covered(
    a: crate::raster::Picture,
    t: crate::raster::Picture,
    cover: Cover,
    guard: Option<Guard>,
    mode: BlendMode,
    x: int,
    y: int,
    c: int,
) -> u8 {
    let sx = source(x, cover.ox, a.w, t.w);
    let sy = source(y, cover.oy, a.h, t.h);
    let b = a.at(x, y, c);
    if !t.has(sx, sy) {
        b
    } else {
        let k = open_weight(
            cover.mask,
            grid::cell(sx, sy, t.w),
            cover.protect,
            grid::cell(x, y, a.w),
        );
        if !crate::single::below(crate::single::nearest(2, 1000), k) {
            b
        } else {
            match guard {
                None => put(mode, b, t.at(sx, sy, c), k),
                Some(g) => put(
                    mode,
                    b,
                    t.at(sx, sy, c),
                    crate::single::product(
                        k,
                        crate::single::rest(
                            g.kept(
                                x,
                                y,
                                a.w,
                                a.h,
                                largest(
                                    t.at(sx, sy, 0) - a.at(x, y, 0),
                                    t.at(sx, sy, 1) - a.at(x, y, 1),
                                    t.at(sx, sy, 2) - a.at(x, y, 2),
                                ),
                            ),
                        ),
                    ),
                ),
            }
        }
    }
}

/// The map's values, or none.
pub open spec fn map_view(m: Option<&Vec<Single>>) -> Option<Seq<Single>> {
    match m {
        None => None,
        Some(v) => Some(v@),
    }
}

/// The guard, or none.
pub open spec fn guard_view(g: Option<&Guard>) -> Option<Guard> {
    match g {
        None => None,
        Some(v) => Some(*v),
    }
}

fn weight_at(mask: Option<&Vec<Single>>, si: usize, protect: Option<&Vec<Single>>, i: usize) -> (k:
    Single)
    requires
        map_view(mask) matches Some(m) ==> si < m.len() && crate::single::is_share(m[si as int]),
        map_view(protect) matches Some(p) ==> i < p.len() && crate::single::is_share(p[i as int]),
    ensures
        k == open_weight(map_view(mask), si as int, map_view(protect), i as int),
        k.wf(),
        k.m > 0 ==> -150 <= k.e <= 60,
{
    match (mask, protect) {
        (None, None) => Single::unit(),
        (Some(m), None) => m[si].complement(),
        (None, Some(p)) => p[i].complement(),
        (Some(m), Some(p)) => m[si].complement().times(p[i].complement()),
    }
}

/// Column (or row) of a layer that lies on column (or row) `i` of a canvas.
fn source_index(i: usize, shift: i64, canvas: usize, layer: usize) -> (s: Option<usize>)
    requires
        i < canvas,
        canvas <= u32::MAX,
        layer <= u32::MAX,
        -0x1_0000_0000_0000 <= shift <= 0x1_0000_0000_0000,
    ensures
        s is Some <==> 0 <= source(i as int, shift as int, canvas as int, layer as int) < layer,
        s matches Some(v) ==> v == source(i as int, shift as int, canvas as int, layer as int),
{
    let d: i64 = layer as i64 - canvas as i64;
    let base: i64 = if d >= 0 {
        d / 2
    } else {
        -((-d) / 2)
    };
    let p: i64 = i as i64 - shift + base;
    if p < 0 || p >= layer as i64 {
        None
    } else {
        Some(p as usize)
    }
}

/// Blends a layer onto the canvas. The layer keeps its size: it is centred, moved by `(ox, oy)`
/// pixels and cut off at the canvas. `mask` holds, per pixel of the layer, how much of it is held
/// back, and `protect`, per pixel of the canvas, how much the ground holds back.
pub fn blend_layer(
    acc: &mut Raster,
    top: &Raster,
    mask: Option<&Vec<Single>>,
    ox: i64,
    oy: i64,
    protect: Option<&Vec<Single>>,
    guard: Option<&Guard>,
    mode: BlendMode,
)
    requires
        old(acc)@.wf(),
        top@.wf(),
        -0x1_0000_0000_0000 <= ox <= 0x1_0000_0000_0000,
        -0x1_0000_0000_0000 <= oy <= 0x1_0000_0000_0000,
        is_share_map(map_view(mask), top@.w, top@.h),
        is_share_map(map_view(protect), old(acc)@.w, old(acc)@.h),
        guard_view(guard) matches Some(g) ==> g.wf() && old(acc)@.w * g.w <= usize::MAX
            && old(acc)@.h * g.h <= usize::MAX,
    ensures
        final(acc)@.wf(),
        final(acc)@.w == old(acc)@.w,
        final(acc)@.h == old(acc)@.h,
        forall|x: int, y: int, c: int|
            old(acc)@.has(x, y) && 0 <= c < 3 ==> #[trigger] final(acc)@.at(x, y, c) == covered(
                old(acc)@,
                top@,
                (Cover {
                    ox: ox as int,
                    oy: oy as int,
                    mask: map_view(mask),
                    protect: map_view(protect),
                }),
                guard_view(guard),
                mode,
                x,
                y,
                c,
            ),
        no_darker(old(acc)@, final(acc)@),
{
    let ghost a0 = acc@;
    let ghost t0 = top@;
    let ghost cover = Cover {
        ox: ox as int,
        oy: oy as int,
        mask: map_view(mask),
        protect: map_view(protect),
    };
    let ghost gv = guard_view(guard);
    let w: usize = acc.w;
    let h: usize = acc.h;
    let len: usize = acc.d.len();
    let tlen: usize = top.d.len();
    let mut out: Vec<u8> = Vec::new();
    let mut y: usize = 0;
    proof {
        assert(0 * w * 3 == 0) by (nonlinear_arith);
    }
    while y < h
        invariant
            acc@ == a0,
            top@ == t0,
            a0.wf(),
            t0.wf(),
            w == acc.w,
            h == acc.h,
            len == w * h * 3,
            len == acc.d@.len(),
            tlen == top.d@.len(),
            y <= h,
            -0x1_0000_0000_0000 <= ox <= 0x1_0000_0000_0000,
            -0x1_0000_0000_0000 <= oy <= 0x1_0000_0000_0000,
            is_share_map(map_view(mask), t0.w, t0.h),
            is_share_map(map_view(protect), a0.w, a0.h),
            gv == guard_view(guard),
            gv matches Some(g) ==> g.wf() && a0.w * g.w <= usize::MAX && a0.h * g.h
                <= usize::MAX,
            cover == (Cover {
                ox: ox as int,
                oy: oy as int,
                mask: map_view(mask),
                protect: map_view(protect),
            }),
            out@.len() == y * w * 3,
            forall|xx: int, yy: int, c: int|
                0 <= xx < w && 0 <= yy < y && 0 <= c < 3 ==> out@[#[trigger] crate::raster::slot(
                    xx,
                    yy,
                    c,
                    w as int,
                )] == covered(a0, t0, cover, gv, mode, xx, yy, c),
        decreases h - y,
    {
        let sy: Option<usize> = source_index(y, oy, h, top.h);
        let mut x: usize = 0;
        while x < w
            invariant
                acc@ == a0,
                top@ == t0,
                a0.wf(),
                t0.wf(),
                w == acc.w,
                h == acc.h,
                len == w * h * 3,
                len == acc.d@.len(),
                tlen == top.d@.len(),
                y < h,
                x <= w,
                -0x1_0000_0000_0000 <= ox <= 0x1_0000_0000_0000,
                is_share_map(map_view(mask), t0.w, t0.h),
                is_share_map(map_view(protect), a0.w, a0.h),
                gv == guard_view(guard),
                gv matches Some(g) ==> g.wf() && a0.w * g.w <= usize::MAX && a0.h * g.h
                    <= usize::MAX,
                cover == (Cover {
                    ox: ox as int,
                    oy: oy as int,
                    mask: map_view(mask),
                    protect: map_view(protect),
                }),
                sy is Some <==> 0 <= source(y as int, oy as int, h as int, t0.h) < t0.h,
                sy matches Some(v) ==> v == source(y as int, oy as int, h as int, t0.h),
                out@.len() == y * w * 3 + x * 3,
                forall|xx: int, yy: int, c: int|
                    0 <= xx < w && 0 <= yy <= y && (yy < y || xx < x) && 0 <= c < 3 ==> out@[
                    #[trigger] crate::raster::slot(xx, yy, c, w as int)] == covered(
                        a0,
                        t0,
                        cover,
                        gv,
                        mode,
                        xx,
                        yy,
                        c,
                    ),
            decreases w - x,
        {
            let ghost xi = x as int;
            let ghost yi = y as int;
            let sx: Option<usize> = source_index(x, ox, w, top.w);
            let b0: u8 = acc.get(x, y, 0);
            let b1: u8 = acc.get(x, y, 1);
            let b2: u8 = acc.get(x, y, 2);
            let spot: Option<(usize, usize)> = match (sx, sy) {
                (Some(u), Some(v)) => Some((u, v)),
                _ => None,
            };
            let mut v0: u8 = b0;
            let mut v1: u8 = b1;
            let mut v2: u8 = b2;
            if let Some((u, v)) = spot {
                proof {
                    grid::lemma_cell_bound(u as int, v as int, t0.w, t0.h);
                    grid::lemma_cell_bound(xi, yi, a0.w, a0.h);
                    assert(w * h * 3 >= w * h);
                }
                let si: usize = v * top.w + u;
                let i: usize = y * w + x;
                let k = weight_at(mask, si, protect, i);
                let lo = ratio(2, 1000);
                if lo.less(k) {
                    let t0_: u8 = top.get(u, v, 0);
                    let t1_: u8 = top.get(u, v, 1);
                    let t2_: u8 = top.get(u, v, 2);
                    let kk: Single = match guard {
                        None => k,
                        Some(g) => {
                            let d0: i32 = t0_ as i32 - b0 as i32;
                            let d1: i32 = t1_ as i32 - b1 as i32;
                            let d2: i32 = t2_ as i32 - b2 as i32;
                            let d01: i32 = if d0 < d1 {
                                d1
                            } else {
                                d0
                            };
                            let lift: i32 = if d01 < d2 {
                                d2
                            } else {
                                d01
                            };
                            let held = g.keep(x, y, w, h, lift);
                            k.times(held.complement())
                        },
                    };
                    v0 = put_channel(mode, b0, t0_, kk);
                    v1 = put_channel(mode, b1, t1_, kk);
                    v2 = put_channel(mode, b2, t2_, kk);
                }
            }
            proof {
                assert(v0 == covered(a0, t0, cover, gv, mode, xi, yi, 0));
                assert(v1 == covered(a0, t0, cover, gv, mode, xi, yi, 1));
                assert(v2 == covered(a0, t0, cover, gv, mode, xi, yi, 2));
            }
            let ghost o0 = out@;
            out.push(v0);
            out.push(v1);
            out.push(v2);
            proof {
                assert forall|xx: int, yy: int, c: int|
                    0 <= xx < w && 0 <= yy <= y && (yy < y || xx < x + 1) && 0 <= c
                        < 3 implies out@[#[trigger] crate::raster::slot(xx, yy, c, w as int)]
                    == covered(a0, t0, cover, gv, mode, xx, yy, c) by {
                    crate::raster::lemma_slot_bound(xx, yy, c, w as int, h as int);
                    if yy < y || xx < x {
                        if yy < y {
                            crate::raster::lemma_slot_bound(xx, yy, c, w as int, y as int);
                            assert(w * y * 3 == y * w * 3) by (nonlinear_arith);
                        }
                        assert(out@[crate::raster::slot(xx, yy, c, w as int)]
                            == o0[crate::raster::slot(xx, yy, c, w as int)]);
                    } else {
                        assert(crate::raster::slot(xx, yy, c, w as int) == o0.len() + c);
                    }
                }
            }
            x += 1;
        }
        assert((y + 1) * w * 3 == y * w * 3 + w * 3) by (nonlinear_arith);
        y += 1;
    }
    proof {
        assert(h * w * 3 == w * h * 3) by (nonlinear_arith);
    }
    acc.d = out;
    proof {
        assert forall|x: int, y: int, c: int|
            a0.has(x, y) && 0 <= c < 3 implies #[trigger] acc@.at(x, y, c) == covered(
            a0,
            t0,
            cover,
            gv,
            mode,
            x,
            y,
            c,
        ) by {
            assert(acc@.at(x, y, c) == out@[crate::raster::slot(x, y, c, w as int)]);
        }
        lemma_covering(a0, t0, cover, gv, mode, acc@);
        law_covering_never_darkens(a0, t0, cover, gv, mode);
    }
}

/// The canvas once a layer has come down on it.
pub open spec fn covering(
    a: crate::raster::Picture,
    t: crate::raster::Picture,
    cover: Cover,
    guard: Option<Guard>,
    mode: BlendMode,
) -> crate::raster::Picture {
    crate::raster::Picture {
        w: a.w,
        h: a.h,
        d: Seq::new(
            (a.w * a.h * 3) as nat,
            |i: int| covered(a, t, cover, guard, mode, (i / 3) % a.w, (i / 3) / a.w, i % 3),
        ),
    }
}

/// A layer never makes the canvas darker, whatever holds it back.
pub proof fn law_covering_never_darkens(
    a: crate::raster::Picture,
    t: crate::raster::Picture,
    cover: Cover,
    guard: Option<Guard>,
    mode: BlendMode,
)
    requires
        a.wf(),
    ensures
        covering(a, t, cover, guard, mode).wf(),
        no_darker(a, covering(a, t, cover, guard, mode)),
{
    let q = covering(a, t, cover, guard, mode);
    assert forall|i: int| 0 <= i < a.d.len() implies #[trigger] q.d[i] >= a.d[i] by {
        let x = (i / 3) % a.w;
        let y = (i / 3) / a.w;
        if a.w == 0 {
            assert(a.w * a.h * 3 == 0) by (nonlinear_arith)
                requires
                    a.w == 0,
            ;
        }
        grid::lemma_cell_split(i / 3, a.w, a.h);
        assert(a.at(x, y, i % 3) == a.d[i]);
        assert forall|b: u8, c: u8, k: Single| #[trigger] put(mode, b, c, k) >= b by {
            law_put_never_darkens(mode, b, c, k);
        }
    }
}

/// Every byte of a picture is at least that of another picture of its size.
pub open spec fn no_darker(a: crate::raster::Picture, b: crate::raster::Picture) -> bool {
    &&& a.w == b.w
    &&& a.h == b.h
    &&& a.d.len() == b.d.len()
    &&& forall|i: int| 0 <= i < a.d.len() ==> #[trigger] b.d[i] >= a.d[i]
}

/// Pixel by pixel, a canvas is what came down on it.
pub proof fn lemma_covering(
    a: crate::raster::Picture,
    t: crate::raster::Picture,
    cover: Cover,
    guard: Option<Guard>,
    mode: BlendMode,
    r: crate::raster::Picture,
)
    requires
        a.wf(),
        r.wf(),
        r.w == a.w,
        r.h == a.h,
        forall|x: int, y: int, c: int|
            a.has(x, y) && 0 <= c < 3 ==> #[trigger] r.at(x, y, c) == covered(
                a,
                t,
                cover,
                guard,
                mode,
                x,
                y,
                c,
            ),
    ensures
        r == covering(a, t, cover, guard, mode),
{
    let q = covering(a, t, cover, guard, mode);
    assert(a.w * a.h * 3 >= 0) by (nonlinear_arith)
        requires
            a.w >= 0,
            a.h >= 0,
    ;
    assert forall|i: int| 0 <= i < r.d.len() implies #[trigger] r.d[i] == q.d[i] by {
        if a.w == 0 {
            assert(a.w * a.h * 3 == 0) by (nonlinear_arith)
                requires
                    a.w == 0,
            ;
        }
        let n = i / 3;
        grid::lemma_cell_split(n, a.w, a.h);
        assert(r.at(n % a.w, n / a.w, i % 3) == r.d[i]);
    }
    assert(r.d =~= q.d);
}

/// A photograph to be stacked: its picture, how much of each of its pixels is held back, and how
/// far it is moved.
pub struct Layer {
    pub img: Raster,
    pub mask: Option<Vec<Single>>,
    pub ox: i64,
    pub oy: i64,
}

/// The mask's values, or none.
pub open spec fn own_map(m: Option<Vec<Single>>) -> Option<Seq<Single>> {
    match m {
        None => None,
        Some(v) => Some(v@),
    }
}

impl Layer {
    /// The picture and its mask fit together, and the move is one that a picture can make.
    pub open spec fn wf(&self) -> bool {
        &&& self.img@.wf()
        &&& is_share_map(own_map(self.mask), self.img@.w, self.img@.h)
        &&& -0x1_0000_0000_0000 <= self.ox <= 0x1_0000_0000_0000
        &&& -0x1_0000_0000_0000 <= self.oy <= 0x1_0000_0000_0000
    }
}

/// The ground once the first `n` layers have come down on it.
pub open spec fn stacked(
    ground: crate::raster::Picture,
    protect: Option<Seq<Single>>,
    layers: Seq<Layer>,
    n: int,
    mode: BlendMode,
    guard: Option<Guard>,
) -> crate::raster::Picture
    decreases n,
{
    if n <= 0 {
        ground
    } else {
        let l = layers[n - 1];
        covering(
            stacked(ground, protect, layers, n - 1, mode, guard),
            l.img@,
            Cover { ox: l.ox as int, oy: l.oy as int, mask: own_map(l.mask), protect },
            guard,
            mode,
        )
    }
}

/// Layers never make the ground darker, whatever holds them back.
pub proof fn law_stack_never_darkens(
    ground: crate::raster::Picture,
    protect: Option<Seq<Single>>,
    layers: Seq<Layer>,
    n: int,
    mode: BlendMode,
    guard: Option<Guard>,
)
    requires
        ground.wf(),
    ensures
        stacked(ground, protect, layers, n, mode, guard).wf(),
        no_darker(ground, stacked(ground, protect, layers, n, mode, guard)),
    decreases n,
{
    if n > 0 {
        law_stack_never_darkens(ground, protect, layers, n - 1, mode, guard);
        let l = layers[n - 1];
        let p = stacked(ground, protect, layers, n - 1, mode, guard);
        let cover = Cover { ox: l.ox as int, oy: l.oy as int, mask: own_map(l.mask), protect };
        law_covering_never_darkens(p, l.img@, cover, guard, mode);
        let q = covering(p, l.img@, cover, guard, mode);
        assert forall|i: int| 0 <= i < ground.d.len() implies #[trigger] q.d[i] >= ground.d[i] by {
            assert(p.d[i] >= ground.d[i]);
        }
    }
}

/// Stacks layers onto a ground picture, one after the other.
pub fn blend(
    ground: &Raster,
    protect: Option<&Vec<Single>>,
    layers: &Vec<Layer>,
    mode: BlendMode,
    guard: Option<&Guard>,
) -> (out: Raster)
    requires
        ground@.wf(),
        is_share_map(map_view(protect), ground@.w, ground@.h),
        forall|i: int| 0 <= i < layers@.len() ==> (#[trigger] layers@[i]).wf(),
        guard_view(guard) matches Some(g) ==> g.wf() && ground@.w * g.w <= usize::MAX && ground@.h
            * g.h <= usize::MAX,
    ensures
        out@.wf(),
        out@ == stacked(
            ground@,
            map_view(protect),
            layers@,
            layers@.len() as int,
            mode,
            guard_view(guard),
        ),
        out@.w == ground@.w,
        out@.h == ground@.h,
        no_darker(ground@, out@),
{
    proof {
        law_stack_never_darkens(
            ground@,
            map_view(protect),
            layers@,
            layers@.len() as int,
            mode,
            guard_view(guard),
        );
    }
    let mut out = copy(ground);
    let mut i: usize = 0;
    while i < layers.len()
        invariant
            i <= layers@.len(),
            out@.wf(),
            out@.w == ground@.w,
            out@.h == ground@.h,
            is_share_map(map_view(protect), ground@.w, ground@.h),
            forall|i: int| 0 <= i < layers@.len() ==> (#[trigger] layers@[i]).wf(),
            guard_view(guard) matches Some(g) ==> g.wf() && ground@.w * g.w <= usize::MAX
                && ground@.h * g.h <= usize::MAX,
            out@ == stacked(
                ground@,
                map_view(protect),
                layers@,
                i as int,
                mode,
                guard_view(guard),
            ),
        decreases layers@.len() - i,
    {
        let l = &layers[i];
        let ghost before = out@;
        let mask: Option<&Vec<Single>> = l.mask.as_ref();
        assert(map_view(mask) == own_map(l.mask));
        blend_layer(&mut out, &l.img, mask, l.ox, l.oy, protect, guard, mode);
        proof {
            lemma_covering(
                before,
                l.img@,
                Cover {
                    ox: l.ox as int,
                    oy: l.oy as int,
                    mask: own_map(l.mask),
                    protect: map_view(protect),
                },
                guard_view(guard),
                mode,
                out@,
            );
        }
        i += 1;
    }
    out
}

/// Moves a picture inside its own canvas by `(ox, oy)` pixels; what it uncovers is black.
pub fn place(img: &mut Raster, ox: i64, oy: i64)
    requires
        old(img)@.wf(),
        -0x1_0000_0000_0000 <= ox <= 0x1_0000_0000_0000,
        -0x1_0000_0000_0000 <= oy <= 0x1_0000_0000_0000,
    ensures
        final(img)@.wf(),
        final(img)@.w == old(img)@.w,
        final(img)@.h == old(img)@.h,
        forall|x: int, y: int, c: int|
            old(img)@.has(x, y) && 0 <= c < 3 ==> #[trigger] final(img)@.at(x, y, c) == (
            if old(img)@.has(x - ox, y - oy) {
                old(img)@.at(x - ox, y - oy, c)
            } else {
                0
            }),
        ox == 0 && oy == 0 ==> final(img)@ == old(img)@,
{
    let ghost p0 = img@;
    let src = copy(img);
    let n: usize = img.d.len();
    img.d = vec![0u8; n];
    let ghost blank = img@;
    blend_layer(img, &src, None, ox, oy, None, None, BlendMode::Lighten);
    proof {
        vstd::arithmetic::power2::lemma2_to64();
        crate::single::lemma_thousandths(2, 1000);
        crate::single::lemma_thousandths(998, 1000);
        let lo = crate::single::nearest(2, 1000);
        let hi = crate::single::nearest(998, 1000);
        assert(2 * crate::single::up(24) == 2 * 0x100_0000);
        assert(998 * crate::single::up(24) == 998 * 0x100_0000);
        crate::single::lemma_exponent_upto(2, 1000, lo, -24);
        crate::single::lemma_exponent_upto(998, 1000, hi, -24);
        assert forall|x: int, y: int, c: int|
            p0.has(x, y) && 0 <= c < 3 implies #[trigger] img@.at(x, y, c) == (if p0.has(
            x - ox,
            y - oy,
        ) {
            p0.at(x - ox, y - oy, c)
        } else {
            0
        }) by {
            crate::raster::lemma_slot_bound(x, y, c, p0.w, p0.h);
            assert(blank.at(x, y, c) == 0);
            assert(blank.has(x, y));
        }
        if ox == 0 && oy == 0 {
            assert forall|i: int| 0 <= i < p0.d.len() implies #[trigger] img@.d[i] == p0.d[i] by {
                if p0.w == 0 {
                    assert(p0.w * p0.h * 3 == 0) by (nonlinear_arith)
                        requires
                            p0.w == 0,
                    ;
                }
                let k = i / 3;
                grid::lemma_cell_split(k, p0.w, p0.h);
                assert(img@.at(k % p0.w, k / p0.w, i % 3) == img@.d[i]);
            }
            assert(img@.d =~= p0.d);
        }
    }
}

/// Land holds: where the map knows no sky, a layer that is no more than the guard's threshold
/// brighter than the canvas leaves the canvas as it is, whatever its mask.
pub proof fn law_land_holds(
    a: crate::raster::Picture,
    t: crate::raster::Picture,
    cover: Cover,
    g: Guard,
    mode: BlendMode,
    x: int,
    y: int,
    c: int,
)
    requires
        a.has(x, y),
        0 <= c < 3,
        g.w > 0,
        g.h > 0,
        g.sky@[grid::cell(
            crate::blocks::block_of(x, a.w, g.w as int),
            crate::blocks::block_of(y, a.h, g.h as int),
            g.w as int,
        )] == crate::single::nought(),
        forall|k: int|
            0 <= k < 3 ==> #[trigger] t.at(
                source(x, cover.ox, a.w, t.w),
                source(y, cover.oy, a.h, t.h),
                k,
            ) - a.at(x, y, k) <= g.threshold,
    ensures
        covered(a, t, cover, Some(g), mode, x, y, c) == a.at(x, y, c),
{
    let sx = source(x, cover.ox, a.w, t.w);
    let sy = source(y, cover.oy, a.h, t.h);
    assert(t.at(sx, sy, 0) - a.at(x, y, 0) <= g.threshold);
    assert(t.at(sx, sy, 1) - a.at(x, y, 1) <= g.threshold);
    assert(t.at(sx, sy, 2) - a.at(x, y, 2) <= g.threshold);
    let k = open_weight(
        cover.mask,
        grid::cell(sx, sy, t.w),
        cover.protect,
        grid::cell(x, y, a.w),
    );
    crate::single::lemma_units(k);
}

/// Sky lets through: where the map knows nothing but sky, a guard changes nothing.
pub proof fn law_sky_lets_through(
    a: crate::raster::Picture,
    t: crate::raster::Picture,
    cover: Cover,
    g: Guard,
    mode: BlendMode,
    x: int,
    y: int,
    c: int,
)
    requires
        a.has(x, y),
        0 <= c < 3,
        cover.mask is None,
        cover.protect is None,
        g.w > 0,
        g.h > 0,
        g.sky@[grid::cell(
            crate::blocks::block_of(x, a.w, g.w as int),
            crate::blocks::block_of(y, a.h, g.h as int),
            g.w as int,
        )] == crate::single::one(),
    ensures
        covered(a, t, cover, Some(g), mode, x, y, c) == covered(a, t, cover, None, mode, x, y, c),
{
    let sx = source(x, cover.ox, a.w, t.w);
    let sy = source(y, cover.oy, a.h, t.h);
    let lift = largest(
        t.at(sx, sy, 0) - a.at(x, y, 0),
        t.at(sx, sy, 1) - a.at(x, y, 1),
        t.at(sx, sy, 2) - a.at(x, y, 2),
    );
    crate::single::lemma_units(crate::single::rest(g.pass(lift)));
}

/// Protected ground holds: where the protection is complete, no layer changes the canvas.
pub proof fn law_protection_holds(
    a: crate::raster::Picture,
    t: crate::raster::Picture,
    cover: Cover,
    guard: Option<Guard>,
    mode: BlendMode,
    x: int,
    y: int,
    c: int,
)
    requires
        cover.protect is Some,
        cover.protect->0[grid::cell(x, y, a.w)] == crate::single::one(),
    ensures
        covered(a, t, cover, guard, mode, x, y, c) == a.at(x, y, c),
{
    let sx = source(x, cover.ox, a.w, t.w);
    let sy = source(y, cover.oy, a.h, t.h);
    if cover.mask is Some {
        crate::single::lemma_units(
            crate::single::rest(cover.mask->0[grid::cell(sx, sy, t.w)]),
        );
    }
    crate::single::lemma_units(crate::single::one());
}

/// A mask that holds nothing back is no mask: every pixel is blended as if there were none.
pub proof fn law_empty_mask(
    a: crate::raster::Picture,
    t: crate::raster::Picture,
    cover: Cover,
    guard: Option<Guard>,
    mode: BlendMode,
    x: int,
    y: int,
    c: int,
)
    requires
        cover.protect is None,
        cover.mask is Some,
        cover.mask->0[grid::cell(
            source(x, cover.ox, a.w, t.w),
            source(y, cover.oy, a.h, t.h),
            t.w,
        )] == crate::single::nought(),
    ensures
        covered(a, t, cover, guard, mode, x, y, c) == covered(
            a,
            t,
            (Cover { ox: cover.ox, oy: cover.oy, mask: None, protect: None }),
            guard,
            mode,
            x,
            y,
            c,
        ),
{
}

/// Without layers the ground stays as it is.
pub proof fn law_no_layers(
    ground: crate::raster::Picture,
    protect: Option<Seq<Single>>,
    layers: Seq<Layer>,
    mode: BlendMode,
    guard: Option<Guard>,
)
    ensures
        stacked(ground, protect, layers, 0, mode, guard) == ground,
{
}

/// How a layer is laid on the canvas: moved by parts of the canvas's sides, scaled, and turned by
/// degrees.
#[derive(Clone, Copy, PartialEq, Eq, Structural, Debug)]
pub struct Xform {
    pub dx: Signed,
    pub dy: Signed,
    pub scale: Signed,
    pub rot: Signed,
}

/// Zero.
pub open spec fn none() -> Signed {
    Signed { neg: false, size: crate::single::nought() }
}

/// `num / den`, or its negative.
pub open spec fn fraction(neg: bool, num: int, den: int) -> Signed {
    Signed { neg, size: crate::single::nearest(num, den) }
}

/// A number kept in a range.
pub open spec fn kept_from(v: Signed, lo: Signed, hi: Signed) -> Signed {
    if v.lies_below(lo) {
        lo
    } else if hi.lies_below(v) {
        hi
    } else {
        v
    }
}

fn keep_from(v: Signed, lo: Signed, hi: Signed) -> (r: Signed)
    requires
        v.wf(),
        lo.wf(),
        hi.wf(),
    ensures
        r == kept_from(v, lo, hi),
        r.wf(),
{
    if v.less(lo) {
        lo
    } else if hi.less(v) {
        hi
    } else {
        v
    }
}

/// A number for a value that may not be finite.
pub open spec fn finite_or(v: Option<Signed>, other: Signed) -> Signed {
    match v {
        Some(s) => s,
        None => other,
    }
}

fn small(neg: bool, num: u64, den: u64) -> (r: Signed)
    requires
        0 < num <= 1000,
        0 < den <= 1000,
    ensures
        r == fraction(neg, num as int, den as int),
        r.wf(),
{
    let size = ratio(num, den);
    Signed { neg, size }
}

impl Xform {
    pub open spec fn wf(self) -> bool {
        self.dx.wf() && self.dy.wf() && self.scale.wf() && self.rot.wf()
    }

    /// Each number kept in its range: moves up to twice the canvas, scales from a fifth to three
    /// times, turns up to half round.
    pub open spec fn kept(self) -> Xform {
        Xform {
            dx: kept_from(self.dx, fraction(true, 2, 1), fraction(false, 2, 1)),
            dy: kept_from(self.dy, fraction(true, 2, 1), fraction(false, 2, 1)),
            scale: kept_from(self.scale, fraction(false, 1, 5), fraction(false, 3, 1)),
            rot: kept_from(self.rot, fraction(true, 180, 1), fraction(false, 180, 1)),
        }
    }

    /// The layer as it is: not moved, scaled or turned.
    pub open spec fn plain() -> Xform {
        Xform {
            dx: none(),
            dy: none(),
            scale: Signed { neg: false, size: crate::single::one() },
            rot: none(),
        }
    }

    /// The layer is moved at most: it is turned by less than a thousandth of a degree and scaled by
    /// less than one part in ten thousand.
    pub open spec fn only_shifts(self) -> bool {
        &&& crate::single::below(self.rot.size, crate::single::nearest(1, 1000))
        &&& crate::single::below(
            self.scale.distance(Signed { neg: false, size: crate::single::one() }),
            crate::single::nearest(1, 10000),
        )
    }

    /// From values that may not be finite: such a move or turn counts as none, such a scale as 1.
    pub fn from_parts(
        dx: Option<Signed>,
        dy: Option<Signed>,
        scale: Option<Signed>,
        rot: Option<Signed>,
    ) -> (x: Xform)
        requires
            dx matches Some(v) ==> v.wf(),
            dy matches Some(v) ==> v.wf(),
            scale matches Some(v) ==> v.wf(),
            rot matches Some(v) ==> v.wf(),
        ensures
            x == (Xform {
                dx: finite_or(dx, none()),
                dy: finite_or(dy, none()),
                scale: finite_or(scale, Signed { neg: false, size: crate::single::one() }),
                rot: finite_or(rot, none()),
            }),
            x.wf(),
    {
        let zero = Signed { neg: false, size: Single { m: 0, e: 0 } };
        let unit = Signed { neg: false, size: Single::unit() };
        Xform {
            dx: match dx {
                Some(v) => v,
                None => zero,
            },
            dy: match dy {
                Some(v) => v,
                None => zero,
            },
            scale: match scale {
                Some(v) => v,
                None => unit,
            },
            rot: match rot {
                Some(v) => v,
                None => zero,
            },
        }
    }

    /// Each number kept in its range (see [`Xform::kept`]).
    pub fn clamped(self) -> (x: Xform)
        requires
            self.wf(),
        ensures
            x == self.kept(),
            x.wf(),
            !crate::single::below(crate::single::nearest(2, 1), x.dx.size),
            !crate::single::below(crate::single::nearest(2, 1), x.dy.size),
    {
        Xform {
            dx: keep_from(self.dx, small(true, 2, 1), small(false, 2, 1)),
            dy: keep_from(self.dy, small(true, 2, 1), small(false, 2, 1)),
            scale: keep_from(self.scale, small(false, 1, 5), small(false, 3, 1)),
            rot: keep_from(self.rot, small(true, 180, 1), small(false, 180, 1)),
        }
    }

    /// Is the layer left as it is?
    pub fn is_identity(&self) -> (b: bool)
        ensures
            b == (*self == Xform::plain()),
    {
        let zero = Signed { neg: false, size: Single { m: 0, e: 0 } };
        let unit = Signed { neg: false, size: Single::unit() };
        self.dx == zero && self.dy == zero && self.scale == unit && self.rot == zero
    }

    /// Is the layer moved at most?
    pub fn is_shift_only(&self) -> (b: bool)
        requires
            self.wf(),
        ensures
            b == self.only_shifts(),
    {
        let unit = Signed { neg: false, size: Single::unit() };
        self.rot.size.less(ratio(1, 1000)) && self.scale.gap(unit).less(ratio(1, 10000))
    }

    /// By how many pixels the layer is moved on a `gw` by `gh` canvas.
    pub fn pixels(&self, gw: u32, gh: u32) -> (r: (i64, i64))
        requires
            self.wf(),
            !crate::single::below(crate::single::nearest(2, 1), self.dx.size),
            !crate::single::below(crate::single::nearest(2, 1), self.dy.size),
        ensures
            r.0 == pixel_shift(self.dx, gw as int),
            r.1 == pixel_shift(self.dy, gh as int),
            -0x1_0000_0000_0000 <= r.0 <= 0x1_0000_0000_0000,
            -0x1_0000_0000_0000 <= r.1 <= 0x1_0000_0000_0000,
    {
        (shift_pixels(self.dx, gw), shift_pixels(self.dy, gh))
    }
}

impl Default for Xform {
    fn default() -> (x: Xform)
        ensures
            x == Xform::plain(),
            x.wf(),
    {
        let zero = Signed { neg: false, size: Single { m: 0, e: 0 } };
        Xform { dx: zero, dy: zero, scale: Signed { neg: false, size: Single::unit() }, rot: zero }
    }
}

/// A part of a side of `side` pixels, rounded to pixels.
pub open spec fn pixel_shift(d: Signed, side: int) -> int {
    let n = crate::single::round(
        crate::single::product(d.size, crate::single::nearest(side, 1)),
    );
    if d.neg {
        -n
    } else {
        n
    }
}

fn shift_pixels(d: Signed, side: u32) -> (r: i64)
    requires
        d.wf(),
        !crate::single::below(crate::single::nearest(2, 1), d.size),
    ensures
        r == pixel_shift(d, side as int),
        -0x1_0000_0000_0000 <= r <= 0x1_0000_0000_0000,
{
    proof {
        let two = Single { m: crate::single::LOW, e: -22i32 };
        vstd::arithmetic::power2::lemma2_to64();
        assert(crate::single::up(22) == 0x40_0000);
        assert(2 * crate::single::up(22) == 0x80_0000);
        assert(crate::single::in_binade(2, 1, -22));
        assert(0x80_0000int / 1 == 0x80_0000 && 0x80_0000int % 1 == 0);
        assert(crate::single::is_nearest(2, 1, two));
        crate::single::law_nearest_unique(2, 1, two);
    }
    let n: u64 = d.size.times(Single::of(side as u64)).round();
    if d.neg {
        0 - n as i64
    } else {
        n as i64
    }
}

/// The mask that shapes make: their weights, or what they leave where the mask is turned round; no
/// mask at all where they cover nothing.
pub open spec fn mask_of(v: Seq<Single>, invert: bool) -> Option<Seq<Single>> {
    if exists|i: int| 0 <= i < v.len() && (#[trigger] v[i]).m > 0 {
        Some(
            if invert {
                v.map_values(|s: Single| crate::single::rest(s))
            } else {
                v
            },
        )
    } else {
        None
    }
}

/// The mask that shapes make of their weights (see [`mask_of`]).
pub fn weights(v: Vec<Single>, invert: bool) -> (r: Option<Vec<Single>>)
    requires
        forall|i: int| 0 <= i < v@.len() ==> crate::single::is_share(#[trigger] v@[i]),
    ensures
        own_map(r) == mask_of(v@, invert),
        r matches Some(m) ==> m@.len() == v@.len() && forall|i: int|
            0 <= i < m@.len() ==> crate::single::is_share(#[trigger] m@[i]),
{
    let n: usize = v.len();
    let mut any = false;
    let mut i: usize = 0;
    while i < n
        invariant
            i <= n == v@.len(),
            any <==> exists|k: int| 0 <= k < i && (#[trigger] v@[k]).m > 0,
        decreases n - i,
    {
        if v[i].m > 0 {
            any = true;
        }
        i += 1;
    }
    if !any {
        return None;
    }
    if !invert {
        return Some(v);
    }
    let mut out: Vec<Single> = Vec::new();
    let mut j: usize = 0;
    while j < n
        invariant
            j <= n == v@.len(),
            out@.len() == j,
            forall|i: int| 0 <= i < v@.len() ==> crate::single::is_share(#[trigger] v@[i]),
            forall|i: int|
                0 <= i < j ==> #[trigger] out@[i] == crate::single::rest(v@[i])
                    && crate::single::is_share(out@[i]),
        decreases n - j,
    {
        out.push(v[j].complement());
        j += 1;
    }
    assert(out@ =~= v@.map_values(|s: Single| crate::single::rest(s)));
    Some(out)
}

/// What holds a pixel back: the layer's own mask and the ground's protection.
pub open spec fn held_open(mask: Option<Single>, protect: Option<Single>) -> Single {
    match (mask, protect) {
        (None, None) => crate::single::one(),
        (Some(m), None) => crate::single::rest(m),
        (None, Some(p)) => crate::single::rest(p),
        (Some(m), Some(p)) => crate::single::product(
            crate::single::rest(m),
            crate::single::rest(p),
        ),
    }
}

/// Channel `c` of pixel `(x, y)` of a `gw` by `gh` canvas once a sample of a layer has come down on
/// it.
pub open spec fn sampled(
    b: (u8, u8, u8),
    t: (u8, u8, u8),
    k: Single,
    guard: Option<Guard>,
    x: int,
    y: int,
    gw: int,
    gh: int,
    mode: BlendMode,
) -> (u8, u8, u8) {
    let kk = match guard {
        None => k,
        Some(g) => crate::single::product(
            k,
            crate::single::rest(g.kept(x, y, gw, gh, largest(t.0 - b.0, t.1 - b.1, t.2 - b.2))),
        ),
    };
    if !crate::single::below(crate::single::nearest(2, 1000), k) {
        b
    } else {
        (put(mode, b.0, t.0, kk), put(mode, b.1, t.1, kk), put(mode, b.2, t.2, kk))
    }
}

/// Lets a sample of a layer come down on a pixel of the canvas.
pub fn put_sample(
    b: (u8, u8, u8),
    t: (u8, u8, u8),
    mask: Option<Single>,
    protect: Option<Single>,
    guard: Option<&Guard>,
    x: usize,
    y: usize,
    gw: usize,
    gh: usize,
    mode: BlendMode,
) -> (r: (u8, u8, u8))
    requires
        x < gw,
        y < gh,
        mask matches Some(m) ==> crate::single::is_share(m),
        protect matches Some(p) ==> crate::single::is_share(p),
        guard_view(guard) matches Some(g) ==> g.wf() && gw * g.w <= usize::MAX && gh * g.h
            <= usize::MAX,
    ensures
        r == sampled(
            b,
            t,
            held_open(mask, protect),
            guard_view(guard),
            x as int,
            y as int,
            gw as int,
            gh as int,
            mode,
        ),
{
    let k: Single = match (mask, protect) {
        (None, None) => Single::unit(),
        (Some(m), None) => m.complement(),
        (None, Some(p)) => p.complement(),
        (Some(m), Some(p)) => m.complement().times(p.complement()),
    };
    if !ratio(2, 1000).less(k) {
        return b;
    }
    let kk: Single = match guard {
        None => k,
        Some(g) => {
            let d0: i32 = t.0 as i32 - b.0 as i32;
            let d1: i32 = t.1 as i32 - b.1 as i32;
            let d2: i32 = t.2 as i32 - b.2 as i32;
            let d01: i32 = if d0 < d1 {
                d1
            } else {
                d0
            };
            let lift: i32 = if d01 < d2 {
                d2
            } else {
                d01
            };
            let held = g.keep(x, y, gw, gh, lift);
            k.times(held.complement())
        },
    };
    (
        put_channel(mode, b.0, t.0, kk),
        put_channel(mode, b.1, t.1, kk),
        put_channel(mode, b.2, t.2, kk),
    )
}

} // verus!
