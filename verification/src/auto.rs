//! Smoke settings that a photo calls for.

use vstd::prelude::*;

use crate::signed::Signed;
use crate::single::Single;
use crate::smoke::AutoParams;

verus! {

/// Shortest side of a photo that is looked at.
pub const AUTO_LEAST_SIDE: u32 = 32;

/// Bounds of the strength that is asked for.
pub const AUTO_STRENGTH_LEAST: i32 = 45;

pub const AUTO_STRENGTH_MOST: i32 = 95;

/// Brightness of a clear night sky.
pub open spec fn night() -> Signed {
    Signed::part(4, 1000)
}

/// The darkest sky that is aimed at.
pub open spec fn deepest() -> Signed {
    night().product(Signed::part(15, 100))
}

fn night_of() -> (r: Signed)
    ensures
        r == night(),
        r.within(100),
        r.size.m > 0,
        !r.neg,
{
    Signed::of(4, 1000)
}

fn deepest_of() -> (r: Signed)
    ensures
        r == deepest(),
        r.within(225),
        r.size.m > 0,
{
    night_of().times(Signed::of(15, 100))
}

/// The brightness that the sky is brought to: that of its darker parts, from [`deepest`] to [`night`].
pub fn sky_target(dark: Signed) -> (r: Signed)
    requires
        dark.wf(),
    ensures
        r == dark.clamped(deepest(), night()),
        r.within(400),
{
    dark.clamp(deepest_of(), night_of())
}

/// The largest of the first `n` numbers, or 0.
pub open spec fn peak(v: Seq<Signed>, n: int) -> Signed
    decreases n,
{
    if n <= 0 {
        Signed::part(0, 1)
    } else {
        peak(v, n - 1).larger(v[n - 1])
    }
}

/// A row holds a quarter or more of what the fullest row holds.
pub open spec fn holds_sky(rows: Seq<Signed>, r: int) -> bool {
    !rows[r].lies_below(peak(rows, rows.len() as int).product(Signed::part(25, 100)))
}

/// The last row that holds a good part of the sky, or the last row of all.
pub fn horizon(rows: &Vec<Signed>) -> (r: usize)
    requires
        rows@.len() > 0,
        forall|i: int| 0 <= i < rows@.len() ==> (#[trigger] rows@[i]).wf(),
    ensures
        r < rows@.len(),
        forall|i: int| r < i < rows@.len() && holds_sky(rows@, r as int) ==> !#[trigger] holds_sky(
            rows@,
            i,
        ),
        !holds_sky(rows@, r as int) ==> r == rows@.len() - 1 && forall|i: int|
            0 <= i < rows@.len() ==> !#[trigger] holds_sky(rows@, i),
{
    let n: usize = rows.len();
    let mut top = Signed::zero();
    let mut i: usize = 0;
    while i < n
        invariant
            i <= n,
            n == rows@.len(),
            forall|j: int| 0 <= j < rows@.len() ==> (#[trigger] rows@[j]).wf(),
            top == peak(rows@, i as int),
            top.within(200),
        decreases n - i,
    {
        top = top.max(rows[i]);
        i += 1;
    }
    let least = top.times(Signed::of(25, 100));
    let mut r: usize = n;
    while r > 0
        invariant
            r <= n,
            n == rows@.len(),
            forall|j: int| 0 <= j < rows@.len() ==> (#[trigger] rows@[j]).wf(),
            least.size.wf(),
            least == peak(rows@, n as int).product(Signed::part(25, 100)),
            forall|j: int| r <= j < n ==> !#[trigger] holds_sky(rows@, j),
        decreases r,
    {
        if !rows[r - 1].less(least) {
            assert(holds_sky(rows@, r - 1));
            return r - 1;
        }
        assert(!holds_sky(rows@, r - 1));
        r -= 1;
    }
    n - 1
}

/// How dense the streaks are, half of the sky being as dense as it gets.
pub open spec fn density(sum: Signed, count: u32) -> Signed {
    if count == 0 {
        Signed::part(0, 1)
    } else {
        sum.quotient(Signed::part(count as int, 1)).quotient(Signed::part(5, 10))
    }
}

/// How much detail is kept: the more, the denser the streaks are.
pub open spec fn detail(sum: Signed, count: u32) -> int {
    55 + density(sum, count).clamped(Signed::part(0, 1), Signed::part(1, 1)).product(
        Signed::part(40, 1),
    ).nearest_integer()
}

/// How much detail is kept where so many places hold streaks of so much density in all.
pub fn detail_for(sum: Signed, count: u32) -> (r: i32)
    requires
        sum.wf(),
    ensures
        r == detail(sum, count),
        55 <= r <= 95,
{
    let dense = if count == 0 {
        Signed::zero()
    } else {
        sum.over(Signed::of(count as u64, 1)).over(Signed::of(5, 10))
    };
    let one = Signed::of(1, 1);
    let t = dense.clamp(Signed::zero(), one);
    let forty = Signed::of(40, 1);
    let k = t.times(forty);
    proof {
        crate::single::lemma_one();
        lemma_at_most_forty(t, forty, k);
    }
    55 + k.round() as i32
}

/// A share of 40 is at most 40.
proof fn lemma_at_most_forty(t: Signed, forty: Signed, k: Signed)
    requires
        t.within(1500),
        !t.neg,
        !crate::single::below(crate::single::one(), t.size),
        forty == Signed::part(40, 1),
        k == t.product(forty),
        k.size.wf(),
    ensures
        0 <= k.nearest_integer() <= 40,
        k.size.e <= 24,
{
    reveal(Signed::product);
    let b = crate::single::nearest(40, 1);
    crate::single::lemma_small_nearest(40);
    assert(t.size.m * b.m == b.m * t.size.m) by (nonlinear_arith);
    assert(k.size == crate::single::product(b, t.size));
    if t.size.m > 0 {
        crate::single::lemma_product_nearest(b, t.size);
    }
    crate::single::law_times_share_shrinks(b, t.size, k.size);
    crate::single::law_round_within(k.size, 40, b);
    crate::advice::lemma_round_is_natural(k.size);
}

/// Enough of the sky is smoky to measure the smoke by: one place in a hundred.
pub open spec fn is_enough(thick: u32, above: u32) -> bool {
    !Signed::part(thick as int, 1).lies_below(
        Signed::part(above as int, 1).product(Signed::part(1, 100)),
    )
}

/// Is enough of the sky smoky (see [`is_enough`])?
pub fn enough_smoke(thick: u32, above: u32) -> (b: bool)
    ensures
        b == is_enough(thick, above),
{
    !Signed::of(thick as u64, 1).less(Signed::of(above as u64, 1).times(Signed::of(1, 100)))
}

/// How much of the smoke one step of strength takes away, times 100.
pub open spec fn gain() -> Signed {
    Signed::part(16, 10)
}

/// The share of the smoke that is to go where nothing was measured.
pub open spec fn usual() -> Signed {
    Signed::part(80, 1).quotient(Signed::part(100, 1)).product(gain())
}

/// The strength that takes a share of the smoke away, larger for photos that are shrunk more.
pub open spec fn strength(enough: bool, k: Option<Signed>, pool: Single) -> int {
    if !enough {
        AUTO_STRENGTH_LEAST as int
    } else {
        let k = match k {
            Some(v) => v,
            None => usual(),
        };
        crate::scale::within(
            k.product(Signed { neg: false, size: pool }).quotient(gain()).product(
                Signed::part(100, 1),
            ).nearest_integer(),
            AUTO_STRENGTH_LEAST as int,
            AUTO_STRENGTH_MOST as int,
        )
    }
}

/// The number as an integer from `lo` to `hi`.
fn settle(v: Signed, lo: i32, hi: i32) -> (r: i32)
    requires
        v.size.wf(),
        0 <= lo <= hi <= 100,
    ensures
        r == crate::scale::within(v.nearest_integer(), lo as int, hi as int),
{
    if v.neg {
        proof {
            crate::advice::lemma_round_is_natural(v.size);
        }
        lo
    } else if v.size.e > 0 {
        proof {
            crate::single::lemma_up_pos(v.size.e as int);
            let m = v.size.m;
            let p = crate::single::up(v.size.e as int);
            assert(m * p >= 0x80_0000) by (nonlinear_arith)
                requires
                    m >= 0x80_0000,
                    p >= 1,
            ;
        }
        hi
    } else {
        let n: i64 = v.round();
        if n < lo as i64 {
            lo
        } else if n > hi as i64 {
            hi
        } else {
            n as i32
        }
    }
}

/// The strength that takes a share of the smoke away (see [`strength`]). With too little smoke to
/// measure it is the least that is ever asked for.
pub fn strength_for(enough: bool, k: Option<Signed>, pool: Single) -> (r: i32)
    requires
        k matches Some(v) ==> v.wf(),
        pool.wf(),
        -200 <= pool.e <= 200,
    ensures
        r == strength(enough, k, pool),
        AUTO_STRENGTH_LEAST <= r <= AUTO_STRENGTH_MOST,
        !enough ==> r == AUTO_STRENGTH_LEAST,
{
    if !enough {
        return AUTO_STRENGTH_LEAST;
    }
    let gain = Signed::of(16, 10);
    let k = match k {
        Some(v) => v,
        None => Signed::of(80, 1).over(Signed::of(100, 1)).times(gain),
    };
    let v = k.times(Signed { neg: false, size: pool }).over(gain).times(Signed::of(100, 1));
    settle(v, AUTO_STRENGTH_LEAST, AUTO_STRENGTH_MOST)
}

/// The share of the smoke that a strength takes away.
pub open spec fn pull(strength: int, pool: Single) -> Signed {
    Signed::part(strength, 1).quotient(Signed::part(100, 1)).product(gain()).quotient(
        Signed { neg: false, size: pool },
    )
}

/// The share of the smoke that a strength takes away (see [`pull`]).
pub fn pull_for(strength: i32, pool: Single) -> (r: Signed)
    requires
        0 <= strength <= 100,
        pool.wf(),
        pool.m > 0,
        -200 <= pool.e <= 200,
    ensures
        r == pull(strength as int, pool),
        r.within(1000),
{
    Signed::of(strength as u64, 1).over(Signed::of(100, 1)).times(Signed::of(16, 10)).over(
        Signed { neg: false, size: pool },
    )
}

/// How strongly the sky is cleaned: by how much its glow stands out from its depth. Nothing is called
/// for where the sky does not glow.
pub open spec fn clean(deep: Signed, glow: Signed) -> Option<int> {
    if !night().lies_below(glow) {
        None
    } else {
        Some(
            crate::scale::within(
                Signed::part(1, 1).less_by(deep.larger(deepest()).quotient(glow)).product(
                    Signed::part(100, 1),
                ).nearest_integer(),
                20,
                75,
            ),
        )
    }
}

/// How strongly the sky is cleaned (see [`clean`]).
pub fn clean_for(deep: Signed, glow: Signed) -> (r: Option<i32>)
    requires
        deep.wf(),
        glow.wf(),
    ensures
        r is Some <==> clean(deep, glow) is Some,
        r matches Some(v) ==> v == clean(deep, glow)->0 && 20 <= v <= 75,
{
    if !night_of().less(glow) {
        return None;
    }
    let left = deep.max(deepest_of()).over(glow);
    Some(settle(Signed::of(1, 1).minus(left).times(Signed::of(100, 1)), 20, 75))
}

/// The brightness up to which the sky is cleaned.
pub open spec fn level(glow: Signed, floor: Signed) -> Signed {
    glow.sum(floor).product(Signed::part(22, 10)).less_by(night()).larger(Signed::part(0, 1))
}

/// The brightness up to which the sky is cleaned (see [`level`]).
pub fn level_for(glow: Signed, floor: Signed) -> (r: Signed)
    requires
        glow.wf(),
        floor.wf(),
    ensures
        r == level(glow, floor),
        r.within(1000),
{
    glow.plus(floor).times(Signed::of(22, 10)).minus(night_of()).max(Signed::zero())
}

/// The range that reaches a tone, from 0 to 1.
pub open spec fn range(tone: Signed) -> int {
    crate::scale::within(tone.product(Signed::part(100, 1)).nearest_integer(), 30, 100)
}

/// What was measured in a photo.
pub struct Findings {
    /// Sides of the copy that was looked at.
    pub w: u32,
    pub h: u32,
    /// How much of it is sky, in pixels.
    pub sky: Signed,
    /// How many places hold streaks, and their density in all.
    pub streaks: u32,
    pub density: Signed,
    /// How many places are smoky, of how many above the horizon.
    pub thick: u32,
    pub above: u32,
    /// The share of the smoke that has to go, and how much shrinking spreads it.
    pub k: Option<Signed>,
    pub pool: Single,
    /// The depth and the glow of the sky without its smoke, and the tone that the glow reaches up to.
    pub deep: Signed,
    pub glow: Signed,
    pub tone: Signed,
}

impl Findings {
    /// Every figure is a number.
    pub open spec fn wf(&self) -> bool {
        &&& self.sky.wf()
        &&& self.density.wf()
        &&& self.k matches Some(v) ==> v.wf()
        &&& self.pool.wf()
        &&& -200 <= self.pool.e <= 200
        &&& self.deep.wf()
        &&& self.glow.wf()
        &&& self.tone.wf()
    }

    /// The copy is too small to look at.
    pub open spec fn is_tiny(&self) -> bool {
        self.w < AUTO_LEAST_SIDE || self.h < AUTO_LEAST_SIDE
    }

    /// Less than a tenth of the photo is sky.
    pub open spec fn is_skyless(&self) -> bool {
        self.sky.lies_below(Signed::part(self.w * self.h, 1).product(Signed::part(10, 100)))
    }
}

/// The settings that a photo calls for: the usual ones where it is tiny or shows no sky.
pub open spec fn settings(f: &Findings) -> AutoParams {
    if f.is_tiny() || f.is_skyless() {
        crate::smoke::auto_default()
    } else {
        AutoParams {
            strength: strength(is_enough(f.thick, f.above), f.k, f.pool) as i32,
            detail: detail(f.density, f.streaks) as i32,
            sky_clean: match clean(f.deep, f.glow) {
                Some(c) => c as i32,
                None => 20,
            },
            sky_range: match clean(f.deep, f.glow) {
                Some(_) => range(f.tone) as i32,
                None => crate::smoke::auto_default().sky_range,
            },
        }
    }
}

/// The settings that a photo calls for (see [`settings`]).
pub fn auto_params(f: &Findings) -> (r: AutoParams)
    requires
        f.wf(),
    ensures
        r == settings(f),
        20 <= r.sky_clean <= 75,
        30 <= r.sky_range <= 100,
        AUTO_STRENGTH_LEAST <= r.strength <= AUTO_STRENGTH_MOST,
        55 <= r.detail <= 95,
{
    if f.w < AUTO_LEAST_SIDE || f.h < AUTO_LEAST_SIDE {
        return AutoParams::default();
    }
    proof {
        assert(f.w * f.h <= u32::MAX * u32::MAX) by (nonlinear_arith)
            requires
                f.w <= u32::MAX,
                f.h <= u32::MAX,
        ;
    }
    let n: u64 = f.w as u64 * f.h as u64;
    if f.sky.less(Signed::of(n, 1).times(Signed::of(10, 100))) {
        return AutoParams::default();
    }
    let detail: i32 = detail_for(f.density, f.streaks);
    let strength: i32 = strength_for(enough_smoke(f.thick, f.above), f.k, f.pool);
    match clean_for(f.deep, f.glow) {
        None => AutoParams { strength, detail, sky_clean: 20, sky_range: AutoParams::default().sky_range },
        Some(sky_clean) => {
            let sky_range: i32 = settle(f.tone.times(Signed::of(100, 1)), 30, 100);
            AutoParams { strength, detail, sky_clean, sky_range }
        },
    }
}

/// 1.6 is a number of the range.
proof fn lemma_gain()
    ensures
        gain().within(100),
        gain().size.m > 0,
        !gain().neg,
{
    vstd::arithmetic::power2::lemma2_to64();
    let s = Single { m: 13421773, e: -23i32 };
    assert(16 * crate::single::up(23) == 134217728);
    assert(10 * crate::single::up(-23) == 10);
    assert(crate::single::in_binade(16, 10, -23));
    assert(134217728int / 10 == 13421772 && 134217728int % 10 == 8);
    assert(crate::single::is_rounded_at(
        crate::single::round_even(16 * crate::single::up(23), 10 * crate::single::up(-23)),
        -23,
        s,
    ));
    assert(crate::single::is_nearest(16, 10, s));
    crate::single::law_nearest_unique(16, 10, s);
}

/// The strength does not fall where shrinking spreads the smoke more.
proof fn lemma_strength_grows(enough: bool, k: Option<Signed>, p: Single, q: Single)
    requires
        k matches Some(v) ==> v.wf(),
        p.wf(),
        q.wf(),
        -200 <= p.e <= 200,
        -200 <= q.e <= 200,
        crate::rounding::at_most(p, q),
    ensures
        strength(enough, k, p) <= strength(enough, k, q),
{
    reveal(Signed::product);
    reveal(Signed::quotient);
    lemma_gain();
    let g = gain().size;
    crate::single::lemma_small_nearest(80);
    crate::single::lemma_small_nearest(100);
    let hundred = crate::single::nearest(100, 1);
    let share = crate::single::quotient(crate::single::nearest(80, 1), hundred);
    crate::rounding::law_quotient_keeps_order(
        crate::single::nearest(80, 1),
        crate::single::nearest(80, 1),
        hundred,
    );
    crate::rounding::law_product_keeps_order(share, share, g);
    let v = match k {
        Some(v) => v,
        None => usual(),
    };
    let a = crate::single::product(p, v.size);
    let b = crate::single::product(q, v.size);
    assert(p.m * v.size.m == v.size.m * p.m && q.m * v.size.m == v.size.m * q.m)
        by (nonlinear_arith);
    assert(a == crate::single::product(v.size, p) && b == crate::single::product(v.size, q));
    crate::rounding::law_product_keeps_order(p, q, v.size);
    crate::rounding::law_quotient_keeps_order(a, b, g);
    let c = crate::single::quotient(a, g);
    let d = crate::single::quotient(b, g);
    crate::rounding::law_product_keeps_order(c, d, hundred);
    crate::rounding::law_rounding_keeps_order(
        crate::single::product(c, hundred),
        crate::single::product(d, hundred),
    );
}

/// What was found of the smoke calls for no less strength on a larger photo, and for the same detail.
pub proof fn law_larger_photo_is_no_weaker(a: &Findings, b: &Findings, long: int, longer: int)
    requires
        a.wf(),
        b.wf(),
        a.w == b.w && a.h == b.h && a.sky == b.sky,
        a.streaks == b.streaks && a.density == b.density,
        a.thick == b.thick && a.above == b.above && a.k == b.k,
        0 <= long <= longer <= u32::MAX,
        a.pool == crate::strength::gain(long, crate::scale::WORK_LONG_EDGE as int),
        b.pool == crate::strength::gain(longer, crate::scale::WORK_LONG_EDGE as int),
    ensures
        settings(a).strength <= settings(b).strength,
        settings(a).detail == settings(b).detail,
{
    crate::strength::law_gain_grows(long, longer, crate::scale::WORK_LONG_EDGE as int);
    lemma_strength_grows(is_enough(a.thick, a.above), a.k, a.pool, b.pool);
}

/// How many rows of a column lie at or above its lowest clear place.
pub open spec fn clear_depth(clear: Seq<bool>, w: int, h: int, x: int) -> int
    decreases h,
{
    if h <= 0 {
        0
    } else if clear[(h - 1) * w + x] {
        h
    } else {
        clear_depth(clear, w, h - 1, x)
    }
}

/// How many rows of a column lie at or above its lowest clear place.
fn depth_of(clear: &Vec<bool>, w: usize, h: usize, x: usize) -> (r: usize)
    requires
        clear@.len() == w * h,
        x < w,
    ensures
        r == clear_depth(clear@, w as int, h as int, x as int),
{
    let n: usize = clear.len();
    let mut y: usize = h;
    while y > 0
        invariant
            y <= h,
            x < w,
            clear@.len() == w * h,
            n == w * h,
            clear_depth(clear@, w as int, h as int, x as int) == clear_depth(
                clear@,
                w as int,
                y as int,
                x as int,
            ),
        decreases y,
    {
        proof {
            crate::grid::lemma_cell_bound(x as int, y - 1, w as int, h as int);
        }
        if clear[(y - 1) * w + x] {
            return y;
        }
        y -= 1;
    }
    0
}

/// For each column, how many rows lie at or above its lowest clear place.
pub fn clear_depths(clear: &Vec<bool>, w: usize, h: usize) -> (out: Vec<usize>)
    requires
        clear@.len() == w * h,
    ensures
        out@.len() == w,
        forall|x: int| 0 <= x < w ==> #[trigger] out@[x] == clear_depth(
            clear@,
            w as int,
            h as int,
            x,
        ),
{
    let mut out: Vec<usize> = Vec::new();
    let mut x: usize = 0;
    while x < w
        invariant
            x <= w,
            clear@.len() == w * h,
            out@.len() == x,
            forall|i: int| 0 <= i < x ==> #[trigger] out@[i] == clear_depth(
                clear@,
                w as int,
                h as int,
                i,
            ),
        decreases w - x,
    {
        out.push(depth_of(clear, w, h, x));
        x += 1;
    }
    out
}

/// Fewer than one place in fifty.
pub open spec fn is_scarce(count: u32, n: u32) -> bool {
    Signed::part(count as int, 1).lies_below(
        Signed::part(n as int, 1).product(Signed::part(2, 100)),
    )
}

/// Are there fewer than one place in fifty (see [`is_scarce`])?
pub fn scarce(count: u32, n: u32) -> (b: bool)
    ensures
        b == is_scarce(count, n),
{
    Signed::of(count as u64, 1).less(Signed::of(n as u64, 1).times(Signed::of(2, 100)))
}

/// Brightness of a colour.
pub open spec fn luminance(c: (Signed, Signed, Signed)) -> Signed {
    Signed::part(2126, 10000).product(c.0).sum(Signed::part(7152, 10000).product(c.1)).sum(
        Signed::part(722, 10000).product(c.2),
    )
}

/// A colour, dimmed where it is brighter than a night sky can be.
pub open spec fn dimmed(c: (Signed, Signed, Signed)) -> (Signed, Signed, Signed) {
    let y = luminance(c);
    if Signed::part(45, 1000).lies_below(y) {
        let s = Signed::part(45, 1000).quotient(y);
        (c.0.product(s), c.1.product(s), c.2.product(s))
    } else {
        c
    }
}

/// A colour, dimmed where it is brighter than a night sky can be (see [`dimmed`]).
pub fn dim(c: (Signed, Signed, Signed)) -> (r: (Signed, Signed, Signed))
    requires
        c.0.wf(),
        c.1.wf(),
        c.2.wf(),
    ensures
        r == dimmed(c),
        r.0.size.wf() && (r.0.size.m == 0 ==> !r.0.neg),
        r.1.size.wf() && (r.1.size.m == 0 ==> !r.1.neg),
        r.2.size.wf() && (r.2.size.m == 0 ==> !r.2.neg),
{
    let y = Signed::of(2126, 10000).times(c.0).plus(Signed::of(7152, 10000).times(c.1)).plus(
        Signed::of(722, 10000).times(c.2),
    );
    if Signed::of(45, 1000).less(y) {
        let s = Signed::of(45, 1000).over(y);
        (c.0.times(s), c.1.times(s), c.2.times(s))
    } else {
        c
    }
}

} // verus!
