//! Selecting an object in a box, or the sky, and the softness of the selection's edge.

use vstd::prelude::*;

use crate::caption::integer_of;
use crate::field::{box_mean, max_filter, Guide};
use crate::haze::{glow_of, linear_of, Light};
use crate::held::{add_to, divide_by, scale_by, take_from, whole};
use crate::maps::{ease_between, tone_of, Mask};
use crate::object::{
    asked_cells, count_set, edge_reach, feather_reach, reach_of, search_window, solid_parts,
    whole_shape, work_grid, Window,
};
use crate::raster::Raster;
use crate::sample::byte_of;
use crate::scale::detail_radii;
use crate::signed::{longer_of, Signed};
use crate::skies::{cap, contrast_of, copy_photo, sky_probe, sky_region};
use crate::smoke::{Object, Region};
use crate::stroke::first_cell_of;
use crate::subject::apart_of;
use crate::survey::sum_of;

verus! {

/// How many steps a channel has in a histogram of colours.
pub const BINS: usize = 16;

/// How many colours a histogram tells apart.
pub const COLOURS: usize = 4096;

/// How often the object is told from its surroundings.
pub const ROUNDS: usize = 4;

/// Long edge at which the sky is selected.
pub const SKY_SELECT_EDGE: u32 = 1600;

/// Shortest side of a photo whose sky is selected.
pub const SKY_SELECT_SHORT: usize = 32;

/// A number from 0 to 1 as a byte.
pub open spec fn level(v: Signed) -> u8 {
    crate::sample::byte(
        crate::held::times(v.clamped(Signed::part(0, 1), Signed::part(1, 1)), Signed::part(255, 1)),
    )
}

fn level_of(v: Signed) -> (b: u8)
    requires
        crate::held::fits(v),
    ensures
        b == level(v),
{
    byte_of(scale_by(v.clamp(Signed::zero(), Signed::of(1, 1)), whole(255)))
}

/// The numbers of bytes, from 0 to 1.
pub open spec fn tones(d: Seq<u8>) -> Seq<Signed> {
    Seq::new(d.len(), |i: int| crate::held::over(Signed::part(d[i] as int, 1), Signed::part(255, 1)))
}

/// Where the edge of a selection lies once it has been moved.
pub open spec fn edge_at(edge: int) -> Signed {
    crate::held::minus(
        Signed::part(1, 2),
        crate::held::times(
            crate::held::over(Signed::integer(edge), Signed::part(100, 1)),
            Signed::part(30, 100),
        ),
    )
}

/// A selection whose edge has been moved outwards or inwards.
pub open spec fn moved(c: crate::maps::Chart, edge: int) -> crate::maps::Chart {
    if edge == 0 {
        c
    } else {
        let long = crate::signed::max_of(c.w, c.h);
        let r = crate::skies::capped(edge_radius(edge, long));
        let t = edge_at(edge);
        let d = crate::field::box_means(c, r).d;
        crate::maps::Chart {
            d: Seq::new(
                d.len(),
                |i: int|
                    crate::maps::eased(
                        crate::held::minus(t, Signed::part(12, 100)),
                        crate::held::plus(t, Signed::part(12, 100)),
                        d[i],
                    ),
            ),
            w: c.w,
            h: c.h,
        }
    }
}

/// How far an edge is moved on a grid with a long side.
pub open spec fn edge_radius(edge: int, long: int) -> int {
    crate::scale::at_least(
        crate::single::round(
            crate::single::product(
                crate::single::product(
                    crate::single::quotient(
                        crate::single::nearest(crate::align::magnitude(edge), 1),
                        crate::single::nearest(100, 1),
                    ),
                    crate::single::nearest(2, 100),
                ),
                crate::single::nearest(long, 1),
            ),
        ),
        1,
    )
}

/// How far an edge is softened on a grid with a long side.
pub open spec fn feather_radius(feather: int, long: int) -> int {
    crate::single::round(
        crate::single::product(
            crate::single::product(
                crate::single::quotient(
                    crate::single::nearest(feather, 1),
                    crate::single::nearest(100, 1),
                ),
                crate::single::nearest(5, 100),
            ),
            crate::single::nearest(long, 1),
        ),
    )
}

/// A selection whose edge has been softened.
pub open spec fn feathered(c: crate::maps::Chart, feather: int) -> crate::maps::Chart {
    let r = crate::skies::capped(feather_radius(feather, crate::signed::max_of(c.w, c.h)));
    if r < 1 {
        c
    } else {
        crate::field::box_means(crate::field::box_means(c, r), (r + 1) / 2)
    }
}

/// A selection with its edge moved and softened.
pub open spec fn refined(raw: Seq<u8>, w: int, h: int, feather: int, edge: int) -> Seq<u8> {
    let d = feathered(moved(crate::maps::Chart { d: tones(raw), w, h }, edge), feather).d;
    Seq::new(d.len(), |i: int| level(d[i]))
}

fn tones_of(raw: &Vec<u8>) -> (out: Vec<Signed>)
    ensures
        out@ == tones(raw@),
        crate::maps::is_map(out@),
{
    let n: usize = raw.len();
    let mut out: Vec<Signed> = Vec::new();
    let mut i: usize = 0;
    while i < n
        invariant
            i <= n == raw@.len(),
            out@.len() == i,
            forall|j: int| 0 <= j < i ==> #[trigger] out@[j] == tones(raw@)[j],
            crate::maps::is_map(out@),
        decreases n - i,
    {
        out.push(tone_of(raw[i]));
        i += 1;
    }
    out
}

fn moved_of(m: Mask, edge: i32) -> (out: Mask)
    requires
        m@.wf(),
        -100 <= edge <= 100,
    ensures
        out@ == moved(m@, edge as int),
        out@.wf(),
{
    if edge == 0 {
        return m;
    }
    let long: usize = longer_of(m.w, m.h);
    let r: usize = cap(edge_reach(edge, long as u32));
    let half = Signed::of(1, 2);
    let t = take_from(
        half,
        scale_by(divide_by(integer_of(edge as i64), whole(100)), Signed::of(30, 100)),
    );
    let lo = take_from(t, Signed::of(12, 100));
    let hi = add_to(t, Signed::of(12, 100));
    let b = box_mean(&m, r);
    let n: usize = b.d.len();
    let ghost want = moved(m@, edge as int).d;
    let mut d: Vec<Signed> = Vec::new();
    let mut i: usize = 0;
    while i < n
        invariant
            i <= n == b.d@.len() == want.len(),
            crate::maps::is_map(b.d@),
            crate::held::fits(lo),
            crate::held::fits(hi),
            forall|j: int| 0 <= j < n ==> #[trigger] want[j] == crate::maps::eased(lo, hi, b.d@[j]),
            d@.len() == i,
            forall|j: int| 0 <= j < i ==> #[trigger] d@[j] == want[j],
            crate::maps::is_map(d@),
        decreases n - i,
    {
        d.push(ease_between(lo, hi, b.d[i]));
        i += 1;
    }
    assert(d@ =~= want);
    Mask { d, w: m.w, h: m.h }
}

fn feathered_of(m: Mask, feather: i32) -> (out: Mask)
    requires
        m@.wf(),
        0 <= feather <= 100,
    ensures
        out@ == feathered(m@, feather as int),
        out@.wf(),
{
    let r: usize = cap(feather_reach(feather, longer_of(m.w, m.h) as u32));
    if r < 1 {
        m
    } else {
        box_mean(&box_mean(&m, r), (r + 1) / 2)
    }
}

fn levels_of(v: &Vec<Signed>) -> (out: Vec<u8>)
    requires
        crate::maps::is_map(v@),
    ensures
        out@.len() == v@.len(),
        forall|i: int| 0 <= i < out@.len() ==> #[trigger] out@[i] == level(v@[i]),
{
    let n: usize = v.len();
    let mut out: Vec<u8> = Vec::new();
    let mut i: usize = 0;
    while i < n
        invariant
            i <= n == v@.len(),
            crate::maps::is_map(v@),
            out@.len() == i,
            forall|j: int| 0 <= j < i ==> #[trigger] out@[j] == level(v@[j]),
        decreases n - i,
    {
        out.push(level_of(v[i]));
        i += 1;
    }
    out
}

/// A selection with its edge moved and softened (see [`refined`]).
pub fn refine_object(raw: &Vec<u8>, w: usize, h: usize, feather: i32, edge: i32) -> (out: Vec<u8>)
    requires
        raw@.len() == w * h,
        w <= crate::spread::longest(),
        h <= crate::spread::longest(),
        0 <= feather <= 100,
        -100 <= edge <= 100,
    ensures
        out@ == refined(raw@, w as int, h as int, feather as int, edge as int),
        out@.len() == raw@.len(),
        feather == 0 && edge == 0 ==> out@ == raw@,
        (forall|i: int| 0 <= i < raw@.len() ==> #[trigger] raw@[i] == 0) ==> out@ == raw@,
        (forall|i: int| 0 <= i < raw@.len() ==> #[trigger] raw@[i] == 255) ==> out@ == raw@,
{
    proof {
        law_refining_by_nothing(raw@, w as int, h as int);
        if w > 0 {
            law_full_and_empty_selections_stay(
                raw@,
                w as int,
                h as int,
                feather as int,
                edge as int,
            );
        }
    }
    if w == 0 || h == 0 {
        assert(w * h == 0) by (nonlinear_arith)
            requires
                w == 0 || h == 0,
        ;
        let none: Vec<u8> = Vec::new();
        assert(none@ =~= refined(raw@, w as int, h as int, feather as int, edge as int));
        return none;
    }
    let m = Mask { d: tones_of(raw), w, h };
    let f = feathered_of(moved_of(m, edge), feather);
    let out = levels_of(&f.d);
    assert(out@ =~= refined(raw@, w as int, h as int, feather as int, edge as int));
    out
}

/// A byte that was turned into a number is the same byte again.
proof fn lemma_byte_again(b: u8)
    ensures
        level(crate::held::over(Signed::part(b as int, 1), Signed::part(255, 1))) == b,
{
    reveal(crate::held::over);
    reveal(crate::held::times);
    reveal(Signed::quotient);
    reveal(Signed::product);
    let all = crate::single::nearest(255, 1);
    let one = crate::single::one();
    crate::single::lemma_small_nearest(255);
    crate::single::lemma_one();
    assert(crate::single::is_nearest(0, 1, crate::single::nought()));
    crate::single::law_nearest_unique(0, 1, crate::single::nought());
    crate::rounding::law_byte_survives(b as int);
    let k = crate::single::quotient(crate::single::nearest(b as int, 1), all);
    let p = crate::single::product(k, all);
    crate::rounding::law_product_keeps_order(k, one, all);
    crate::single::law_times_one(all);
    assert(one.m * all.m == all.m * one.m) by (nonlinear_arith);
    assert(crate::single::product(one, all) == all);
    let v = crate::held::over(Signed::part(b as int, 1), Signed::part(255, 1));
    assert(v == (Signed { neg: false, size: k }));
    assert(v.clamped(Signed::part(0, 1), Signed::part(1, 1)) == v);
    let t = crate::held::times(v, Signed::part(255, 1));
    assert(t == (Signed { neg: false, size: p }));
    assert(t.clamped(Signed::part(0, 1), Signed::part(255, 1)) == t);
}

/// No softness is no radius.
proof fn lemma_no_radius(long: int)
    ensures
        feather_radius(0, long) == 0,
{
    let none = crate::single::nought();
    let hundred = crate::single::nearest(100, 1);
    crate::single::lemma_small_nearest(100);
    assert(crate::single::is_nearest(0, 1, none));
    crate::single::law_nearest_unique(0, 1, none);
    crate::rounding::law_quotient_keeps_order(none, none, hundred);
    let five = crate::single::nearest(5, 100);
    assert(none.m * five.m == 0);
    let side = crate::single::nearest(long, 1);
    assert(none.m * side.m == 0);
    assert(crate::single::up(0) == 1);
}

/// 0.3, 0.12 and a half as numbers.
proof fn lemma_constants()
    ensures
        crate::single::nearest(30, 100) == (crate::single::Single { m: 10066330, e: -25i32 }),
        crate::single::nearest(12, 100) == (crate::single::Single { m: 16106127, e: -27i32 }),
        crate::single::nearest(1, 2) == (crate::single::Single { m: 0x80_0000, e: -24i32 }),
{
    vstd::arithmetic::power2::lemma2_to64();
    let a = crate::single::Single { m: 10066330, e: -25i32 };
    let b = crate::single::Single { m: 16106127, e: -27i32 };
    let c = crate::single::Single { m: 0x80_0000, e: -24i32 };
    assert(30 * crate::single::up(25) == 1006632960 && 100 * crate::single::up(-25) == 100);
    assert(12 * crate::single::up(27) == 1610612736 && 100 * crate::single::up(-27) == 100);
    assert(1 * crate::single::up(24) == 0x100_0000 && 2 * crate::single::up(-24) == 2);
    assert(crate::single::in_binade(30, 100, -25));
    assert(crate::single::in_binade(12, 100, -27));
    assert(crate::single::in_binade(1, 2, -24));
    assert(1006632960int / 100 == 10066329 && 1006632960int % 100 == 60);
    assert(1610612736int / 100 == 16106127 && 1610612736int % 100 == 36);
    assert(0x100_0000int / 2 == 0x80_0000 && 0x100_0000int % 2 == 0);
    assert(crate::single::is_rounded_at(
        crate::single::round_even(30 * crate::single::up(25), 100 * crate::single::up(-25)),
        -25,
        a,
    ));
    assert(crate::single::is_rounded_at(
        crate::single::round_even(12 * crate::single::up(27), 100 * crate::single::up(-27)),
        -27,
        b,
    ));
    assert(crate::single::is_rounded_at(
        crate::single::round_even(1 * crate::single::up(24), 2 * crate::single::up(-24)),
        -24,
        c,
    ));
    assert(crate::single::is_nearest(30, 100, a));
    assert(crate::single::is_nearest(12, 100, b));
    assert(crate::single::is_nearest(1, 2, c));
    crate::single::law_nearest_unique(30, 100, a);
    crate::single::law_nearest_unique(12, 100, b);
    crate::single::law_nearest_unique(1, 2, c);
}

/// A half less something up to three eighths is at least an eighth.
proof fn lemma_from_half(x: crate::single::Single)
    requires
        x.e == -25,
        0x80_0000 <= x.m <= 0xC0_0000,
    ensures
        ({
            let d = crate::single::difference(
                crate::single::Single { m: 0x80_0000, e: -24i32 },
                x,
            );
            &&& d.wf() && d.m > 0 && -60 <= d.e <= 0
            &&& crate::rounding::at_most(crate::single::Single { m: 0x80_0000, e: -26i32 }, d)
        }),
{
    vstd::arithmetic::power2::lemma2_to64();
    crate::single::lemma_up_add(64, 136);
    crate::single::lemma_up_pos(136);
    assert(crate::single::up(64) >= 0x100_0000) by {
        vstd::arithmetic::power2::lemma2_to64_rest();
    }
    assert(crate::single::up(200) >= 0x100_0000) by (nonlinear_arith)
        requires
            crate::single::up(200) == crate::single::up(64) * crate::single::up(136),
            crate::single::up(64) >= 0x100_0000,
            crate::single::up(136) >= 1,
    ;
    let n = 0x80_0000 * crate::single::up(1) - x.m;
    let rest = crate::single::Single { m: 0x80_0000, e: -1i32 };
    assert(0x40_0000 * crate::single::up(1) == 0x80_0000 && 1 * crate::single::up(-1) == 1);
    assert(crate::single::in_binade(0x40_0000, 1, -1));
    assert(0x80_0000int / 1 == 0x80_0000 && 0x80_0000int % 1 == 0);
    assert(crate::single::is_nearest(0x40_0000, 1, rest));
    crate::rounding::lemma_has_nearest(n, 200);
    crate::single::lemma_small_nearest(0x40_0000);
    crate::single::law_nearest_grows(0x40_0000, n, rest, crate::single::nearest(n, 1));
    assert(n * crate::single::up(0) == n && 1 * crate::single::up(0) == 1);
    assert(n <= 0x80_0000);
    crate::single::lemma_exponent_upto(n, 1, crate::single::nearest(n, 1), 0);
}

/// The edge of a selection, moved as far as it goes, stays well inside 0 to 1.
proof fn lemma_edge(edge: int)
    requires
        -100 <= edge <= 100,
    ensures
        ({
            let t = edge_at(edge);
            let lo = crate::held::minus(t, Signed::part(12, 100));
            let hi = crate::held::plus(t, Signed::part(12, 100));
            &&& crate::held::fits(lo) && !lo.neg
            &&& lo.size.m > 0 ==> lo.size.e >= -60
            &&& crate::held::fits(hi) && !hi.neg && hi.size.m > 0 && -60 <= hi.size.e <= 0
            &&& crate::rounding::at_most(hi.size, crate::single::one())
        }),
{
    reveal(crate::held::minus);
    reveal(crate::held::plus);
    reveal(crate::held::times);
    reveal(crate::held::over);
    reveal(Signed::sum);
    reveal(Signed::product);
    reveal(Signed::quotient);
    vstd::arithmetic::power2::lemma2_to64();
    vstd::arithmetic::power2::lemma2_to64_rest();
    let n = crate::align::magnitude(edge);
    let half = crate::single::Single { m: 0x80_0000, e: -24i32 };
    let third = crate::single::Single { m: 0xC0_0000, e: -25i32 };
    let eighth = crate::single::Single { m: 0x80_0000, e: -26i32 };
    let most = crate::single::Single { m: 0xE0_0000, e: -24i32 };
    let one = crate::single::one();
    lemma_constants();
    let c30 = crate::single::nearest(30, 100);
    let c12 = crate::single::nearest(12, 100);
    crate::single::lemma_small_nearest(100);
    let hundred = crate::single::nearest(100, 1);
    crate::rounding::law_integers_keep_order(n, 100);
    if n > 0 {
        crate::single::lemma_small_nearest(n);
    }
    assert(crate::single::is_nearest(0, 1, crate::single::nought()));
    crate::single::law_nearest_unique(0, 1, crate::single::nought());
    let a = crate::single::nearest(n, 1);
    crate::rounding::law_quotient_keeps_order(a, hundred, hundred);
    crate::single::lemma_equal_ratio(hundred.m as int);
    let k = crate::single::quotient(a, hundred);
    crate::rounding::law_product_keeps_order(k, one, c30);
    crate::single::law_times_one(c30);
    assert(one.m * c30.m == c30.m * one.m) by (nonlinear_arith);
    assert(crate::single::product(one, c30) == c30);
    let x = crate::single::product(k, c30);
    if n > 0 {
        crate::rounding::lemma_quotient_exponent(a, hundred);
        crate::single::lemma_product_nearest(k, c30);
        assert(-60 <= x.e);
    }
    assert(crate::rounding::at_most(x, third));
    assert(Signed::part(1, 2).size == half);
    crate::single::lemma_up_add(64, 0);
    crate::single::lemma_up_step(64);
    crate::single::lemma_up_step(65);
    assert(crate::single::up(66) == 4 * crate::single::up(64));
    assert(crate::single::up(65) == 2 * crate::single::up(64));
    crate::single::lemma_up_step(66);
    let t = edge_at(edge);
    if n == 0 {
        assert(x == crate::single::nought());
        assert(t == (Signed { neg: false, size: half }));
    } else if edge > 0 {
        if x.e <= -26 {
            crate::rounding::law_difference_from(half, x, third, eighth);
        } else {
            lemma_from_half(x);
        }
        crate::rounding::law_difference_keeps_order(x, half, x);
        assert(t == (Signed { neg: false, size: crate::single::difference(half, x) }));
        crate::rounding::law_difference_shrinks(half, x);
    } else {
        crate::rounding::law_sum_grows(half, x);
        crate::rounding::law_sum_within(half, x, half, third, most);
        assert(t == (Signed { neg: false, size: crate::single::total(half, x) }));
    }
    let s = t.size;
    assert(crate::rounding::at_most(eighth, s) && crate::rounding::at_most(s, most));
    crate::rounding::law_difference_keeps_order(c12, s, c12);
    crate::rounding::law_difference_shrinks(s, c12);
    crate::rounding::law_sum_grows(s, c12);
    crate::rounding::law_sum_within(s, c12, most, eighth, one);
    let lo = crate::single::difference(s, c12);
    let hi = crate::single::total(s, c12);
    assert(crate::held::minus(t, Signed::part(12, 100)) == (Signed { neg: false, size: lo }));
    assert(crate::held::plus(t, Signed::part(12, 100)) == (Signed { neg: false, size: hi }));
}

/// What lies at an end of the scale stays there when an edge is moved.
proof fn lemma_ends_stay(edge: int)
    requires
        -100 <= edge <= 100,
    ensures
        ({
            let t = edge_at(edge);
            let lo = crate::held::minus(t, Signed::part(12, 100));
            let hi = crate::held::plus(t, Signed::part(12, 100));
            &&& crate::maps::eased(lo, hi, Signed::part(0, 1)) == Signed::part(0, 1)
            &&& crate::maps::eased(lo, hi, Signed::part(1, 1)) == Signed::part(1, 1)
        }),
{
    lemma_edge(edge);
    let t = edge_at(edge);
    let lo = crate::held::minus(t, Signed::part(12, 100));
    let hi = crate::held::plus(t, Signed::part(12, 100));
    let zero = Signed::part(0, 1);
    let one = Signed::part(1, 1);
    crate::single::lemma_one();
    assert(crate::single::is_nearest(0, 1, crate::single::nought()));
    crate::single::law_nearest_unique(0, 1, crate::single::nought());
    lemma_three_less_two();
    crate::held::law_of_units(zero);
    crate::held::law_of_units(one);
    crate::single::lemma_small_nearest(2);
    crate::single::lemma_small_nearest(3);
    crate::held::law_of_units(Signed::part(2, 1));
    crate::held::law_of_units(Signed::part(3, 1));
    if lo.lies_below(hi) {
        let u = crate::held::over(
            crate::held::minus(zero, lo),
            crate::held::minus(hi, lo),
        ).clamped(zero, one);
        let v = crate::held::over(
            crate::held::minus(one, lo),
            crate::held::minus(hi, lo),
        ).clamped(zero, one);
        assert(u == zero && v == one) by {
            reveal(crate::held::minus);
            reveal(crate::held::over);
            reveal(Signed::sum);
            reveal(Signed::quotient);
            let a = crate::single::difference(hi.size, lo.size);
            let b = crate::single::difference(one.size, lo.size);
            lemma_gap(hi.size, lo.size);
            crate::rounding::law_difference_keeps_order(hi.size, one.size, lo.size);
            let d = Signed { neg: false, size: a };
            let e = Signed { neg: false, size: b };
            crate::rounding::law_difference_shrinks(one.size, lo.size);
            assert(crate::held::minus(hi, lo) == d);
            assert(crate::held::minus(one, lo) == e);
            crate::rounding::law_quotient_keeps_order(a, b, a);
            crate::single::lemma_equal_ratio(a.m as int);
            assert(crate::single::quotient(a, a) == crate::single::one());
            let q = crate::single::quotient(b, a);
            assert(crate::held::over(e, d) == (Signed { neg: false, size: q }));
            assert(v == one);
            if lo.size.m == 0 {
                assert(crate::held::minus(zero, lo) == zero);
                crate::held::law_of_units(d);
            } else {
                let below = Signed { neg: true, size: lo.size };
                assert(crate::held::minus(zero, lo) == below);
                crate::rounding::law_quotient_keeps_order(lo.size, lo.size, a);
                assert(crate::held::over(below, d).neg);
            }
            assert(u == zero);
        }
        assert(crate::held::times(zero, zero) == zero);
        assert(crate::held::times(Signed::part(2, 1), zero) == zero);
        assert(crate::held::times(one, one) == one);
        assert(crate::held::times(Signed::part(2, 1), one) == Signed::part(2, 1)) by {
            reveal(crate::held::times);
            reveal(Signed::product);
            crate::single::law_times_one(Signed::part(2, 1).size);
        }
        assert(crate::held::minus(Signed::part(3, 1), zero) == Signed::part(3, 1)) by {
            reveal(crate::held::minus);
            reveal(Signed::sum);
        }
        assert(crate::held::times(zero, Signed::part(3, 1)) == zero);
    }
}

/// Three less two is one.
proof fn lemma_three_less_two()
    ensures
        crate::held::minus(Signed::part(3, 1), Signed::part(2, 1)) == Signed::part(1, 1),
{
    reveal(crate::held::minus);
    reveal(Signed::sum);
    vstd::arithmetic::power2::lemma2_to64();
    let two = crate::single::Single { m: 0x80_0000, e: -22i32 };
    let three = crate::single::Single { m: 0xC0_0000, e: -22i32 };
    let rest = crate::single::Single { m: 0x80_0000, e: -1i32 };
    assert(2 * crate::single::up(22) == 0x80_0000 && 3 * crate::single::up(22) == 0xC0_0000);
    assert(0x40_0000 * crate::single::up(1) == 0x80_0000);
    assert(1 * crate::single::up(-22) == 1 && 1 * crate::single::up(-1) == 1);
    assert(crate::single::in_binade(2, 1, -22));
    assert(crate::single::in_binade(3, 1, -22));
    assert(crate::single::in_binade(0x40_0000, 1, -1));
    assert(0x80_0000int / 1 == 0x80_0000 && 0x80_0000int % 1 == 0);
    assert(0xC0_0000int / 1 == 0xC0_0000 && 0xC0_0000int % 1 == 0);
    assert(crate::single::is_nearest(2, 1, two));
    assert(crate::single::is_nearest(3, 1, three));
    assert(crate::single::is_nearest(0x40_0000, 1, rest));
    crate::single::law_nearest_unique(2, 1, two);
    crate::single::law_nearest_unique(3, 1, three);
    crate::single::law_nearest_unique(0x40_0000, 1, rest);
    crate::single::lemma_one();
    assert(three.m * crate::single::up(0) - two.m == 0x40_0000);
}

/// What lies between two numbers is something.
proof fn lemma_gap(a: crate::single::Single, b: crate::single::Single)
    requires
        a.wf(),
        b.wf(),
        -100 <= a.e <= 0,
        b.m > 0 ==> a.e - b.e <= 100,
        crate::single::below(b, a),
    ensures
        crate::single::difference(a, b).m > 0,
        -400 <= crate::single::difference(a, b).e <= 400,
{
    if b.m > 0 {
        crate::single::law_below_is_order(b, a, b.e as int);
        assert(b.m * crate::single::up(0) == b.m);
        crate::rounding::lemma_scaled_small(a.m as int, a.e - b.e);
        crate::rounding::lemma_has_nearest(a.m * crate::single::up(a.e - b.e) - b.m, 200);
    }
}

/// Everything selected, or nothing, stays so however the edge is softened and moved.
pub proof fn law_full_and_empty_selections_stay(
    raw: Seq<u8>,
    w: int,
    h: int,
    feather: int,
    edge: int,
)
    requires
        0 < w <= crate::spread::longest(),
        0 <= h <= crate::spread::longest(),
        raw.len() == w * h,
        0 <= feather <= 100,
        -100 <= edge <= 100,
    ensures
        (forall|i: int| 0 <= i < raw.len() ==> #[trigger] raw[i] == 0) ==> refined(
            raw,
            w,
            h,
            feather,
            edge,
        ) == raw,
        (forall|i: int| 0 <= i < raw.len() ==> #[trigger] raw[i] == 255) ==> refined(
            raw,
            w,
            h,
            feather,
            edge,
        ) == raw,
{
    let c = crate::maps::Chart { d: tones(raw), w, h };
    let m = moved(c, edge);
    let f = feathered(m, feather);
    let long = crate::signed::max_of(w, h);
    let r = crate::skies::capped(feather_radius(feather, long));
    lemma_ends_stay(edge);
    assert forall|b: u8|
        (b == 0 || b == 255) && (forall|i: int|
            0 <= i < raw.len() ==> #[trigger] raw[i] == b) implies #[trigger] stays(
        raw,
        w,
        h,
        feather,
        edge,
        b,
    ) by {
        let v = crate::held::over(Signed::part(b as int, 1), Signed::part(255, 1));
        lemma_end(b);
        assert(crate::steady::is_even(c.d, v));
        if edge != 0 {
            crate::steady::law_even_maps_stay(
                c,
                crate::skies::capped(edge_radius(edge, long)),
            );
        }
        assert(crate::steady::is_even(m.d, v));
        assert(m.d.len() == raw.len());
        if r >= 1 {
            crate::steady::law_even_maps_stay(m, r);
            crate::steady::law_even_maps_stay(crate::field::box_means(m, r), (r + 1) / 2);
        }
        assert(crate::steady::is_even(f.d, v));
        let out = refined(raw, w, h, feather, edge);
        assert forall|i: int| 0 <= i < out.len() implies #[trigger] out[i] == raw[i] by {
            lemma_byte_again(b);
            assert(f.d[i] == v);
        }
        assert(out =~= raw);
    }
    assert((forall|i: int| 0 <= i < raw.len() ==> #[trigger] raw[i] == 0) ==> stays(
        raw,
        w,
        h,
        feather,
        edge,
        0,
    ));
    assert((forall|i: int| 0 <= i < raw.len() ==> #[trigger] raw[i] == 255) ==> stays(
        raw,
        w,
        h,
        feather,
        edge,
        255,
    ));
}

/// A selection that is `b` all over stays as it is.
spec fn stays(raw: Seq<u8>, w: int, h: int, feather: int, edge: int, b: u8) -> bool {
    refined(raw, w, h, feather, edge) == raw
}

/// The ends of the scale.
proof fn lemma_end(b: u8)
    requires
        b == 0 || b == 255,
    ensures
        b == 0 ==> crate::held::over(Signed::part(b as int, 1), Signed::part(255, 1)) == Signed::part(0, 1),
        b == 255 ==> crate::held::over(Signed::part(b as int, 1), Signed::part(255, 1)) == Signed::part(1, 1),
{
    crate::single::lemma_small_nearest(255);
    crate::held::law_of_units(Signed::part(255, 1));
}

/// A selection that is neither softened nor moved stays as it is.
pub proof fn law_refining_by_nothing(raw: Seq<u8>, w: int, h: int)
    ensures
        refined(raw, w, h, 0, 0) == raw,
{
    lemma_no_radius(crate::signed::max_of(w, h));
    let c = crate::maps::Chart { d: tones(raw), w, h };
    assert(feathered(moved(c, 0), 0) == c);
    assert forall|i: int| 0 <= i < raw.len() implies #[trigger] refined(raw, w, h, 0, 0)[i]
        == raw[i] by {
        lemma_byte_again(raw[i]);
    }
    assert(refined(raw, w, h, 0, 0) =~= raw);
}

/// The first pixel of cell `k` of `n` over `side` pixels.
pub open spec fn cell_start(k: int, n: int, side: int) -> int {
    k * side / n
}

/// The end of cell `k`: at least one pixel on, but no further than the side.
pub open spec fn cell_end(k: int, n: int, side: int) -> int {
    crate::signed::min_of(
        crate::signed::max_of((k + 1) * side / n, cell_start(k, n, side) + 1),
        side,
    )
}

fn cell_span(k: usize, n: usize, side: usize) -> (r: (usize, usize))
    requires
        k < n <= side <= crate::spread::longest(),
    ensures
        (r.0 as int, r.1 as int) == (
            cell_start(k as int, n as int, side as int),
            cell_end(k as int, n as int, side as int),
        ),
        r.0 < r.1 <= side,
{
    assert(0 <= k * side <= 0xFFFF_FFFF * 0xFFFF_FFFF && 0 <= (k + 1) * side <= 0xFFFF_FFFF * 0xFFFF_FFFF)
        by (nonlinear_arith)
        requires
            k + 1 <= 0xFFFF_FFFF,
            side <= 0xFFFF_FFFF,
    ;
    let a: u64 = k as u64 * side as u64 / n as u64;
    let b: u64 = (k as u64 + 1) * side as u64 / n as u64;
    assert(k * side / (n as int) < side && 0 <= (k + 1) * side / (n as int) <= side)
        by (nonlinear_arith)
        requires
            k < n,
            side > 0,
    ;
    let c: u64 = if b < a + 1 {
        a + 1
    } else {
        b
    };
    let d: u64 = if c < side as u64 {
        c
    } else {
        side as u64
    };
    (a as usize, d as usize)
}

/// Channel `c` summed over the first `n` pixels of a part of a photo that is `w` pixels wide.
pub open spec fn patch_upto(
    p: crate::raster::Picture,
    x: int,
    y: int,
    w: int,
    c: int,
    n: int,
) -> Signed
    decreases n,
{
    if n <= 0 {
        Signed::part(0, 1)
    } else {
        crate::held::plus(
            patch_upto(p, x, y, w, c, n - 1),
            Signed::part(p.at(x + (n - 1) % w, y + (n - 1) / w, c) as int, 1),
        )
    }
}

/// The mean of channel `c` over a part of a photo.
pub open spec fn patch(p: crate::raster::Picture, x: int, y: int, w: int, h: int, c: int) -> Signed {
    crate::held::over(patch_upto(p, x, y, w, c, w * h), Signed::part(w * h, 1))
}

fn patch_of(img: &Raster, x: usize, y: usize, w: usize, h: usize, c: usize) -> (v: Signed)
    requires
        crate::subject::is_photo(img@),
        0 < w,
        0 < h,
        x + w <= img.w,
        y + h <= img.h,
        c < 3,
    ensures
        v == patch(img@, x as int, y as int, w as int, h as int, c as int),
        crate::held::fits(v),
{
    assert(0 < w * h <= img.w * img.h) by (nonlinear_arith)
        requires
            0 < w <= img.w,
            0 < h <= img.h,
    ;
    let n: usize = w * h;
    let mut s = Signed::zero();
    let mut k: usize = 0;
    while k < n
        invariant
            crate::subject::is_photo(img@),
            0 < w,
            0 < h,
            x + w <= img.w,
            y + h <= img.h,
            c < 3,
            k <= n == w * h,
            crate::held::fits(s),
            s == patch_upto(img@, x as int, y as int, w as int, c as int, k as int),
        decreases n - k,
    {
        proof {
            crate::grid::lemma_cell_split(k as int, w as int, h as int);
        }
        let b: u8 = img.get(x + k % w, y + k / w, c);
        s = add_to(s, whole(b as u64));
        k += 1;
    }
    divide_by(s, whole(n as u64))
}

/// Channel `c` of the cells of a grid over a part of a photo.
pub open spec fn cells(
    p: crate::raster::Picture,
    v: Window,
    w: int,
    h: int,
    c: int,
) -> Seq<Signed> {
    let cw = v.x1 - v.x0;
    let ch = v.y1 - v.y0;
    Seq::new(
        (w * h) as nat,
        |i: int|
            {
                let (x, y) = (i % w, i / w);
                patch(
                    p,
                    v.x0 + cell_start(x, w, cw),
                    v.y0 + cell_start(y, h, ch),
                    cell_end(x, w, cw) - cell_start(x, w, cw),
                    cell_end(y, h, ch) - cell_start(y, h, ch),
                    c,
                )
            },
    )
}

fn cells_of(img: &Raster, v: &Window, w: usize, h: usize, c: usize) -> (out: Vec<Signed>)
    requires
        crate::subject::is_photo(img@),
        v.x0 < v.x1 <= img.w,
        v.y0 < v.y1 <= img.h,
        0 < w <= v.x1 - v.x0,
        0 < h <= v.y1 - v.y0,
        c < 3,
    ensures
        out@ == cells(img@, *v, w as int, h as int, c as int),
        crate::maps::is_map(out@),
{
    let cw: usize = (v.x1 - v.x0) as usize;
    let ch: usize = (v.y1 - v.y0) as usize;
    assert(0 < w * h <= img.w * img.h) by (nonlinear_arith)
        requires
            0 < w <= img.w,
            0 < h <= img.h,
    ;
    let n: usize = w * h;
    let ghost want = cells(img@, *v, w as int, h as int, c as int);
    let mut out: Vec<Signed> = Vec::new();
    let mut i: usize = 0;
    while i < n
        invariant
            crate::subject::is_photo(img@),
            v.x0 < v.x1 <= img.w,
            v.y0 < v.y1 <= img.h,
            0 < w <= cw,
            0 < h <= ch,
            cw == v.x1 - v.x0,
            ch == v.y1 - v.y0,
            c < 3,
            want == cells(img@, *v, w as int, h as int, c as int),
            i <= n == w * h == want.len(),
            out@.len() == i,
            forall|j: int| 0 <= j < i ==> #[trigger] out@[j] == want[j],
            crate::maps::is_map(out@),
        decreases n - i,
    {
        proof {
            crate::grid::lemma_cell_split(i as int, w as int, h as int);
        }
        let (x0, x1) = cell_span(i % w, w, cw);
        let (y0, y1) = cell_span(i / w, h, ch);
        out.push(patch_of(img, v.x0 as usize + x0, v.y0 as usize + y0, x1 - x0, y1 - y0, c));
        i += 1;
    }
    assert(out@ =~= want);
    out
}

/// The step of a histogram that a channel falls in.
pub open spec fn bin(v: Signed) -> int {
    crate::stroke::first_cell(
        crate::held::over(crate::held::times(v, Signed::part(16, 1)), Signed::part(256, 1)),
        16,
    )
}

/// The colour of a histogram that each cell falls in.
pub open spec fn bins(r: Seq<Signed>, g: Seq<Signed>, b: Seq<Signed>) -> Seq<usize> {
    Seq::new(r.len(), |i: int| ((bin(r[i]) * 16 + bin(g[i])) * 16 + bin(b[i])) as usize)
}

fn bin_of(v: Signed) -> (k: usize)
    requires
        crate::held::fits(v),
    ensures
        k == bin(v),
        k < 16,
{
    first_cell_of(divide_by(scale_by(v, whole(16)), whole(256)), 16) as usize
}

fn bins_of(r: &Vec<Signed>, g: &Vec<Signed>, b: &Vec<Signed>) -> (out: Vec<usize>)
    requires
        r@.len() == g@.len() == b@.len(),
        crate::maps::is_map(r@),
        crate::maps::is_map(g@),
        crate::maps::is_map(b@),
    ensures
        out@ == bins(r@, g@, b@),
        forall|i: int| 0 <= i < out@.len() ==> #[trigger] out@[i] < COLOURS,
{
    let n: usize = r.len();
    let mut out: Vec<usize> = Vec::new();
    let mut i: usize = 0;
    while i < n
        invariant
            i <= n == r@.len() == g@.len() == b@.len(),
            crate::maps::is_map(r@),
            crate::maps::is_map(g@),
            crate::maps::is_map(b@),
            out@.len() == i,
            forall|j: int| 0 <= j < i ==> #[trigger] out@[j] == bins(r@, g@, b@)[j],
            forall|j: int| 0 <= j < i ==> #[trigger] out@[j] < COLOURS,
        decreases n - i,
    {
        out.push((bin_of(r[i]) * 16 + bin_of(g[i])) * 16 + bin_of(b[i]));
        i += 1;
    }
    out
}

/// What cells weigh in the histogram of the object, or of its surroundings: what lies outside the box
/// counts twice for the surroundings.
pub open spec fn weights(inside: Seq<bool>, fg: Seq<bool>, object: bool) -> Seq<Signed> {
    Seq::new(
        inside.len(),
        |i: int|
            if !inside[i] {
                if object {
                    Signed::part(0, 1)
                } else {
                    Signed::part(2, 1)
                }
            } else if fg[i] == object {
                Signed::part(1, 1)
            } else {
                Signed::part(0, 1)
            },
    )
}

fn weights_of(inside: &Vec<bool>, fg: &Vec<bool>, object: bool) -> (out: Vec<Signed>)
    requires
        inside@.len() == fg@.len(),
    ensures
        out@ == weights(inside@, fg@, object),
        crate::maps::is_map(out@),
{
    let n: usize = inside.len();
    let mut out: Vec<Signed> = Vec::new();
    let mut i: usize = 0;
    while i < n
        invariant
            i <= n == inside@.len() == fg@.len(),
            out@.len() == i,
            forall|j: int| 0 <= j < i ==> #[trigger] out@[j] == weights(inside@, fg@, object)[j],
            crate::maps::is_map(out@),
        decreases n - i,
    {
        out.push(
            if !inside[i] {
                if object {
                    Signed::zero()
                } else {
                    Signed::of(2, 1)
                }
            } else if fg[i] == object {
                Signed::of(1, 1)
            } else {
                Signed::zero()
            },
        );
        i += 1;
    }
    out
}

/// A histogram: what falls in each colour.
pub open spec fn histogram(v: Seq<Signed>, at: Seq<usize>) -> Seq<Signed> {
    Seq::new(COLOURS as nat, |b: int| crate::haze::pile(v, at, b, v.len() as int).sum)
}

fn histogram_of(v: &Vec<Signed>, at: &Vec<usize>) -> (out: Vec<Signed>)
    requires
        v@.len() == at@.len(),
        crate::maps::is_map(v@),
        forall|i: int| 0 <= i < at@.len() ==> #[trigger] at@[i] < COLOURS,
    ensures
        out@ == histogram(v@, at@),
        crate::maps::is_map(out@),
{
    let zero = Signed::zero();
    let n: usize = v.len();
    let mut out: Vec<Signed> = Vec::new();
    let mut b: usize = 0;
    while b < COLOURS
        invariant
            b <= COLOURS,
            zero == Signed::part(0, 1),
            crate::held::fits(zero),
            out@.len() == b,
            forall|j: int| 0 <= j < b ==> #[trigger] out@[j] == zero,
        decreases COLOURS - b,
    {
        out.push(zero);
        b += 1;
    }
    let mut i: usize = 0;
    while i < n
        invariant
            i <= n == v@.len() == at@.len(),
            crate::maps::is_map(v@),
            forall|j: int| 0 <= j < at@.len() ==> #[trigger] at@[j] < COLOURS,
            out@.len() == COLOURS,
            forall|j: int|
                0 <= j < COLOURS ==> #[trigger] out@[j] == crate::haze::pile(
                    v@,
                    at@,
                    j,
                    i as int,
                ).sum,
            crate::maps::is_map(out@),
        decreases n - i,
    {
        let a: usize = at[i];
        let s = add_to(out[a], v[i]);
        out.set(a, s);
        i += 1;
    }
    assert(out@ =~= histogram(v@, at@));
    out
}

/// A histogram, smoothed along one channel.
pub open spec fn blurred_along(h: Seq<Signed>, step: int) -> Seq<Signed> {
    Seq::new(
        h.len(),
        |i: int|
            {
                let k = (i / step) % 16;
                let lo = if k > 0 {
                    h[i - step]
                } else {
                    h[i]
                };
                let hi = if k + 1 < 16 {
                    h[i + step]
                } else {
                    h[i]
                };
                crate::held::times(
                    crate::held::plus(
                        crate::held::plus(lo, crate::held::times(Signed::part(2, 1), h[i])),
                        hi,
                    ),
                    Signed::part(1, 4),
                )
            },
    )
}

/// A histogram, smoothed along all channels.
pub open spec fn blurred(h: Seq<Signed>) -> Seq<Signed> {
    blurred_along(blurred_along(blurred_along(h, 1), 16), 256)
}

fn blur_along(h: &Vec<Signed>, step: usize) -> (out: Vec<Signed>)
    requires
        h@.len() == COLOURS,
        crate::maps::is_map(h@),
        step == 1 || step == 16 || step == 256,
    ensures
        out@ == blurred_along(h@, step as int),
        crate::maps::is_map(out@),
{
    let mut out: Vec<Signed> = Vec::new();
    let mut i: usize = 0;
    while i < COLOURS
        invariant
            i <= COLOURS == h@.len(),
            crate::maps::is_map(h@),
            step == 1 || step == 16 || step == 256,
            out@.len() == i,
            forall|j: int| 0 <= j < i ==> #[trigger] out@[j] == blurred_along(h@, step as int)[j],
            crate::maps::is_map(out@),
        decreases COLOURS - i,
    {
        let k: usize = (i / step) % 16;
        proof {
            if step == 1 {
                assert(k == (i / 1) % 16);
                assert(i / 1 == i);
            } else if step == 16 {
                assert(k == (i / 16) % 16);
            } else {
                assert(k == (i / 256) % 16);
            }
            assert(k > 0 ==> i >= step);
            assert(k + 1 < 16 ==> i + step < COLOURS);
        }
        let lo = if k > 0 {
            h[i - step]
        } else {
            h[i]
        };
        let hi = if k + 1 < 16 {
            h[i + step]
        } else {
            h[i]
        };
        out.push(
            scale_by(add_to(add_to(lo, scale_by(Signed::of(2, 1), h[i])), hi), Signed::of(1, 4)),
        );
        i += 1;
    }
    out
}

fn blurred_of(h: &Vec<Signed>) -> (out: Vec<Signed>)
    requires
        h@.len() == COLOURS,
        crate::maps::is_map(h@),
    ensures
        out@ == blurred(h@),
        out@.len() == COLOURS,
        crate::maps::is_map(out@),
{
    let a = blur_along(h, 1);
    let b = blur_along(&a, 16);
    blur_along(&b, 256)
}

/// How likely a colour is in a histogram with a total.
pub open spec fn likely(v: Signed, total: Signed) -> Signed {
    crate::held::over(
        crate::held::plus(v, Signed::part(2, 100)),
        crate::held::plus(total, crate::held::times(Signed::part(2, 100), Signed::part(4096, 1))),
    )
}

/// How likely each cell belongs to the object, by its colour.
pub open spec fn chances(hf: Seq<Signed>, hb: Seq<Signed>, at: Seq<usize>) -> Seq<Signed> {
    let nf = crate::survey::sum(hf);
    let nb = crate::survey::sum(hb);
    Seq::new(
        at.len(),
        |i: int|
            {
                let pf = likely(hf[at[i] as int], nf);
                let pb = likely(hb[at[i] as int], nb);
                crate::held::over(pf, crate::held::plus(pf, pb))
            },
    )
}

fn likely_of(v: Signed, total: Signed) -> (r: Signed)
    requires
        crate::held::fits(v),
        crate::held::fits(total),
    ensures
        r == likely(v, total),
        crate::held::fits(r),
{
    divide_by(
        add_to(v, Signed::of(2, 100)),
        add_to(total, scale_by(Signed::of(2, 100), whole(4096))),
    )
}

fn chances_of(hf: &Vec<Signed>, hb: &Vec<Signed>, nf: Signed, nb: Signed, at: &Vec<usize>) -> (out:
    Vec<Signed>)
    requires
        hf@.len() == hb@.len() == COLOURS,
        crate::maps::is_map(hf@),
        crate::maps::is_map(hb@),
        nf == crate::survey::sum(hf@),
        nb == crate::survey::sum(hb@),
        crate::held::fits(nf),
        crate::held::fits(nb),
        forall|i: int| 0 <= i < at@.len() ==> #[trigger] at@[i] < COLOURS,
    ensures
        out@ == chances(hf@, hb@, at@),
        crate::maps::is_map(out@),
{
    let n: usize = at.len();
    let mut out: Vec<Signed> = Vec::new();
    let mut i: usize = 0;
    while i < n
        invariant
            i <= n == at@.len(),
            hf@.len() == hb@.len() == COLOURS,
            crate::maps::is_map(hf@),
            crate::maps::is_map(hb@),
            nf == crate::survey::sum(hf@),
            nb == crate::survey::sum(hb@),
            crate::held::fits(nf),
            crate::held::fits(nb),
            forall|j: int| 0 <= j < at@.len() ==> #[trigger] at@[j] < COLOURS,
            out@.len() == i,
            forall|j: int| 0 <= j < i ==> #[trigger] out@[j] == chances(hf@, hb@, at@)[j],
            crate::maps::is_map(out@),
        decreases n - i,
    {
        let pf = likely_of(hf[at[i]], nf);
        let pb = likely_of(hb[at[i]], nb);
        out.push(divide_by(pf, add_to(pf, pb)));
        i += 1;
    }
    out
}

/// The cells that were told to be the object, and how likely each is; none where one of the histograms is
/// empty.
pub struct Told {
    pub fg: Seq<bool>,
    pub prob: Seq<Signed>,
}

/// The histogram of the object, or of its surroundings, smoothed.
pub open spec fn smooth_histogram(
    inside: Seq<bool>,
    fg: Seq<bool>,
    at: Seq<usize>,
    object: bool,
) -> Seq<Signed> {
    blurred(histogram(weights(inside, fg, object), at))
}

/// The cells of the box that are more likely the object than not.
pub open spec fn likelier(inside: Seq<bool>, prob: Seq<Signed>) -> Seq<bool> {
    Seq::new(inside.len(), |i: int| inside[i] && Signed::part(1, 2).lies_below(prob[i]))
}

/// The object told from its surroundings once more.
pub open spec fn told_again(
    inside: Seq<bool>,
    fg: Seq<bool>,
    at: Seq<usize>,
    w: int,
    h: int,
    r: int,
) -> Option<Told> {
    let hf = smooth_histogram(inside, fg, at, true);
    let hb = smooth_histogram(inside, fg, at, false);
    if !Signed::part(0, 1).lies_below(crate::survey::sum(hf)) || !Signed::part(0, 1).lies_below(
        crate::survey::sum(hb),
    ) {
        None
    } else {
        let prob = crate::field::box_means(
            crate::maps::Chart { d: chances(hf, hb, at), w, h },
            r,
        ).d;
        Some(Told { fg: likelier(inside, prob), prob })
    }
}

/// The object told from its surroundings `k` times, at first by the box alone.
pub open spec fn told(
    inside: Seq<bool>,
    at: Seq<usize>,
    w: int,
    h: int,
    r: int,
    k: int,
) -> Option<Told>
    decreases k,
{
    if k <= 1 {
        told_again(inside, inside, at, w, h, r)
    } else {
        match told(inside, at, w, h, r, k - 1) {
            Some(t) => told_again(inside, t.fg, at, w, h, r),
            None => None,
        }
    }
}

fn likelier_of(inside: &Vec<bool>, prob: &Vec<Signed>) -> (out: Vec<bool>)
    requires
        inside@.len() == prob@.len(),
        crate::maps::is_map(prob@),
    ensures
        out@ == likelier(inside@, prob@),
{
    let n: usize = inside.len();
    let half = Signed::of(1, 2);
    let mut out: Vec<bool> = Vec::new();
    let mut i: usize = 0;
    while i < n
        invariant
            i <= n == inside@.len() == prob@.len(),
            crate::maps::is_map(prob@),
            half == Signed::part(1, 2),
            crate::held::fits(half),
            out@.len() == i,
            forall|j: int| 0 <= j < i ==> #[trigger] out@[j] == likelier(inside@, prob@)[j],
        decreases n - i,
    {
        out.push(inside[i] && half.less(prob[i]));
        i += 1;
    }
    out
}

fn tell_again(inside: &Vec<bool>, fg: &Vec<bool>, at: &Vec<usize>, w: usize, h: usize, r: usize) -> (
    out: Option<(Vec<bool>, Mask)>)
    requires
        0 < w <= crate::spread::longest(),
        0 < h <= crate::spread::longest(),
        inside@.len() == fg@.len() == at@.len() == w * h,
        forall|i: int| 0 <= i < at@.len() ==> #[trigger] at@[i] < COLOURS,
        r <= crate::spread::longest(),
    ensures
        out is Some <==> told_again(inside@, fg@, at@, w as int, h as int, r as int) is Some,
        out matches Some(v) ==> {
            let t = told_again(inside@, fg@, at@, w as int, h as int, r as int)->0;
            &&& v.0@ == t.fg
            &&& v.1@.d == t.prob
            &&& v.1@.wf()
            &&& v.1@.w == w
            &&& v.1@.h == h
        },
{
    let zero = Signed::zero();
    let hf = blurred_of(&histogram_of(&weights_of(inside, fg, true), at));
    let hb = blurred_of(&histogram_of(&weights_of(inside, fg, false), at));
    let nf = sum_of(&hf);
    let nb = sum_of(&hb);
    if !zero.less(nf) || !zero.less(nb) {
        return None;
    }
    let d = chances_of(&hf, &hb, nf, nb, at);
    let prob = box_mean(&Mask { d, w, h }, r);
    let next = likelier_of(inside, &prob.d);
    Some((next, prob))
}

fn tell(inside: &Vec<bool>, at: &Vec<usize>, w: usize, h: usize, r: usize) -> (out: Option<(
    Vec<bool>,
    Mask,
)>)
    requires
        0 < w <= crate::spread::longest(),
        0 < h <= crate::spread::longest(),
        inside@.len() == at@.len() == w * h,
        forall|i: int| 0 <= i < at@.len() ==> #[trigger] at@[i] < COLOURS,
        r <= crate::spread::longest(),
    ensures
        out is Some <==> told(inside@, at@, w as int, h as int, r as int, ROUNDS as int) is Some,
        out matches Some(v) ==> {
            let t = told(inside@, at@, w as int, h as int, r as int, ROUNDS as int)->0;
            &&& v.0@ == t.fg
            &&& v.1@.d == t.prob
            &&& v.1@.wf()
            &&& v.1@.w == w
            &&& v.1@.h == h
        },
{
    reveal_with_fuel(told, 5);
    let a = match tell_again(inside, inside, at, w, h, r) {
        Some(v) => v,
        None => {
            return None;
        },
    };
    let b = match tell_again(inside, &a.0, at, w, h, r) {
        Some(v) => v,
        None => {
            return None;
        },
    };
    let c = match tell_again(inside, &b.0, at, w, h, r) {
        Some(v) => v,
        None => {
            return None;
        },
    };
    tell_again(inside, &c.0, at, w, h, r)
}

/// The light of each cell, from 0 to 1.
pub open spec fn lums(r: Seq<Signed>, g: Seq<Signed>, b: Seq<Signed>) -> Seq<Signed> {
    Seq::new(
        r.len(),
        |i: int| crate::held::over(crate::haze::glow(r[i], g[i], b[i]), Signed::part(255, 1)),
    )
}

fn lums_of(r: &Vec<Signed>, g: &Vec<Signed>, b: &Vec<Signed>) -> (out: Vec<Signed>)
    requires
        r@.len() == g@.len() == b@.len(),
        crate::maps::is_map(r@),
        crate::maps::is_map(g@),
        crate::maps::is_map(b@),
    ensures
        out@ == lums(r@, g@, b@),
        crate::maps::is_map(out@),
{
    let n: usize = r.len();
    let mut out: Vec<Signed> = Vec::new();
    let mut i: usize = 0;
    while i < n
        invariant
            i <= n == r@.len() == g@.len() == b@.len(),
            crate::maps::is_map(r@),
            crate::maps::is_map(g@),
            crate::maps::is_map(b@),
            out@.len() == i,
            forall|j: int| 0 <= j < i ==> #[trigger] out@[j] == lums(r@, g@, b@)[j],
            crate::maps::is_map(out@),
        decreases n - i,
    {
        out.push(divide_by(glow_of(r[i], g[i], b[i]), whole(255)));
        i += 1;
    }
    out
}

/// The cells of a grid whose middles lie in a box.
pub open spec fn boxed(v: Window, b: Region, iw: int, ih: int, w: int, h: int) -> Seq<bool> {
    Seq::new(
        (w * h) as nat,
        |i: int|
            crate::object::falls_between(
                i % w,
                w,
                v.x0 as int,
                v.x1 as int,
                iw,
                b.x0.size,
                b.x1.size,
            ) && crate::object::falls_between(
                i / w,
                h,
                v.y0 as int,
                v.y1 as int,
                ih,
                b.y0.size,
                b.y1.size,
            ),
    )
}

/// The cells that are surely the object.
pub open spec fn sure(prob: Seq<Signed>) -> Seq<bool> {
    Seq::new(prob.len(), |i: int| !prob[i].lies_below(Signed::part(62, 100)))
}

fn sure_of(prob: &Vec<Signed>) -> (out: Vec<bool>)
    requires
        crate::maps::is_map(prob@),
    ensures
        out@ == sure(prob@),
{
    let n: usize = prob.len();
    let least = Signed::of(62, 100);
    let mut out: Vec<bool> = Vec::new();
    let mut i: usize = 0;
    while i < n
        invariant
            i <= n == prob@.len(),
            crate::maps::is_map(prob@),
            least == Signed::part(62, 100),
            crate::held::fits(least),
            out@.len() == i,
            forall|j: int| 0 <= j < i ==> #[trigger] out@[j] == sure(prob@)[j],
        decreases n - i,
    {
        out.push(!prob[i].less(least));
        i += 1;
    }
    out
}

/// The cells of solid parts of the object.
pub open spec fn solid(inside: Seq<bool>, t: Told, w: int) -> Seq<bool> {
    Seq::new(
        t.fg.len(),
        |i: int|
            crate::blobs::stays(
                t.fg,
                sure(t.prob),
                w,
                crate::object::speck_size(crate::object::count(inside)),
                i,
            ),
    )
}

/// How likely the cells that are kept are, on average, is enough.
pub open spec fn is_certain(keep: Seq<bool>, prob: Seq<Signed>) -> bool {
    let v = crate::survey::picked(prob, keep);
    v.len() > 0 && !crate::held::over(
        crate::survey::sum(v),
        Signed::part(v.len() as int, 1),
    ).lies_below(Signed::part(65, 100))
}

fn is_certain_of(keep: &Vec<bool>, prob: &Vec<Signed>) -> (b: bool)
    requires
        keep@.len() == prob@.len(),
        crate::maps::is_map(prob@),
    ensures
        b == is_certain(keep@, prob@),
{
    let v = crate::survey::picked_of(prob, keep);
    let n: usize = v.len();
    if n == 0 {
        return false;
    }
    !divide_by(sum_of(&v), whole(n as u64)).less(Signed::of(65, 100))
}

/// The whole shape of the object, without holes.
pub open spec fn shape(keep: Seq<bool>, inside: Seq<bool>, w: int, h: int) -> Seq<bool> {
    Seq::new(
        keep.len(),
        |i: int|
            !crate::blobs::open_to_rim(
                crate::object::closed_parts(keep, inside, w, h),
                w,
                h,
                i,
            ),
    )
}

/// Yes is 1 and no is 0.
pub open spec fn plain(on: Seq<bool>) -> Seq<Signed> {
    Seq::new(
        on.len(),
        |i: int|
            if on[i] {
                Signed::part(1, 1)
            } else {
                Signed::part(0, 1)
            },
    )
}

fn plain_of(on: &Vec<bool>) -> (out: Vec<Signed>)
    ensures
        out@ == plain(on@),
        crate::maps::is_map(out@),
{
    let n: usize = on.len();
    let mut out: Vec<Signed> = Vec::new();
    let mut i: usize = 0;
    while i < n
        invariant
            i <= n == on@.len(),
            out@.len() == i,
            forall|j: int| 0 <= j < i ==> #[trigger] out@[j] == plain(on@)[j],
            crate::maps::is_map(out@),
        decreases n - i,
    {
        out.push(
            if on[i] {
                Signed::of(1, 1)
            } else {
                Signed::zero()
            },
        );
        i += 1;
    }
    out
}

/// The selection as bytes: nothing outside the box.
pub open spec fn raw(inside: Seq<bool>, soft: Seq<Signed>) -> Seq<u8> {
    Seq::new(
        soft.len(),
        |i: int|
            level(
                if inside[i] {
                    soft[i]
                } else {
                    Signed::part(0, 1)
                },
            ),
    )
}

fn raw_of(inside: &Vec<bool>, soft: &Vec<Signed>) -> (out: Vec<u8>)
    requires
        inside@.len() == soft@.len(),
        crate::maps::is_map(soft@),
    ensures
        out@ == raw(inside@, soft@),
{
    let n: usize = soft.len();
    let mut out: Vec<u8> = Vec::new();
    let mut i: usize = 0;
    while i < n
        invariant
            i <= n == inside@.len() == soft@.len(),
            crate::maps::is_map(soft@),
            out@.len() == i,
            forall|j: int| 0 <= j < i ==> #[trigger] out@[j] == raw(inside@, soft@)[j],
        decreases n - i,
    {
        out.push(
            if inside[i] {
                level_of(soft[i])
            } else {
                level_of(Signed::zero())
            },
        );
        i += 1;
    }
    out
}

/// The selection of an object on the grid of a window, as bytes; none where no object is told.
pub open spec fn found(
    p: crate::raster::Picture,
    v: Window,
    b: Region,
    w: int,
    h: int,
) -> Option<Seq<u8>> {
    let inside = boxed(v, b, p.w, p.h, w, h);
    let cr = cells(p, v, w, h, 0);
    let cg = cells(p, v, w, h, 1);
    let cb = cells(p, v, w, h, 2);
    let long = crate::scale::longer(w, h);
    let rs = crate::skies::capped(crate::object::reach(long, 12, 1000, 1));
    let rg = crate::skies::capped(crate::object::reach(long, 15, 1000, 2));
    if crate::object::count(inside) < 16 {
        None
    } else {
        match told(inside, bins(cr, cg, cb), w, h, rs, ROUNDS as int) {
            None => None,
            Some(t) => {
                let keep = solid(inside, t, w);
                if !(exists|i: int| 0 <= i < keep.len() && #[trigger] keep[i]) || !is_certain(
                    keep,
                    t.prob,
                ) {
                    None
                } else {
                    let soft = crate::field::guided(
                        crate::maps::Chart { d: lums(cr, cg, cb), w, h },
                        plain(shape(keep, inside, w, h)),
                        rg,
                        Signed::part(1, 1000),
                    );
                    Some(raw(inside, soft.d))
                }
            },
        }
    }
}

fn find(img: &Raster, v: &Window, b: &Region, w: usize, h: usize) -> (out: Option<Vec<u8>>)
    requires
        crate::subject::is_photo(img@),
        v.x0 < v.x1 <= img.w,
        v.y0 < v.y1 <= img.h,
        8 <= w <= v.x1 - v.x0,
        8 <= h <= v.y1 - v.y0,
        w <= 0x8000,
        h <= 0x8000,
        b.wf(),
    ensures
        out is Some <==> found(img@, *v, *b, w as int, h as int) is Some,
        out matches Some(r) ==> r@ == found(img@, *v, *b, w as int, h as int)->0 && r@.len() == w * h,
{
    assert(0 < w * h <= img.w * img.h && w * h <= 0x8000 * 0x8000) by (nonlinear_arith)
        requires
            0 < w <= img.w,
            0 < h <= img.h,
            w <= 0x8000,
            h <= 0x8000,
    ;
    let cr = cells_of(img, v, w, h, 0);
    let cg = cells_of(img, v, w, h, 1);
    let cb = cells_of(img, v, w, h, 2);
    let inside = asked_cells(v, b, img.w as u32, img.h as u32, w as u32, h as u32);
    proof {
        assert forall|i: int| 0 <= i < w * h implies inside@[i] == boxed(
            *v,
            *b,
            img@.w,
            img@.h,
            w as int,
            h as int,
        )[i] by {
            crate::grid::lemma_cell_split(i, w as int, h as int);
            assert(crate::grid::cell(i % w as int, i / w as int, w as int) == i);
        }
        assert(inside@ =~= boxed(*v, *b, img@.w, img@.h, w as int, h as int));
    }
    if count_set(&inside) < 16 {
        return None;
    }
    let at = bins_of(&cr, &cg, &cb);
    let rs: usize = cap(reach_of(w as u32, h as u32, 12, 1000, 1));
    let (fg, prob) = match tell(&inside, &at, w, h, rs) {
        Some(t) => t,
        None => {
            return None;
        },
    };
    let ghost t = Told { fg: fg@, prob: prob@.d };
    let strong = sure_of(&prob.d);
    let parts = solid_parts(&inside, &fg, &strong, w, h);
    let keep = match parts {
        Some(k) => k,
        None => {
            proof {
                let k = solid(inside@, t, w as int);
                assert forall|i: int| 0 <= i < k.len() implies !#[trigger] k[i] by {
                    assert(!crate::blobs::stays(
                        fg@,
                        strong@,
                        w as int,
                        crate::object::speck_size(crate::object::count(inside@)),
                        i,
                    ));
                }
            }
            return None;
        },
    };
    proof {
        assert(keep@ =~= solid(inside@, t, w as int));
        let i = choose|i: int|
            0 <= i < fg@.len() && #[trigger] crate::blobs::stays(
                fg@,
                strong@,
                w as int,
                crate::object::speck_size(crate::object::count(inside@)),
                i,
            );
        assert(keep@[i]);
    }
    if !is_certain_of(&keep, &prob.d) {
        return None;
    }
    let all = whole_shape(&keep, &inside, w as u32, h as u32);
    assert(all@ =~= shape(keep@, inside@, w as int, h as int));
    let rg: usize = cap(reach_of(w as u32, h as u32, 15, 1000, 2));
    let guide = Guide::new(Mask { d: lums_of(&cr, &cg, &cb), w, h }, rg);
    let soft = guide.filter(&Mask { d: plain_of(&all), w, h }, Signed::of(1, 1000));
    Some(raw_of(&inside, &soft.d))
}

/// The part of a photo that a window shows.
pub open spec fn area(v: Window, iw: int, ih: int) -> Region {
    Region {
        x0: crate::held::over(Signed::part(v.x0 as int, 1), Signed::part(iw, 1)),
        y0: crate::held::over(Signed::part(v.y0 as int, 1), Signed::part(ih, 1)),
        x1: crate::held::over(Signed::part(v.x1 as int, 1), Signed::part(iw, 1)),
        y1: crate::held::over(Signed::part(v.y1 as int, 1), Signed::part(ih, 1)),
    }
}

/// `o` is the selection of the object in a box of a photo.
pub open spec fn is_selection(
    p: crate::raster::Picture,
    v: Window,
    b: Region,
    feather: int,
    edge: int,
    o: &Object,
) -> bool {
    let f = crate::scale::within(feather, 0, 100);
    let e = crate::scale::within(edge, -100, 100);
    &&& found(p, v, b, o.w as int, o.h as int) == Some(o.raw@)
    &&& o.mask@ == refined(o.raw@, o.w as int, o.h as int, f, e)
    &&& o.area == area(v, p.w, p.h)
    &&& o.feather == f
    &&& o.edge == e
}

/// The sides of the grid that a window is worked on.
pub open spec fn grid_sides(v: Window) -> (int, int) {
    let cw = v.x1 - v.x0;
    let ch = v.y1 - v.y0;
    let k = crate::scale::shrink_factor(
        crate::scale::longer(cw, ch),
        crate::object::OBJECT_WORK_EDGE as int,
    );
    (
        crate::scale::at_least(crate::scale::scaled(cw, k), 8),
        crate::scale::at_least(crate::scale::scaled(ch, k), 8),
    )
}

/// The window that an object in a box is looked for in; none for a box or a photo that is too small.
pub open spec fn window_of(sel: Region, iw: int, ih: int) -> Option<Window> {
    let b = sel.upright();
    let x0 = crate::object::first_pixel(b.x0.size, b.x1.size, iw);
    let y0 = crate::object::first_pixel(b.y0.size, b.y1.size, ih);
    let x1 = crate::object::end_pixel(b.x0.size, b.x1.size, iw);
    let y1 = crate::object::end_pixel(b.y0.size, b.y1.size, ih);
    if b.usable() && iw >= 8 && ih >= 8 && x1 - x0 >= 8 && y1 - y0 >= 8 {
        Some(Window { x0: x0 as u32, y0: y0 as u32, x1: x1 as u32, y1: y1 as u32 })
    } else {
        None
    }
}

/// Selects the object in a box by the colours in it and around it. There is none where the box or the
/// photo is too small, where no object is told, or where too little of it is left.
pub fn select_object(img: &Raster, sel: Region, feather: i32, edge: i32) -> (r: Option<Object>)
    requires
        crate::subject::is_photo(img@),
        sel.wf(),
    ensures
        match window_of(sel, img@.w, img@.h) {
            None => r is None,
            Some(v) => {
                let (w, h) = grid_sides(v);
                match found(img@, v, sel.upright(), w, h) {
                    None => r is None,
                    Some(d) => match r {
                        Some(o) => o.w == w && o.h == h && is_selection(
                            img@,
                            v,
                            sel.upright(),
                            feather as int,
                            edge as int,
                            &o,
                        ) && o.usable(),
                        None => exists|o: Object| o.w == w && o.h == h && #[trigger] is_selection(
                            img@,
                            v,
                            sel.upright(),
                            feather as int,
                            edge as int,
                            &o,
                        ) && !o.usable(),
                    },
                }
            },
        },
{
    let iw: u32 = img.w as u32;
    let ih: u32 = img.h as u32;
    let (asked, v) = match search_window(sel, iw, ih) {
        Some(t) => t,
        None => {
            return None;
        },
    };
    let (gw, gh) = work_grid(v.x1 - v.x0, v.y1 - v.y0);
    let w: usize = gw as usize;
    let h: usize = gh as usize;
    let raw = match find(img, &v, &asked, w, h) {
        Some(d) => d,
        None => {
            return None;
        },
    };
    let f: i32 = crate::smoke::clamp(feather, 0, 100);
    let e: i32 = crate::smoke::clamp(edge, -100, 100);
    let mask = refine_object(&raw, w, h, f, e);
    let area = Region {
        x0: divide_by(whole(v.x0 as u64), whole(iw as u64)),
        y0: divide_by(whole(v.y0 as u64), whole(ih as u64)),
        x1: divide_by(whole(v.x1 as u64), whole(iw as u64)),
        y1: divide_by(whole(v.y1 as u64), whole(ih as u64)),
    };
    assert(w * h <= 0x8000 * 0x8000) by (nonlinear_arith)
        requires
            w <= 0x8000,
            h <= 0x8000,
    ;
    let o = Object { raw, mask, w, h, area, feather: f, edge: e };
    assert(is_selection(img@, v, sel.upright(), feather as int, edge as int, &o));
    if o.is_usable() {
        Some(o)
    } else {
        None
    }
}

/// How much each place is free of lines.
pub open spec fn lineless(y: crate::maps::Chart) -> crate::maps::Chart {
    let r = crate::skies::radii(y.w, y.h).0;
    let near = crate::field::box_means(y, r);
    let detail = crate::field::box_means(
        crate::maps::Chart { d: crate::subject::apart(y.d, near.d), w: y.w, h: y.h },
        r,
    );
    let streak = crate::maps::Chart {
        d: Seq::new(
            y.d.len(),
            |i: int|
                crate::maps::eased(
                    Signed::part(125, 1000),
                    Signed::part(1, 2),
                    crate::skies::contrast(detail.d[i], near.d[i]),
                ),
        ),
        w: y.w,
        h: y.h,
    };
    let wide = crate::field::box_means(crate::field::extremes(streak, r, true), r);
    crate::maps::Chart {
        d: Seq::new(y.d.len(), |i: int| crate::held::minus(Signed::part(1, 1), wide.d[i])),
        w: y.w,
        h: y.h,
    }
}

fn streak_map(detail: &Mask, near: &Mask) -> (out: Mask)
    requires
        detail@.wf(),
        near@.wf(),
        detail@.w == near@.w,
        detail@.h == near@.h,
    ensures
        out@.wf(),
        out@ == (crate::maps::Chart {
            d: Seq::new(
                near@.d.len(),
                |i: int|
                    crate::maps::eased(
                        Signed::part(125, 1000),
                        Signed::part(1, 2),
                        crate::skies::contrast(detail@.d[i], near@.d[i]),
                    ),
            ),
            w: near@.w,
            h: near@.h,
        }),
{
    let n: usize = near.d.len();
    let lo = Signed::of(125, 1000);
    let hi = Signed::of(1, 2);
    let ghost want = Seq::new(
        near@.d.len(),
        |i: int|
            crate::maps::eased(
                Signed::part(125, 1000),
                Signed::part(1, 2),
                crate::skies::contrast(detail@.d[i], near@.d[i]),
            ),
    );
    let mut d: Vec<Signed> = Vec::new();
    let mut i: usize = 0;
    while i < n
        invariant
            i <= n == near.d@.len() == detail.d@.len() == want.len(),
            crate::maps::is_map(near.d@),
            crate::maps::is_map(detail.d@),
            crate::held::fits(lo),
            crate::held::fits(hi),
            forall|j: int|
                0 <= j < n ==> #[trigger] want[j] == crate::maps::eased(
                    lo,
                    hi,
                    crate::skies::contrast(detail.d@[j], near.d@[j]),
                ),
            d@.len() == i,
            forall|j: int| 0 <= j < i ==> #[trigger] d@[j] == want[j],
            crate::maps::is_map(d@),
        decreases n - i,
    {
        d.push(ease_between(lo, hi, contrast_of(detail.d[i], near.d[i])));
        i += 1;
    }
    assert(d@ =~= want);
    Mask { d, w: near.w, h: near.h }
}

/// How much each place is free of lines (see [`lineless`]).
pub fn sky_points(y: &Mask) -> (out: Mask)
    requires
        y@.wf(),
    ensures
        out@ == lineless(y@),
        out@.wf(),
{
    let r: usize = detail_radii(longer_of(y.w, y.h) as u32).0 as usize;
    let near = box_mean(y, r);
    let apart = Mask { d: apart_of(&y.d, &near.d), w: y.w, h: y.h };
    let detail = box_mean(&apart, r);
    let streak = streak_map(&detail, &near);
    let wide = box_mean(&max_filter(&streak, r), r);
    let n: usize = wide.d.len();
    let ghost want = lineless(y@).d;
    let mut d: Vec<Signed> = Vec::new();
    let mut i: usize = 0;
    while i < n
        invariant
            i <= n == wide.d@.len() == want.len(),
            crate::maps::is_map(wide.d@),
            forall|j: int|
                0 <= j < n ==> #[trigger] want[j] == crate::held::minus(Signed::part(1, 1), wide.d@[j]),
            d@.len() == i,
            forall|j: int| 0 <= j < i ==> #[trigger] d@[j] == want[j],
            crate::maps::is_map(d@),
        decreases n - i,
    {
        d.push(take_from(Signed::of(1, 1), wide.d[i]));
        i += 1;
    }
    assert(d@ =~= want);
    Mask { d, w: y.w, h: y.h }
}

/// The long edge of the photo that a copy was made of: that of the photo itself unless a longer one is
/// named.
pub open spec fn real_long(source: int, w: int, h: int) -> int {
    crate::signed::max_of(source, crate::signed::max_of(w, h))
}

/// The sky on a copy of a photo, as bytes.
pub open spec fn sky_raw(
    s: crate::raster::Picture,
    tones: Seq<Signed>,
    source: int,
    sea: Signed,
) -> Seq<u8> {
    let y = crate::haze::linear(s, tones).glows();
    let a = crate::skies::region(y, source, sea).d;
    let b = lineless(y).d;
    Seq::new(a.len(), |i: int| level(crate::held::times(a[i], b[i])))
}

/// `o` is the selection of the sky of a photo.
pub open spec fn is_sky_selection(
    p: crate::raster::Picture,
    light: &Light,
    source: int,
    feather: int,
    edge: int,
    o: &Object,
) -> bool {
    let s = crate::resample::shrunk(p, SKY_SELECT_EDGE as int)->0;
    let f = crate::scale::within(feather, 0, 100);
    let e = crate::scale::within(edge, -100, 100);
    &&& o.w == s.w
    &&& o.h == s.h
    &&& o.raw@ == sky_raw(
        s,
        light.tones@,
        real_long(source, p.w, p.h),
        crate::remove::probe_of(p, light)->0.sea,
    )
    &&& o.mask@ == refined(o.raw@, s.w, s.h, f, e)
    &&& o.area == (Region { x0: Signed::part(0, 1), y0: Signed::part(0, 1), x1: Signed::part(1, 1), y1: Signed::part(1, 1) })
    &&& o.feather == f
    &&& o.edge == e
}

/// The photo can be brought down to the sizes at which its sky is selected.
pub open spec fn can_select(p: crate::raster::Picture) -> bool {
    &&& crate::resample::shrunk(p, SKY_SELECT_EDGE as int) is Some
    &&& crate::resample::shrunk(p, crate::skies::PROBE_LONG_EDGE as int) is Some
}

/// Selects the sky of a photo. There is none where the photo is too small, where it cannot be resampled,
/// or where too little of it is sky.
#[verifier::rlimit(60)]
pub fn select_sky(img: &Raster, light: &Light, source: u32, feather: i32, edge: i32) -> (r: Option<
    Object,
>)
    requires
        crate::subject::is_photo(img@),
        light.wf(),
    ensures
        img.w < SKY_SELECT_SHORT || img.h < SKY_SELECT_SHORT || !can_select(img@) ==> r is None,
        img.w >= SKY_SELECT_SHORT && img.h >= SKY_SELECT_SHORT && can_select(img@) ==> match r {
            Some(o) => is_sky_selection(
                img@,
                light,
                source as int,
                feather as int,
                edge as int,
                &o,
            ) && o.usable(),
            None => exists|o: Object| #[trigger]
                is_sky_selection(img@, light, source as int, feather as int, edge as int, &o)
                    && !o.usable(),
        },
{
    if img.w < SKY_SELECT_SHORT || img.h < SKY_SELECT_SHORT {
        return None;
    }
    let small = match copy_photo(img, SKY_SELECT_EDGE) {
        Some(s) => s,
        None => {
            return None;
        },
    };
    let probe = match sky_probe(img, light) {
        Some(v) => v,
        None => {
            return None;
        },
    };
    let own: u32 = longer_of(img.w, img.h) as u32;
    let long: u32 = if source < own {
        own
    } else {
        source
    };
    let y = linear_of(&small, light).light();
    let region = sky_region(&y, long, probe.sea);
    let points = sky_points(&y);
    let both = crate::field::products_of(&region.d, &points.d);
    let raw = levels_of(&both);
    let ghost want = sky_raw(
        small@,
        light.tones@,
        real_long(source as int, img@.w, img@.h),
        probe.sea,
    );
    assert(raw@ =~= want);
    let f: i32 = crate::smoke::clamp(feather, 0, 100);
    let e: i32 = crate::smoke::clamp(edge, -100, 100);
    let mask = refine_object(&raw, small.w, small.h, f, e);
    let zero = Signed::zero();
    let one = Signed::of(1, 1);
    let area = Region { x0: zero, y0: zero, x1: one, y1: one };
    let o = Object { raw, mask, w: small.w, h: small.h, area, feather: f, edge: e };
    assert(is_sky_selection(img@, light, source as int, feather as int, edge as int, &o));
    assert(small.w * small.h <= 0x2_0000 * 0x2_0000) by (nonlinear_arith)
        requires
            small.w <= 0x2_0000,
            small.h <= 0x2_0000,
    ;
    if o.is_usable() {
        Some(o)
    } else {
        None
    }
}

fn copy_bytes(v: &Vec<u8>) -> (out: Vec<u8>)
    ensures
        out@ == v@,
{
    let n: usize = v.len();
    let mut out: Vec<u8> = Vec::new();
    let mut i: usize = 0;
    while i < n
        invariant
            i <= n == v@.len(),
            out@ == v@.take(i as int),
        decreases n - i,
    {
        out.push(v[i]);
        assert(v@.take(i + 1) =~= v@.take(i as int).push(v@[i as int]));
        i += 1;
    }
    assert(out@ =~= v@);
    out
}

impl Object {
    /// The selection with another softness and another edge, each kept in its range; a copy where it has
    /// them already.
    pub fn refined(&self, feather: i32, edge: i32) -> (n: Object)
        requires
            self.raw@.len() == self.w * self.h,
            self.w <= crate::spread::longest(),
            self.h <= crate::spread::longest(),
        ensures
            ({
                let f = crate::scale::within(feather as int, 0, 100);
                let e = crate::scale::within(edge as int, -100, 100);
                &&& n.raw@ == self.raw@
                &&& n.w == self.w
                &&& n.h == self.h
                &&& n.area == self.area
                &&& n.feather == f
                &&& n.edge == e
                &&& n.mask@ == if self.feather == f && self.edge == e {
                    self.mask@
                } else {
                    refined(self.raw@, self.w as int, self.h as int, f, e)
                }
            }),
    {
        let raw = copy_bytes(&self.raw);
        let (mask, feather, edge) = match self.new_edge(feather, edge) {
            None => (copy_bytes(&self.mask), self.feather, self.edge),
            Some((f, e)) => (refine_object(&self.raw, self.w, self.h, f, e), f, e),
        };
        Object { raw, mask, w: self.w, h: self.h, area: self.area, feather, edge }
    }
}

} // verus!
