//! How far a layer is turned against the ground: two patches of the ground, one at each side, are found
//! again in the layer, and how far they moved apart in height gives the turn.

use vstd::prelude::*;

use crate::align::{align_offset, edge_pair, patch_shift, pick_patch, stretch, EdgeMap, PatchFit, Shift, ALIGN_ROT};
use crate::caption::integer_of;
use crate::held::{add_to, divide_by, hold, scale_by, take_from, whole};
use crate::raster::Raster;
use crate::measure::settle;
use crate::signed::Signed;
use crate::single::Single;
use crate::stack::Xform;
use crate::stroke::Point;

verus! {

/// A cost as a number.
pub open spec fn price(s: Single) -> Signed {
    crate::held::held(Signed { neg: false, size: s })
}

fn price_of(s: Single) -> (v: Signed)
    requires
        s.wf(),
    ensures
        v == price(s),
        crate::held::fits(v),
{
    hold(Signed { neg: false, size: s })
}

/// How far the least cost lies from the middle one of three, by the parabola through them, up to one;
/// nothing where a neighbour has no cost or the three lie in a line.
pub open spec fn nudge(a: Option<Single>, b: Single, c: Option<Single>) -> Signed {
    match (a, c) {
        (Some(x), Some(z)) => {
            let d = crate::held::plus(
                crate::held::minus(price(x), crate::held::times(Signed::part(2, 1), price(b))),
                price(z),
            );
            if d.size_of().lies_below(Signed::part(1, 1_000_000)) {
                Signed::part(0, 1)
            } else {
                crate::held::over(
                    crate::held::minus(price(x), price(z)),
                    crate::held::times(Signed::part(2, 1), d),
                ).clamped(Signed::part(1, 1).negated(), Signed::part(1, 1))
            }
        },
        _ => Signed::part(0, 1),
    }
}

fn nudge_of(a: Option<Single>, b: Single, c: Option<Single>) -> (r: Signed)
    requires
        a matches Some(v) ==> v.wf(),
        b.wf(),
        c matches Some(v) ==> v.wf(),
    ensures
        r == nudge(a, b, c),
        crate::held::fits(r),
{
    match (a, c) {
        (Some(x), Some(z)) => {
            let two = Signed::of(2, 1);
            let px = price_of(x);
            let pz = price_of(z);
            let d = add_to(take_from(px, scale_by(two, price_of(b))), pz);
            let size = Signed { neg: false, size: d.size };
            if size.less(Signed::of(1, 1_000_000)) {
                Signed::of(0, 1)
            } else {
                let one = Signed::of(1, 1);
                divide_by(take_from(px, pz), scale_by(two, d)).clamp(one.negate(), one)
            }
        },
        _ => Signed::of(0, 1),
    }
}

/// Where a patch was found again, between the pixels.
pub open spec fn moved(f: PatchFit) -> Point {
    (
        crate::held::plus(Signed::integer(f.dx as int), nudge(f.left, f.best, f.right)),
        crate::held::plus(Signed::integer(f.dy as int), nudge(f.up, f.best, f.down)),
    )
}

fn moved_of(f: &PatchFit) -> (p: Point)
    requires
        f.wf(),
        crate::align::magnitude(f.dx as int) <= 0x4_0000_0000_0000,
        crate::align::magnitude(f.dy as int) <= 0x4_0000_0000_0000,
    ensures
        p == moved(*f),
        crate::held::fits(p.0),
        crate::held::fits(p.1),
{
    (
        add_to(integer_of(f.dx), nudge_of(f.left, f.best, f.right)),
        add_to(integer_of(f.dy), nudge_of(f.up, f.best, f.down)),
    )
}

/// How a layer lies: how far it is moved, as parts of the ground's sides, and how far it is turned, in
/// degrees.
#[derive(Clone, Copy, PartialEq, Eq, Structural, Debug)]
pub struct Turn {
    pub dx: Signed,
    pub dy: Signed,
    pub deg: Signed,
}

/// The degrees in a radian.
pub open spec fn degrees() -> Signed {
    Signed::part(15019745, 262144)
}

/// A degree in radians.
pub open spec fn radians() -> Signed {
    Signed::part(9370165, 536870912)
}

/// A place, from the middle of `n` pixels.
pub open spec fn centred(v: int, n: int) -> Signed {
    crate::held::minus(
        Signed::integer(v),
        crate::held::over(Signed::part(n, 1), Signed::part(2, 1)),
    )
}

fn centred_of(v: i64, n: usize) -> (r: Signed)
    requires
        -0x4000_0000_0000_0000 <= v,
    ensures
        r == centred(v as int, n as int),
        crate::held::fits(r),
{
    take_from(integer_of(v), divide_by(whole(n as u64), Signed::of(2, 1)))
}

/// The turn that two patches of a `w` by `h` ground show that were found again, in degrees; a hardly
/// visible one is none.
pub open spec fn slant(left: (i64, i64), right: (i64, i64), ml: Point, mr: Point) -> Signed {
    let theta = crate::held::over(
        crate::held::minus(mr.1, ml.1),
        crate::held::minus(
            Signed::integer(right.0 as int),
            Signed::integer(left.0 as int),
        ),
    );
    crate::held::times(theta, degrees())
}

/// A hardly visible turn is none.
pub open spec fn steadied(deg: Signed) -> Signed {
    if deg.size_of().lies_below(Signed::part(2, 100)) {
        Signed::part(0, 1)
    } else {
        deg
    }
}

/// The middle of the two moves, once the turn is taken out of each: `a` and `b` are turned by `p` and
/// `q`.
pub open spec fn middle(a: Signed, p: Signed, b: Signed, q: Signed) -> Signed {
    crate::held::over(
        crate::held::plus(crate::held::plus(a, p), crate::held::plus(b, q)),
        Signed::part(2, 1),
    )
}

/// How a layer lies by two patches of a `w` by `h` ground that were found again; none where it would be
/// turned by more than three degrees.
pub open spec fn laid(
    w: int,
    h: int,
    left: (i64, i64),
    right: (i64, i64),
    ml: Point,
    mr: Point,
) -> Option<Turn> {
    let raw = slant(left, right, ml, mr);
    if Signed::part(3, 1).lies_below(raw.size_of()) {
        None
    } else {
        let deg = steadied(raw);
        let t = crate::held::times(deg, radians());
        let dx = middle(
            ml.0,
            crate::held::times(centred(left.1 as int, h), t),
            mr.0,
            crate::held::times(centred(right.1 as int, h), t),
        );
        let dy = crate::held::over(
            crate::held::plus(
                crate::held::minus(ml.1, crate::held::times(centred(left.0 as int, w), t)),
                crate::held::minus(mr.1, crate::held::times(centred(right.0 as int, w), t)),
            ),
            Signed::part(2, 1),
        );
        Some(
            Turn {
                dx: crate::held::over(dx, Signed::part(w, 1)),
                dy: crate::held::over(dy, Signed::part(h, 1)),
                deg,
            },
        )
    }
}

/// How a layer lies by two patches that were found again (see [`laid`]).
pub fn turn_of(
    w: usize,
    h: usize,
    left: (i64, i64),
    right: (i64, i64),
    ml: &PatchFit,
    mr: &PatchFit,
) -> (r: Option<Turn>)
    requires
        ml.wf(),
        mr.wf(),
        crate::align::magnitude(ml.dx as int) <= 0x4_0000_0000_0000,
        crate::align::magnitude(ml.dy as int) <= 0x4_0000_0000_0000,
        crate::align::magnitude(mr.dx as int) <= 0x4_0000_0000_0000,
        crate::align::magnitude(mr.dy as int) <= 0x4_0000_0000_0000,
        -0x4000_0000_0000_0000 <= left.0,
        -0x4000_0000_0000_0000 <= left.1,
        -0x4000_0000_0000_0000 <= right.0,
        -0x4000_0000_0000_0000 <= right.1,
    ensures
        r == laid(w as int, h as int, left, right, moved(*ml), moved(*mr)),
        r matches Some(t) ==> crate::held::fits(t.dx) && crate::held::fits(t.dy)
            && crate::held::fits(t.deg),
{
    let a = moved_of(ml);
    let b = moved_of(mr);
    let theta = divide_by(
        take_from(b.1, a.1),
        take_from(integer_of(right.0), integer_of(left.0)),
    );
    let raw = scale_by(theta, Signed::of(15019745, 262144));
    let size = Signed { neg: false, size: raw.size };
    if Signed::of(3, 1).less(size) {
        return None;
    }
    let deg = if size.less(Signed::of(2, 100)) {
        Signed::of(0, 1)
    } else {
        raw
    };
    let t = scale_by(deg, Signed::of(9370165, 536870912));
    let two = Signed::of(2, 1);
    let dx = divide_by(
        add_to(
            add_to(a.0, scale_by(centred_of(left.1, h), t)),
            add_to(b.0, scale_by(centred_of(right.1, h), t)),
        ),
        two,
    );
    let dy = divide_by(
        add_to(
            take_from(a.1, scale_by(centred_of(left.0, w), t)),
            take_from(b.1, scale_by(centred_of(right.0, w), t)),
        ),
        two,
    );
    Some(Turn { dx: divide_by(dx, whole(w as u64)), dy: divide_by(dy, whole(h as u64)), deg })
}

/// How large the patches are: a sixth of the shorter side to each side, from 60 to 260.
pub open spec fn patch_half(g: crate::align::Edges) -> int {
    crate::scale::within(crate::signed::min_of(g.w, g.h) / 6, 60, 260)
}

/// How many times wider the map is than the one on which the shift was found.
pub open spec fn growth(w: int, sw: int) -> Single {
    crate::single::quotient(crate::single::nearest(w, 1), crate::single::nearest(sw, 1))
}

/// A patch is looked for near where the shift says it is.
pub open spec fn is_found_again(
    g: crate::align::Edges,
    l: crate::align::Edges,
    s: Shift,
    c: (i64, i64),
    fit: Option<PatchFit>,
) -> bool {
    let k = growth(g.w, s.w as int);
    crate::align::is_patch_fit(
        g,
        l,
        c.0 as int,
        c.1 as int,
        patch_half(g),
        crate::align::stretched(s.dx as int, k),
        crate::align::stretched(s.dy as int, k),
        crate::scale::at_least(crate::single::ceil(k) + 8, 10),
        fit,
    )
}

/// What the two patches say, once both were picked.
pub open spec fn is_read_off(
    g: crate::align::Edges,
    l: crate::align::Edges,
    s: Shift,
    left: (i64, i64),
    right: (i64, i64),
    out: Option<Turn>,
) -> bool {
    if right.0 - left.0 < g.w / 4 {
        out is None
    } else {
        exists|a: Option<PatchFit>| #[trigger]
            is_found_again(g, l, s, left, a) && match a {
                None => out is None,
                Some(ml) => exists|b: Option<PatchFit>| #[trigger]
                    is_found_again(g, l, s, right, b) && match b {
                        None => out is None,
                        Some(mr) => out == laid(g.w, g.h, left, right, moved(ml), moved(mr)),
                    },
            }
    }
}

/// A patch at the left and one at the right of the ground's edges are picked, and say how the layer
/// lies; none where either is missing or they are too near each other.
pub open spec fn is_turned(
    g: crate::align::Edges,
    l: crate::align::Edges,
    s: Shift,
    out: Option<Turn>,
) -> bool {
    exists|p: Option<(i64, i64)>| #[trigger]
        crate::align::is_patch(g, patch_half(g), 5, 40, p) && match p {
            None => out is None,
            Some(left) => exists|q: Option<(i64, i64)>| #[trigger]
                crate::align::is_patch(g, patch_half(g), 60, 95, q) && match q {
                    None => out is None,
                    Some(right) => is_read_off(g, l, s, left, right, out),
                },
        }
}

/// How a layer lies against the ground, once its shift is known: read off the edges of both, the
/// ground's long edge brought to 1600 pixels.
pub open spec fn is_told(
    ground: crate::raster::Picture,
    layer: crate::raster::Picture,
    s: Shift,
    out: Option<Turn>,
) -> bool {
    if crate::align::have_edges(ground, layer, ALIGN_ROT as int) {
        exists|g: crate::align::Edges, l: crate::align::Edges| #[trigger]
            crate::align::are_edge_pair(ground, layer, ALIGN_ROT as int, g, l) && is_turned(
                g,
                l,
                s,
                out,
            )
    } else {
        out is None
    }
}

/// The shift was found on a map that is wide enough, and is not too far.
pub open spec fn is_shift(s: Shift) -> bool {
    &&& 24 <= s.w <= 0x10_0000
    &&& crate::align::magnitude(s.dx as int) <= 0x100_0000
    &&& crate::align::magnitude(s.dy as int) <= 0x100_0000
}

/// How far a patch is looked for, and from where.
struct Search {
    half: i64,
    sx: i64,
    sy: i64,
    range: i64,
}

impl Search {
    spec fn is_for(&self, g: crate::align::Edges, s: Shift) -> bool {
        let k = growth(g.w, s.w as int);
        &&& self.half == patch_half(g)
        &&& self.sx == crate::align::stretched(s.dx as int, k)
        &&& self.sy == crate::align::stretched(s.dy as int, k)
        &&& self.range == crate::scale::at_least(crate::single::ceil(k) + 8, 10)
        &&& -0x1_0000_0000_0000 <= self.sx <= 0x1_0000_0000_0000
        &&& -0x1_0000_0000_0000 <= self.sy <= 0x1_0000_0000_0000
        &&& 0 <= self.range <= 0x1_0000_0000_0100
        &&& 1 <= self.half <= 260
    }
}

fn search_of(g: &EdgeMap, s: &Shift) -> (r: Search)
    requires
        g@.wf(),
        g@.w >= 1,
        is_shift(*s),
    ensures
        r.is_for(g@, *s),
{
    let short: usize = if g.w <= g.h {
        g.w
    } else {
        g.h
    };
    let sixth: usize = short / 6;
    let half: i64 = if sixth < 60 {
        60
    } else if sixth > 260 {
        260
    } else {
        sixth as i64
    };
    let a = Single::of(g.w as u64);
    let b = Single::of(s.w as u64);
    proof {
        vstd::arithmetic::power2::lemma2_to64();
        assert(s.w * crate::single::up(19) == s.w * 0x8_0000);
        crate::single::lemma_exponent_from(s.w as int, 1, b, -19);
        assert(g.w * crate::single::up(3) == g.w * 8);
        crate::single::lemma_exponent_upto(g.w as int, 1, a, -3);
    }
    let k = a.over(b);
    let sx: i64 = stretch(s.dx, k);
    let sy: i64 = stretch(s.dy, k);
    let c: i64 = k.ceil() as i64;
    let range: i64 = if c + 8 < 10 {
        10
    } else {
        c + 8
    };
    Search { half, sx, sy, range }
}

fn find_again(g: &EdgeMap, l: &EdgeMap, Ghost(s): Ghost<Shift>, q: &Search, c: (i64, i64)) -> (r:
    Option<PatchFit>)
    requires
        g@.wf(),
        l@.wf(),
        q.is_for(g@, s),
        -0x10_0000 <= c.0 <= 0x800_0000,
        0 <= c.1 <= 0x20_0000,
    ensures
        is_found_again(g@, l@, s, c, r),
        r matches Some(f) ==> f.wf() && crate::align::magnitude(f.dx as int)
            <= 0x4_0000_0000_0000 && crate::align::magnitude(f.dy as int) <= 0x4_0000_0000_0000,
{
    patch_shift(g, l, c.0, c.1, q.half, q.sx, q.sy, q.range)
}

fn read_off(
    g: &EdgeMap,
    l: &EdgeMap,
    Ghost(s): Ghost<Shift>,
    q: &Search,
    left: (i64, i64),
    right: (i64, i64),
) -> (out: Option<Turn>)
    requires
        g@.wf(),
        l@.wf(),
        q.is_for(g@, s),
        -0x10_0000 <= left.0 <= 0x800_0000,
        0 <= left.1 <= 0x20_0000,
        -0x10_0000 <= right.0 <= 0x800_0000,
        0 <= right.1 <= 0x20_0000,
    ensures
        is_read_off(g@, l@, s, left, right, out),
        out matches Some(t) ==> crate::held::fits(t.dx) && crate::held::fits(t.dy)
            && crate::held::fits(t.deg),
{
    if right.0 - left.0 < (g.w / 4) as i64 {
        return None;
    }
    match find_again(g, l, Ghost(s), q, left) {
        None => {
            assert(is_found_again(g@, l@, s, left, None::<PatchFit>));
            None
        },
        Some(ml) => {
            assert(is_found_again(g@, l@, s, left, Some(ml)));
            match find_again(g, l, Ghost(s), q, right) {
                None => {
                    assert(is_found_again(g@, l@, s, right, None::<PatchFit>));
                    None
                },
                Some(mr) => {
                    assert(is_found_again(g@, l@, s, right, Some(mr)));
                    turn_of(g.w, g.h, left, right, &ml, &mr)
                },
            }
        },
    }
}

fn compare_patches(g: &EdgeMap, l: &EdgeMap, s: &Shift) -> (out: Option<Turn>)
    requires
        g@.wf(),
        l@.wf(),
        g@.w >= 1,
        is_shift(*s),
    ensures
        is_turned(g@, l@, *s, out),
        out matches Some(t) ==> crate::held::fits(t.dx) && crate::held::fits(t.dy)
            && crate::held::fits(t.deg),
{
    let q = search_of(g, s);
    let ghost half = patch_half(g@);
    match pick_patch(g, q.half, 5, 40) {
        None => {
            assert(crate::align::is_patch(g@, half, 5, 40, None::<(i64, i64)>));
            None
        },
        Some(left) => {
            assert(crate::align::is_patch(g@, half, 5, 40, Some(left)));
            match pick_patch(g, q.half, 60, 95) {
                None => {
                    assert(crate::align::is_patch(g@, half, 60, 95, None::<(i64, i64)>));
                    None
                },
                Some(right) => {
                    assert(crate::align::is_patch(g@, half, 60, 95, Some(right)));
                    read_off(g, l, Ghost(*s), &q, left, right)
                },
            }
        },
    }
}

/// How a layer lies against the ground (see [`is_told`]).
pub fn refine_rotation(ground: &Raster, layer: &Raster, s: &Shift) -> (out: Option<Turn>)
    requires
        ground@.wf(),
        layer@.wf(),
        is_shift(*s),
    ensures
        is_told(ground@, layer@, *s, out),
        out matches Some(t) ==> crate::held::fits(t.dx) && crate::held::fits(t.dy)
            && crate::held::fits(t.deg),
{
    match edge_pair(ground, layer, ALIGN_ROT) {
        None => None,
        Some((g, l)) => {
            assert(crate::align::are_edge_pair(ground@, layer@, ALIGN_ROT as int, g@, l@));
            assert(g@.w >= 24);
            compare_patches(&g, &l, s)
        },
    }
}

/// A shift as a transform: moved by parts of the ground's sides, neither scaled nor turned.
pub open spec fn moved_by(s: Shift) -> Xform {
    Xform {
        dx: crate::measure::settled(
            crate::held::over(Signed::integer(s.dx as int), Signed::part(s.w as int, 1)),
        ),
        dy: crate::measure::settled(
            crate::held::over(Signed::integer(s.dy as int), Signed::part(s.h as int, 1)),
        ),
        ..Xform::plain()
    }
}

/// A turn as a transform.
pub open spec fn turned_by(t: Turn) -> Xform {
    Xform { dx: crate::measure::settled(t.dx), dy: crate::measure::settled(t.dy), rot: crate::measure::settled(t.deg), ..Xform::plain() }
}

/// How a layer is laid on the ground so that the two match: the turn that is read off larger copies
/// where there is one, else the shift; nothing where no shift is found.
pub open spec fn is_matched(
    ground: crate::raster::Picture,
    layer: crate::raster::Picture,
    out: Option<Xform>,
) -> bool {
    exists|s: Option<Shift>| #[trigger]
        crate::align::is_aligned(ground, layer, s) && match s {
            None => out is None,
            Some(v) => out is Some && is_laid_by(ground, layer, v, out->0),
        }
}

/// The transform is that of the turn that refines a shift where there is one, else that of the shift.
pub open spec fn is_laid_by(
    ground: crate::raster::Picture,
    layer: crate::raster::Picture,
    s: Shift,
    x: Xform,
) -> bool {
    if s.fine {
        exists|t: Option<Turn>| #[trigger]
            is_told(ground, layer, s, t) && x == match t {
                Some(v) => turned_by(v),
                None => moved_by(s),
            }
    } else {
        x == moved_by(s)
    }
}

/// How a layer is laid on the ground so that the two match (see [`is_matched`]).
pub fn match_layer(ground: &Raster, layer: &Raster) -> (out: Option<Xform>)
    requires
        ground@.wf(),
        layer@.wf(),
    ensures
        is_matched(ground@, layer@, out),
        out matches Some(x) ==> x.wf(),
{
    let found = align_offset(ground, layer);
    match found {
        None => {
            assert(crate::align::is_aligned(ground@, layer@, None::<Shift>));
            None
        },
        Some(s) => {
            let plain = Xform {
                dx: settle(divide_by(integer_of(s.dx), whole(s.w as u64))),
                dy: settle(divide_by(integer_of(s.dy), whole(s.h as u64))),
                ..Xform::default()
            };
            assert(plain == moved_by(s));
            let x = if s.fine {
                let t = refine_rotation(ground, layer, &s);
                match t {
                    Some(v) => {
                        let x = Xform {
                            dx: settle(v.dx),
                            dy: settle(v.dy),
                            rot: settle(v.deg),
                            ..Xform::default()
                        };
                        assert(is_told(ground@, layer@, s, Some(v)));
                        assert(x == turned_by(v));
                        assert(is_laid_by(ground@, layer@, s, x));
                        x
                    },
                    None => {
                        assert(is_told(ground@, layer@, s, None::<Turn>));
                        assert(is_laid_by(ground@, layer@, s, plain));
                        plain
                    },
                }
            } else {
                plain
            };
            assert(crate::align::is_aligned(ground@, layer@, Some(s)));
            assert(is_laid_by(ground@, layer@, s, x));
            Some(x)
        },
    }
}

} // verus!
