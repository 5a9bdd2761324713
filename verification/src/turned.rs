//! Layers that are turned or scaled before they come down on the canvas.

use vstd::prelude::*;

use crate::held::{add_to, divide_by, scale_by, take_from, whole};
use crate::raster::Raster;
use crate::resample::copy;
use crate::sample::{from_middle_of, sample, turn_back};
use crate::signed::Signed;
use crate::single::Single;
use crate::stack::{blend_layer, put_sample, BlendMode, Guard, Xform};
use crate::stroke::Point;

verus! {

/// The sine and the cosine of a layer's turn.
#[derive(Clone, Copy)]
pub struct Angle {
    pub sin: Signed,
    pub cos: Signed,
}

impl Angle {
    /// The numbers lie in the range.
    pub open spec fn wf(&self) -> bool {
        crate::held::fits(self.sin) && crate::held::fits(self.cos)
    }
}

/// The place of a `lw` by `lh` layer that comes down on pixel `(x, y)` of a `gw` by `gh` canvas.
pub open spec fn source(
    f: Xform,
    a: Angle,
    gw: int,
    gh: int,
    lw: int,
    lh: int,
    x: int,
    y: int,
) -> Point {
    let u = crate::held::minus(
        crate::sample::from_middle(x, gw),
        crate::held::times(f.dx, Signed::part(gw, 1)),
    );
    let v = crate::held::minus(
        crate::sample::from_middle(y, gh),
        crate::held::times(f.dy, Signed::part(gh, 1)),
    );
    let p = crate::sample::turned_back((u, v), a.sin, a.cos);
    let inv = crate::held::over(Signed::part(1, 1), f.scale);
    (
        crate::held::minus(
            crate::held::plus(
                crate::held::times(p.0, inv),
                crate::held::over(Signed::part(lw, 1), Signed::part(2, 1)),
            ),
            Signed::part(1, 2),
        ),
        crate::held::minus(
            crate::held::plus(
                crate::held::times(p.1, inv),
                crate::held::over(Signed::part(lh, 1), Signed::part(2, 1)),
            ),
            Signed::part(1, 2),
        ),
    )
}

/// The pixel nearest to a place, of `n`.
pub open spec fn nearest_pixel(f: Signed, n: int) -> int {
    if f.neg {
        0
    } else if f.size.e > 38 {
        n - 1
    } else {
        crate::scale::within(crate::single::round(f.size), 0, n - 1)
    }
}

/// One value of a map, if there is one.
pub open spec fn value_at(m: Option<Seq<Single>>, i: int) -> Option<Single> {
    match m {
        Some(s) => Some(s[i]),
        None => None,
    }
}

/// A pixel of the canvas once a turned layer has come down on it: as it was where the layer does not
/// reach.
pub open spec fn landed(
    p: crate::raster::Picture,
    top: crate::raster::Picture,
    f: Xform,
    a: Angle,
    mask: Option<Seq<Single>>,
    protect: Option<Seq<Single>>,
    guard: Option<Guard>,
    mode: BlendMode,
    j: int,
) -> (u8, u8, u8) {
    let x = j % p.w;
    let y = j / p.w;
    let b = (p.d[j * 3], p.d[j * 3 + 1], p.d[j * 3 + 2]);
    let s = source(f, a, p.w, p.h, top.w, top.h, x, y);
    match crate::sample::colour_at(top, s.0, s.1, false) {
        Some(t) => {
            let i = nearest_pixel(s.1, top.h) * top.w + nearest_pixel(s.0, top.w);
            crate::stack::sampled(
                b,
                t,
                crate::stack::held_open(value_at(mask, i), value_at(protect, j)),
                guard,
                x,
                y,
                p.w,
                p.h,
                mode,
            )
        },
        None => b,
    }
}

fn source_of(f: &Xform, a: &Angle, gw: u32, gh: u32, lw: u32, lh: u32, x: u32, y: u32) -> (p: Point)
    requires
        f.wf(),
        a.wf(),
    ensures
        p == source(
            *f,
            *a,
            gw as int,
            gh as int,
            lw as int,
            lh as int,
            x as int,
            y as int,
        ),
        crate::held::fits(p.0),
        crate::held::fits(p.1),
{
    let u = take_from(from_middle_of(x, gw), scale_by(f.dx, whole(gw as u64)));
    let v = take_from(from_middle_of(y, gh), scale_by(f.dy, whole(gh as u64)));
    let p = turn_back((u, v), a.sin, a.cos);
    let inv = divide_by(Signed::of(1, 1), f.scale);
    let half = Signed::of(1, 2);
    let two = Signed::of(2, 1);
    (
        take_from(add_to(scale_by(p.0, inv), divide_by(whole(lw as u64), two)), half),
        take_from(add_to(scale_by(p.1, inv), divide_by(whole(lh as u64), two)), half),
    )
}

/// The pixel nearest to a place (see [`nearest_pixel`]).
pub fn nearest_pixel_of(f: Signed, n: usize) -> (i: usize)
    requires
        crate::held::fits(f),
        0 < n <= crate::spread::longest(),
    ensures
        i == nearest_pixel(f, n as int),
        i < n,
{
    if f.neg {
        0
    } else if f.size.e > 38 {
        n - 1
    } else {
        let i: u64 = f.size.round();
        if i < n as u64 {
            i as usize
        } else {
            n - 1
        }
    }
}

/// Lets a turned or scaled layer come down on the canvas. `mask` holds, per pixel of the layer, how
/// much of it is held back, and `protect`, per pixel of the canvas, how much the ground holds back.
pub fn blend_turned(
    acc: &mut Raster,
    top: &Raster,
    f: &Xform,
    a: &Angle,
    mask: Option<&Vec<Single>>,
    protect: Option<&Vec<Single>>,
    guard: Option<&Guard>,
    mode: BlendMode,
)
    requires
        old(acc)@.wf(),
        top@.wf(),
        0 < top.w <= crate::spread::longest(),
        0 < top.h <= crate::spread::longest(),
        f.wf(),
        a.wf(),
        crate::stack::is_share_map(crate::stack::map_view(mask), top@.w, top@.h),
        crate::stack::is_share_map(crate::stack::map_view(protect), old(acc)@.w, old(acc)@.h),
        crate::stack::guard_view(guard) matches Some(g) ==> g.wf() && old(acc)@.w * g.w <= usize::MAX
            && old(acc)@.h * g.h <= usize::MAX,
    ensures
        final(acc)@.wf(),
        final(acc)@.w == old(acc)@.w,
        final(acc)@.h == old(acc)@.h,
        forall|j: int|
            0 <= j < old(acc)@.w * old(acc)@.h ==> #[trigger] crate::wipe::triple(final(acc)@.d, j)
                == landed(
                old(acc)@,
                top@,
                *f,
                *a,
                crate::stack::map_view(mask),
                crate::stack::map_view(protect),
                crate::stack::guard_view(guard),
                mode,
                j,
            ),
        crate::stack::no_darker(old(acc)@, final(acc)@),
{
    let ghost before = acc@;
    let gw: u32 = acc.w as u32;
    let gh: u32 = acc.h as u32;
    let bytes: usize = acc.d.len();
    proof {
        assert(0 <= before.w * before.h <= bytes) by (nonlinear_arith)
            requires
                bytes == before.w * before.h * 3,
                before.w >= 0,
                before.h >= 0,
        ;
        assert(0 <= top@.w * top@.h) by (nonlinear_arith)
            requires
                top@.w >= 0,
                top@.h >= 0,
        ;
    }
    let n: usize = acc.w * acc.h;
    let mut j: usize = 0;
    while j < n
        invariant
            j <= n == before.w * before.h,
            before.wf(),
            gw == before.w,
            gh == before.h,
            acc@.w == before.w,
            acc@.h == before.h,
            acc.d@.len() == bytes == before.d.len() == n * 3,
            top@.wf(),
            0 < top.w <= crate::spread::longest(),
            0 < top.h <= crate::spread::longest(),
            f.wf(),
            a.wf(),
            crate::stack::is_share_map(crate::stack::map_view(mask), top@.w, top@.h),
            crate::stack::is_share_map(crate::stack::map_view(protect), before.w, before.h),
            crate::stack::guard_view(guard) matches Some(g) ==> g.wf() && before.w * g.w
                <= usize::MAX && before.h * g.h <= usize::MAX,
            forall|i: int| j * 3 <= i < bytes ==> #[trigger] acc.d@[i] == before.d[i],
            forall|k: int|
                0 <= k < j ==> #[trigger] crate::wipe::triple(acc@.d, k) == landed(
                    before,
                    top@,
                    *f,
                    *a,
                    crate::stack::map_view(mask),
                    crate::stack::map_view(protect),
                    crate::stack::guard_view(guard),
                    mode,
                    k,
                ),
        decreases n - j,
    {
        proof {
            assert(before.w > 0) by (nonlinear_arith)
                requires
                    before.w * before.h > 0,
                    before.w >= 0,
            ;
            crate::grid::lemma_cell_split(j as int, before.w, before.h);
            assert(j * 3 + 3 <= bytes);
        }
        let x: u32 = (j % acc.w) as u32;
        let y: u32 = (j / acc.w) as u32;
        let s = source_of(f, a, gw, gh, top.w as u32, top.h as u32, x, y);
        let ghost mid = acc@.d;
        match sample(top, s.0, s.1, false) {
            Some(t) => {
                let b = (acc.d[j * 3], acc.d[j * 3 + 1], acc.d[j * 3 + 2]);
                let mx: usize = nearest_pixel_of(s.0, top.w);
                let my: usize = nearest_pixel_of(s.1, top.h);
                proof {
                    crate::grid::lemma_cell_bound(mx as int, my as int, top@.w, top@.h);
                    assert(0 <= my * top.w) by (nonlinear_arith);
                    assert(top@.w * top@.h <= top@.d.len()) by (nonlinear_arith)
                        requires
                            top@.d.len() == top@.w * top@.h * 3,
                            top@.w * top@.h >= 0,
                    ;
                }
                let len: usize = top.d.len();
                let i: usize = my * top.w + mx;
                let m: Option<Single> = match mask {
                    Some(v) => Some(v[i]),
                    None => None,
                };
                let p: Option<Single> = match protect {
                    Some(v) => Some(v[j]),
                    None => None,
                };
                let r = put_sample(b, t, m, p, guard, x as usize, y as usize, acc.w, acc.h, mode);
                acc.d.set(j * 3, r.0);
                acc.d.set(j * 3 + 1, r.1);
                acc.d.set(j * 3 + 2, r.2);
            },
            None => {},
        }
        proof {
            assert forall|k: int| 0 <= k < j implies #[trigger] crate::wipe::triple(acc@.d, k)
                == crate::wipe::triple(mid, k) by {}
            assert(crate::wipe::triple(mid, j as int) == crate::wipe::triple(before.d, j as int));
            assert(crate::wipe::triple(acc@.d, j as int) == landed(
                before,
                top@,
                *f,
                *a,
                crate::stack::map_view(mask),
                crate::stack::map_view(protect),
                crate::stack::guard_view(guard),
                mode,
                j as int,
            ));
        }
        j += 1;
    }
    proof {
        let mv = crate::stack::map_view(mask);
        let pv = crate::stack::map_view(protect);
        let gv = crate::stack::guard_view(guard);
        law_landing_never_darkens(before, top@, *f, *a, mv, pv, gv, mode);
        lemma_landing(before, top@, *f, *a, mv, pv, gv, mode, acc@);
    }
}

/// Pixel by pixel, a canvas is what came down on it.
proof fn lemma_landing(
    p: crate::raster::Picture,
    top: crate::raster::Picture,
    f: Xform,
    a: Angle,
    mask: Option<Seq<Single>>,
    protect: Option<Seq<Single>>,
    guard: Option<Guard>,
    mode: BlendMode,
    r: crate::raster::Picture,
)
    requires
        p.wf(),
        r.wf(),
        r.w == p.w,
        r.h == p.h,
        forall|j: int|
            0 <= j < p.w * p.h ==> #[trigger] crate::wipe::triple(r.d, j) == landed(
                p,
                top,
                f,
                a,
                mask,
                protect,
                guard,
                mode,
                j,
            ),
    ensures
        r == landing(p, top, f, a, mask, protect, guard, mode),
{
    let q = landing(p, top, f, a, mask, protect, guard, mode);
    assert forall|i: int| 0 <= i < q.d.len() implies #[trigger] r.d[i] == q.d[i] by {
        let j = i / 3;
        assert(0 <= j < p.w * p.h);
        assert(crate::wipe::triple(r.d, j) == landed(
            p,
            top,
            f,
            a,
            mask,
            protect,
            guard,
            mode,
            j,
        ));
        assert(i == j * 3 + i % 3);
    }
    assert(r.d =~= q.d);
}

/// One channel of a pixel.
pub open spec fn channel(t: (u8, u8, u8), c: int) -> u8 {
    if c == 0 {
        t.0
    } else if c == 1 {
        t.1
    } else {
        t.2
    }
}

/// The canvas once a turned layer has come down on it.
pub open spec fn landing(
    p: crate::raster::Picture,
    top: crate::raster::Picture,
    f: Xform,
    a: Angle,
    mask: Option<Seq<Single>>,
    protect: Option<Seq<Single>>,
    guard: Option<Guard>,
    mode: BlendMode,
) -> crate::raster::Picture {
    crate::raster::Picture {
        w: p.w,
        h: p.h,
        d: Seq::new(
            (p.w * p.h * 3) as nat,
            |i: int| channel(landed(p, top, f, a, mask, protect, guard, mode, i / 3), i % 3),
        ),
    }
}

/// A turned layer never makes the canvas darker, whatever holds it back.
pub proof fn law_landing_never_darkens(
    p: crate::raster::Picture,
    top: crate::raster::Picture,
    f: Xform,
    a: Angle,
    mask: Option<Seq<Single>>,
    protect: Option<Seq<Single>>,
    guard: Option<Guard>,
    mode: BlendMode,
)
    requires
        p.wf(),
    ensures
        landing(p, top, f, a, mask, protect, guard, mode).wf(),
        crate::stack::no_darker(p, landing(p, top, f, a, mask, protect, guard, mode)),
{
    let q = landing(p, top, f, a, mask, protect, guard, mode);
    assert forall|i: int| 0 <= i < p.d.len() implies #[trigger] q.d[i] >= p.d[i] by {
        assert forall|b: u8, c: u8, k: Single| #[trigger]
            crate::stack::put(mode, b, c, k) >= b by {
            crate::stack::law_put_never_darkens(mode, b, c, k);
        }
        assert(i == i / 3 * 3 + i % 3);
    }
}

/// The canvas once a layer has come down on it as its transform says: moved by whole pixels where it
/// is neither turned nor scaled, and sampled anew where it is. An empty layer changes nothing.
pub open spec fn laid(
    p: crate::raster::Picture,
    top: crate::raster::Picture,
    x: Xform,
    a: Angle,
    mask: Option<Seq<Single>>,
    protect: Option<Seq<Single>>,
    guard: Option<Guard>,
    mode: BlendMode,
) -> crate::raster::Picture {
    let k = x.kept();
    if p.w == 0 || p.h == 0 || top.w == 0 || top.h == 0 {
        p
    } else if k.only_shifts() {
        crate::stack::covering(
            p,
            top,
            crate::stack::Cover {
                ox: crate::stack::pixel_shift(k.dx, p.w),
                oy: crate::stack::pixel_shift(k.dy, p.h),
                mask,
                protect,
            },
            guard,
            mode,
        )
    } else {
        landing(p, top, k, a, mask, protect, guard, mode)
    }
}

/// Lets a layer come down on the canvas as its transform says (see [`laid`]); `a` is its turn.
pub fn lay_layer(
    acc: &mut Raster,
    top: &Raster,
    x: &Xform,
    a: &Angle,
    mask: Option<&Vec<Single>>,
    protect: Option<&Vec<Single>>,
    guard: Option<&Guard>,
    mode: BlendMode,
)
    requires
        old(acc)@.wf(),
        top@.wf(),
        top.w <= crate::spread::longest(),
        top.h <= crate::spread::longest(),
        x.wf(),
        a.wf(),
        crate::stack::is_share_map(crate::stack::map_view(mask), top@.w, top@.h),
        crate::stack::is_share_map(crate::stack::map_view(protect), old(acc)@.w, old(acc)@.h),
        crate::stack::guard_view(guard) matches Some(g) ==> g.wf() && old(acc)@.w * g.w <= usize::MAX
            && old(acc)@.h * g.h <= usize::MAX,
    ensures
        final(acc)@ == laid(
            old(acc)@,
            top@,
            *x,
            *a,
            crate::stack::map_view(mask),
            crate::stack::map_view(protect),
            crate::stack::guard_view(guard),
            mode,
        ),
        final(acc)@.wf(),
        crate::stack::no_darker(old(acc)@, final(acc)@),
{
    if acc.w == 0 || acc.h == 0 || top.w == 0 || top.h == 0 {
        return;
    }
    let ghost before = acc@;
    let ghost mv = crate::stack::map_view(mask);
    let ghost pv = crate::stack::map_view(protect);
    let ghost gv = crate::stack::guard_view(guard);
    let k = (*x).clamped();
    if k.is_shift_only() {
        let (ox, oy) = k.pixels(acc.w as u32, acc.h as u32);
        blend_layer(acc, top, mask, ox, oy, protect, guard, mode);
        proof {
            crate::stack::lemma_covering(
                before,
                top@,
                crate::stack::Cover { ox: ox as int, oy: oy as int, mask: mv, protect: pv },
                gv,
                mode,
                acc@,
            );
        }
    } else {
        blend_turned(acc, top, &k, a, mask, protect, guard, mode);
        proof {
            lemma_landing(before, top@, k, *a, mv, pv, gv, mode, acc@);
        }
    }
}

/// A photograph to be stacked: its picture, how much of each of its pixels is held back, how it is
/// laid on the canvas, and the sine and cosine of its turn.
pub struct LaidLayer {
    pub img: Raster,
    pub mask: Option<Vec<Single>>,
    pub xform: Xform,
    pub angle: Angle,
}

impl LaidLayer {
    /// The picture and its mask fit together, and the numbers are there.
    pub open spec fn wf(&self) -> bool {
        &&& self.img@.wf()
        &&& self.img.w <= crate::spread::longest()
        &&& self.img.h <= crate::spread::longest()
        &&& crate::stack::is_share_map(
            crate::stack::own_map(self.mask),
            self.img@.w,
            self.img@.h,
        )
        &&& self.xform.wf()
        &&& self.angle.wf()
    }
}

/// The ground once the first `n` layers have come down on it.
pub open spec fn piled(
    ground: crate::raster::Picture,
    protect: Option<Seq<Single>>,
    layers: Seq<LaidLayer>,
    n: int,
    mode: BlendMode,
    guard: Option<Guard>,
) -> crate::raster::Picture
    decreases n,
{
    if n <= 0 {
        ground
    } else {
        let l = layers[n - 1];
        laid(
            piled(ground, protect, layers, n - 1, mode, guard),
            l.img@,
            l.xform,
            l.angle,
            crate::stack::own_map(l.mask),
            protect,
            guard,
            mode,
        )
    }
}

/// Stacks layers onto a ground picture, one after the other, each laid as its transform says.
pub fn blend_any(
    ground: &Raster,
    protect: Option<&Vec<Single>>,
    layers: &Vec<LaidLayer>,
    mode: BlendMode,
    guard: Option<&Guard>,
) -> (out: Raster)
    requires
        ground@.wf(),
        crate::stack::is_share_map(crate::stack::map_view(protect), ground@.w, ground@.h),
        forall|i: int| 0 <= i < layers@.len() ==> (#[trigger] layers@[i]).wf(),
        crate::stack::guard_view(guard) matches Some(g) ==> g.wf() && ground@.w * g.w <= usize::MAX
            && ground@.h * g.h <= usize::MAX,
    ensures
        out@ == piled(
            ground@,
            crate::stack::map_view(protect),
            layers@,
            layers@.len() as int,
            mode,
            crate::stack::guard_view(guard),
        ),
        out@.wf(),
        crate::stack::no_darker(ground@, out@),
{
    let mut out = copy(ground);
    let mut i: usize = 0;
    while i < layers.len()
        invariant
            i <= layers@.len(),
            ground@.wf(),
            out@.wf(),
            crate::stack::no_darker(ground@, out@),
            crate::stack::is_share_map(crate::stack::map_view(protect), ground@.w, ground@.h),
            forall|i: int| 0 <= i < layers@.len() ==> (#[trigger] layers@[i]).wf(),
            crate::stack::guard_view(guard) matches Some(g) ==> g.wf() && ground@.w * g.w
                <= usize::MAX && ground@.h * g.h <= usize::MAX,
            out@ == piled(
                ground@,
                crate::stack::map_view(protect),
                layers@,
                i as int,
                mode,
                crate::stack::guard_view(guard),
            ),
        decreases layers@.len() - i,
    {
        let l = &layers[i];
        let ghost before = out@;
        let mask: Option<&Vec<Single>> = l.mask.as_ref();
        assert(crate::stack::map_view(mask) == crate::stack::own_map(l.mask));
        assert(l.wf());
        lay_layer(&mut out, &l.img, &l.xform, &l.angle, mask, protect, guard, mode);
        proof {
            assert forall|j: int| 0 <= j < ground@.d.len() implies #[trigger] out@.d[j]
                >= ground@.d[j] by {
                assert(before.d[j] >= ground@.d[j]);
            }
        }
        i += 1;
    }
    out
}

/// A picture of the same size that is all black.
pub open spec fn blacked(p: crate::raster::Picture) -> crate::raster::Picture {
    crate::raster::Picture { w: p.w, h: p.h, d: Seq::new(p.d.len(), |i: int| 0u8) }
}

/// Moves, turns and scales a picture inside its own canvas; what it uncovers is black. A transform
/// that does nothing leaves every byte alone.
pub fn place_any(img: &mut Raster, x: &Xform, a: &Angle)
    requires
        old(img)@.wf(),
        old(img).w <= crate::spread::longest(),
        old(img).h <= crate::spread::longest(),
        x.wf(),
        a.wf(),
    ensures
        final(img)@.wf(),
        x.kept() == Xform::plain() ==> *final(img) == *old(img),
        x.kept() != Xform::plain() ==> final(img)@ == laid(
            blacked(old(img)@),
            old(img)@,
            x.kept(),
            *a,
            None,
            None,
            None,
            BlendMode::Lighten,
        ),
{
    let k = (*x).clamped();
    if k.is_identity() {
        return;
    }
    let src = copy(img);
    let n: usize = img.d.len();
    img.d = vec![0u8; n];
    assert(img@.d =~= blacked(src@).d);
    lay_layer(img, &src, &k, a, None, None, None, BlendMode::Lighten);
}

} // verus!
