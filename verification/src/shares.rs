//! How much of each pixel shapes pick out, as shares: what a grade is for, and what a layer holds back.

use vstd::prelude::*;

use crate::mask::shape_weights;
use crate::signed::Signed;
use crate::single::Single;
use crate::smoke::Shape;

verus! {

/// A number as a share: from 0 to 1, and nothing where it is too small to tell.
pub open spec fn share(v: Signed) -> Single {
    if v.neg || v.size.m == 0 {
        crate::single::nought()
    } else if crate::single::below(crate::single::one(), v.size) {
        crate::single::one()
    } else if v.size.e < -98 {
        crate::single::nought()
    } else {
        v.size
    }
}

/// A number as a share (see [`share`]).
pub fn share_of(v: Signed) -> (s: Single)
    requires
        v.size.wf(),
    ensures
        s == share(v),
        crate::single::is_share(s),
{
    let unit = Single::unit();
    if v.neg || v.size.m == 0 {
        Single { m: 0, e: 0 }
    } else if unit.less(v.size) {
        unit
    } else if v.size.e < -98 {
        Single { m: 0, e: 0 }
    } else {
        v.size
    }
}

/// How much of a pixel shapes pick out.
pub open spec fn picked(
    shapes: Seq<Shape>,
    feather: int,
    density: int,
    w: int,
    h: int,
    x: int,
    y: int,
) -> Single {
    share(
        if crate::smoke::used_shapes(shapes).len() == 0 {
            Signed::part(0, 1)
        } else {
            crate::mask::weight(
                crate::smoke::used_shapes(shapes),
                feather,
                density,
                w,
                h,
                x,
                y,
            )
        },
    )
}

/// `v` holds how much of each pixel shapes pick out, or leave where `invert`.
pub open spec fn is_picked(
    v: Seq<Single>,
    shapes: Seq<Shape>,
    feather: int,
    density: int,
    invert: bool,
    w: int,
    h: int,
) -> bool {
    &&& v.len() == w * h
    &&& forall|i: int| 0 <= i < v.len() ==> crate::single::is_share(#[trigger] v[i])
    &&& forall|x: int, y: int|
        0 <= x < w && 0 <= y < h ==> #[trigger] v[crate::grid::cell(x, y, w)] == {
            let s = picked(shapes, feather, density, w, h, x, y);
            if invert {
                crate::single::rest(s)
            } else {
                s
            }
        }
}

fn shares_of(
    shapes: Vec<Shape>,
    feather: i32,
    density: i32,
    invert: bool,
    w: u32,
    h: u32,
) -> (out: Vec<Single>)
    requires
        forall|i: int|
            0 <= i < shapes@.len() ==> crate::mask::is_drawable(#[trigger] shapes@[i]),
        w * h <= usize::MAX,
    ensures
        is_picked(
            out@,
            shapes@,
            feather as int,
            density as int,
            invert,
            w as int,
            h as int,
        ),
{
    let v = shape_weights(shapes, feather, density, w, h);
    let n: usize = v.len();
    let mut out: Vec<Single> = Vec::new();
    let mut i: usize = 0;
    while i < n
        invariant
            i <= n == v@.len(),
            forall|k: int| 0 <= k < n ==> (#[trigger] v@[k]).size.wf(),
            out@.len() == i,
            forall|k: int| 0 <= k < i ==> crate::single::is_share(#[trigger] out@[k]),
            forall|k: int|
                0 <= k < i ==> #[trigger] out@[k] == if invert {
                    crate::single::rest(share(v@[k]))
                } else {
                    share(v@[k])
                },
        decreases n - i,
    {
        let s = share_of(v[i]);
        out.push(
            if invert {
                s.complement()
            } else {
                s
            },
        );
        i += 1;
    }
    proof {
        assert forall|x: int, y: int| 0 <= x < w && 0 <= y < h implies #[trigger] out@[crate::grid::cell(
            x,
            y,
            w as int,
        )] == {
            let s = picked(shapes@, feather as int, density as int, w as int, h as int, x, y);
            if invert {
                crate::single::rest(s)
            } else {
                s
            }
        } by {
            crate::grid::lemma_cell_bound(x, y, w as int, h as int);
            let k = crate::grid::cell(x, y, w as int);
            assert(v@[k].size.wf());
        }
    }
    out
}

/// How much of each pixel a grade is for (see [`is_picked`]); none where it has no shapes and is for
/// all.
pub fn grade_weights(
    shapes: Vec<Shape>,
    feather: i32,
    density: i32,
    invert: bool,
    w: u32,
    h: u32,
) -> (out: Option<Vec<Single>>)
    requires
        forall|i: int|
            0 <= i < shapes@.len() ==> crate::mask::is_drawable(#[trigger] shapes@[i]),
        w * h <= usize::MAX,
    ensures
        out is None <==> shapes@.len() == 0,
        out matches Some(v) ==> is_picked(
            v@,
            shapes@,
            feather as int,
            density as int,
            invert,
            w as int,
            h as int,
        ),
{
    if shapes.len() == 0 {
        None
    } else {
        Some(shares_of(shapes, feather, density, invert, w, h))
    }
}

/// What shapes hold back of a layer, or all but that where `invert`: none where no shape is large
/// enough to be meant, or none holds back anything.
pub fn layer_weights(
    shapes: Vec<Shape>,
    feather: i32,
    density: i32,
    invert: bool,
    w: u32,
    h: u32,
) -> (out: Option<Vec<Single>>)
    requires
        forall|i: int|
            0 <= i < shapes@.len() ==> crate::mask::is_drawable(#[trigger] shapes@[i]),
        w * h <= usize::MAX,
    ensures
        exists|v: Seq<Single>| #[trigger]
            is_picked(
                v,
                shapes@,
                feather as int,
                density as int,
                false,
                w as int,
                h as int,
            ) && crate::stack::own_map(out) == crate::stack::mask_of(v, invert),
        out matches Some(m) ==> m@.len() == w * h && forall|i: int|
            0 <= i < m@.len() ==> crate::single::is_share(#[trigger] m@[i]),
{
    let ghost all = shapes@;
    let v = shares_of(shapes, feather, density, false, w, h);
    assert(is_picked(
        v@,
        all,
        feather as int,
        density as int,
        false,
        w as int,
        h as int,
    ));
    crate::stack::weights(v, invert)
}

} // verus!
