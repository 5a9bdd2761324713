//! How far the frames of a movie are from each other, and how many of them are worked out for
//! themselves.

use vstd::prelude::*;

use crate::blocks::THUMB_WHITE;
use crate::double::Double;
use crate::held::{divide_by, mix, take_from, whole};
use crate::signed::Signed;
use crate::smoke::{same_field_params, SmokeParams};

verus! {

/// `num / den` in double precision.
pub open spec fn ratio(num: int, den: int) -> Double {
    crate::double::quotient(crate::double::of_int(num), crate::double::of_int(den))
}

/// The light of a cell, from 0 to 1.
pub open spec fn shine(v: u32) -> Signed {
    crate::held::over(Signed::part(v as int, 1), Signed::part(THUMB_WHITE as int, 1))
}

fn shine_of(v: u32) -> (r: Signed)
    ensures
        r == shine(v),
        crate::held::fits(r),
{
    divide_by(whole(v as u64), Signed::of(THUMB_WHITE as u64, 1))
}

/// How far a cell is from what it would be `t` of the way between two others.
pub open spec fn off(a: u32, c: u32, b: u32, t: Signed) -> Signed {
    crate::held::minus(shine(c), crate::held::mixed(shine(a), shine(b), t)).size_of()
}

/// How far the first `k` cells are off, together.
pub open spec fn off_by(a: Seq<u32>, c: Seq<u32>, b: Seq<u32>, t: Signed, k: int) -> Double
    decreases k,
{
    if k <= 0 {
        Double { m: 0, e: 0 }
    } else {
        crate::double::sum(
            off_by(a, c, b, t, k - 1),
            crate::double::of_single(off(a[k - 1], c[k - 1], b[k - 1], t)),
        )
    }
}

/// The light of the first `k` cells, together.
pub open spec fn glow_upto(c: Seq<u32>, k: int) -> Double
    decreases k,
{
    if k <= 0 {
        Double { m: 0, e: 0 }
    } else {
        crate::double::sum(glow_upto(c, k - 1), crate::double::of_single(shine(c[k - 1])))
    }
}

/// How far a frame is from what it would be between two others, against its own light; none where they
/// are not alike in size or have no cells.
pub open spec fn difference(a: Seq<u32>, c: Seq<u32>, b: Seq<u32>, t: Signed) -> Option<Double> {
    if a.len() != c.len() || b.len() != c.len() || c.len() == 0 {
        None
    } else {
        let n = c.len() as int;
        let count = crate::double::of_int(n);
        let k = t.clamped(Signed::part(0, 1), Signed::part(1, 1));
        Some(
            crate::double::quotient(
                crate::double::quotient(off_by(a, c, b, k, n), count),
                crate::double::sum(
                    crate::double::quotient(glow_upto(c, n), count),
                    ratio(2, 100),
                ),
            ),
        )
    }
}

/// How far a frame is from what it would be between two others (see [`difference`]).
pub fn frame_diff(a: &Vec<u32>, c: &Vec<u32>, b: &Vec<u32>, t: Signed) -> (r: Option<Double>)
    requires
        crate::held::fits(t),
    ensures
        r == difference(a@, c@, b@, t),
        r matches Some(d) ==> d.wf(),
{
    let n: usize = c.len();
    if a.len() != n || b.len() != n || n == 0 {
        return None;
    }
    let k = t.clamp(Signed::zero(), Signed::of(1, 1));
    let mut diff = Double { m: 0, e: 0 };
    let mut level = Double { m: 0, e: 0 };
    let mut i: usize = 0;
    while i < n
        invariant
            i <= n == c@.len() == a@.len() == b@.len(),
            crate::held::fits(k),
            diff == off_by(a@, c@, b@, k, i as int),
            diff.wf(),
            level == glow_upto(c@, i as int),
            level.wf(),
        decreases n - i,
    {
        let v = shine_of(c[i]);
        let d = take_from(v, mix(shine_of(a[i]), shine_of(b[i]), k));
        diff = diff.plus(Double::widen(Signed { neg: false, size: d.size }));
        level = level.plus(Double::widen(v));
        i += 1;
    }
    let count = Double::of(n as u64);
    let dim = Double::of(2).over(Double::of(100));
    Some(diff.over(count).over(level.over(count).plus(dim)))
}

/// Frames are far from each other: they are not alike in size, or differ by more than 12 parts in a
/// hundred.
pub open spec fn are_far(d: Option<Double>) -> bool {
    match d {
        Some(v) => crate::double::sum(v, crate::double::minus(ratio(12, 100))).m > 0,
        None => true,
    }
}

/// Is a frame too far from the two others to be worked out from them (see [`are_far`])?
pub fn is_far(a: &Vec<u32>, c: &Vec<u32>, b: &Vec<u32>, t: Signed) -> (r: bool)
    requires
        crate::held::fits(t),
    ensures
        r == are_far(difference(a@, c@, b@, t)),
{
    match frame_diff(a, c, b, t) {
        Some(v) => v.take(Double::of(12).over(Double::of(100))).m > 0,
        None => true,
    }
}

/// A frame between two others has to be worked out for itself: its settings do not give smoke that
/// can be mixed from theirs, or it is far from what lies between them.
pub open spec fn has_own_smoke(
    pa: SmokeParams,
    pi: SmokeParams,
    pb: SmokeParams,
    d: Option<Double>,
) -> bool {
    !crate::smoke::same_field(pa, pi) || !crate::smoke::same_field(pi, pb) || are_far(d)
}

/// Does frame `i`, `t` of the way from frame `a` to frame `b`, have to be worked out for itself (see
/// [`has_own_smoke`])? `ta`, `ti` and `tb` are small grey pictures of the three.
pub fn is_fresh(
    pa: &SmokeParams,
    pi: &SmokeParams,
    pb: &SmokeParams,
    ta: &Vec<u32>,
    ti: &Vec<u32>,
    tb: &Vec<u32>,
    t: Signed,
) -> (b: bool)
    requires
        crate::held::fits(t),
    ensures
        b == has_own_smoke(*pa, *pi, *pb, difference(ta@, ti@, tb@, t)),
{
    !same_field_params(pa, pi) || !same_field_params(pi, pb) || is_far(ta, ti, tb, t)
}

/// Every how many frames one is worked out for itself: every third from 48 frames a second on, else
/// every second one.
pub fn interp_stride(fps: Signed) -> (n: usize)
    requires
        fps.size.wf(),
    ensures
        n == if fps.lies_below(Signed::part(48, 1)) {
            2int
        } else {
            3int
        },
{
    if fps.less(Signed::of(48, 1)) {
        2
    } else {
        3
    }
}

} // verus!
