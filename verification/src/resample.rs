//! Scaling pictures.

use vstd::prelude::*;

use crate::raster::Raster;
use crate::scale::work_size;

verus! {

/// The bytes of a picture resampled with a triangle filter.
pub uninterp spec fn resampled(d: Seq<u8>, w: int, h: int, nw: int, nh: int) -> Seq<u8>;

/// A side of `o` pixels can be brought to `n`: both have up to 20 bits, or the side is brought down at
/// least to an eighth. Otherwise single precision may not tell the pixels apart that a new one lies
/// between, and no weight is left to share out.
pub open spec fn is_apart(o: int, n: int) -> bool {
    &&& 1 <= n <= 0x10_0000
    &&& o <= 0x10_0000 || 8 * n <= o
}

/// The picture can be resampled: its pixels can be told apart (see [`is_apart`]), and the buffers that
/// it takes can be addressed.
pub open spec fn can_resample(w: int, h: int, nw: int, nh: int) -> bool {
    &&& is_apart(w, nw)
    &&& is_apart(h, nh)
    &&& w * nh * 16 <= isize::MAX
    &&& nw * nh * 3 <= isize::MAX
}

/// Calls `image::imageops::resize` with the triangle filter on the picture that
/// `image::ImageBuffer::from_raw` makes of the bytes. The result is a function of the bytes and the
/// two sizes, has three bytes for every pixel of the new size, and repeats the picture where the
/// size does not change. How the filter weighs the pixels is left to the name.
#[verifier::external_body]
fn resize_triangle(d: &Vec<u8>, w: u32, h: u32, nw: u32, nh: u32) -> (out: Vec<u8>)
    requires
        d@.len() == w * h * 3,
        can_resample(w as int, h as int, nw as int, nh as int),
    ensures
        out@ == resampled(d@, w as int, h as int, nw as int, nh as int),
        out@.len() == nw * nh * 3,
        nw == w && nh == h ==> out@ == d@,
{
    match image::RgbImage::from_raw(w, h, d.clone()) {
        Some(img) => {
            image::imageops::resize(&img, nw, nh, image::imageops::FilterType::Triangle).into_raw()
        },
        None => Vec::new(),
    }
}

/// `p` resampled to `nw` by `nh`.
pub open spec fn resized(
    p: crate::raster::Picture,
    nw: int,
    nh: int,
) -> crate::raster::Picture {
    crate::raster::Picture { w: nw, h: nh, d: resampled(p.d, p.w, p.h, nw, nh) }
}

/// Can a `w` by `h` picture be resampled to `nw` by `nh`?
fn is_resamplable(w: usize, h: usize, nw: u64, nh: u64) -> (b: bool)
    requires
        w <= u32::MAX,
    ensures
        b == can_resample(w as int, h as int, nw as int, nh as int),
{
    if nw < 1 || nh < 1 || nw > 0x10_0000 || nh > 0x10_0000 {
        return false;
    }
    let long: u64 = 0x10_0000;
    if (w as u64 > long && 8 * nw > w as u64) || (h as u64 > long && 8 * nh > h as u64) {
        return false;
    }
    let top: u64 = isize::MAX as u64;
    assert(w * nh <= 0xFFFF_FFFF * 0x10_0000) by (nonlinear_arith)
        requires
            w <= 0xFFFF_FFFF,
            nh <= 0x10_0000,
    ;
    assert(nw * nh <= 0x100_0000_0000) by (nonlinear_arith)
        requires
            nw <= 0x10_0000,
            nh <= 0x10_0000,
    ;
    assert(0 <= w * nh && 0 <= nw * nh) by (nonlinear_arith);
    (w as u64) * nh * 16 <= top && nw * nh * 3 <= top
}

/// The picture resampled to `nw` by `nh`; `None` where that cannot be done.
pub fn resize(img: &Raster, nw: u64, nh: u64) -> (out: Option<Raster>)
    requires
        img@.wf(),
    ensures
        out is Some <==> can_resample(img@.w, img@.h, nw as int, nh as int),
        out matches Some(r) ==> r@.wf() && r@ == resized(img@, nw as int, nh as int),
{
    if !is_resamplable(img.w, img.h, nw, nh) {
        return None;
    }
    let d = resize_triangle(&img.d, img.w as u32, img.h as u32, nw as u32, nh as u32);
    Some(Raster { w: nw as usize, h: nh as usize, d })
}

/// A copy of the picture.
pub fn copy(img: &Raster) -> (out: Raster)
    ensures
        out@ == img@,
{
    let d = img.d.clone();
    assert(d@ =~= img.d@);
    Raster { w: img.w, h: img.h, d }
}

/// A picture brought down so that its long edge is `long`: none where it cannot be resampled.
pub open spec fn shrunk(p: crate::raster::Picture, long: int) -> Option<crate::raster::Picture> {
    let nw = crate::scale::work_side(p.w, p.w, p.h, long);
    let nh = crate::scale::work_side(p.h, p.w, p.h, long);
    if crate::scale::longer(p.w, p.h) <= long {
        Some(p)
    } else if can_resample(p.w, p.h, nw, nh) {
        Some(resized(p, nw, nh))
    } else {
        None
    }
}

/// The buffers that it takes to bring a picture down to a long edge of `long` can be addressed.
pub open spec fn can_hold(p: crate::raster::Picture, long: int) -> bool {
    crate::scale::longer(p.w, p.h) <= long || (p.w * crate::scale::work_side(p.h, p.w, p.h, long) * 16
        <= isize::MAX && crate::scale::work_side(p.w, p.w, p.h, long) * crate::scale::work_side(
        p.h,
        p.w,
        p.h,
        long,
    ) * 3 <= isize::MAX)
}

/// The picture brought down so that its long edge is `long`. A picture that is no longer than that
/// is copied as it is; `None` where it cannot be resampled.
pub fn shrink(img: &Raster, long: u32) -> (out: Option<Raster>)
    requires
        img@.wf(),
    ensures
        crate::scale::longer(img@.w, img@.h) <= long ==> out is Some && out->0@ == img@,
        crate::scale::longer(img@.w, img@.h) > long ==> {
            let nw = crate::scale::work_side(img@.w, img@.w, img@.h, long as int);
            let nh = crate::scale::work_side(img@.h, img@.w, img@.h, long as int);
            (out is Some <==> can_resample(img@.w, img@.h, nw, nh)) && (out matches Some(r)
                ==> r@.wf() && r@ == resized(img@, nw, nh))
        },
        out is Some <==> shrunk(img@, long as int) is Some,
        out matches Some(r) ==> r@.wf() && r@ == shrunk(img@, long as int)->0,
        0 < long <= 1024 && out is Some ==> out->0.w <= 0x8000 && out->0.h <= 0x8000,
        0 < long <= 0x1000 && out is Some ==> out->0.w <= 0x2_0000 && out->0.h <= 0x2_0000,
        img.w > 0 && img.h > 0 && out is Some ==> out->0.w > 0 && out->0.h > 0,
        0 < long <= 0x1000 && img.w > 0 && img.h > 0 && out is Some ==> out->0.w <= img.w && out->0.h
            <= img.h,
        0 < long <= 0x1000 && img.w > 0 && img.h > 0 ==> (out is Some <==> can_hold(img@, long as int)),
{
    if img.w as u64 <= long as u64 && img.h as u64 <= long as u64 {
        return Some(copy(img));
    }
    let size = work_size(img.w as u32, img.h as u32, long);
    resize(img, size.0, size.1)
}

} // verus!
