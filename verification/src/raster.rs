//! Eight-bit RGB pictures.

use vstd::prelude::*;

use crate::grid;

verus! {

/// An RGB picture, row by row from the top left, three bytes per pixel.
pub struct Raster {
    pub w: usize,
    pub h: usize,
    pub d: Vec<u8>,
}

/// Position of channel `c` of the pixel in column `x` of row `y`, in a picture `w` wide.
pub open spec fn slot(x: int, y: int, c: int, w: int) -> int {
    grid::cell(x, y, w) * 3 + c
}

/// A picture as mathematics sees it.
#[verifier::ext_equal]
pub struct Picture {
    pub w: int,
    pub h: int,
    pub d: Seq<u8>,
}

impl Picture {
    /// Sides have 32 bits, and there are exactly three bytes per pixel.
    pub open spec fn wf(self) -> bool {
        &&& 0 <= self.w <= u32::MAX
        &&& 0 <= self.h <= u32::MAX
        &&& self.d.len() == self.w * self.h * 3
    }

    /// The pixel lies on the picture.
    pub open spec fn has(self, x: int, y: int) -> bool {
        0 <= x < self.w && 0 <= y < self.h
    }

    /// Channel `c` of the pixel in column `x` of row `y`.
    pub open spec fn at(self, x: int, y: int, c: int) -> u8 {
        self.d[slot(x, y, c, self.w)]
    }
}

impl View for Raster {
    type V = Picture;

    open spec fn view(&self) -> Picture {
        Picture { w: self.w as int, h: self.h as int, d: self.d@ }
    }
}

/// Bytes of pixels on a picture lie inside its buffer.
pub proof fn lemma_slot_bound(x: int, y: int, c: int, w: int, h: int)
    requires
        0 <= x < w,
        0 <= y < h,
        0 <= c < 3,
    ensures
        0 <= slot(x, y, c, w) < w * h * 3,
        slot(x, y, c, w) == y * w * 3 + x * 3 + c,
        y * w >= 0,
        w * 3 <= w * h * 3,
{
    grid::lemma_cell_bound(x, y, w, h);
    assert(y * w >= 0) by (nonlinear_arith)
        requires
            0 <= y,
            0 <= w,
    ;
    assert(w <= w * h) by (nonlinear_arith)
        requires
            h >= 1,
            0 <= w,
    ;
}

/// Two bytes share a buffer position only when they are the same channel of the same pixel.
pub proof fn law_one_slot_per_byte(x0: int, y0: int, c0: int, x1: int, y1: int, c1: int, w: int)
    requires
        0 <= x0 < w,
        0 <= x1 < w,
        0 <= c0 < 3,
        0 <= c1 < 3,
        slot(x0, y0, c0, w) == slot(x1, y1, c1, w),
    ensures
        x0 == x1,
        y0 == y1,
        c0 == c1,
{
    grid::lemma_cell_injective(x0, y0, x1, y1, w);
}

impl Raster {
    /// Channel `c` of the pixel in column `x` of row `y`.
    pub fn get(&self, x: usize, y: usize, c: usize) -> (v: u8)
        requires
            self@.wf(),
            self@.has(x as int, y as int),
            c < 3,
        ensures
            v == self@.at(x as int, y as int, c as int),
    {
        let n: usize = self.d.len();
        proof {
            lemma_slot_bound(x as int, y as int, c as int, self.w as int, self.h as int);
            grid::lemma_cell_bound(x as int, y as int, self.w as int, self.h as int);
        }
        self.d[(y * self.w + x) * 3 + c]
    }
}

} // verus!
