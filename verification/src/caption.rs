//! Text on a photo. A font gives the widths of glyphs and how far each covers a pixel; how the glyphs of
//! a line follow each other, where the text lies, and what it makes of the photo is worked out here.

use vstd::prelude::*;

use crate::edit::TextItem;
use crate::held::{add_to, divide_by, mix, scale_by, take_from, whole};
use crate::overlay::{hull_of, turn_out};
use crate::raster::Raster;
use crate::signed::Signed;
use crate::stroke::{first_cell_of, Point};
use crate::turned::Angle;

verus! {

/// An integer as a number (see [`Signed::integer`]).
pub fn integer_of(n: i64) -> (v: Signed)
    requires
        -0x4000_0000_0000_0000 <= n,
    ensures
        v == Signed::integer(n as int),
        crate::held::fits(v),
{
    if n < 0 {
        whole((-n) as u64).negate()
    } else {
        whole(n as u64)
    }
}

/// The greatest integer that is not above the number, as far as 32 bits go.
pub open spec fn down(v: Signed) -> int {
    if v.size.e > 7 {
        if v.neg {
            i32::MIN as int
        } else {
            i32::MAX as int
        }
    } else if v.neg {
        -crate::single::ceil(v.size)
    } else {
        crate::single::floor(v.size)
    }
}

/// The smallest integer that is not below the number, as far as 32 bits go.
pub open spec fn up(v: Signed) -> int {
    if v.size.e > 7 {
        if v.neg {
            i32::MIN as int
        } else {
            i32::MAX as int
        }
    } else if v.neg {
        -crate::single::floor(v.size)
    } else {
        crate::single::ceil(v.size)
    }
}

/// More than any of [`down`] and [`up`].
pub const FAR: i64 = 0x1_0000_0000_0000;

fn down_of(v: Signed) -> (n: i64)
    requires
        crate::held::fits(v),
    ensures
        n == down(v),
        -FAR <= n <= FAR,
{
    if v.size.e > 7 {
        if v.neg {
            i32::MIN as i64
        } else {
            i32::MAX as i64
        }
    } else if v.neg {
        -(v.size.ceil() as i64)
    } else {
        v.size.floor() as i64
    }
}

fn up_of(v: Signed) -> (n: i64)
    requires
        crate::held::fits(v),
    ensures
        n == up(v),
        -FAR <= n <= FAR,
{
    if v.size.e > 7 {
        if v.neg {
            i32::MIN as i64
        } else {
            i32::MAX as i64
        }
    } else if v.neg {
        -(v.size.floor() as i64)
    } else {
        v.size.ceil() as i64
    }
}

/// What a font says of a glyph in a line: how far it is moved towards the one before it, and how far the
/// next one follows.
#[derive(Clone, Copy)]
pub struct Glyph {
    pub kern: Signed,
    pub advance: Signed,
}

/// The numbers of all glyphs lie in the range.
pub open spec fn is_line(g: Seq<Glyph>) -> bool {
    forall|i: int|
        0 <= i < g.len() ==> crate::held::fits((#[trigger] g[i]).kern) && crate::held::fits(
            g[i].advance,
        )
}

/// Where the pen is after `k` glyphs.
pub open spec fn pen(g: Seq<Glyph>, k: int) -> Signed
    decreases k, 0int,
{
    if k <= 0 {
        Signed::part(0, 1)
    } else {
        crate::held::plus(start(g, k - 1), g[k - 1].advance)
    }
}

/// Where glyph `k` starts: the first one where the pen is, every other one moved by its kern.
pub open spec fn start(g: Seq<Glyph>, k: int) -> Signed
    decreases k, 1int,
{
    if k <= 0 {
        Signed::part(0, 1)
    } else {
        crate::held::plus(pen(g, k), g[k].kern)
    }
}

/// Lays out a line: where its glyphs start (see [`start`]), and its width.
pub fn place_line(g: &Vec<Glyph>) -> (r: (Vec<Signed>, Signed))
    requires
        is_line(g@),
    ensures
        r.0@.len() == g@.len(),
        forall|i: int| 0 <= i < g@.len() ==> #[trigger] r.0@[i] == start(g@, i),
        forall|i: int| 0 <= i < g@.len() ==> crate::held::fits(#[trigger] r.0@[i]),
        r.1 == pen(g@, g@.len() as int),
        crate::held::fits(r.1),
{
    let mut out: Vec<Signed> = Vec::new();
    let mut x = Signed::of(0, 1);
    let mut i: usize = 0;
    while i < g.len()
        invariant
            i <= g@.len(),
            is_line(g@),
            out@.len() == i,
            forall|k: int| 0 <= k < i ==> #[trigger] out@[k] == start(g@, k),
            forall|k: int| 0 <= k < i ==> crate::held::fits(#[trigger] out@[k]),
            x == pen(g@, i as int),
            crate::held::fits(x),
        decreases g@.len() - i,
    {
        if i > 0 {
            x = add_to(x, g[i].kern);
        }
        out.push(x);
        x = add_to(x, g[i].advance);
        i += 1;
    }
    (out, x)
}

/// The greatest of zero and the first `k` numbers.
pub open spec fn widest(v: Seq<Signed>, k: int) -> Signed
    decreases k,
{
    if k <= 0 {
        Signed::part(0, 1)
    } else {
        widest(v, k - 1).larger(v[k - 1])
    }
}

fn widest_of(v: &Vec<Signed>) -> (r: Signed)
    requires
        forall|i: int| 0 <= i < v@.len() ==> crate::held::fits(#[trigger] v@[i]),
    ensures
        r == widest(v@, v@.len() as int),
        crate::held::fits(r),
{
    let mut r = Signed::of(0, 1);
    let mut i: usize = 0;
    while i < v.len()
        invariant
            i <= v@.len(),
            forall|k: int| 0 <= k < v@.len() ==> crate::held::fits(#[trigger] v@[k]),
            r == widest(v@, i as int),
            crate::held::fits(r),
        decreases v@.len() - i,
    {
        r = r.max(v[i]);
        i += 1;
    }
    r
}

/// How large a photo is against one that is 1080 pixels high.
pub open spec fn measure(ih: int) -> Signed {
    crate::held::over(Signed::part(ih, 1), Signed::part(1080, 1))
}

fn measure_of(ih: u32) -> (r: Signed)
    ensures
        r == measure(ih as int),
        crate::held::fits(r),
{
    divide_by(whole(ih as u64), Signed::of(1080, 1))
}

/// The height of letters in pixels, at least two.
pub open spec fn text_height(size: int, ih: int) -> Signed {
    crate::held::times(Signed::integer(size), measure(ih)).larger(Signed::part(2, 1))
}

/// The height of letters on a photo (see [`text_height`]).
pub fn text_px(size: i32, ih: u32) -> (r: Signed)
    ensures
        r == text_height(size as int, ih as int),
        crate::held::fits(r),
{
    scale_by(integer_of(size as i64), measure_of(ih)).max(Signed::of(2, 1))
}

/// How far a line lies below the one before it, from what a font says of its lines.
pub fn line_height(ascent: Signed, descent: Signed, gap: Signed) -> (r: Signed)
    requires
        crate::held::fits(ascent),
        crate::held::fits(descent),
        crate::held::fits(gap),
    ensures
        r == crate::held::plus(crate::held::minus(ascent, descent), gap),
        crate::held::fits(r),
{
    add_to(take_from(ascent, descent), gap)
}

/// Where the letters of line `i` stand.
pub fn baseline(line_h: Signed, i: u32, ascent: Signed) -> (r: Signed)
    requires
        crate::held::fits(line_h),
        crate::held::fits(ascent),
    ensures
        r == crate::held::plus(crate::held::times(line_h, Signed::part(i as int, 1)), ascent),
        crate::held::fits(r),
{
    add_to(scale_by(line_h, whole(i as u64)), ascent)
}

/// How a text is painted: the colours of its letters and their outlines, each with an opacity, how wide
/// the outline is on a photo 1080 pixels high, and whether a dark box lies behind it.
#[derive(Clone, Copy)]
pub struct TextStyle {
    pub fill: (u8, u8, u8, u8),
    pub edge: (u8, u8, u8, u8),
    pub outline_w: i32,
    pub boxed: bool,
}

/// A block of text: its sides, how wide the outline and the rim of the box are, and its middle on the
/// photo.
pub struct Block {
    pub bw: Signed,
    pub bh: Signed,
    pub ow: Signed,
    pub pad: Signed,
    pub cx: Signed,
    pub cy: Signed,
}

impl Block {
    /// The numbers lie in the range.
    pub open spec fn wf(&self) -> bool {
        &&& crate::held::fits(self.bw)
        &&& crate::held::fits(self.bh)
        &&& crate::held::fits(self.ow)
        &&& crate::held::fits(self.pad)
        &&& crate::held::fits(self.cx)
        &&& crate::held::fits(self.cy)
    }
}

/// The block that lines of these widths make; none where it has no extent.
pub open spec fn blocked(
    t: TextItem,
    s: TextStyle,
    widths: Seq<Signed>,
    line_h: Signed,
    iw: int,
    ih: int,
) -> Option<Block> {
    let bw = widest(widths, widths.len() as int);
    let bh = crate::held::times(line_h, Signed::part(widths.len() as int, 1));
    let m = measure(ih);
    if crate::held::is_no_gain(bw) || crate::held::is_no_gain(bh) {
        None
    } else {
        Some(
            Block {
                bw,
                bh,
                ow: crate::held::times(Signed::integer(s.outline_w as int), m).larger(
                    Signed::part(0, 1),
                ),
                pad: if s.boxed {
                    crate::held::times(text_height(t.size as int, ih), Signed::part(1, 4)).larger(
                        crate::held::times(Signed::part(4, 1), m),
                    )
                } else {
                    Signed::part(0, 1)
                },
                cx: crate::held::times(t.x, Signed::part(iw, 1)),
                cy: crate::held::times(t.y, Signed::part(ih, 1)),
            },
        )
    }
}

fn no_gain(v: Signed) -> (b: bool)
    ensures
        b == crate::held::is_no_gain(v),
{
    v.neg || v.size.m == 0
}

/// The block that lines make (see [`blocked`]).
pub fn block_of(
    t: &TextItem,
    s: &TextStyle,
    widths: &Vec<Signed>,
    line_h: Signed,
    iw: u32,
    ih: u32,
) -> (r: Option<Block>)
    requires
        crate::held::fits(t.x),
        crate::held::fits(t.y),
        forall|i: int| 0 <= i < widths@.len() ==> crate::held::fits(#[trigger] widths@[i]),
        crate::held::fits(line_h),
    ensures
        r == blocked(*t, *s, widths@, line_h, iw as int, ih as int),
        r matches Some(b) ==> b.wf(),
{
    let bw = widest_of(widths);
    let bh = scale_by(line_h, whole(widths.len() as u64));
    if no_gain(bw) || no_gain(bh) {
        return None;
    }
    let m = measure_of(ih);
    let ow = scale_by(integer_of(s.outline_w as i64), m).max(Signed::of(0, 1));
    let pad = if s.boxed {
        scale_by(text_px(t.size, ih), Signed::of(1, 4)).max(scale_by(Signed::of(4, 1), m))
    } else {
        Signed::of(0, 1)
    };
    Some(
        Block {
            bw,
            bh,
            ow,
            pad,
            cx: scale_by(t.x, whole(iw as u64)),
            cy: scale_by(t.y, whole(ih as u64)),
        },
    )
}

/// A box of pixels: the first column and row, and the ones past the last.
#[derive(Clone, Copy)]
pub struct Pane {
    pub x0: i64,
    pub y0: i64,
    pub x1: i64,
    pub y1: i64,
}

/// A place of the block on the photo.
pub open spec fn to_photo(b: Block, a: Angle, x: Signed, y: Signed) -> Point {
    crate::overlay::turned_out(
        b.cx,
        b.cy,
        crate::held::minus(x, crate::held::times(b.bw, Signed::part(1, 2))),
        crate::held::minus(y, crate::held::times(b.bh, Signed::part(1, 2))),
        a,
    )
}

/// A place of the photo on the block.
pub open spec fn to_block(b: Block, a: Angle, x: Signed, y: Signed) -> Point {
    let dx = crate::held::minus(x, b.cx);
    let dy = crate::held::minus(y, b.cy);
    (
        crate::held::plus(
            crate::held::plus(
                crate::held::times(b.bw, Signed::part(1, 2)),
                crate::held::times(dx, a.cos),
            ),
            crate::held::times(dy, a.sin),
        ),
        crate::held::plus(
            crate::held::minus(
                crate::held::times(b.bh, Signed::part(1, 2)),
                crate::held::times(dx, a.sin),
            ),
            crate::held::times(dy, a.cos),
        ),
    )
}

fn to_photo_of(b: &Block, a: &Angle, x: Signed, y: Signed) -> (p: Point)
    requires
        b.wf(),
        a.wf(),
        crate::held::fits(x),
        crate::held::fits(y),
    ensures
        p == to_photo(*b, *a, x, y),
        crate::held::fits(p.0),
        crate::held::fits(p.1),
{
    let half = Signed::of(1, 2);
    turn_out(
        b.cx,
        b.cy,
        take_from(x, scale_by(b.bw, half)),
        take_from(y, scale_by(b.bh, half)),
        a,
    )
}

fn to_block_of(b: &Block, a: &Angle, x: Signed, y: Signed) -> (p: Point)
    requires
        b.wf(),
        a.wf(),
        crate::held::fits(x),
        crate::held::fits(y),
    ensures
        p == to_block(*b, *a, x, y),
        crate::held::fits(p.0),
        crate::held::fits(p.1),
{
    let half = Signed::of(1, 2);
    let dx = take_from(x, b.cx);
    let dy = take_from(y, b.cy);
    (
        add_to(add_to(scale_by(b.bw, half), scale_by(dx, a.cos)), scale_by(dy, a.sin)),
        add_to(take_from(scale_by(b.bh, half), scale_by(dx, a.sin)), scale_by(dy, a.cos)),
    )
}

/// The pixels of an `iw` by `ih` photo that a block can touch, rim and outline counted in; none where
/// it lies off the photo.
pub open spec fn touched(b: Block, a: Angle, iw: int, ih: int) -> Option<Pane> {
    let ext = crate::held::plus(b.pad.larger(b.ow), Signed::part(1, 1));
    let l = ext.negated();
    let r = crate::held::plus(b.bw, ext);
    let d = crate::held::plus(b.bh, ext);
    let h = crate::overlay::hull(
        to_photo(b, a, l, l),
        to_photo(b, a, r, l),
        to_photo(b, a, r, d),
        to_photo(b, a, l, d),
    );
    let x0 = crate::signed::max_of(down(h.0.0), 0);
    let y0 = crate::signed::max_of(down(h.0.1), 0);
    let x1 = crate::scale::within(up(h.1.0) + 1, 0, iw);
    let y1 = crate::scale::within(up(h.1.1) + 1, 0, ih);
    if x1 > x0 && y1 > y0 {
        Some(Pane { x0: x0 as i64, y0: y0 as i64, x1: x1 as i64, y1: y1 as i64 })
    } else {
        None
    }
}

fn past_of(v: Signed, n: u32) -> (r: i64)
    requires
        crate::held::fits(v),
    ensures
        r == crate::scale::within(up(v) + 1, 0, n as int),
        0 <= r <= n,
{
    let k: i64 = up_of(v) + 1;
    if k < 0 {
        0
    } else if k > n as i64 {
        n as i64
    } else {
        k
    }
}

fn from_of(v: Signed) -> (r: i64)
    requires
        crate::held::fits(v),
    ensures
        r == crate::signed::max_of(down(v), 0),
        0 <= r <= FAR,
{
    let k: i64 = down_of(v);
    if k < 0 {
        0
    } else {
        k
    }
}

/// The pixels that a block can touch (see [`touched`]).
pub fn pane_of(b: &Block, a: &Angle, iw: u32, ih: u32) -> (r: Option<Pane>)
    requires
        b.wf(),
        a.wf(),
    ensures
        r == touched(*b, *a, iw as int, ih as int),
        r matches Some(p) ==> 0 <= p.x0 < p.x1 <= iw && 0 <= p.y0 < p.y1 <= ih,
{
    let ext = add_to(b.pad.max(b.ow), Signed::of(1, 1));
    let l = ext.negate();
    let r = add_to(b.bw, ext);
    let d = add_to(b.bh, ext);
    let h = hull_of(
        to_photo_of(b, a, l, l),
        to_photo_of(b, a, r, l),
        to_photo_of(b, a, r, d),
        to_photo_of(b, a, l, d),
    );
    let x0: i64 = from_of(h.0.0);
    let y0: i64 = from_of(h.0.1);
    let x1: i64 = past_of(h.1.0, iw);
    let y1: i64 = past_of(h.1.1, ih);
    if x1 > x0 && y1 > y0 {
        Some(Pane { x0, y0, x1, y1 })
    } else {
        None
    }
}

/// A number that is not negative, rounded up.
pub open spec fn raised(v: Signed) -> Signed {
    if v.size.e >= 0 {
        v
    } else {
        Signed::part(crate::single::ceil(v.size), 1)
    }
}

fn raised_of(v: Signed) -> (r: Signed)
    requires
        crate::held::fits(v),
    ensures
        r == raised(v),
        crate::held::fits(r),
{
    if v.size.e >= 0 {
        v
    } else {
        whole(v.size.ceil())
    }
}

/// The part of the block's plane that the pixels of a box show, no further from the letters than their
/// outline goes.
pub open spec fn window(b: Block, a: Angle, p: Pane) -> Pane {
    let x0 = Signed::part(p.x0 as int, 1);
    let y0 = Signed::part(p.y0 as int, 1);
    let x1 = Signed::part(p.x1 as int, 1);
    let y1 = Signed::part(p.y1 as int, 1);
    let h = crate::overlay::hull(
        to_block(b, a, x0, y0),
        to_block(b, a, x1, y0),
        to_block(b, a, x1, y1),
        to_block(b, a, x0, y1),
    );
    let pad = crate::held::plus(raised(b.ow), Signed::part(2, 1));
    let one = Signed::part(1, 1);
    Pane {
        x0: down(crate::held::minus(h.0.0, one).larger(pad.negated())) as i64,
        y0: down(crate::held::minus(h.0.1, one).larger(pad.negated())) as i64,
        x1: up(crate::held::plus(h.1.0, one).smaller(crate::held::plus(b.bw, pad))) as i64,
        y1: up(crate::held::plus(h.1.1, one).smaller(crate::held::plus(b.bh, pad))) as i64,
    }
}

/// The part of the block's plane that a box of pixels shows (see [`window`]).
pub fn window_of(b: &Block, a: &Angle, p: &Pane) -> (r: Pane)
    requires
        b.wf(),
        a.wf(),
        0 <= p.x0,
        0 <= p.y0,
        0 <= p.x1,
        0 <= p.y1,
    ensures
        r == window(*b, *a, *p),
        -FAR <= r.x0 <= FAR,
        -FAR <= r.y0 <= FAR,
        -FAR <= r.x1 <= FAR,
        -FAR <= r.y1 <= FAR,
{
    let x0 = whole(p.x0 as u64);
    let y0 = whole(p.y0 as u64);
    let x1 = whole(p.x1 as u64);
    let y1 = whole(p.y1 as u64);
    let h = hull_of(
        to_block_of(b, a, x0, y0),
        to_block_of(b, a, x1, y0),
        to_block_of(b, a, x1, y1),
        to_block_of(b, a, x0, y1),
    );
    let pad = add_to(raised_of(b.ow), Signed::of(2, 1));
    let one = Signed::of(1, 1);
    let back = pad.negate();
    Pane {
        x0: down_of(take_from(h.0.0, one).max(back)),
        y0: down_of(take_from(h.0.1, one).max(back)),
        x1: up_of(add_to(h.1.0, one).min(add_to(b.bw, pad))),
        y1: up_of(add_to(h.1.1, one).min(add_to(b.bh, pad))),
    }
}

/// How far the letters cover the cells of a window.
pub struct Ink {
    pub x0: i64,
    pub y0: i64,
    pub w: usize,
    pub h: usize,
    pub d: Vec<u8>,
}

/// The length of a window's side.
pub open spec fn side(lo: int, hi: int) -> int {
    crate::signed::max_of(hi - lo, 0)
}

/// How far a share of a cell covers it, as a byte.
pub open spec fn inked(c: Signed) -> u8 {
    crate::stroke::first_cell(
        crate::held::plus(
            crate::held::times(
                c.clamped(Signed::part(0, 1), Signed::part(1, 1)),
                Signed::part(255, 1),
            ),
            Signed::part(1, 2),
        ),
        256,
    ) as u8
}

impl Ink {
    /// Every cell is there, and the window lies where numbers reach.
    pub open spec fn wf(&self) -> bool {
        &&& self.d@.len() == self.w * self.h
        &&& -FAR <= self.x0 <= FAR
        &&& -FAR <= self.y0 <= FAR
    }

    /// The cell lies in the window.
    pub open spec fn has(&self, x: int, y: int) -> bool {
        0 <= x - self.x0 < self.w && 0 <= y - self.y0 < self.h
    }

    /// The place of a cell in the list.
    pub open spec fn slot(&self, x: int, y: int) -> int {
        (y - self.y0) * self.w + (x - self.x0)
    }

    /// A window without letters.
    pub fn new(p: &Pane) -> (k: Ink)
        requires
            -FAR <= p.x0 <= FAR,
            -FAR <= p.y0 <= FAR,
            -FAR <= p.x1 <= FAR,
            -FAR <= p.y1 <= FAR,
            side(p.x0 as int, p.x1 as int) <= usize::MAX,
            side(p.y0 as int, p.y1 as int) <= usize::MAX,
            side(p.x0 as int, p.x1 as int) * side(p.y0 as int, p.y1 as int) <= usize::MAX,
        ensures
            k.wf(),
            k.x0 == p.x0,
            k.y0 == p.y0,
            k.w == side(p.x0 as int, p.x1 as int),
            k.h == side(p.y0 as int, p.y1 as int),
            forall|i: int| 0 <= i < k.d@.len() ==> #[trigger] k.d@[i] == 0,
    {
        let w: usize = if p.x1 > p.x0 {
            (p.x1 - p.x0) as usize
        } else {
            0
        };
        let h: usize = if p.y1 > p.y0 {
            (p.y1 - p.y0) as usize
        } else {
            0
        };
        proof {
            assert(0 <= w * h) by (nonlinear_arith);
        }
        let n: usize = w * h;
        let mut d: Vec<u8> = Vec::new();
        while d.len() < n
            invariant
                d@.len() <= n,
                forall|i: int| 0 <= i < d@.len() ==> #[trigger] d@[i] == 0,
            decreases n - d@.len(),
        {
            d.push(0);
        }
        Ink { x0: p.x0, y0: p.y0, w, h, d }
    }

    /// Lets a letter cover a share of a cell; a cell keeps the most that covers it.
    pub fn put(&mut self, x: i32, y: i32, c: Signed)
        requires
            old(self).wf(),
            crate::held::fits(c),
        ensures
            final(self).wf(),
            final(self).x0 == old(self).x0,
            final(self).y0 == old(self).y0,
            final(self).w == old(self).w,
            final(self).h == old(self).h,
            !old(self).has(x as int, y as int) ==> final(self).d@ == old(self).d@,
            old(self).has(x as int, y as int) ==> {
                let i = old(self).slot(x as int, y as int);
                &&& 0 <= i < old(self).d@.len()
                &&& final(self).d@ == old(self).d@.update(
                    i,
                    if old(self).d@[i] < inked(c) {
                        inked(c)
                    } else {
                        old(self).d@[i]
                    },
                )
            },
    {
        let n: usize = self.d.len();
        let px: i64 = x as i64 - self.x0;
        let py: i64 = y as i64 - self.y0;
        if px < 0 || py < 0 || px as u64 >= self.w as u64 || py as u64 >= self.h as u64 {
            return;
        }
        let cx: usize = px as usize;
        let cy: usize = py as usize;
        proof {
            crate::grid::lemma_cell_bound(cx as int, cy as int, self.w as int, self.h as int);
            assert(0 <= cy * self.w) by (nonlinear_arith);
        }
        let i: usize = cy * self.w + cx;
        let v = add_to(
            scale_by(c.clamp(Signed::zero(), Signed::of(1, 1)), Signed::of(255, 1)),
            Signed::of(1, 2),
        );
        let b: u8 = first_cell_of(v, 256) as u8;
        if self.d[i] < b {
            self.d.set(i, b);
        } else {
            proof {
                assert(self.d@ =~= old(self).d@.update(i as int, old(self).d@[i as int]));
            }
        }
    }
}

/// How far a cell is covered, as a share; nothing lies off the window.
pub open spec fn ink_at(k: Ink, x: int, y: int) -> Signed {
    if k.has(x, y) {
        crate::held::over(Signed::part(k.d@[k.slot(x, y)] as int, 1), Signed::part(255, 1))
    } else {
        Signed::part(0, 1)
    }
}

fn ink_of(k: &Ink, x: i64, y: i64) -> (r: Signed)
    requires
        k.wf(),
        -2 * FAR <= x <= 4 * FAR,
        -2 * FAR <= y <= 4 * FAR,
    ensures
        r == ink_at(*k, x as int, y as int),
        crate::held::fits(r),
{
    let n: usize = k.d.len();
    let px: i64 = x - k.x0;
    let py: i64 = y - k.y0;
    if px < 0 || py < 0 || px as u64 >= k.w as u64 || py as u64 >= k.h as u64 {
        return Signed::of(0, 1);
    }
    let cx: usize = px as usize;
    let cy: usize = py as usize;
    proof {
        crate::grid::lemma_cell_bound(cx as int, cy as int, k.w as int, k.h as int);
        assert(0 <= cy * k.w) by (nonlinear_arith);
    }
    divide_by(whole(k.d[cy * k.w + cx] as u64), Signed::of(255, 1))
}

/// The cell that a place lies in, from the window's corner, and how far into the next one it reaches.
pub open spec fn foot(v: Signed, lo: int) -> (int, Signed) {
    let f = crate::held::minus(crate::held::minus(v, Signed::integer(lo)), Signed::part(1, 2));
    (lo + down(f), crate::held::minus(f, Signed::integer(down(f))))
}

/// How far a place is covered: between the four cells round it.
pub open spec fn shade(k: Ink, x: Signed, y: Signed) -> Signed {
    if k.w == 0 || k.h == 0 {
        Signed::part(0, 1)
    } else {
        let p = foot(x, k.x0 as int);
        let q = foot(y, k.y0 as int);
        crate::sample::four(
            ink_at(k, p.0, q.0),
            ink_at(k, p.0 + 1, q.0),
            ink_at(k, p.0, q.0 + 1),
            ink_at(k, p.0 + 1, q.0 + 1),
            p.1,
            q.1,
        )
    }
}

fn foot_of(v: Signed, lo: i64) -> (r: (i64, Signed))
    requires
        crate::held::fits(v),
        -FAR <= lo <= FAR,
    ensures
        (r.0 as int, r.1) == foot(v, lo as int),
        -2 * FAR <= r.0 <= 2 * FAR,
        crate::held::fits(r.1),
{
    let f = take_from(take_from(v, integer_of(lo)), Signed::of(1, 2));
    let n: i64 = down_of(f);
    (lo + n, take_from(f, integer_of(n)))
}

fn shade_of(k: &Ink, x: Signed, y: Signed) -> (r: Signed)
    requires
        k.wf(),
        crate::held::fits(x),
        crate::held::fits(y),
    ensures
        r == shade(*k, x, y),
        crate::held::fits(r),
{
    if k.w == 0 || k.h == 0 {
        return Signed::of(0, 1);
    }
    let p = foot_of(x, k.x0);
    let q = foot_of(y, k.y0);
    let top = mix(ink_of(k, p.0, q.0), ink_of(k, p.0 + 1, q.0), p.1);
    let bot = mix(ink_of(k, p.0, q.0 + 1), ink_of(k, p.0 + 1, q.0 + 1), p.1);
    mix(top, bot, q.1)
}

/// The eight ways in which an outline leaves a letter.
pub open spec fn way(i: int) -> Point {
    let o = Signed::part(0, 1);
    let l = Signed::part(1, 1);
    let d = Signed::part(7, 10);
    if i == 0 {
        (l.negated(), o)
    } else if i == 1 {
        (l, o)
    } else if i == 2 {
        (o, l.negated())
    } else if i == 3 {
        (o, l)
    } else if i == 4 {
        (d.negated(), d.negated())
    } else if i == 5 {
        (d, d.negated())
    } else if i == 6 {
        (d.negated(), d)
    } else {
        (d, d)
    }
}

fn way_of(i: usize) -> (p: Point)
    ensures
        p == way(i as int),
        crate::held::fits(p.0),
        crate::held::fits(p.1),
{
    let o = Signed::of(0, 1);
    let l = Signed::of(1, 1);
    let d = Signed::of(7, 10);
    if i == 0 {
        (l.negate(), o)
    } else if i == 1 {
        (l, o)
    } else if i == 2 {
        (o, l.negate())
    } else if i == 3 {
        (o, l)
    } else if i == 4 {
        (d.negate(), d.negate())
    } else if i == 5 {
        (d, d.negate())
    } else if i == 6 {
        (d.negate(), d)
    } else {
        (d, d)
    }
}

/// How far the outline covers a place: the most that letters cover one an outline's width away, from the
/// ways `i` on; no further way is tried once it is covered.
pub open spec fn rim(k: Ink, p: Point, ow: Signed, i: int, a: Signed) -> Signed
    decreases 8 - i,
{
    if i >= 8 || !a.lies_below(Signed::part(1, 1)) {
        a
    } else {
        rim(
            k,
            p,
            ow,
            i + 1,
            a.larger(
                shade(
                    k,
                    crate::held::minus(p.0, crate::held::times(way(i).0, ow)),
                    crate::held::minus(p.1, crate::held::times(way(i).1, ow)),
                ),
            ),
        )
    }
}

fn rim_of(k: &Ink, p: Point, ow: Signed) -> (r: Signed)
    requires
        k.wf(),
        crate::held::fits(p.0),
        crate::held::fits(p.1),
        crate::held::fits(ow),
    ensures
        r == rim(*k, p, ow, 0, Signed::part(0, 1)),
        crate::held::fits(r),
{
    let one = Signed::of(1, 1);
    let mut a = Signed::of(0, 1);
    let mut i: usize = 0;
    while i < 8
        invariant
            i <= 8,
            k.wf(),
            crate::held::fits(p.0),
            crate::held::fits(p.1),
            crate::held::fits(ow),
            one == Signed::part(1, 1),
            one.size.wf(),
            crate::held::fits(a),
            rim(*k, p, ow, 0, Signed::part(0, 1)) == rim(*k, p, ow, i as int, a),
        decreases 8 - i,
    {
        if !a.less(one) {
            return a;
        }
        let w = way_of(i);
        a = a.max(shade_of(k, take_from(p.0, scale_by(w.0, ow)), take_from(p.1, scale_by(w.1, ow))));
        i += 1;
    }
    a
}

/// A colour in numbers.
pub type Hue = (Signed, Signed, Signed);

/// A colour with another one laid over it, as opaque as so much from 0 to 1.
pub open spec fn over_hue(d: Hue, c: (u8, u8, u8), a: Signed) -> Hue {
    let k = a.clamped(Signed::part(0, 1), Signed::part(1, 1));
    (
        crate::held::mixed(d.0, Signed::part(c.0 as int, 1), k),
        crate::held::mixed(d.1, Signed::part(c.1 as int, 1), k),
        crate::held::mixed(d.2, Signed::part(c.2 as int, 1), k),
    )
}

/// The numbers of a colour lie in the range.
pub open spec fn is_hue(d: Hue) -> bool {
    crate::held::fits(d.0) && crate::held::fits(d.1) && crate::held::fits(d.2)
}

fn lay_over(d: Hue, c: (u8, u8, u8), a: Signed) -> (r: Hue)
    requires
        is_hue(d),
        crate::held::fits(a),
    ensures
        r == over_hue(d, c, a),
        is_hue(r),
{
    let k = a.clamp(Signed::zero(), Signed::of(1, 1));
    (
        mix(d.0, whole(c.0 as u64), k),
        mix(d.1, whole(c.1 as u64), k),
        mix(d.2, whole(c.2 as u64), k),
    )
}

/// How far the box behind a text covers a place.
pub open spec fn boxed_at(b: Block, p: Point) -> Signed {
    let inside = crate::held::plus(p.0, b.pad).smaller(
        crate::held::minus(crate::held::plus(b.bw, b.pad), p.0),
    ).smaller(crate::held::plus(p.1, b.pad)).smaller(
        crate::held::minus(crate::held::plus(b.bh, b.pad), p.1),
    );
    crate::held::plus(inside, Signed::part(1, 2)).clamped(Signed::part(0, 1), Signed::part(1, 1))
}

fn box_of(b: &Block, p: Point) -> (r: Signed)
    requires
        b.wf(),
        crate::held::fits(p.0),
        crate::held::fits(p.1),
    ensures
        r == boxed_at(*b, p),
        crate::held::fits(r),
{
    let inside = add_to(p.0, b.pad).min(take_from(add_to(b.bw, b.pad), p.0)).min(
        add_to(p.1, b.pad),
    ).min(take_from(add_to(b.bh, b.pad), p.1));
    add_to(inside, Signed::of(1, 2)).clamp(Signed::zero(), Signed::of(1, 1))
}

/// The place is near enough to the letters for their outline to reach it.
pub open spec fn is_near(b: Block, p: Point) -> bool {
    let slack = crate::held::plus(b.ow, Signed::part(3, 2));
    &&& slack.negated().lies_below(p.0)
    &&& slack.negated().lies_below(p.1)
    &&& p.0.lies_below(crate::held::plus(b.bw, slack))
    &&& p.1.lies_below(crate::held::plus(b.bh, slack))
}

fn near_of(b: &Block, p: Point) -> (r: bool)
    requires
        b.wf(),
        crate::held::fits(p.0),
        crate::held::fits(p.1),
    ensures
        r == is_near(*b, p),
{
    let slack = add_to(b.ow, Signed::of(3, 2));
    let back = slack.negate();
    back.less(p.0) && back.less(p.1) && p.0.less(add_to(b.bw, slack)) && p.1.less(
        add_to(b.bh, slack),
    )
}

/// A colour once something of an opacity was laid over it, if anything was.
pub open spec fn veiled(d: Hue, c: (u8, u8, u8, u8), a: Signed, on: bool) -> (Hue, bool) {
    if on && !crate::held::is_no_gain(a) && c.3 > 0 {
        (
            over_hue(
                d,
                (c.0, c.1, c.2),
                crate::held::over(
                    crate::held::times(a, Signed::part(c.3 as int, 1)),
                    Signed::part(255, 1),
                ),
            ),
            true,
        )
    } else {
        (d, false)
    }
}

fn veil(d: Hue, c: (u8, u8, u8, u8), a: Signed, on: bool) -> (r: (Hue, bool))
    requires
        is_hue(d),
        crate::held::fits(a),
    ensures
        r == veiled(d, c, a, on),
        is_hue(r.0),
{
    if on && !no_gain(a) && c.3 > 0 {
        let k = divide_by(scale_by(a, whole(c.3 as u64)), Signed::of(255, 1));
        (lay_over(d, (c.0, c.1, c.2), k), true)
    } else {
        (d, false)
    }
}

/// What a text makes of a colour at a place of its block: the box behind it, then the outline, then the
/// letters; as it was where none of them is.
pub open spec fn written(
    c: (u8, u8, u8),
    b: Block,
    k: Ink,
    s: TextStyle,
    p: Point,
) -> (u8, u8, u8) {
    let d = (Signed::part(c.0 as int, 1), Signed::part(c.1 as int, 1), Signed::part(c.2 as int, 1));
    let cov = boxed_at(b, p);
    let boxed = !crate::held::is_no_gain(b.pad) && !crate::held::is_no_gain(cov);
    let d1 = if boxed {
        over_hue(d, (0, 0, 0), crate::held::times(cov, Signed::part(4, 10)))
    } else {
        d
    };
    let near = is_near(b, p);
    let outlined = near && Signed::part(5, 100).lies_below(b.ow) && s.edge.3 > 0;
    let v2 = veiled(d1, s.edge, rim(k, p, b.ow, 0, Signed::part(0, 1)), outlined);
    let v3 = veiled(v2.0, s.fill, shade(k, p.0, p.1), near);
    if boxed || v2.1 || v3.1 {
        (
            crate::stroke::first_cell(v3.0.0, 256) as u8,
            crate::stroke::first_cell(v3.0.1, 256) as u8,
            crate::stroke::first_cell(v3.0.2, 256) as u8,
        )
    } else {
        c
    }
}

fn write_of(c: (u8, u8, u8), b: &Block, k: &Ink, s: &TextStyle, p: Point) -> (r: (u8, u8, u8))
    requires
        b.wf(),
        k.wf(),
        crate::held::fits(p.0),
        crate::held::fits(p.1),
    ensures
        r == written(c, *b, *k, *s, p),
{
    let mut d: Hue = (whole(c.0 as u64), whole(c.1 as u64), whole(c.2 as u64));
    let cov = box_of(b, p);
    let boxed: bool = !no_gain(b.pad) && !no_gain(cov);
    if boxed {
        d = lay_over(d, (0, 0, 0), scale_by(cov, Signed::of(4, 10)));
    }
    let near: bool = near_of(b, p);
    let outlined: bool = near && Signed::of(5, 100).less(b.ow) && s.edge.3 > 0;
    let v2 = if outlined {
        veil(d, s.edge, rim_of(k, p, b.ow), true)
    } else {
        (d, false)
    };
    let v3 = if near {
        veil(v2.0, s.fill, shade_of(k, p.0, p.1), true)
    } else {
        (v2.0, false)
    };
    if boxed || v2.1 || v3.1 {
        (
            first_cell_of(v3.0.0, 256) as u8,
            first_cell_of(v3.0.1, 256) as u8,
            first_cell_of(v3.0.2, 256) as u8,
        )
    } else {
        c
    }
}

/// A pixel of a photo once a text was written on it.
pub open spec fn lettered(
    p: crate::raster::Picture,
    b: Block,
    a: Angle,
    q: Pane,
    k: Ink,
    s: TextStyle,
    j: int,
) -> (u8, u8, u8) {
    let x = j % p.w;
    let y = j / p.w;
    let c = crate::wipe::triple(p.d, j);
    if q.x0 <= x < q.x1 && q.y0 <= y < q.y1 {
        written(
            c,
            b,
            k,
            s,
            to_block(
                b,
                a,
                crate::held::plus(Signed::part(x, 1), Signed::part(1, 2)),
                crate::held::plus(Signed::part(y, 1), Signed::part(1, 2)),
            ),
        )
    } else {
        c
    }
}

/// Writes a text on the pixels of a box of a photo (see [`lettered`]).
pub fn draw_text(img: &mut Raster, b: &Block, a: &Angle, q: &Pane, k: &Ink, s: &TextStyle)
    requires
        old(img)@.wf(),
        old(img).w <= crate::spread::longest(),
        old(img).h <= crate::spread::longest(),
        b.wf(),
        a.wf(),
        k.wf(),
    ensures
        final(img)@.wf(),
        final(img)@.w == old(img)@.w,
        final(img)@.h == old(img)@.h,
        forall|j: int|
            0 <= j < old(img)@.w * old(img)@.h ==> #[trigger] crate::wipe::triple(final(img)@.d, j)
                == lettered(old(img)@, *b, *a, *q, *k, *s, j),
{
    let ghost before = img@;
    let bytes: usize = img.d.len();
    proof {
        assert(0 <= before.w * before.h <= bytes) by (nonlinear_arith)
            requires
                bytes == before.w * before.h * 3,
                before.w >= 0,
                before.h >= 0,
        ;
    }
    let n: usize = img.w * img.h;
    let half = Signed::of(1, 2);
    let mut j: usize = 0;
    while j < n
        invariant
            j <= n == before.w * before.h,
            before.wf(),
            before.w <= crate::spread::longest(),
            before.h <= crate::spread::longest(),
            img@.w == before.w,
            img@.h == before.h,
            img.d@.len() == bytes == before.d.len() == n * 3,
            half == Signed::part(1, 2),
            crate::held::fits(half),
            b.wf(),
            a.wf(),
            k.wf(),
            forall|i: int| j * 3 <= i < bytes ==> #[trigger] img.d@[i] == before.d[i],
            forall|i: int|
                0 <= i < j ==> #[trigger] crate::wipe::triple(img@.d, i) == lettered(
                    before,
                    *b,
                    *a,
                    *q,
                    *k,
                    *s,
                    i,
                ),
        decreases n - j,
    {
        proof {
            assert(before.w > 0) by (nonlinear_arith)
                requires
                    before.w * before.h > 0,
                    before.w >= 0,
            ;
            crate::grid::lemma_cell_split(j as int, before.w, before.h);
            assert(j * 3 + 3 <= bytes);
        }
        let x: i64 = (j % img.w) as i64;
        let y: i64 = (j / img.w) as i64;
        let ghost mid = img@.d;
        if q.x0 <= x && x < q.x1 && q.y0 <= y && y < q.y1 {
            let c = (img.d[j * 3], img.d[j * 3 + 1], img.d[j * 3 + 2]);
            let p = to_block_of(
                b,
                a,
                add_to(whole(x as u64), half),
                add_to(whole(y as u64), half),
            );
            let t = write_of(c, b, k, s, p);
            img.d.set(j * 3, t.0);
            img.d.set(j * 3 + 1, t.1);
            img.d.set(j * 3 + 2, t.2);
        }
        proof {
            assert forall|i: int| 0 <= i < j implies #[trigger] crate::wipe::triple(img@.d, i)
                == crate::wipe::triple(mid, i) by {}
            assert(crate::wipe::triple(mid, j as int) == crate::wipe::triple(before.d, j as int));
            assert(crate::wipe::triple(img@.d, j as int) == lettered(
                before,
                *b,
                *a,
                *q,
                *k,
                *s,
                j as int,
            ));
        }
        j += 1;
    }
}

} // verus!
