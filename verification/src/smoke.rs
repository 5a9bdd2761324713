//! Settings for taking smoke out of a photo, and the shapes that say where.

use vstd::prelude::*;

use crate::signed::Signed;
use crate::single::{ratio, Single};

verus! {

/// Most shapes that a photo can have.
pub const MAX_SHAPES: usize = 32;

/// Most colours that can be protected.
pub const MAX_PROTECT: usize = 6;

/// Most colours that can be marked as clouds.
pub const MAX_CLOUD: usize = 6;

/// Softness of an object's edge at first, in percent.
pub const OBJECT_FEATHER: i32 = 15;

/// A colour.
pub type Rgb = [u8; 3];

/// A box by two of its corners, as parts of the photo's sides.
#[derive(Clone, Copy, PartialEq, Eq, Structural, Debug)]
pub struct Region {
    pub x0: Signed,
    pub y0: Signed,
    pub x1: Signed,
    pub y1: Signed,
}

/// The smaller of two numbers.
pub open spec fn lower(a: Signed, b: Signed) -> Signed {
    if b.lies_below(a) {
        b
    } else {
        a
    }
}

/// The larger of two numbers.
pub open spec fn upper(a: Signed, b: Signed) -> Signed {
    if a.lies_below(b) {
        b
    } else {
        a
    }
}

impl Region {
    pub open spec fn wf(self) -> bool {
        self.x0.wf() && self.y0.wf() && self.x1.wf() && self.y1.wf()
    }

    /// The same box by its upper left and lower right corners, as far as it lies on the photo.
    pub open spec fn upright(self) -> Region {
        Region {
            x0: lower(self.x0, self.x1).kept_in_unit(),
            y0: lower(self.y0, self.y1).kept_in_unit(),
            x1: upper(self.x0, self.x1).kept_in_unit(),
            y1: upper(self.y0, self.y1).kept_in_unit(),
        }
    }

    /// Both sides are longer than a hundredth of the photo's.
    pub open spec fn usable(self) -> bool {
        &&& self.x0.lies_below(self.x1)
        &&& crate::single::below(crate::single::nearest(1, 100), self.x1.distance(self.x0))
        &&& self.y0.lies_below(self.y1)
        &&& crate::single::below(crate::single::nearest(1, 100), self.y1.distance(self.y0))
    }

    /// The same box by its upper left and lower right corners, as far as it lies on the photo.
    pub fn normalized(self) -> (r: Region)
        requires
            self.wf(),
        ensures
            r == self.upright(),
            r.wf(),
    {
        let flip_x = self.x1.less(self.x0);
        let flip_y = self.y1.less(self.y0);
        proof {
            crate::signed::law_order_is_total(self.x0, self.x1);
            crate::signed::law_order_is_total(self.y0, self.y1);
        }
        let (x0, x1) = if flip_x {
            (self.x1, self.x0)
        } else {
            (self.x0, self.x1)
        };
        let (y0, y1) = if flip_y {
            (self.y1, self.y0)
        } else {
            (self.y0, self.y1)
        };
        Region {
            x0: x0.into_unit(),
            y0: y0.into_unit(),
            x1: x1.into_unit(),
            y1: y1.into_unit(),
        }
    }

    /// Is the box large enough to be meant?
    pub fn is_usable(&self) -> (b: bool)
        requires
            self.wf(),
        ensures
            b == self.usable(),
    {
        let least = ratio(1, 100);
        self.x0.less(self.x1) && least.less(self.x1.gap(self.x0)) && self.y0.less(self.y1)
            && least.less(self.y1.gap(self.y0))
    }
}

/// However a box was drawn, it comes out the same.
pub proof fn law_drag_direction_does_not_matter(r: Region)
    requires
        r.wf(),
    ensures
        r.upright() == (Region { x0: r.x1, x1: r.x0, ..r }).upright(),
        r.upright() == (Region { y0: r.y1, y1: r.y0, ..r }).upright(),
{
    crate::signed::law_order_is_total(r.x0, r.x1);
    crate::signed::law_order_is_total(r.y0, r.y1);
}

/// A line that an effect fades along.
#[derive(Clone, Copy, PartialEq, Eq, Structural, Debug)]
pub struct Linear {
    pub x0: Signed,
    pub y0: Signed,
    pub x1: Signed,
    pub y1: Signed,
}

impl Linear {
    pub open spec fn wf(self) -> bool {
        self.x0.wf() && self.y0.wf() && self.x1.wf() && self.y1.wf()
    }

    /// The square of the line's length.
    pub open spec fn square(self) -> Single {
        let dx = self.x1.distance(self.x0);
        let dy = self.y1.distance(self.y0);
        crate::single::total(crate::single::product(dx, dx), crate::single::product(dy, dy))
    }

    /// The line is longer than a hundredth of the photo's sides.
    pub open spec fn usable(self) -> bool {
        crate::single::below(crate::single::nearest(1, 10000), self.square())
    }

    /// Is the line long enough to be meant?
    pub fn is_usable(&self) -> (b: bool)
        requires
            self.wf(),
        ensures
            b == self.usable(),
    {
        let dx = self.x1.gap(self.x0);
        let dy = self.y1.gap(self.y0);
        let least = ratio(1, 10000);
        least.less(dx.times(dx).plus(dy.times(dy)))
    }
}

/// An ellipse by its centre and half its width and height.
#[derive(Clone, Copy, PartialEq, Eq, Structural, Debug)]
pub struct Radial {
    pub cx: Signed,
    pub cy: Signed,
    pub rx: Signed,
    pub ry: Signed,
    pub invert: bool,
}

/// The number lies above `num / den`.
pub open spec fn above(s: Signed, num: int, den: int) -> bool {
    !s.neg && crate::single::below(crate::single::nearest(num, den), s.size)
}

/// Does the number lie above `num / den`?
pub fn exceeds(s: Signed, num: u64, den: u64) -> (b: bool)
    requires
        s.wf(),
        den > 0,
    ensures
        b == above(s, num as int, den as int),
{
    !s.neg && ratio(num, den).less(s.size)
}

impl Radial {
    pub open spec fn wf(self) -> bool {
        self.cx.wf() && self.cy.wf() && self.rx.wf() && self.ry.wf()
    }

    /// The ellipse is wider and higher than a hundredth of the photo.
    pub open spec fn usable(self) -> bool {
        above(self.rx, 5, 1000) && above(self.ry, 5, 1000)
    }

    /// Is the ellipse large enough to be meant?
    pub fn is_usable(&self) -> (b: bool)
        requires
            self.wf(),
        ensures
            b == self.usable(),
    {
        exceeds(self.rx, 5, 1000) && exceeds(self.ry, 5, 1000)
    }
}

/// A brush stroke: the points it goes through, and half its width.
#[derive(Clone, Debug)]
pub struct Brush {
    pub pts: Vec<(Signed, Signed)>,
    pub radius: Signed,
}

impl Brush {
    pub open spec fn wf(self) -> bool {
        self.radius.wf()
    }

    /// The stroke goes somewhere and has a width.
    pub open spec fn usable(self) -> bool {
        self.pts@.len() > 0 && above(self.radius, 2, 1000)
    }

    /// Is the stroke large enough to be meant?
    pub fn is_usable(&self) -> (b: bool)
        requires
            self.wf(),
        ensures
            b == self.usable(),
    {
        self.pts.len() > 0 && exceeds(self.radius, 2, 1000)
    }
}

/// An object: how strongly each cell of a grid over `area` belongs to it.
#[derive(Clone, Debug)]
pub struct Object {
    /// The object as it was found.
    pub raw: Vec<u8>,
    /// The object with its edge moved and softened.
    pub mask: Vec<u8>,
    pub w: usize,
    pub h: usize,
    pub area: Region,
    /// How soft the edge is, in percent.
    pub feather: i32,
    /// How far the edge is moved, from -100 to 100.
    pub edge: i32,
}

/// The sum of bytes.
pub open spec fn byte_sum(s: Seq<u8>) -> int
    decreases s.len(),
{
    if s.len() == 0 {
        0
    } else {
        byte_sum(s.drop_last()) + s.last()
    }
}

impl Object {
    /// There are few enough cells to add them up.
    pub open spec fn wf(self) -> bool {
        self.mask@.len() <= 0x80_0000_0000_0000
    }

    /// The part of the grid that belongs to the object.
    pub open spec fn cover(self) -> Single {
        if self.mask@.len() == 0 {
            crate::single::nought()
        } else {
            crate::single::quotient(
                crate::single::nearest(byte_sum(self.mask@), 1),
                crate::single::product(
                    crate::single::nearest(self.mask@.len() as int, 1),
                    crate::single::nearest(255, 1),
                ),
            )
        }
    }

    /// The grid is no strip, and more than 15 parts in ten thousand of it belong to the object.
    pub open spec fn usable(self) -> bool {
        self.w >= 4 && self.h >= 4 && crate::single::below(
            crate::single::nearest(15, 10000),
            self.cover(),
        )
    }

    /// The part of the grid that belongs to the object.
    pub fn coverage(&self) -> (s: Single)
        requires
            self.wf(),
        ensures
            s == self.cover(),
            s.wf(),
    {
        let n: usize = self.mask.len();
        if n == 0 {
            return Single { m: 0, e: 0 };
        }
        let mut sum: u64 = 0;
        let mut i: usize = 0;
        assert(self.mask@.subrange(0, 0) =~= Seq::<u8>::empty());
        while i < n
            invariant
                i <= n == self.mask@.len(),
                n <= 0x80_0000_0000_0000,
                sum == byte_sum(self.mask@.subrange(0, i as int)),
                sum <= 255 * i,
            decreases n - i,
        {
            proof {
                let t = self.mask@.subrange(0, i + 1);
                assert(t.drop_last() =~= self.mask@.subrange(0, i as int));
            }
            sum = sum + self.mask[i] as u64;
            i += 1;
        }
        assert(self.mask@.subrange(0, n as int) =~= self.mask@);
        Single::of(sum).over(Single::of(n as u64).times(Single::of(255)))
    }

    /// Is the object large enough to be meant?
    pub fn is_usable(&self) -> (b: bool)
        requires
            self.wf(),
        ensures
            b == self.usable(),
    {
        self.w >= 4 && self.h >= 4 && ratio(15, 10000).less(self.coverage())
    }

    /// The settings that the object is to be worked out for anew, each kept in its range; none where
    /// it has them already.
    pub fn new_edge(&self, feather: i32, edge: i32) -> (r: Option<(i32, i32)>)
        ensures
            ({
                let f = crate::scale::within(feather as int, 0, 100);
                let e = crate::scale::within(edge as int, -100, 100);
                match r {
                    None => f == self.feather && e == self.edge,
                    Some(fe) => fe.0 == f && fe.1 == e && (f != self.feather || e != self.edge),
                }
            }),
    {
        let f: i32 = clamp(feather, 0, 100);
        let e: i32 = clamp(edge, -100, 100);
        if f == self.feather && e == self.edge {
            None
        } else {
            Some((f, e))
        }
    }
}

/// `v`, or the nearest end of `lo..=hi` where it lies outside.
pub fn clamp(v: i32, lo: i32, hi: i32) -> (r: i32)
    requires
        lo <= hi,
    ensures
        r == crate::scale::within(v as int, lo as int, hi as int),
{
    if v < lo {
        lo
    } else if v > hi {
        hi
    } else {
        v
    }
}

/// A shape that says where an effect is.
#[derive(Clone, Debug)]
pub enum Shape {
    Rect(Region),
    Linear(Linear),
    Radial(Radial),
    Brush(Brush),
    Object(Object),
}

impl Shape {
    pub open spec fn wf(self) -> bool {
        match self {
            Shape::Rect(r) => r.wf(),
            Shape::Linear(l) => l.wf(),
            Shape::Radial(r) => r.wf(),
            Shape::Brush(b) => b.wf(),
            Shape::Object(o) => o.wf(),
        }
    }

    /// The shape as it is used, if it is large enough to be meant.
    pub open spec fn clean(self) -> Option<Shape> {
        match self {
            Shape::Rect(r) => if r.upright().usable() {
                Some(Shape::Rect(r.upright()))
            } else {
                None
            },
            Shape::Linear(l) => if l.usable() {
                Some(self)
            } else {
                None
            },
            Shape::Radial(r) => if r.usable() {
                Some(self)
            } else {
                None
            },
            Shape::Brush(b) => if b.usable() {
                Some(self)
            } else {
                None
            },
            Shape::Object(o) => if o.usable() {
                Some(self)
            } else {
                None
            },
        }
    }

    /// Is the shape large enough to be meant?
    pub fn counts(&self) -> (b: bool)
        requires
            self.wf(),
        ensures
            b == (self.clean() is Some),
    {
        match self {
            Shape::Rect(r) => r.normalized().is_usable(),
            Shape::Linear(l) => l.is_usable(),
            Shape::Radial(r) => r.is_usable(),
            Shape::Brush(b) => b.is_usable(),
            Shape::Object(o) => o.is_usable(),
        }
    }

    /// The shape as it is used, if it is large enough to be meant.
    pub fn cleaned(self) -> (r: Option<Shape>)
        requires
            self.wf(),
        ensures
            r == self.clean(),
            r matches Some(s) ==> s.wf(),
    {
        if !self.counts() {
            return None;
        }
        match self {
            Shape::Rect(r) => Some(Shape::Rect(r.normalized())),
            s => Some(s),
        }
    }
}

/// Cleaning a box a second time changes nothing.
pub proof fn law_clean_is_stable(r: Region)
    requires
        r.wf(),
        r.upright().usable(),
    ensures
        r.upright().upright() == r.upright(),
{
    let u = r.upright();
    crate::signed::law_order_is_total(u.x0, u.x1);
    crate::signed::law_order_is_total(u.y0, u.y1);
}

/// The shapes that are large enough to be meant, as they are used.
pub open spec fn cleaned_all(s: Seq<Shape>) -> Seq<Shape>
    decreases s.len(),
{
    if s.len() == 0 {
        Seq::empty()
    } else {
        match s.last().clean() {
            Some(c) => cleaned_all(s.drop_last()).push(c),
            None => cleaned_all(s.drop_last()),
        }
    }
}

/// The first [`MAX_SHAPES`] shapes that are large enough to be meant, as they are used.
pub open spec fn used_shapes(s: Seq<Shape>) -> Seq<Shape> {
    let c = cleaned_all(s);
    if c.len() <= MAX_SHAPES {
        c
    } else {
        c.subrange(0, MAX_SHAPES as int)
    }
}

/// The first [`MAX_SHAPES`] shapes that are large enough to be meant, as they are used.
pub fn clean_shapes(shapes: Vec<Shape>) -> (out: Vec<Shape>)
    requires
        forall|i: int| 0 <= i < shapes@.len() ==> (#[trigger] shapes@[i]).wf(),
    ensures
        out@ == used_shapes(shapes@),
{
    let ghost all = shapes@;
    let mut shapes = shapes;
    let mut rest: Vec<Shape> = Vec::new();
    while shapes.len() > 0
        invariant
            shapes@ + rest@.reverse() =~= all,
        decreases shapes@.len(),
    {
        let ghost tail = rest@;
        if let Some(s) = shapes.pop() {
            rest.push(s);
            assert(rest@.reverse() =~= seq![s] + tail.reverse());
        }
    }
    let mut out: Vec<Shape> = Vec::new();
    let ghost mut done: int = 0;
    assert(rest@.reverse() =~= all);
    assert(all.subrange(0, 0) =~= Seq::<Shape>::empty());
    while rest.len() > 0
        invariant
            0 <= done <= all.len(),
            rest@.len() == all.len() - done,
            forall|k: int| 0 <= k < rest@.len() ==> #[trigger] rest@[k] == all[all.len() - 1 - k],
            forall|i: int| 0 <= i < all.len() ==> (#[trigger] all[i]).wf(),
            out@ == used_shapes(all.subrange(0, done)),
        decreases rest@.len(),
    {
        proof {
            assert(all.subrange(0, done + 1).drop_last() =~= all.subrange(0, done));
            assert(all.subrange(0, done + 1).last() == all[done]);
            assert(rest@[rest@.len() - 1] == all[done]);
        }
        let ghost part = cleaned_all(all.subrange(0, done));
        if let Some(s) = rest.pop() {
            if let Some(c) = s.cleaned() {
                if out.len() < MAX_SHAPES {
                    out.push(c);
                } else {
                    assert(part.push(c).subrange(0, MAX_SHAPES as int) =~= part.subrange(
                        0,
                        MAX_SHAPES as int,
                    ));
                }
            }
        }
        proof {
            done = done + 1;
        }
    }
    assert(all.subrange(0, all.len() as int) =~= all);
    out
}

/// Places for up to six colours.
pub type Colors = [Option<Rgb>; 6];

/// Two colours are the same.
pub open spec fn same_color(a: Rgb, b: Rgb) -> bool {
    a[0] == b[0] && a[1] == b[1] && a[2] == b[2]
}

/// The colour has a place.
pub open spec fn has_color(v: Colors, c: Rgb) -> bool {
    exists|i: int| 0 <= i < 6 && holds_color(v, c, i)
}

/// The colour is in place `i`.
pub open spec fn holds_color(v: Colors, c: Rgb, i: int) -> bool {
    v@[i] is Some && same_color(v@[i]->0, c)
}

/// The colours of places `0..n`, in the order of their places.
pub open spec fn colors_before(v: Colors, n: int) -> Seq<Rgb>
    decreases n,
{
    if n <= 0 {
        Seq::empty()
    } else {
        match v@[n - 1] {
            Some(c) => colors_before(v, n - 1).push(c),
            None => colors_before(v, n - 1),
        }
    }
}

/// The colours that have a place, in the order in which they were added.
pub open spec fn colors_of(v: Colors) -> Seq<Rgb> {
    colors_before(v, 6)
}

/// The colours of all places but place `i`, in their order.
pub open spec fn colors_without(v: Colors, i: int) -> Seq<Rgb> {
    if v@[i] is Some {
        colors_of(v).remove(colors_before(v, i).len() as int)
    } else {
        colors_of(v)
    }
}

/// The colours of the first places depend on these alone.
proof fn lemma_colors_agree(a: Colors, b: Colors, n: int)
    requires
        0 <= n <= 6,
        forall|k: int| 0 <= k < n ==> #[trigger] a@[k] == b@[k],
    ensures
        colors_before(a, n) == colors_before(b, n),
    decreases n,
{
    if n > 0 {
        lemma_colors_agree(a, b, n - 1);
        assert(a@[n - 1] == b@[n - 1]);
    }
}

/// Places from `n` on that are free list nothing.
proof fn lemma_colors_end(v: Colors, n: int, m: int)
    requires
        0 <= n <= m <= 6,
        forall|k: int| n <= k < m ==> #[trigger] v@[k] is None,
    ensures
        colors_before(v, m) == colors_before(v, n),
    decreases m,
{
    if m > n {
        assert(v@[m - 1] is None);
        lemma_colors_end(v, n, m - 1);
    }
}

/// Where place `i` becomes free, the rest keeps its order.
proof fn lemma_colors_drop(a: Colors, b: Colors, i: int, n: int)
    requires
        0 <= i < n <= 6,
        b@ == a@.update(i, None),
    ensures
        colors_before(a, i).len() <= colors_before(b, n).len(),
        a@[i] is Some ==> colors_before(a, n).len() == colors_before(b, n).len() + 1,
        colors_before(b, n) == if a@[i] is Some {
            colors_before(a, n).remove(colors_before(a, i).len() as int)
        } else {
            colors_before(a, n)
        },
    decreases n,
{
    let r = colors_before(a, i).len() as int;
    if n == i + 1 {
        lemma_colors_agree(b, a, i);
        if let Some(c) = a@[i] {
            assert(colors_before(a, i).push(c).remove(r) =~= colors_before(a, i));
        }
    } else {
        lemma_colors_drop(a, b, i, n - 1);
        assert(b@[n - 1] == a@[n - 1]);
        if a@[i] is Some {
            if let Some(c) = a@[n - 1] {
                assert(colors_before(a, n - 1).push(c).remove(r) =~= colors_before(
                    a,
                    n - 1,
                ).remove(r).push(c));
            }
        }
    }
}

/// How many of the first `n` places there are up to the last one that is used.
pub open spec fn end_before(v: Colors, n: int) -> int
    decreases n,
{
    if n <= 0 {
        0
    } else if v@[n - 1] is Some {
        n
    } else {
        end_before(v, n - 1)
    }
}

/// The first place behind all that are used, 6 where there is none.
pub open spec fn end_of(v: Colors) -> int {
    end_before(v, 6)
}

/// The places of colours that stand side by side.
pub open spec fn side_by_side(c: Seq<Rgb>) -> Seq<Option<Rgb>> {
    Seq::new(
        6,
        |i: int|
            if i < c.len() {
                Some(c[i])
            } else {
                None
            },
    )
}

/// The places once a colour has been added: it comes behind the others, which keep their places
/// unless the last one is used; then they close up first.
pub open spec fn with_color(v: Colors, c: Rgb) -> Seq<Option<Rgb>> {
    if end_of(v) < 6 {
        v@.update(end_of(v), Some(c))
    } else {
        side_by_side(colors_of(v).push(c))
    }
}

/// The first place behind all that are used (see [`end_of`]).
fn find_end(v: &Colors) -> (n: usize)
    ensures
        n == end_of(*v),
        n <= 6,
        forall|k: int| n <= k < 6 ==> #[trigger] v@[k] is None,
{
    let mut n: usize = 6;
    while n > 0
        invariant
            n <= 6,
            end_of(*v) == end_before(*v, n as int),
            forall|k: int| n <= k < 6 ==> #[trigger] v@[k] is None,
        decreases n,
    {
        if v[n - 1].is_some() {
            return n;
        }
        n -= 1;
    }
    0
}

/// Adds a colour behind the others (see [`with_color`]), unless it has a place or there is none.
fn add_color(v: &mut Colors, c: Rgb) -> (ok: bool)
    ensures
        ok <==> !has_color(*old(v), c) && exists|i: int| 0 <= i < 6 && #[trigger] old(v)@[i] is None,
        !ok ==> *final(v) == *old(v),
        ok ==> final(v)@ == with_color(*old(v), c),
        ok ==> colors_of(*final(v)) == colors_of(*old(v)).push(c),
{
    let ghost before = *v;
    let mut i: usize = 0;
    let mut w: Colors = [None, None, None, None, None, None];
    let mut n: usize = 0;
    while i < 6
        invariant
            n <= i <= 6,
            *v == before,
            before == *old(v),
            forall|k: int| 0 <= k < i ==> !holds_color(before, c, k),
            n == colors_before(before, i as int).len(),
            colors_before(w, n as int) == colors_before(before, i as int),
            forall|k: int|
                0 <= k < n ==> #[trigger] w@[k] == Some(colors_before(before, i as int)[k]),
            forall|k: int| n <= k < 6 ==> #[trigger] w@[k] is None,
            n == i ==> forall|k: int| 0 <= k < i ==> #[trigger] before@[k] is Some,
            n < i ==> exists|k: int| 0 <= k < 6 && #[trigger] before@[k] is None,
        decreases 6 - i,
    {
        if let Some(d) = v[i] {
            if d[0] == c[0] && d[1] == c[1] && d[2] == c[2] {
                assert(holds_color(before, c, i as int));
                return false;
            }
            let ghost u = w;
            w[n] = Some(d);
            proof {
                assert(w@ =~= u@.update(n as int, Some(d)));
                lemma_colors_agree(u, w, n as int);
            }
            n += 1;
        } else {
            assert(before@[i as int] is None);
        }
        i += 1;
    }
    if n == 6 {
        return false;
    }
    let end: usize = find_end(v);
    if end < 6 {
        assert(before@[end as int] is None);
        v[end] = Some(c);
        proof {
            assert(v@ =~= before@.update(end as int, Some(c)));
            lemma_colors_agree(before, *v, end as int);
            lemma_colors_end(before, end as int, 6);
            lemma_colors_end(*v, end + 1, 6);
            assert(colors_before(*v, end + 1) == colors_before(*v, end as int).push(c));
        }
        return true;
    }
    let ghost u = w;
    w[n] = Some(c);
    proof {
        assert(w@ =~= u@.update(n as int, Some(c)));
        lemma_colors_agree(u, w, n as int);
        lemma_colors_end(w, n + 1, 6);
        assert(colors_before(w, n + 1) == colors_before(w, n as int).push(c));
        assert(w@ =~= side_by_side(colors_of(before).push(c)));
    }
    *v = w;
    true
}

/// Frees a place, if there is one of that number.
fn remove_color(v: &mut Colors, i: usize)
    ensures
        i < 6 ==> final(v)@ == old(v)@.update(i as int, None),
        i < 6 ==> colors_of(*final(v)) == colors_without(*old(v), i as int),
        i >= 6 ==> *final(v) == *old(v),
{
    if i < 6 {
        let ghost before = *v;
        v[i] = None;
        proof {
            assert(v@ =~= before@.update(i as int, None));
            lemma_colors_drop(before, *v, i as int, 6);
        }
    }
}

/// The colours of places `0..n` with the numbers of their places.
pub open spec fn numbered(v: Colors, n: int) -> Seq<(usize, Rgb)>
    decreases n,
{
    if n <= 0 {
        Seq::empty()
    } else {
        match v@[n - 1] {
            Some(c) => numbered(v, n - 1).push(((n - 1) as usize, c)),
            None => numbered(v, n - 1),
        }
    }
}

proof fn lemma_numbered(v: Colors, n: int)
    requires
        0 <= n <= 6,
    ensures
        numbered(v, n).len() == colors_before(v, n).len() <= n,
        forall|k: int|
            0 <= k < numbered(v, n).len() ==> is_numbered(v, n, #[trigger] numbered(v, n)[k])
                && numbered(v, n)[k].1 == colors_before(v, n)[k],
    decreases n,
{
    if n > 0 {
        lemma_numbered(v, n - 1);
    }
}

/// A colour with the number of its place, which is one of the first `n`.
pub open spec fn is_numbered(v: Colors, n: int, e: (usize, Rgb)) -> bool {
    e.0 < n && v@[e.0 as int] == Some(e.1)
}

/// The numbered list holds the colours in the order in which they were added, each with the number of
/// its place.
pub proof fn law_colors_are_listed_in_order(v: Colors)
    ensures
        numbered(v, 6).len() == colors_of(v).len(),
        forall|k: int|
            0 <= k < numbered(v, 6).len() ==> is_numbered(v, 6, #[trigger] numbered(v, 6)[k])
                && numbered(v, 6)[k].1 == colors_of(v)[k],
{
    lemma_numbered(v, 6);
}

fn list_colors(v: &Colors) -> (out: Vec<(usize, Rgb)>)
    ensures
        out@ == numbered(*v, 6),
        out@.map_values(|e: (usize, Rgb)| e.1) == colors_of(*v),
{
    let mut out: Vec<(usize, Rgb)> = Vec::new();
    let mut i: usize = 0;
    while i < 6
        invariant
            i <= 6,
            out@ == numbered(*v, i as int),
        decreases 6 - i,
    {
        if let Some(c) = v[i] {
            out.push((i, c));
        }
        i += 1;
    }
    proof {
        lemma_numbered(*v, 6);
    }
    assert(out@.map_values(|e: (usize, Rgb)| e.1) =~= colors_of(*v));
    out
}

fn any_color(v: &Colors) -> (b: bool)
    ensures
        b <==> exists|i: int| 0 <= i < 6 && #[trigger] v@[i] is Some,
{
    let mut i: usize = 0;
    while i < 6
        invariant
            i <= 6,
            forall|k: int| 0 <= k < i ==> #[trigger] v@[k] is None,
        decreases 6 - i,
    {
        if v[i].is_some() {
            assert(v@[i as int] is Some);
            return true;
        }
        i += 1;
    }
    false
}

/// How smoke is taken out of a photo. Numbers are percentages.
#[derive(Clone, Debug)]
pub struct SmokeParams {
    pub strength: i32,
    pub detail: i32,
    pub restore_trails: bool,
    pub sky_only: bool,
    pub shapes: Vec<Shape>,
    pub feather: i32,
    pub mask_density: i32,
    pub protect: Colors,
    pub tolerance: i32,
    pub sky_clean: i32,
    pub sky_range: i32,
    pub sky_color: Option<Rgb>,
    pub sky_tint: i32,
    pub cloud: Colors,
    pub cloud_range: i32,
    /// Long edge of the photo that this is a preview of.
    pub preview_of: Option<u32>,
    pub fast: bool,
}

/// The settings of a photo at first.
pub open spec fn is_default(p: SmokeParams) -> bool {
    &&& p.strength == 80
    &&& p.detail == 60
    &&& p.restore_trails
    &&& p.sky_only
    &&& p.shapes@.len() == 0
    &&& p.feather == 25
    &&& p.mask_density == 80
    &&& forall|i: int| 0 <= i < 6 ==> #[trigger] p.protect@[i] is None
    &&& p.tolerance == 30
    &&& p.sky_clean == 0
    &&& p.sky_range == 40
    &&& p.sky_color is None
    &&& p.sky_tint == 60
    &&& forall|i: int| 0 <= i < 6 ==> #[trigger] p.cloud@[i] is None
    &&& p.cloud_range == 35
    &&& p.preview_of is None
    &&& !p.fast
}

impl Default for SmokeParams {
    fn default() -> (p: SmokeParams)
        ensures
            is_default(p),
            colors_of(p.protect).len() == 0,
            colors_of(p.cloud).len() == 0,
    {
        let p = SmokeParams {
            strength: 80,
            detail: 60,
            restore_trails: true,
            sky_only: true,
            shapes: Vec::new(),
            feather: 25,
            mask_density: 80,
            protect: [None, None, None, None, None, None],
            tolerance: 30,
            sky_clean: 0,
            sky_range: 40,
            sky_color: None,
            sky_tint: 60,
            cloud: [None, None, None, None, None, None],
            cloud_range: 35,
            preview_of: None,
            fast: false,
        };
        proof {
            lemma_colors_end(p.protect, 0, 6);
            lemma_colors_end(p.cloud, 0, 6);
        }
        p
    }
}

impl SmokeParams {
    /// All shapes are well formed.
    pub open spec fn wf(self) -> bool {
        forall|i: int| 0 <= i < self.shapes@.len() ==> (#[trigger] self.shapes@[i]).wf()
    }

    /// The sky is to be darkened or tinted.
    pub open spec fn changes_sky(self) -> bool {
        self.sky_clean > 0 || (self.sky_color is Some && self.sky_tint > 0)
    }

    /// The long edge of the photo itself, where `img_long` is that of the picture at hand.
    pub fn source_long(&self, img_long: u32) -> (n: u32)
        ensures
            n == match self.preview_of {
                Some(n) => n,
                None => img_long,
            },
    {
        match self.preview_of {
            Some(n) => n,
            None => img_long,
        }
    }

    /// Long edge at which the smoke is estimated.
    pub fn work_edge(&self) -> (n: u32)
        ensures
            n == if self.fast {
                crate::scale::FAST_WORK_EDGE
            } else {
                crate::scale::WORK_LONG_EDGE
            },
    {
        if self.fast {
            crate::scale::FAST_WORK_EDGE
        } else {
            crate::scale::WORK_LONG_EDGE
        }
    }

    /// Settings in their ranges, with the shapes that are used.
    pub fn clamped(self) -> (p: SmokeParams)
        requires
            self.wf(),
        ensures
            p.strength == crate::scale::within(self.strength as int, 0, 100),
            p.detail == crate::scale::within(self.detail as int, 0, 100),
            p.feather == crate::scale::within(self.feather as int, 0, 100),
            p.tolerance == crate::scale::within(self.tolerance as int, 0, 100),
            p.sky_clean == crate::scale::within(self.sky_clean as int, 0, 100),
            p.sky_range == crate::scale::within(self.sky_range as int, 0, 100),
            p.sky_tint == crate::scale::within(self.sky_tint as int, 0, 100),
            p.cloud_range == crate::scale::within(self.cloud_range as int, 0, 100),
            p.shapes@ == used_shapes(self.shapes@),
            p.restore_trails == self.restore_trails,
            p.sky_only == self.sky_only,
            p.mask_density == self.mask_density,
            p.protect == self.protect,
            p.sky_color == self.sky_color,
            p.cloud == self.cloud,
            p.preview_of == self.preview_of,
            p.fast == self.fast,
    {
        SmokeParams {
            strength: clamp(self.strength, 0, 100),
            detail: clamp(self.detail, 0, 100),
            feather: clamp(self.feather, 0, 100),
            tolerance: clamp(self.tolerance, 0, 100),
            sky_clean: clamp(self.sky_clean, 0, 100),
            sky_range: clamp(self.sky_range, 0, 100),
            sky_tint: clamp(self.sky_tint, 0, 100),
            cloud_range: clamp(self.cloud_range, 0, 100),
            shapes: clean_shapes(self.shapes),
            restore_trails: self.restore_trails,
            sky_only: self.sky_only,
            mask_density: self.mask_density,
            protect: self.protect,
            sky_color: self.sky_color,
            cloud: self.cloud,
            preview_of: self.preview_of,
            fast: self.fast,
        }
    }

    /// Is there a shape that is large enough to be meant?
    pub fn has_shapes(&self) -> (b: bool)
        requires
            self.wf(),
        ensures
            b <==> exists|i: int|
                0 <= i < self.shapes@.len() && (#[trigger] self.shapes@[i]).clean() is Some,
    {
        let mut i: usize = 0;
        while i < self.shapes.len()
            invariant
                i <= self.shapes@.len(),
                self.wf(),
                forall|k: int|
                    0 <= k < i ==> (#[trigger] self.shapes@[k]).clean() is None,
            decreases self.shapes@.len() - i,
        {
            if self.shapes[i].counts() {
                assert(self.shapes@[i as int].clean() is Some);
                return true;
            }
            i += 1;
        }
        false
    }

    /// Adds a shape, unless there are [`MAX_SHAPES`].
    pub fn add_shape(&mut self, s: Shape) -> (ok: bool)
        ensures
            ok <==> old(self).shapes@.len() < MAX_SHAPES,
            final(self).shapes@ == if ok {
                old(self).shapes@.push(s)
            } else {
                old(self).shapes@
            },
            *final(self) == (SmokeParams { shapes: final(self).shapes, ..*old(self) }),
    {
        if self.shapes.len() >= MAX_SHAPES {
            return false;
        }
        self.shapes.push(s);
        true
    }

    /// Takes the last shape away, if there is one.
    pub fn undo_shape(&mut self)
        ensures
            final(self).shapes@ == if old(self).shapes@.len() > 0 {
                old(self).shapes@.drop_last()
            } else {
                old(self).shapes@
            },
            *final(self) == (SmokeParams { shapes: final(self).shapes, ..*old(self) }),
    {
        self.shapes.pop();
    }

    /// Takes all shapes away.
    pub fn clear_shapes(&mut self)
        ensures
            final(self).shapes@.len() == 0,
            *final(self) == (SmokeParams { shapes: final(self).shapes, ..*old(self) }),
    {
        self.shapes.clear();
    }

    /// The last shape, to be changed.
    pub fn last_shape_mut(&mut self) -> (r: Option<&mut Shape>)
        ensures
            match r {
                None => old(self).shapes@.len() == 0 && *final(self) == *old(self),
                Some(s) => {
                    &&& old(self).shapes@.len() > 0
                    &&& *s == old(self).shapes@.last()
                    &&& final(self).shapes@ == old(self).shapes@.update(
                        old(self).shapes@.len() - 1,
                        *final(s),
                    )
                    &&& *final(self) == (SmokeParams { shapes: final(self).shapes, ..*old(self) })
                },
            },
    {
        let n: usize = self.shapes.len();
        if n == 0 {
            return None;
        }
        Some(&mut self.shapes[n - 1])
    }

    /// Nothing is to be done.
    pub fn is_neutral(&self) -> (b: bool)
        ensures
            b == (self.strength <= 0 && !self.changes_sky()),
    {
        self.strength <= 0 && !self.touches_sky()
    }

    /// The sky is to be darkened or tinted.
    pub fn touches_sky(&self) -> (b: bool)
        ensures
            b == self.changes_sky(),
    {
        self.sky_clean > 0 || (self.sky_color.is_some() && self.sky_tint > 0)
    }

    /// The protected colours in the order in which they were added, with the numbers of their
    /// places.
    pub fn protect_colors(&self) -> (v: Vec<(usize, Rgb)>)
        ensures
            v@ == numbered(self.protect, 6),
            v@.map_values(|e: (usize, Rgb)| e.1) == colors_of(self.protect),
    {
        list_colors(&self.protect)
    }

    /// Is a colour protected?
    pub fn has_protect(&self) -> (b: bool)
        ensures
            b <==> exists|i: int| 0 <= i < 6 && #[trigger] self.protect@[i] is Some,
    {
        any_color(&self.protect)
    }

    /// Protects a colour, behind the others, unless it is protected or no place is free.
    pub fn add_protect(&mut self, c: Rgb) -> (ok: bool)
        ensures
            ok <==> !has_color(old(self).protect, c) && exists|i: int|
                0 <= i < 6 && #[trigger] old(self).protect@[i] is None,
            !ok ==> *final(self) == *old(self),
            ok ==> colors_of(final(self).protect) == colors_of(old(self).protect).push(c),
            ok ==> final(self).protect@ == with_color(old(self).protect, c),
            *final(self) == (SmokeParams { protect: final(self).protect, ..*old(self) }),
    {
        add_color(&mut self.protect, c)
    }

    /// Frees the place of a protected colour, if there is one of that number.
    pub fn remove_protect(&mut self, i: usize)
        ensures
            i < 6 ==> final(self).protect@ == old(self).protect@.update(i as int, None),
            i < 6 ==> colors_of(final(self).protect) == colors_without(old(self).protect, i as int),
            i >= 6 ==> *final(self) == *old(self),
            *final(self) == (SmokeParams { protect: final(self).protect, ..*old(self) }),
    {
        remove_color(&mut self.protect, i);
    }

    /// Frees the places of all protected colours.
    pub fn clear_protect(&mut self)
        ensures
            forall|i: int| 0 <= i < 6 ==> #[trigger] final(self).protect@[i] is None,
            colors_of(final(self).protect).len() == 0,
            *final(self) == (SmokeParams { protect: final(self).protect, ..*old(self) }),
    {
        self.protect = [None, None, None, None, None, None];
        proof {
            lemma_colors_end(self.protect, 0, 6);
        }
    }

    /// The colours marked as clouds in the order in which they were added, with the numbers of
    /// their places.
    pub fn cloud_colors(&self) -> (v: Vec<(usize, Rgb)>)
        ensures
            v@ == numbered(self.cloud, 6),
            v@.map_values(|e: (usize, Rgb)| e.1) == colors_of(self.cloud),
    {
        list_colors(&self.cloud)
    }

    /// Is a colour marked as a cloud's?
    pub fn has_cloud(&self) -> (b: bool)
        ensures
            b <==> exists|i: int| 0 <= i < 6 && #[trigger] self.cloud@[i] is Some,
    {
        any_color(&self.cloud)
    }

    /// Marks a colour as a cloud's, behind the others, unless it is marked or no place is free.
    pub fn add_cloud(&mut self, c: Rgb) -> (ok: bool)
        ensures
            ok <==> !has_color(old(self).cloud, c) && exists|i: int|
                0 <= i < 6 && #[trigger] old(self).cloud@[i] is None,
            !ok ==> *final(self) == *old(self),
            ok ==> colors_of(final(self).cloud) == colors_of(old(self).cloud).push(c),
            ok ==> final(self).cloud@ == with_color(old(self).cloud, c),
            *final(self) == (SmokeParams { cloud: final(self).cloud, ..*old(self) }),
    {
        add_color(&mut self.cloud, c)
    }

    /// Frees the place of a cloud's colour, if there is one of that number.
    pub fn remove_cloud(&mut self, i: usize)
        ensures
            i < 6 ==> final(self).cloud@ == old(self).cloud@.update(i as int, None),
            i < 6 ==> colors_of(final(self).cloud) == colors_without(old(self).cloud, i as int),
            i >= 6 ==> *final(self) == *old(self),
            *final(self) == (SmokeParams { cloud: final(self).cloud, ..*old(self) }),
    {
        remove_color(&mut self.cloud, i);
    }

    /// Frees the places of all clouds' colours.
    pub fn clear_cloud(&mut self)
        ensures
            forall|i: int| 0 <= i < 6 ==> #[trigger] final(self).cloud@[i] is None,
            colors_of(final(self).cloud).len() == 0,
            *final(self) == (SmokeParams { cloud: final(self).cloud, ..*old(self) }),
    {
        self.cloud = [None, None, None, None, None, None];
        proof {
            lemma_colors_end(self.cloud, 0, 6);
        }
    }
}

/// Settings that are found from the photo itself.
#[derive(Clone, Copy, PartialEq, Eq, Structural, Debug)]
pub struct AutoParams {
    pub strength: i32,
    pub detail: i32,
    pub sky_clean: i32,
    pub sky_range: i32,
}

impl AutoParams {
    /// Puts the settings in place of those of a photo.
    pub fn apply_to(&self, p: &mut SmokeParams)
        ensures
            *final(p) == (SmokeParams {
                strength: self.strength,
                detail: self.detail,
                sky_clean: self.sky_clean,
                sky_range: self.sky_range,
                ..*old(p)
            }),
    {
        p.strength = self.strength;
        p.detail = self.detail;
        p.sky_clean = self.sky_clean;
        p.sky_range = self.sky_range;
    }

    /// A photo has these settings.
    pub open spec fn are_set(self, p: SmokeParams) -> bool {
        &&& p.strength == self.strength
        &&& p.detail == self.detail
        &&& p.sky_clean == self.sky_clean
        &&& p.sky_range == self.sky_range
    }

    /// Does the photo have these settings?
    pub fn matches(&self, p: &SmokeParams) -> (b: bool)
        ensures
            b == self.are_set(*p),
    {
        p.strength == self.strength && p.detail == self.detail && p.sky_clean == self.sky_clean
            && p.sky_range == self.sky_range
    }
}

/// The settings where the photo tells nothing.
pub open spec fn auto_default() -> AutoParams {
    AutoParams { strength: 80, detail: 60, sky_clean: 20, sky_range: 40 }
}

impl Default for AutoParams {
    fn default() -> (a: AutoParams)
        ensures
            a == auto_default(),
    {
        AutoParams { strength: 80, detail: 60, sky_clean: 20, sky_range: 40 }
    }
}

/// The two settings give smoke that can be mixed.
pub open spec fn same_field(a: SmokeParams, b: SmokeParams) -> bool {
    &&& a.detail == b.detail
    &&& a.sky_only == b.sky_only
    &&& a.fast == b.fast
    &&& a.preview_of == b.preview_of
    &&& a.strength > 0 <==> b.strength > 0
}

/// Do the two settings give smoke that can be mixed?
pub fn same_field_params(a: &SmokeParams, b: &SmokeParams) -> (r: bool)
    ensures
        r == same_field(*a, *b),
{
    let same_of = match (a.preview_of, b.preview_of) {
        (Some(x), Some(y)) => x == y,
        (None, None) => true,
        _ => false,
    };
    a.detail == b.detail && a.sky_only == b.sky_only && a.fast == b.fast && same_of && (a.strength
        > 0) == (b.strength > 0)
}

} // verus!
