//! Tone curves: natural cubic splines through a few points.

use vstd::prelude::*;

use crate::grade::{Grade, CURVE_STEPS};
use crate::held::{add_to, divide_by, scale_by, take_from, whole};
use crate::signed::Signed;
use crate::stroke::Point;

verus! {

/// Of the first `k` points, those that lie far enough behind the one before them.
pub open spec fn spaced(pts: Seq<Point>, k: int) -> Seq<Point>
    decreases k,
{
    if k <= 0 {
        Seq::empty()
    } else {
        let s = spaced(pts, k - 1);
        if s.len() == 0 || Signed::part(1, 100000).lies_below(crate::held::minus(pts[k - 1].0, s.last().0)) {
            s.push(pts[k - 1])
        } else {
            s
        }
    }
}

/// The share of the way from point `i - 1` to point `i + 1` that leads to point `i`.
pub open spec fn split(p: Seq<Point>, i: int) -> Signed {
    crate::held::over(
        crate::held::minus(p[i].0, p[i - 1].0),
        crate::held::minus(p[i + 1].0, p[i - 1].0),
    )
}

/// How steep the way from point `i` to the next one is.
pub open spec fn slope(p: Seq<Point>, i: int) -> Signed {
    crate::held::over(
        crate::held::minus(p[i + 1].1, p[i].1),
        crate::held::minus(p[i + 1].0, p[i].0),
    )
}

/// What the bend at point `i` takes from the bend at the next point, and what it has of its own.
pub open spec fn tie(p: Seq<Point>, i: int) -> (Signed, Signed)
    decreases i,
{
    if i <= 0 {
        (Signed::part(0, 1), Signed::part(0, 1))
    } else {
        let before = tie(p, i - 1);
        let sig = split(p, i);
        let q = crate::held::plus(crate::held::times(sig, before.0), Signed::part(2, 1));
        let d = crate::held::minus(slope(p, i), slope(p, i - 1));
        let own = crate::held::over(
            crate::held::times(Signed::part(6, 1), d),
            crate::held::minus(p[i + 1].0, p[i - 1].0),
        );
        (
            crate::held::over(crate::held::minus(sig, Signed::part(1, 1)), q),
            crate::held::over(crate::held::minus(own, crate::held::times(sig, before.1)), q),
        )
    }
}

/// How strongly the curve bends at point `k`: not at all at its ends.
pub open spec fn bend(p: Seq<Point>, k: int) -> Signed
    decreases p.len() - k,
{
    if p.len() < 3 || k >= p.len() - 1 {
        Signed::part(0, 1)
    } else {
        let t = tie(p, k);
        crate::held::plus(crate::held::times(t.0, bend(p, k + 1)), t.1)
    }
}

/// The point that ends the stretch of the curve that `x` lies on, from point `i` on.
pub open spec fn end_from(p: Seq<Point>, x: Signed, i: int) -> int
    decreases p.len() - i,
{
    if i < p.len() - 1 && p[i].0.lies_below(x) {
        end_from(p, x, i + 1)
    } else {
        i
    }
}

/// What a share of a stretch adds to its bend.
pub open spec fn cubic(a: Signed) -> Signed {
    crate::held::minus(crate::held::times(crate::held::times(a, a), a), a)
}

/// The height of the curve at `x`, on the stretch that ends at point `hi`.
pub open spec fn height(p: Seq<Point>, x: Signed, hi: int) -> Signed {
    let lo = hi - 1;
    let h = crate::held::minus(p[hi].0, p[lo].0);
    let a = crate::held::over(crate::held::minus(p[hi].0, x), h);
    let b = crate::held::over(crate::held::minus(x, p[lo].0), h);
    let line = crate::held::plus(crate::held::times(a, p[lo].1), crate::held::times(b, p[hi].1));
    let bow = crate::held::plus(
        crate::held::times(cubic(a), bend(p, lo)),
        crate::held::times(cubic(b), bend(p, hi)),
    );
    crate::held::plus(
        line,
        crate::held::over(crate::held::times(crate::held::times(bow, h), h), Signed::part(6, 1)),
    )
}

/// The height of the curve at `x`. A curve through no point is the diagonal, one through a single
/// point is level.
pub open spec fn curve_at(p: Seq<Point>, x: Signed) -> Signed {
    if p.len() == 0 {
        x
    } else if p.len() == 1 {
        p[0].1
    } else {
        height(p, x, end_from(p, x, 1))
    }
}

/// A curve through points.
pub struct Spline {
    pts: Vec<Point>,
    bends: Vec<Signed>,
}

impl Spline {
    /// The points, and how strongly the curve bends at each.
    pub closed spec fn wf(&self) -> bool {
        &&& self.bends@.len() == self.pts@.len()
        &&& forall|i: int| 0 <= i < self.pts@.len() ==> crate::stroke::is_spot(#[trigger] self.pts@[i])
        &&& forall|i: int| 0 <= i < self.bends@.len() ==> crate::held::fits(#[trigger] self.bends@[i])
        &&& forall|i: int|
            0 <= i < self.bends@.len() ==> #[trigger] self.bends@[i] == bend(self.pts@, i)
    }

    /// The points that the curve runs through.
    pub closed spec fn points(&self) -> Seq<Point> {
        self.pts@
    }

    /// The curve through points that come from left to right; one that lies too close behind another
    /// is left out.
    pub fn new(pts: &Vec<Point>) -> (s: Spline)
        requires
            forall|i: int| 0 <= i < pts@.len() ==> crate::stroke::is_spot(#[trigger] pts@[i]),
        ensures
            s.wf(),
            s.points() == spaced(pts@, pts@.len() as int),
    {
        let p = space(pts);
        let bends = bends_of(&p);
        Spline { pts: p, bends }
    }

    /// The height of the curve at `x` (see [`curve_at`]).
    pub fn eval(&self, x: Signed) -> (y: Signed)
        requires
            self.wf(),
            crate::held::fits(x),
        ensures
            y == curve_at(self.points(), x),
            crate::held::fits(y),
    {
        let n: usize = self.pts.len();
        if n == 0 {
            return x;
        }
        if n == 1 {
            return self.pts[0].1;
        }
        let mut hi: usize = 1;
        while hi < n - 1 && self.pts[hi].0.less(x)
            invariant
                self.wf(),
                crate::held::fits(x),
                1 <= hi < n == self.pts@.len(),
                end_from(self.pts@, x, 1) == end_from(self.pts@, x, hi as int),
            decreases n - hi,
        {
            hi += 1;
        }
        let a = self.pts[hi - 1];
        let b = self.pts[hi];
        let h = take_from(b.0, a.0);
        let s = divide_by(take_from(b.0, x), h);
        let t = divide_by(take_from(x, a.0), h);
        let line = add_to(scale_by(s, a.1), scale_by(t, b.1));
        let bow = add_to(
            scale_by(cubic_of(s), self.bends[hi - 1]),
            scale_by(cubic_of(t), self.bends[hi]),
        );
        add_to(line, divide_by(scale_by(scale_by(bow, h), h), Signed::of(6, 1)))
    }
}

fn cubic_of(a: Signed) -> (r: Signed)
    requires
        crate::held::fits(a),
    ensures
        r == cubic(a),
        crate::held::fits(r),
{
    take_from(scale_by(scale_by(a, a), a), a)
}

fn space(pts: &Vec<Point>) -> (s: Vec<Point>)
    requires
        forall|i: int| 0 <= i < pts@.len() ==> crate::stroke::is_spot(#[trigger] pts@[i]),
    ensures
        s@ == spaced(pts@, pts@.len() as int),
        forall|i: int| 0 <= i < s@.len() ==> crate::stroke::is_spot(#[trigger] s@[i]),
{
    let n: usize = pts.len();
    let gap = Signed::of(1, 100000);
    let mut s: Vec<Point> = Vec::new();
    let mut k: usize = 0;
    while k < n
        invariant
            k <= n == pts@.len(),
            gap == Signed::part(1, 100000),
            gap.size.wf(),
            forall|i: int| 0 <= i < pts@.len() ==> crate::stroke::is_spot(#[trigger] pts@[i]),
            s@ == spaced(pts@, k as int),
            forall|i: int| 0 <= i < s@.len() ==> crate::stroke::is_spot(#[trigger] s@[i]),
        decreases n - k,
    {
        let p = pts[k];
        let m: usize = s.len();
        if m == 0 || gap.less(take_from(p.0, s[m - 1].0)) {
            s.push(p);
        }
        k += 1;
    }
    s
}

fn slope_of(p: &Vec<Point>, i: usize) -> (r: Signed)
    requires
        i + 1 < p@.len(),
        forall|i: int| 0 <= i < p@.len() ==> crate::stroke::is_spot(#[trigger] p@[i]),
    ensures
        r == slope(p@, i as int),
        crate::held::fits(r),
{
    let n: usize = p.len();
    assert(i + 1 < n);
    let a = p[i];
    let b = p[i + 1];
    divide_by(take_from(b.1, a.1), take_from(b.0, a.0))
}

fn tie_next(p: &Vec<Point>, i: usize, before: (Signed, Signed)) -> (t: (Signed, Signed))
    requires
        1 <= i,
        i + 1 < p@.len(),
        forall|i: int| 0 <= i < p@.len() ==> crate::stroke::is_spot(#[trigger] p@[i]),
        before == tie(p@, i - 1),
        crate::held::fits(before.0),
        crate::held::fits(before.1),
    ensures
        t == tie(p@, i as int),
        crate::held::fits(t.0),
        crate::held::fits(t.1),
{
    let n: usize = p.len();
    assert(i + 1 < n);
    let a = p[i - 1];
    let b = p[i];
    let c = p[i + 1];
    let all = take_from(c.0, a.0);
    let sig = divide_by(take_from(b.0, a.0), all);
    let q = add_to(scale_by(sig, before.0), Signed::of(2, 1));
    let d = take_from(slope_of(p, i), slope_of(p, i - 1));
    let own = divide_by(scale_by(Signed::of(6, 1), d), all);
    (
        divide_by(take_from(sig, Signed::of(1, 1)), q),
        divide_by(take_from(own, scale_by(sig, before.1)), q),
    )
}

fn bends_of(p: &Vec<Point>) -> (v: Vec<Signed>)
    requires
        forall|i: int| 0 <= i < p@.len() ==> crate::stroke::is_spot(#[trigger] p@[i]),
    ensures
        v@.len() == p@.len(),
        forall|i: int| 0 <= i < v@.len() ==> crate::held::fits(#[trigger] v@[i]),
        forall|i: int| 0 <= i < v@.len() ==> #[trigger] v@[i] == bend(p@, i),
{
    let n: usize = p.len();
    let zero = Signed::zero();
    let mut v: Vec<Signed> = vec![zero; n];
    if n < 3 {
        return v;
    }
    let mut ties: Vec<(Signed, Signed)> = Vec::new();
    ties.push((zero, zero));
    let mut i: usize = 1;
    while i < n - 1
        invariant
            3 <= n == p@.len(),
            1 <= i <= n - 1,
            ties@.len() == i,
            forall|i: int| 0 <= i < p@.len() ==> crate::stroke::is_spot(#[trigger] p@[i]),
            forall|j: int| 0 <= j < i ==> #[trigger] ties@[j] == tie(p@, j),
            forall|j: int|
                0 <= j < i ==> crate::held::fits((#[trigger] ties@[j]).0) && crate::held::fits(
                    ties@[j].1,
                ),
        decreases n - i,
    {
        let t = tie_next(p, i, ties[i - 1]);
        ties.push(t);
        i += 1;
    }
    let mut k: usize = n - 1;
    while k > 0
        invariant
            3 <= n == p@.len(),
            k <= n - 1,
            v@.len() == n,
            ties@.len() == n - 1,
            forall|j: int| 0 <= j < n - 1 ==> #[trigger] ties@[j] == tie(p@, j),
            forall|j: int|
                0 <= j < n - 1 ==> crate::held::fits((#[trigger] ties@[j]).0) && crate::held::fits(
                    ties@[j].1,
                ),
            forall|j: int| 0 <= j < n ==> crate::held::fits(#[trigger] v@[j]),
            forall|j: int| k <= j < n ==> #[trigger] v@[j] == bend(p@, j),
        decreases k,
    {
        k -= 1;
        let t = ties[k];
        let b = add_to(scale_by(t.0, v[k + 1]), t.1);
        v.set(k, b);
    }
    v
}

/// A setting as a part of 100, `num / den` times over.
pub open spec fn lift(n: int, num: int, den: int) -> Signed {
    crate::held::times(
        crate::held::over(Signed::integer(n), Signed::part(100, 1)),
        Signed::part(num, den),
    )
}

fn lift_of(n: i32, num: u64, den: u64) -> (r: Signed)
    requires
        crate::grade::is_setting(n),
        den > 0,
    ensures
        r == lift(n as int, num as int, den as int),
        crate::held::fits(r),
{
    let v = if n < 0 {
        whole((-n) as u64).negate()
    } else {
        whole(n as u64)
    };
    scale_by(divide_by(v, Signed::of(100, 1)), Signed::of(num, den))
}

/// Where the curve begins: deeper blacks begin later, lifted blacks begin higher.
pub open spec fn dark_end(blacks: int) -> Seq<Point> {
    if blacks < 0 {
        seq![(Signed::part(0, 1), Signed::part(0, 1)), (lift(-blacks, 12, 100), Signed::part(0, 1))]
    } else {
        seq![(Signed::part(0, 1), lift(blacks, 15, 100))]
    }
}

/// Where the shadows of the curve lie, if they are moved.
pub open spec fn shade(shadows: int) -> Seq<Point> {
    if shadows != 0 {
        seq![
            (
                Signed::part(1, 4),
                crate::held::plus(Signed::part(1, 4), lift(shadows, 15, 100)).clamped(
                    Signed::part(0, 1),
                    Signed::part(1, 1),
                ),
            ),
        ]
    } else {
        Seq::empty()
    }
}

/// Where the curve ends: brighter whites end earlier, dimmed whites end lower.
pub open spec fn bright_end(whites: int) -> Seq<Point> {
    if whites > 0 {
        seq![
            (crate::held::minus(Signed::part(1, 1), lift(whites, 15, 100)), Signed::part(1, 1)),
            (Signed::part(1, 1), Signed::part(1, 1)),
        ]
    } else {
        seq![(Signed::part(1, 1), crate::held::plus(Signed::part(1, 1), lift(whites, 15, 100)))]
    }
}

/// The points that settings give for the tone curve.
pub open spec fn curve_through(g: Grade) -> Seq<Point> {
    dark_end(g.blacks as int) + shade(g.shadows as int) + bright_end(g.whites as int)
}

/// The points that settings give for the tone curve (see [`curve_through`]), each setting moved into
/// its range first.
pub fn curve_points(g: &Grade) -> (pts: Vec<Point>)
    ensures
        pts@ == curve_through(g.kept()),
        forall|i: int| 0 <= i < pts@.len() ==> crate::stroke::is_spot(#[trigger] pts@[i]),
{
    let g = g.clamped();
    let zero = Signed::zero();
    let one = Signed::of(1, 1);
    let quarter = Signed::of(1, 4);
    let mut pts: Vec<Point> = Vec::new();
    if g.blacks < 0 {
        pts.push((zero, zero));
        pts.push((lift_of(-g.blacks, 12, 100), zero));
    } else {
        pts.push((zero, lift_of(g.blacks, 15, 100)));
    }
    assert(pts@ =~= dark_end(g.blacks as int));
    if g.shadows != 0 {
        pts.push((quarter, add_to(quarter, lift_of(g.shadows, 15, 100)).clamp(zero, one)));
    }
    assert(pts@ =~= dark_end(g.blacks as int) + shade(g.shadows as int));
    if g.whites > 0 {
        pts.push((take_from(one, lift_of(g.whites, 15, 100)), one));
        pts.push((one, one));
    } else {
        pts.push((one, add_to(one, lift_of(g.whites, 15, 100))));
    }
    assert(pts@ =~= curve_through(g));
    pts
}

/// A tone, kept from 0 to 1; one that is hardly more than nothing is nothing.
pub open spec fn tone(v: Signed) -> Signed {
    let u = v.clamped(Signed::part(0, 1), Signed::part(1, 1));
    if u.size.e < -200 {
        Signed::part(0, 1)
    } else {
        u
    }
}

/// How the tone curve of settings maps `i / 1024`.
pub open spec fn tone_at(g: Grade, i: int) -> Signed {
    let pts = curve_through(g);
    tone(
        curve_at(
            spaced(pts, pts.len() as int),
            crate::held::over(Signed::part(i, 1), Signed::part(CURVE_STEPS as int, 1)),
        ),
    )
}

/// The tone curve of settings, step by step (see [`tone_at`]), each setting moved into its range
/// first.
pub fn tone_curve(g: &Grade) -> (v: Vec<Signed>)
    ensures
        v@.len() == CURVE_STEPS + 1,
        forall|i: int| 0 <= i < v@.len() ==> #[trigger] v@[i] == tone_at(g.kept(), i),
        forall|i: int| 0 <= i < v@.len() ==> (#[trigger] v@[i]).wf(),
{
    let s = Spline::new(&curve_points(g));
    let zero = Signed::zero();
    let one = Signed::of(1, 1);
    let all = whole(CURVE_STEPS as u64);
    let mut v: Vec<Signed> = Vec::new();
    let mut i: usize = 0;
    while i <= CURVE_STEPS
        invariant
            i <= CURVE_STEPS + 1,
            s.wf(),
            s.points() == spaced(curve_through(g.kept()), curve_through(g.kept()).len() as int),
            zero == Signed::part(0, 1),
            zero.wf(),
            zero.size.m == 0,
            one == Signed::part(1, 1),
            one.within(100),
            all == Signed::part(CURVE_STEPS as int, 1),
            crate::held::fits(all),
            v@.len() == i,
            forall|j: int| 0 <= j < i ==> #[trigger] v@[j] == tone_at(g.kept(), j),
            forall|j: int| 0 <= j < i ==> (#[trigger] v@[j]).wf(),
        decreases CURVE_STEPS + 1 - i,
    {
        let u = s.eval(divide_by(whole(i as u64), all)).clamp(zero, one);
        proof {
            crate::single::lemma_one();
            crate::mask::lemma_upto(u, 1);
        }
        if u.size.e < -200 {
            v.push(zero);
        } else {
            v.push(u);
        }
        i += 1;
    }
    v
}

/// Points come from left to right.
pub open spec fn goes_right(p: Seq<Point>) -> bool {
    forall|i: int, j: int| 0 <= i < j < p.len() ==> (#[trigger] p[i]).0.lies_below((#[trigger] p[j]).0)
}

proof fn lemma_end_reaches(p: Seq<Point>, k: int, i: int)
    requires
        goes_right(p),
        1 <= i <= k < p.len(),
    ensures
        end_from(p, p[k].0, i) == k,
    decreases k - i,
{
    if i < k {
        assert(p[i].0.lies_below(p[k].0));
        lemma_end_reaches(p, k, i + 1);
    }
}

/// The points, the ways between them and the bends at them are numbers of the range.
pub open spec fn is_sound(p: Seq<Point>) -> bool {
    &&& forall|i: int| 0 <= i < p.len() ==> crate::stroke::is_spot(#[trigger] p[i])
    &&& forall|i: int| 0 <= i < p.len() ==> crate::held::fits(#[trigger] bend(p, i))
    &&& forall|i: int|
        0 <= i < p.len() - 1 ==> crate::held::fits(
            crate::held::minus((#[trigger] p[i + 1]).0, p[i].0),
        )
}

/// A curve passes through its points.
pub proof fn law_curve_passes(p: Seq<Point>, k: int)
    requires
        0 <= k < p.len(),
        is_sound(p),
        goes_right(p),
        forall|i: int|
            0 <= i < p.len() - 1 ==> Signed::part(1, 100000).lies_below(
                crate::held::minus((#[trigger] p[i + 1]).0, p[i].0),
            ),
    ensures
        curve_at(p, p[k].0) == p[k].1,
{
    if p.len() > 1 {
        let zero = Signed::part(0, 1);
        let one = Signed::part(1, 1);
        let x = p[k].0;
        let hi = if k == 0 {
            1
        } else {
            k
        };
        if k == 0 {
            assert(p[0].0.lies_below(p[1].0));
            assert(!p[1].0.lies_below(p[0].0));
        } else {
            lemma_end_reaches(p, k, 1);
        }
        let lo = hi - 1;
        let h = crate::held::minus(p[hi].0, p[lo].0);
        assert(h == crate::held::minus(p[lo + 1].0, p[lo].0));
        crate::held::law_of_units(x);
        crate::held::law_of_units(h);
        crate::held::law_of_units(p[lo].1);
        crate::held::law_of_units(p[hi].1);
        crate::held::law_of_units(bend(p, lo));
        crate::held::law_of_units(bend(p, hi));
        crate::single::law_nearest_unique(0, 1, crate::single::nought());
        crate::single::lemma_one();
        crate::held::law_of_units(zero);
        crate::held::law_of_units(one);
        crate::single::lemma_small_nearest(6);
        crate::held::law_of_units(Signed::part(6, 1));
        assert(cubic(zero) == zero);
        assert(cubic(one) == zero);
    }
}

} // verus!
