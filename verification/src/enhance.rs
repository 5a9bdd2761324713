//! Enhancing photos: what each kind of photo aims at, and which parts of it count.

use vstd::prelude::*;

use crate::blobs::label_blobs;
use crate::order::{sort, Ranked};
use crate::scale::share_of;
use crate::signed::Signed;
use crate::single::{ratio, Single};
use crate::text::same;

verus! {

/// Long edge that a photo is measured at.
pub const WORK_LONG_EDGE: u32 = 640;

/// Long edge that masks are worked out at.
pub const MASK_LONG_EDGE: u32 = 384;

/// Kinds of photos.
#[derive(Clone, Copy, PartialEq, Eq, Structural, Debug)]
pub enum Preset {
    Bird,
    Landscape,
    /// People in a landscape.
    Portrait,
}

impl Preset {
    /// All kinds.
    pub const ALL: [Preset; 3] = [Preset::Bird, Preset::Landscape, Preset::Portrait];

    /// Name of the kind.
    pub open spec fn label_text(self) -> Seq<char> {
        match self {
            Preset::Bird => "鳥類"@,
            Preset::Landscape => "一般風景"@,
            Preset::Portrait => "風景人像"@,
        }
    }

    /// Name of the kind.
    pub fn label(self) -> (s: &'static str)
        ensures
            s@ == self.label_text(),
    {
        match self {
            Preset::Bird => "鳥類",
            Preset::Landscape => "一般風景",
            Preset::Portrait => "風景人像",
        }
    }

    /// What the kind does.
    pub open spec fn hint_text(self) -> Seq<char> {
        match self {
            Preset::Bird => "主體是鳥：背景（天空、散景）壓得乾淨，鳥身提亮、加清晰與銳利，羽毛紋理跳出來"@,
            Preset::Landscape => "整片都是主體：以層次、光影與通透度為主，主體強化只做輕微的重點加強"@,
            Preset::Portrait =>
                "景裡有人：自動找出膚色範圍，臉與皮膚適度柔化、勻膚，清晰度與銳利度跟著調低；\n頭髮、眼睛、衣服與背景不受影響"@,
        }
    }

    /// What the kind does.
    pub fn hint(self) -> (s: &'static str)
        ensures
            s@ == self.hint_text(),
    {
        match self {
            Preset::Bird => "主體是鳥：背景（天空、散景）壓得乾淨，鳥身提亮、加清晰與銳利，羽毛紋理跳出來",
            Preset::Landscape => "整片都是主體：以層次、光影與通透度為主，主體強化只做輕微的重點加強",
            Preset::Portrait =>
                "景裡有人：自動找出膚色範圍，臉與皮膚適度柔化、勻膚，清晰度與銳利度跟著調低；\n頭髮、眼睛、衣服與背景不受影響",
        }
    }

    /// The text that stands for the kind in files.
    pub open spec fn id_text(self) -> Seq<char> {
        match self {
            Preset::Bird => "bird"@,
            Preset::Landscape => "landscape"@,
            Preset::Portrait => "portrait"@,
        }
    }

    /// The text that stands for the kind in files.
    pub fn id(self) -> (s: &'static str)
        ensures
            s@ == self.id_text(),
    {
        match self {
            Preset::Bird => "bird",
            Preset::Landscape => "landscape",
            Preset::Portrait => "portrait",
        }
    }

    /// The kind that a text stands for, if any.
    pub fn from_id(s: &str) -> (p: Option<Preset>)
        ensures
            p matches Some(k) ==> k.id_text() == s@,
            p is None ==> forall|k: Preset| #[trigger] k.id_text() != s@,
    {
        if same(s, "bird") {
            Some(Preset::Bird)
        } else if same(s, "landscape") {
            Some(Preset::Landscape)
        } else if same(s, "portrait") {
            Some(Preset::Portrait)
        } else {
            assert forall|k: Preset| #[trigger] k.id_text() != s@ by {
                match k {
                    Preset::Bird => {},
                    Preset::Landscape => {},
                    Preset::Portrait => {},
                }
            }
            None
        }
    }

    /// How strongly the subject is brought out at first, in percent.
    pub fn default_subject(self) -> (n: i32)
        ensures
            n == match self {
                Preset::Bird => 65int,
                Preset::Landscape => 30,
                Preset::Portrait => 45,
            },
    {
        match self {
            Preset::Bird => 65,
            Preset::Landscape => 30,
            Preset::Portrait => 45,
        }
    }

    /// How strongly skin is smoothed at first, in percent.
    pub fn default_skin(self) -> (n: i32)
        ensures
            n == if self is Portrait {
                55int
            } else {
                0
            },
    {
        match self {
            Preset::Portrait => 55,
            _ => 0,
        }
    }

    /// Part of a photo that its subject is taken to cover, in percent.
    pub open spec fn cover_of(self) -> int {
        match self {
            Preset::Bird => 16,
            Preset::Landscape => 32,
            Preset::Portrait => 26,
        }
    }

    /// Part of a photo that its subject is taken to cover, in percent.
    pub fn cover(self) -> (n: u64)
        ensures
            n == self.cover_of(),
    {
        match self {
            Preset::Bird => 16,
            Preset::Landscape => 32,
            Preset::Portrait => 26,
        }
    }
}

/// No two kinds have the same text, so each is found again by its own.
pub proof fn law_id_round_trip(a: Preset, b: Preset)
    requires
        a.id_text() == b.id_text(),
    ensures
        a == b,
{
    reveal_strlit("bird");
    reveal_strlit("landscape");
    reveal_strlit("portrait");
    assert("bird"@.len() == 4);
    assert("landscape"@.len() == 9);
    assert("portrait"@.len() == 8);
}

/// How strongly the subject is brought out and skin is smoothed, in percent.
#[derive(Clone, Copy, PartialEq, Eq, Structural, Debug)]
pub struct Local {
    pub subject: i32,
    pub skin: i32,
}

impl Local {
    /// Nothing is done.
    pub fn is_none(&self) -> (b: bool)
        ensures
            b == (self.subject <= 0 && self.skin <= 0),
    {
        self.subject <= 0 && self.skin <= 0
    }
}

/// What a kind of photo aims at. Limits are in steps of a setting, everything else in thousandths.
#[derive(Clone, Copy, PartialEq, Eq, Structural, Debug)]
pub struct Targets {
    /// Brightness that the middle of the picture aims at.
    pub mid: u32,
    /// How much of the way there exposure goes, and its limit.
    pub exposure: u32,
    pub exposure_max: u32,
    /// Distance that dark and bright aim at.
    pub spread: u32,
    pub contrast: u32,
    pub contrast_max: u32,
    /// Brightness below which shadows are lifted.
    pub shadow_floor: u32,
    pub shadow: u32,
    pub shadow_max: u32,
    /// How strongly blacks, whites and haze are corrected, and their limits.
    pub black: u32,
    pub black_max: u32,
    pub white: u32,
    pub white_max: u32,
    pub dehaze: u32,
    pub dehaze_max: u32,
    /// Saturation aimed at.
    pub chroma: u32,
    pub vibrance: u32,
    pub vibrance_max: u32,
    pub sat: u32,
    pub sat_max: u32,
    /// Local contrast aimed at.
    pub local: u32,
    pub clarity: u32,
    pub clarity_max: u32,
    /// How strongly a colour cast is taken out, and its limit.
    pub wb: u32,
    pub wb_max: u32,
}

/// What a kind of photo aims at.
pub open spec fn targets(p: Preset) -> Targets {
    match p {
        Preset::Bird => Targets {
            mid: 440,
            exposure: 550,
            exposure_max: 22,
            spread: 720,
            contrast: 300,
            contrast_max: 26,
            shadow_floor: 160,
            shadow: 550,
            shadow_max: 30,
            black: 850,
            black_max: 30,
            white: 850,
            white_max: 32,
            dehaze: 550,
            dehaze_max: 26,
            chroma: 300,
            vibrance: 400,
            vibrance_max: 26,
            sat: 120,
            sat_max: 10,
            local: 55,
            clarity: 350,
            clarity_max: 22,
            wb: 22000,
            wb_max: 12,
        },
        Preset::Landscape => Targets {
            mid: 420,
            exposure: 450,
            exposure_max: 18,
            spread: 760,
            contrast: 320,
            contrast_max: 28,
            shadow_floor: 180,
            shadow: 600,
            shadow_max: 34,
            black: 900,
            black_max: 32,
            white: 900,
            white_max: 34,
            dehaze: 700,
            dehaze_max: 32,
            chroma: 320,
            vibrance: 450,
            vibrance_max: 30,
            sat: 150,
            sat_max: 12,
            local: 60,
            clarity: 450,
            clarity_max: 28,
            wb: 20000,
            wb_max: 10,
        },
        Preset::Portrait => Targets {
            mid: 500,
            exposure: 600,
            exposure_max: 24,
            spread: 680,
            contrast: 200,
            contrast_max: 16,
            shadow_floor: 200,
            shadow: 650,
            shadow_max: 36,
            black: 700,
            black_max: 22,
            white: 700,
            white_max: 24,
            dehaze: 450,
            dehaze_max: 18,
            chroma: 260,
            vibrance: 300,
            vibrance_max: 18,
            sat: 80,
            sat_max: 6,
            local: 42,
            clarity: 400,
            clarity_max: 10,
            wb: 26000,
            wb_max: 12,
        },
    }
}

impl Targets {
    /// What a kind of photo aims at (see [`targets`]).
    pub fn of(p: Preset) -> (t: Targets)
        ensures
            t == targets(p),
    {
        match p {
            Preset::Bird => Targets {
                mid: 440,
                exposure: 550,
                exposure_max: 22,
                spread: 720,
                contrast: 300,
                contrast_max: 26,
                shadow_floor: 160,
                shadow: 550,
                shadow_max: 30,
                black: 850,
                black_max: 30,
                white: 850,
                white_max: 32,
                dehaze: 550,
                dehaze_max: 26,
                chroma: 300,
                vibrance: 400,
                vibrance_max: 26,
                sat: 120,
                sat_max: 10,
                local: 55,
                clarity: 350,
                clarity_max: 22,
                wb: 22000,
                wb_max: 12,
            },
            Preset::Landscape => Targets {
                mid: 420,
                exposure: 450,
                exposure_max: 18,
                spread: 760,
                contrast: 320,
                contrast_max: 28,
                shadow_floor: 180,
                shadow: 600,
                shadow_max: 34,
                black: 900,
                black_max: 32,
                white: 900,
                white_max: 34,
                dehaze: 700,
                dehaze_max: 32,
                chroma: 320,
                vibrance: 450,
                vibrance_max: 30,
                sat: 150,
                sat_max: 12,
                local: 60,
                clarity: 450,
                clarity_max: 28,
                wb: 20000,
                wb_max: 10,
            },
            Preset::Portrait => Targets {
                mid: 500,
                exposure: 600,
                exposure_max: 24,
                spread: 680,
                contrast: 200,
                contrast_max: 16,
                shadow_floor: 200,
                shadow: 650,
                shadow_max: 36,
                black: 700,
                black_max: 22,
                white: 700,
                white_max: 24,
                dehaze: 450,
                dehaze_max: 18,
                chroma: 260,
                vibrance: 300,
                vibrance_max: 18,
                sat: 80,
                sat_max: 6,
                local: 42,
                clarity: 400,
                clarity_max: 10,
                wb: 26000,
                wb_max: 12,
            },
        }
    }
}

/// Portraits are clarified less than landscapes, and have their haze and contrast corrected less.
pub proof fn law_portraits_stay_soft()
    ensures
        targets(Preset::Portrait).clarity_max < targets(Preset::Landscape).clarity_max,
        targets(Preset::Portrait).contrast_max < targets(Preset::Landscape).contrast_max,
        targets(Preset::Portrait).dehaze_max < targets(Preset::Landscape).dehaze_max,
{
}

/// Smaller numbers come first.
impl Signed {
    /// The number does not come after another: by sign, then by size.
    pub open spec fn up_to(self, other: Signed) -> bool {
        if self.neg != other.neg {
            self.neg
        } else if self.neg {
            size_up_to(other.size, self.size)
        } else {
            size_up_to(self.size, other.size)
        }
    }
}

/// A size does not come after another: nothing comes first, then the exponents decide, then the
/// significands.
pub open spec fn size_up_to(a: Single, b: Single) -> bool {
    if (a.m == 0) != (b.m == 0) {
        a.m == 0
    } else if a.e != b.e {
        a.e < b.e
    } else {
        a.m <= b.m
    }
}

fn is_size_up_to(a: Single, b: Single) -> (r: bool)
    ensures
        r == size_up_to(a, b),
{
    if (a.m == 0) != (b.m == 0) {
        a.m == 0
    } else if a.e != b.e {
        a.e < b.e
    } else {
        a.m <= b.m
    }
}

/// Numbers come in order of size: one that does not come after another is not larger.
pub proof fn law_order_is_size(a: Signed, b: Signed)
    requires
        a.size.wf(),
        b.size.wf(),
        a.size.m == 0 ==> !a.neg,
        b.size.m == 0 ==> !b.neg,
    ensures
        a.up_to(b) == !b.lies_below(a),
{
}

impl Ranked for Signed {
    open spec fn ranks(self, other: Signed) -> bool {
        self.up_to(other)
    }

    proof fn ranks_total(a: Signed, b: Signed) {
    }

    proof fn ranks_transitive(a: Signed, b: Signed, c: Signed) {
    }

    fn may_precede(&self, other: &Signed) -> (b: bool) {
        if self.neg != other.neg {
            self.neg
        } else if self.neg {
            is_size_up_to(other.size, self.size)
        } else {
            is_size_up_to(self.size, other.size)
        }
    }
}

/// Numbers in order.
pub open spec fn in_order(s: Seq<Signed>) -> Seq<Signed> {
    choose|t: Seq<Signed>| crate::order::is_sorting(s, t)
}

/// There is but one order of numbers.
pub proof fn law_one_order(s: Seq<Signed>, t: Seq<Signed>)
    requires
        crate::order::is_sorting(s, t),
    ensures
        t == in_order(s),
        t.len() == s.len(),
        forall|i: int| 0 <= i < t.len() ==> s.contains(#[trigger] t[i]),
{
    let u = in_order(s);
    let leq = |a: Signed, b: Signed| a.up_to(b);
    assert(vstd::relations::total_ordering(leq));
    assert(crate::order::is_sorting(s, u));
    assert forall|i: int, j: int| 0 <= i < j < t.len() implies #[trigger] leq(t[i], t[j]) by {
        assert(t[i].ranks(t[j]));
    }
    assert forall|i: int, j: int| 0 <= i < j < u.len() implies #[trigger] leq(u[i], u[j]) by {
        assert(u[i].ranks(u[j]));
    }
    vstd::seq_lib::lemma_sorted_unique(t, u, leq);
    s.to_multiset_ensures();
    t.to_multiset_ensures();
    assert forall|i: int| 0 <= i < t.len() implies s.contains(#[trigger] t[i]) by {
        assert(t.to_multiset().count(t[i]) > 0) by {
            assert(t.contains(t[i]));
        }
    }
}

/// Levels in order.
pub struct Ladder {
    steps: Vec<Signed>,
}

impl Ladder {
    /// The levels, smallest first.
    pub closed spec fn levels(&self) -> Seq<Signed> {
        self.steps@
    }

    /// The levels of a picture in order.
    pub fn new(levels: Vec<Signed>) -> (l: Ladder)
        ensures
            l.levels() == in_order(levels@),
            l.levels().len() == levels@.len(),
            forall|i: int|
                0 <= i < l.levels().len() ==> levels@.contains(#[trigger] l.levels()[i]),
    {
        let ghost given = levels@;
        let steps = sort(levels);
        proof {
            law_one_order(given, steps@);
        }
        Ladder { steps }
    }

    /// The levels of a map in order.
    pub fn of(v: &Vec<Signed>) -> (l: Ladder)
        ensures
            l.levels() == in_order(v@),
            l.levels().len() == v@.len(),
            forall|i: int| 0 <= i < l.levels().len() ==> v@.contains(#[trigger] l.levels()[i]),
    {
        let n: usize = v.len();
        let mut all: Vec<Signed> = Vec::new();
        let mut i: usize = 0;
        while i < n
            invariant
                i <= n == v@.len(),
                all@ == v@.take(i as int),
            decreases n - i,
        {
            all.push(v[i]);
            assert(v@.take(i + 1) =~= v@.take(i as int).push(v@[i as int]));
            i += 1;
        }
        assert(all@ =~= v@);
        Ladder::new(all)
    }

    /// The level that `num / den` of the picture do not pass, at the nearest place.
    pub fn nearest(&self, num: u64, den: u64) -> (v: Signed)
        requires
            0 < self.levels().len() <= u32::MAX,
            0 < num <= den,
        ensures
            v == self.levels()[crate::signed::min_of(
                crate::scale::portion(self.levels().len() - 1, num as int, den as int),
                self.levels().len() - 1,
            )],
            self.levels().contains(v),
    {
        let last: usize = self.steps.len() - 1;
        let at: u64 = share_of(last as u32, num, den);
        if at <= last as u64 {
            self.steps[at as usize]
        } else {
            self.steps[last]
        }
    }

    /// The level that a share of the picture does not pass, at the place below.
    pub fn lower(&self, share: Single) -> (v: Signed)
        requires
            0 < self.levels().len() <= u32::MAX,
            share.wf(),
            -300 <= share.e <= 4,
        ensures
            v == self.levels()[crate::signed::min_of(
                whole_part(self.levels().len() - 1, share),
                self.levels().len() - 1,
            )],
            self.levels().contains(v),
    {
        let last: usize = self.steps.len() - 1;
        let at: u64 = part_of(last as u32, share);
        if at <= last as u64 {
            self.steps[at as usize]
        } else {
            self.steps[last]
        }
    }
}

/// `n` in single precision, times `k`, without its fraction.
pub open spec fn whole_part(n: int, k: Single) -> int {
    crate::single::floor(crate::single::product(crate::single::nearest(n, 1), k))
}

/// `n` times `k`, without its fraction.
pub fn part_of(n: u32, k: Single) -> (r: u64)
    requires
        k.wf(),
        -300 <= k.e <= 4,
    ensures
        r == whole_part(n as int, k),
{
    Single::of(n as u64).times(k).floor()
}

/// The share of a photo, by brightness, that is not its subject: what is left of its cover.
pub open spec fn off_subject(p: Preset) -> Single {
    crate::single::rest(crate::single::nearest(p.cover_of(), 100))
}

/// The share of a photo that is not its subject (see [`off_subject`]).
pub fn off_subject_share(p: Preset) -> (s: Single)
    ensures
        s == off_subject(p),
        crate::single::is_share(s),
        s.m > 0 ==> -60 <= s.e,
{
    let c = ratio(p.cover(), 100);
    proof {
        crate::single::lemma_fraction_is_share(p.cover_of(), 100, c);
    }
    c.complement()
}

/// The area that a blob must reach to stay: a part of the largest blob, a part of the whole picture,
/// both in thousandths, and at least one cell.
pub open spec fn least_area(biggest: int, n: int, rel: int, floor: int) -> int {
    crate::scale::at_least(
        crate::scale::at_least(
            whole_part(biggest, crate::single::nearest(rel, 1000)),
            whole_part(n, crate::single::nearest(floor, 1000)),
        ),
        1,
    )
}

/// Cell `i` belongs to a blob below [`least_area`].
pub open spec fn is_faded(on: Seq<bool>, w: int, rel: int, floor: int, i: int) -> bool {
    on[i] && exists|a: int|
        crate::blobs::is_largest(on, w, a) && #[trigger] least_area(a, on.len() as int, rel, floor)
            > crate::blobs::blob(on, w, i).len()
}

/// The cells to be faded: those of blobs below [`least_area`]. Cells that touch by a side belong to
/// the same blob.
pub fn keep_main_blobs(on: &Vec<bool>, w: usize, h: usize, rel: u64, floor: u64) -> (out: Vec<bool>)
    requires
        crate::blobs::is_mask(on@, w as int, h as int),
        on@.len() < u32::MAX,
        rel <= 1000,
        floor <= 1000,
    ensures
        out@.len() == on@.len(),
        forall|a: int, i: int|
            crate::blobs::is_largest(on@, w as int, a) && 0 <= i < on@.len() ==> #[trigger] out@[i]
                == (on@[i] && #[trigger] least_area(a, on@.len() as int, rel as int, floor as int)
                > crate::blobs::blob(on@, w as int, i).len()),
        forall|i: int|
            0 <= i < on@.len() ==> #[trigger] out@[i] == is_faded(
                on@,
                w as int,
                rel as int,
                floor as int,
                i,
            ),
{
    let n: usize = on.len();
    let blobs = label_blobs(on, w, h);
    match blobs.largest(on, w) {
        None => {
            let out: Vec<bool> = vec![false; n];
            out
        },
        Some(biggest) => {
            proof {
                let i = choose|i: int|
                    0 <= i < on@.len() && #[trigger] on@[i] && crate::blobs::blob(
                        on@,
                        w as int,
                        i,
                    ).len() == biggest;
                crate::blobs::lemma_blob_bound(on@, w as int, i);
            }
            let a: u64 = part_of(biggest as u32, ratio(rel, 1000));
            let b: u64 = part_of(n as u32, ratio(floor, 1000));
            let c: u64 = if a < b {
                b
            } else {
                a
            };
            let keep: u64 = if c < 1 {
                1
            } else {
                c
            };
            let limit: usize = if keep <= u32::MAX as u64 {
                keep as usize
            } else {
                u32::MAX as usize
            };
            let out = blobs.smaller_than(on, w, limit);
            proof {
                assert forall|a: int, i: int|
                    crate::blobs::is_largest(on@, w as int, a) && 0 <= i
                        < on@.len() implies #[trigger] out@[i] == (on@[i] && #[trigger] least_area(
                    a,
                    on@.len() as int,
                    rel as int,
                    floor as int,
                ) > crate::blobs::blob(on@, w as int, i).len()) by {
                    assert(a == biggest);
                    crate::blobs::lemma_blob_bound(on@, w as int, i);
                }
                assert forall|i: int| 0 <= i < on@.len() implies #[trigger] out@[i] == is_faded(
                    on@,
                    w as int,
                    rel as int,
                    floor as int,
                    i,
                ) by {
                    assert(crate::blobs::is_largest(on@, w as int, biggest as int));
                    let area = least_area(biggest as int, n as int, rel as int, floor as int);
                    assert(out@[i] == (on@[i] && area > crate::blobs::blob(on@, w as int, i).len()));
                }
            }
            out
        },
    }
}

/// What blurring and sampling radii follow from a long edge.
pub open spec fn radius(long: int, part: int, lo: int, hi: int) -> int {
    crate::scale::within(long / part, lo, hi)
}

/// The radius that is `1 / part` of a long edge, from `lo` to `hi`.
pub fn radius_of(long: usize, part: usize, lo: usize, hi: usize) -> (r: usize)
    requires
        part > 0,
        lo <= hi,
    ensures
        r == radius(long as int, part as int, lo as int, hi as int),
{
    let r: usize = long / part;
    if r < lo {
        lo
    } else if r > hi {
        hi
    } else {
        r
    }
}

} // verus!
