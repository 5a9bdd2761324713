//! Backing up a folder: what differs between a source and a destination, and what to do about it.
//!
//! Three rules: of files with the same name the source's replaces the destination's when it is
//! newer; files that the destination lacks are copied; files that only the destination has are kept
//! or deleted, as asked. Only the destination is ever written.

use vstd::prelude::*;

use crate::order::{sort, Ranked};
use crate::path::{copy_names, precedes, PathName};
use crate::text::{compare, join2, join3, join_with, replace_char, same, to_decimal, to_lowercase, Side};

verus! {

/// Message of a scan that was called off.
pub const CANCELLED: &'static str = "已中止";

/// Times up to two seconds apart count as the same, in nanoseconds.
pub const MTIME_SLACK: i128 = 2_000_000_000;

/// What is to be done about a file.
#[derive(Clone, Copy, PartialEq, Eq, Structural, Debug)]
pub enum Kind {
    /// The destination lacks it: copy it there.
    Copy,
    /// Both have it and the source's replaces the destination's.
    Update,
    /// Only the destination has it.
    Extra,
}

impl Kind {
    /// Name of the kind.
    pub open spec fn label_text(self) -> Seq<char> {
        match self {
            Kind::Copy => "新增"@,
            Kind::Update => "更新"@,
            Kind::Extra => "目的地多餘檔案"@,
        }
    }

    /// Name of the kind.
    pub fn label(self) -> (s: &'static str)
        ensures
            s@ == self.label_text(),
    {
        match self {
            Kind::Copy => "新增",
            Kind::Update => "更新",
            Kind::Extra => "目的地多餘檔案",
        }
    }

    /// Place of the kind in a plan.
    pub open spec fn rank(self) -> int {
        match self {
            Kind::Copy => 0,
            Kind::Update => 1,
            Kind::Extra => 2,
        }
    }

    /// Place of the kind in a plan.
    pub fn order(self) -> (r: u8)
        ensures
            r == self.rank(),
    {
        match self {
            Kind::Copy => 0,
            Kind::Update => 1,
            Kind::Extra => 2,
        }
    }
}

/// Something to be done about one file.
pub struct Action {
    /// Names below the root of source and destination.
    pub rel: Vec<String>,
    pub kind: Kind,
    /// Size of what is copied or deleted.
    pub bytes: u64,
}

/// An action as mathematics sees it.
#[verifier::ext_equal]
pub struct Task {
    pub rel: Seq<Seq<char>>,
    pub kind: Kind,
    pub bytes: int,
}

impl View for Action {
    type V = Task;

    open spec fn view(&self) -> Task {
        Task { rel: crate::path::names(self.rel@), kind: self.kind, bytes: self.bytes as int }
    }
}

/// Actions go by kind, then by path.
impl Ranked for Action {
    open spec fn ranks(self, other: Action) -> bool {
        self.kind.rank() < other.kind.rank() || (self.kind.rank() == other.kind.rank()
            && crate::path::names_before(
            crate::path::names(self.rel@),
            crate::path::names(other.rel@),
        ))
    }

    proof fn ranks_total(a: Action, b: Action) {
        crate::path::law_names_order(
            crate::path::names(a.rel@),
            crate::path::names(b.rel@),
            crate::path::names(b.rel@),
        );
    }

    proof fn ranks_transitive(a: Action, b: Action, c: Action) {
        crate::path::law_names_order(
            crate::path::names(a.rel@),
            crate::path::names(b.rel@),
            crate::path::names(c.rel@),
        );
    }

    fn may_precede(&self, other: &Action) -> (b: bool) {
        let p: u8 = self.kind.order();
        let q: u8 = other.kind.order();
        p < q || (p == q && precedes(&self.rel, &other.rel))
    }
}

/// What was compared: what there is to do, and how much there is not.
pub struct Plan {
    pub actions: Vec<Action>,
    /// Files that are the same on both sides.
    pub same: usize,
    /// Files left alone because the destination's are newer.
    pub newer_dst: usize,
    /// Folders that could not be read.
    pub skipped: Vec<String>,
}

/// The action is of this kind.
pub open spec fn of_kind(kind: Kind) -> spec_fn(Action) -> bool {
    |a: Action| a.kind == kind
}

/// Total size of the actions of a kind.
pub open spec fn weight(s: Seq<Action>, kind: Kind) -> int
    decreases s.len(),
{
    if s.len() == 0 {
        0
    } else {
        weight(s.drop_last(), kind) + if s.last().kind == kind {
            s.last().bytes as int
        } else {
            0
        }
    }
}

proof fn lemma_weight_grows(s: Seq<Action>, kind: Kind, n: int)
    requires
        0 <= n <= s.len(),
    ensures
        0 <= weight(s.subrange(0, n), kind) <= weight(s, kind),
    decreases s.len() - n,
{
    lemma_weight_positive(s.subrange(0, n), kind);
    if n == s.len() {
        assert(s.subrange(0, n) =~= s);
    } else {
        lemma_weight_grows(s, kind, n + 1);
        assert(s.subrange(0, n + 1).drop_last() =~= s.subrange(0, n));
    }
}

proof fn lemma_weight_positive(s: Seq<Action>, kind: Kind)
    ensures
        weight(s, kind) >= 0,
    decreases s.len(),
{
    if s.len() > 0 {
        lemma_weight_positive(s.drop_last(), kind);
    }
}

/// Kinds are equal.
fn is_kind(a: Kind, b: Kind) -> (r: bool)
    ensures
        r == (a == b),
{
    a.order() == b.order()
}

impl Plan {
    /// How many actions are of a kind.
    pub fn count(&self, kind: Kind) -> (n: usize)
        ensures
            n == crate::order::tally(self.actions@, of_kind(kind)),
            n <= self.actions@.len(),
    {
        let mut n: usize = 0;
        let mut i: usize = 0;
        assert(self.actions@.subrange(0, 0) =~= Seq::<Action>::empty());
        while i < self.actions.len()
            invariant
                i <= self.actions@.len(),
                n <= i,
                n == crate::order::tally(self.actions@.subrange(0, i as int), of_kind(kind)),
            decreases self.actions@.len() - i,
        {
            assert(self.actions@.subrange(0, i + 1).drop_last() =~= self.actions@.subrange(
                0,
                i as int,
            ));
            if is_kind(self.actions[i].kind, kind) {
                n += 1;
            }
            i += 1;
        }
        assert(self.actions@.subrange(0, i as int) =~= self.actions@);
        n
    }

    /// Total size of the actions of a kind.
    pub fn bytes(&self, kind: Kind) -> (n: u64)
        requires
            weight(self.actions@, kind) <= u64::MAX,
        ensures
            n == weight(self.actions@, kind),
    {
        let mut n: u64 = 0;
        let mut i: usize = 0;
        assert(self.actions@.subrange(0, 0) =~= Seq::<Action>::empty());
        while i < self.actions.len()
            invariant
                i <= self.actions@.len(),
                n == weight(self.actions@.subrange(0, i as int), kind),
                weight(self.actions@, kind) <= u64::MAX,
            decreases self.actions@.len() - i,
        {
            proof {
                assert(self.actions@.subrange(0, i + 1).drop_last() =~= self.actions@.subrange(
                    0,
                    i as int,
                ));
                lemma_weight_grows(self.actions@, kind, i + 1);
            }
            if is_kind(self.actions[i].kind, kind) {
                n += self.actions[i].bytes;
            }
            i += 1;
        }
        assert(self.actions@.subrange(0, i as int) =~= self.actions@);
        n
    }

    /// How many actions touch a file: kept extra files are listed, but nothing is done about them.
    pub fn todo(&self, keep_extra: bool) -> (n: usize)
        ensures
            !keep_extra ==> n == self.actions@.len(),
            keep_extra ==> n == self.actions@.len() - crate::order::tally(
                self.actions@,
                of_kind(Kind::Extra),
            ),
            keep_extra ==> n == crate::order::tally(self.actions@, of_kind(Kind::Copy))
                + crate::order::tally(self.actions@, of_kind(Kind::Update)),
    {
        proof {
            lemma_kinds_partition(self.actions@);
        }
        if keep_extra {
            self.actions.len() - self.count(Kind::Extra)
        } else {
            self.actions.len()
        }
    }
}

/// Every action is of exactly one kind.
proof fn lemma_kinds_partition(s: Seq<Action>)
    ensures
        s.len() == crate::order::tally(s, of_kind(Kind::Copy)) + crate::order::tally(
            s,
            of_kind(Kind::Update),
        ) + crate::order::tally(s, of_kind(Kind::Extra)),
    decreases s.len(),
{
    if s.len() > 0 {
        lemma_kinds_partition(s.drop_last());
    }
}

/// The folder that a backup of `src` to `dst` writes: `dst` itself when it already bears the
/// source's name or the source has none, else a folder of that name inside it.
pub open spec fn target_place(
    src: crate::path::Place,
    dst: crate::path::Place,
    fold: bool,
) -> crate::path::Place {
    match src.file_name() {
        None => dst,
        Some(name) => match dst.file_name() {
            Some(d) => if same_name(d, name, fold) {
                dst
            } else {
                dst.join(name)
            },
            None => dst.join(name),
        },
    }
}

/// Two names are the same; where case is folded, up to case.
pub open spec fn same_name(a: Seq<char>, b: Seq<char>, fold: bool) -> bool {
    if fold {
        crate::text::lowercase(a) == crate::text::lowercase(b)
    } else {
        a == b
    }
}

fn is_same_name(a: &str, b: &str, fold: bool) -> (r: bool)
    ensures
        r == same_name(a@, b@, fold),
{
    if fold {
        let x = to_lowercase(a);
        let y = to_lowercase(b);
        same(x.as_str(), y.as_str())
    } else {
        same(a, b)
    }
}

/// The folder that a backup writes (see [`target_place`]). `fold` says that names differing only in
/// case are the same.
pub fn target(src: &PathName, dst: &PathName, fold: bool) -> (r: PathName)
    ensures
        r@ == target_place(src@, dst@, fold),
{
    match src.file_name() {
        None => dst.copy(),
        Some(name) => {
            let own: bool = match dst.file_name() {
                Some(d) => is_same_name(d.as_str(), name.as_str(), fold),
                None => false,
            };
            if own {
                dst.copy()
            } else {
                dst.join(name.as_str())
            }
        },
    }
}

/// Backing up once more into the folder that a backup writes does not nest it any deeper.
pub proof fn law_target_is_stable(src: crate::path::Place, dst: crate::path::Place, fold: bool)
    ensures
        target_place(src, target_place(src, dst, fold), fold) == target_place(src, dst, fold),
{
    match src.file_name() {
        None => {},
        Some(name) => {
            let t = dst.join(name);
            assert(t.names.last() == name);
        },
    }
}

/// What is known of the two folders before a backup.
pub struct Facts {
    pub src_is_dir: bool,
    pub dst_is_dir: bool,
    pub dst_exists: bool,
    pub dst_parent_is_dir: bool,
}

/// Why a backup is refused.
#[derive(Clone, Copy, PartialEq, Eq, Structural, Debug)]
pub enum Refusal {
    NoSource,
    NoDestination,
    SameFolder,
    DestinationInside,
    SourceInside,
}

impl Refusal {
    /// The refusal in words.
    pub open spec fn text(self) -> Seq<char> {
        match self {
            Refusal::NoSource =>
                "來源資料夾不存在（可能已被刪除、改名，或在拔掉的隨身碟上）"@,
            Refusal::NoDestination =>
                "目的資料夾不存在（可能已被刪除、改名，或在拔掉的隨身碟上）"@,
            Refusal::SameFolder => "來源與目的是同一個資料夾"@,
            Refusal::DestinationInside =>
                "目的資料夾在來源資料夾裡面，會一層一層拷貝下去"@,
            Refusal::SourceInside =>
                "來源資料夾在目的資料夾裡面，會一層一層拷貝下去"@,
        }
    }

    /// The refusal in words.
    pub fn message(self) -> (s: &'static str)
        ensures
            s@ == self.text(),
    {
        match self {
            Refusal::NoSource =>
                "來源資料夾不存在（可能已被刪除、改名，或在拔掉的隨身碟上）",
            Refusal::NoDestination =>
                "目的資料夾不存在（可能已被刪除、改名，或在拔掉的隨身碟上）",
            Refusal::SameFolder => "來源與目的是同一個資料夾",
            Refusal::DestinationInside => "目的資料夾在來源資料夾裡面，會一層一層拷貝下去",
            Refusal::SourceInside => "來源資料夾在目的資料夾裡面，會一層一層拷貝下去",
        }
    }
}

/// Why a backup from `src` to `dst` is refused, if it is. A destination that does not exist yet is
/// in order as long as its parent does.
pub open spec fn refusal(
    facts: Facts,
    src: crate::path::Place,
    dst: crate::path::Place,
) -> Option<Refusal> {
    if !facts.src_is_dir {
        Some(Refusal::NoSource)
    } else if !facts.dst_is_dir && (!facts.dst_parent_is_dir || facts.dst_exists) {
        Some(Refusal::NoDestination)
    } else if src == dst {
        Some(Refusal::SameFolder)
    } else if dst.starts_with(src) {
        Some(Refusal::DestinationInside)
    } else if src.starts_with(dst) {
        Some(Refusal::SourceInside)
    } else {
        None
    }
}

/// Can `src` be backed up to `dst`? Both are given as resolved by [`norm`].
pub fn validate(facts: &Facts, src: &PathName, dst: &PathName) -> (r: Result<(), Refusal>)
    ensures
        r is Ok <==> refusal(*facts, src@, dst@) is None,
        r matches Err(e) ==> refusal(*facts, src@, dst@) == Some(e),
{
    if !facts.src_is_dir {
        return Err(Refusal::NoSource);
    }
    if !facts.dst_is_dir && (!facts.dst_parent_is_dir || facts.dst_exists) {
        return Err(Refusal::NoDestination);
    }
    if src.same(dst) {
        return Err(Refusal::SameFolder);
    }
    if dst.starts_with(src) {
        return Err(Refusal::DestinationInside);
    }
    if src.starts_with(dst) {
        return Err(Refusal::SourceInside);
    }
    Ok(())
}

/// Folders one of which lies in the other are always refused, whatever else is known of them.
pub proof fn law_nested_is_refused(
    facts: Facts,
    src: crate::path::Place,
    dst: crate::path::Place,
)
    requires
        src.starts_with(dst) || dst.starts_with(src),
    ensures
        refusal(facts, src, dst) is Some,
{
}

/// How a path resolves: `canon[i]` tells where the path without its last `i` names really is, if it
/// is anywhere. The first that is somewhere counts, with the names that were left out put back; a
/// path of which nothing is anywhere stays as it is.
pub open spec fn resolved(
    p: crate::path::Place,
    canon: Seq<Option<crate::path::Place>>,
    i: int,
) -> crate::path::Place
    decreases canon.len() - i,
{
    if i < 0 || i >= canon.len() || i > p.names.len() {
        p
    } else if canon[i] is Some {
        canon[i]->0.below(p.names.subrange(p.names.len() - i, p.names.len() as int))
    } else if i < p.names.len() && is_up_name(p, i) {
        p
    } else {
        resolved(p, canon, i + 1)
    }
}

/// The name that is next to be left out leads up.
pub open spec fn is_up_name(p: crate::path::Place, i: int) -> bool {
    crate::path::is_up(p.names[p.names.len() - 1 - i])
}

/// The places of a list of paths.
pub open spec fn places(v: Seq<Option<PathName>>) -> Seq<Option<crate::path::Place>> {
    v.map_values(
        |o: Option<PathName>|
            match o {
                Some(p) => Some(p@),
                None => None,
            },
    )
}

/// Resolves a path of which a part may not exist yet (see [`resolved`]); where case is folded, the
/// result is in lower case.
pub fn norm(p: &PathName, canon: &Vec<Option<PathName>>, fold: bool) -> (r: PathName)
    ensures
        !fold ==> r@ == resolved(p@, places(canon@), 0),
        fold ==> r@ == crate::path::lowered(resolved(p@, places(canon@), 0)),
{
    let found = resolve(p, canon);
    if fold {
        found.lowered()
    } else {
        found
    }
}

fn resolve(p: &PathName, canon: &Vec<Option<PathName>>) -> (r: PathName)
    ensures
        r@ == resolved(p@, places(canon@), 0),
{
    let n: usize = p.names.len();
    let ghost all = places(canon@);
    let mut i: usize = 0;
    while i < canon.len() && i <= n
        invariant
            n == p.names@.len(),
            all == places(canon@),
            i <= canon@.len(),
            i <= n + 1,
            resolved(p@, all, 0) == resolved(p@, all, i as int),
        decreases canon@.len() - i,
    {
        assert(all[i as int] is Some <==> canon@[i as int] is Some);
        if let Some(c) = &canon[i] {
            let mut rest: Vec<String> = Vec::new();
            let mut k: usize = n - i;
            let ghost tail = p@.names.subrange(n - i, n as int);
            while k < n
                invariant
                    n == p.names@.len(),
                    i <= n,
                    n - i <= k <= n,
                    tail == p@.names.subrange(n - i, n as int),
                    crate::path::names(rest@) =~= tail.subrange(0, k - (n - i)),
                decreases n - k,
            {
                let ghost now = crate::path::names(rest@);
                rest.push(p.names[k].clone());
                assert(crate::path::names(rest@) =~= now.push(p@.names[k as int]));
                k += 1;
            }
            assert(crate::path::names(rest@) =~= tail);
            return c.join_all(&rest);
        }
        if i < n {
            assert(p@.names[n - 1 - i] == p.names@[n - 1 - i]@);
            if same(p.names[n - 1 - i].as_str(), "..") {
                return p.copy();
            }
        }
        i += 1;
    }
    p.copy()
}

/// A file that a scan found.
pub struct Found {
    /// Names below the folder that was scanned.
    pub rel: Vec<String>,
    /// What the file is matched by (see [`key_text`]).
    pub key: String,
    pub len: u64,
    /// Time of the last change, in nanoseconds.
    pub mtime: i128,
}

/// What a file is matched by: its names joined by slashes, whichever kind they are; where case is
/// folded, in lower case.
pub open spec fn key_text(rel: Seq<Seq<char>>, fold: bool) -> Seq<char> {
    let s = crate::text::with_char(crate::text::joined(rel, "/"@), '\\', '/');
    if fold {
        crate::text::lowercase(s)
    } else {
        s
    }
}

/// What a file is matched by (see [`key_text`]).
pub fn key_of(rel: &Vec<String>, fold: bool) -> (k: String)
    ensures
        k@ == key_text(crate::path::names(rel@), fold),
{
    let s = join_with(rel, "/");
    let flat = replace_char(s.as_str(), '\\', '/');
    if fold {
        to_lowercase(flat.as_str())
    } else {
        flat
    }
}

/// Which of two times is later: `Some(true)` for the first, `Some(false)` for the second, `None`
/// when they are at most two seconds apart.
pub open spec fn later(a: int, b: int) -> Option<bool> {
    if a - b > 2_000_000_000 {
        Some(true)
    } else if b - a > 2_000_000_000 {
        Some(false)
    } else {
        None
    }
}

/// Is the first time later (see [`later`])?
pub fn newer(a: i128, b: i128) -> (r: Option<bool>)
    requires
        in_range(a as int),
        in_range(b as int),
    ensures
        r == later(a as int, b as int),
{
    if a - b > MTIME_SLACK {
        Some(true)
    } else if b - a > MTIME_SLACK {
        Some(false)
    } else {
        None
    }
}

/// A time that a clock can show.
pub open spec fn in_range(t: int) -> bool {
    -0x1_0000_0000_0000_0000_0000_0000 <= t <= 0x1_0000_0000_0000_0000_0000_0000
}

/// Every file is matched by the key of its names.
pub open spec fn is_keyed(v: Seq<Found>, fold: bool) -> bool {
    forall|i: int|
        0 <= i < v.len() ==> (#[trigger] v[i]).key@ == key_text(crate::path::names(v[i].rel@), fold)
}

/// Every file is matched by the key of its names, no two by the same key, and all times can be shown
/// by a clock.
pub open spec fn is_listing(v: Seq<Found>) -> bool {
    &&& exists|fold: bool| is_keyed(v, fold)
    &&& forall|i: int, j: int|
        0 <= i < v.len() && 0 <= j < v.len() && (#[trigger] v[i]).key@ == (#[trigger] v[j]).key@
            ==> i == j
    &&& forall|i: int| 0 <= i < v.len() ==> in_range((#[trigger] v[i]).mtime as int)
}

/// The file with this key is in the listing.
pub open spec fn has_key(v: Seq<Found>, key: Seq<char>) -> bool {
    exists|i: int| 0 <= i < v.len() && (#[trigger] v[i]).key@ == key
}

/// Where in the listing the file with this key is.
pub open spec fn at_key(v: Seq<Found>, key: Seq<char>) -> int {
    choose|i: int| 0 <= i < v.len() && (#[trigger] v[i]).key@ == key
}

/// What becomes of a file of the source.
#[derive(Clone, Copy, PartialEq, Eq, Structural, Debug)]
pub enum Fate {
    /// It is copied.
    Copied,
    /// It replaces the destination's.
    Replaces,
    /// Both are the same.
    Stays,
    /// The destination's is newer and stays.
    Yields,
}

/// What becomes of a file of the source, by what the destination holds.
pub open spec fn fate(s: Found, dst: Seq<Found>) -> Fate {
    if !has_key(dst, s.key@) {
        Fate::Copied
    } else {
        let d = dst[at_key(dst, s.key@)];
        match later(s.mtime as int, d.mtime as int) {
            Some(true) => Fate::Replaces,
            Some(false) => Fate::Yields,
            None => if s.len == d.len {
                Fate::Stays
            } else {
                Fate::Replaces
            },
        }
    }
}

/// What is to be done about the first `n` files of the source, in their order.
pub open spec fn source_tasks(src: Seq<Found>, dst: Seq<Found>, n: int) -> Seq<Task>
    decreases n,
{
    if n <= 0 {
        Seq::empty()
    } else {
        let s = src[n - 1];
        let before = source_tasks(src, dst, n - 1);
        match fate(s, dst) {
            Fate::Copied => before.push(
                Task {
                    rel: crate::path::names(s.rel@),
                    kind: Kind::Copy,
                    bytes: s.len as int,
                },
            ),
            Fate::Replaces => before.push(
                Task {
                    rel: crate::path::names(s.rel@),
                    kind: Kind::Update,
                    bytes: s.len as int,
                },
            ),
            _ => before,
        }
    }
}

/// What is to be done about the first `n` files of the destination, in their order.
pub open spec fn extra_tasks(src: Seq<Found>, dst: Seq<Found>, n: int) -> Seq<Task>
    decreases n,
{
    if n <= 0 {
        Seq::empty()
    } else {
        let d = dst[n - 1];
        let before = extra_tasks(src, dst, n - 1);
        if has_key(src, d.key@) {
            before
        } else {
            before.push(
                Task {
                    rel: crate::path::names(d.rel@),
                    kind: Kind::Extra,
                    bytes: d.len as int,
                },
            )
        }
    }
}

/// All that is to be done.
pub open spec fn tasks(src: Seq<Found>, dst: Seq<Found>) -> Seq<Task> {
    source_tasks(src, dst, src.len() as int) + extra_tasks(src, dst, dst.len() as int)
}

/// How many of the first `n` files of the source have this fate.
pub open spec fn fated(src: Seq<Found>, dst: Seq<Found>, f: Fate, n: int) -> nat
    decreases n,
{
    if n <= 0 {
        0
    } else {
        fated(src, dst, f, n - 1) + if fate(src[n - 1], dst) == f {
            1nat
        } else {
            0
        }
    }
}

/// How many of the first `n` files have a match in the other listing.
pub open spec fn matched(v: Seq<Found>, other: Seq<Found>, n: int) -> nat
    decreases n,
{
    if n <= 0 {
        0
    } else {
        matched(v, other, n - 1) + if has_key(other, v[n - 1].key@) {
            1nat
        } else {
            0
        }
    }
}

/// The keys of the first `n` files that have a match in the other listing.
spec fn shared_keys(v: Seq<Found>, other: Seq<Found>, n: int) -> Set<Seq<char>> {
    Set::new(
        |k: Seq<char>|
            has_key(other, k) && exists|i: int| 0 <= i < n && (#[trigger] v[i]).key@ == k,
    )
}

proof fn lemma_shared_keys(v: Seq<Found>, other: Seq<Found>, n: int)
    requires
        is_listing(v),
        0 <= n <= v.len(),
    ensures
        shared_keys(v, other, n).finite(),
        shared_keys(v, other, n).len() == matched(v, other, n),
    decreases n,
{
    let s = shared_keys(v, other, n);
    if n == 0 {
        assert(s =~= Set::<Seq<char>>::empty());
    } else {
        lemma_shared_keys(v, other, n - 1);
        let r = shared_keys(v, other, n - 1);
        let k = v[n - 1].key@;
        if has_key(other, k) {
            assert(!r.contains(k));
            assert forall|x: Seq<char>| #[trigger] s.contains(x) <==> r.insert(k).contains(x) by {
                if s.contains(x) {
                    let i = choose|i: int| 0 <= i < n && (#[trigger] v[i]).key@ == x;
                    if i < n - 1 {
                        assert(r.contains(x));
                    }
                }
                if r.contains(x) {
                    let i = choose|i: int| 0 <= i < n - 1 && (#[trigger] v[i]).key@ == x;
                    assert(v[i].key@ == x);
                }
                if x == k {
                    assert(v[n - 1].key@ == x);
                }
            }
            assert(s =~= r.insert(k));
        } else {
            assert forall|x: Seq<char>| #[trigger] s.contains(x) <==> r.contains(x) by {
                if s.contains(x) {
                    let i = choose|i: int| 0 <= i < n && (#[trigger] v[i]).key@ == x;
                    assert(i < n - 1);
                }
                if r.contains(x) {
                    let i = choose|i: int| 0 <= i < n - 1 && (#[trigger] v[i]).key@ == x;
                    assert(v[i].key@ == x);
                }
            }
            assert(s =~= r);
        }
    }
}

/// Two listings have as many matches one way as the other.
pub proof fn law_matches_are_mutual(a: Seq<Found>, b: Seq<Found>)
    requires
        is_listing(a),
        is_listing(b),
    ensures
        matched(a, b, a.len() as int) == matched(b, a, b.len() as int),
{
    lemma_shared_keys(a, b, a.len() as int);
    lemma_shared_keys(b, a, b.len() as int);
    let x = shared_keys(a, b, a.len() as int);
    let y = shared_keys(b, a, b.len() as int);
    assert forall|k: Seq<char>| #[trigger] x.contains(k) <==> y.contains(k) by {
        if x.contains(k) {
            assert(has_key(a, k));
            assert(has_key(b, k));
        }
        if y.contains(k) {
            assert(has_key(a, k));
            assert(has_key(b, k));
        }
    }
    assert(x =~= y);
}

/// What two tasks must not share: the kind and the path.
pub open spec fn spot(t: Task) -> (Kind, Seq<Seq<char>>) {
    (t.kind, t.rel)
}

/// Tasks go by kind, then by path, and none comes twice.
pub open spec fn are_strict(t: Seq<Task>) -> bool {
    forall|i: int, j: int|
        0 <= i < j < t.len() ==> goes_before(#[trigger] t[i], #[trigger] t[j]) && spot(t[i]) != spot(
            t[j],
        )
}

/// A task goes before another: by kind, then by path.
pub open spec fn goes_before(a: Task, b: Task) -> bool {
    a.kind.rank() < b.kind.rank() || (a.kind.rank() == b.kind.rank() && crate::path::names_before(
        a.rel,
        b.rel,
    ))
}

/// The tasks of the source's first `n` files are of its files, and none comes twice.
proof fn lemma_source_spots(src: Seq<Found>, dst: Seq<Found>, n: int)
    requires
        is_listing(src),
        0 <= n <= src.len(),
    ensures
        forall|k: int|
            0 <= k < source_tasks(src, dst, n).len() ==> (#[trigger] source_tasks(
                src,
                dst,
                n,
            )[k]).kind != Kind::Extra && is_rel_of(src, n, source_tasks(src, dst, n)[k].rel),
        source_tasks(src, dst, n).map_values(|t: Task| spot(t)).no_duplicates(),
    decreases n,
{
    if n > 0 {
        lemma_source_spots(src, dst, n - 1);
        let before = source_tasks(src, dst, n - 1);
        let now = source_tasks(src, dst, n);
        assert(is_rel_of(src, n, crate::path::names(src[n - 1].rel@)));
        assert forall|k: int| 0 <= k < now.len() implies (#[trigger] now[k]).kind != Kind::Extra
            && is_rel_of(src, n, now[k].rel) by {
            if k < before.len() {
                assert(before[k] == now[k]);
            }
        }
        let spots = now.map_values(|t: Task| spot(t));
        let old_spots = before.map_values(|t: Task| spot(t));
        assert forall|i: int, j: int| 0 <= i < j < spots.len() implies spots[i] != spots[j] by {
            assert(before[i] == now[i]);
            if j < before.len() {
                assert(old_spots[i] != old_spots[j]);
            } else if spots[i] == spots[j] {
                assert(is_rel_of(src, n - 1, before[i].rel));
                lemma_rel_is_new(src, n - 1);
            }
        }
    }
}

/// The tasks of the destination's first `n` files are of its files, and none comes twice.
proof fn lemma_extra_spots(src: Seq<Found>, dst: Seq<Found>, n: int)
    requires
        is_listing(dst),
        0 <= n <= dst.len(),
    ensures
        forall|k: int|
            0 <= k < extra_tasks(src, dst, n).len() ==> (#[trigger] extra_tasks(
                src,
                dst,
                n,
            )[k]).kind == Kind::Extra && is_rel_of(dst, n, extra_tasks(src, dst, n)[k].rel),
        extra_tasks(src, dst, n).map_values(|t: Task| spot(t)).no_duplicates(),
    decreases n,
{
    if n > 0 {
        lemma_extra_spots(src, dst, n - 1);
        let before = extra_tasks(src, dst, n - 1);
        let now = extra_tasks(src, dst, n);
        assert(is_rel_of(dst, n, crate::path::names(dst[n - 1].rel@)));
        assert forall|k: int| 0 <= k < now.len() implies (#[trigger] now[k]).kind == Kind::Extra
            && is_rel_of(dst, n, now[k].rel) by {
            if k < before.len() {
                assert(before[k] == now[k]);
            }
        }
        let spots = now.map_values(|t: Task| spot(t));
        let old_spots = before.map_values(|t: Task| spot(t));
        assert forall|i: int, j: int| 0 <= i < j < spots.len() implies spots[i] != spots[j] by {
            assert(before[i] == now[i]);
            if j < before.len() {
                assert(old_spots[i] != old_spots[j]);
            } else if spots[i] == spots[j] {
                assert(is_rel_of(dst, n - 1, before[i].rel));
                lemma_rel_is_new(dst, n - 1);
            }
        }
    }
}

/// One of the first `n` files has this path.
spec fn is_rel_of(v: Seq<Found>, n: int, rel: Seq<Seq<char>>) -> bool {
    exists|i: int| 0 <= i < n && crate::path::names((#[trigger] v[i]).rel@) == rel
}

/// No file before has the same path.
proof fn lemma_rel_is_new(v: Seq<Found>, n: int)
    requires
        is_listing(v),
        0 <= n < v.len(),
    ensures
        !is_rel_of(v, n, crate::path::names(v[n].rel@)),
{
    let fold = choose|fold: bool| is_keyed(v, fold);
    if is_rel_of(v, n, crate::path::names(v[n].rel@)) {
        let i = choose|i: int|
            0 <= i < n && crate::path::names((#[trigger] v[i]).rel@) == crate::path::names(
                v[n].rel@,
            );
        assert(v[i].key@ == v[n].key@);
    }
}

proof fn lemma_spots(src: Seq<Found>, dst: Seq<Found>)
    requires
        is_listing(src),
        is_listing(dst),
    ensures
        tasks(src, dst).map_values(|t: Task| spot(t)).no_duplicates(),
{
    lemma_source_spots(src, dst, src.len() as int);
    lemma_extra_spots(src, dst, dst.len() as int);
    let a = source_tasks(src, dst, src.len() as int);
    let b = extra_tasks(src, dst, dst.len() as int);
    let all = tasks(src, dst);
    let spots = all.map_values(|t: Task| spot(t));
    assert forall|i: int, j: int| 0 <= i < j < spots.len() implies spots[i] != spots[j] by {
        if j < a.len() {
            assert(a.map_values(|t: Task| spot(t))[i] != a.map_values(|t: Task| spot(t))[j]);
        } else if i < a.len() {
            assert(all[i] == a[i]);
            assert(all[j] == b[j - a.len()]);
        } else {
            assert(b.map_values(|t: Task| spot(t))[i - a.len()] != b.map_values(
                |t: Task| spot(t),
            )[j - a.len()]);
        }
    }
}

/// There is only one list of the same tasks in order.
pub proof fn law_plan_is_one_list(a: Seq<Task>, b: Seq<Task>)
    requires
        are_strict(a),
        are_strict(b),
        a.to_multiset() == b.to_multiset(),
    ensures
        a == b,
    decreases a.len(),
{
    broadcast use vstd::multiset::group_multiset_axioms;

    a.to_multiset_ensures();
    b.to_multiset_ensures();
    if a.len() == 0 {
        assert(a =~= b);
    } else {
        let x = a.last();
        let y = b.last();
        assert(a.contains(x) && b.contains(y));
        assert(b.to_multiset().count(x) > 0 && a.to_multiset().count(y) > 0);
        assert(b.contains(x) && a.contains(y));
        let k = choose|k: int| 0 <= k < b.len() && b[k] == x;
        let m = choose|m: int| 0 <= m < a.len() && a[m] == y;
        if x != y {
            assert(goes_before(b[k], b[b.len() - 1]));
            assert(goes_before(a[m], a[a.len() - 1]));
            assert(spot(a[m]) != spot(a[a.len() - 1]));
            crate::path::law_names_order(x.rel, y.rel, x.rel);
        }
        let p = a.drop_last();
        let q = b.drop_last();
        assert(a =~= p.push(x));
        assert(b =~= q.push(y));
        p.to_multiset_ensures();
        q.to_multiset_ensures();
        assert(p.to_multiset().insert(x) =~= q.to_multiset().insert(x));
        assert forall|t: Task| p.to_multiset().count(t) == q.to_multiset().count(t) by {
            assert(p.to_multiset().insert(x).count(t) == q.to_multiset().insert(x).count(t));
        }
        assert(p.to_multiset() =~= q.to_multiset());
        law_plan_is_one_list(p, q);
    }
}

/// A file by its key, for looking it up.
struct Slot {
    key: String,
    at: usize,
}

impl Ranked for Slot {
    closed spec fn ranks(self, other: Slot) -> bool {
        if self.key@ == other.key@ {
            self.at <= other.at
        } else {
            crate::text::text_before(self.key@, other.key@)
        }
    }

    proof fn ranks_total(a: Slot, b: Slot) {
        crate::text::law_text_order(a.key@, b.key@, b.key@);
    }

    proof fn ranks_transitive(a: Slot, b: Slot, c: Slot) {
        crate::text::law_text_order(a.key@, b.key@, c.key@);
        crate::text::law_text_order(b.key@, a.key@, c.key@);
    }

    fn may_precede(&self, other: &Slot) -> (b: bool) {
        match compare(self.key.as_str(), other.key.as_str()) {
            Side::After => false,
            Side::Before => true,
            Side::Same => self.at <= other.at,
        }
    }
}

/// The index lists every file of `v` under its key, in order.
spec fn is_index(v: Seq<Found>, index: Seq<Slot>) -> bool {
    &&& crate::order::is_sorted(index)
    &&& forall|i: int|
        0 <= i < index.len() ==> (#[trigger] index[i]).at < v.len() && v[index[i].at as int].key@
            == index[i].key@
    &&& forall|k: int| 0 <= k < v.len() ==> listed_at(index, k, #[trigger] v[k].key@)
    &&& forall|i: int, j: int|
        0 <= i < index.len() && 0 <= j < index.len() && (#[trigger] index[i]).at == (
        #[trigger] index[j]).at ==> i == j
}

spec fn listed_at(index: Seq<Slot>, at: int, key: Seq<char>) -> bool {
    exists|i: int|
        0 <= i < index.len() && (#[trigger] index[i]).key@ == key && index[i].at == at
}

fn make_index(v: &Vec<Found>) -> (index: Vec<Slot>)
    ensures
        is_index(v@, index@),
{
    let mut slots: Vec<Slot> = Vec::new();
    let mut i: usize = 0;
    while i < v.len()
        invariant
            i <= v@.len(),
            slots@.len() == i,
            forall|k: int|
                0 <= k < i ==> (#[trigger] slots@[k]).at == k && slots@[k].key@ == v@[k].key@,
        decreases v@.len() - i,
    {
        slots.push(Slot { key: v[i].key.clone(), at: i });
        i += 1;
    }
    let ghost plain = slots@;
    let n: usize = v.len();
    let index = sort(slots);
    proof {
        plain.to_multiset_ensures();
        index@.to_multiset_ensures();
        assert forall|i: int| 0 <= i < index@.len() implies (#[trigger] index@[i]).at < v@.len()
            && v@[index@[i].at as int].key@ == index@[i].key@ by {
            let x = index@[i];
            assert(index@.contains(x));
            assert(plain.to_multiset().count(x) > 0);
            assert(plain.contains(x));
            let k = choose|k: int| 0 <= k < plain.len() && plain[k] == x;
            assert(plain[k].at == k);
        }
        let ats = |x: Slot| x.at as int;
        crate::order::lemma_map_multiset(plain, index@, ats);
        let pa = plain.map_values(ats);
        let ia = index@.map_values(ats);
        assert(pa.no_duplicates()) by {
            assert forall|a: int, b: int| 0 <= a < pa.len() && 0 <= b < pa.len() && a != b implies
                pa[a] != pa[b] by {
                assert(plain[a].at == a && plain[b].at == b);
            }
        }
        pa.lemma_multiset_has_no_duplicates();
        ia.lemma_multiset_has_no_duplicates_conv();
        assert forall|i: int, j: int|
            0 <= i < index@.len() && 0 <= j < index@.len() && (#[trigger] index@[i]).at == (
            #[trigger] index@[j]).at implies i == j by {
            assert(ia[i] == ia[j]);
        }
        assert forall|k: int| 0 <= k < v@.len() implies listed_at(
            index@,
            k,
            #[trigger] v@[k].key@,
        ) by {
            let x = plain[k];
            assert(plain.contains(x));
            assert(index@.to_multiset().count(x) > 0);
            assert(index@.contains(x));
            let i = choose|i: int| 0 <= i < index@.len() && index@[i] == x;
            assert(index@[i].key@ == v@[k].key@);
        }
    }
    index
}

/// Looks a key up.
fn look_up(v: &Vec<Found>, index: &Vec<Slot>, key: &str) -> (r: Option<usize>)
    requires
        is_listing(v@),
        is_index(v@, index@),
    ensures
        r is Some <==> has_key(v@, key@),
        r matches Some(i) ==> i < v@.len() && i == at_key(v@, key@) && v@[i as int].key@ == key@,
{
    let mut lo: usize = 0;
    let mut hi: usize = index.len();
    while lo < hi
        invariant
            lo <= hi <= index@.len(),
            is_listing(v@),
            is_index(v@, index@),
            forall|i: int| 0 <= i < lo ==> (#[trigger] index@[i]).key@ != key@,
            forall|i: int| hi <= i < index@.len() ==> (#[trigger] index@[i]).key@ != key@,
        decreases hi - lo,
    {
        let mid: usize = lo + (hi - lo) / 2;
        let ghost m = index@[mid as int];
        match compare(index[mid].key.as_str(), key) {
            Side::Same => {
                proof {
                    assert(v@[m.at as int].key@ == key@);
                    assert(has_key(v@, key@));
                }
                return Some(index[mid].at);
            },
            Side::Before => {
                proof {
                    assert forall|i: int| 0 <= i < mid + 1 implies (#[trigger] index@[i]).key@
                        != key@ by {
                        if i < mid {
                            assert(index@[i].ranks(m));
                            crate::text::law_text_order(index@[i].key@, m.key@, key@);
                            crate::text::law_text_order(key@, m.key@, key@);
                        }
                    }
                }
                lo = mid + 1;
            },
            Side::After => {
                proof {
                    assert forall|i: int| mid <= i < index@.len() implies (
                    #[trigger] index@[i]).key@ != key@ by {
                        if i > mid {
                            assert(m.ranks(index@[i]));
                        }
                    }
                }
                hi = mid;
            },
        }
    }
    proof {
        if has_key(v@, key@) {
            let k = choose|k: int| 0 <= k < v@.len() && (#[trigger] v@[k]).key@ == key@;
            assert(listed_at(index@, k, v@[k].key@));
            let i = choose|i: int|
                0 <= i < index@.len() && (#[trigger] index@[i]).key@ == key@ && index@[i].at == k;
        }
    }
    None
}

/// The tasks of a list of actions.
pub open spec fn views(v: Seq<Action>) -> Seq<Task> {
    v.map_values(|a: Action| a@)
}

/// Compares two listings and says what is to be done (see [`tasks`]): by kind, then by path.
pub fn plan(src: &Vec<Found>, dst: &Vec<Found>, skipped: Vec<String>) -> (p: Plan)
    requires
        is_listing(src@),
        is_listing(dst@),
    ensures
        crate::order::is_sorted(p.actions@),
        views(p.actions@).to_multiset() == tasks(src@, dst@).to_multiset(),
        p.same == fated(src@, dst@, Fate::Stays, src@.len() as int),
        p.newer_dst == fated(src@, dst@, Fate::Yields, src@.len() as int),
        p.skipped@ == skipped@,
        src@.len() == crate::order::tally(p.actions@, of_kind(Kind::Copy)) + crate::order::tally(
            p.actions@,
            of_kind(Kind::Update),
        ) + p.same + p.newer_dst,
        dst@.len() == crate::order::tally(p.actions@, of_kind(Kind::Update)) + p.same + p.newer_dst
            + crate::order::tally(p.actions@, of_kind(Kind::Extra)),
        are_strict(views(p.actions@)),
{
    let src_index = make_index(src);
    let dst_index = make_index(dst);
    let mut actions: Vec<Action> = Vec::new();
    let mut same_n: usize = 0;
    let mut newer_n: usize = 0;
    let mut i: usize = 0;
    while i < src.len()
        invariant
            i <= src@.len(),
            is_listing(src@),
            is_listing(dst@),
            is_index(dst@, dst_index@),
            same_n <= i,
            newer_n <= i,
            same_n == fated(src@, dst@, Fate::Stays, i as int),
            newer_n == fated(src@, dst@, Fate::Yields, i as int),
            views(actions@) =~= source_tasks(src@, dst@, i as int),
            i == crate::order::tally(actions@, of_kind(Kind::Copy)) + crate::order::tally(
                actions@,
                of_kind(Kind::Update),
            ) + same_n + newer_n,
            matched(src@, dst@, i as int) == crate::order::tally(actions@, of_kind(Kind::Update))
                + same_n + newer_n,
            crate::order::tally(actions@, of_kind(Kind::Extra)) == 0,
        decreases src@.len() - i,
    {
        let s = &src[i];
        let ghost before = actions@;
        let f: Fate = match look_up(dst, &dst_index, s.key.as_str()) {
            None => Fate::Copied,
            Some(k) => {
                let d = &dst[k];
                match newer(s.mtime, d.mtime) {
                    Some(true) => Fate::Replaces,
                    Some(false) => Fate::Yields,
                    None => if s.len == d.len {
                        Fate::Stays
                    } else {
                        Fate::Replaces
                    },
                }
            },
        };
        assert(f == fate(*s, dst@));
        match f {
            Fate::Copied => {
                let a = Action { rel: copy_names(&s.rel), kind: Kind::Copy, bytes: s.len };
                actions.push(a);
                assert(views(actions@) =~= views(before).push(a@));
                assert(actions@.drop_last() =~= before);
            },
            Fate::Replaces => {
                let a = Action { rel: copy_names(&s.rel), kind: Kind::Update, bytes: s.len };
                actions.push(a);
                assert(views(actions@) =~= views(before).push(a@));
                assert(actions@.drop_last() =~= before);
            },
            Fate::Stays => {
                same_n += 1;
            },
            Fate::Yields => {
                newer_n += 1;
            },
        }
        i += 1;
    }
    let ghost first = actions@;
    let mut j: usize = 0;
    while j < dst.len()
        invariant
            j <= dst@.len(),
            is_listing(src@),
            is_listing(dst@),
            is_index(src@, src_index@),
            views(actions@) =~= source_tasks(src@, dst@, src@.len() as int) + extra_tasks(
                src@,
                dst@,
                j as int,
            ),
            crate::order::tally(actions@, of_kind(Kind::Copy)) == crate::order::tally(
                first,
                of_kind(Kind::Copy),
            ),
            crate::order::tally(actions@, of_kind(Kind::Update)) == crate::order::tally(
                first,
                of_kind(Kind::Update),
            ),
            j == matched(dst@, src@, j as int) + crate::order::tally(
                actions@,
                of_kind(Kind::Extra),
            ),
        decreases dst@.len() - j,
    {
        let d = &dst[j];
        let ghost before = actions@;
        match look_up(src, &src_index, d.key.as_str()) {
            Some(_) => {},
            None => {
                let a = Action { rel: copy_names(&d.rel), kind: Kind::Extra, bytes: d.len };
                actions.push(a);
                assert(views(actions@) =~= views(before).push(a@));
                assert(actions@.drop_last() =~= before);
            },
        }
        j += 1;
    }
    let ghost plain = actions@;
    let sorted = sort(actions);
    proof {
        crate::order::lemma_map_multiset(sorted@, plain, |a: Action| a@);
        crate::order::lemma_tally(plain, of_kind(Kind::Copy));
        crate::order::lemma_tally(plain, of_kind(Kind::Update));
        crate::order::lemma_tally(sorted@, of_kind(Kind::Copy));
        crate::order::lemma_tally(sorted@, of_kind(Kind::Update));
        crate::order::lemma_tally(plain, of_kind(Kind::Extra));
        crate::order::lemma_tally(sorted@, of_kind(Kind::Extra));
        law_matches_are_mutual(src@, dst@);
        lemma_spots(src@, dst@);
        let now = views(sorted@);
        let spots = now.map_values(|t: Task| spot(t));
        crate::order::lemma_map_multiset(now, tasks(src@, dst@), |t: Task| spot(t));
        tasks(src@, dst@).map_values(|t: Task| spot(t)).lemma_multiset_has_no_duplicates();
        spots.lemma_multiset_has_no_duplicates_conv();
        assert forall|i: int, j: int| 0 <= i < j < now.len() implies goes_before(
            #[trigger] now[i],
            #[trigger] now[j],
        ) && spot(now[i]) != spot(now[j]) by {
            assert(sorted@[i].ranks(sorted@[j]));
            assert(spots[i] != spots[j]);
        }
    }
    Plan { actions: sorted, same: same_n, newer_dst: newer_n, skipped }
}

/// No later file of the list has the same key.
pub open spec fn is_last(v: Seq<Found>, i: int) -> bool {
    forall|j: int| i < j < v.len() ==> (#[trigger] v[j]).key@ != v[i].key@
}

/// Of files from `i` on with the same key the last one each, from the end of the list backwards.
pub open spec fn lasts(v: Seq<Found>, i: int) -> Seq<Found>
    decreases v.len() - i,
{
    if i >= v.len() {
        Seq::empty()
    } else if is_last(v, i) {
        lasts(v, i + 1).push(v[i])
    } else {
        lasts(v, i + 1)
    }
}

/// Files found one after the other become a listing: of those with the same key the last one
/// stays.
pub fn listing(v: Vec<Found>) -> (out: Vec<Found>)
    requires
        exists|fold: bool| is_keyed(v@, fold),
        forall|i: int| 0 <= i < v@.len() ==> in_range((#[trigger] v@[i]).mtime as int),
    ensures
        out@ == lasts(v@, 0),
        is_listing(out@),
        forall|key: Seq<char>| has_key(out@, key) <==> #[trigger] has_key(v@, key),
{
    let index = make_index(&v);
    let n: usize = v.len();
    let ghost v0 = v@;
    let mut keep: Vec<bool> = vec![false; n];
    let mut p: usize = 0;
    while p < index.len()
        invariant
            p <= index@.len(),
            n == v0.len(),
            keep@.len() == n,
            is_index(v0, index@),
            forall|q: int|
                0 <= q < p ==> keep@[(#[trigger] index@[q]).at as int] == is_last(
                    v0,
                    index@[q].at as int,
                ),
        decreases index@.len() - p,
    {
        let last: bool = if p + 1 < index.len() {
            !same(index[p].key.as_str(), index[p + 1].key.as_str())
        } else {
            true
        };
        proof {
            lemma_last_of_run(v0, index@, p as int);
        }
        let at: usize = index[p].at;
        keep.set(at, last);
        proof {
            assert forall|q: int| 0 <= q < p + 1 implies keep@[(#[trigger] index@[q]).at as int]
                == is_last(v0, index@[q].at as int) by {}
        }
        p += 1;
    }
    proof {
        assert forall|i: int| 0 <= i < n implies #[trigger] keep@[i] == is_last(v0, i) by {
            assert(listed_at(index@, i, v0[i].key@));
            let q = choose|q: int|
                0 <= q < index@.len() && (#[trigger] index@[q]).key@ == v0[i].key@
                    && index@[q].at == i;
            assert(keep@[index@[q].at as int] == is_last(v0, index@[q].at as int));
        }
    }
    let mut v = v;
    let mut out: Vec<Found> = Vec::new();
    while v.len() > 0
        invariant
            v@.len() <= v0.len(),
            v@ == v0.subrange(0, v@.len() as int),
            keep@.len() == v0.len(),
            forall|i: int| 0 <= i < v0.len() ==> #[trigger] keep@[i] == is_last(v0, i),
            out@ == lasts(v0, v@.len() as int),
        decreases v@.len(),
    {
        let k: usize = v.len() - 1;
        match v.pop() {
            Some(f) => {
                if keep[k] {
                    out.push(f);
                }
            },
            None => {},
        }
    }
    proof {
        lemma_lasts(v0, 0);
    }
    out
}

/// The last slot of a run of equal keys belongs to the last file with that key.
proof fn lemma_last_of_run(v: Seq<Found>, index: Seq<Slot>, p: int)
    requires
        is_index(v, index),
        0 <= p < index.len(),
    ensures
        is_last(v, index[p].at as int) == (p + 1 == index.len() || index[p].key@ != index[p
            + 1].key@),
{
    let x = index[p];
    let i = x.at as int;
    if p + 1 < index.len() && x.key@ == index[p + 1].key@ {
        let y = index[p + 1];
        assert(x.ranks(y));
        assert(x.at != y.at);
        assert(v[y.at as int].key@ == x.key@);
    } else {
        assert forall|j: int| i < j < v.len() implies (#[trigger] v[j]).key@ != v[i].key@ by {
            if v[j].key@ == v[i].key@ {
                assert(listed_at(index, j, v[j].key@));
                let q = choose|q: int|
                    0 <= q < index.len() && (#[trigger] index[q]).key@ == v[j].key@
                        && index[q].at == j;
                if q < p {
                    assert(index[q].ranks(x));
                } else if q == p {
                } else {
                    assert(x.ranks(index[p + 1]));
                    if q > p + 1 {
                        assert(index[p + 1].ranks(index[q]));
                    }
                    crate::text::law_text_order(x.key@, index[p + 1].key@, index[q].key@);
                    crate::text::law_text_order(index[p + 1].key@, x.key@, x.key@);
                }
            }
        }
    }
}

proof fn lemma_lasts(v: Seq<Found>, i: int)
    requires
        0 <= i <= v.len(),
        exists|fold: bool| is_keyed(v, fold),
        forall|k: int| 0 <= k < v.len() ==> in_range((#[trigger] v[k]).mtime as int),
    ensures
        forall|fold: bool| is_keyed(v, fold) ==> is_keyed(lasts(v, i), fold),
        is_listing(lasts(v, i)),
        forall|key: Seq<char>|
            has_key(lasts(v, i), key) <==> #[trigger] has_key(
                v.subrange(i, v.len() as int),
                key,
            ),
        i == 0 ==> forall|key: Seq<char>|
            has_key(lasts(v, i), key) <==> #[trigger] has_key(v, key),
    decreases v.len() - i,
{
    let rest = v.subrange(i, v.len() as int);
    let key_fold = choose|fold: bool| is_keyed(v, fold);
    assert(i >= v.len() ==> is_keyed(lasts(v, i), key_fold));
    if i < v.len() {
        lemma_lasts(v, i + 1);
        assert(is_keyed(lasts(v, i + 1), key_fold));
        assert(is_keyed(lasts(v, i), key_fold));
        let tail = v.subrange(i + 1, v.len() as int);
        let l1 = lasts(v, i + 1);
        let l = lasts(v, i);
        if is_last(v, i) {
            assert(!has_key(tail, v[i].key@)) by {
                if has_key(tail, v[i].key@) {
                    let k = choose|k: int|
                        0 <= k < tail.len() && (#[trigger] tail[k]).key@ == v[i].key@;
                    assert(v[k + i + 1].key@ == v[i].key@);
                }
            }
            assert(!has_key(l1, v[i].key@));
            assert forall|a: int, b: int|
                0 <= a < l.len() && 0 <= b < l.len() && (#[trigger] l[a]).key@ == (
                #[trigger] l[b]).key@ implies a == b by {
                if a < l1.len() && b < l1.len() {
                    assert(l1[a].key@ == l1[b].key@);
                } else if a < l1.len() {
                    assert(l1[a].key@ == v[i].key@);
                } else if b < l1.len() {
                    assert(l1[b].key@ == v[i].key@);
                }
            }
        }
        assert forall|key: Seq<char>| has_key(l, key) <==> #[trigger] has_key(rest, key) by {
            if has_key(l, key) {
                let k = choose|k: int| 0 <= k < l.len() && (#[trigger] l[k]).key@ == key;
                if k < l1.len() {
                    assert(l1[k].key@ == key);
                    assert(has_key(tail, key));
                    let t = choose|t: int| 0 <= t < tail.len() && (#[trigger] tail[t]).key@ == key;
                    assert(rest[t + 1].key@ == key);
                } else {
                    assert(rest[0].key@ == key);
                }
            }
            if has_key(rest, key) {
                let k = choose|k: int| 0 <= k < rest.len() && (#[trigger] rest[k]).key@ == key;
                if k > 0 {
                    assert(tail[k - 1].key@ == key);
                    assert(has_key(tail, key));
                    let t = choose|t: int| 0 <= t < l1.len() && (#[trigger] l1[t]).key@ == key;
                    assert(l[t].key@ == key);
                } else if is_last(v, i) {
                    assert(l[l1.len() as int].key@ == key);
                } else {
                    let j = choose|j: int| i < j < v.len() && (#[trigger] v[j]).key@ == v[i].key@;
                    assert(tail[j - i - 1].key@ == key);
                    assert(has_key(tail, key));
                    let t = choose|t: int| 0 <= t < l1.len() && (#[trigger] l1[t]).key@ == key;
                    assert(l[t].key@ == key);
                }
            }
        }
    }
    if i == 0 {
        assert(rest =~= v);
    }
}

/// A found file as mathematics sees it.
#[verifier::ext_equal]
pub struct FileInfo {
    pub rel: Seq<Seq<char>>,
    pub key: Seq<char>,
    pub len: int,
    pub mtime: int,
}

impl View for Found {
    type V = FileInfo;

    open spec fn view(&self) -> FileInfo {
        FileInfo {
            rel: crate::path::names(self.rel@),
            key: self.key@,
            len: self.len as int,
            mtime: self.mtime as int,
        }
    }
}

/// What an entry of a folder is.
pub enum Entry {
    /// A link, which is never followed.
    Link,
    Folder,
    /// A file: its size, and the time of its last change in nanoseconds.
    File(u64, i128),
    Other,
}

/// A scan of a folder: which folders are still to be read, and what was found so far.
pub struct Scan {
    dirs: Vec<Vec<String>>,
    files: Vec<Found>,
    skipped: Vec<String>,
    root: bool,
    recursive: bool,
    fold: bool,
}

/// A scan as mathematics sees it.
#[verifier::ext_equal]
pub struct Progress {
    /// Folders still to be read, the next one last.
    pub dirs: Seq<Seq<Seq<char>>>,
    pub files: Seq<FileInfo>,
    pub skipped: Seq<Seq<char>>,
    /// No folder has been read yet.
    pub root: bool,
    pub recursive: bool,
    pub fold: bool,
}

impl View for Scan {
    type V = Progress;

    closed spec fn view(&self) -> Progress {
        Progress {
            dirs: self.dirs@.map_values(|d: Vec<String>| crate::path::names(d@)),
            files: self.files@.map_values(|f: Found| f@),
            skipped: crate::path::names(self.skipped@),
            root: self.root,
            recursive: self.recursive,
            fold: self.fold,
        }
    }
}

/// Text of the error when the scanned folder itself cannot be read.
pub open spec fn unreadable_text(shown: Seq<char>, why: Seq<char>) -> Seq<char> {
    "無法讀取「"@ + shown + "」："@ + why
}

/// Text kept for a folder that had to be skipped.
pub open spec fn skipped_text(shown: Seq<char>, why: Seq<char>) -> Seq<char> {
    shown + "（"@ + why + "）"@
}

/// A file that lies in the root folder itself.
pub open spec fn is_top(f: FileInfo) -> bool {
    f.rel.len() == 1
}

/// A scan that does not go into folders has no folder to read but the root, and has found only files
/// that lie in it.
pub open spec fn stays_in_root(s: Progress) -> bool {
    !s.recursive ==> {
        &&& forall|i: int| 0 <= i < s.dirs.len() ==> (#[trigger] s.dirs[i]).len() == 0
        &&& forall|i: int| 0 <= i < s.files.len() ==> is_top(#[trigger] s.files[i])
    }
}

impl Scan {
    /// Every file seen so far has the key of its names and a time that a clock can show, and lies in
    /// the root unless the scan goes into folders.
    pub closed spec fn wf(&self) -> bool {
        &&& is_keyed(self.files@, self.fold)
        &&& stays_in_root(self@)
        &&& forall|i: int|
            0 <= i < self.files@.len() ==> in_range((#[trigger] self.files@[i]).mtime as int)
    }

    /// A scan that has nothing but the root folder to read.
    pub fn new(recursive: bool, fold: bool) -> (s: Scan)
        ensures
            s.wf(),
            s@ == (Progress {
                dirs: seq![Seq::empty()],
                files: Seq::empty(),
                skipped: Seq::empty(),
                root: true,
                recursive,
                fold,
            }),
    {
        let mut dirs: Vec<Vec<String>> = Vec::new();
        dirs.push(Vec::new());
        let s = Scan {
            dirs,
            files: Vec::new(),
            skipped: Vec::new(),
            root: true,
            recursive,
            fold,
        };
        proof {
            assert(crate::path::names(dirs@[0]@) =~= Seq::empty());
            assert(s@.dirs =~= seq![Seq::empty()]);
            assert(s@.files =~= Seq::empty());
            assert(s@.skipped =~= Seq::empty());
        }
        s
    }

    /// The folder to be read next, if any is left.
    pub fn next(&mut self) -> (d: Option<Vec<String>>)
        requires
            old(self).wf(),
        ensures
            final(self).wf(),
            d is Some <==> old(self)@.dirs.len() > 0,
            d matches Some(v) ==> crate::path::names(v@) == old(self)@.dirs.last() && final(self)@
                == (Progress { dirs: old(self)@.dirs.drop_last(), ..old(self)@ }),
            d matches Some(v) ==> !old(self)@.recursive ==> v@.len() == 0,
            d is None ==> final(self)@ == old(self)@,
    {
        let ghost before = self@;
        let d = self.dirs.pop();
        proof {
            if d is Some {
                assert(self@.dirs =~= before.dirs.drop_last());
                assert(crate::path::names(d->0@) == before.dirs.last());
            } else {
                assert(self@.dirs =~= before.dirs);
            }
        }
        d
    }

    /// A folder could not be read. For the root that ends the scan, with a message; any other is
    /// skipped.
    pub fn unreadable(&mut self, shown: &str, why: &str) -> (e: Option<String>)
        requires
            old(self).wf(),
        ensures
            final(self).wf(),
            e is Some <==> old(self)@.root,
            e matches Some(t) ==> t@ == unreadable_text(shown@, why@) && final(self)@ == old(self)@,
            e is None ==> final(self)@ == (Progress {
                skipped: old(self)@.skipped.push(skipped_text(shown@, why@)),
                ..old(self)@
            }),
    {
        if self.root {
            let a = join2("無法讀取「", shown);
            let b = join2(a.as_str(), "」：");
            Some(join2(b.as_str(), why))
        } else {
            let ghost before = self@;
            let a = join2(shown, "（");
            let b = join2(a.as_str(), why);
            self.skipped.push(join2(b.as_str(), "）"));
            assert(self@.skipped =~= before.skipped.push(skipped_text(shown@, why@)));
            None
        }
    }

    /// A folder was opened.
    pub fn opened(&mut self)
        requires
            old(self).wf(),
        ensures
            final(self).wf(),
            final(self)@ == (Progress { root: false, ..old(self)@ }),
    {
        self.root = false;
    }

    /// An entry `name` of folder `dir`: folders are to be read too if the scan goes into them, and
    /// files are kept; anything else is passed over. Only a scan that goes into folders reads any
    /// but the root.
    pub fn entry(&mut self, dir: &Vec<String>, name: &str, e: Entry)
        requires
            old(self).wf(),
            old(self)@.recursive || dir@.len() == 0,
            e matches Entry::File(_, t) ==> in_range(t as int),
        ensures
            final(self).wf(),
            final(self)@ == entered(old(self)@, crate::path::names(dir@), name@, e),
    {
        let ghost before = self@;
        let mut rel = copy_names(dir);
        rel.push(name.to_owned());
        let ghost full = crate::path::names(dir@).push(name@);
        assert(crate::path::names(rel@) =~= full);
        match e {
            Entry::Folder => {
                if self.recursive {
                    self.dirs.push(rel);
                    assert(self@.dirs =~= before.dirs.push(full));
                }
            },
            Entry::File(len, mtime) => {
                let key = key_of(&rel, self.fold);
                self.files.push(Found { rel, key, len, mtime });
                assert(self@.files =~= before.files.push(
                    FileInfo {
                        rel: full,
                        key: key_text(full, before.fold),
                        len: len as int,
                        mtime: mtime as int,
                    },
                ));
            },
            _ => {},
        }
        proof {
            assert(crate::path::names(dir@).len() == dir@.len());
            law_flat_scan_stays_in_root(before, crate::path::names(dir@), name@, e);
        }
    }

    /// The listing of what was found, and the folders that were skipped.
    pub fn finish(self) -> (r: (Vec<Found>, Vec<String>))
        requires
            self.wf(),
        ensures
            is_listing(r.0@),
            crate::path::names(r.1@) == self@.skipped,
            exists|all: Seq<Found>|
                all.map_values(|f: Found| f@) == self@.files && r.0@ == #[trigger] lasts(all, 0),
            !self@.recursive ==> forall|i: int|
                0 <= i < r.0@.len() ==> is_top((#[trigger] r.0@[i])@),
    {
        let ghost all = self.files@;
        let ghost seen = self@;
        let found = listing(self.files);
        assert(found@ == lasts(all, 0));
        proof {
            if !seen.recursive {
                assert forall|k: int| 0 <= k < all.len() implies is_top((#[trigger] all[k])@) by {
                    assert(seen.files[k] == all[k]@);
                }
                lemma_lasts_top(all, 0);
            }
        }
        (found, self.skipped)
    }
}

/// A scan once it has seen an entry.
pub open spec fn entered(
    s: Progress,
    dir: Seq<Seq<char>>,
    name: Seq<char>,
    e: Entry,
) -> Progress {
    let rel = dir.push(name);
    match e {
        Entry::Folder => if s.recursive {
            Progress { dirs: s.dirs.push(rel), ..s }
        } else {
            s
        },
        Entry::File(len, mtime) => Progress {
            files: s.files.push(
                FileInfo {
                    rel,
                    key: key_text(rel, s.fold),
                    len: len as int,
                    mtime: mtime as int,
                },
            ),
            ..s
        },
        _ => s,
    }
}

/// A scan that does not go into folders stays in the root: whatever it sees there, it has no other
/// folder to read afterwards, and every file that it has found lies in the root.
pub proof fn law_flat_scan_stays_in_root(
    s: Progress,
    dir: Seq<Seq<char>>,
    name: Seq<char>,
    e: Entry,
)
    requires
        stays_in_root(s),
        s.recursive || dir.len() == 0,
    ensures
        stays_in_root(entered(s, dir, name, e)),
        !s.recursive ==> entered(s, dir, name, e).dirs == s.dirs,
{
    let t = entered(s, dir, name, e);
    if !s.recursive {
        assert forall|i: int| 0 <= i < t.files.len() implies is_top(#[trigger] t.files[i]) by {
            if i < s.files.len() {
                assert(t.files[i] == s.files[i]);
            }
        }
    }
}

proof fn lemma_lasts_top(v: Seq<Found>, i: int)
    requires
        0 <= i <= v.len(),
        forall|k: int| 0 <= k < v.len() ==> is_top((#[trigger] v[k])@),
    ensures
        forall|k: int| 0 <= k < lasts(v, i).len() ==> is_top((#[trigger] lasts(v, i)[k])@),
    decreases v.len() - i,
{
    if i < v.len() {
        lemma_lasts_top(v, i + 1);
        let rest = lasts(v, i + 1);
        let all = lasts(v, i);
        assert forall|k: int| 0 <= k < all.len() implies is_top((#[trigger] all[k])@) by {
            if k < rest.len() {
                assert(all[k] == rest[k]);
            } else {
                assert(all[k] == v[i]);
            }
        }
    }
}

/// What is done to the files of an action.
pub enum Step {
    /// The source's file is copied over the destination's.
    CopyOver(PathName, PathName),
    /// The destination's file is deleted.
    Remove(PathName),
    /// Nothing.
    Leave,
}

/// What an action does to the files below the two roots.
pub fn step(act: &Action, src_root: &PathName, dst_root: &PathName, keep_extra: bool) -> (s: Step)
    ensures
        match act.kind {
            Kind::Extra => if keep_extra {
                s is Leave
            } else {
                s matches Step::Remove(p) && p@ == dst_root@.below(act@.rel)
            },
            _ => s matches Step::CopyOver(from, to) && from@ == src_root@.below(act@.rel) && to@
                == dst_root@.below(act@.rel),
        },
        s matches Step::CopyOver(_, to) ==> to@.starts_with(dst_root@),
        s matches Step::Remove(p) ==> p@.starts_with(dst_root@),
{
    proof {
        let d = dst_root@.below(act@.rel);
        assert(d.names.subrange(0, dst_root@.names.len() as int) =~= dst_root@.names);
    }
    match act.kind {
        Kind::Extra => if keep_extra {
            Step::Leave
        } else {
            Step::Remove(dst_root.join_all(&act.rel))
        },
        _ => Step::CopyOver(src_root.join_all(&act.rel), dst_root.join_all(&act.rel)),
    }
}

/// What went wrong with an action.
#[derive(Clone, Copy, PartialEq, Eq, Structural)]
pub enum Trouble {
    /// The folder for the copy could not be made.
    NoFolder,
    NotCopied,
    NotRemoved,
}

/// Words for what went wrong.
pub open spec fn trouble_text(t: Trouble) -> Seq<char> {
    match t {
        Trouble::NoFolder => "：無法建立資料夾（"@,
        Trouble::NotCopied => "：複製失敗（"@,
        Trouble::NotRemoved => "：刪除失敗（"@,
    }
}

/// The message for an action that failed: the file, what went wrong, and why.
pub fn failure(rel: &str, t: Trouble, why: &str) -> (s: String)
    ensures
        s@ == rel@ + trouble_text(t) + why@ + "）"@,
{
    let words = match t {
        Trouble::NoFolder => "：無法建立資料夾（",
        Trouble::NotCopied => "：複製失敗（",
        Trouble::NotRemoved => "：刪除失敗（",
    };
    let a = join3(rel, words, why);
    join2(a.as_str(), "）")
}

/// What is written never lies in the source, unless one of the two folders lies in the other (which
/// [`validate`] refuses).
pub proof fn law_source_is_never_written(
    src: crate::path::Place,
    dst: crate::path::Place,
    rel: Seq<Seq<char>>,
)
    requires
        !src.starts_with(dst),
        !dst.starts_with(src),
    ensures
        !dst.below(rel).starts_with(src),
{
    let w = dst.below(rel);
    if w.starts_with(src) {
        if src.names.len() <= dst.names.len() {
            assert(dst.names.subrange(0, src.names.len() as int) =~= w.names.subrange(
                0,
                src.names.len() as int,
            ));
        } else {
            assert(src.names.subrange(0, dst.names.len() as int) =~= dst.names);
        }
    }
}

/// A folder of the destination.
pub struct Branch {
    pub rel: Vec<String>,
    /// The source has this folder too.
    pub shared: bool,
}

/// Deeper folders come first.
impl Ranked for Branch {
    open spec fn ranks(self, other: Branch) -> bool {
        self.rel@.len() >= other.rel@.len()
    }

    proof fn ranks_total(a: Branch, b: Branch) {
    }

    proof fn ranks_transitive(a: Branch, b: Branch, c: Branch) {
    }

    fn may_precede(&self, other: &Branch) -> (b: bool) {
        self.rel.len() >= other.rel.len()
    }
}

/// Folders that the source lacks.
pub open spec fn surplus(all: Seq<Branch>) -> Seq<Branch>
    decreases all.len(),
{
    if all.len() == 0 {
        Seq::empty()
    } else if all.last().shared {
        surplus(all.drop_last())
    } else {
        surplus(all.drop_last()).push(all.last())
    }
}

/// The folders to be removed where they are empty: those that the source lacks, what lies inside
/// another before it.
pub fn prune_order(all: Vec<Branch>) -> (out: Vec<Branch>)
    ensures
        out@.to_multiset() == surplus(all@).to_multiset(),
        forall|i: int, j: int|
            0 <= i < j < out@.len() ==> (#[trigger] out@[i]).rel@.len() >= (
            #[trigger] out@[j]).rel@.len(),
{
    let mut kept: Vec<Branch> = Vec::new();
    let n: usize = all.len();
    let mut i: usize = 0;
    let ghost all0 = all@;
    let mut all = all;
    proof {
        assert(all0.subrange(0, n as int) =~= all0);
        assert(surplus(all0) + kept@.reverse() =~= surplus(all0));
    }
    while i < n
        invariant
            i <= n == all0.len(),
            all@ == all0.subrange(0, n - i),
            surplus(all0.subrange(0, n - i)) + kept@.reverse() == surplus(all0),
        decreases n - i,
    {
        let ghost front = all0.subrange(0, n - i);
        assert(front.drop_last() =~= all0.subrange(0, n - i - 1));
        let ghost before = kept@;
        if let Some(b) = all.pop() {
            if !b.shared {
                kept.push(b);
                proof {
                    assert(kept@.reverse() =~= seq![b] + before.reverse());
                    assert(surplus(front) + before.reverse() =~= surplus(front.drop_last()) + (seq![
                        b,
                    ] + before.reverse()));
                }
            }
        }
        i += 1;
    }
    proof {
        assert(all0.subrange(0, 0) =~= Seq::<Branch>::empty());
        assert(surplus(all0) =~= kept@.reverse());
        lemma_reverse_multiset(kept@);
    }
    let out = sort(kept);
    proof {
        assert forall|i: int, j: int|
            0 <= i < j < out@.len() implies (#[trigger] out@[i]).rel@.len() >= (
        #[trigger] out@[j]).rel@.len() by {
            assert(out@[i].ranks(out@[j]));
        }
    }
    out
}

proof fn lemma_reverse_multiset(s: Seq<Branch>)
    ensures
        s.reverse().to_multiset() == s.to_multiset(),
    decreases s.len(),
{
    if s.len() == 0 {
        assert(s.reverse() =~= s);
    } else {
        let r = s.drop_last();
        lemma_reverse_multiset(r);
        assert(s.reverse() =~= seq![s.last()] + r.reverse());
        assert(s =~= r + seq![s.last()]);
        vstd::seq_lib::lemma_multiset_commutative(seq![s.last()], r.reverse());
        vstd::seq_lib::lemma_multiset_commutative(r, seq![s.last()]);
    }
}

/// After a backup there is nothing left to do: where the destination has every file of the source,
/// with its size and a time at most two seconds away or else newer, no file is copied or replaced,
/// and where it has no others, nothing at all is to be done.
pub proof fn law_second_run_is_idle(src: Seq<Found>, dst: Seq<Found>)
    requires
        is_listing(dst),
        forall|i: int|
            0 <= i < src.len() ==> has_twin(#[trigger] src[i], dst) || has_newer(src[i], dst),
    ensures
        source_tasks(src, dst, src.len() as int) == Seq::<Task>::empty(),
        fated(src, dst, Fate::Stays, src.len() as int) + fated(
            src,
            dst,
            Fate::Yields,
            src.len() as int,
        ) == src.len(),
        (forall|k: int| 0 <= k < dst.len() ==> has_key(src, (#[trigger] dst[k]).key@)) ==> tasks(
            src,
            dst,
        ) == Seq::<Task>::empty(),
{
    lemma_idle_sources(src, dst, src.len() as int);
    if forall|k: int| 0 <= k < dst.len() ==> has_key(src, (#[trigger] dst[k]).key@) {
        lemma_no_extras(src, dst, dst.len() as int);
        assert(tasks(src, dst) =~= Seq::<Task>::empty());
    }
}

proof fn lemma_idle_sources(src: Seq<Found>, dst: Seq<Found>, n: int)
    requires
        is_listing(dst),
        0 <= n <= src.len(),
        forall|i: int|
            0 <= i < src.len() ==> has_twin(#[trigger] src[i], dst) || has_newer(src[i], dst),
    ensures
        source_tasks(src, dst, n) == Seq::<Task>::empty(),
        fated(src, dst, Fate::Stays, n) + fated(src, dst, Fate::Yields, n) == n,
    decreases n,
{
    if n > 0 {
        lemma_idle_sources(src, dst, n - 1);
        let s = src[n - 1];
        let a = at_key(dst, s.key@);
        if has_twin(s, dst) {
            let k = choose|k: int| 0 <= k < dst.len() && is_twin(s, #[trigger] dst[k]);
            assert(has_key(dst, s.key@));
            assert(dst[a].key@ == dst[k].key@);
        } else {
            let k = choose|k: int| 0 <= k < dst.len() && is_newer(s, #[trigger] dst[k]);
            assert(has_key(dst, s.key@));
            assert(dst[a].key@ == dst[k].key@);
        }
    }
}

proof fn lemma_no_extras(src: Seq<Found>, dst: Seq<Found>, n: int)
    requires
        0 <= n <= dst.len(),
        forall|k: int| 0 <= k < dst.len() ==> has_key(src, (#[trigger] dst[k]).key@),
    ensures
        extra_tasks(src, dst, n) == Seq::<Task>::empty(),
    decreases n,
{
    if n > 0 {
        lemma_no_extras(src, dst, n - 1);
        assert(has_key(src, dst[n - 1].key@));
    }
}

/// The destination's file is newer than the source's.
pub open spec fn is_newer(s: Found, d: Found) -> bool {
    d.key@ == s.key@ && later(s.mtime as int, d.mtime as int) == Some(false)
}

/// The destination has a newer file.
pub open spec fn has_newer(s: Found, dst: Seq<Found>) -> bool {
    exists|k: int| 0 <= k < dst.len() && is_newer(s, #[trigger] dst[k])
}

/// The destination's file is a copy of the source's.
pub open spec fn is_twin(s: Found, d: Found) -> bool {
    d.key@ == s.key@ && d.len == s.len && later(s.mtime as int, d.mtime as int) is None
}

/// The destination has a copy of the file.
pub open spec fn has_twin(s: Found, dst: Seq<Found>) -> bool {
    exists|k: int| 0 <= k < dst.len() && is_twin(s, #[trigger] dst[k])
}

/// A destination that is newer is left alone: nothing is planned for its file.
pub proof fn law_newer_destination_is_left_alone(
    src: Seq<Found>,
    dst: Seq<Found>,
    i: int,
    k: int,
)
    requires
        is_listing(dst),
        0 <= i < src.len(),
        0 <= k < dst.len(),
        dst[k].key@ == src[i].key@,
        dst[k].mtime - src[i].mtime > 2_000_000_000,
    ensures
        fate(src[i], dst) == Fate::Yields,
        source_tasks(src, dst, i + 1) == source_tasks(src, dst, i),
        has_key(src, dst[k].key@),
        extra_tasks(src, dst, k + 1) == extra_tasks(src, dst, k),
{
    assert(has_key(dst, src[i].key@));
    let a = at_key(dst, src[i].key@);
    assert(dst[a].key@ == dst[k].key@);
    assert(src[i].key@ == dst[k].key@);
}

/// Size of the unit in the last place of a double-precision number near `n`.
pub open spec fn double_unit(n: int, u: int) -> int
    decreases n - u,
{
    if u <= 0 || n < 0x20_0000_0000_0000 * u || n <= u {
        u
    } else {
        double_unit(n, 2 * u)
    }
}

/// The double-precision number nearest to `n`.
pub open spec fn as_double(n: int) -> int {
    let u = double_unit(n, 1);
    crate::single::round_even(n, u) * u
}

/// A number of hundredths, tenths or wholes: the whole part, then a point and `places` digits.
pub open spec fn fixed(n: int, places: int) -> Seq<char> {
    if places == 0 {
        crate::text::decimal(n)
    } else if places == 1 {
        crate::text::decimal(n / 10) + "."@ + crate::text::decimal(n % 10)
    } else {
        crate::text::decimal(n / 100) + "."@ + crate::text::decimal(n % 100 / 10)
            + crate::text::decimal(n % 10)
    }
}

/// A size in words: bytes, whole kilobytes, megabytes with one digit after the point or gigabytes
/// with two, rounded to the nearest, ties to even.
pub open spec fn size_text(bytes: int) -> Seq<char> {
    if bytes < 1024 {
        crate::text::decimal(bytes) + " B"@
    } else if bytes < 1024 * 1024 {
        fixed(crate::single::round_even(bytes, 1024), 0) + " KB"@
    } else if bytes < 1024 * 1024 * 1024 {
        fixed(crate::single::round_even(bytes * 10, 0x10_0000), 1) + " MB"@
    } else {
        fixed(crate::single::round_even(as_double(bytes) * 100, 0x4000_0000), 2) + " GB"@
    }
}

fn round_half_even(n: u128, d: u128) -> (q: u128)
    requires
        0 < d <= 0x1_0000_0000_0000,
        n <= 0x1_0000_0000_0000_0000_0000_0000,
    ensures
        q == crate::single::round_even(n as int, d as int),
        q <= n + 1,
{
    let q: u128 = n / d;
    let r: u128 = n % d;
    assert(q <= n) by (nonlinear_arith)
        requires
            q == n / d,
            d > 0,
    ;
    if 2 * r < d || (2 * r == d && q % 2 == 0) {
        q
    } else {
        q + 1
    }
}

/// A size in words (see [`size_text`]).
pub fn fmt_size(bytes: u64) -> (s: String)
    ensures
        s@ == size_text(bytes as int),
{
    if bytes < 1024 {
        let n = to_decimal(bytes);
        join2(n.as_str(), " B")
    } else if bytes < 1024 * 1024 {
        let q: u128 = round_half_even(bytes as u128, 1024);
        let n = to_decimal(q as u64);
        join2(n.as_str(), " KB")
    } else if bytes < 1024 * 1024 * 1024 {
        let q: u128 = round_half_even(bytes as u128 * 10, 0x10_0000);
        let whole = to_decimal(q as u64 / 10);
        let tenth = to_decimal(q as u64 % 10);
        let a = join2(whole.as_str(), ".");
        let b = join2(a.as_str(), tenth.as_str());
        join2(b.as_str(), " MB")
    } else {
        let mut u: u128 = 1;
        let n: u128 = bytes as u128;
        while n >= 0x20_0000_0000_0000 * u
            invariant
                1 <= u <= 0x1000,
                n == bytes,
                double_unit(n as int, 1) == double_unit(n as int, u as int),
            decreases n - u,
        {
            u = u * 2;
        }
        let m: u128 = round_half_even(n, u);
        assert(m * u <= 0x2_0000_0000_0000_0000) by {
            lemma_double_bound(n as int, u as int);
        }
        assert(m * u >= 0) by (nonlinear_arith);
        assert(m * u == as_double(n as int));
        let q: u128 = round_half_even(m * u * 100, 0x4000_0000);
        proof {
            lemma_gigabytes(m * u);
        }
        let whole = to_decimal(q as u64 / 100);
        let tenth = to_decimal(q as u64 % 100 / 10);
        let last = to_decimal(q as u64 % 10);
        let a = join2(whole.as_str(), ".");
        let b = join2(a.as_str(), tenth.as_str());
        let c = join2(b.as_str(), last.as_str());
        join2(c.as_str(), " GB")
    }
}

proof fn lemma_double_bound(n: int, u: int)
    requires
        0 <= n <= u64::MAX,
        1 <= u <= 0x1000,
    ensures
        crate::single::round_even(n, u) * u <= 0x2_0000_0000_0000_0000,
{
    let q = n / u;
    vstd::arithmetic::div_mod::lemma_fundamental_div_mod(n, u);
    vstd::arithmetic::div_mod::lemma_mod_bound(n, u);
    let r = crate::single::round_even(n, u);
    assert(r * u <= n + u) by (nonlinear_arith)
        requires
            r <= q + 1,
            n == u * q + n % u,
            n % u >= 0,
            u >= 1,
    ;
}

proof fn lemma_gigabytes(v: int)
    requires
        0 <= v <= 0x2_0000_0000_0000_0000,
    ensures
        crate::single::round_even(v * 100, 0x4000_0000) <= u64::MAX,
{
}

} // verus!
