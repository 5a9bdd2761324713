//! Project files: which kind a file is, what a new one holds, and what it is called.

use vstd::prelude::*;

use crate::edit::{Finish, Wipe};
use crate::enhance::{Local, Preset};
use crate::path::PathName;
use crate::smoke::{AutoParams, Shape, SmokeParams, OBJECT_FEATHER};
use crate::stack::{BlendMode, Xform};
use crate::text::{chars_of, join2, join3, same, text_of, trim};

verus! {

/// Folder that project files are kept in.
pub const PROJECT_DIR: &'static str = "專案";

pub const KIND_VIDEO: &'static str = "video";

pub const KIND_DEHAZE: &'static str = "dehaze";

pub const KIND_STACK: &'static str = "stack";

pub const KIND_MOVIE: &'static str = "movie";

pub const KIND_ENHANCE: &'static str = "enhance";

/// Version of the layout of project files.
pub const VERSION: u32 = 1;

/// Version of the program.
pub fn app_version() -> (s: String)
    ensures
        s@ == "0.1.0"@,
{
    "0.1.0".to_owned()
}

/// The parts of the program that have projects.
#[derive(Clone, Copy, PartialEq, Eq, Structural, Debug)]
pub enum Module {
    Video,
    Dehaze,
    Stack,
    Movie,
    Enhance,
}

/// The text that stands for a part in its project files.
pub open spec fn kind_text(m: Module) -> Seq<char> {
    match m {
        Module::Video => KIND_VIDEO@,
        Module::Dehaze => KIND_DEHAZE@,
        Module::Stack => KIND_STACK@,
        Module::Movie => KIND_MOVIE@,
        Module::Enhance => KIND_ENHANCE@,
    }
}

impl Module {
    /// The text that stands for the part.
    pub fn kind(self) -> (s: &'static str)
        ensures
            s@ == kind_text(self),
    {
        match self {
            Module::Video => KIND_VIDEO,
            Module::Dehaze => KIND_DEHAZE,
            Module::Stack => KIND_STACK,
            Module::Movie => KIND_MOVIE,
            Module::Enhance => KIND_ENHANCE,
        }
    }
}

/// A project of any part.
pub enum AnyProject<V, D, S, M, E> {
    Video(Box<V>),
    Dehaze(Box<D>),
    Stack(Box<S>),
    Movie(Box<M>),
    Enhance(Box<E>),
}

impl<V, D, S, M, E> AnyProject<V, D, S, M, E> {
    /// The part that the project belongs to.
    pub fn module(&self) -> (m: Module)
        ensures
            m is Video <==> self is Video,
            m is Dehaze <==> self is Dehaze,
            m is Stack <==> self is Stack,
            m is Movie <==> self is Movie,
            m is Enhance <==> self is Enhance,
    {
        match self {
            AnyProject::Video(_) => Module::Video,
            AnyProject::Dehaze(_) => Module::Dehaze,
            AnyProject::Stack(_) => Module::Stack,
            AnyProject::Movie(_) => Module::Movie,
            AnyProject::Enhance(_) => Module::Enhance,
        }
    }
}

/// The part that a project file belongs to, by the text that it gives for it. A file that gives
/// none, or one that stands for nothing, is a video project.
pub open spec fn module_of(kind: Option<Seq<char>>) -> Module {
    match kind {
        None => Module::Video,
        Some(k) => if k == KIND_DEHAZE@ {
            Module::Dehaze
        } else if k == KIND_STACK@ {
            Module::Stack
        } else if k == KIND_MOVIE@ {
            Module::Movie
        } else if k == KIND_ENHANCE@ {
            Module::Enhance
        } else {
            Module::Video
        },
    }
}

/// The part that a project file belongs to (see [`module_of`]).
pub fn module_named(kind: &Option<String>) -> (m: Module)
    ensures
        m == module_of(
            match *kind {
                Some(k) => Some(k@),
                None => None,
            },
        ),
{
    match kind {
        None => Module::Video,
        Some(k) => if same(k.as_str(), KIND_DEHAZE) {
            Module::Dehaze
        } else if same(k.as_str(), KIND_STACK) {
            Module::Stack
        } else if same(k.as_str(), KIND_MOVIE) {
            Module::Movie
        } else if same(k.as_str(), KIND_ENHANCE) {
            Module::Enhance
        } else {
            Module::Video
        },
    }
}

/// Every part is found again by the text that stands for it.
pub proof fn law_kind_round_trip(m: Module)
    ensures
        module_of(Some(kind_text(m))) == m,
{
    reveal_strlit("video");
    reveal_strlit("dehaze");
    reveal_strlit("stack");
    reveal_strlit("movie");
    reveal_strlit("enhance");
    assert(KIND_VIDEO@.len() == 5);
    assert(KIND_DEHAZE@.len() == 6);
    assert(KIND_STACK@.len() == 5);
    assert(KIND_MOVIE@.len() == 5);
    assert(KIND_ENHANCE@.len() == 7);
    assert(KIND_VIDEO@[0] == 'v');
    assert(KIND_STACK@[0] == 's');
    assert(KIND_MOVIE@[0] == 'm');
}

/// The text without a byte order mark at its start.
pub open spec fn unmarked(s: Seq<char>) -> Seq<char> {
    if s.len() > 0 && s[0] == '\u{feff}' {
        s.subrange(1, s.len() as int)
    } else {
        s
    }
}

/// The text without a byte order mark at its start.
pub fn without_mark(txt: &str) -> (s: String)
    ensures
        s@ == unmarked(txt@),
{
    let v = chars_of(txt);
    if v.len() > 0 && v[0] == '\u{feff}' {
        text_of(&v, 1, v.len())
    } else {
        assert(v@.subrange(0, v@.len() as int) =~= v@);
        text_of(&v, 0, v.len())
    }
}

/// What the text `txt` in JSON holds under `key`: an error where it is not JSON, `None` where it is
/// not an object, has no such key, or holds something other than text there.
pub uninterp spec fn json_text(txt: Seq<char>, key: Seq<char>) -> Result<
    Option<Seq<char>>,
    Seq<char>,
>;

/// Reads a text with `serde_json::from_str` into a `serde_json::Value` and looks up one text with
/// `Value::get` and `Value::as_str`. What comes out depends on the text and the key alone; which
/// texts are accepted, and the words of an error, are left to `serde_json`.
#[verifier::external_body]
fn read_text(txt: &str, key: &str) -> (r: Result<Option<String>, String>)
    ensures
        match r {
            Ok(Some(s)) => json_text(txt@, key@) == Ok::<Option<Seq<char>>, Seq<char>>(Some(s@)),
            Ok(None) => json_text(txt@, key@) == Ok::<Option<Seq<char>>, Seq<char>>(None),
            Err(e) => json_text(txt@, key@) == Err::<Option<Seq<char>>, Seq<char>>(e@),
        },
{
    match serde_json::from_str::<serde_json::Value>(txt) {
        Ok(v) => Ok(v.get(key).and_then(|s| s.as_str()).map(|s| s.to_owned())),
        Err(e) => Err(e.to_string()),
    }
}

/// The part that a project file belongs to, or why its content cannot be a project.
pub fn parse(txt: &str) -> (r: Result<Module, String>)
    ensures
        match json_text(unmarked(txt@), "module"@) {
            Ok(kind) => r == Ok::<Module, String>(module_of(kind)),
            Err(e) => r matches Err(t) && t@ == "內容不是有效的專案檔："@ + e,
        },
{
    let plain = without_mark(txt);
    match read_text(plain.as_str(), "module") {
        Ok(kind) => Ok(module_named(&kind)),
        Err(e) => Err(join2("內容不是有效的專案檔：", e.as_str())),
    }
}

/// The message for a project whose fields cannot be read.
pub fn unreadable_project(why: &str) -> (s: String)
    ensures
        s@ == "專案內容讀不起來："@ + why@,
{
    join2("專案內容讀不起來：", why)
}

/// A name with a time stamp behind it.
pub open spec fn stamped(name: Seq<char>, stamp: Option<Seq<char>>) -> Seq<char> {
    let name = crate::text::trimmed(name);
    match stamp {
        Some(s) => if name.len() == 0 {
            s
        } else {
            name + "-"@ + s
        },
        None => name,
    }
}

/// A name, without white space round it, with a time stamp behind it where there is one.
pub fn with_stamp(name: &str, stamp: Option<&str>) -> (r: String)
    ensures
        r@ == stamped(
            name@,
            match stamp {
                Some(s) => Some(s@),
                None => None,
            },
        ),
{
    let name = trim(name);
    let chars = chars_of(name.as_str());
    match stamp {
        Some(s) => if chars.len() == 0 {
            s.to_owned()
        } else {
            join3(name.as_str(), "-", s)
        },
        None => name,
    }
}

/// The name of a file that is saved alone, with the time of saving as its stamp.
pub fn file_stem(prefix: &str, now: Option<&str>) -> (r: String)
    ensures
        r@ == stamped(
            prefix@,
            match now {
                Some(s) => Some(s@),
                None => None,
            },
        ),
{
    with_stamp(prefix, now)
}

/// A decimal digit.
pub open spec fn is_digit(c: char) -> bool {
    '0' <= c <= '9'
}

/// Eight digits for the day, a dash, and four digits for the time.
pub open spec fn is_stamp(s: Seq<char>) -> bool {
    &&& s.len() == 13
    &&& forall|i: int| 0 <= i < 13 && i != 8 ==> is_digit(#[trigger] s[i])
    &&& s[8] == '-'
}

/// A text that ends in a dash and a stamp.
pub open spec fn has_stamp(s: Seq<char>) -> bool {
    &&& s.len() >= 14
    &&& s[s.len() - 14] == '-'
    &&& is_stamp(s.subrange(s.len() - 13, s.len() as int))
}

/// The text without dashes at its end.
pub open spec fn undashed(s: Seq<char>) -> Seq<char>
    decreases s.len(),
{
    if s.len() > 0 && s.last() == '-' {
        undashed(s.drop_last())
    } else {
        s
    }
}

/// The name without its stamp.
pub open spec fn unstamped(s: Seq<char>) -> Seq<char> {
    if has_stamp(s) {
        undashed(s.subrange(0, s.len() - 14))
    } else {
        s
    }
}

/// Takes the time stamp off a name that has one, with the dashes before it; any other name stays
/// as it is.
pub fn strip_stamp(stem: &str) -> (r: String)
    ensures
        r@ == unstamped(stem@),
{
    let v = chars_of(stem);
    let n: usize = v.len();
    if n < 14 {
        assert(v@.subrange(0, n as int) =~= v@);
        return text_of(&v, 0, n);
    }
    let cut: usize = n - 14;
    let ghost tail = v@.subrange(n - 13, n as int);
    let mut ok = v[cut] == '-';
    let mut i: usize = 0;
    while i < 13
        invariant
            i <= 13,
            n == v@.len(),
            n >= 14,
            cut == n - 14,
            tail == v@.subrange(n - 13, n as int),
            ok ==> v@[cut as int] == '-',
            ok ==> forall|k: int| 0 <= k < i && k != 8 ==> is_digit(#[trigger] tail[k]),
            ok && i > 8 ==> tail[8] == '-',
            !ok ==> !has_stamp(v@),
        decreases 13 - i,
    {
        let c = v[cut + 1 + i];
        assert(tail[i as int] == c);
        let good = if i == 8 {
            c == '-'
        } else {
            '0' <= c && c <= '9'
        };
        if !good {
            ok = false;
        }
        i += 1;
    }
    if !ok {
        assert(v@.subrange(0, n as int) =~= v@);
        return text_of(&v, 0, n);
    }
    assert(has_stamp(v@));
    let mut to: usize = cut;
    while to > 0 && v[to - 1] == '-'
        invariant
            to <= cut < v@.len(),
            undashed(v@.subrange(0, to as int)) == undashed(v@.subrange(0, cut as int)),
        decreases to,
    {
        proof {
            let t = v@.subrange(0, to as int);
            assert(t.drop_last() =~= v@.subrange(0, to - 1));
        }
        to -= 1;
    }
    text_of(&v, 0, to)
}

/// A stamp that was put on comes off again: what is left is the name without white space round it
/// and without dashes at its end.
pub proof fn law_stamp_comes_off(name: Seq<char>, stamp: Seq<char>)
    requires
        is_stamp(stamp),
        crate::text::trimmed(name).len() > 0,
    ensures
        unstamped(stamped(name, Some(stamp))) == undashed(crate::text::trimmed(name)),
{
    let t = crate::text::trimmed(name);
    let s = stamped(name, Some(stamp));
    reveal_strlit("-");
    assert(s.len() == t.len() + 14);
    assert(s.subrange(s.len() - 13, s.len() as int) =~= stamp);
    assert(s.subrange(0, s.len() - 14) =~= t);
}

/// The key under which the name of a part's last project is remembered.
pub fn name_key(kind: &str) -> (s: String)
    ensures
        s@ == "project_name_"@ + kind@,
{
    join2("project_name_", kind)
}

/// The remembered name where there is one that is not blank, else the fallback.
pub open spec fn name_or(saved: Option<Seq<char>>, fallback: Seq<char>) -> Seq<char> {
    match saved {
        Some(s) => if crate::text::trimmed(s).len() > 0 {
            crate::text::trimmed(s)
        } else {
            fallback
        },
        None => fallback,
    }
}

/// The name for a part's next project, from what the settings remember of the last one.
pub fn saved_name(saved: Option<&str>, fallback: &str) -> (r: String)
    ensures
        r@ == name_or(
            match saved {
                Some(s) => Some(s@),
                None => None,
            },
            fallback@,
        ),
{
    match saved {
        Some(s) => {
            let t = trim(s);
            let chars = chars_of(t.as_str());
            if chars.len() > 0 {
                t
            } else {
                fallback.to_owned()
            }
        },
        None => fallback.to_owned(),
    }
}

/// What is to be remembered of a project's name: nothing of a blank one.
pub fn remember_name(kind: &str, name: &str) -> (r: Option<(String, String)>)
    ensures
        r is Some <==> crate::text::trimmed(name@).len() > 0,
        r matches Some(kv) ==> kv.0@ == "project_name_"@ + kind@ && kv.1@ == crate::text::trimmed(
            name@,
        ),
{
    let t = trim(name);
    let chars = chars_of(t.as_str());
    if chars.len() == 0 {
        None
    } else {
        Some((name_key(kind), t))
    }
}

/// A remembered name is the one that comes back.
pub proof fn law_name_is_remembered(name: Seq<char>, fallback: Seq<char>)
    requires
        crate::text::trimmed(name).len() > 0,
    ensures
        name_or(Some(crate::text::trimmed(name)), fallback) == crate::text::trimmed(name),
{
    crate::text::law_trim_idempotent(name);
}

/// The folders that a project may be kept in: below the photos' own folder.
pub struct Folders {
    /// The photos' own folder.
    pub parent: PathName,
    /// The folder for projects in it.
    pub root: PathName,
    /// The folder for the projects of one part in that.
    pub dir: PathName,
}

/// The folders for the projects of part `sub` beside the file `src`. There are none without a file
/// that has a folder.
pub fn folders(src: Option<&PathName>, sub: &str) -> (r: Option<Folders>)
    ensures
        r is Some <==> (src matches Some(p) && p@.names.len() > 0 && (p@.names.len() > 1
            || p@.root.len() > 0)),
        r matches Some(f) ==> {
            let parent = crate::path::Place {
                root: src->Some_0@.root,
                names: src->Some_0@.names.drop_last(),
            };
            &&& f.parent@ == parent
            &&& f.root@ == parent.join(PROJECT_DIR@)
            &&& f.dir@ == if sub@.len() == 0 {
                parent.join(PROJECT_DIR@)
            } else {
                parent.join(PROJECT_DIR@).join(sub@)
            }
        },
{
    match src {
        None => None,
        Some(p) => {
            let n: usize = p.names.len();
            let drive = chars_of(p.root.as_str());
            if n == 0 || (n == 1 && drive.len() == 0) {
                return None;
            }
            let mut parent = p.copy();
            parent.names.pop();
            assert(parent@.names =~= p@.names.drop_last());
            let root = parent.join(PROJECT_DIR);
            let wanted = chars_of(sub);
            let dir = if wanted.len() == 0 {
                root.copy()
            } else {
                root.join(sub)
            };
            Some(Folders { parent, root, dir })
        },
    }
}

/// What is known of the folders.
pub struct FolderFacts {
    pub dir_there: bool,
    pub root_there: bool,
    /// Whether `dir` could be made; only asked for where it is missing and to be made.
    pub made: bool,
}

/// The folder that a project is saved to or opened from. For saving, a missing folder is made, and
/// where that fails the photos' own folder is taken. For opening, the folder for all projects stands
/// in for a missing one.
pub fn project_dir(f: Folders, facts: &FolderFacts, create: bool) -> (r: Option<PathName>)
    ensures
        facts.dir_there ==> (r matches Some(p) && p@ == f.dir@),
        !facts.dir_there && create && facts.made ==> (r matches Some(p) && p@ == f.dir@),
        !facts.dir_there && create && !facts.made ==> (r matches Some(p) && p@ == f.parent@),
        !facts.dir_there && !create && facts.root_there ==> (r matches Some(p) && p@ == f.root@),
        !facts.dir_there && !create && !facts.root_there ==> r is None,
        create ==> r is Some,
{
    if facts.dir_there {
        Some(f.dir)
    } else if !create {
        if facts.root_there {
            Some(f.root)
        } else {
            None
        }
    } else if facts.made {
        Some(f.dir)
    } else {
        Some(f.parent)
    }
}

/// A project of the smoke remover. `G` is a grade and `C` a choice of aspect for cropping.
pub struct DehazeProject<G, C> {
    pub version: u32,
    pub module: String,
    pub app_version: String,
    pub photos: Vec<PathName>,
    pub cur: usize,
    pub params: SmokeParams,
    /// Photos with settings of their own.
    pub overrides: Vec<(PathName, SmokeParams)>,
    pub finish: Finish<G>,
    pub finish_overrides: Vec<(PathName, Finish<G>)>,
    pub wipes: Vec<(PathName, Vec<Wipe>)>,
    /// What was found from the photos themselves.
    pub auto: Vec<(PathName, AutoParams)>,
    pub auto_on: bool,
    pub per_photo: bool,
    pub text_font: String,
    pub text_color: [u8; 4],
    pub text_outline_w: i32,
    pub text_outline_color: [u8; 4],
    pub text_boxed: bool,
    pub brush_size: i32,
    pub radial_invert: bool,
    pub object_feather: i32,
    pub object_edge: i32,
    pub wipe_size: i32,
    pub wipe_feather: i32,
    pub wipe_flow: i32,
    pub wipe_density: i32,
    pub wipe_keep: bool,
    pub crop_aspect: C,
    pub multi_sel: Vec<PathName>,
    pub sky_open: bool,
    pub grade_open: bool,
    pub text_open: bool,
    pub image_open: bool,
    pub wipe_open: bool,
}

impl<G, C> DehazeProject<G, C> {
    /// A new project.
    pub fn new(grade: G, crop_aspect: C) -> (p: DehazeProject<G, C>)
        ensures
            p.version == VERSION,
            p.module@ == KIND_DEHAZE@,
            p.app_version@.len() == 0,
            p.photos@.len() == 0,
            p.cur == 0,
            crate::smoke::is_default(p.params),
            p.overrides@.len() == 0,
            p.finish.grade == grade,
            p.finish.texts@.len() == 0 && p.finish.images@.len() == 0 && p.finish.wipes@.len() == 0,
            p.finish_overrides@.len() == 0,
            p.wipes@.len() == 0,
            p.auto@.len() == 0,
            p.auto_on && p.per_photo,
            p.text_font@.len() == 0,
            p.text_color@ == seq![255u8, 255, 255, 255],
            p.text_outline_w == 2,
            p.text_outline_color@ == seq![0u8, 0, 0, 255],
            !p.text_boxed,
            p.brush_size == 10,
            !p.radial_invert,
            p.object_feather == OBJECT_FEATHER && p.object_edge == 0,
            p.wipe_size == 6 && p.wipe_feather == 45 && p.wipe_flow == 100 && p.wipe_density == 100,
            p.wipe_keep,
            p.crop_aspect == crop_aspect,
            p.multi_sel@.len() == 0,
            !p.sky_open && p.grade_open && p.text_open && p.image_open && p.wipe_open,
    {
        DehazeProject {
            version: VERSION,
            module: KIND_DEHAZE.to_owned(),
            app_version: String::new(),
            photos: Vec::new(),
            cur: 0,
            params: SmokeParams::default(),
            overrides: Vec::new(),
            finish: Finish::new(grade),
            finish_overrides: Vec::new(),
            wipes: Vec::new(),
            auto: Vec::new(),
            auto_on: true,
            per_photo: true,
            text_font: String::new(),
            text_color: [255, 255, 255, 255],
            text_outline_w: 2,
            text_outline_color: [0, 0, 0, 255],
            text_boxed: false,
            brush_size: 10,
            radial_invert: false,
            object_feather: OBJECT_FEATHER,
            object_edge: 0,
            wipe_size: 6,
            wipe_feather: 45,
            wipe_flow: 100,
            wipe_density: 100,
            wipe_keep: true,
            crop_aspect,
            multi_sel: Vec::new(),
            sky_open: false,
            grade_open: true,
            text_open: true,
            image_open: true,
            wipe_open: true,
        }
    }
}

/// A project of the stacker. `G` is a grade, `T` what it applies to and `C` a choice of aspect for
/// cropping.
pub struct StackProject<G, T, C> {
    pub version: u32,
    pub module: String,
    pub app_version: String,
    pub photos: Vec<PathName>,
    /// The photo that the others are laid on.
    pub ground: usize,
    pub cur: usize,
    pub pro: bool,
    pub mode: BlendMode,
    pub blend_noted: bool,
    pub masks: Vec<(PathName, Vec<Shape>)>,
    pub mask_polarity: Vec<(PathName, bool)>,
    pub feather: i32,
    pub mask_density: i32,
    pub xforms: Vec<(PathName, Xform)>,
    pub grades: Vec<(PathName, G)>,
    pub auto_offsets: Vec<(PathName, Option<Xform>)>,
    pub auto_align: bool,
    pub protect_land: bool,
    pub grade: G,
    pub grade_target: T,
    pub grade_open: bool,
    pub crop_aspect: C,
    pub brush_size: i32,
    pub radial_invert: bool,
    pub object_feather: i32,
    pub object_edge: i32,
    pub move_ghost: bool,
    pub move_mode: bool,
    pub show_mask: bool,
}

impl<G, T, C> StackProject<G, T, C> {
    /// A new project.
    pub fn new(grade: G, grade_target: T, crop_aspect: C) -> (p: StackProject<G, T, C>)
        ensures
            p.version == VERSION,
            p.module@ == KIND_STACK@,
            p.app_version@.len() == 0,
            p.photos@.len() == 0,
            p.ground == 0 && p.cur == 0,
            !p.pro,
            p.mode == BlendMode::Lighten,
            !p.blend_noted,
            p.masks@.len() == 0 && p.mask_polarity@.len() == 0,
            p.feather == 25 && p.mask_density == 80,
            p.xforms@.len() == 0 && p.grades@.len() == 0 && p.auto_offsets@.len() == 0,
            p.auto_align && p.protect_land,
            p.grade == grade,
            p.grade_target == grade_target,
            p.grade_open,
            p.crop_aspect == crop_aspect,
            p.brush_size == 10,
            !p.radial_invert,
            p.object_feather == OBJECT_FEATHER && p.object_edge == 0,
            !p.move_ghost && !p.move_mode && !p.show_mask,
    {
        StackProject {
            version: VERSION,
            module: KIND_STACK.to_owned(),
            app_version: String::new(),
            photos: Vec::new(),
            ground: 0,
            cur: 0,
            pro: false,
            mode: BlendMode::Lighten,
            blend_noted: false,
            masks: Vec::new(),
            mask_polarity: Vec::new(),
            feather: 25,
            mask_density: 80,
            xforms: Vec::new(),
            grades: Vec::new(),
            auto_offsets: Vec::new(),
            auto_align: true,
            protect_land: true,
            grade,
            grade_target,
            grade_open: true,
            crop_aspect,
            brush_size: 10,
            radial_invert: false,
            object_feather: OBJECT_FEATHER,
            object_edge: 0,
            move_ghost: false,
            move_mode: false,
            show_mask: false,
        }
    }
}

/// A project of the photo enhancer. `P` holds its settings, `G` a grade, `A` what was found from a
/// photo and `C` a choice of aspect for cropping.
pub struct EnhanceProject<P, G, A, C> {
    pub version: u32,
    pub module: String,
    pub app_version: String,
    pub photos: Vec<PathName>,
    pub cur: usize,
    pub preset: Preset,
    pub preset_overrides: Vec<(PathName, Preset)>,
    pub auto: Vec<(PathName, Preset, A)>,
    pub auto_on: bool,
    pub auto_amount: i32,
    pub params: P,
    pub grade_overrides: Vec<(PathName, G)>,
    pub local_overrides: Vec<(PathName, Local)>,
    pub per_photo: bool,
    pub crop_aspect: C,
    pub grade_open: bool,
    pub show_mask: bool,
}

impl<P, G, A, C> EnhanceProject<P, G, A, C> {
    /// A new project, for photos of birds.
    pub fn new(params: P, crop_aspect: C) -> (p: EnhanceProject<P, G, A, C>)
        ensures
            p.version == VERSION,
            p.module@ == KIND_ENHANCE@,
            p.app_version@.len() == 0,
            p.photos@.len() == 0,
            p.cur == 0,
            p.preset == Preset::Bird,
            p.preset_overrides@.len() == 0 && p.auto@.len() == 0,
            p.auto_on,
            p.auto_amount == 100,
            p.params == params,
            p.grade_overrides@.len() == 0 && p.local_overrides@.len() == 0,
            !p.per_photo,
            p.crop_aspect == crop_aspect,
            p.grade_open,
            !p.show_mask,
    {
        EnhanceProject {
            version: VERSION,
            module: KIND_ENHANCE.to_owned(),
            app_version: String::new(),
            photos: Vec::new(),
            cur: 0,
            preset: Preset::Bird,
            preset_overrides: Vec::new(),
            auto: Vec::new(),
            auto_on: true,
            auto_amount: 100,
            params,
            grade_overrides: Vec::new(),
            local_overrides: Vec::new(),
            per_photo: false,
            crop_aspect,
            grade_open: true,
            show_mask: false,
        }
    }
}

} // verus!
