//! Taking smoke out of videos: which frames are worked on when, what the encoder is told, and how an
//! export ends.

use vstd::prelude::*;

use crate::raster::Raster;
use crate::text::{
    ascii_lower, join2, join3, join_with, replace_char, replace_with, same, to_decimal,
};

verus! {

/// What is known of a video besides its frame rate and length.
pub struct VideoInfo {
    pub w: u32,
    pub h: u32,
    /// Format of its sound, if it has any.
    pub audio: Option<String>,
}

impl VideoInfo {
    /// The longer side.
    pub fn long(&self) -> (n: u32)
        ensures
            n == crate::scale::longer(self.w as int, self.h as int),
    {
        if self.w >= self.h {
            self.w
        } else {
            self.h
        }
    }
}

/// A chain of filters: a crop, then a scale.
pub open spec fn chain(crop: Option<Seq<char>>, scale: Option<Seq<char>>) -> Option<Seq<char>> {
    match (crop, scale) {
        (Some(c), Some(s)) => Some(c + ","@ + s),
        (Some(c), None) => Some(c),
        (None, Some(s)) => Some(s),
        (None, None) => None,
    }
}

/// The text of an optional string.
pub open spec fn text(s: Option<String>) -> Option<Seq<char>> {
    match s {
        Some(t) => Some(t@),
        None => None,
    }
}

/// The text of an optional string slice.
pub open spec fn slice(s: Option<&str>) -> Option<Seq<char>> {
    match s {
        Some(t) => Some(t@),
        None => None,
    }
}

/// A chain of filters: a crop, then a scale.
pub fn vf_chain(crop: Option<&str>, scale: Option<String>) -> (r: Option<String>)
    ensures
        text(r) == chain(slice(crop), text(scale)),
{
    match (crop, scale) {
        (Some(c), Some(s)) => Some(join3(c, ",", s.as_str())),
        (Some(c), None) => Some(c.to_owned()),
        (None, Some(s)) => Some(s),
        (None, None) => None,
    }
}

/// The filter that fits a frame into a square.
pub open spec fn fit_text(m: int) -> Seq<char> {
    "scale="@ + crate::text::decimal(m) + ":"@ + crate::text::decimal(m)
        + ":force_original_aspect_ratio=decrease"@
}

/// The filter that fits a frame into a square.
pub fn fit_filter(m: u32) -> (s: String)
    ensures
        s@ == fit_text(m as int),
{
    let n = to_decimal(m as u64);
    let a = join3("scale=", n.as_str(), ":");
    join3(a.as_str(), n.as_str(), ":force_original_aspect_ratio=decrease")
}

/// The filter that scales a frame.
pub open spec fn scale_text(w: int, h: int) -> Seq<char> {
    "scale="@ + crate::text::decimal(w) + ":"@ + crate::text::decimal(h)
}

/// The filter that scales a frame.
pub fn scale_filter(w: u32, h: u32) -> (s: String)
    ensures
        s@ == scale_text(w as int, h as int),
{
    let a = to_decimal(w as u64);
    let b = to_decimal(h as u64);
    let c = join2("scale=", a.as_str());
    join3(c.as_str(), ":", b.as_str())
}

/// The filters for a clip: its frame rate (as text), a crop, and a fit into a square.
pub fn clip_filter(fps: &str, crop: Option<&str>, max_long: u32) -> (s: String)
    ensures
        s@ == "fps="@ + fps@ + match crop {
            Some(c) => ","@ + c@,
            None => Seq::empty(),
        } + ","@ + fit_text(max_long as int),
{
    let mut s = join2("fps=", fps);
    if let Some(c) = crop {
        s = join3(s.as_str(), ",", c);
        assert(s@ =~= "fps="@ + fps@ + (","@ + c@));
    } else {
        assert(s@ + Seq::<char>::empty() =~= s@);
    }
    let f = fit_filter(max_long);
    join3(s.as_str(), ",", f.as_str())
}

/// The sound formats that can be kept as they are.
pub open spec fn keeps_sound(codec: Seq<char>) -> bool {
    let c = crate::text::ascii_lowered(codec);
    c == "aac"@ || c == "mp3"@ || c == "ac3"@ || c == "eac3"@ || c == "alac"@ || c == "mp2"@
}

/// What the encoder is told about sound: nothing to encode, to copy it, or to encode it anew.
pub open spec fn sound_args(audio: Option<Seq<char>>) -> Seq<Seq<char>> {
    match audio {
        None => seq!["-an"@],
        Some(codec) => if keeps_sound(codec) {
            seq!["-c:a"@, "copy"@]
        } else {
            seq!["-c:a"@, "aac"@, "-b:a"@, "192k"@]
        },
    }
}

/// The texts of a list.
pub open spec fn slices(v: Seq<&'static str>) -> Seq<Seq<char>> {
    v.map_values(|s: &'static str| s@)
}

/// What the encoder is told about sound (see [`sound_args`]).
pub fn audio_args(audio: Option<&str>) -> (v: Vec<&'static str>)
    ensures
        slices(v@) == sound_args(slice(audio)),
{
    let mut v: Vec<&'static str> = Vec::new();
    match audio {
        None => {
            v.push("-an");
            assert(slices(v@) =~= seq!["-an"@]);
        },
        Some(codec) => {
            let c = ascii_lower(codec);
            if same(c.as_str(), "aac") || same(c.as_str(), "mp3") || same(c.as_str(), "ac3")
                || same(c.as_str(), "eac3") || same(c.as_str(), "alac") || same(c.as_str(), "mp2") {
                v.push("-c:a");
                v.push("copy");
                assert(slices(v@) =~= seq!["-c:a"@, "copy"@]);
            } else {
                v.push("-c:a");
                v.push("aac");
                v.push("-b:a");
                v.push("192k");
                assert(slices(v@) =~= seq!["-c:a"@, "aac"@, "-b:a"@, "192k"@]);
            }
        },
    }
    v
}

/// How many frames are worked on at once: two for each worker, fewer where they would take more
/// than a gigabyte and a half at twelve bytes a pixel, but never fewer than the workers.
pub open spec fn batch_size(workers: int, w: int, h: int) -> int {
    let n = crate::scale::at_least(workers, 1);
    let by_mem = crate::scale::at_least(
        1_500_000_000int / (crate::scale::at_least(w * h, 1) * 12),
        1,
    );
    crate::scale::at_least(
        if 2 * n <= by_mem {
            2 * n
        } else {
            by_mem
        },
        n,
    )
}

/// A batch holds two frames for each worker, or as many as the memory for frames has room for where
/// that is fewer, but never fewer than there are workers.
pub proof fn law_batches_fill_the_memory(workers: int, w: int, h: int)
    requires
        workers >= 1,
        w >= 1,
        h >= 1,
    ensures
        ({
            let n = batch_size(workers, w, h);
            &&& workers <= n <= 2 * workers
            &&& n > workers ==> n * (w * h * 12) <= 1_500_000_000
            &&& n < 2 * workers ==> (n + 1) * (w * h * 12) > 1_500_000_000
        }),
{
    let area = w * h;
    assert(area >= 1) by (nonlinear_arith)
        requires
            area == w * h,
            w >= 1,
            h >= 1,
    ;
    let d = area * 12;
    let q = 1_500_000_000int / d;
    assert(q * d <= 1_500_000_000 < (q + 1) * d && q >= 0) by (nonlinear_arith)
        requires
            d >= 12,
            q == 1_500_000_000int / d,
    ;
    let n = batch_size(workers, w, h);
    if n > workers {
        assert(n * d <= 1_500_000_000) by (nonlinear_arith)
            requires
                n <= q || n <= 1,
                q * d <= 1_500_000_000,
                n >= 2,
                d >= 12,
        ;
    }
    if n < 2 * workers {
        assert((n + 1) * d > 1_500_000_000) by (nonlinear_arith)
            requires
                n >= q,
                (q + 1) * d > 1_500_000_000,
                d >= 12,
        ;
    }
}

/// How many frames are worked on at once (see [`batch_size`]).
pub fn batch_frames(workers: usize, w: u32, h: u32) -> (n: usize)
    requires
        2 * workers <= usize::MAX,
        w * h * 12 <= u64::MAX,
    ensures
        n == batch_size(workers as int, w as int, h as int),
        n >= 1,
{
    let workers: usize = if workers >= 1 {
        workers
    } else {
        1
    };
    assert(w as u64 * h as u64 >= 0) by (nonlinear_arith);
    let area: u64 = w as u64 * h as u64;
    let px: u64 = if area >= 1 {
        area
    } else {
        1
    };
    let share: u64 = 1_500_000_000u64 / (px * 12);
    let by_mem: usize = if share >= 1 {
        share as usize
    } else {
        1
    };
    let two: usize = workers * 2;
    let few: usize = if two <= by_mem {
        two
    } else {
        by_mem
    };
    if few >= workers {
        few
    } else {
        workers
    }
}

/// A frame from its bytes. There must be at least three for each pixel; more are ignored.
pub fn to_image(w: u32, h: u32, data: Vec<u8>) -> (r: Result<Raster, &'static str>)
    ensures
        r is Ok <==> w * h * 3 <= data@.len(),
        r matches Ok(img) ==> img@.wf() && img@.w == w && img@.h == h && img@.d
            == data@.subrange(0, w * h * 3),
        r matches Err(e) ==> e@ == "影格資料長度不對"@,
{
    let mut data = data;
    let n: usize = data.len();
    assert(w as u128 * h as u128 * 3 <= 0xffff_ffff * 0xffff_ffff * 3) by (nonlinear_arith)
        requires
            0 <= w <= 0xffff_ffff,
            0 <= h <= 0xffff_ffff,
    ;
    assert(0 <= w as u128 * h as u128 <= 0xffff_ffff * 0xffff_ffff) by (nonlinear_arith)
        requires
            0 <= w <= 0xffff_ffff,
            0 <= h <= 0xffff_ffff,
    ;
    let need: u128 = w as u128 * h as u128 * 3;
    if need > n as u128 {
        return Err("影格資料長度不對");
    }
    data.truncate(need as usize);
    Ok(Raster { w: w as usize, h: h as usize, d: data })
}

/// What the encoder is told of the frames that are handed to it.
pub open spec fn input_args(w: int, h: int, fps: Seq<char>) -> Seq<Seq<char>> {
    seq![
        "-f"@,
        "rawvideo"@,
        "-pix_fmt"@,
        "rgb24"@,
        "-s"@,
        crate::text::decimal(w) + "x"@ + crate::text::decimal(h),
        "-r"@,
        fps,
        "-i"@,
        "pipe:0"@,
    ]
}

/// What the encoder is told of the frames that are handed to it; the frame rate is given as text.
pub fn encoder_input(w: u32, h: u32, fps: &str) -> (v: Vec<String>)
    ensures
        crate::path::names(v@) == input_args(w as int, h as int, fps@),
{
    let a = to_decimal(w as u64);
    let b = to_decimal(h as u64);
    let mut v: Vec<String> = Vec::new();
    v.push("-f".to_owned());
    v.push("rawvideo".to_owned());
    v.push("-pix_fmt".to_owned());
    v.push("rgb24".to_owned());
    v.push("-s".to_owned());
    v.push(join3(a.as_str(), "x", b.as_str()));
    v.push("-r".to_owned());
    v.push(fps.to_owned());
    v.push("-i".to_owned());
    v.push("pipe:0".to_owned());
    assert(crate::path::names(v@) =~= input_args(w as int, h as int, fps@));
    v
}

/// What the encoder is told of the video it makes: the picture, with even sides, and the sound of the
/// video that the frames came from, for no longer than the picture.
pub open spec fn output_args(audio: Option<Seq<char>>, codec: Seq<Seq<char>>) -> Seq<Seq<char>> {
    seq!["-map"@, "0:v:0"@] + (if audio is Some {
        seq!["-map"@, "1:a:0?"@]
    } else {
        Seq::empty()
    }) + seq!["-vf"@, "scale=trunc(iw/2)*2:trunc(ih/2)*2"@, "-pix_fmt"@, "yuv420p"@] + codec
        + sound_args(audio) + (if audio is Some {
        seq!["-shortest"@]
    } else {
        Seq::empty()
    })
}

/// What the encoder is told of the video it makes (see [`output_args`]).
pub fn encoder_output(audio: Option<&str>, codec: &Vec<String>) -> (v: Vec<String>)
    ensures
        crate::path::names(v@) == output_args(slice(audio), crate::path::names(codec@)),
{
    let ghost c = crate::path::names(codec@);
    let mut v: Vec<String> = Vec::new();
    v.push("-map".to_owned());
    v.push("0:v:0".to_owned());
    assert(crate::path::names(v@) =~= seq!["-map"@, "0:v:0"@]);
    let ghost a0 = crate::path::names(v@);
    let ghost m = if audio is Some {
        seq!["-map"@, "1:a:0?"@]
    } else {
        Seq::empty()
    };
    if audio.is_some() {
        v.push("-map".to_owned());
        v.push("1:a:0?".to_owned());
    }
    assert(crate::path::names(v@) =~= a0 + m);
    v.push("-vf".to_owned());
    v.push("scale=trunc(iw/2)*2:trunc(ih/2)*2".to_owned());
    v.push("-pix_fmt".to_owned());
    v.push("yuv420p".to_owned());
    let ghost a1 = a0 + m + seq![
        "-vf"@,
        "scale=trunc(iw/2)*2:trunc(ih/2)*2"@,
        "-pix_fmt"@,
        "yuv420p"@,
    ];
    assert(crate::path::names(v@) =~= a1);
    let mut i: usize = 0;
    assert(c.subrange(0, 0) =~= Seq::<Seq<char>>::empty());
    assert(a1 + Seq::<Seq<char>>::empty() =~= a1);
    while i < codec.len()
        invariant
            i <= codec@.len(),
            c == crate::path::names(codec@),
            crate::path::names(v@) == a1 + c.subrange(0, i as int),
        decreases codec@.len() - i,
    {
        let ghost before = crate::path::names(v@);
        v.push(codec[i].clone());
        assert(crate::path::names(v@) =~= before.push(c[i as int]));
        assert(c.subrange(0, i + 1) =~= c.subrange(0, i as int).push(c[i as int]));
        assert(before.push(c[i as int]) =~= a1 + c.subrange(0, i + 1));
        i += 1;
    }
    assert(c.subrange(0, codec@.len() as int) =~= c);
    let sound = audio_args(audio);
    let ghost s = slices(sound@);
    let ghost a2 = a1 + c;
    let mut j: usize = 0;
    assert(a2 + s.subrange(0, 0) =~= a2);
    while j < sound.len()
        invariant
            j <= sound@.len(),
            s == slices(sound@),
            crate::path::names(v@) == a2 + s.subrange(0, j as int),
        decreases sound@.len() - j,
    {
        let ghost before = crate::path::names(v@);
        v.push(sound[j].to_owned());
        assert(crate::path::names(v@) =~= before.push(s[j as int]));
        assert(s.subrange(0, j + 1) =~= s.subrange(0, j as int).push(s[j as int]));
        assert(before.push(s[j as int]) =~= a2 + s.subrange(0, j + 1));
        j += 1;
    }
    assert(s.subrange(0, sound@.len() as int) =~= s);
    let ghost a3 = crate::path::names(v@);
    if audio.is_some() {
        v.push("-shortest".to_owned());
        assert(crate::path::names(v@) =~= a3 + seq!["-shortest"@]);
    } else {
        assert(a3 =~= a3 + Seq::<Seq<char>>::empty());
    }
    v
}

/// The text of a concatenation list: one line for each part, with quotes and backslashes made safe.
pub open spec fn concat_text(parts: Seq<Seq<char>>) -> Seq<char>
    decreases parts.len(),
{
    if parts.len() == 0 {
        Seq::empty()
    } else {
        concat_text(parts.drop_last()) + "file '"@ + crate::text::with_text(
            crate::text::with_char(parts.last(), '\\', '/'),
            '\'',
            "'\\''"@,
        ) + "'\n"@
    }
}

/// The text of a concatenation list (see [`concat_text`]), or a message where there is nothing to
/// join.
pub fn concat_list(parts: &Vec<String>) -> (r: Result<String, &'static str>)
    ensures
        r is Ok <==> parts@.len() > 0,
        r matches Ok(s) ==> s@ == concat_text(crate::path::names(parts@)),
        r matches Err(e) ==> e@ == "沒有可以合併的片段"@,
{
    if parts.len() == 0 {
        return Err("沒有可以合併的片段");
    }
    let ghost all = crate::path::names(parts@);
    let mut s = String::new();
    let mut i: usize = 0;
    assert(all.subrange(0, 0) =~= Seq::<Seq<char>>::empty());
    while i < parts.len()
        invariant
            i <= parts@.len(),
            all == crate::path::names(parts@),
            s@ == concat_text(all.subrange(0, i as int)),
        decreases parts@.len() - i,
    {
        proof {
            let part = all.subrange(0, i + 1);
            assert(part.drop_last() =~= all.subrange(0, i as int));
            assert(part.last() == parts@[i as int]@);
        }
        let flat = replace_char(parts[i].as_str(), '\\', '/');
        let safe = replace_with(flat.as_str(), '\'', "'\\''");
        s.append("file '");
        s.append(safe.as_str());
        s.append("'\n");
        i += 1;
    }
    assert(all.subrange(0, i as int) =~= all);
    Ok(s)
}

/// The messages of a failed run, one a line, or `otherwise` where there are none.
pub open spec fn report(errs: Seq<Seq<char>>, otherwise: Seq<char>) -> Seq<char> {
    if errs.len() == 0 {
        otherwise
    } else {
        crate::text::joined(errs, "\n"@)
    }
}

/// The messages of a failed run (see [`report`]).
pub fn complain(errs: &Vec<String>, otherwise: &str) -> (s: String)
    ensures
        s@ == report(crate::path::names(errs@), otherwise@),
{
    if errs.len() == 0 {
        otherwise.to_owned()
    } else {
        join_with(errs, "\n")
    }
}

/// How the joining of parts ended: it succeeded if the run did and left a file.
pub fn concat_outcome(ok: bool, there: bool, errs: &Vec<String>) -> (r: Result<(), String>)
    ensures
        r is Ok <==> ok && there,
        r matches Err(e) ==> e@ == report(crate::path::names(errs@), "合併失敗"@),
{
    if ok && there {
        Ok(())
    } else {
        Err(complain(errs, "合併失敗"))
    }
}

/// The segment that frame times fall in: the last one that has started, or the first where none has.
pub open spec fn last_started(started: Seq<bool>) -> int
    decreases started.len(),
{
    if started.len() == 0 {
        0
    } else if started.last() {
        started.len() - 1
    } else {
        last_started(started.drop_last())
    }
}

/// The segment that a time falls in (see [`last_started`]).
pub fn seg_at(started: &Vec<bool>) -> (k: usize)
    ensures
        k == last_started(started@),
        started@.len() > 0 ==> k < started@.len(),
{
    let mut n: usize = started.len();
    assert(started@.subrange(0, n as int) =~= started@);
    while n > 0
        invariant
            n <= started@.len(),
            last_started(started@.subrange(0, n as int)) == last_started(started@),
        decreases n,
    {
        let ghost front = started@.subrange(0, n as int);
        if started[n - 1] {
            return n - 1;
        }
        assert(front.drop_last() =~= started@.subrange(0, n - 1));
        n -= 1;
    }
    0
}

/// Time goes forward through the segments: when more of them have started, the segment is the same
/// or a later one.
pub proof fn law_segments_go_forward(a: Seq<bool>, b: Seq<bool>)
    requires
        a.len() == b.len(),
        forall|i: int| 0 <= i < a.len() && #[trigger] a[i] ==> b[i],
    ensures
        last_started(a) <= last_started(b),
    decreases a.len(),
{
    if a.len() > 0 {
        if b.last() {
            lemma_last_started(a);
        } else {
            assert(!a[a.len() - 1]);
            assert forall|i: int| 0 <= i < a.drop_last().len() && #[trigger] a.drop_last()[i] implies
                b.drop_last()[i] by {
                assert(a[i]);
            }
            law_segments_go_forward(a.drop_last(), b.drop_last());
        }
    }
}

proof fn lemma_last_started(s: Seq<bool>)
    ensures
        0 <= last_started(s),
        s.len() > 0 ==> last_started(s) < s.len(),
    decreases s.len(),
{
    if s.len() > 0 {
        lemma_last_started(s.drop_last());
    }
}

/// Where the smoke of a frame comes from.
#[derive(Clone, Copy, PartialEq, Eq, Structural, Debug)]
pub enum Source {
    /// It is worked out for the frame itself.
    Exact,
    /// It is mixed from two other frames, `0` before and `1` after.
    Between(usize, usize),
}

/// The frame at or before `i` that others lean on.
pub open spec fn anchor_of(i: int, stride: int) -> int {
    i - i % stride
}

/// The two frames that frame `i` of `n` can lean on. There are none for a frame that others lean
/// on, nor for one without a frame to lean on after it.
pub open spec fn span_of(i: int, n: int, stride: int) -> Option<(int, int)> {
    let a = anchor_of(i, stride);
    if a == i || a + stride >= n {
        None
    } else {
        Some((a, a + stride))
    }
}

/// The two frames that frame `i` of `n` can lean on (see [`span_of`]).
pub fn span(i: usize, n: usize, stride: usize) -> (r: Option<(usize, usize)>)
    requires
        i < n,
        stride >= 1,
    ensures
        match r {
            None => span_of(i as int, n as int, stride as int) is None,
            Some(ab) => span_of(i as int, n as int, stride as int) == Some(
                (ab.0 as int, ab.1 as int),
            ),
        },
        r matches Some(ab) ==> ab.0 < i < ab.1 < n,
{
    proof {
        lemma_anchor(i as int, stride as int);
    }
    let a: usize = i - i % stride;
    if a == i || stride >= n - a {
        None
    } else {
        Some((a, a + stride))
    }
}

/// Where the smoke of frame `i` comes from; `fresh` marks frames too different from those around
/// them to be mixed.
pub open spec fn source_of(i: int, stride: int, fresh: Seq<bool>) -> Source {
    match span_of(i, fresh.len() as int, stride) {
        Some(ab) => if fresh[i] {
            Source::Exact
        } else {
            Source::Between(ab.0 as usize, ab.1 as usize)
        },
        None => Source::Exact,
    }
}

/// Where the smoke of every frame comes from. A stride of 0 counts as 1. Frames that others lean on
/// are worked out for themselves, so that what is mixed is always there.
pub fn frame_plan(fresh: &Vec<bool>, stride: usize) -> (plan: Vec<Source>)
    ensures
        plan@.len() == fresh@.len(),
        forall|i: int|
            0 <= i < plan@.len() ==> #[trigger] plan@[i] == source_of(
                i,
                crate::scale::at_least(stride as int, 1),
                fresh@,
            ),
        forall|i: int|
            0 <= i < plan@.len() ==> (#[trigger] plan@[i] matches Source::Between(a, b) ==> a < i
                < b < plan@.len() && plan@[a as int] is Exact && plan@[b as int] is Exact),
{
    let stride: usize = if stride >= 1 {
        stride
    } else {
        1
    };
    let n: usize = fresh.len();
    let mut plan: Vec<Source> = Vec::new();
    let mut i: usize = 0;
    while i < n
        invariant
            i <= n == fresh@.len(),
            stride >= 1,
            plan@.len() == i,
            forall|k: int|
                0 <= k < i ==> #[trigger] plan@[k] == source_of(k, stride as int, fresh@),
        decreases n - i,
    {
        let s = match span(i, n, stride) {
            Some(ab) => if fresh[i] {
                Source::Exact
            } else {
                Source::Between(ab.0, ab.1)
            },
            None => Source::Exact,
        };
        plan.push(s);
        i += 1;
    }
    proof {
        assert forall|i: int| 0 <= i < plan@.len() implies (
        #[trigger] plan@[i] matches Source::Between(a, b) ==> a < i < b < plan@.len()
            && plan@[a as int] is Exact && plan@[b as int] is Exact) by {
            if let Source::Between(a, b) = plan@[i] {
                lemma_anchor(i, stride as int);
                assert(span_of(a as int, fresh@.len() as int, stride as int) is None);
                assert(span_of(b as int, fresh@.len() as int, stride as int) is None);
                assert(plan@[a as int] == source_of(a as int, stride as int, fresh@));
                assert(plan@[b as int] == source_of(b as int, stride as int, fresh@));
            }
        }
    }
    plan
}

proof fn lemma_anchor(i: int, stride: int)
    requires
        0 <= i,
        stride >= 1,
    ensures
        0 <= anchor_of(i, stride) <= i,
        i < anchor_of(i, stride) + stride,
        anchor_of(i, stride) % stride == 0,
        (anchor_of(i, stride) + stride) % stride == 0,
{
    let a = anchor_of(i, stride);
    vstd::arithmetic::div_mod::lemma_fundamental_div_mod(i, stride);
    vstd::arithmetic::div_mod::lemma_mod_bound(i, stride);
    let q = i / stride;
    assert(a == stride * q);
    assert(q >= 0) by (nonlinear_arith)
        requires
            q == i / stride,
            i >= 0,
            stride >= 1,
    ;
    assert(a >= 0) by (nonlinear_arith)
        requires
            a == stride * q,
            q >= 0,
            stride >= 1,
    ;
    vstd::arithmetic::div_mod::lemma_mod_multiples_basic(q, stride);
    assert(q * stride == stride * q) by (nonlinear_arith);
    assert((q + 1) * stride == stride * q + stride) by (nonlinear_arith);
    vstd::arithmetic::div_mod::lemma_mod_multiples_basic(q + 1, stride);
}

/// Segments `k0..k` whose masks are not ready.
pub open spec fn unready(ready: Seq<bool>, k0: int, k: int) -> Seq<usize>
    decreases k - k0,
{
    if k <= k0 {
        Seq::empty()
    } else if ready[k - 1] {
        unready(ready, k0, k - 1)
    } else {
        unready(ready, k0, k - 1).push((k - 1) as usize)
    }
}

/// Marks segments `k0` to `k1` as ready, and lists those that were not.
pub fn make_ready(ready: &mut Vec<bool>, k0: usize, k1: usize) -> (todo: Vec<usize>)
    requires
        k0 <= k1 < old(ready)@.len(),
    ensures
        todo@ == unready(old(ready)@, k0 as int, k1 + 1),
        final(ready)@.len() == old(ready)@.len(),
        forall|k: int|
            0 <= k < old(ready)@.len() ==> #[trigger] final(ready)@[k] == (old(ready)@[k] || k0 <= k
                <= k1),
{
    let ghost before = ready@;
    let mut todo: Vec<usize> = Vec::new();
    let n: usize = ready.len();
    let end: usize = k1 + 1;
    let mut k: usize = k0;
    while k < end
        invariant
            k0 <= k <= end <= before.len(),
            ready@.len() == before.len(),
            todo@ == unready(before, k0 as int, k as int),
            forall|j: int|
                0 <= j < before.len() ==> #[trigger] ready@[j] == (before[j] || k0 <= j < k),
        decreases end - k,
    {
        let was = ready[k];
        if !was {
            todo.push(k);
            ready.set(k, true);
        }
        k += 1;
    }
    todo
}

/// What an export does next.
#[derive(Clone, Copy, PartialEq, Eq, Structural, Debug)]
pub enum Phase {
    /// Ask whether it was called off.
    Check,
    /// Take the next thing from the decoder.
    Fill,
    /// Start the encoder.
    Start,
    /// Take the smoke out of the batch.
    Work,
    /// Hand the batch to the encoder.
    Write,
    /// End.
    Over,
}

/// An export: frames are taken from a decoder in batches, worked on and handed to an encoder.
pub struct Export {
    workers: usize,
    phase: Phase,
    batch_size: usize,
    dims: Option<(u32, u32)>,
    encoder: bool,
    batch: usize,
    done: u64,
    read: u64,
    eof: bool,
    aborted: bool,
    failed: Option<String>,
    errs: Vec<String>,
}

/// An export as mathematics sees it.
#[verifier::ext_equal]
pub struct Exporting {
    pub workers: int,
    pub phase: Phase,
    /// Frames in a full batch.
    pub batch_size: int,
    /// Size of the frames, once there was one.
    pub dims: Option<(int, int)>,
    /// The encoder runs.
    pub encoder: bool,
    /// Frames in the batch so far.
    pub batch: int,
    /// Frames handed to the encoder.
    pub done: int,
    /// Frames taken from the decoder.
    pub read: int,
    /// The decoder has ended.
    pub eof: bool,
    pub aborted: bool,
    pub failed: Option<Seq<char>>,
    /// What the decoder complained of.
    pub errs: Seq<Seq<char>>,
}

impl Exporting {
    /// Every frame that was taken is in the batch or with the encoder; there is an encoder exactly
    /// when there were frames; only a broken off export ends with frames left over.
    pub open spec fn wf(self) -> bool {
        &&& self.batch_size >= 1
        &&& 0 <= self.batch <= self.batch_size
        &&& 0 <= self.done
        &&& self.read == self.done + self.batch
        &&& self.read > 0 ==> self.encoder
        &&& self.encoder ==> self.dims is Some && self.read >= 1
        &&& match self.phase {
            Phase::Check => self.batch == 0 && !self.eof,
            Phase::Fill => self.batch < self.batch_size && !self.eof,
            Phase::Start => self.dims is Some && !self.encoder && !self.eof,
            Phase::Work => self.batch > 0,
            Phase::Write => self.batch > 0,
            Phase::Over => self.aborted || self.failed is Some || self.batch == 0,
        }
        &&& self.aborted || self.failed is Some ==> self.phase is Over
    }

    /// After the question whether it was called off.
    pub open spec fn checked(self, cancel: bool) -> Exporting {
        if cancel {
            Exporting { aborted: true, phase: Phase::Over, ..self }
        } else {
            Exporting { phase: Phase::Fill, ..self }
        }
    }

    /// With one more frame in the batch.
    pub open spec fn taken(self) -> Exporting {
        Exporting {
            batch: self.batch + 1,
            read: self.read + 1,
            phase: if self.batch + 1 < self.batch_size {
                Phase::Fill
            } else {
                Phase::Work
            },
            ..self
        }
    }

    /// After a frame from the decoder. The first one tells the size of the frames, and the encoder is
    /// to be started for it.
    pub open spec fn framed(self, w: int, h: int) -> Exporting {
        if self.encoder {
            self.taken()
        } else {
            Exporting {
                dims: Some((w, h)),
                batch_size: batch_size(self.workers, w, h),
                phase: Phase::Start,
                ..self
            }
        }
    }

    /// After an attempt to start the encoder.
    pub open spec fn launched(self, e: Option<Seq<char>>) -> Exporting {
        match e {
            None => Exporting { encoder: true, ..self }.taken(),
            Some(e) => Exporting { failed: Some(e), phase: Phase::Over, ..self },
        }
    }

    /// After the decoder's end: what is in the batch is still worked on.
    pub open spec fn ended(self) -> Exporting {
        Exporting {
            eof: true,
            phase: if self.batch == 0 {
                Phase::Over
            } else {
                Phase::Work
            },
            ..self
        }
    }

    /// After the batch was worked on.
    pub open spec fn worked(self, e: Option<Seq<char>>) -> Exporting {
        match e {
            None => Exporting { phase: Phase::Write, ..self },
            Some(e) => Exporting { failed: Some(e), phase: Phase::Over, ..self },
        }
    }

    /// After the batch was handed over.
    pub open spec fn written(self, ok: bool) -> Exporting {
        if ok {
            Exporting {
                done: self.done + self.batch,
                batch: 0,
                phase: if self.eof {
                    Phase::Over
                } else {
                    Phase::Check
                },
                ..self
            }
        } else {
            Exporting { failed: Some("影片編碼中斷"@), phase: Phase::Over, ..self }
        }
    }

    /// The message that the export fails with, if it does; `enc` is how the encoder ended.
    pub open spec fn failure(self, enc: Option<(bool, Seq<Seq<char>>)>) -> Option<Seq<char>> {
        if self.aborted {
            Some(""@)
        } else if self.failed is Some {
            self.failed
        } else {
            match enc {
                Some((true, _)) => None,
                Some((false, errs)) => Some(report(errs, "影片編碼失敗"@)),
                None => Some(report(self.errs, "讀不到這支影片的畫面"@)),
            }
        }
    }
}

impl View for Export {
    type V = Exporting;

    closed spec fn view(&self) -> Exporting {
        Exporting {
            workers: self.workers as int,
            phase: self.phase,
            batch_size: self.batch_size as int,
            dims: match self.dims {
                Some(d) => Some((d.0 as int, d.1 as int)),
                None => None,
            },
            encoder: self.encoder,
            batch: self.batch as int,
            done: self.done as int,
            read: self.read as int,
            eof: self.eof,
            aborted: self.aborted,
            failed: text(self.failed),
            errs: crate::path::names(self.errs@),
        }
    }
}

impl Export {
    /// An export that has done nothing yet. One without segments cannot be.
    pub fn new(workers: usize, segments: usize) -> (r: Result<Export, &'static str>)
        ensures
            r is Ok <==> segments > 0,
            r matches Ok(x) ==> x@.wf() && x@ == (Exporting {
                workers: workers as int,
                phase: Phase::Check,
                batch_size: crate::scale::at_least(workers as int, 1),
                dims: None,
                encoder: false,
                batch: 0,
                done: 0,
                read: 0,
                eof: false,
                aborted: false,
                failed: None,
                errs: Seq::empty(),
            }),
            r matches Err(e) ==> e@ == "沒有可以套用的設定"@,
    {
        if segments == 0 {
            return Err("沒有可以套用的設定");
        }
        let x = Export {
            workers,
            phase: Phase::Check,
            batch_size: if workers >= 1 {
                workers
            } else {
                1
            },
            dims: None,
            encoder: false,
            batch: 0,
            done: 0,
            read: 0,
            eof: false,
            aborted: false,
            failed: None,
            errs: Vec::new(),
        };
        assert(crate::path::names(x.errs@) =~= Seq::empty());
        Ok(x)
    }

    /// What to do next.
    pub fn phase(&self) -> (p: Phase)
        ensures
            p == self@.phase,
    {
        self.phase
    }

    /// Number of the first frame of the batch, which is how many were handed over before it.
    pub fn done(&self) -> (n: u64)
        ensures
            n == self@.done,
    {
        self.done
    }

    /// Frames in the batch.
    pub fn batch(&self) -> (n: usize)
        ensures
            n == self@.batch,
    {
        self.batch
    }

    /// Size of the frames, once there was one.
    pub fn dims(&self) -> (d: Option<(u32, u32)>)
        ensures
            match d {
                Some(d) => self@.dims == Some((d.0 as int, d.1 as int)),
                None => self@.dims is None,
            },
    {
        self.dims
    }

    /// The decoder is to be stopped before its end.
    pub fn breaks_off(&self) -> (b: bool)
        ensures
            b == (self@.aborted || self@.failed is Some),
    {
        self.aborted || self.failed.is_some()
    }

    /// The answer to the question whether the export was called off.
    pub fn check(&mut self, cancel: bool)
        requires
            old(self)@.wf(),
            old(self)@.phase is Check,
        ensures
            final(self)@ == old(self)@.checked(cancel),
            final(self)@.wf(),
    {
        if cancel {
            self.aborted = true;
            self.phase = Phase::Over;
        } else {
            self.phase = Phase::Fill;
        }
    }

    fn take(&mut self)
        requires
            old(self)@.batch < old(self)@.batch_size,
            old(self)@.read < u64::MAX,
            old(self)@.encoder,
            old(self)@.dims is Some,
            old(self)@.read == old(self)@.done + old(self)@.batch,
            !old(self)@.eof,
            !old(self)@.aborted,
            old(self)@.failed is None,
        ensures
            final(self)@ == old(self)@.taken(),
            final(self)@.wf(),
    {
        self.batch += 1;
        self.read += 1;
        self.phase =
        if self.batch < self.batch_size {
            Phase::Fill
        } else {
            Phase::Work
        };
    }

    /// A frame from the decoder.
    pub fn frame(&mut self, w: u32, h: u32)
        requires
            old(self)@.wf(),
            old(self)@.phase is Fill,
            2 * old(self)@.workers <= usize::MAX,
            w * h * 12 <= u64::MAX,
            old(self)@.read < u64::MAX,
        ensures
            final(self)@ == old(self)@.framed(w as int, h as int),
            final(self)@.wf(),
    {
        if self.encoder {
            self.take();
        } else {
            self.dims = Some((w, h));
            self.batch_size = batch_frames(self.workers, w, h);
            self.phase = Phase::Start;
        }
    }

    /// The encoder was started, or not, with the message why.
    pub fn launch(&mut self, r: Result<(), String>)
        requires
            old(self)@.wf(),
            old(self)@.phase is Start,
            old(self)@.read < u64::MAX,
        ensures
            final(self)@ == old(self)@.launched(text(r.err())),
            final(self)@.wf(),
    {
        match r {
            Ok(_) => {
                self.encoder = true;
                self.take();
            },
            Err(e) => {
                self.failed = Some(e);
                self.phase = Phase::Over;
            },
        }
    }

    /// A complaint of the decoder.
    pub fn complaint(&mut self, m: String)
        requires
            old(self)@.wf(),
        ensures
            final(self)@ == (Exporting { errs: old(self)@.errs.push(m@), ..old(self)@ }),
            final(self)@.wf(),
    {
        let ghost before = self@;
        self.errs.push(m);
        assert(self@.errs =~= before.errs.push(m@));
    }

    /// The decoder's end.
    pub fn end(&mut self)
        requires
            old(self)@.wf(),
            old(self)@.phase is Fill,
        ensures
            final(self)@ == old(self)@.ended(),
            final(self)@.wf(),
    {
        self.eof = true;
        self.phase =
        if self.batch == 0 {
            Phase::Over
        } else {
            Phase::Work
        };
    }

    /// The batch was worked on, or not, with the message why.
    pub fn work(&mut self, r: Result<(), String>)
        requires
            old(self)@.wf(),
            old(self)@.phase is Work,
        ensures
            final(self)@ == old(self)@.worked(text(r.err())),
            final(self)@.wf(),
    {
        match r {
            Ok(_) => {
                self.phase = Phase::Write;
            },
            Err(e) => {
                self.failed = Some(e);
                self.phase = Phase::Over;
            },
        }
    }

    /// The batch was handed over, or could not be.
    pub fn write(&mut self, ok: bool)
        requires
            old(self)@.wf(),
            old(self)@.phase is Write,
        ensures
            final(self)@ == old(self)@.written(ok),
            final(self)@.wf(),
    {
        if ok {
            self.done = self.done + self.batch as u64;
            self.batch = 0;
            self.phase =
            if self.eof {
                Phase::Over
            } else {
                Phase::Check
            };
        } else {
            self.failed = Some("影片編碼中斷".to_owned());
            self.phase = Phase::Over;
        }
    }

    /// How the export ended; `enc` is how the encoder did, if it ran. A half-written file is to be
    /// removed unless it succeeded.
    pub fn outcome(self, enc: Option<(bool, Vec<String>)>) -> (r: Result<(), String>)
        requires
            self@.wf(),
            self@.phase is Over,
            enc is Some <==> self@.encoder,
        ensures
            text(r.err()) == self@.failure(
                match enc {
                    Some(e) => Some((e.0, crate::path::names(e.1@))),
                    None => None,
                },
            ),
            r is Ok ==> self@.done == self@.read,
    {
        if self.aborted {
            let e = "".to_owned();
            return Err(e);
        }
        match self.failed {
            Some(e) => Err(e),
            None => match enc {
                Some((ok, errs)) => if ok {
                    Ok(())
                } else {
                    Err(complain(&errs, "影片編碼失敗"))
                },
                None => Err(complain(&self.errs, "讀不到這支影片的畫面")),
            },
        }
    }
}

/// No frame is lost: when an export ends without having been broken off, every frame that was taken
/// from the decoder went to the encoder.
pub proof fn law_no_frame_is_lost(x: Exporting)
    requires
        x.wf(),
        x.phase is Over,
        !x.aborted,
        x.failed is None,
    ensures
        x.done == x.read,
{
}

/// What a single grab of a video has found so far.
pub struct Grab {
    pub frame: Option<(u32, u32, Vec<u8>)>,
    pub audio: Option<String>,
    pub errs: Vec<String>,
}

impl Grab {
    pub fn new() -> (g: Grab)
        ensures
            g.frame is None,
            g.audio is None,
            g.errs@.len() == 0,
    {
        Grab { frame: None, audio: None, errs: Vec::new() }
    }

    /// A frame: the first one is kept.
    pub fn take_frame(&mut self, w: u32, h: u32, data: Vec<u8>)
        ensures
            final(self).frame == if old(self).frame is None {
                Some((w, h, data))
            } else {
                old(self).frame
            },
            final(self).audio == old(self).audio,
            final(self).errs == old(self).errs,
    {
        if self.frame.is_none() {
            self.frame = Some((w, h, data));
        }
    }

    /// A sound stream: the format of the first one is kept.
    pub fn take_audio(&mut self, format: String)
        ensures
            final(self).audio == if old(self).audio is None {
                Some(format)
            } else {
                old(self).audio
            },
            final(self).frame == old(self).frame,
            final(self).errs == old(self).errs,
    {
        if self.audio.is_none() {
            self.audio = Some(format);
        }
    }

    /// A complaint.
    pub fn take_error(&mut self, m: String)
        ensures
            final(self).errs@ == old(self).errs@.push(m),
            final(self).frame == old(self).frame,
            final(self).audio == old(self).audio,
    {
        self.errs.push(m);
    }

    /// The frame and the sound's format, or why there is none.
    pub fn finish(self) -> (r: Result<(u32, u32, Vec<u8>, Option<String>), String>)
        ensures
            match self.frame {
                Some(f) => r == Ok::<(u32, u32, Vec<u8>, Option<String>), String>(
                    (f.0, f.1, f.2, self.audio),
                ),
                None => r matches Err(e) && e@ == report(
                    crate::path::names(self.errs@),
                    "讀不到這支影片的畫面（格式可能不支援）"@,
                ),
            },
    {
        match self.frame {
            Some((w, h, data)) => Ok((w, h, data, self.audio)),
            None => Err(complain(&self.errs, "讀不到這支影片的畫面（格式可能不支援）")),
        }
    }
}

/// What a grab of a clip has found so far.
pub struct Clip {
    pub limit: usize,
    pub dims: Option<(u32, u32)>,
    pub frames: Vec<Vec<u8>>,
    pub errs: Vec<String>,
}

impl Clip {
    pub fn new(limit: usize) -> (c: Clip)
        ensures
            c.limit == limit,
            c.dims is None,
            c.frames@.len() == 0,
            c.errs@.len() == 0,
    {
        Clip { limit, dims: None, frames: Vec::new(), errs: Vec::new() }
    }

    /// A frame: the first one tells the size; it and those of the same size are kept, up to the
    /// limit.
    pub fn take_frame(&mut self, w: u32, h: u32, data: Vec<u8>)
        ensures
            final(self).dims == if old(self).dims is None {
                Some((w, h))
            } else {
                old(self).dims
            },
            final(self).frames@ == if final(self).dims == Some((w, h)) && old(self).frames@.len()
                < old(self).limit {
                old(self).frames@.push(data)
            } else {
                old(self).frames@
            },
            final(self).limit == old(self).limit,
            final(self).errs == old(self).errs,
    {
        let d = match self.dims {
            Some(d) => d,
            None => (w, h),
        };
        self.dims = Some(d);
        if d.0 == w && d.1 == h && self.frames.len() < self.limit {
            self.frames.push(data);
        }
    }

    /// A complaint.
    pub fn take_error(&mut self, m: String)
        ensures
            final(self).errs@ == old(self).errs@.push(m),
            final(self).dims == old(self).dims,
            final(self).frames == old(self).frames,
            final(self).limit == old(self).limit,
    {
        self.errs.push(m);
    }

    /// The frames and their size, or why there are none.
    pub fn finish(self) -> (r: Result<(u32, u32, Vec<Vec<u8>>), String>)
        ensures
            match self.dims {
                Some(d) if self.frames@.len() > 0 => r == Ok::<(u32, u32, Vec<Vec<u8>>), String>(
                    (d.0, d.1, self.frames),
                ),
                _ => r matches Err(e) && e@ == report(
                    crate::path::names(self.errs@),
                    "這個時間點抓不到畫面（可能已經是片尾）"@,
                ),
            },
    {
        match self.dims {
            Some(d) => if self.frames.len() > 0 {
                Ok((d.0, d.1, self.frames))
            } else {
                Err(complain(&self.errs, "這個時間點抓不到畫面（可能已經是片尾）"))
            },
            None => Err(complain(&self.errs, "這個時間點抓不到畫面（可能已經是片尾）")),
        }
    }
}

} // verus!
