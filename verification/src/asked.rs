//! What a video encoder reads in the arguments that it is given: numbers, sizes, and the size that a
//! scale filter asks of a frame.

use vstd::prelude::*;

verus! {

/// The digit that a letter stands for.
pub open spec fn figure(c: char) -> int {
    c as int - '0' as int
}

/// The letter is a digit.
pub open spec fn is_figure(c: char) -> bool {
    0 <= figure(c) <= 9
}

/// The text is made of digits.
pub open spec fn is_number(t: Seq<char>) -> bool {
    t.len() > 0 && forall|i: int| 0 <= i < t.len() ==> is_figure(#[trigger] t[i])
}

/// The number that digits stand for.
pub open spec fn number(t: Seq<char>) -> int
    decreases t.len(),
{
    if t.len() == 0 {
        0
    } else {
        10 * number(t.drop_last()) + figure(t.last())
    }
}

/// What an expression in a filter stands for on a frame of `w` by `h`, as a fraction: the width and the
/// height of the frame, numbers, products and quotients with a digit, and what is left of something
/// without its fraction.
pub open spec fn reads(t: Seq<char>, w: int, h: int) -> Option<(int, int)>
    decreases t.len(),
{
    if t == "iw"@ {
        Some((w, 1))
    } else if t == "ih"@ {
        Some((h, 1))
    } else if is_number(t) {
        Some((number(t), 1))
    } else if t.len() > 7 && t.subrange(0, 6) == "trunc("@ && t.last() == ')' {
        match reads(t.subrange(6, t.len() - 1), w, h) {
            Some(v) => Some((v.0 / v.1, 1)),
            None => None,
        }
    } else if t.len() > 2 && is_figure(t.last()) && t[t.len() - 2] == '/' {
        match reads(t.subrange(0, t.len() - 2), w, h) {
            Some(v) => Some((v.0, v.1 * figure(t.last()))),
            None => None,
        }
    } else if t.len() > 2 && is_figure(t.last()) && t[t.len() - 2] == '*' {
        match reads(t.subrange(0, t.len() - 2), w, h) {
            Some(v) => Some((v.0 * figure(t.last()), v.1)),
            None => None,
        }
    } else {
        None
    }
}

/// The text has one letter `c`, and that in place `k`.
pub open spec fn parts_at(t: Seq<char>, c: char, k: int) -> bool {
    0 <= k < t.len() && t[k] == c && forall|i: int|
        0 <= i < t.len() && i != k ==> #[trigger] t[i] != c
}

/// A scale filter asks for frames of `a` by `b` where it is given frames of `w` by `h`.
pub open spec fn asks_for(f: Seq<char>, w: int, h: int, a: int, b: int) -> bool {
    &&& f.len() > 6
    &&& f.subrange(0, 6) == "scale="@
    &&& exists|k: int| #[trigger]
        parts_at(f, ':', k) && k >= 6 && reads(f.subrange(6, k), w, h) == Some((a, 1int)) && reads(
            f.subrange(k + 1, f.len() as int),
            w,
            h,
        ) == Some((b, 1int))
}

/// A text gives a size: two numbers with an `x` between them.
pub open spec fn gives_size(t: Seq<char>, w: int, h: int) -> bool {
    exists|k: int| #[trigger]
        parts_at(t, 'x', k) && is_number(t.subrange(0, k)) && is_number(
            t.subrange(k + 1, t.len() as int),
        ) && number(t.subrange(0, k)) == w && number(t.subrange(k + 1, t.len() as int)) == h
}

/// An option has a value: the text behind it.
pub open spec fn says(args: Seq<Seq<char>>, i: int, option: Seq<char>, value: Seq<char>) -> bool {
    0 <= i && i + 1 < args.len() && args[i] == option && args[i + 1] == value
}

/// The digits of a number read as that number.
pub proof fn lemma_decimal_reads(n: int)
    requires
        n >= 0,
    ensures
        is_number(crate::text::decimal(n)),
        number(crate::text::decimal(n)) == n,
    decreases n,
{
    let t = crate::text::decimal(n);
    if n < 10 {
        assert(t.drop_last() =~= Seq::<char>::empty());
        assert(number(t.drop_last()) == 0);
    } else {
        lemma_decimal_reads(n / 10);
        let s = crate::text::decimal(n / 10);
        assert(t.drop_last() =~= s);
        assert forall|i: int| 0 <= i < t.len() implies is_figure(#[trigger] t[i]) by {
            if i < s.len() {
                assert(t[i] == s[i]);
            }
        }
    }
}

/// A side without its last bit.
proof fn lemma_side(side: Seq<char>, t: Seq<char>, w: int, h: int, v: int)
    requires
        (side == "iw"@ && v == w) || (side == "ih"@ && v == h),
        t == "trunc("@ + side + "/2)*2"@,
    ensures
        reads(t, w, h) == Some((v / 2 * 2, 1int)),
        forall|i: int| 0 <= i < t.len() ==> #[trigger] t[i] != ':',
        t.len() == 13,
{
    reveal_strlit("iw");
    reveal_strlit("ih");
    reveal_strlit("trunc(");
    reveal_strlit("/2)*2");
    assert("iw"@ != "ih"@) by {
        assert("iw"@[1] != "ih"@[1]);
    }
    assert(reads(side, w, h) == Some((v, 1int)));
    let a = t.subrange(0, 11);
    let b = a.subrange(6, 10);
    assert(b.subrange(0, 2) =~= side);
    assert(b.len() == 4 && b[2] == '/' && b[3] == '2');
    assert(!is_number(b)) by {
        assert(!is_figure(b[2]));
    }
    assert(reads(b, w, h) == Some((v, 2int)));
    assert(a.subrange(0, 6) =~= "trunc("@);
    assert(a.last() == ')');
    assert(!is_number(a)) by {
        assert(!is_figure(a[0]));
    }
    assert(reads(a, w, h) == Some((v / 2, 1int)));
    assert(t[11] == '*' && t.last() == '2');
    assert(!is_number(t)) by {
        assert(!is_figure(t[0]));
    }
}

/// An exported video is as large as its frames, each side rounded down to an even number: its width
/// comes from the frame's width and its height from the frame's height, so frames with even sides keep
/// their size.
pub proof fn law_export_keeps_even_sizes(
    audio: Option<Seq<char>>,
    codec: Seq<Seq<char>>,
    w: int,
    h: int,
)
    requires
        w >= 0,
        h >= 0,
    ensures
        exists|i: int, f: Seq<char>|
            #![trigger says(crate::movie::output_args(audio, codec), i, "-vf"@, f)]
            says(crate::movie::output_args(audio, codec), i, "-vf"@, f) && asks_for(
                f,
                w,
                h,
                w - w % 2,
                h - h % 2,
            ),
{
    reveal_strlit("scale=trunc(iw/2)*2:trunc(ih/2)*2");
    reveal_strlit("scale=");
    reveal_strlit("iw");
    reveal_strlit("ih");
    reveal_strlit("trunc(");
    reveal_strlit("/2)*2");
    let f = "scale=trunc(iw/2)*2:trunc(ih/2)*2"@;
    let a = f.subrange(6, 19);
    let b = f.subrange(20, f.len() as int);
    assert(a =~= "trunc("@ + "iw"@ + "/2)*2"@);
    assert(b =~= "trunc("@ + "ih"@ + "/2)*2"@);
    lemma_side("iw"@, a, w, h, w);
    lemma_side("ih"@, b, w, h, h);
    assert(f.subrange(0, 6) =~= "scale="@);
    assert(parts_at(f, ':', 19)) by {
        assert forall|i: int| 0 <= i < f.len() && i != 19 implies #[trigger] f[i] != ':' by {
            if 6 <= i < 19 {
                assert(f[i] == a[i - 6]);
            } else if i >= 20 {
                assert(f[i] == b[i - 20]);
            } else {
                assert(f[i] == "scale="@[i]);
            }
        }
    }
    assert(w / 2 * 2 == w - w % 2 && h / 2 * 2 == h - h % 2);
    assert(asks_for(f, w, h, w - w % 2, h - h % 2));
    let args = crate::movie::output_args(audio, codec);
    let i: int = if audio is Some {
        4
    } else {
        2
    };
    assert(says(args, i, "-vf"@, f));
}

/// The encoder is told the size of the frames that it is handed, the width first, and their rate.
pub proof fn law_frames_are_announced(w: int, h: int, fps: Seq<char>)
    requires
        w >= 0,
        h >= 0,
    ensures
        exists|i: int, t: Seq<char>|
            #![trigger says(crate::movie::input_args(w, h, fps), i, "-s"@, t)]
            says(crate::movie::input_args(w, h, fps), i, "-s"@, t) && gives_size(t, w, h),
        exists|i: int| #[trigger] says(crate::movie::input_args(w, h, fps), i, "-r"@, fps),
{
    reveal_strlit("x");
    let (a, b) = (crate::text::decimal(w), crate::text::decimal(h));
    lemma_decimal_reads(w);
    lemma_decimal_reads(h);
    let t = a + "x"@ + b;
    let k = a.len() as int;
    assert(t.subrange(0, k) =~= a);
    assert(t.subrange(k + 1, t.len() as int) =~= b);
    assert(parts_at(t, 'x', k)) by {
        assert forall|i: int| 0 <= i < t.len() && i != k implies #[trigger] t[i] != 'x' by {
            if i < k {
                assert(is_figure(a[i]));
            } else {
                assert(is_figure(b[i - k - 1]));
            }
        }
    }
    let args = crate::movie::input_args(w, h, fps);
    assert(says(args, 4, "-s"@, t));
    assert(says(args, 6, "-r"@, fps));
}

/// A scale filter with two numbers asks for that size, whatever it is given.
pub proof fn law_scale_asks_for_its_size(a: int, b: int, w: int, h: int)
    requires
        a >= 0,
        b >= 0,
    ensures
        asks_for(crate::movie::scale_text(a, b), w, h, a, b),
{
    reveal_strlit("scale=");
    reveal_strlit(":");
    reveal_strlit("iw");
    reveal_strlit("ih");
    let (s, t) = (crate::text::decimal(a), crate::text::decimal(b));
    lemma_decimal_reads(a);
    lemma_decimal_reads(b);
    let f = crate::movie::scale_text(a, b);
    let k = 6 + s.len() as int;
    assert(f.subrange(0, 6) =~= "scale="@);
    assert(f.subrange(6, k) =~= s);
    assert(f.subrange(k + 1, f.len() as int) =~= t);
    assert(is_figure(s[0]) && is_figure(t[0]));
    assert(parts_at(f, ':', k)) by {
        assert forall|i: int| 0 <= i < f.len() && i != k implies #[trigger] f[i] != ':' by {
            if i < 6 {
                assert(f[i] == "scale="@[i]);
            } else if i < k {
                assert(is_figure(s[i - 6]));
            } else {
                assert(is_figure(t[i - k - 1]));
            }
        }
    }
}

} // verus!
