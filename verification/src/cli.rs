//! What the command line and its settings say.

use vstd::prelude::*;

use crate::smoke::Rgb;
use crate::text::{chars_of, text_of, trim};

verus! {

/// The pieces of a text between separators.
pub open spec fn pieces(s: Seq<char>, sep: char) -> Seq<Seq<char>>
    decreases s.len(),
{
    if s.len() == 0 {
        seq![Seq::empty()]
    } else {
        let before = pieces(s.drop_last(), sep);
        if s.last() == sep {
            before.push(Seq::empty())
        } else {
            before.drop_last().push(before.last().push(s.last()))
        }
    }
}

proof fn lemma_pieces(s: Seq<char>, sep: char)
    ensures
        pieces(s, sep).len() >= 1,
    decreases s.len(),
{
    if s.len() > 0 {
        lemma_pieces(s.drop_last(), sep);
    }
}

/// The pieces of a text between separators.
pub fn split(s: &str, sep: char) -> (out: Vec<String>)
    ensures
        crate::path::names(out@) == pieces(s@, sep),
{
    let v = chars_of(s);
    let n: usize = v.len();
    let mut out: Vec<String> = Vec::new();
    let mut from: usize = 0;
    let mut i: usize = 0;
    assert(v@.subrange(0, 0) =~= Seq::<char>::empty());
    while i < n
        invariant
            from <= i <= n == v@.len(),
            v@ == s@,
            crate::path::names(out@).push(v@.subrange(from as int, i as int)) == pieces(
                v@.subrange(0, i as int),
                sep,
            ),
        decreases n - i,
    {
        proof {
            lemma_pieces(v@.subrange(0, i as int), sep);
            assert(v@.subrange(0, i + 1).drop_last() =~= v@.subrange(0, i as int));
        }
        let ghost done = crate::path::names(out@);
        if v[i] == sep {
            let piece = text_of(&v, from, i);
            out.push(piece);
            from = i + 1;
            assert(crate::path::names(out@) =~= done.push(piece@));
            assert(v@.subrange(i + 1, i + 1) =~= Seq::<char>::empty());
        } else {
            proof {
                let all = done.push(v@.subrange(from as int, i as int));
                assert(all.drop_last() =~= done);
                assert(v@.subrange(from as int, i + 1) =~= v@.subrange(from as int, i as int).push(
                    v@[i as int],
                ));
            }
        }
        i += 1;
    }
    let ghost done = crate::path::names(out@);
    let last = text_of(&v, from, n);
    out.push(last);
    assert(crate::path::names(out@) =~= done.push(last@));
    assert(v@.subrange(0, n as int) =~= v@);
    out
}

/// The value of decimal digits.
pub open spec fn digits_value(s: Seq<char>) -> int
    decreases s.len(),
{
    if s.len() == 0 {
        0
    } else {
        digits_value(s.drop_last()) * 10 + (s.last() as int - '0' as int)
    }
}

/// At least one decimal digit, and nothing else.
pub open spec fn all_digits(s: Seq<char>) -> bool {
    s.len() > 0 && forall|i: int| 0 <= i < s.len() ==> crate::project::is_digit(#[trigger] s[i])
}

/// The text without a plus sign at its start.
pub open spec fn unsigned_part(s: Seq<char>) -> Seq<char> {
    if s.len() > 0 && s[0] == '+' {
        s.subrange(1, s.len() as int)
    } else {
        s
    }
}

/// The number up to `most` that a text stands for: decimal digits, with or without a plus sign.
pub open spec fn number(s: Seq<char>, most: int) -> Option<int> {
    let d = unsigned_part(s);
    if all_digits(d) && digits_value(d) <= most {
        Some(digits_value(d))
    } else {
        None
    }
}

proof fn lemma_digits_grow(s: Seq<char>, k: int)
    requires
        all_digits(s),
        0 <= k <= s.len(),
    ensures
        0 <= digits_value(s.subrange(0, k)) <= digits_value(s),
    decreases s.len() - k,
{
    if k == s.len() {
        assert(s.subrange(0, k) =~= s);
        lemma_digits_positive(s, k);
    } else {
        lemma_digits_grow(s, k + 1);
        lemma_digits_positive(s, k);
        assert(s.subrange(0, k + 1).drop_last() =~= s.subrange(0, k));
        assert(crate::project::is_digit(s[k]));
    }
}

proof fn lemma_digits_positive(s: Seq<char>, k: int)
    requires
        all_digits(s),
        0 <= k <= s.len(),
    ensures
        0 <= digits_value(s.subrange(0, k)),
    decreases k,
{
    if k > 0 {
        lemma_digits_positive(s, k - 1);
        assert(s.subrange(0, k).drop_last() =~= s.subrange(0, k - 1));
        assert(crate::project::is_digit(s[k - 1]));
    }
}

/// The number that a text stands for (see [`number`]).
pub fn parse_number(s: &str, most: u32) -> (r: Option<u32>)
    ensures
        match r {
            Some(n) => number(s@, most as int) == Some(n as int),
            None => number(s@, most as int) is None,
        },
{
    let v = chars_of(s);
    let n: usize = v.len();
    let from: usize = if n > 0 && v[0] == '+' {
        1
    } else {
        0
    };
    let ghost d = unsigned_part(s@);
    assert(d =~= v@.subrange(from as int, n as int));
    if from == n {
        return None;
    }
    let mut value: u64 = 0;
    let mut i: usize = from;
    assert(d.subrange(0, 0) =~= Seq::<char>::empty());
    while i < n
        invariant
            from <= i <= n == v@.len(),
            d == unsigned_part(s@),
            d == v@.subrange(from as int, n as int),
            d.len() > 0,
            value <= most,
            value == digits_value(d.subrange(0, i - from)),
            forall|k: int| 0 <= k < i - from ==> crate::project::is_digit(#[trigger] d[k]),
        decreases n - i,
    {
        let c = v[i];
        assert(d[i - from] == c);
        if !('0' <= c && c <= '9') {
            assert(!crate::project::is_digit(d[i - from]));
            return None;
        }
        proof {
            let t = d.subrange(0, i - from + 1);
            assert(t.drop_last() =~= d.subrange(0, i - from));
        }
        value = value * 10 + (c as u64 - '0' as u64);
        if value > most as u64 {
            proof {
                if all_digits(d) {
                    lemma_digits_grow(d, i - from + 1);
                }
            }
            return None;
        }
        i += 1;
    }
    assert(d.subrange(0, n - from) =~= d);
    Some(value as u32)
}

/// The numbers up to `most` among the pieces of a list, in order; anything else is passed over.
pub open spec fn numbers(parts: Seq<Seq<char>>, most: int) -> Seq<int>
    decreases parts.len(),
{
    if parts.len() == 0 {
        Seq::empty()
    } else {
        match number(crate::text::trimmed(parts.last()), most) {
            Some(n) => numbers(parts.drop_last(), most).push(n),
            None => numbers(parts.drop_last(), most),
        }
    }
}

/// The numbers of a list.
pub open spec fn ints(v: Seq<u32>) -> Seq<int> {
    v.map_values(|n: u32| n as int)
}

/// The numbers up to `most` of a list with commas (see [`numbers`]).
pub fn parse_list(s: &str, most: u32) -> (out: Vec<u32>)
    ensures
        ints(out@) == numbers(pieces(s@, ','), most as int),
        forall|i: int| 0 <= i < out@.len() ==> #[trigger] out@[i] <= most,
{
    let parts = split(s, ',');
    let ghost all = pieces(s@, ',');
    let n: usize = parts.len();
    let mut out: Vec<u32> = Vec::new();
    let mut i: usize = 0;
    assert(all.subrange(0, 0) =~= Seq::<Seq<char>>::empty());
    assert(ints(out@) =~= Seq::<int>::empty());
    while i < n
        invariant
            i <= n == parts@.len(),
            crate::path::names(parts@) == all,
            ints(out@) == numbers(all.subrange(0, i as int), most as int),
            forall|i: int| 0 <= i < out@.len() ==> #[trigger] out@[i] <= most,
        decreases n - i,
    {
        proof {
            assert(all.subrange(0, i + 1).drop_last() =~= all.subrange(0, i as int));
            assert(all.subrange(0, i + 1).last() == crate::path::names(parts@)[i as int]);
        }
        let ghost before = ints(out@);
        let t = trim(parts[i].as_str());
        if let Some(v) = parse_number(t.as_str(), most) {
            out.push(v);
            assert(ints(out@) =~= before.push(v as int));
        }
        i += 1;
    }
    assert(all.subrange(0, n as int) =~= all);
    out
}

/// The colour that a list of exactly three bytes stands for.
pub open spec fn color_in(s: Seq<char>) -> Option<(int, int, int)> {
    let v = numbers(pieces(s, ','), 255);
    if v.len() == 3 {
        Some((v[0], v[1], v[2]))
    } else {
        None
    }
}

/// The colour that a list of exactly three bytes stands for.
pub fn parse_color(s: &str) -> (r: Option<Rgb>)
    ensures
        match r {
            Some(c) => color_in(s@) == Some((c[0] as int, c[1] as int, c[2] as int)),
            None => color_in(s@) is None,
        },
{
    let v = parse_list(s, 255);
    assert(ints(v@).len() == v@.len());
    if v.len() == 3 {
        proof {
            assert(ints(v@)[0] == v@[0] && ints(v@)[1] == v@[1] && ints(v@)[2] == v@[2]);
        }
        Some([v[0] as u8, v[1] as u8, v[2] as u8])
    } else {
        None
    }
}

/// The box that four numbers ask for, as far as it lies on a `w` by `h` picture: its corner is kept
/// on the picture.
pub fn parse_crop(s: &str, w: u32, h: u32) -> (r: Option<(u32, u32, u32, u32)>)
    requires
        w > 0,
        h > 0,
    ensures
        ({
            let v = numbers(pieces(s@, ','), u32::MAX as int);
            match r {
                None => v.len() != 4,
                Some(b) => {
                    &&& v.len() == 4
                    &&& b.0 == crate::signed::min_of(v[0], w - 1)
                    &&& b.1 == crate::signed::min_of(v[1], h - 1)
                    &&& b.2 == crate::signed::min_of(v[2], w - b.0)
                    &&& b.3 == crate::signed::min_of(v[3], h - b.1)
                },
            }
        }),
{
    let v = parse_list(s, u32::MAX);
    assert(ints(v@).len() == v@.len());
    if v.len() != 4 {
        return None;
    }
    proof {
        assert(ints(v@)[0] == v@[0] && ints(v@)[1] == v@[1]);
        assert(ints(v@)[2] == v@[2] && ints(v@)[3] == v@[3]);
    }
    let x: u32 = if v[0] <= w - 1 {
        v[0]
    } else {
        w - 1
    };
    let y: u32 = if v[1] <= h - 1 {
        v[1]
    } else {
        h - 1
    };
    let bw: u32 = if v[2] <= w - x {
        v[2]
    } else {
        w - x
    };
    let bh: u32 = if v[3] <= h - y {
        v[3]
    } else {
        h - y
    };
    Some((x, y, bw, bh))
}

/// The whole number that a text stands for: decimal digits, with or without a sign.
pub open spec fn whole_number(s: Seq<char>) -> Option<int> {
    if s.len() > 0 && s[0] == '-' {
        let d = s.subrange(1, s.len() as int);
        if all_digits(d) && digits_value(d) <= 0x8000_0000 {
            Some(-digits_value(d))
        } else {
            None
        }
    } else {
        number(s, i32::MAX as int)
    }
}

/// A setting: the whole number that a text stands for, or `other` where there is none.
pub open spec fn setting(s: Option<Seq<char>>, other: int) -> int {
    match s {
        Some(t) => match whole_number(t) {
            Some(n) => n,
            None => other,
        },
        None => other,
    }
}

/// A setting (see [`setting`]).
pub fn parse_setting(s: Option<&str>, other: i32) -> (r: i32)
    ensures
        r == setting(crate::movie::slice(s), other as int),
{
    match s {
        None => other,
        Some(t) => {
            let v = chars_of(t);
            if v.len() > 0 && v[0] == '-' {
                let rest = text_of(&v, 1, v.len());
                let ghost d = t@.subrange(1, t@.len() as int);
                if v.len() > 1 && v[1] == '+' {
                    assert(d[0] == '+');
                    assert(!all_digits(d));
                    return other;
                }
                assert(unsigned_part(d) == d);
                match parse_number(rest.as_str(), 0x8000_0000) {
                    Some(n) => (0 - n as i64) as i32,
                    None => other,
                }
            } else {
                match parse_number(t, 0x7fff_ffff) {
                    Some(n) => n as i32,
                    None => other,
                }
            }
        },
    }
}

/// A switch is on unless it says 0.
pub fn parse_switch(s: &str) -> (b: bool)
    ensures
        b == (s@ != "0"@),
{
    !crate::text::same(s, "0")
}

} // verus!
