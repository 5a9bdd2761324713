//! Pieces of text.

use vstd::prelude::*;
use vstd::string::*;

verus! {

/// `String::push` of the standard library appends the character to the string.
pub assume_specification[ String::push ](s: &mut String, c: char)
    ensures
        final(s)@ == old(s)@.push(c),
;

/// The characters of a text.
pub fn chars_of(s: &str) -> (v: Vec<char>)
    ensures
        v@ == s@,
{
    let mut v: Vec<char> = Vec::new();
    for c in it: s.chars()
        invariant
            v@ == s@.subrange(0, it.index()),
            it.seq() == s@,
    {
        v.push(c);
    }
    assert(s@.subrange(0, s@.len() as int) =~= s@);
    v
}

/// The text of characters `from..to`.
pub fn text_of(v: &Vec<char>, from: usize, to: usize) -> (s: String)
    requires
        from <= to <= v@.len(),
    ensures
        s@ == v@.subrange(from as int, to as int),
{
    let mut s = String::new();
    let mut i: usize = from;
    assert(s@ =~= v@.subrange(from as int, from as int));
    while i < to
        invariant
            from <= i <= to <= v@.len(),
            s@ == v@.subrange(from as int, i as int),
        decreases to - i,
    {
        s.push(v[i]);
        assert(s@ =~= v@.subrange(from as int, i + 1));
        i += 1;
    }
    s
}

/// Characters that count as white space.
pub open spec fn is_white(c: char) -> bool {
    ||| '\u{9}' <= c <= '\u{d}'
    ||| c == ' '
    ||| c == '\u{85}'
    ||| c == '\u{a0}'
    ||| c == '\u{1680}'
    ||| '\u{2000}' <= c <= '\u{200a}'
    ||| c == '\u{2028}'
    ||| c == '\u{2029}'
    ||| c == '\u{202f}'
    ||| c == '\u{205f}'
    ||| c == '\u{3000}'
}

fn white(c: char) -> (b: bool)
    ensures
        b == is_white(c),
{
    ('\u{9}' <= c && c <= '\u{d}') || c == ' ' || c == '\u{85}' || c == '\u{a0}' || c == '\u{1680}'
        || ('\u{2000}' <= c && c <= '\u{200a}') || c == '\u{2028}' || c == '\u{2029}' || c
        == '\u{202f}' || c == '\u{205f}' || c == '\u{3000}'
}

/// The text without white space at its start.
pub open spec fn trim_start(s: Seq<char>) -> Seq<char>
    decreases s.len(),
{
    if s.len() > 0 && is_white(s[0]) {
        trim_start(s.subrange(1, s.len() as int))
    } else {
        s
    }
}

/// The text without white space at its end.
pub open spec fn trim_end(s: Seq<char>) -> Seq<char>
    decreases s.len(),
{
    if s.len() > 0 && is_white(s.last()) {
        trim_end(s.drop_last())
    } else {
        s
    }
}

/// The text without white space at either end.
pub open spec fn trimmed(s: Seq<char>) -> Seq<char> {
    trim_end(trim_start(s))
}

/// The text without white space at either end.
pub fn trim(s: &str) -> (r: String)
    ensures
        r@ == trimmed(s@),
{
    let v = chars_of(s);
    let mut from: usize = 0;
    assert(v@.subrange(0, v@.len() as int) =~= v@);
    while from < v.len() && white(v[from])
        invariant
            from <= v@.len(),
            trim_start(v@.subrange(from as int, v@.len() as int)) == trim_start(v@),
        decreases v@.len() - from,
    {
        proof {
            let t = v@.subrange(from as int, v@.len() as int);
            assert(t.subrange(1, t.len() as int) =~= v@.subrange(from + 1, v@.len() as int));
        }
        from += 1;
    }
    let ghost head = v@.subrange(from as int, v@.len() as int);
    assert(trim_start(v@) == head);
    let mut to: usize = v.len();
    while to > from && white(v[to - 1])
        invariant
            from <= to <= v@.len(),
            trim_end(v@.subrange(from as int, to as int)) == trim_end(head),
        decreases to - from,
    {
        proof {
            let t = v@.subrange(from as int, to as int);
            assert(t.drop_last() =~= v@.subrange(from as int, to - 1));
        }
        to -= 1;
    }
    text_of(&v, from, to)
}

/// The text without white space at its end.
pub fn trim_tail(s: &str) -> (r: String)
    ensures
        r@ == trim_end(s@),
{
    let v = chars_of(s);
    let mut to: usize = v.len();
    assert(v@.subrange(0, v@.len() as int) =~= v@);
    while to > 0 && white(v[to - 1])
        invariant
            to <= v@.len(),
            trim_end(v@.subrange(0, to as int)) == trim_end(v@),
        decreases to,
    {
        proof {
            let t = v@.subrange(0, to as int);
            assert(t.drop_last() =~= v@.subrange(0, to - 1));
        }
        to -= 1;
    }
    text_of(&v, 0, to)
}

/// Trimming leaves nothing to trim.
pub proof fn law_trim_idempotent(s: Seq<char>)
    ensures
        trimmed(trimmed(s)) == trimmed(s),
{
    lemma_trim_start_front(s);
    let t = trim_start(s);
    lemma_trim_end_back(t);
    let u = trim_end(t);
    if u.len() > 0 {
        assert(u[0] == t[0]);
        assert(trim_start(u) == u);
    }
    assert(trim_end(u) == u);
}

proof fn lemma_trim_start_front(s: Seq<char>)
    ensures
        trim_start(s).len() > 0 ==> !is_white(trim_start(s)[0]),
    decreases s.len(),
{
    if s.len() > 0 && is_white(s[0]) {
        lemma_trim_start_front(s.subrange(1, s.len() as int));
    }
}

proof fn lemma_trim_end_back(s: Seq<char>)
    ensures
        trim_end(s).len() > 0 ==> !is_white(trim_end(s).last()),
        trim_end(s).len() > 0 ==> trim_end(s)[0] == s[0],
        trim_end(s).len() <= s.len(),
    decreases s.len(),
{
    if s.len() > 0 && is_white(s.last()) {
        lemma_trim_end_back(s.drop_last());
    }
}

/// Two texts, one after the other.
pub fn join2(a: &str, b: &str) -> (s: String)
    ensures
        s@ == a@ + b@,
{
    let mut s = String::from_str(a);
    s.append(b);
    s
}

/// Three texts, one after the other.
pub fn join3(a: &str, b: &str, c: &str) -> (s: String)
    ensures
        s@ == a@ + b@ + c@,
{
    let mut s = String::from_str(a);
    s.append(b);
    s.append(c);
    s
}

/// Texts with a separator between them.
pub open spec fn joined(v: Seq<Seq<char>>, sep: Seq<char>) -> Seq<char>
    decreases v.len(),
{
    if v.len() == 0 {
        Seq::empty()
    } else if v.len() == 1 {
        v[0]
    } else {
        joined(v.drop_last(), sep) + sep + v.last()
    }
}

/// Texts with a separator between them.
pub fn join_with(v: &Vec<String>, sep: &str) -> (s: String)
    ensures
        s@ == joined(crate::path::names(v@), sep@),
{
    let ghost all = crate::path::names(v@);
    let mut s = String::new();
    let mut i: usize = 0;
    assert(all.subrange(0, 0) =~= Seq::<Seq<char>>::empty());
    while i < v.len()
        invariant
            i <= v@.len(),
            all == crate::path::names(v@),
            s@ == joined(all.subrange(0, i as int), sep@),
        decreases v@.len() - i,
    {
        proof {
            let part = all.subrange(0, i + 1);
            assert(part.drop_last() =~= all.subrange(0, i as int));
            assert(part.last() == v@[i as int]@);
            if i == 0 {
                assert(s@ + v@[0]@ =~= v@[0]@);
            }
        }
        if i > 0 {
            s.append(sep);
        }
        s.append(v[i].as_str());
        i += 1;
    }
    assert(all.subrange(0, i as int) =~= all);
    s
}

/// Every `a` replaced by a text.
pub open spec fn with_text(s: Seq<char>, a: char, b: Seq<char>) -> Seq<char>
    decreases s.len(),
{
    if s.len() == 0 {
        Seq::empty()
    } else if s.last() == a {
        with_text(s.drop_last(), a, b) + b
    } else {
        with_text(s.drop_last(), a, b).push(s.last())
    }
}

/// Replaces every `a` by a text.
pub fn replace_with(s: &str, a: char, b: &str) -> (r: String)
    ensures
        r@ == with_text(s@, a, b@),
{
    let v = chars_of(s);
    let mut r = String::new();
    let mut i: usize = 0;
    assert(s@.subrange(0, 0) =~= Seq::<char>::empty());
    while i < v.len()
        invariant
            i <= v@.len(),
            v@ == s@,
            r@ == with_text(s@.subrange(0, i as int), a, b@),
        decreases v@.len() - i,
    {
        assert(s@.subrange(0, i + 1).drop_last() =~= s@.subrange(0, i as int));
        if v[i] == a {
            r.append(b);
        } else {
            r.push(v[i]);
        }
        i += 1;
    }
    assert(s@.subrange(0, s@.len() as int) =~= s@);
    r
}

/// A capital letter of the English alphabet.
pub open spec fn is_capital(c: char) -> bool {
    'A' <= c <= 'Z'
}

/// The text with capitals of the English alphabet in lower case.
pub open spec fn ascii_lowered(s: Seq<char>) -> Seq<char> {
    s.map_values(
        |c: char|
            if is_capital(c) {
                (c as int + 32) as char
            } else {
                c
            },
    )
}

/// The text with capitals of the English alphabet in lower case.
pub fn ascii_lower(s: &str) -> (r: String)
    ensures
        r@ == ascii_lowered(s@),
{
    let v = chars_of(s);
    let mut r = String::new();
    let mut i: usize = 0;
    while i < v.len()
        invariant
            i <= v@.len(),
            v@ == s@,
            r@ =~= ascii_lowered(s@).subrange(0, i as int),
        decreases v@.len() - i,
    {
        let c = v[i];
        if 'A' <= c && c <= 'Z' {
            let low: u8 = c as u8 + 32;
            r.push(low as char);
        } else {
            r.push(c);
        }
        i += 1;
    }
    assert(ascii_lowered(s@).subrange(0, s@.len() as int) =~= ascii_lowered(s@));
    r
}

/// The digit for a number below 10.
pub open spec fn digit(n: int) -> char {
    if n == 0 {
        '0'
    } else if n == 1 {
        '1'
    } else if n == 2 {
        '2'
    } else if n == 3 {
        '3'
    } else if n == 4 {
        '4'
    } else if n == 5 {
        '5'
    } else if n == 6 {
        '6'
    } else if n == 7 {
        '7'
    } else if n == 8 {
        '8'
    } else {
        '9'
    }
}

fn digit_char(n: u64) -> (c: char)
    requires
        n < 10,
    ensures
        c == digit(n as int),
{
    if n == 0 {
        '0'
    } else if n == 1 {
        '1'
    } else if n == 2 {
        '2'
    } else if n == 3 {
        '3'
    } else if n == 4 {
        '4'
    } else if n == 5 {
        '5'
    } else if n == 6 {
        '6'
    } else if n == 7 {
        '7'
    } else if n == 8 {
        '8'
    } else {
        '9'
    }
}

/// A number in decimal digits.
pub open spec fn decimal(n: int) -> Seq<char>
    decreases n,
{
    if n < 10 {
        seq![digit(n)]
    } else {
        decimal(n / 10).push(digit(n % 10))
    }
}

/// A number in decimal digits.
pub fn to_decimal(n: u64) -> (s: String)
    ensures
        s@ == decimal(n as int),
    decreases n,
{
    if n < 10 {
        let mut s = String::new();
        s.push(digit_char(n));
        assert(s@ =~= seq![digit(n as int)]);
        s
    } else {
        let mut s = to_decimal(n / 10);
        s.push(digit_char(n % 10));
        s
    }
}

/// Every `a` replaced by `b`.
pub open spec fn with_char(s: Seq<char>, a: char, b: char) -> Seq<char> {
    s.map_values(
        |c: char|
            if c == a {
                b
            } else {
                c
            },
    )
}

/// Replaces every `a` by `b`.
pub fn replace_char(s: &str, a: char, b: char) -> (r: String)
    ensures
        r@ == with_char(s@, a, b),
{
    let v = chars_of(s);
    let mut r = String::new();
    let mut i: usize = 0;
    while i < v.len()
        invariant
            i <= v@.len(),
            v@ == s@,
            r@ =~= with_char(s@, a, b).subrange(0, i as int),
        decreases v@.len() - i,
    {
        if v[i] == a {
            r.push(b);
        } else {
            r.push(v[i]);
        }
        i += 1;
    }
    assert(with_char(s@, a, b).subrange(0, s@.len() as int) =~= with_char(s@, a, b));
    r
}

/// The text in lower case.
pub uninterp spec fn lowercase(s: Seq<char>) -> Seq<char>;

/// `str::to_lowercase` of the standard library: the text in lower case by Unicode's rules, which
/// depends on the text alone. What the rules say is left to the name.
#[verifier::external_body]
pub(crate) fn to_lowercase(s: &str) -> (r: String)
    ensures
        r@ == lowercase(s@),
{
    s.to_lowercase()
}

/// `a` stands before `b` in the order of their characters, or equals it.
pub open spec fn text_before(a: Seq<char>, b: Seq<char>) -> bool
    decreases a.len(),
{
    if a.len() == 0 {
        true
    } else if b.len() == 0 {
        false
    } else if a[0] != b[0] {
        a[0] < b[0]
    } else {
        text_before(a.subrange(1, a.len() as int), b.subrange(1, b.len() as int))
    }
}

/// How two texts stand to each other.
#[derive(Clone, Copy, PartialEq, Eq, Structural, Debug)]
pub enum Side {
    Before,
    Same,
    After,
}

/// The side on which `a` stands of `b`.
pub open spec fn side_of(a: Seq<char>, b: Seq<char>) -> Side {
    if a == b {
        Side::Same
    } else if text_before(a, b) {
        Side::Before
    } else {
        Side::After
    }
}

/// Texts stand in one line: each before or after each other, and no two different ones level.
pub proof fn law_text_order(a: Seq<char>, b: Seq<char>, c: Seq<char>)
    ensures
        text_before(a, a),
        text_before(a, b) || text_before(b, a),
        text_before(a, b) && text_before(b, a) ==> a == b,
        text_before(a, b) && text_before(b, c) ==> text_before(a, c),
    decreases a.len(),
{
    if a.len() > 0 {
        let a1 = a.subrange(1, a.len() as int);
        let b1 = b.subrange(1, b.len() as int);
        let c1 = c.subrange(1, c.len() as int);
        law_text_order(a1, b1, c1);
        if b.len() > 0 && a[0] == b[0] && a1 == b1 {
            assert(a =~= seq![a[0]] + a1);
            assert(b =~= seq![b[0]] + b1);
        }
    } else {
        if b.len() == 0 {
            assert(a =~= b);
        }
    }
}

/// On which side of `b` does `a` stand?
pub fn compare(a: &str, b: &str) -> (s: Side)
    ensures
        s == side_of(a@, b@),
{
    let u = chars_of(a);
    let v = chars_of(b);
    let mut i: usize = 0;
    assert(u@.subrange(0, u@.len() as int) =~= u@);
    assert(v@.subrange(0, v@.len() as int) =~= v@);
    while i < u.len() && i < v.len() && u[i] == v[i]
        invariant
            u@ == a@,
            v@ == b@,
            i <= u@.len(),
            i <= v@.len(),
            u@.subrange(0, i as int) == v@.subrange(0, i as int),
            text_before(a@, b@) == text_before(
                u@.subrange(i as int, u@.len() as int),
                v@.subrange(i as int, v@.len() as int),
            ),
        decreases u@.len() - i,
    {
        proof {
            let s = u@.subrange(i as int, u@.len() as int);
            let t = v@.subrange(i as int, v@.len() as int);
            assert(s.subrange(1, s.len() as int) =~= u@.subrange(i + 1, u@.len() as int));
            assert(t.subrange(1, t.len() as int) =~= v@.subrange(i + 1, v@.len() as int));
            assert(u@.subrange(0, i + 1) =~= u@.subrange(0, i as int).push(u@[i as int]));
            assert(v@.subrange(0, i + 1) =~= v@.subrange(0, i as int).push(v@[i as int]));
        }
        i += 1;
    }
    let ghost s = u@.subrange(i as int, u@.len() as int);
    let ghost t = v@.subrange(i as int, v@.len() as int);
    if i == u.len() && i == v.len() {
        assert(a@ =~= b@) by {
            assert(a@ =~= u@.subrange(0, i as int));
            assert(b@ =~= v@.subrange(0, i as int));
        }
        Side::Same
    } else if i == u.len() {
        assert(a@.len() != b@.len());
        Side::Before
    } else if i == v.len() {
        assert(a@.len() != b@.len());
        Side::After
    } else {
        assert(s[0] == u@[i as int]);
        assert(t[0] == v@[i as int]);
        assert(a@[i as int] != b@[i as int]);
        if u[i] < v[i] {
            Side::Before
        } else {
            Side::After
        }
    }
}

/// Are two texts the same?
pub fn same(a: &str, b: &str) -> (r: bool)
    ensures
        r == (a@ == b@),
{
    match compare(a, b) {
        Side::Same => true,
        _ => false,
    }
}

} // verus!
