//! Paths as lists of names.

use vstd::prelude::*;

use crate::text::{compare, same, to_lowercase, Side};

verus! {

/// The texts of a list of names.
pub open spec fn names(v: Seq<String>) -> Seq<Seq<char>> {
    v.map_values(|s: String| s@)
}

/// A path: the text of its root or drive (empty for a relative path), and the names below it.
pub struct PathName {
    pub root: String,
    pub names: Vec<String>,
}

/// A path as mathematics sees it.
#[verifier::ext_equal]
pub struct Place {
    pub root: Seq<char>,
    pub names: Seq<Seq<char>>,
}

impl View for PathName {
    type V = Place;

    open spec fn view(&self) -> Place {
        Place { root: self.root@, names: names(self.names@) }
    }
}

/// A name that leads up.
pub open spec fn is_up(name: Seq<char>) -> bool {
    name == ".."@
}

impl Place {
    /// The last name, if the path has one and it does not lead up.
    pub open spec fn file_name(self) -> Option<Seq<char>> {
        if self.names.len() == 0 || is_up(self.names.last()) {
            None
        } else {
            Some(self.names.last())
        }
    }

    /// The path with one more name.
    pub open spec fn join(self, name: Seq<char>) -> Place {
        Place { root: self.root, names: self.names.push(name) }
    }

    /// The path followed by a list of names.
    pub open spec fn below(self, rel: Seq<Seq<char>>) -> Place {
        Place { root: self.root, names: self.names + rel }
    }

    /// The path lies at or below `top`.
    pub open spec fn starts_with(self, top: Place) -> bool {
        &&& self.root == top.root
        &&& top.names.len() <= self.names.len()
        &&& self.names.subrange(0, top.names.len() as int) == top.names
    }
}

/// A copy of a list of names.
pub fn copy_names(v: &Vec<String>) -> (r: Vec<String>)
    ensures
        names(r@) == names(v@),
        r@.len() == v@.len(),
{
    let mut r: Vec<String> = Vec::new();
    let mut i: usize = 0;
    while i < v.len()
        invariant
            i <= v@.len(),
            r@.len() == i,
            forall|k: int| 0 <= k < i ==> (#[trigger] r@[k])@ == v@[k]@,
        decreases v@.len() - i,
    {
        r.push(v[i].clone());
        i += 1;
    }
    assert(names(r@) =~= names(v@));
    r
}

/// Are the names of the two lists the same, one by one?
pub fn same_names(a: &Vec<String>, b: &Vec<String>) -> (r: bool)
    ensures
        r == (names(a@) == names(b@)),
{
    if a.len() != b.len() {
        assert(names(a@).len() != names(b@).len());
        return false;
    }
    let mut i: usize = 0;
    while i < a.len()
        invariant
            i <= a@.len(),
            a@.len() == b@.len(),
            forall|k: int| 0 <= k < i ==> (#[trigger] a@[k])@ == b@[k]@,
        decreases a@.len() - i,
    {
        if !same(a[i].as_str(), b[i].as_str()) {
            assert(names(a@)[i as int] != names(b@)[i as int]);
            return false;
        }
        i += 1;
    }
    assert(names(a@) =~= names(b@));
    true
}

/// `a` stands before `b`, name by name, or equals it.
pub open spec fn names_before(a: Seq<Seq<char>>, b: Seq<Seq<char>>) -> bool
    decreases a.len(),
{
    if a.len() == 0 {
        true
    } else if b.len() == 0 {
        false
    } else if a[0] != b[0] {
        crate::text::text_before(a[0], b[0])
    } else {
        names_before(a.subrange(1, a.len() as int), b.subrange(1, b.len() as int))
    }
}

/// Lists of names stand in one line: each before or after each other, and no two different ones
/// level.
pub proof fn law_names_order(a: Seq<Seq<char>>, b: Seq<Seq<char>>, c: Seq<Seq<char>>)
    ensures
        names_before(a, a),
        names_before(a, b) || names_before(b, a),
        names_before(a, b) && names_before(b, a) ==> a == b,
        names_before(a, b) && names_before(b, c) ==> names_before(a, c),
    decreases a.len(),
{
    if a.len() > 0 {
        let a1 = a.subrange(1, a.len() as int);
        let b1 = b.subrange(1, b.len() as int);
        let c1 = c.subrange(1, c.len() as int);
        law_names_order(a1, b1, c1);
        crate::text::law_text_order(a[0], b[0], c[0]);
        crate::text::law_text_order(b[0], c[0], a[0]);
        crate::text::law_text_order(c[0], a[0], b[0]);
        if b.len() > 0 && a[0] == b[0] && a1 == b1 {
            assert(a =~= seq![a[0]] + a1);
            assert(b =~= seq![b[0]] + b1);
        }
    } else {
        if b.len() == 0 {
            assert(a =~= b);
        }
    }
}

/// May list `a` stand before list `b`?
pub fn precedes(a: &Vec<String>, b: &Vec<String>) -> (r: bool)
    ensures
        r == names_before(names(a@), names(b@)),
{
    let ghost u = names(a@);
    let ghost v = names(b@);
    let mut i: usize = 0;
    assert(u.subrange(0, u.len() as int) =~= u);
    assert(v.subrange(0, v.len() as int) =~= v);
    while i < a.len() && i < b.len()
        invariant
            u == names(a@),
            v == names(b@),
            i <= a@.len(),
            i <= b@.len(),
            names_before(u, v) == names_before(
                u.subrange(i as int, u.len() as int),
                v.subrange(i as int, v.len() as int),
            ),
        decreases a@.len() - i,
    {
        let ghost s = u.subrange(i as int, u.len() as int);
        let ghost t = v.subrange(i as int, v.len() as int);
        assert(s[0] == a@[i as int]@);
        assert(t[0] == b@[i as int]@);
        match compare(a[i].as_str(), b[i].as_str()) {
            Side::Before => {
                return true;
            },
            Side::After => {
                return false;
            },
            Side::Same => {},
        }
        proof {
            assert(s.subrange(1, s.len() as int) =~= u.subrange(i + 1, u.len() as int));
            assert(t.subrange(1, t.len() as int) =~= v.subrange(i + 1, v.len() as int));
        }
        i += 1;
    }
    i == a.len()
}

impl PathName {
    /// A copy of the path.
    pub fn copy(&self) -> (r: PathName)
        ensures
            r@ == self@,
    {
        PathName { root: self.root.clone(), names: copy_names(&self.names) }
    }

    /// The last name, if the path has one and it does not lead up.
    pub fn file_name(&self) -> (r: Option<String>)
        ensures
            r is Some <==> self@.file_name() is Some,
            r matches Some(s) ==> s@ == self@.file_name()->0,
    {
        let n: usize = self.names.len();
        if n == 0 {
            return None;
        }
        assert(self@.names.last() == self.names@[n - 1]@);
        if same(self.names[n - 1].as_str(), "..") {
            None
        } else {
            Some(self.names[n - 1].clone())
        }
    }

    /// The path with one more name.
    pub fn join(&self, name: &str) -> (r: PathName)
        ensures
            r@ == self@.join(name@),
    {
        let mut p = self.copy();
        let ghost before = names(p.names@);
        p.names.push(name.to_owned());
        assert(names(p.names@) =~= before.push(name@));
        p
    }

    /// The path followed by a list of names.
    pub fn join_all(&self, rel: &Vec<String>) -> (r: PathName)
        ensures
            r@ == self@.below(names(rel@)),
    {
        let mut p = self.copy();
        let ghost before = names(p.names@);
        let mut i: usize = 0;
        while i < rel.len()
            invariant
                i <= rel@.len(),
                p.root@ == self.root@,
                names(p.names@) =~= before + names(rel@).subrange(0, i as int),
            decreases rel@.len() - i,
        {
            let ghost now = names(p.names@);
            p.names.push(rel[i].clone());
            assert(names(p.names@) =~= now.push(rel@[i as int]@));
            i += 1;
        }
        assert(names(rel@).subrange(0, rel@.len() as int) =~= names(rel@));
        assert(p@ =~= self@.below(names(rel@)));
        p
    }

    /// Does the path lie at or below `top`?
    pub fn starts_with(&self, top: &PathName) -> (r: bool)
        ensures
            r == self@.starts_with(top@),
    {
        if !same(self.root.as_str(), top.root.as_str()) || top.names.len() > self.names.len() {
            return false;
        }
        let ghost mine = self@.names;
        let ghost theirs = top@.names;
        let mut i: usize = 0;
        while i < top.names.len()
            invariant
                i <= top.names@.len() <= self.names@.len(),
                mine == self@.names,
                theirs == top@.names,
                forall|k: int| 0 <= k < i ==> mine[k] == #[trigger] theirs[k],
            decreases top.names@.len() - i,
        {
            assert(mine[i as int] == self.names@[i as int]@);
            assert(theirs[i as int] == top.names@[i as int]@);
            if !same(self.names[i].as_str(), top.names[i].as_str()) {
                assert(mine.subrange(0, theirs.len() as int)[i as int] != theirs[i as int]);
                return false;
            }
            i += 1;
        }
        assert(mine.subrange(0, theirs.len() as int) =~= theirs);
        true
    }

    /// Are the two paths the same?
    pub fn same(&self, other: &PathName) -> (r: bool)
        ensures
            r == (self@ == other@),
    {
        let r: bool = same(self.root.as_str(), other.root.as_str()) && same_names(
            &self.names,
            &other.names,
        );
        assert(r ==> self@ =~= other@);
        r
    }

    /// The path with all its text in lower case.
    pub fn lowered(&self) -> (r: PathName)
        ensures
            r@ == lowered(self@),
    {
        let mut v: Vec<String> = Vec::new();
        let mut i: usize = 0;
        while i < self.names.len()
            invariant
                i <= self.names@.len(),
                v@.len() == i,
                forall|k: int|
                    0 <= k < i ==> (#[trigger] v@[k])@ == crate::text::lowercase(
                        self.names@[k]@,
                    ),
            decreases self.names@.len() - i,
        {
            v.push(to_lowercase(self.names[i].as_str()));
            i += 1;
        }
        let p = PathName { root: to_lowercase(self.root.as_str()), names: v };
        assert(p@.names =~= lowered(self@).names);
        p
    }
}

/// The path with all its text in lower case.
pub open spec fn lowered(p: Place) -> Place {
    Place {
        root: crate::text::lowercase(p.root),
        names: p.names.map_values(|s: Seq<char>| crate::text::lowercase(s)),
    }
}

} // verus!
