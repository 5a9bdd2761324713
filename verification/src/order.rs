//! Sorting.

use std::collections::VecDeque;

use vstd::prelude::*;

verus! {

/// Values with a total order of their own.
pub trait Ranked: Sized {
    /// `self` may stand before `other`.
    spec fn ranks(self, other: Self) -> bool;

    /// Of two values one may stand before the other.
    proof fn ranks_total(a: Self, b: Self)
        ensures
            a.ranks(b) || b.ranks(a),
    ;

    /// Order carries over.
    proof fn ranks_transitive(a: Self, b: Self, c: Self)
        requires
            a.ranks(b),
            b.ranks(c),
        ensures
            a.ranks(c),
    ;

    /// May this value stand before the other?
    fn may_precede(&self, other: &Self) -> (b: bool)
        ensures
            b == self.ranks(*other),
    ;
}

/// Every value may stand before all that follow it.
pub open spec fn is_sorted<T: Ranked>(s: Seq<T>) -> bool {
    forall|i: int, j: int| 0 <= i < j < s.len() ==> #[trigger] s[i].ranks(#[trigger] s[j])
}

/// `t` holds the values of `s`, in order.
pub open spec fn is_sorting<T: Ranked>(s: Seq<T>, t: Seq<T>) -> bool {
    is_sorted(t) && t.to_multiset() == s.to_multiset()
}

/// Merges two sorted rows of values.
fn merge<T: Ranked>(a: VecDeque<T>, b: VecDeque<T>) -> (out: VecDeque<T>)
    requires
        is_sorted(a@),
        is_sorted(b@),
        a@.len() + b@.len() <= usize::MAX,
    ensures
        is_sorting(a@ + b@, out@),
{
    let ghost a0 = a@;
    let ghost b0 = b@;
    let mut a = a;
    let mut b = b;
    let mut out: VecDeque<T> = VecDeque::new();
    proof {
        vstd::seq_lib::lemma_multiset_commutative(a0, b0);
        out@.to_multiset_ensures();
        assert(out@.to_multiset() =~= vstd::multiset::Multiset::<T>::empty());
    }
    while a.len() > 0 && b.len() > 0
        invariant
            is_sorted(a@),
            is_sorted(b@),
            is_sorted(out@),
            forall|i: int, j: int|
                0 <= i < out@.len() && 0 <= j < a@.len() ==> #[trigger] out@[i].ranks(
                    #[trigger] a@[j],
                ),
            forall|i: int, j: int|
                0 <= i < out@.len() && 0 <= j < b@.len() ==> #[trigger] out@[i].ranks(
                    #[trigger] b@[j],
                ),
            out@.to_multiset().add(a@.to_multiset()).add(b@.to_multiset()) == (a0
                + b0).to_multiset(),
        decreases a@.len() + b@.len(),
    {
        let ghost a1 = a@;
        let ghost b1 = b@;
        let ghost o1 = out@;
        let first: bool = a[0].may_precede(&b[0]);
        if first {
            match a.pop_front() {
                Some(v) => {
                    out.push_back(v);
                    proof {
                        a1.to_multiset_ensures();
                        o1.to_multiset_ensures();
                        assert(a@ =~= a1.remove(0));
                        assert(a1.to_multiset().remove(v) =~= a@.to_multiset());
                        assert(a1.to_multiset().count(v) > 0) by {
                            assert(a1.contains(a1[0]));
                        }
                        assert(out@.to_multiset() =~= o1.to_multiset().insert(v));
                        assert(out@.to_multiset().add(a@.to_multiset()).add(b@.to_multiset())
                            =~= o1.to_multiset().add(a1.to_multiset()).add(b1.to_multiset()));
                        lemma_front(o1, a1, b1, v, out@);
                        assert forall|i: int, j: int|
                            0 <= i < out@.len() && 0 <= j < a@.len() implies #[trigger] out@[i]
                            .ranks(#[trigger] a@[j]) by {
                            assert(a@[j] == a1[j + 1]);
                            if i < o1.len() {
                                assert(out@[i] == o1[i]);
                            }
                        }
                        assert forall|i: int, j: int|
                            0 <= i < out@.len() && 0 <= j < b@.len() implies #[trigger] out@[i]
                            .ranks(#[trigger] b@[j]) by {
                            if i < o1.len() {
                                assert(out@[i] == o1[i]);
                            } else if j > 0 {
                                T::ranks_transitive(v, b1[0], b1[j]);
                            }
                        }
                    }
                },
                None => {},
            }
        } else {
            match b.pop_front() {
                Some(v) => {
                    out.push_back(v);
                    proof {
                        T::ranks_total(a1[0], b1[0]);
                        b1.to_multiset_ensures();
                        o1.to_multiset_ensures();
                        assert(b@ =~= b1.remove(0));
                        assert(b1.to_multiset().remove(v) =~= b@.to_multiset());
                        assert(b1.to_multiset().count(v) > 0) by {
                            assert(b1.contains(b1[0]));
                        }
                        assert(out@.to_multiset() =~= o1.to_multiset().insert(v));
                        assert(out@.to_multiset().add(a@.to_multiset()).add(b@.to_multiset())
                            =~= o1.to_multiset().add(a1.to_multiset()).add(b1.to_multiset()));
                        lemma_front(o1, b1, a1, v, out@);
                        assert forall|i: int, j: int|
                            0 <= i < out@.len() && 0 <= j < b@.len() implies #[trigger] out@[i]
                            .ranks(#[trigger] b@[j]) by {
                            assert(b@[j] == b1[j + 1]);
                            if i < o1.len() {
                                assert(out@[i] == o1[i]);
                            }
                        }
                        assert forall|i: int, j: int|
                            0 <= i < out@.len() && 0 <= j < a@.len() implies #[trigger] out@[i]
                            .ranks(#[trigger] a@[j]) by {
                            if i < o1.len() {
                                assert(out@[i] == o1[i]);
                            } else if j > 0 {
                                T::ranks_transitive(v, a1[0], a1[j]);
                            }
                        }
                    }
                },
                None => {},
            }
        }
    }
    let ghost o1 = out@;
    let ghost a1 = a@;
    let ghost b1 = b@;
    out.append(&mut a);
    out.append(&mut b);
    proof {
        let all = out@;
        assert(all =~= o1 + a1 + b1);
        vstd::seq_lib::lemma_multiset_commutative(o1, a1);
        vstd::seq_lib::lemma_multiset_commutative(o1 + a1, b1);
        assert forall|i: int, j: int| 0 <= i < j < all.len() implies #[trigger] all[i].ranks(
            #[trigger] all[j],
        ) by {
            let n = o1.len() as int;
            if j < n {
            } else if i < n {
                if a1.len() > 0 {
                    assert(all[j] == a1[j - n]);
                } else {
                    assert(all[j] == b1[j - n]);
                }
                assert(all[i] == o1[i]);
            } else {
                if a1.len() > 0 {
                    assert(all[i] == a1[i - n]);
                    assert(all[j] == a1[j - n]);
                } else {
                    assert(all[i] == b1[i - n]);
                    assert(all[j] == b1[j - n]);
                }
            }
        }
    }
    out
}

/// A value that may follow all of a sorted row may close it.
proof fn lemma_front<T: Ranked>(o: Seq<T>, a: Seq<T>, b: Seq<T>, v: T, out: Seq<T>)
    requires
        is_sorted(o),
        is_sorted(a),
        a.len() > 0,
        v == a[0],
        out == o.push(v),
        forall|i: int, j: int|
            0 <= i < o.len() && 0 <= j < a.len() ==> #[trigger] o[i].ranks(#[trigger] a[j]),
    ensures
        is_sorted(out),
{
    assert forall|i: int, j: int| 0 <= i < j < out.len() implies #[trigger] out[i].ranks(
        #[trigger] out[j],
    ) by {
        assert(out[i] == o[i]);
        if j < o.len() {
            assert(out[j] == o[j]);
        } else {
            assert(o[i].ranks(a[0]));
        }
    }
}

fn sort_deque<T: Ranked>(v: VecDeque<T>) -> (out: VecDeque<T>)
    ensures
        is_sorting(v@, out@),
    decreases v@.len(),
{
    let n: usize = v.len();
    if n < 2 {
        return v;
    }
    let ghost v0 = v@;
    let mut left = v;
    let right = left.split_off(n / 2);
    let ghost l0 = left@;
    let ghost r0 = right@;
    assert(l0 + r0 =~= v0);
    let a = sort_deque(left);
    let b = sort_deque(right);
    proof {
        a@.to_multiset_ensures();
        b@.to_multiset_ensures();
        l0.to_multiset_ensures();
        r0.to_multiset_ensures();
        assert(a@.len() == l0.len());
        assert(b@.len() == r0.len());
        vstd::seq_lib::lemma_multiset_commutative(l0, r0);
        vstd::seq_lib::lemma_multiset_commutative(a@, b@);
    }
    merge(a, b)
}

/// Sorts values by their order.
pub fn sort<T: Ranked>(v: Vec<T>) -> (out: Vec<T>)
    ensures
        is_sorting(v@, out@),
{
    let ghost v0 = v@;
    let mut v = v;
    let mut d: VecDeque<T> = VecDeque::new();
    while v.len() > 0
        invariant
            v@ + d@ =~= v0,
        decreases v@.len(),
    {
        match v.pop() {
            Some(x) => {
                d.push_front(x);
            },
            None => {},
        }
    }
    assert(d@ =~= v0);
    let s = sort_deque(d);
    let ghost s0 = s@;
    let mut s = s;
    let mut out: Vec<T> = Vec::new();
    while s.len() > 0
        invariant
            out@ + s@ =~= s0,
        decreases s@.len(),
    {
        match s.pop_front() {
            Some(x) => {
                out.push(x);
            },
            None => {},
        }
    }
    assert(out@ =~= s0);
    out
}

/// Rows of equal contents stay so when every value is mapped.
pub proof fn lemma_map_multiset<A, B>(s: Seq<A>, t: Seq<A>, f: spec_fn(A) -> B)
    requires
        s.to_multiset() == t.to_multiset(),
    ensures
        s.map_values(f).to_multiset() == t.map_values(f).to_multiset(),
    decreases s.len(),
{
    s.to_multiset_ensures();
    t.to_multiset_ensures();
    if s.len() == 0 {
        assert(s.map_values(f) =~= t.map_values(f));
    } else {
        let x = s.last();
        let n = s.len() - 1;
        assert(s.contains(x));
        assert(t.to_multiset().count(x) > 0);
        let k = choose|k: int| 0 <= k < t.len() && t[k] == x;
        let s1 = s.remove(n);
        let t1 = t.remove(k);
        assert(s1.to_multiset() =~= s.to_multiset().remove(x));
        assert(t1.to_multiset() =~= t.to_multiset().remove(x));
        lemma_map_multiset(s1, t1, f);
        let fs = s.map_values(f);
        let ft = t.map_values(f);
        fs.to_multiset_ensures();
        ft.to_multiset_ensures();
        assert(fs.remove(n) =~= s1.map_values(f));
        assert(ft.remove(k) =~= t1.map_values(f));
        assert(fs[n] == f(x));
        assert(ft[k] == f(x));
        assert(fs.contains(f(x)));
        assert(ft.contains(f(x)));
        assert(fs.to_multiset() =~= fs.to_multiset().remove(f(x)).insert(f(x)));
        assert(ft.to_multiset() =~= ft.to_multiset().remove(f(x)).insert(f(x)));
    }
}

/// How many values of a row have a property.
pub open spec fn tally<A>(s: Seq<A>, p: spec_fn(A) -> bool) -> nat
    decreases s.len(),
{
    if s.len() == 0 {
        0
    } else {
        tally(s.drop_last(), p) + if p(s.last()) {
            1nat
        } else {
            0
        }
    }
}

/// Counting a row is counting its contents.
pub proof fn lemma_tally<A>(s: Seq<A>, p: spec_fn(A) -> bool)
    ensures
        tally(s, p) == s.to_multiset().filter(p).len(),
    decreases s.len(),
{
    broadcast use vstd::multiset::group_multiset_axioms;

    s.to_multiset_ensures();
    if s.len() == 0 {
        assert(s.to_multiset().filter(p) =~= vstd::multiset::Multiset::<A>::empty());
    } else {
        let r = s.drop_last();
        let x = s.last();
        lemma_tally(r, p);
        r.to_multiset_ensures();
        assert(s =~= r.push(x));
        let m = r.to_multiset();
        assert(s.to_multiset() =~= m.insert(x));
        if p(x) {
            assert(m.insert(x).filter(p) =~= m.filter(p).insert(x));
        } else {
            assert(m.insert(x).filter(p) =~= m.filter(p));
        }
    }
}

} // verus!
