//! Connected blobs of a boolean mask: which cells hang together, how large each blob is, and
//! which holes a mask encloses. Cells touch along their sides, not at their corners.

use vstd::prelude::*;

use crate::grid;

verus! {

/// Two cells of a grid `w` wide share a side.
pub open spec fn adjacent(a: int, b: int, w: int) -> bool {
    let dx = a % w - b % w;
    let dy = a / w - b / w;
    (dx == 0 && (dy == 1 || dy == -1)) || (dy == 0 && (dx == 1 || dx == -1))
}

/// The path takes a step between two cells that share a side.
pub open spec fn path_step(path: Seq<int>, w: int, i: int) -> bool {
    adjacent(path[i - 1], path[i], w)
}

/// A path over cells of the mask, each sharing a side with the one before.
pub open spec fn is_path(on: Seq<bool>, w: int, path: Seq<int>) -> bool {
    &&& path.len() > 0
    &&& forall|i: int| 0 <= i < path.len() ==> 0 <= #[trigger] path[i] < on.len() && on[path[i]]
    &&& forall|i: int| 0 < i < path.len() ==> #[trigger] path_step(path, w, i)
}

/// The path leads from cell `a` to cell `b` over cells of the mask.
pub open spec fn leads(on: Seq<bool>, w: int, a: int, b: int, path: Seq<int>) -> bool {
    is_path(on, w, path) && path[0] == a && path.last() == b
}

/// Cells `a` and `b` belong to one blob of the mask.
pub open spec fn linked(on: Seq<bool>, w: int, a: int, b: int) -> bool {
    exists|path: Seq<int>| leads(on, w, a, b, path)
}

/// The blob of cell `a`.
pub open spec fn blob(on: Seq<bool>, w: int, a: int) -> Set<int> {
    Set::new(|b: int| linked(on, w, a, b))
}

/// A mask over a `w` by `h` grid.
pub open spec fn is_mask(on: Seq<bool>, w: int, h: int) -> bool {
    0 <= w && 0 <= h && on.len() == w * h
}

/// A cell of the mask belongs to its own blob.
pub proof fn law_linked_self(on: Seq<bool>, w: int, a: int)
    requires
        0 <= a < on.len(),
        on[a],
    ensures
        linked(on, w, a, a),
{
    assert(leads(on, w, a, a, seq![a]));
}

proof fn lemma_linked_step(on: Seq<bool>, w: int, a: int, b: int, c: int)
    requires
        linked(on, w, a, b),
        adjacent(b, c, w),
        0 <= c < on.len(),
        on[c],
    ensures
        linked(on, w, a, c),
{
    let path = choose|path: Seq<int>| leads(on, w, a, b, path);
    let long = path.push(c);
    assert forall|i: int| 0 <= i < long.len() implies 0 <= #[trigger] long[i] < on.len()
        && on[long[i]] by {
        if i < path.len() {
            assert(long[i] == path[i]);
        }
    }
    assert forall|i: int| 0 < i < long.len() implies #[trigger] path_step(long, w, i) by {
        if i < path.len() {
            assert(path_step(path, w, i));
        }
    }
    assert(leads(on, w, a, c, long));
}

/// Belonging to one blob works both ways.
pub proof fn law_linked_symmetric(on: Seq<bool>, w: int, a: int, b: int)
    requires
        linked(on, w, a, b),
    ensures
        linked(on, w, b, a),
{
    let path = choose|path: Seq<int>| leads(on, w, a, b, path);
    let back = path.reverse();
    let n = path.len() as int;
    assert forall|i: int| 0 <= i < back.len() implies 0 <= #[trigger] back[i] < on.len()
        && on[back[i]] by {
        assert(back[i] == path[n - 1 - i]);
    }
    assert forall|i: int| 0 < i < back.len() implies #[trigger] path_step(back, w, i) by {
        assert(path_step(path, w, n - i));
        assert(back[i] == path[n - 1 - i]);
        assert(back[i - 1] == path[n - i]);
    }
    assert(leads(on, w, b, a, back));
}

/// What belongs to a blob with a cell belongs to it with all the cell's blob.
pub proof fn law_linked_transitive(on: Seq<bool>, w: int, a: int, b: int, c: int)
    requires
        linked(on, w, a, b),
        linked(on, w, b, c),
    ensures
        linked(on, w, a, c),
{
    let p = choose|path: Seq<int>| leads(on, w, a, b, path);
    let q = choose|path: Seq<int>| leads(on, w, b, c, path);
    let n = p.len() as int;
    let all = p + q.subrange(1, q.len() as int);
    assert forall|i: int| 0 <= i < all.len() implies 0 <= #[trigger] all[i] < on.len()
        && on[all[i]] by {
        if i < n {
            assert(all[i] == p[i]);
        } else {
            assert(all[i] == q[i - n + 1]);
        }
    }
    assert forall|i: int| 0 < i < all.len() implies #[trigger] path_step(all, w, i) by {
        if i < n {
            assert(path_step(p, w, i));
        } else {
            assert(path_step(q, w, i - n + 1));
            assert(all[i] == q[i - n + 1]);
            if i == n {
                assert(all[i - 1] == p[n - 1]);
            } else {
                assert(all[i - 1] == q[i - n]);
            }
        }
    }
    if q.len() == 1 {
        assert(all.last() == p.last());
    } else {
        assert(all.last() == q.last());
    }
    assert(leads(on, w, a, c, all));
}

/// A set of cells that holds `a` and, with each of its cells, every neighbour on the mask, holds
/// the whole blob of `a`.
proof fn lemma_closed(on: Seq<bool>, w: int, s: spec_fn(int) -> bool, a: int, path: Seq<int>)
    requires
        is_path(on, w, path),
        path[0] == a,
        s(a),
        forall|i: int, j: int|
            0 <= i < on.len() && s(i) && #[trigger] adjacent(i, j, w) && 0 <= j < on.len() && on[j]
                ==> #[trigger] s(j),
    ensures
        s(path.last()),
    decreases path.len(),
{
    if path.len() > 1 {
        let n = path.len() as int;
        let short = path.subrange(0, n - 1);
        assert forall|i: int| 0 <= i < short.len() implies 0 <= #[trigger] short[i] < on.len()
            && on[short[i]] by {
            assert(short[i] == path[i]);
        }
        assert forall|i: int| 0 < i < short.len() implies #[trigger] path_step(short, w, i) by {
            assert(path_step(path, w, i));
        }
        lemma_closed(on, w, s, a, short);
        assert(path_step(path, w, n - 1));
        assert(short.last() == path[n - 2]);
        assert(adjacent(path[n - 2], path[n - 1], w));
    }
}

/// The cell is on the list.
pub open spec fn listed(list: Seq<usize>, i: int) -> bool {
    exists|k: int| 0 <= k < list.len() && #[trigger] list[k] == i
}

proof fn lemma_list_bound(list: Seq<usize>, n: nat)
    requires
        list.no_duplicates(),
        forall|k: int| 0 <= k < list.len() ==> #[trigger] list[k] < n,
    ensures
        list.len() <= n,
{
    let ints = list.map_values(|v: usize| v as int);
    assert(ints.no_duplicates()) by {
        assert forall|i: int, j: int| 0 <= i < ints.len() && 0 <= j < ints.len() && i != j implies
            ints[i] != ints[j] by {
            assert(list[i] != list[j]);
        }
    }
    ints.unique_seq_to_set();
    vstd::set_lib::lemma_int_range(0, n as int);
    let range = vstd::set_lib::set_int_range(0, n as int);
    assert forall|v: int| ints.to_set().contains(v) implies range.contains(v) by {
        let k = choose|k: int| 0 <= k < ints.len() && ints[k] == v;
        assert(list[k] < n);
    }
    vstd::set_lib::lemma_len_subset(ints.to_set(), range);
}

/// A list without repetitions of the cells of a blob is as long as the blob is large.
proof fn lemma_list_is_blob(list: Seq<usize>, on: Seq<bool>, w: int, a: int)
    requires
        list.no_duplicates(),
        forall|i: int| listed(list, i) <==> linked(on, w, a, i),
    ensures
        blob(on, w, a).finite(),
        blob(on, w, a).len() == list.len(),
{
    let ints = list.map_values(|v: usize| v as int);
    assert(ints.no_duplicates()) by {
        assert forall|i: int, j: int| 0 <= i < ints.len() && 0 <= j < ints.len() && i != j implies
            ints[i] != ints[j] by {
            assert(list[i] != list[j]);
        }
    }
    ints.unique_seq_to_set();
    assert(ints.to_set() =~= blob(on, w, a)) by {
        assert forall|v: int| ints.to_set().contains(v) <==> blob(on, w, a).contains(v) by {
            if ints.to_set().contains(v) {
                let k = choose|k: int| 0 <= k < ints.len() && ints[k] == v;
                assert(list[k] == v);
                assert(listed(list, v));
            }
            if blob(on, w, a).contains(v) {
                assert(listed(list, v));
                let k = choose|k: int| 0 <= k < list.len() && #[trigger] list[k] == v;
                assert(ints[k] == v);
                assert(ints.contains(v));
            }
        }
    }
}

/// `seen` holds whole blobs only.
spec fn whole(on: Seq<bool>, w: int, seen: Seq<bool>) -> bool {
    forall|i: int, j: int|
        0 <= i < on.len() && 0 <= j < on.len() && #[trigger] linked(on, w, i, j) ==> seen[i]
            == seen[j]
}

/// Every neighbour on the mask of the first `head` cells of the list is marked.
spec fn spread(on: Seq<bool>, w: int, seen: Seq<bool>, list: Seq<usize>, head: int) -> bool {
    forall|k: int, j: int|
        0 <= k < head && 0 <= j < on.len() && on[j] && #[trigger] adjacent(
            list[k] as int,
            j,
            w,
        ) ==> seen[j]
}

/// What holds while a list of marked cells grows from the cells that were marked before it.
spec fn growing(
    on: Seq<bool>,
    w: int,
    seen0: Seq<bool>,
    seen: Seq<bool>,
    list: Seq<usize>,
) -> bool {
    &&& seen0.len() == on.len()
    &&& seen.len() == on.len()
    &&& list.no_duplicates()
    &&& forall|k: int| 0 <= k < list.len() ==> #[trigger] list[k] < on.len() && on[list[k] as int]
    &&& forall|k: int| 0 <= k < list.len() ==> !seen0[#[trigger] list[k] as int]
    &&& forall|i: int|
        0 <= i < on.len() ==> (#[trigger] seen[i] <==> seen0[i] || listed(list, i))
}

/// Marks cell `j` and puts it on the list when it is an unmarked cell of the mask.
fn visit(on: &Vec<bool>, w: Ghost<int>, seen0: Ghost<Seq<bool>>, j: usize, seen: &mut Vec<bool>, list: &mut Vec<usize>)
    requires
        j < on@.len(),
        growing(on@, w@, seen0@, old(seen)@, old(list)@),
    ensures
        growing(on@, w@, seen0@, final(seen)@, final(list)@),
        final(list)@.len() >= old(list)@.len(),
        final(list)@.subrange(0, old(list)@.len() as int) == old(list)@,
        forall|i: int| 0 <= i < on@.len() && old(seen)@[i] ==> #[trigger] final(seen)@[i],
        on@[j as int] ==> final(seen)@[j as int],
        forall|k: int|
            old(list)@.len() <= k < final(list)@.len() ==> #[trigger] final(list)@[k] == j,
{
    if !seen[j] && on[j] {
        let ghost list0 = list@;
        seen.set(j, true);
        list.push(j);
        proof {
            assert(!listed(list0, j as int));
            assert forall|a: int, b: int|
                0 <= a < list@.len() && 0 <= b < list@.len() && a != b implies list@[a]
                != list@[b] by {
                if a < list0.len() && b < list0.len() {
                    assert(list0[a] != list0[b]);
                } else if a < list0.len() {
                    assert(list0[a] == list@[a]);
                    assert(listed(list0, list0[a] as int));
                } else {
                    assert(list0[b] == list@[b]);
                    assert(listed(list0, list0[b] as int));
                }
            }
            assert forall|i: int| 0 <= i < on@.len() implies (#[trigger] seen@[i] <==> seen0@[i]
                || listed(list@, i)) by {
                if listed(list0, i) {
                    let k = choose|k: int| 0 <= k < list0.len() && #[trigger] list0[k] == i;
                    assert(list@[k] == i);
                }
                if listed(list@, i) && i != j {
                    let k = choose|k: int| 0 <= k < list@.len() && #[trigger] list@[k] == i;
                    assert(list0[k] == i);
                }
                if i == j {
                    assert(list@[list0.len() as int] == i);
                }
            }
            assert forall|k: int| 0 <= k < list@.len() implies #[trigger] list@[k] < on@.len()
                && on@[list@[k] as int] by {
                if k < list0.len() {
                    assert(list@[k] == list0[k]);
                }
            }
            assert forall|k: int| 0 <= k < list@.len() implies !seen0@[#[trigger] list@[k] as int] by {
                if k < list0.len() {
                    assert(list@[k] == list0[k]);
                }
            }
            assert(list@.subrange(0, list0.len() as int) =~= list0);
        }
    } else {
        proof {
            assert(list@.subrange(0, list@.len() as int) =~= list@);
        }
    }
}

/// The four neighbours of a cell, as buffer positions.
proof fn lemma_neighbours(i: int, j: int, w: int, h: int)
    requires
        0 <= i < w * h,
        0 <= j < w * h,
        0 < w,
    ensures
        adjacent(i, j, w) <==> (i % w > 0 && j == i - 1) || (i % w + 1 < w && j == i + 1) || (i / w
            > 0 && j == i - w) || (i / w + 1 < h && j == i + w),
        i / w > 0 ==> i >= w,
        i / w + 1 < h ==> i + w < w * h,
{
    grid::lemma_cell_split(i, w, h);
    grid::lemma_cell_split(j, w, h);
    let xi = i % w;
    let yi = i / w;
    assert((yi + 1) * w == yi * w + w) by (nonlinear_arith);
    assert((yi - 1) * w == yi * w - w) by (nonlinear_arith);
    if xi > 0 && j == i - 1 {
        grid::lemma_cell_div_mod(xi - 1, yi, w);
    }
    if xi + 1 < w && j == i + 1 {
        grid::lemma_cell_div_mod(xi + 1, yi, w);
    }
    if yi > 0 && j == i - w {
        grid::lemma_cell_div_mod(xi, yi - 1, w);
    }
    if yi + 1 < h && j == i + w {
        grid::lemma_cell_div_mod(xi, yi + 1, w);
    }
    if yi > 0 {
        assert(i >= w) by (nonlinear_arith)
            requires
                i == yi * w + xi,
                yi >= 1,
                xi >= 0,
                w > 0,
        ;
    }
    if yi + 1 < h {
        assert(i + w < w * h) by (nonlinear_arith)
            requires
                i == yi * w + xi,
                yi + 2 <= h,
                xi < w,
                w > 0,
        ;
    }
}

/// Some cell of `first` is linked to cell `v`.
spec fn sprung(on: Seq<bool>, w: int, first: Seq<usize>, v: int) -> bool {
    exists|s: int| 0 <= s < first.len() && #[trigger] linked(on, w, first[s] as int, v)
}

/// Lets the list grow until no unmarked cell of the mask touches it.
fn grow(
    on: &Vec<bool>,
    w: usize,
    h: usize,
    seen0: Ghost<Seq<bool>>,
    seen: &mut Vec<bool>,
    list: &mut Vec<usize>,
)
    requires
        is_mask(on@, w as int, h as int),
        growing(on@, w as int, seen0@, old(seen)@, old(list)@),
    ensures
        growing(on@, w as int, seen0@, final(seen)@, final(list)@),
        spread(on@, w as int, final(seen)@, final(list)@, final(list)@.len() as int),
        final(list)@.len() >= old(list)@.len(),
        final(list)@.subrange(0, old(list)@.len() as int) == old(list)@,
        forall|k: int|
            0 <= k < final(list)@.len() ==> sprung(on@, w as int, old(list)@, #[trigger] final(list)@[k] as int),
{
    let n: usize = on.len();
    let ghost first = list@;
    let ghost wi = w as int;
    let mut head: usize = 0;
    proof {
        assert(list@.subrange(0, first.len() as int) =~= first);
        assert forall|k: int| 0 <= k < list@.len() implies sprung(on@, wi, first, #[trigger] list@[k] as int) by {
            law_linked_self(on@, wi, list@[k] as int);
            assert(linked(on@, wi, first[k] as int, list@[k] as int));
        }
    }
    while head < list.len()
        invariant
            is_mask(on@, w as int, h as int),
            n == on@.len(),
            wi == w,
            growing(on@, wi, seen0@, seen@, list@),
            head <= list@.len(),
            spread(on@, wi, seen@, list@, head as int),
            list@.len() >= first.len(),
            list@.subrange(0, first.len() as int) == first,
            forall|k: int|
                0 <= k < list@.len() ==> sprung(on@, wi, first, #[trigger] list@[k] as int),
        decreases n - head,
    {
        let i: usize = list[head];
        let ghost ii = i as int;
        proof {
            lemma_list_bound(list@, n as nat);
            if w == 0 {
                assert(w * h == 0) by (nonlinear_arith)
                    requires
                        w == 0,
                ;
            }
            grid::lemma_cell_split(ii, wi, h as int);
            lemma_neighbours(ii, ii, wi, h as int);
        }
        let x: usize = i % w;
        let y: usize = i / w;
        let ghost seen1 = seen@;
        let ghost list1 = list@;
        if x > 0 {
            visit(on, Ghost(wi), seen0, i - 1, seen, list);
            proof {
                lemma_neighbours(ii, i - 1, wi, h as int);
                lemma_grown(on@, wi, first, list1, list@, ii, i - 1);
            }
        }
        let ghost list2 = list@;
        let ghost seen2 = seen@;
        if x + 1 < w {
            proof {
                assert(i + 1 < n) by {
                    grid::lemma_cell_bound(x + 1, y as int, wi, h as int);
                }
            }
            visit(on, Ghost(wi), seen0, i + 1, seen, list);
            proof {
                lemma_neighbours(ii, i + 1, wi, h as int);
                lemma_grown(on@, wi, first, list2, list@, ii, i + 1);
            }
        }
        let ghost list3 = list@;
        let ghost seen3 = seen@;
        if y > 0 {
            visit(on, Ghost(wi), seen0, i - w, seen, list);
            proof {
                lemma_neighbours(ii, i - w, wi, h as int);
                lemma_grown(on@, wi, first, list3, list@, ii, i - w);
            }
        }
        let ghost list4 = list@;
        let ghost seen4 = seen@;
        if y + 1 < h {
            visit(on, Ghost(wi), seen0, i + w, seen, list);
            proof {
                lemma_neighbours(ii, i + w, wi, h as int);
                lemma_grown(on@, wi, first, list4, list@, ii, i + w);
            }
        }
        proof {
            assert(list@.subrange(0, list1.len() as int) =~= list1) by {
                assert forall|k: int| 0 <= k < list1.len() implies #[trigger] list@[k]
                    == list1[k] by {
                    assert(list2.subrange(0, list1.len() as int)[k] == list1[k]);
                    assert(list3.subrange(0, list2.len() as int)[k] == list2[k]);
                    assert(list4.subrange(0, list3.len() as int)[k] == list3[k]);
                    assert(list@.subrange(0, list4.len() as int)[k] == list4[k]);
                }
            }
            assert forall|k: int, j: int|
                0 <= k < head + 1 && 0 <= j < on@.len() && on@[j] && #[trigger] adjacent(
                    list@[k] as int,
                    j,
                    wi,
                ) implies seen@[j] by {
                assert(list@[k] == list@.subrange(0, list1.len() as int)[k]);
                if k < head {
                    assert(adjacent(list1[k] as int, j, wi));
                    assert(seen1[j]);
                    assert(seen2[j]);
                    assert(seen3[j]);
                    assert(seen4[j]);
                } else {
                    lemma_neighbours(ii, j, wi, h as int);
                    if x > 0 && j == i - 1 {
                        assert(seen2[j]);
                        assert(seen3[j]);
                        assert(seen4[j]);
                    } else if x + 1 < w && j == i + 1 {
                        assert(seen3[j]);
                        assert(seen4[j]);
                    } else if y > 0 && j == i - w {
                        assert(seen4[j]);
                    }
                }
            }
            assert(list@.subrange(0, first.len() as int) =~= first) by {
                assert forall|k: int| 0 <= k < first.len() implies #[trigger] list@[k]
                    == first[k] by {
                    assert(list@.subrange(0, list1.len() as int)[k] == list1[k]);
                    assert(list1.subrange(0, first.len() as int)[k] == first[k]);
                }
            }
        }
        head += 1;
    }
}

/// A list stays linked to its first cells when a neighbour of a listed cell joins it.
proof fn lemma_grown(
    on: Seq<bool>,
    w: int,
    first: Seq<usize>,
    before: Seq<usize>,
    after: Seq<usize>,
    i: int,
    j: int,
)
    requires
        before.len() <= after.len(),
        after.subrange(0, before.len() as int) == before,
        listed(before, i),
        adjacent(i, j, w),
        forall|k: int|
            0 <= k < after.len() ==> #[trigger] after[k] < on.len() && on[after[k] as int],
        forall|k: int| before.len() <= k < after.len() ==> #[trigger] after[k] == j,
        forall|k: int|
            0 <= k < before.len() ==> sprung(on, w, first, #[trigger] before[k] as int),
    ensures
        listed(after, i),
        forall|k: int|
            0 <= k < after.len() ==> sprung(on, w, first, #[trigger] after[k] as int),
{
    let at = choose|k: int| 0 <= k < before.len() && #[trigger] before[k] == i;
    assert(after.subrange(0, before.len() as int)[at] == before[at]);
    assert(after[at] == i);
    assert forall|k: int| 0 <= k < after.len() implies sprung(on, w, first, #[trigger] after[k] as int) by {
        if k < before.len() {
            assert(after.subrange(0, before.len() as int)[k] == before[k]);
            let s = choose|s: int|
                0 <= s < first.len() && #[trigger] linked(on, w, first[s] as int, before[k] as int);
            assert(linked(on, w, first[s] as int, after[k] as int));
        } else {
            assert(before[at] == i);
            assert(after[k] == j);
            assert(sprung(on, w, first, before[at] as int));
            let s = choose|s: int|
                0 <= s < first.len() && #[trigger] linked(on, w, first[s] as int, before[at] as int);
            lemma_linked_step(on, w, first[s] as int, i, j);
            assert(linked(on, w, first[s] as int, after[k] as int));
        }
    }
}

/// Marks and lists the blob of cell `start`, none of which was marked before.
fn flood(on: &Vec<bool>, w: usize, h: usize, seen: &mut Vec<bool>, start: usize) -> (list: Vec<
    usize,
>)
    requires
        is_mask(on@, w as int, h as int),
        old(seen)@.len() == on@.len(),
        start < on@.len(),
        on@[start as int],
        !old(seen)@[start as int],
        whole(on@, w as int, old(seen)@),
    ensures
        final(seen)@.len() == on@.len(),
        whole(on@, w as int, final(seen)@),
        list@.no_duplicates(),
        forall|i: int| #[trigger] listed(list@, i) <==> linked(on@, w as int, start as int, i),
        forall|i: int|
            0 <= i < on@.len() ==> (#[trigger] final(seen)@[i] <==> old(seen)@[i] || listed(
                list@,
                i,
            )),
        forall|k: int| 0 <= k < list@.len() ==> #[trigger] list@[k] < on@.len(),
        list@.len() == blob(on@, w as int, start as int).len(),
{
    let ghost seen0 = seen@;
    let ghost wi = w as int;
    let ghost si = start as int;
    let mut list: Vec<usize> = Vec::new();
    seen.set(start, true);
    list.push(start);
    assert(list@[0] == start);
    proof {
        assert forall|i: int| 0 <= i < on@.len() implies (#[trigger] seen@[i] <==> seen0[i]
            || listed(list@, i)) by {}
    }
    grow(on, w, h, Ghost(seen0), seen, &mut list);
    proof {
        assert(list@.subrange(0, 1)[0] == start);
        assert(list@[0] == start);
        let s = |i: int| 0 <= i < on@.len() && listed(list@, i);
        // No cell linked to the start was marked before.
        assert forall|i: int| linked(on@, wi, si, i) implies 0 <= i < on@.len() && on@[i]
            && !seen0[i] by {
            let path = choose|path: Seq<int>| leads(on@, wi, si, i, path);
            assert(0 <= path[path.len() - 1] < on@.len());
        }
        assert forall|i: int, j: int|
            0 <= i < on@.len() && s(i) && #[trigger] adjacent(i, j, wi) && 0 <= j < on@.len()
                && on@[j] implies #[trigger] s(j) by {
            let k = choose|k: int| 0 <= k < list@.len() && #[trigger] list@[k] == i;
            assert(adjacent(list@[k] as int, j, wi));
            assert(seen@[j]);
            assert(sprung(on@, wi, seq![start], list@[k] as int));
            let t = choose|t: int|
                0 <= t < seq![start].len() && #[trigger] linked(
                    on@,
                    wi,
                    seq![start][t] as int,
                    list@[k] as int,
                );
            assert(linked(on@, wi, si, i));
            lemma_linked_step(on@, wi, si, i, j);
            assert(!seen0[j]);
        }
        assert forall|i: int| #[trigger] listed(list@, i) <==> linked(on@, wi, si, i) by {
            if listed(list@, i) {
                let k = choose|k: int| 0 <= k < list@.len() && #[trigger] list@[k] == i;
                assert(sprung(on@, wi, seq![start], list@[k] as int));
                let t = choose|t: int|
                    0 <= t < seq![start].len() && #[trigger] linked(
                        on@,
                        wi,
                        seq![start][t] as int,
                        list@[k] as int,
                    );
            }
            if linked(on@, wi, si, i) {
                let path = choose|path: Seq<int>| leads(on@, wi, si, i, path);
                assert(s(si));
                lemma_closed(on@, wi, s, si, path);
            }
        }
        lemma_list_is_blob(list@, on@, wi, si);
        assert forall|i: int, j: int|
            0 <= i < on@.len() && 0 <= j < on@.len() && #[trigger] linked(
                on@,
                wi,
                i,
                j,
            ) implies seen@[i] == seen@[j] by {
            law_linked_symmetric(on@, wi, i, j);
            if listed(list@, i) {
                law_linked_transitive(on@, wi, si, i, j);
                assert(listed(list@, j));
            }
            if listed(list@, j) {
                law_linked_transitive(on@, wi, si, j, i);
                assert(listed(list@, i));
            }
        }
    }
    list
}

/// The blobs of a mask: a number for each cell of the mask, and the area of each numbered blob.
pub struct Blobs {
    pub label: Vec<Option<usize>>,
    pub areas: Vec<usize>,
}

impl Blobs {
    /// Exactly the cells of the mask are numbered, two of them alike exactly when they belong to
    /// one blob; every number is in use, and its area is the size of its blob.
    pub open spec fn describes(&self, on: Seq<bool>, w: int) -> bool {
        &&& self.label@.len() == on.len()
        &&& forall|i: int| 0 <= i < on.len() ==> (#[trigger] self.label@[i] is Some <==> on[i])
        &&& forall|i: int|
            0 <= i < on.len() && on[i] ==> (#[trigger] self.label@[i])->0 < self.areas@.len()
                && self.areas@[self.label@[i]->0 as int] == blob(on, w, i).len()
        &&& forall|i: int, j: int|
            0 <= i < on.len() && on[i] && 0 <= j < on.len() && on[j] ==> ((
            #[trigger] self.label@[i] == #[trigger] self.label@[j]) <==> linked(on, w, i, j))
        &&& forall|id: int|
            0 <= id < self.areas@.len() ==> #[trigger] is_used(self.label@, id)
    }
}

/// Some cell carries the number.
pub open spec fn is_used(label: Seq<Option<usize>>, id: int) -> bool {
    exists|i: int| 0 <= i < label.len() && #[trigger] label[i] == Some(id as usize)
}

/// Numbers the blobs of a mask and measures them.
pub fn label_blobs(on: &Vec<bool>, w: usize, h: usize) -> (out: Blobs)
    requires
        is_mask(on@, w as int, h as int),
    ensures
        out.describes(on@, w as int),
{
    let n: usize = on.len();
    let ghost wi = w as int;
    let mut label: Vec<Option<usize>> = vec![None; n];
    let mut areas: Vec<usize> = Vec::new();
    let mut seen: Vec<bool> = vec![false; n];
    let mut start: usize = 0;
    while start < n
        invariant
            is_mask(on@, w as int, h as int),
            wi == w,
            n == on@.len(),
            start <= n,
            label@.len() == n,
            seen@.len() == n,
            areas@.len() <= start,
            whole(on@, wi, seen@),
            forall|i: int| 0 <= i < n && #[trigger] seen@[i] ==> on@[i],
            forall|i: int| 0 <= i < start && on@[i] ==> #[trigger] seen@[i],
            forall|i: int| 0 <= i < n ==> (#[trigger] label@[i] is Some <==> seen@[i]),
            forall|i: int|
                0 <= i < n && seen@[i] ==> (#[trigger] label@[i])->0 < areas@.len()
                    && areas@[label@[i]->0 as int] == blob(on@, wi, i).len(),
            forall|i: int, j: int|
                0 <= i < n && seen@[i] && 0 <= j < n && seen@[j] ==> ((#[trigger] label@[i]
                    == #[trigger] label@[j]) <==> linked(on@, wi, i, j)),
            forall|id: int| 0 <= id < areas@.len() ==> #[trigger] is_used(label@, id),
        decreases n - start,
    {
        if on[start] && !seen[start] {
            let ghost seen0 = seen@;
            let ghost label0 = label@;
            let ghost areas0 = areas@;
            let ghost si = start as int;
            let id: usize = areas.len();
            let list = flood(on, w, h, &mut seen, start);
            let mut k: usize = 0;
            while k < list.len()
                invariant
                    k <= list@.len(),
                    label@.len() == n,
                    label0.len() == n,
                    forall|t: int| 0 <= t < list@.len() ==> #[trigger] list@[t] < n,
                    forall|i: int|
                        0 <= i < n ==> #[trigger] label@[i] == (if listed(
                            list@.subrange(0, k as int),
                            i,
                        ) {
                            Some(id)
                        } else {
                            label0[i]
                        }),
                decreases list@.len() - k,
            {
                let ghost part0 = list@.subrange(0, k as int);
                let ghost part1 = list@.subrange(0, k + 1);
                let ghost was = label@;
                label.set(list[k], Some(id));
                proof {
                    assert forall|i: int| 0 <= i < n implies #[trigger] label@[i] == (if listed(
                        part1,
                        i,
                    ) {
                        Some(id)
                    } else {
                        label0[i]
                    }) by {
                        assert(part1[k as int] == list@[k as int]);
                        if listed(part0, i) {
                            let t = choose|t: int| 0 <= t < part0.len() && #[trigger] part0[t] == i;
                            assert(part1[t] == i);
                        }
                        if listed(part1, i) && i != list@[k as int] {
                            let t = choose|t: int| 0 <= t < part1.len() && #[trigger] part1[t] == i;
                            assert(part0[t] == i);
                        }
                        assert(was[i] == (if listed(part0, i) {
                            Some(id)
                        } else {
                            label0[i]
                        }));
                    }
                }
                k += 1;
            }
            areas.push(list.len());
            proof {
                assert(list@.subrange(0, list@.len() as int) =~= list@);
                assert forall|i: int| #[trigger] linked(on@, wi, si, i) implies 0 <= i < n
                    && on@[i] by {
                    let path = choose|path: Seq<int>| leads(on@, wi, si, i, path);
                    assert(0 <= path[path.len() - 1] < on@.len());
                }
                law_linked_self(on@, wi, si);
                assert(listed(list@, si));
                assert forall|i: int| 0 <= i < n && seen@[i] implies (#[trigger] label@[i])->0
                    < areas@.len() && areas@[label@[i]->0 as int] == blob(on@, wi, i).len() by {
                    if listed(list@, i) {
                        assert(blob(on@, wi, i) =~= blob(on@, wi, si)) by {
                            assert forall|b: int| linked(on@, wi, i, b) <==> linked(
                                on@,
                                wi,
                                si,
                                b,
                            ) by {
                                law_linked_symmetric(on@, wi, si, i);
                                if linked(on@, wi, i, b) {
                                    law_linked_transitive(on@, wi, si, i, b);
                                }
                                if linked(on@, wi, si, b) {
                                    law_linked_transitive(on@, wi, i, si, b);
                                }
                            }
                        }
                    } else {
                        assert(label@[i] == label0[i]);
                        assert(seen0[i]);
                        assert(areas0[label0[i]->0 as int] == areas@[label0[i]->0 as int]);
                    }
                }
                assert forall|i: int, j: int|
                    0 <= i < n && seen@[i] && 0 <= j < n && seen@[j] implies ((
                #[trigger] label@[i] == #[trigger] label@[j]) <==> linked(on@, wi, i, j)) by {
                    if listed(list@, i) && listed(list@, j) {
                        law_linked_symmetric(on@, wi, si, i);
                        law_linked_transitive(on@, wi, i, si, j);
                    } else if listed(list@, i) {
                        assert(seen0[j]);
                        if linked(on@, wi, i, j) {
                            law_linked_transitive(on@, wi, si, i, j);
                        }
                    } else if listed(list@, j) {
                        assert(seen0[i]);
                        if linked(on@, wi, i, j) {
                            law_linked_symmetric(on@, wi, i, j);
                            law_linked_transitive(on@, wi, si, j, i);
                        }
                    } else {
                        assert(label@[i] == label0[i]);
                        assert(label@[j] == label0[j]);
                    }
                }
                assert forall|d: int| 0 <= d < areas@.len() implies #[trigger] is_used(
                    label@,
                    d,
                ) by {
                    if d < id {
                        assert(is_used(label0, d));
                        let i = choose|i: int|
                            0 <= i < label0.len() && #[trigger] label0[i] == Some(d as usize);
                        assert(seen0[i]);
                        assert(!listed(list@, i)) by {
                            if listed(list@, i) {
                                assert(linked(on@, wi, si, i));
                                assert(seen0[si] == seen0[i]);
                            }
                        }
                        assert(label@[i] == Some(d as usize));
                    } else {
                        assert(label@[si] == Some(id));
                    }
                }
            }
        }
        start += 1;
    }
    let out = Blobs { label, areas };
    proof {
        assert forall|i: int| 0 <= i < n implies (#[trigger] out.label@[i] is Some <==> on@[i]) by {
            if on@[i] {
                assert(seen@[i]);
            }
        }
        assert forall|i: int| 0 <= i < on@.len() && on@[i] implies (#[trigger] out.label@[i])->0
            < out.areas@.len() && out.areas@[out.label@[i]->0 as int] == blob(
            on@,
            wi,
            i,
        ).len() by {
            assert(seen@[i]);
        }
        assert forall|i: int, j: int|
            0 <= i < on@.len() && on@[i] && 0 <= j < on@.len() && on@[j] implies ((
        #[trigger] out.label@[i] == #[trigger] out.label@[j]) <==> linked(on@, wi, i, j)) by {
            assert(seen@[i]);
            assert(seen@[j]);
        }
    }
    out
}

/// A blob has no more cells than the mask.
pub proof fn lemma_blob_bound(on: Seq<bool>, w: int, a: int)
    ensures
        blob(on, w, a).finite(),
        blob(on, w, a).len() <= on.len(),
{
    let all = vstd::set_lib::set_int_range(0, on.len() as int);
    vstd::set_lib::lemma_int_range(0, on.len() as int);
    assert forall|b: int| blob(on, w, a).contains(b) implies all.contains(b) by {
        let path = choose|path: Seq<int>| leads(on, w, a, b, path);
        assert(path[path.len() - 1] == b);
    }
    vstd::set_lib::lemma_len_subset(blob(on, w, a), all);
}

/// Size of the largest blob.
pub open spec fn is_largest(on: Seq<bool>, w: int, a: int) -> bool {
    &&& exists|i: int| 0 <= i < on.len() && #[trigger] on[i] && blob(on, w, i).len() == a
    &&& forall|i: int| 0 <= i < on.len() && #[trigger] on[i] ==> blob(on, w, i).len() <= a
}

impl Blobs {
    /// Area of the largest blob, `None` on an empty mask.
    pub fn largest(&self, on: &Vec<bool>, w: usize) -> (out: Option<usize>)
        requires
            self.describes(on@, w as int),
        ensures
            out matches Some(a) ==> is_largest(on@, w as int, a as int),
            out is None <==> forall|i: int| 0 <= i < on@.len() ==> !#[trigger] on@[i],
    {
        let ghost wi = w as int;
        if self.areas.len() == 0 {
            proof {
                assert forall|i: int| 0 <= i < on@.len() implies !#[trigger] on@[i] by {
                    if on@[i] {
                        assert(self.label@[i]->0 < self.areas@.len());
                    }
                }
            }
            return None;
        }
        let mut best: usize = self.areas[0];
        let mut at: usize = 0;
        let mut k: usize = 1;
        while k < self.areas.len()
            invariant
                1 <= k <= self.areas@.len(),
                at < k,
                best == self.areas@[at as int],
                forall|t: int| 0 <= t < k ==> #[trigger] self.areas@[t] <= best,
            decreases self.areas@.len() - k,
        {
            if self.areas[k] >= best {
                best = self.areas[k];
                at = k;
            }
            k += 1;
        }
        proof {
            assert(is_used(self.label@, at as int));
            let i = choose|i: int|
                0 <= i < self.label@.len() && #[trigger] self.label@[i] == Some(at);
            assert(on@[i] && blob(on@, wi, i).len() == best);
            assert forall|i: int| 0 <= i < on@.len() && #[trigger] on@[i] implies blob(
                on@,
                wi,
                i,
            ).len() <= best by {
                assert(self.label@[i] is Some);
                assert(self.areas@[self.label@[i]->0 as int] <= best);
            }
        }
        Some(best)
    }

    /// Marks the cells of all blobs smaller than `keep`.
    pub fn smaller_than(&self, on: &Vec<bool>, w: usize, keep: usize) -> (out: Vec<bool>)
        requires
            self.describes(on@, w as int),
        ensures
            out@.len() == on@.len(),
            forall|i: int|
                0 <= i < on@.len() ==> #[trigger] out@[i] == (on@[i] && blob(on@, w as int, i).len()
                    < keep),
    {
        let n: usize = on.len();
        let mut out: Vec<bool> = Vec::new();
        let mut i: usize = 0;
        while i < n
            invariant
                i <= n,
                n == on@.len(),
                out@.len() == i,
                self.describes(on@, w as int),
                forall|t: int|
                    0 <= t < i ==> #[trigger] out@[t] == (on@[t] && blob(on@, w as int, t).len()
                        < keep),
            decreases n - i,
        {
            let small: bool = match self.label[i] {
                None => false,
                Some(id) => self.areas[id] < keep,
            };
            out.push(small);
            i += 1;
        }
        out
    }
}

/// A cell stays: it is on the mask, its blob holds a core cell and has at least `speck` cells.
pub open spec fn stays(on: Seq<bool>, core: Seq<bool>, w: int, speck: int, i: int) -> bool {
    &&& on[i]
    &&& exists|c: int| 0 <= c < core.len() && core[c] && #[trigger] linked(on, w, i, c)
    &&& blob(on, w, i).len() >= speck
}

/// Keeps the blobs that hold a core cell and have at least `speck` cells.
pub fn keep_cored(on: &Vec<bool>, core: &Vec<bool>, w: usize, h: usize, speck: usize) -> (keep: Vec<
    bool,
>)
    requires
        is_mask(on@, w as int, h as int),
        core@.len() == on@.len(),
    ensures
        keep@.len() == on@.len(),
        forall|i: int|
            0 <= i < on@.len() ==> #[trigger] keep@[i] == stays(
                on@,
                core@,
                w as int,
                speck as int,
                i,
            ),
{
    let n: usize = on.len();
    let ghost wi = w as int;
    let blobs = label_blobs(on, w, h);
    let m: usize = blobs.areas.len();
    let mut cored: Vec<bool> = vec![false; m];
    let mut i: usize = 0;
    while i < n
        invariant
            i <= n,
            n == on@.len(),
            wi == w,
            core@.len() == n,
            blobs.describes(on@, wi),
            cored@.len() == blobs.areas@.len(),
            cored@.len() == m,
            forall|id: int|
                0 <= id < cored@.len() ==> (#[trigger] cored@[id] <==> has_core(
                    blobs.label@,
                    core@,
                    id,
                    i as int,
                )),
        decreases n - i,
    {
        let ghost was = cored@;
        let hit: Option<usize> = if core[i] {
            blobs.label[i]
        } else {
            None
        };
        if let Some(id) = hit {
            cored.set(id, true);
        }
        proof {
            assert forall|id: int| 0 <= id < cored@.len() implies (#[trigger] cored@[id]
                <==> has_core(blobs.label@, core@, id, i + 1)) by {
                assert(was[id] <==> has_core(blobs.label@, core@, id, i as int));
                if hit == Some(id as usize) {
                    assert(core@[i as int] && blobs.label@[i as int] == Some(id as usize));
                    assert(has_core(blobs.label@, core@, id, i + 1));
                }
                if has_core(blobs.label@, core@, id, i as int) {
                    let c = choose|c: int|
                        0 <= c < i && core@[c] && #[trigger] blobs.label@[c] == Some(id as usize);
                    assert(blobs.label@[c] == Some(id as usize));
                }
                if has_core(blobs.label@, core@, id, i + 1) {
                    let c = choose|c: int|
                        0 <= c < i + 1 && core@[c] && #[trigger] blobs.label@[c] == Some(
                            id as usize,
                        );
                    if c < i {
                        assert(has_core(blobs.label@, core@, id, i as int));
                    }
                }
                if cored@[id] && !was[id] {
                    assert(blobs.label@[i as int] == Some(id as usize));
                }
            }
        }
        i += 1;
    }
    let mut keep: Vec<bool> = Vec::new();
    let mut i: usize = 0;
    while i < n
        invariant
            i <= n,
            n == on@.len(),
            wi == w,
            core@.len() == n,
            blobs.describes(on@, wi),
            cored@.len() == blobs.areas@.len(),
            cored@.len() == m,
            keep@.len() == i,
            forall|id: int|
                0 <= id < cored@.len() ==> (#[trigger] cored@[id] <==> has_core(
                    blobs.label@,
                    core@,
                    id,
                    n as int,
                )),
            forall|t: int|
                0 <= t < i ==> #[trigger] keep@[t] == stays(on@, core@, wi, speck as int, t),
        decreases n - i,
    {
        let k: bool = match blobs.label[i] {
            None => false,
            Some(id) => cored[id] && blobs.areas[id] >= speck,
        };
        proof {
            let ii = i as int;
            if on@[ii] {
                let id = blobs.label@[ii]->0 as int;
                assert(blobs.label@[ii] == Some(id as usize));
                if has_core(blobs.label@, core@, id, n as int) {
                    let c = choose|c: int|
                        0 <= c < n && core@[c] && #[trigger] blobs.label@[c] == Some(id as usize);
                    assert(on@[c]);
                    assert(linked(on@, wi, ii, c));
                }
                if exists|c: int| 0 <= c < core@.len() && core@[c] && #[trigger] linked(on@, wi, ii, c) {
                    let c = choose|c: int|
                        0 <= c < core@.len() && core@[c] && #[trigger] linked(on@, wi, ii, c);
                    let path = choose|path: Seq<int>| leads(on@, wi, ii, c, path);
                    assert(on@[path[path.len() - 1]]);
                    assert(blobs.label@[c] == blobs.label@[ii]);
                    assert(has_core(blobs.label@, core@, id, n as int));
                }
            }
        }
        keep.push(k);
        i += 1;
    }
    keep
}

/// Some core cell among the first `n` carries the number.
spec fn has_core(label: Seq<Option<usize>>, core: Seq<bool>, id: int, n: int) -> bool {
    exists|c: int| 0 <= c < n && core[c] && #[trigger] label[c] == Some(id as usize)
}

/// The cell lies on the rim of a `w` by `h` grid.
pub open spec fn on_rim(i: int, w: int, h: int) -> bool {
    i % w == 0 || i / w == 0 || i % w + 1 == w || i / w + 1 == h
}

/// Every cell that the mask does not hold.
pub open spec fn outside(on: Seq<bool>) -> Seq<bool> {
    Seq::new(on.len(), |i: int| !on[i])
}

/// The cell is free and hangs together, over free cells, with the rim of the grid.
pub open spec fn open_to_rim(on: Seq<bool>, w: int, h: int, i: int) -> bool {
    exists|r: int|
        0 <= r < on.len() && on_rim(r, w, h) && #[trigger] linked(outside(on), w, r, i)
}

/// Fills the holes of a mask: every cell that is not open to the rim joins it.
pub fn fill_holes(on: &Vec<bool>, w: usize, h: usize) -> (out: Vec<bool>)
    requires
        is_mask(on@, w as int, h as int),
    ensures
        out@.len() == on@.len(),
        forall|i: int|
            0 <= i < on@.len() ==> #[trigger] out@[i] == !open_to_rim(on@, w as int, h as int, i),
        forall|i: int| 0 <= i < on@.len() && on@[i] ==> #[trigger] out@[i],
{
    let n: usize = on.len();
    let ghost wi = w as int;
    let ghost hi = h as int;
    let mut free: Vec<bool> = Vec::new();
    let mut i: usize = 0;
    while i < n
        invariant
            i <= n,
            n == on@.len(),
            free@.len() == i,
            forall|t: int| 0 <= t < i ==> #[trigger] free@[t] == !on@[t],
        decreases n - i,
    {
        free.push(!on[i]);
        i += 1;
    }
    assert(free@ =~= outside(on@));
    let mut seen: Vec<bool> = vec![false; n];
    let mut list: Vec<usize> = Vec::new();
    let ghost seen0 = seen@;
    let mut i: usize = 0;
    while i < n
        invariant
            i <= n,
            n == on@.len(),
            is_mask(on@, wi, hi),
            wi == w,
            hi == h,
            free@ == outside(on@),
            growing(free@, wi, seen0, seen@, list@),
            forall|t: int| 0 <= t < n ==> !#[trigger] seen0[t],
            forall|k: int| 0 <= k < list@.len() ==> on_rim(#[trigger] list@[k] as int, wi, hi),
            forall|t: int| 0 <= t < i && on_rim(t, wi, hi) && free@[t] ==> #[trigger] seen@[t],
        decreases n - i,
    {
        proof {
            if w == 0 {
                assert(w * h == 0) by (nonlinear_arith)
                    requires
                        w == 0,
                ;
            }
            grid::lemma_cell_split(i as int, wi, hi);
        }
        let x: usize = i % w;
        let y: usize = i / w;
        if x == 0 || y == 0 || x + 1 == w || y + 1 == h {
            let ghost list0 = list@;
            visit(&free, Ghost(wi), Ghost(seen0), i, &mut seen, &mut list);
            proof {
                assert forall|k: int| 0 <= k < list@.len() implies on_rim(
                    #[trigger] list@[k] as int,
                    wi,
                    hi,
                ) by {
                    if k < list0.len() {
                        assert(list@.subrange(0, list0.len() as int)[k] == list0[k]);
                    }
                }
            }
        }
        i += 1;
    }
    let ghost rim = list@;
    let ghost seen1 = seen@;
    grow(&free, w, h, Ghost(seen0), &mut seen, &mut list);
    let mut out: Vec<bool> = Vec::new();
    let mut i: usize = 0;
    while i < n
        invariant
            i <= n,
            n == on@.len(),
            n == seen@.len(),
            out@.len() == i,
            forall|t: int| 0 <= t < i ==> #[trigger] out@[t] == (on@[t] || !seen@[t]),
        decreases n - i,
    {
        out.push(on[i] || !seen[i]);
        i += 1;
    }
    proof {
        let f = free@;
        assert forall|i: int| 0 <= i < n implies seen@[i] == open_to_rim(on@, wi, hi, i) by {
            if seen@[i] {
                assert(listed(list@, i));
                let k = choose|k: int| 0 <= k < list@.len() && #[trigger] list@[k] == i;
                assert(sprung(f, wi, rim, list@[k] as int));
                let s = choose|s: int|
                    0 <= s < rim.len() && #[trigger] linked(f, wi, rim[s] as int, list@[k] as int);
                let r = rim[s] as int;
                assert(list@.subrange(0, rim.len() as int)[s] == rim[s]);
                assert(list@[s] == rim[s]);
                assert(on_rim(r, wi, hi) && linked(outside(on@), wi, r, i));
            }
            if open_to_rim(on@, wi, hi, i) {
                let r = choose|r: int|
                    0 <= r < on@.len() && on_rim(r, wi, hi) && #[trigger] linked(
                        outside(on@),
                        wi,
                        r,
                        i,
                    );
                let path = choose|path: Seq<int>| leads(f, wi, r, i, path);
                assert(f[path[0]]);
                let s = |j: int| 0 <= j < n && seen@[j];
                assert(seen1[r]);
                lemma_rim_seen(f, wi, seen0, seen@, list@, rim, r);
                assert(s(r));
                assert forall|a: int, b: int|
                    0 <= a < f.len() && s(a) && #[trigger] adjacent(a, b, wi) && 0 <= b < f.len()
                        && f[b] implies #[trigger] s(b) by {
                    assert(listed(list@, a));
                    let k = choose|k: int| 0 <= k < list@.len() && #[trigger] list@[k] == a;
                    assert(adjacent(list@[k] as int, b, wi));
                }
                lemma_closed(f, wi, s, r, path);
            }
        }
        assert forall|i: int| 0 <= i < on@.len() implies #[trigger] out@[i] == !open_to_rim(
            on@,
            wi,
            hi,
            i,
        ) by {
            assert(seen@[i] == open_to_rim(on@, wi, hi, i));
            if on@[i] && seen@[i] {
                assert(listed(list@, i));
                let k = choose|k: int| 0 <= k < list@.len() && #[trigger] list@[k] == i;
                assert(f[list@[k] as int]);
            }
        }
    }
    out
}

/// A cell on the list of rim cells is still marked once the list has grown.
proof fn lemma_rim_seen(
    on: Seq<bool>,
    w: int,
    seen0: Seq<bool>,
    seen: Seq<bool>,
    list: Seq<usize>,
    rim: Seq<usize>,
    r: int,
)
    requires
        growing(on, w, seen0, seen, list),
        rim.len() <= list.len(),
        list.subrange(0, rim.len() as int) == rim,
        0 <= r < on.len(),
        listed(rim, r),
    ensures
        seen[r],
{
    let k = choose|k: int| 0 <= k < rim.len() && #[trigger] rim[k] == r;
    assert(list.subrange(0, rim.len() as int)[k] == rim[k]);
    assert(list[k] == r);
}

/// The mask with its holes filled.
pub open spec fn filled(on: Seq<bool>, w: int, h: int) -> Seq<bool> {
    Seq::new(on.len(), |i: int| !open_to_rim(on, w, h, i))
}

/// Filling holes leaves none to fill.
pub proof fn law_filling_is_final(on: Seq<bool>, w: int, h: int)
    ensures
        filled(filled(on, w, h), w, h) == filled(on, w, h),
{
    let f = filled(on, w, h);
    let a = outside(on);
    let b = outside(f);
    assert forall|i: int| 0 <= i < on.len() implies #[trigger] filled(f, w, h)[i] == f[i] by {
        if open_to_rim(f, w, h, i) {
            let r = choose|r: int|
                0 <= r < f.len() && on_rim(r, w, h) && #[trigger] linked(b, w, r, i);
            let path = choose|path: Seq<int>| leads(b, w, r, i, path);
            assert forall|k: int| 0 <= k < path.len() implies 0 <= #[trigger] path[k] < a.len()
                && a[path[k]] by {
                assert(b[path[k]]);
                assert(open_to_rim(on, w, h, path[k]));
                let q = choose|q: int|
                    0 <= q < on.len() && on_rim(q, w, h) && #[trigger] linked(a, w, q, path[k]);
                let way = choose|way: Seq<int>| leads(a, w, q, path[k], way);
                assert(a[way[way.len() - 1]]);
            }
            assert(leads(a, w, r, i, path));
            assert(linked(a, w, r, i));
            assert(open_to_rim(on, w, h, i));
        }
        if open_to_rim(on, w, h, i) {
            let r = choose|r: int|
                0 <= r < on.len() && on_rim(r, w, h) && #[trigger] linked(a, w, r, i);
            let path = choose|path: Seq<int>| leads(a, w, r, i, path);
            assert forall|k: int| 0 <= k < path.len() implies 0 <= #[trigger] path[k] < b.len()
                && b[path[k]] by {
                let head = path.subrange(0, k + 1);
                assert forall|j: int| 0 < j < head.len() implies #[trigger] path_step(head, w, j) by {
                    assert(path_step(path, w, j));
                }
                assert(leads(a, w, r, path[k], head));
                assert(linked(a, w, r, path[k]));
                assert(open_to_rim(on, w, h, path[k]));
            }
            assert(leads(b, w, r, i, path));
            assert(linked(b, w, r, i));
            assert(open_to_rim(f, w, h, i));
        }
    }
    assert(filled(f, w, h) =~= f);
}

} // verus!
