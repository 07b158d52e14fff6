//! The mathematical model of a hierarchy: the two component columns of one tag as maps,
//! the list of children that the sibling links spell out, and the well-formedness that
//! every operation keeps.
use vstd::prelude::*;

use crate::components::{ChildRec, ParentRec};

verus! {

/// The entities met by following `next` links from `start`, at most `n` of them,
/// stopping early at an entity that has no `Child` component.
pub open spec fn walk(cs: Map<u64, ChildRec>, start: u64, n: nat) -> Seq<u64>
    decreases n,
{
    if n == 0 || !cs.contains_key(start) {
        Seq::empty()
    } else {
        seq![start] + walk(cs, cs[start].1, (n - 1) as nat)
    }
}

/// The children of `p`, first to last: `num_children` steps along the list, from the
/// sibling after the last child. Empty when `p` has no `Parent` component.
pub open spec fn kids(ps: Map<u64, ParentRec>, cs: Map<u64, ChildRec>, p: u64) -> Seq<u64> {
    if ps.contains_key(p) && cs.contains_key(ps[p].1) {
        walk(cs, cs[ps[p].1].1, ps[p].0 as nat)
    } else {
        Seq::empty()
    }
}

pub open spec fn next_index(i: int, n: int) -> int {
    if i + 1 == n {
        0
    } else {
        i + 1
    }
}

pub open spec fn prev_index(i: int, n: int) -> int {
    if i == 0 {
        n - 1
    } else {
        i - 1
    }
}

/// The entry of `s` at `i` is a child of `p` whose links point at its neighbours in `s`,
/// read as a cycle.
pub open spec fn linked(cs: Map<u64, ChildRec>, p: u64, s: Seq<u64>, i: int) -> bool {
    &&& cs.contains_key(s[i])
    &&& cs[s[i]].0 == p
    &&& cs[s[i]].1 == s[next_index(i, s.len() as int)]
    &&& cs[s[i]].2 == s[prev_index(i, s.len() as int)]
}

/// `s` is a nonempty cycle of distinct children of `p`, linked both ways.
pub open spec fn ring(cs: Map<u64, ChildRec>, p: u64, s: Seq<u64>) -> bool {
    &&& s.len() >= 1
    &&& s.no_duplicates()
    &&& forall|i: int| 0 <= i < s.len() ==> #[trigger] linked(cs, p, s, i)
}

/// The `Parent` component of `p` describes the cycle of its children.
pub open spec fn parent_ok(ps: Map<u64, ParentRec>, cs: Map<u64, ChildRec>, p: u64) -> bool {
    &&& cs.contains_key(ps[p].1)
    &&& ring(cs, p, kids(ps, cs, p))
    &&& kids(ps, cs, p).len() == ps[p].0
    &&& kids(ps, cs, p).last() == ps[p].1
}

/// Well-formedness of one hierarchy: every parent's children form one cycle whose length
/// is the recorded count and which ends at the recorded last child, and every child is
/// in the cycle of the parent it names.
#[verifier::opaque]
pub open spec fn wf(ps: Map<u64, ParentRec>, cs: Map<u64, ChildRec>) -> bool {
    &&& forall|p: u64| #[trigger] ps.contains_key(p) ==> parent_ok(ps, cs, p)
    &&& forall|c: u64| #[trigger] cs.contains_key(c) ==> ps.contains_key(cs[c].0) && kids(
        ps,
        cs,
        cs[c].0,
    ).contains(c)
}

/// Walking a cycle from any of its members gives the members in order.
pub proof fn lemma_walk_ring(cs: Map<u64, ChildRec>, p: u64, s: Seq<u64>, k: int, m: nat)
    requires
        ring(cs, p, s),
        0 <= k,
        k + m <= s.len(),
    ensures
        walk(cs, s[k], m) == s.subrange(k, k + m),
    decreases m,
{
    if m > 0 {
        assert(linked(cs, p, s, k));
        let rest = walk(cs, cs[s[k]].1, (m - 1) as nat);
        assert(walk(cs, s[k], m) == seq![s[k]] + rest);
        if m > 1 {
            assert(cs[s[k]].1 == s[k + 1]);
            lemma_walk_ring(cs, p, s, k + 1, (m - 1) as nat);
        } else {
            assert(rest =~= Seq::<u64>::empty());
        }
        assert(walk(cs, s[k], m) =~= s.subrange(k, k + m));
    } else {
        assert(walk(cs, s[k], m) =~= s.subrange(k, k + m));
    }
}

/// A cycle survives any change that leaves its members' records alone.
pub proof fn lemma_ring_frame(cs: Map<u64, ChildRec>, cs2: Map<u64, ChildRec>, p: u64, s: Seq<u64>)
    requires
        ring(cs, p, s),
        forall|i: int| 0 <= i < s.len() ==> cs2.contains_key(#[trigger] s[i]) && cs2[s[i]] == cs[s[i]],
    ensures
        ring(cs2, p, s),
{
    assert forall|i: int| 0 <= i < s.len() implies #[trigger] linked(cs2, p, s, i) by {
        assert(linked(cs, p, s, i));
    }
}

/// The children of a parent in a well-formed hierarchy: a cycle walked from its first member.
pub proof fn lemma_kids_of_parent(ps: Map<u64, ParentRec>, cs: Map<u64, ChildRec>, p: u64)
    requires
        wf(ps, cs),
        ps.contains_key(p),
    ensures
        ring(cs, p, kids(ps, cs, p)),
        kids(ps, cs, p).len() == ps[p].0,
        kids(ps, cs, p).last() == ps[p].1,
        ps[p].0 >= 1,
        cs.contains_key(ps[p].1),
        cs[ps[p].1].1 == kids(ps, cs, p)[0],
{
    reveal(wf);
    let s = kids(ps, cs, p);
    assert(parent_ok(ps, cs, p));
    assert(linked(cs, p, s, s.len() - 1));
}

/// A parent other than `p` keeps its children when only records of `p`'s children change
/// and new children of other parents appear.
pub proof fn lemma_other_parent(
    ps: Map<u64, ParentRec>,
    cs: Map<u64, ChildRec>,
    ps2: Map<u64, ParentRec>,
    cs2: Map<u64, ChildRec>,
    q: u64,
)
    requires
        wf(ps, cs),
        ps.contains_key(q),
        ps2.contains_key(q),
        ps2[q] == ps[q],
        forall|c: u64| cs.contains_key(c) && cs[c].0 == q ==> #[trigger] cs2.contains_key(c) && cs2[c]
            == cs[c],
    ensures
        kids(ps2, cs2, q) == kids(ps, cs, q),
        parent_ok(ps2, cs2, q),
{
    let t = kids(ps, cs, q);
    lemma_kids_of_parent(ps, cs, q);
    assert forall|i: int| 0 <= i < t.len() implies cs2.contains_key(#[trigger] t[i]) && cs2[t[i]]
        == cs[t[i]] by {
        assert(linked(cs, q, t, i));
    }
    lemma_ring_frame(cs, cs2, q, t);
    assert(linked(cs, q, t, t.len() - 1));
    lemma_walk_ring(cs2, q, t, 0, t.len());
    assert(t.subrange(0, t.len() as int) =~= t);
}

} // verus!

verus! {

/// The child column after `c` is put at the end of the cycle of `p`, whose last child is
/// `last`: the old last child and the first child are linked to `c`, and `c` to them.
pub open spec fn splice_links(cs: Map<u64, ChildRec>, p: u64, c: u64, last: u64) -> Map<
    u64,
    ChildRec,
> {
    let first = cs[last].1;
    let cs1 = cs.insert(last, (cs[last].0, c, cs[last].2));
    let cs2 = cs1.insert(first, (cs1[first].0, cs1[first].1, c));
    cs2.insert(c, (p, first, last))
}

/// Attaching a loose entity to a parent without children keeps the hierarchy well formed
/// and makes the entity the parent's only child.
pub proof fn lemma_attach_first(ps: Map<u64, ParentRec>, cs: Map<u64, ChildRec>, p: u64, c: u64)
    requires
        wf(ps, cs),
        !ps.contains_key(p),
        !cs.contains_key(c),
    ensures
        wf(ps.insert(p, (1usize, c)), cs.insert(c, (p, c, c))),
        kids(ps.insert(p, (1usize, c)), cs.insert(c, (p, c, c)), p) == seq![c],
        forall|q: u64| q != p ==> #[trigger] kids(ps.insert(p, (1usize, c)), cs.insert(c, (p, c, c)), q)
            == kids(ps, cs, q),
{
    reveal(wf);
    let ps1 = ps.insert(p, (1usize, c));
    let cs1 = cs.insert(c, (p, c, c));
    let s1 = seq![c];
    assert(linked(cs1, p, s1, 0));
    assert(ring(cs1, p, s1));
    lemma_walk_ring(cs1, p, s1, 0, 1);
    assert(s1.subrange(0, 1) =~= s1);
    assert(kids(ps1, cs1, p) == s1);
    assert forall|q: u64| ps.contains_key(q) implies kids(ps1, cs1, q) == kids(ps, cs, q)
        && parent_ok(ps1, cs1, q) by {
        assert forall|x: u64| cs.contains_key(x) && cs[x].0 == q implies #[trigger] cs1.contains_key(x)
            && cs1[x] == cs[x] by {}
        lemma_other_parent(ps, cs, ps1, cs1, q);
    }
    assert forall|q: u64| q != p implies #[trigger] kids(ps1, cs1, q) == kids(ps, cs, q) by {
        if !ps.contains_key(q) {
            assert(!ps1.contains_key(q));
        }
    }
    assert forall|q: u64| #[trigger] ps1.contains_key(q) implies parent_ok(ps1, cs1, q) by {}
    assert forall|x: u64| #[trigger] cs1.contains_key(x) implies ps1.contains_key(cs1[x].0) && kids(
        ps1,
        cs1,
        cs1[x].0,
    ).contains(x) by {
        if x == c {
            assert(s1[0] == c);
        } else {
            let q = cs[x].0;
            assert(cs.contains_key(x));
            assert(kids(ps, cs, q).contains(x));
        }
    }
}

/// After `c` joins the cycle `s` of `p` at its end, each position of the longer cycle is
/// linked.
proof fn lemma_splice_linked(cs: Map<u64, ChildRec>, p: u64, s: Seq<u64>, c: u64, i: int)
    requires
        ring(cs, p, s),
        !cs.contains_key(c),
        0 <= i <= s.len(),
    ensures
        linked(splice_links(cs, p, c, s.last()), p, s.push(c), i),
{
    let n = s.len() as int;
    let last = s[n - 1];
    let first = s[0];
    let cs1 = splice_links(cs, p, c, last);
    let s1 = s.push(c);
    assert(linked(cs, p, s, n - 1));
    assert(linked(cs, p, s, 0));
    assert(cs[last].1 == first);
    if i < n {
        assert(linked(cs, p, s, i));
        assert(s1[i] == s[i]);
        if i != 0 && i != n - 1 {
            assert(s[i] != last) by {
                assert(s.no_duplicates());
            }
            assert(s[i] != first) by {
                assert(s.no_duplicates());
            }
        }
    }
}

/// After `c` joins the cycle `s` of `p` at its end, the longer sequence is a cycle.
proof fn lemma_splice_ring(cs: Map<u64, ChildRec>, p: u64, s: Seq<u64>, c: u64)
    requires
        ring(cs, p, s),
        !cs.contains_key(c),
    ensures
        ring(splice_links(cs, p, c, s.last()), p, s.push(c)),
{
    let n = s.len() as int;
    let s1 = s.push(c);
    assert forall|i: int| 0 <= i < n implies #[trigger] s[i] != c by {
        assert(linked(cs, p, s, i));
    }
    assert(s1.no_duplicates()) by {
        assert forall|i: int, j: int| 0 <= i < s1.len() && 0 <= j < s1.len() && i != j implies s1[i]
            != s1[j] by {
            if i < n && j < n {
                assert(s[i] != s[j]);
            }
        }
    }
    assert forall|i: int| 0 <= i < s1.len() implies #[trigger] linked(
        splice_links(cs, p, c, s.last()),
        p,
        s1,
        i,
    ) by {
        lemma_splice_linked(cs, p, s, c, i);
    }
}

/// Attaching a loose entity to a parent that has children keeps the hierarchy well formed
/// and appends the entity to the parent's children; no other parent's children change.
pub proof fn lemma_attach_more(ps: Map<u64, ParentRec>, cs: Map<u64, ChildRec>, p: u64, c: u64)
    requires
        wf(ps, cs),
        ps.contains_key(p),
        ps[p].0 < usize::MAX,
        !cs.contains_key(c),
    ensures
        ({
            let ps1 = ps.insert(p, ((ps[p].0 + 1) as usize, c));
            let cs1 = splice_links(cs, p, c, ps[p].1);
            &&& wf(ps1, cs1)
            &&& kids(ps1, cs1, p) == kids(ps, cs, p).push(c)
            &&& forall|q: u64| q != p ==> #[trigger] kids(ps1, cs1, q) == kids(ps, cs, q)
        }),
{
    reveal(wf);
    let n = ps[p].0 as int;
    let last = ps[p].1;
    let s = kids(ps, cs, p);
    lemma_kids_of_parent(ps, cs, p);
    let ps1 = ps.insert(p, ((ps[p].0 + 1) as usize, c));
    let cs1 = splice_links(cs, p, c, last);
    let s1 = s.push(c);
    lemma_splice_ring(cs, p, s, c);
    lemma_walk_ring(cs1, p, s1, 0, s1.len());
    assert(linked(cs1, p, s1, n));
    assert(s1.subrange(0, s1.len() as int) =~= s1);
    assert(kids(ps1, cs1, p) == s1);
    lemma_attach_others(ps, cs, p, c);
    assert forall|q: u64| #[trigger] ps1.contains_key(q) implies parent_ok(ps1, cs1, q) by {}
    assert forall|x: u64| #[trigger] cs1.contains_key(x) implies ps1.contains_key(cs1[x].0) && kids(
        ps1,
        cs1,
        cs1[x].0,
    ).contains(x) by {
        if x == c {
            assert(s1[n] == c);
        } else {
            let q = cs[x].0;
            assert(cs.contains_key(x));
            assert(linked(cs, p, s, n - 1));
            assert(linked(cs, p, s, 0));
            assert(cs1[x].0 == q);
            assert(kids(ps, cs, q).contains(x));
            if q == p {
                let i = choose|i: int| 0 <= i < s.len() && s[i] == x;
                assert(s1[i] == x);
            }
        }
    }
}

/// Attaching a loose entity to a parent that has children leaves every other parent's
/// cycle as it was.
proof fn lemma_attach_others(ps: Map<u64, ParentRec>, cs: Map<u64, ChildRec>, p: u64, c: u64)
    requires
        wf(ps, cs),
        ps.contains_key(p),
        ps[p].0 < usize::MAX,
        !cs.contains_key(c),
    ensures
        ({
            let ps1 = ps.insert(p, ((ps[p].0 + 1) as usize, c));
            let cs1 = splice_links(cs, p, c, ps[p].1);
            &&& forall|q: u64| q != p ==> #[trigger] kids(ps1, cs1, q) == kids(ps, cs, q)
            &&& forall|q: u64| q != p && #[trigger] ps.contains_key(q) ==> parent_ok(ps1, cs1, q)
        }),
{
    let n = ps[p].0 as int;
    let last = ps[p].1;
    let s = kids(ps, cs, p);
    lemma_kids_of_parent(ps, cs, p);
    let ps1 = ps.insert(p, ((ps[p].0 + 1) as usize, c));
    let cs1 = splice_links(cs, p, c, last);
    assert(linked(cs, p, s, n - 1));
    assert(linked(cs, p, s, 0));
    assert forall|q: u64| ps.contains_key(q) && q != p implies kids(ps1, cs1, q) == kids(ps, cs, q)
        && parent_ok(ps1, cs1, q) by {
        assert forall|x: u64| cs.contains_key(x) && cs[x].0 == q implies #[trigger] cs1.contains_key(x)
            && cs1[x] == cs[x] by {}
        lemma_other_parent(ps, cs, ps1, cs1, q);
    }
    assert forall|q: u64| q != p implies #[trigger] kids(ps1, cs1, q) == kids(ps, cs, q) by {
        if !ps.contains_key(q) {
            assert(!ps1.contains_key(q));
        }
    }
}

} // verus!

verus! {

/// The child column after `c` leaves its cycle: its neighbours are linked to each other
/// and its own `Child` record is dropped.
pub open spec fn unlink_links(cs: Map<u64, ChildRec>, c: u64) -> Map<u64, ChildRec> {
    let nx = cs[c].1;
    let pv = cs[c].2;
    let cs1 = cs.insert(pv, (cs[pv].0, nx, cs[pv].2));
    let cs2 = cs1.insert(nx, (cs1[nx].0, cs1[nx].1, pv));
    cs2.remove(c)
}

/// The parent column after `c` leaves its cycle: the parent loses its `Parent` record when
/// `c` was its only child, and otherwise counts one child less and, when `c` was the last
/// child, takes `c`'s predecessor as last child.
pub open spec fn unlink_parent(ps: Map<u64, ParentRec>, cs: Map<u64, ChildRec>, c: u64) -> Map<
    u64,
    ParentRec,
> {
    let p = cs[c].0;
    if ps[p].0 <= 1 {
        ps.remove(p)
    } else {
        ps.insert(
            p,
            ((ps[p].0 - 1) as usize, if ps[p].1 == c {
                cs[c].2
            } else {
                ps[p].1
            }),
        )
    }
}

/// After `s[i]` leaves a cycle of two or more, the rest of the cycle is linked again at
/// each position.
proof fn lemma_unlink_linked(cs: Map<u64, ChildRec>, p: u64, s: Seq<u64>, i: int, j: int)
    requires
        ring(cs, p, s),
        s.len() >= 2,
        0 <= i < s.len(),
        0 <= j < s.len() - 1,
    ensures
        linked(unlink_links(cs, s[i]), p, s.remove(i), j),
{
    let n = s.len() as int;
    let c = s[i];
    let cs1 = unlink_links(cs, c);
    let s1 = s.remove(i);
    s.remove_ensures(i);
    assert(linked(cs, p, s, i));
    assert(linked(cs, p, s, next_index(i, n)));
    assert(linked(cs, p, s, prev_index(i, n)));
    let k = if j < i {
        j
    } else {
        j + 1
    };
    assert(s1[j] == s[k]);
    assert(linked(cs, p, s, k));
    assert(s[k] != c);
    let kn = if next_index(j, n - 1) < i {
        next_index(j, n - 1)
    } else {
        next_index(j, n - 1) + 1
    };
    let kp = if prev_index(j, n - 1) < i {
        prev_index(j, n - 1)
    } else {
        prev_index(j, n - 1) + 1
    };
    assert(s1[next_index(j, n - 1)] == s[kn]);
    assert(s1[prev_index(j, n - 1)] == s[kp]);
}

/// After `s[i]` leaves a cycle of two or more, the rest is a cycle.
proof fn lemma_unlink_ring(cs: Map<u64, ChildRec>, p: u64, s: Seq<u64>, i: int)
    requires
        ring(cs, p, s),
        s.len() >= 2,
        0 <= i < s.len(),
    ensures
        ring(unlink_links(cs, s[i]), p, s.remove(i)),
{
    let s1 = s.remove(i);
    s.remove_ensures(i);
    assert forall|j: int| 0 <= j < s1.len() implies #[trigger] linked(
        unlink_links(cs, s[i]),
        p,
        s1,
        j,
    ) by {
        lemma_unlink_linked(cs, p, s, i, j);
    }
}

/// Detaching a child keeps the hierarchy well formed and removes exactly that child from
/// its parent's children; no other parent's children change.
/// After a child leaves a cycle of two or more, its parent's children are the rest of
/// the cycle, in order.
proof fn lemma_detach_same_parent(ps: Map<u64, ParentRec>, cs: Map<u64, ChildRec>, c: u64)
    requires
        wf(ps, cs),
        cs.contains_key(c),
        ps.contains_key(cs[c].0),
        kids(ps, cs, cs[c].0).len() >= 2,
        kids(ps, cs, cs[c].0).contains(c),
    ensures
        ({
            let p = cs[c].0;
            let s = kids(ps, cs, p);
            let ps1 = unlink_parent(ps, cs, c);
            let cs1 = unlink_links(cs, c);
            &&& kids(ps1, cs1, p) == s.remove(s.index_of(c))
            &&& parent_ok(ps1, cs1, p)
        }),
{
    let p = cs[c].0;
    let s = kids(ps, cs, p);
    let n = s.len() as int;
    let ps1 = unlink_parent(ps, cs, c);
    let cs1 = unlink_links(cs, c);
    lemma_kids_of_parent(ps, cs, p);
    let i = s.index_of(c);
    assert(linked(cs, p, s, i));
    let s1 = s.remove(i);
    s.remove_ensures(i);
    lemma_unlink_ring(cs, p, s, i);
    assert(ps1[p].1 == s1[n - 2]) by {
        if ps[p].1 == c {
            assert(i == n - 1);
        } else {
            assert(i != n - 1);
        }
    }
    assert(linked(cs1, p, s1, n - 2));
    lemma_walk_ring(cs1, p, s1, 0, (n - 1) as nat);
    assert(s1.subrange(0, n - 1) =~= s1);
}

/// Detaching a child keeps the hierarchy well formed and removes exactly that child from
/// its parent's children; no other parent's children change.
pub proof fn lemma_detach(ps: Map<u64, ParentRec>, cs: Map<u64, ChildRec>, c: u64)
    requires
        wf(ps, cs),
        cs.contains_key(c),
    ensures
        ({
            let p = cs[c].0;
            let s = kids(ps, cs, p);
            let ps1 = unlink_parent(ps, cs, c);
            let cs1 = unlink_links(cs, c);
            &&& ps.contains_key(p)
            &&& cs.contains_key(cs[c].1)
            &&& cs.contains_key(cs[c].2)
            &&& wf(ps1, cs1)
            &&& 0 <= s.index_of(c) < s.len()
            &&& s[s.index_of(c)] == c
            &&& kids(ps1, cs1, p) == s.remove(s.index_of(c))
            &&& !kids(ps1, cs1, p).contains(c)
            &&& forall|q: u64| q != p ==> #[trigger] kids(ps1, cs1, q) == kids(ps, cs, q)
        }),
{
    reveal(wf);
    let p = cs[c].0;
    let s = kids(ps, cs, p);
    let n = s.len() as int;
    let ps1 = unlink_parent(ps, cs, c);
    let cs1 = unlink_links(cs, c);
    lemma_kids_of_parent(ps, cs, p);
    assert(s.contains(c));
    let i = s.index_of(c);
    assert(linked(cs, p, s, i));
    assert(linked(cs, p, s, next_index(i, n)));
    assert(linked(cs, p, s, prev_index(i, n)));
    let s1 = s.remove(i);
    s.remove_ensures(i);
    lemma_detach_others(ps, cs, c);
    if s1.contains(c) {
        let j = choose|j: int| 0 <= j < s1.len() && s1[j] == c;
        if j < i {
            assert(s[j] == s[i]);
        } else {
            assert(s[j + 1] == s[i]);
        }
    }
    if n == 1 {
        assert(i == 0);
        assert(s1 =~= Seq::<u64>::empty());
        assert(!ps1.contains_key(p));
    } else {
        lemma_detach_same_parent(ps, cs, c);
    }
    lemma_detach_members(ps, cs, c);
    assert forall|q: u64| #[trigger] ps1.contains_key(q) implies parent_ok(ps1, cs1, q) by {}
}

/// A child of a well-formed hierarchy is in the cycle of the parent it names.
pub proof fn lemma_child_in_kids(ps: Map<u64, ParentRec>, cs: Map<u64, ChildRec>, x: u64)
    requires
        wf(ps, cs),
        cs.contains_key(x),
    ensures
        ps.contains_key(cs[x].0),
        kids(ps, cs, cs[x].0).contains(x),
{
    reveal(wf);
}

/// After a child leaves its cycle, every remaining child is still in its parent's cycle.
proof fn lemma_detach_members(ps: Map<u64, ParentRec>, cs: Map<u64, ChildRec>, c: u64)
    requires
        wf(ps, cs),
        cs.contains_key(c),
        ({
            let p = cs[c].0;
            let s = kids(ps, cs, p);
            &&& 0 <= s.index_of(c) < s.len()
            &&& s[s.index_of(c)] == c
            &&& kids(unlink_parent(ps, cs, c), unlink_links(cs, c), p) == s.remove(s.index_of(c))
        }),
    ensures
        forall|x: u64| #[trigger] unlink_links(cs, c).contains_key(x) ==> unlink_parent(ps, cs, c).contains_key(
            unlink_links(cs, c)[x].0,
        ) && kids(unlink_parent(ps, cs, c), unlink_links(cs, c), unlink_links(cs, c)[x].0).contains(x),
{
    let p = cs[c].0;
    let s = kids(ps, cs, p);
    let ps1 = unlink_parent(ps, cs, c);
    let cs1 = unlink_links(cs, c);
    let i = s.index_of(c);
    let s1 = s.remove(i);
    s.remove_ensures(i);
    lemma_kids_of_parent(ps, cs, p);
    lemma_detach_others(ps, cs, c);
    assert(linked(cs, p, s, i));
    assert(linked(cs, p, s, next_index(i, s.len() as int)));
    assert(linked(cs, p, s, prev_index(i, s.len() as int)));
    assert forall|x: u64| #[trigger] cs1.contains_key(x) implies ps1.contains_key(cs1[x].0) && kids(
        ps1,
        cs1,
        cs1[x].0,
    ).contains(x) by {
        let q = cs[x].0;
        assert(cs.contains_key(x));
        lemma_child_in_kids(ps, cs, x);
        assert(cs1[x].0 == q);
        if q == p {
            let j = choose|j: int| 0 <= j < s.len() && s[j] == x;
            assert(j != i);
            if j < i {
                assert(s1[j] == x);
            } else {
                assert(s1[j - 1] == x);
            }
            assert(s.len() >= 2);
            assert(ps1.contains_key(p));
        } else {
            assert(ps1.contains_key(q));
            assert(kids(ps1, cs1, q) == kids(ps, cs, q));
        }
    }
}

/// Detaching a child leaves every other parent's cycle as it was.
proof fn lemma_detach_others(ps: Map<u64, ParentRec>, cs: Map<u64, ChildRec>, c: u64)
    requires
        wf(ps, cs),
        cs.contains_key(c),
    ensures
        forall|q: u64| q != cs[c].0 ==> #[trigger] kids(unlink_parent(ps, cs, c), unlink_links(cs, c), q)
            == kids(ps, cs, q),
        forall|q: u64|
            q != cs[c].0 && #[trigger] ps.contains_key(q) ==> parent_ok(
                unlink_parent(ps, cs, c),
                unlink_links(cs, c),
                q,
            ),
{
    reveal(wf);
    let p = cs[c].0;
    let s = kids(ps, cs, p);
    let n = s.len() as int;
    let ps1 = unlink_parent(ps, cs, c);
    let cs1 = unlink_links(cs, c);
    lemma_kids_of_parent(ps, cs, p);
    assert(s.contains(c));
    let i = s.index_of(c);
    assert(linked(cs, p, s, i));
    assert(linked(cs, p, s, next_index(i, n)));
    assert(linked(cs, p, s, prev_index(i, n)));
    assert forall|q: u64| ps.contains_key(q) && q != p implies kids(ps1, cs1, q) == kids(ps, cs, q)
        && parent_ok(ps1, cs1, q) by {
        assert forall|x: u64| cs.contains_key(x) && cs[x].0 == q implies #[trigger] cs1.contains_key(x)
            && cs1[x] == cs[x] by {}
        lemma_other_parent(ps, cs, ps1, cs1, q);
    }
    assert forall|q: u64| q != p implies #[trigger] kids(ps1, cs1, q) == kids(ps, cs, q) by {
        if !ps.contains_key(q) {
            assert(!ps1.contains_key(q));
        }
    }
}

} // verus!

verus! {

/// Dropping a parent's `Parent` record together with the `Child` records of all its
/// children keeps the hierarchy well formed; no other parent's children change.
pub proof fn lemma_drop_children(ps: Map<u64, ParentRec>, cs: Map<u64, ChildRec>, p: u64)
    requires
        wf(ps, cs),
    ensures
        ({
            let s = kids(ps, cs, p);
            let ps1 = ps.remove(p);
            let cs1 = cs.remove_keys(s.to_set());
            &&& wf(ps1, cs1)
            &&& kids(ps1, cs1, p) == Seq::<u64>::empty()
            &&& forall|q: u64| q != p ==> #[trigger] kids(ps1, cs1, q) == kids(ps, cs, q)
            &&& forall|i: int| 0 <= i < s.len() ==> #[trigger] cs.contains_key(s[i]) && cs[s[i]].0 == p
        }),
{
    reveal(wf);
    let s = kids(ps, cs, p);
    let ps1 = ps.remove(p);
    let cs1 = cs.remove_keys(s.to_set());
    if ps.contains_key(p) {
        lemma_kids_of_parent(ps, cs, p);
        assert forall|i: int| 0 <= i < s.len() implies #[trigger] cs.contains_key(s[i]) && cs[s[i]].0
            == p by {
            assert(linked(cs, p, s, i));
        }
    } else {
        assert(s =~= Seq::<u64>::empty());
    }
    assert forall|q: u64| ps.contains_key(q) && q != p implies kids(ps1, cs1, q) == kids(ps, cs, q)
        && parent_ok(ps1, cs1, q) by {
        assert forall|x: u64| cs.contains_key(x) && cs[x].0 == q implies #[trigger] cs1.contains_key(x)
            && cs1[x] == cs[x] by {
            if s.to_set().contains(x) {
                let i = choose|i: int| 0 <= i < s.len() && s[i] == x;
                assert(cs[s[i]].0 == p);
            }
        }
        lemma_other_parent(ps, cs, ps1, cs1, q);
    }
    assert forall|q: u64| q != p implies #[trigger] kids(ps1, cs1, q) == kids(ps, cs, q) by {
        if !ps.contains_key(q) {
            assert(!ps1.contains_key(q));
        }
    }
    assert forall|q: u64| #[trigger] ps1.contains_key(q) implies parent_ok(ps1, cs1, q) by {}
    assert forall|x: u64| #[trigger] cs1.contains_key(x) implies ps1.contains_key(cs1[x].0) && kids(
        ps1,
        cs1,
        cs1[x].0,
    ).contains(x) by {
        let q = cs[x].0;
        assert(cs.contains_key(x));
        assert(kids(ps, cs, q).contains(x));
        if q == p {
            assert(s.contains(x));
            assert(s.to_set().contains(x));
        }
    }
}

} // verus!

verus! {

/// The parent column after `c` is attached under `p`.
pub open spec fn attach_parents(ps: Map<u64, ParentRec>, p: u64, c: u64) -> Map<u64, ParentRec> {
    if ps.contains_key(p) {
        ps.insert(p, ((ps[p].0 + 1) as usize, c))
    } else {
        ps.insert(p, (1usize, c))
    }
}

/// The child column after `c` is attached under `p`.
pub open spec fn attach_links(ps: Map<u64, ParentRec>, cs: Map<u64, ChildRec>, p: u64, c: u64) -> Map<
    u64,
    ChildRec,
> {
    if ps.contains_key(p) {
        splice_links(cs, p, c, ps[p].1)
    } else {
        cs.insert(c, (p, c, c))
    }
}

/// Attaching a loose entity keeps the hierarchy well formed, appends the entity to its
/// new parent's children and changes no other parent's children.
pub proof fn lemma_attach(ps: Map<u64, ParentRec>, cs: Map<u64, ChildRec>, p: u64, c: u64)
    requires
        wf(ps, cs),
        !cs.contains_key(c),
        ps.contains_key(p) ==> ps[p].0 < usize::MAX,
    ensures
        wf(attach_parents(ps, p, c), attach_links(ps, cs, p, c)),
        kids(attach_parents(ps, p, c), attach_links(ps, cs, p, c), p) == kids(ps, cs, p).push(c),
        forall|q: u64| q != p ==> #[trigger] kids(attach_parents(ps, p, c), attach_links(ps, cs, p, c), q)
            == kids(ps, cs, q),
{
    if ps.contains_key(p) {
        lemma_attach_more(ps, cs, p, c);
    } else {
        lemma_attach_first(ps, cs, p, c);
        assert(kids(ps, cs, p) =~= Seq::<u64>::empty());
        assert(seq![c] =~= Seq::<u64>::empty().push(c));
    }
}

} // verus!
