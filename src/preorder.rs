//! The descendants of an entity in pre-order, and the proof that a depth-first walk over
//! a hierarchy without cycles yields each of them exactly once.
use vstd::prelude::*;

use crate::components::{ChildRec, ParentRec};
use crate::hierarchy::{climbs, lemma_up_step, up};
use crate::laws::{below, lemma_below_child};
use crate::iter::{dfs_next, dfs_seq, root_frames};
use crate::model::{kids, lemma_child_in_kids, lemma_kids_of_parent, lemma_other_parent, linked, parent_ok, walk, wf};
use crate::stack::Frame;

verus! {

/// `rank` grows strictly from every child to its parent, so the hierarchy has no cycles.
pub open spec fn ranked(cs: Map<u64, ChildRec>, rank: Map<u64, nat>) -> bool {
    forall|c: u64|
        #[trigger] cs.contains_key(c) ==> rank.contains_key(c) && rank.contains_key(cs[c].0) && rank[c]
            < rank[cs[c].0]
}

/// The descendants of `x` in pre-order, down to `d` levels.
pub open spec fn subtree(ps: Map<u64, ParentRec>, cs: Map<u64, ChildRec>, x: u64, d: nat) -> Seq<u64>
    decreases d, 0nat,
{
    if d == 0 {
        Seq::empty()
    } else {
        forest(ps, cs, kids(ps, cs, x), (d - 1) as nat)
    }
}

/// Each of `xs` followed by its descendants in pre-order, down to `d` levels.
pub open spec fn forest(ps: Map<u64, ParentRec>, cs: Map<u64, ChildRec>, xs: Seq<u64>, d: nat) -> Seq<u64>
    decreases d, xs.len() + 1,
{
    if xs.len() == 0 {
        Seq::empty()
    } else {
        seq![xs[0]] + subtree(ps, cs, xs[0], d) + forest(ps, cs, xs.drop_first(), d)
    }
}

/// `x` is `a` or lies below `a`.
pub open spec fn at_or_below(cs: Map<u64, ChildRec>, x: u64, a: u64) -> bool {
    exists|k: nat| climbs(cs, x, k) && #[trigger] up(cs, x, k) == a
}

/// What a forest holds: its roots and what their subtrees hold.
proof fn lemma_forest_contains(ps: Map<u64, ParentRec>, cs: Map<u64, ChildRec>, xs: Seq<u64>, d: nat, x: u64)
    ensures
        forest(ps, cs, xs, d).contains(x) <==> exists|i: int|
            0 <= i < xs.len() && (x == xs[i] || subtree(ps, cs, #[trigger] xs[i], d).contains(x)),
    decreases xs.len(),
{
    if xs.len() > 0 {
        let a = xs[0];
        let t = subtree(ps, cs, a, d);
        let rest = xs.drop_first();
        let f = forest(ps, cs, rest, d);
        lemma_forest_contains(ps, cs, rest, d, x);
        let all = seq![a] + t + f;
        assert(forest(ps, cs, xs, d) == all);
        if all.contains(x) {
            let j = choose|j: int| 0 <= j < all.len() && all[j] == x;
            if j == 0 {
                assert(x == xs[0]);
            } else if j < 1 + t.len() {
                assert(t[j - 1] == x);
                assert(t.contains(x));
            } else {
                assert(f[j - 1 - t.len()] == x);
                assert(f.contains(x));
                let i = choose|i: int|
                    0 <= i < rest.len() && (x == rest[i] || subtree(ps, cs, #[trigger] rest[i], d).contains(x));
                assert(rest[i] == xs[i + 1]);
            }
        }
        if exists|i: int| 0 <= i < xs.len() && (x == xs[i] || subtree(ps, cs, #[trigger] xs[i], d).contains(x)) {
            let i = choose|i: int| 0 <= i < xs.len() && (x == xs[i] || subtree(ps, cs, #[trigger] xs[i], d).contains(x));
            if i == 0 {
                if x == a {
                    assert(all[0] == x);
                } else {
                    let j = choose|j: int| 0 <= j < t.len() && t[j] == x;
                    assert(all[1 + j] == x);
                }
            } else {
                assert(rest[i - 1] == xs[i]);
                assert(f.contains(x));
                let j = choose|j: int| 0 <= j < f.len() && f[j] == x;
                assert(all[1 + t.len() + j] == x);
            }
        }
    }
}

/// Along a chain of children, ranks grow strictly.
proof fn lemma_rank_grows(cs: Map<u64, ChildRec>, rank: Map<u64, nat>, x: u64, k: nat, j1: nat, j2: nat)
    requires
        ranked(cs, rank),
        climbs(cs, x, k),
        j1 < j2 <= k,
    ensures
        rank.contains_key(up(cs, x, j1)),
        rank.contains_key(up(cs, x, j2)),
        rank[up(cs, x, j1)] < rank[up(cs, x, j2)],
    decreases j2 - j1,
{
    let y = up(cs, x, (j2 - 1) as nat);
    assert(cs.contains_key(y));
    lemma_up_step(cs, x, (j2 - 1) as nat);
    assert(up(cs, x, j2) == cs[y].0);
    if j1 < j2 - 1 {
        lemma_rank_grows(cs, rank, x, k, j1, (j2 - 1) as nat);
    }
}

/// Nothing lies below itself.
pub proof fn lemma_not_below_self(cs: Map<u64, ChildRec>, rank: Map<u64, nat>, x: u64)
    requires
        ranked(cs, rank),
    ensures
        !below(cs, x, x),
{
    if below(cs, x, x) {
        let k = choose|k: nat| k >= 1 && climbs(cs, x, k) && #[trigger] up(cs, x, k) == x;
        lemma_up_step(cs, x, (k - 1) as nat);
        let y = up(cs, x, (k - 1) as nat);
        assert(cs.contains_key(y));
        assert(climbs(cs, x, k + 1)) by {
            assert forall|j: nat| j < k + 1 implies #[trigger] cs.contains_key(up(cs, x, j)) by {
                if j == k {
                    assert(up(cs, x, 0) == x);
                    assert(cs.contains_key(up(cs, x, 0)));
                }
            }
        }
        lemma_rank_grows(cs, rank, x, k + 1, 0, k);
        assert(up(cs, x, 0) == x);
    }
}

/// Two different children of one parent have nothing at or below both.
proof fn lemma_siblings_apart(cs: Map<u64, ChildRec>, rank: Map<u64, nat>, x: u64, a: u64, b: u64)
    requires
        ranked(cs, rank),
        cs.contains_key(a),
        cs.contains_key(b),
        cs[a].0 == cs[b].0,
        a != b,
    ensures
        !(at_or_below(cs, x, a) && at_or_below(cs, x, b)),
{
    if at_or_below(cs, x, a) && at_or_below(cs, x, b) {
        let k1 = choose|k: nat| climbs(cs, x, k) && #[trigger] up(cs, x, k) == a;
        let k2 = choose|k: nat| climbs(cs, x, k) && #[trigger] up(cs, x, k) == b;
        if k1 < k2 {
            lemma_siblings_ordered(cs, rank, x, a, b, k1, k2);
        } else if k2 < k1 {
            lemma_siblings_ordered(cs, rank, x, b, a, k2, k1);
        }
    }
}

proof fn lemma_siblings_ordered(cs: Map<u64, ChildRec>, rank: Map<u64, nat>, x: u64, a: u64, b: u64, k1: nat, k2: nat)
    requires
        ranked(cs, rank),
        cs.contains_key(a),
        cs.contains_key(b),
        cs[a].0 == cs[b].0,
        climbs(cs, x, k2),
        k1 < k2,
    ensures
        !(up(cs, x, k1) == a && up(cs, x, k2) == b),
{
    if up(cs, x, k1) == a && up(cs, x, k2) == b {
        lemma_up_step(cs, x, k1);
        lemma_up_step(cs, x, k2);
        assert(climbs(cs, x, k2 + 1)) by {
            assert forall|j: nat| j < k2 + 1 implies #[trigger] cs.contains_key(up(cs, x, j)) by {
                if j < k2 {
                    assert(climbs(cs, x, k2));
                }
            }
        }
        lemma_rank_grows(cs, rank, x, k2 + 1, k1 + 1, k2 + 1);
    }
}

/// A subtree deep enough holds exactly what lies below its root.
pub proof fn lemma_subtree_holds(
    ps: Map<u64, ParentRec>,
    cs: Map<u64, ChildRec>,
    rank: Map<u64, nat>,
    r: u64,
    d: nat,
    x: u64,
)
    requires
        wf(ps, cs),
        ranked(cs, rank),
        rank.contains_key(r),
        d > rank[r],
    ensures
        subtree(ps, cs, r, d).contains(x) <==> below(cs, x, r),
    decreases d,
{
    let s = kids(ps, cs, r);
    if ps.contains_key(r) {
        lemma_kids_of_parent(ps, cs, r);
    }
    assert forall|i: int| 0 <= i < s.len() implies #[trigger] cs.contains_key(s[i]) && cs[s[i]].0 == r
        && rank.contains_key(s[i]) && rank[s[i]] < rank[r] by {
        assert(linked(cs, r, s, i));
    }
    lemma_forest_contains(ps, cs, s, (d - 1) as nat, x);
    if subtree(ps, cs, r, d).contains(x) {
        let i = choose|i: int| 0 <= i < s.len() && (x == s[i] || subtree(ps, cs, #[trigger] s[i], (d - 1) as nat).contains(x));
        let y = s[i];
        assert(linked(cs, r, s, i));
        if x == y {
            lemma_below_child(cs, x, r);
        } else {
            lemma_subtree_holds(ps, cs, rank, y, (d - 1) as nat, x);
            lemma_below_extend(cs, x, y);
        }
    }
    if below(cs, x, r) {
        let k = choose|k: nat| k >= 1 && climbs(cs, x, k) && #[trigger] up(cs, x, k) == r;
        let y = up(cs, x, (k - 1) as nat);
        assert(cs.contains_key(y));
        lemma_up_step(cs, x, (k - 1) as nat);
        lemma_child_in_kids(ps, cs, y);
        let i = choose|i: int| 0 <= i < s.len() && s[i] == y;
        if k == 1 {
            assert(up(cs, x, 0) == x);
        } else {
            assert(climbs(cs, x, (k - 1) as nat));
            assert(below(cs, x, y));
            lemma_subtree_holds(ps, cs, rank, y, (d - 1) as nat, x);
        }
    }
}

/// What lies below a child lies below its parent.
proof fn lemma_below_extend(cs: Map<u64, ChildRec>, x: u64, y: u64)
    requires
        cs.contains_key(y),
        below(cs, x, y),
    ensures
        below(cs, x, cs[y].0),
{
    let k = choose|k: nat| k >= 1 && climbs(cs, x, k) && #[trigger] up(cs, x, k) == y;
    lemma_up_step(cs, x, k);
    assert(climbs(cs, x, k + 1)) by {
        assert forall|j: nat| j < k + 1 implies #[trigger] cs.contains_key(up(cs, x, j)) by {
            if j < k {
                assert(climbs(cs, x, k));
            }
        }
    }
}

/// Two sequences without repeats and without common members concatenate to one without
/// repeats.
proof fn lemma_concat_distinct(s1: Seq<u64>, s2: Seq<u64>)
    requires
        s1.no_duplicates(),
        s2.no_duplicates(),
        forall|x: u64| s1.contains(x) ==> !s2.contains(x),
    ensures
        (s1 + s2).no_duplicates(),
{
    let s = s1 + s2;
    assert forall|i: int, j: int| 0 <= i < s.len() && 0 <= j < s.len() && i != j implies s[i] != s[j] by {
        if i < s1.len() && j >= s1.len() {
            assert(s1.contains(s[i]));
            assert(s2[j - s1.len()] == s[j]);
        } else if j < s1.len() && i >= s1.len() {
            assert(s1.contains(s[j]));
            assert(s2[i - s1.len()] == s[i]);
        } else if i >= s1.len() && j >= s1.len() {
            assert(s2[i - s1.len()] == s[i]);
            assert(s2[j - s1.len()] == s[j]);
        }
    }
}

/// A subtree deep enough holds no entity twice.
pub proof fn lemma_subtree_distinct(
    ps: Map<u64, ParentRec>,
    cs: Map<u64, ChildRec>,
    rank: Map<u64, nat>,
    r: u64,
    d: nat,
)
    requires
        wf(ps, cs),
        ranked(cs, rank),
        rank.contains_key(r),
        d > rank[r],
    ensures
        subtree(ps, cs, r, d).no_duplicates(),
    decreases d, 0nat,
{
    let s = kids(ps, cs, r);
    if ps.contains_key(r) {
        lemma_kids_of_parent(ps, cs, r);
    }
    assert forall|i: int| 0 <= i < s.len() implies #[trigger] sibling_ok(cs, rank, r, s[i], (d - 1) as nat) by {
        assert(linked(cs, r, s, i));
    }
    lemma_forest_distinct(ps, cs, rank, r, s, (d - 1) as nat);
}

/// `x` is a child of `r` with a rank below `f`.
pub open spec fn sibling_ok(cs: Map<u64, ChildRec>, rank: Map<u64, nat>, r: u64, x: u64, f: nat) -> bool {
    cs.contains_key(x) && cs[x].0 == r && rank.contains_key(x) && rank[x] < f
}

/// A forest of distinct siblings, each with a deep enough subtree, holds no entity twice.
proof fn lemma_forest_distinct(
    ps: Map<u64, ParentRec>,
    cs: Map<u64, ChildRec>,
    rank: Map<u64, nat>,
    r: u64,
    xs: Seq<u64>,
    f: nat,
)
    requires
        wf(ps, cs),
        ranked(cs, rank),
        xs.no_duplicates(),
        forall|i: int| 0 <= i < xs.len() ==> #[trigger] sibling_ok(cs, rank, r, xs[i], f),
    ensures
        forest(ps, cs, xs, f).no_duplicates(),
    decreases f, xs.len() + 1,
{
    if xs.len() > 0 {
        let a = xs[0];
        let t = subtree(ps, cs, a, f);
        let rest = xs.drop_first();
        let fr = forest(ps, cs, rest, f);
        assert(sibling_ok(cs, rank, r, xs[0], f));
        lemma_subtree_distinct(ps, cs, rank, a, f);
        assert forall|i: int| 0 <= i < rest.len() implies #[trigger] sibling_ok(cs, rank, r, rest[i], f) by {
            assert(rest[i] == xs[i + 1]);
            assert(sibling_ok(cs, rank, r, xs[i + 1], f));
        }
        lemma_forest_distinct(ps, cs, rank, r, rest, f);
        let head = seq![a];
        assert(head.no_duplicates());
        assert forall|x: u64| head.contains(x) implies !t.contains(x) by {
            assert(head[0] == x);
            lemma_subtree_holds(ps, cs, rank, a, f, a);
            lemma_not_below_self(cs, rank, a);
        }
        lemma_concat_distinct(head, t);
        let ht = head + t;
        assert forall|x: u64| ht.contains(x) implies !fr.contains(x) by {
            assert(at_or_below(cs, x, a)) by {
                let j = choose|j: int| 0 <= j < ht.len() && ht[j] == x;
                if j == 0 {
                    assert(up(cs, x, 0) == x);
                    assert(climbs(cs, x, 0));
                } else {
                    assert(t[j - 1] == x);
                    lemma_subtree_holds(ps, cs, rank, a, f, x);
                }
            }
            if fr.contains(x) {
                lemma_forest_contains(ps, cs, rest, f, x);
                let i = choose|i: int|
                    0 <= i < rest.len() && (x == rest[i] || subtree(ps, cs, #[trigger] rest[i], f).contains(x));
                let b = rest[i];
                assert(b == xs[i + 1]);
                assert(sibling_ok(cs, rank, r, xs[i + 1], f));
                assert(at_or_below(cs, x, b)) by {
                    if x == b {
                        assert(up(cs, x, 0) == x);
                        assert(climbs(cs, x, 0));
                    } else {
                        lemma_subtree_holds(ps, cs, rank, b, f, x);
                    }
                }
                assert(a != b);
                lemma_siblings_apart(cs, rank, x, a, b);
            }
        }
        lemma_concat_distinct(ht, fr);
        assert(forest(ps, cs, xs, f) == ht + fr);
    }
}

/// What a depth-first walk with stack `st` still yields: for each frame from the top
/// down, the siblings it has left, each followed by its descendants. The frame at height
/// `j` from the bottom walks `d - j - 1` levels deep.
pub open spec fn pending(ps: Map<u64, ParentRec>, cs: Map<u64, ChildRec>, st: Seq<Frame>, d: nat) -> Seq<u64>
    decreases st.len(),
{
    if st.len() == 0 {
        Seq::empty()
    } else {
        forest(ps, cs, walk(cs, st.last().0, st.last().1 as nat), (d - st.len()) as nat) + pending(
            ps,
            cs,
            st.drop_last(),
            d,
        )
    }
}

/// Each frame of `st` has all its siblings, and they sit less deep in rank than its level
/// walks; every level walks at least one deep.
pub open spec fn stack_ok(cs: Map<u64, ChildRec>, rank: Map<u64, nat>, st: Seq<Frame>, d: nat) -> bool {
    &&& d >= st.len() + 1
    &&& forall|j: int|
        0 <= j < st.len() ==> #[trigger] walk(cs, st[j].0, st[j].1 as nat).len() == st[j].1
            && forall|k: int|
            0 <= k < st[j].1 ==> rank.contains_key(walk(cs, st[j].0, st[j].1 as nat)[k]) && rank[walk(
                cs,
                st[j].0,
                st[j].1 as nat,
            )[k]] < d - j - 1
}

/// Pushing a complete frame whose siblings sit shallow enough keeps the stack sound.
proof fn lemma_stack_push_ok(cs: Map<u64, ChildRec>, rank: Map<u64, nat>, st: Seq<Frame>, fr: Frame, d: nat)
    requires
        stack_ok(cs, rank, st, d),
        d >= st.len() + 2,
        walk(cs, fr.0, fr.1 as nat).len() == fr.1,
        forall|k: int|
            0 <= k < fr.1 ==> rank.contains_key(#[trigger] walk(cs, fr.0, fr.1 as nat)[k]) && rank[walk(
                cs,
                fr.0,
                fr.1 as nat,
            )[k]] < d - st.len() - 1,
    ensures
        stack_ok(cs, rank, st.push(fr), d),
{
    let st1 = st.push(fr);
    assert forall|j: int| 0 <= j < st1.len() implies #[trigger] walk(cs, st1[j].0, st1[j].1 as nat).len()
        == st1[j].1 && forall|k: int|
        0 <= k < st1[j].1 ==> rank.contains_key(walk(cs, st1[j].0, st1[j].1 as nat)[k]) && rank[walk(
            cs,
            st1[j].0,
            st1[j].1 as nat,
        )[k]] < d - j - 1 by {
        if j < st.len() {
            assert(st1[j] == st[j]);
            assert(walk(cs, st[j].0, st[j].1 as nat).len() == st[j].1);
        } else {
            assert(st1[j] == fr);
        }
    }
}

/// One step of the walk yields the first pending entity and leaves the rest pending.
#[verifier::rlimit(30)]
proof fn lemma_dfs_step_pending(
    ps: Map<u64, ParentRec>,
    cs: Map<u64, ChildRec>,
    rank: Map<u64, nat>,
    st: Seq<Frame>,
    d: nat,
)
    requires
        wf(ps, cs),
        ranked(cs, rank),
        stack_ok(cs, rank, st, d),
        d <= usize::MAX,
    ensures
        pending(ps, cs, st, d).len() == 0 ==> dfs_next(ps, cs, st).0.is_none(),
        pending(ps, cs, st, d).len() > 0 ==> {
            &&& dfs_next(ps, cs, st).0 == Some(pending(ps, cs, st, d)[0])
            &&& stack_ok(cs, rank, dfs_next(ps, cs, st).1, d)
            &&& pending(ps, cs, dfs_next(ps, cs, st).1, d) == pending(ps, cs, st, d).drop_first()
        },
    decreases st.len(),
{
    if st.len() > 0 {
        let n = st.len() as int;
        let top = st.last();
        let base = st.drop_last();
        assert(stack_ok(cs, rank, base, d)) by {
            assert forall|j: int| 0 <= j < base.len() implies #[trigger] walk(cs, base[j].0, base[j].1 as nat).len()
                == base[j].1 && forall|k: int|
                0 <= k < base[j].1 ==> rank.contains_key(walk(cs, base[j].0, base[j].1 as nat)[k]) && rank[walk(
                    cs,
                    base[j].0,
                    base[j].1 as nat,
                )[k]] < d - j - 1 by {
                assert(base[j] == st[j]);
                assert(walk(cs, st[j].0, st[j].1 as nat).len() == st[j].1);
            }
        }
        let w = walk(cs, top.0, top.1 as nat);
        assert(st[n - 1] == top);
        assert(w.len() == top.1);
        let f = (d - n) as nat;
        if top.1 == 0 {
            assert(w =~= Seq::<u64>::empty());
            assert(pending(ps, cs, st, d) =~= pending(ps, cs, base, d));
            lemma_dfs_step_pending(ps, cs, rank, base, d);
        } else {
            let x = top.0;
            assert(cs.contains_key(x));
            let nx = cs[x].1;
            let rest = walk(cs, nx, (top.1 - 1) as nat);
            assert(w == seq![x] + rest);
            assert(w[0] == x);
            assert(rank.contains_key(x) && rank[x] < f);
            assert(w.drop_first() =~= rest);
            assert(forest(ps, cs, w, f) == seq![x] + subtree(ps, cs, x, f) + forest(ps, cs, rest, f));
            let st1 = base.push((nx, (top.1 - 1) as usize));
            assert(st1.drop_last() =~= base);
            assert(st1.last() == (nx, (top.1 - 1) as usize));
            assert(pending(ps, cs, st1, d) == forest(ps, cs, rest, f) + pending(ps, cs, base, d));
            assert forall|k: int| 0 <= k < rest.len() implies rank.contains_key(rest[k]) && rank[rest[k]] < f by {
                assert(rest[k] == w[k + 1]);
            }
            let kx = kids(ps, cs, x);
            if ps.contains_key(x) {
                lemma_kids_of_parent(ps, cs, x);
                assert(linked(cs, x, kx, 0));
                assert forall|k: int| 0 <= k < kx.len() implies rank.contains_key(kx[k]) && rank[kx[k]] < rank[x] by {
                    assert(linked(cs, x, kx, k));
                }
                assert(rank[kx[0]] < rank[x]);
                let st2 = st1.push((cs[ps[x].1].1, ps[x].0));
                assert(st2.drop_last() =~= st1);
                assert(walk(cs, st2.last().0, st2.last().1 as nat) == kx);
                assert(pending(ps, cs, st2, d) == forest(ps, cs, kx, (f - 1) as nat) + pending(ps, cs, st1, d));
                assert(subtree(ps, cs, x, f) == forest(ps, cs, kx, (f - 1) as nat));
                assert(pending(ps, cs, st2, d) =~= pending(ps, cs, st, d).drop_first());
                lemma_stack_push_ok(cs, rank, base, (nx, (top.1 - 1) as usize), d);
                assert(walk(cs, st2.last().0, st2.last().1 as nat).len() == st2.last().1);
                assert forall|k: int| 0 <= k < ps[x].0 implies rank.contains_key(#[trigger] walk(cs, cs[ps[x].1].1, ps[x].0 as nat)[k])
                    && rank[walk(cs, cs[ps[x].1].1, ps[x].0 as nat)[k]] < d - st1.len() - 1 by {
                    assert(rank[kx[k]] < rank[x]);
                }
                lemma_stack_push_ok(cs, rank, st1, (cs[ps[x].1].1, ps[x].0), d);
            } else {
                assert(kx =~= Seq::<u64>::empty());
                assert(subtree(ps, cs, x, f) =~= Seq::<u64>::empty());
                assert(pending(ps, cs, st1, d) =~= pending(ps, cs, st, d).drop_first());
                assert forall|k: int| 0 <= k < top.1 - 1 implies rank.contains_key(#[trigger] walk(cs, nx, (top.1 - 1) as nat)[k])
                    && rank[walk(cs, nx, (top.1 - 1) as nat)[k]] < d - base.len() - 1 by {
                    assert(rest[k] == w[k + 1]);
                }
                lemma_stack_push_ok(cs, rank, base, (nx, (top.1 - 1) as usize), d);
            }
        }
    }
}

/// The walk from a sound stack yields what is pending, in order, as far as its fuel goes.
proof fn lemma_dfs_seq_pending(
    ps: Map<u64, ParentRec>,
    cs: Map<u64, ChildRec>,
    rank: Map<u64, nat>,
    st: Seq<Frame>,
    d: nat,
    fuel: nat,
)
    requires
        wf(ps, cs),
        ranked(cs, rank),
        stack_ok(cs, rank, st, d),
        d <= usize::MAX,
    ensures
        dfs_seq(ps, cs, st, fuel) == pending(ps, cs, st, d).subrange(
            0,
            if fuel < pending(ps, cs, st, d).len() {
                fuel as int
            } else {
                pending(ps, cs, st, d).len() as int
            },
        ),
    decreases fuel,
{
    let p = pending(ps, cs, st, d);
    if fuel == 0 {
        assert(p.subrange(0, 0) =~= Seq::<u64>::empty());
    } else {
        lemma_dfs_step_pending(ps, cs, rank, st, d);
        if p.len() == 0 {
            assert(p.subrange(0, 0) =~= Seq::<u64>::empty());
        } else {
            let st1 = dfs_next(ps, cs, st).1;
            lemma_dfs_seq_pending(ps, cs, rank, st1, d, (fuel - 1) as nat);
            let m = if fuel < p.len() {
                fuel as int
            } else {
                p.len() as int
            };
            assert(dfs_seq(ps, cs, st, fuel) == seq![p[0]] + dfs_seq(ps, cs, st1, (fuel - 1) as nat));
            assert(dfs_seq(ps, cs, st, fuel) =~= p.subrange(0, m));
        }
    }
}

/// In a hierarchy without cycles, the depth-first walk below `r` is the pre-order listing
/// of the subtree of `r`: each child of `r`, first to last, followed by its own subtree
/// listed the same way (cut at `usize::MAX` entities). `rank` witnesses the absence of
/// cycles; the walk's depth is bounded by the rank of `r`.
pub proof fn law_depth_first_is_preorder(
    ps: Map<u64, ParentRec>,
    cs: Map<u64, ChildRec>,
    rank: Map<u64, nat>,
    r: u64,
)
    requires
        wf(ps, cs),
        ranked(cs, rank),
        rank.contains_key(r),
        rank[r] < usize::MAX,
    ensures
        ({
            let t = subtree(ps, cs, r, rank[r] + 1);
            dfs_seq(ps, cs, root_frames(ps, cs, r), usize::MAX as nat) == t.subrange(
                0,
                if usize::MAX < t.len() {
                    usize::MAX as int
                } else {
                    t.len() as int
                },
            )
        }),
{
    let d = rank[r] + 1;
    let st = root_frames(ps, cs, r);
    let t = subtree(ps, cs, r, d);
    let kr = kids(ps, cs, r);
    if ps.contains_key(r) {
        lemma_kids_of_parent(ps, cs, r);
        assert forall|k: int| 0 <= k < kr.len() implies rank.contains_key(kr[k]) && rank[kr[k]] < rank[r] by {
            assert(linked(cs, r, kr, k));
        }
        assert(rank[kr[0]] < rank[r]);
        assert(st == seq![(cs[ps[r].1].1, ps[r].0)]);
        assert(walk(cs, st[0].0, st[0].1 as nat) == kr);
        assert(stack_ok(cs, rank, st, d));
        assert(st.drop_last() =~= Seq::<Frame>::empty());
        assert(st.last() == st[0]);
        assert(pending(ps, cs, st, d) == forest(ps, cs, kr, (d - 1) as nat) + pending(ps, cs, st.drop_last(), d));
        assert(t == forest(ps, cs, kr, (d - 1) as nat));
        assert(pending(ps, cs, st, d) =~= t);
    } else {
        assert(st =~= Seq::<Frame>::empty());
        assert(kr =~= Seq::<u64>::empty());
        assert(t =~= Seq::<u64>::empty());
        assert(pending(ps, cs, st, d) =~= t);
    }
    lemma_dfs_seq_pending(ps, cs, rank, st, d, usize::MAX as nat);
}

/// In a hierarchy without cycles, the depth-first walk below `r` yields every entity
/// below `r` exactly once and nothing else: it yields no entity twice, only entities
/// below `r`, and, unless it stopped at `usize::MAX` entities, all of them, so it yields
/// as many entities as lie below `r`. `rank` witnesses the absence of cycles; the walk's
/// depth is bounded by the rank of `r`.
pub proof fn law_depth_first_exactly_once(
    ps: Map<u64, ParentRec>,
    cs: Map<u64, ChildRec>,
    rank: Map<u64, nat>,
    r: u64,
)
    requires
        wf(ps, cs),
        ranked(cs, rank),
        rank.contains_key(r),
        rank[r] < usize::MAX,
    ensures
        ({
            let s = dfs_seq(ps, cs, root_frames(ps, cs, r), usize::MAX as nat);
            &&& s.no_duplicates()
            &&& forall|x: u64| #[trigger] s.contains(x) ==> below(cs, x, r)
            &&& s.len() < usize::MAX ==> forall|x: u64| below(cs, x, r) ==> #[trigger] s.contains(x)
            &&& s.len() < usize::MAX ==> s.to_set() == Set::new(|x: u64| below(cs, x, r))
                && s.len() == s.to_set().len()
        }),
{
    let d = rank[r] + 1;
    let st = root_frames(ps, cs, r);
    let t = subtree(ps, cs, r, d);
    law_depth_first_is_preorder(ps, cs, rank, r);
    lemma_subtree_distinct(ps, cs, rank, r, d);
    let s = dfs_seq(ps, cs, st, usize::MAX as nat);
    let m = if usize::MAX < t.len() {
        usize::MAX as int
    } else {
        t.len() as int
    };
    assert(s == t.subrange(0, m));
    assert forall|x: u64| #[trigger] s.contains(x) implies below(cs, x, r) by {
        let j = choose|j: int| 0 <= j < s.len() && s[j] == x;
        assert(t[j] == x);
        lemma_subtree_holds(ps, cs, rank, r, d, x);
    }
    if s.len() < usize::MAX {
        assert(s =~= t);
        assert forall|x: u64| below(cs, x, r) implies #[trigger] s.contains(x) by {
            lemma_subtree_holds(ps, cs, rank, r, d, x);
        }
        assert(s.to_set() =~= Set::new(|x: u64| below(cs, x, r)));
        s.unique_seq_to_set();
    }
}

/// `r` and everything below it.
pub open spec fn subtree_set(cs: Map<u64, ChildRec>, r: u64) -> Set<u64> {
    Set::new(|x: u64| x == r || below(cs, x, r))
}

/// What lies below a child lies below its parent or is the parent's child.
proof fn lemma_below_step(cs: Map<u64, ChildRec>, c: u64, r: u64)
    requires
        below(cs, c, r),
    ensures
        cs.contains_key(c),
        cs[c].0 == r || below(cs, cs[c].0, r),
{
    let k = choose|k: nat| k >= 1 && climbs(cs, c, k) && #[trigger] up(cs, c, k) == r;
    assert(cs.contains_key(up(cs, c, 0)));
    if k == 1 {
        assert(up(cs, c, 1) == up(cs, cs[c].0, 0));
    } else {
        let q = cs[c].0;
        assert(up(cs, c, k) == up(cs, q, (k - 1) as nat));
        assert(climbs(cs, q, (k - 1) as nat)) by {
            assert forall|j: nat| j < k - 1 implies #[trigger] cs.contains_key(up(cs, q, j)) by {
                assert(up(cs, c, j + 1) == up(cs, q, j));
            }
        }
    }
}

/// Removing a root together with everything below it leaves the rest of the hierarchy well
/// formed: no remaining entity links to a removed one.
pub proof fn lemma_drop_subtree(ps: Map<u64, ParentRec>, cs: Map<u64, ChildRec>, r: u64)
    requires
        wf(ps, cs),
        !cs.contains_key(r),
    ensures
        wf(ps.remove_keys(subtree_set(cs, r)), cs.remove_keys(subtree_set(cs, r))),
        forall|q: u64|
            !subtree_set(cs, r).contains(q) ==> #[trigger] kids(
                ps.remove_keys(subtree_set(cs, r)),
                cs.remove_keys(subtree_set(cs, r)),
                q,
            ) == kids(ps, cs, q),
{
    let gone = subtree_set(cs, r);
    let ps1 = ps.remove_keys(gone);
    let cs1 = cs.remove_keys(gone);
    assert forall|q: u64| ps1.contains_key(q) implies kids(ps1, cs1, q) == kids(ps, cs, q) && parent_ok(
        ps1,
        cs1,
        q,
    ) by {
        assert forall|x: u64| cs.contains_key(x) && cs[x].0 == q implies #[trigger] cs1.contains_key(x)
            && cs1[x] == cs[x] by {
            if gone.contains(x) {
                if x != r {
                    lemma_below_step(cs, x, r);
                    assert(gone.contains(q));
                }
            }
        }
        lemma_other_parent(ps, cs, ps1, cs1, q);
    }
    assert forall|q: u64| !gone.contains(q) implies #[trigger] kids(ps1, cs1, q) == kids(ps, cs, q) by {
        if !ps.contains_key(q) {
            assert(!ps1.contains_key(q));
        }
    }
    assert forall|x: u64| #[trigger] cs1.contains_key(x) implies ps1.contains_key(cs1[x].0) && kids(
        ps1,
        cs1,
        cs1[x].0,
    ).contains(x) by {
        let q = cs[x].0;
        lemma_child_in_kids(ps, cs, x);
        if gone.contains(q) {
            if q == r {
                lemma_below_child(cs, x, r);
            } else {
                lemma_below_child(cs, x, r);
            }
            assert(gone.contains(x));
        }
        assert(ps1.contains_key(q));
    }
    reveal(wf);
}

/// Two child columns that agree on the parents along a chain give the same chain.
proof fn lemma_chain_agree(cs: Map<u64, ChildRec>, cs1: Map<u64, ChildRec>, x: u64, k: nat)
    requires
        forall|j: nat|
            j < k ==> cs.contains_key(#[trigger] up(cs, x, j)) && cs1.contains_key(up(cs, x, j)) && cs1[up(
                cs,
                x,
                j,
            )].0 == cs[up(cs, x, j)].0,
    ensures
        forall|j: nat| j <= k ==> #[trigger] up(cs1, x, j) == up(cs, x, j),
    decreases k,
{
    if k > 0 {
        lemma_chain_agree(cs, cs1, x, (k - 1) as nat);
        assert forall|j: nat| j <= k implies #[trigger] up(cs1, x, j) == up(cs, x, j) by {
            if j == k {
                assert(up(cs1, x, (k - 1) as nat) == up(cs, x, (k - 1) as nat));
                lemma_up_step(cs, x, (k - 1) as nat);
                lemma_up_step(cs1, x, (k - 1) as nat);
            }
        }
    }
}

/// Dropping the record of `r` and rewriting sibling links, with every parent kept, leaves
/// what lies below `r` unchanged.
pub proof fn lemma_below_after_unlink(cs: Map<u64, ChildRec>, cs1: Map<u64, ChildRec>, rank: Map<u64, nat>, r: u64, x: u64)
    requires
        ranked(cs, rank),
        forall|y: u64| #[trigger] cs1.contains_key(y) ==> cs.contains_key(y) && cs1[y].0 == cs[y].0,
        forall|y: u64| #[trigger] cs.contains_key(y) && y != r ==> cs1.contains_key(y),
    ensures
        below(cs, x, r) <==> below(cs1, x, r),
{
    if below(cs, x, r) {
        let k = choose|k: nat| k >= 1 && climbs(cs, x, k) && #[trigger] up(cs, x, k) == r;
        assert forall|j: nat| j < k implies cs.contains_key(#[trigger] up(cs, x, j)) && cs1.contains_key(up(cs, x, j))
            && cs1[up(cs, x, j)].0 == cs[up(cs, x, j)].0 by {
            assert(cs.contains_key(up(cs, x, j)));
            if up(cs, x, j) == r {
                lemma_rank_grows(cs, rank, x, k, j, k);
            }
        }
        lemma_chain_agree(cs, cs1, x, k);
        assert(climbs(cs1, x, k)) by {
            assert forall|j: nat| j < k implies #[trigger] cs1.contains_key(up(cs1, x, j)) by {
                assert(up(cs1, x, j) == up(cs, x, j));
            }
        }
        assert(up(cs1, x, k) == r);
    }
    if below(cs1, x, r) {
        let k = choose|k: nat| k >= 1 && climbs(cs1, x, k) && #[trigger] up(cs1, x, k) == r;
        lemma_chain_agree(cs1, cs, x, k);
        assert(climbs(cs, x, k)) by {
            assert forall|j: nat| j < k implies #[trigger] cs.contains_key(up(cs, x, j)) by {
                assert(up(cs, x, j) == up(cs1, x, j));
                assert(cs1.contains_key(up(cs1, x, j)));
            }
        }
        assert(up(cs, x, k) == r);
    }
}

} // verus!
