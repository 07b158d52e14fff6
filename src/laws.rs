//! Properties that relate several operations of a hierarchy, stated over the model.
use vstd::prelude::*;

use crate::components::{ChildRec, ParentRec};
use crate::hierarchy::{children_of, climbs, up};
use crate::iter::{dfs_next, dfs_seq, root_frames};
use crate::stack::Frame;
use crate::model::{
    attach_links, attach_parents, kids, lemma_attach, lemma_child_in_kids, lemma_detach,
    lemma_kids_of_parent, linked, next_index, unlink_links, unlink_parent, wf,
};
use crate::table::{child_table, parent_table};

verus! {

/// In a well-formed hierarchy the walk over an entity's children yields exactly as many
/// entities as its `Parent` component counts, and none when it has no `Parent` component.
pub proof fn law_children_count(w: hecs::World, tag: u64, p: u64)
    requires
        wf(parent_table(w, tag), child_table(w, tag)),
    ensures
        children_of(w, tag, p).len() == if parent_table(w, tag).contains_key(p) {
            parent_table(w, tag)[p].0 as int
        } else {
            0
        },
{
    if parent_table(w, tag).contains_key(p) {
        lemma_kids_of_parent(parent_table(w, tag), child_table(w, tag), p);
    }
}

/// The children of an entity depend on the columns of the hierarchy alone: two walks
/// over a world whose columns did not change in between yield the same entities.
pub proof fn law_children_stable(a: hecs::World, b: hecs::World, tag: u64, p: u64)
    requires
        parent_table(a, tag) == parent_table(b, tag),
        child_table(a, tag) == child_table(b, tag),
    ensures
        children_of(a, tag, p) == children_of(b, tag, p),
{
}

/// Detaching an entity and attaching it under another parent moves its subtree whole:
/// its own children stay as they were, in the same order. The entity must not be its own
/// parent nor become its own parent, as in any hierarchy without cycles.
pub proof fn law_reattach_keeps_children(ps: Map<u64, ParentRec>, cs: Map<u64, ChildRec>, c: u64, q: u64)
    requires
        wf(ps, cs),
        cs.contains_key(c),
        cs[c].0 != c,
        q != c,
        unlink_parent(ps, cs, c).contains_key(q) ==> unlink_parent(ps, cs, c)[q].0 < usize::MAX,
    ensures
        ({
            let ps1 = unlink_parent(ps, cs, c);
            let cs1 = unlink_links(cs, c);
            kids(attach_parents(ps1, q, c), attach_links(ps1, cs1, q, c), c) == kids(ps, cs, c)
        }),
{
    let ps1 = unlink_parent(ps, cs, c);
    let cs1 = unlink_links(cs, c);
    lemma_detach(ps, cs, c);
    assert(!cs1.contains_key(c));
    lemma_attach(ps1, cs1, q, c);
}

/// `x` lies below `r`: some number of steps, one or more, up the chain of parents from
/// `x`, all through entities with a `Child` component, leads to `r`.
pub open spec fn below(cs: Map<u64, ChildRec>, x: u64, r: u64) -> bool {
    exists|k: nat| k >= 1 && climbs(cs, x, k) && #[trigger] up(cs, x, k) == r
}

/// Every frame of the stack that still has siblings to visit points at an entity below `r`.
pub open spec fn frames_below(cs: Map<u64, ChildRec>, r: u64, st: Seq<Frame>) -> bool {
    forall|i: int|
        0 <= i < st.len() && st[i].1 > 0 && cs.contains_key(st[i].0) ==> below(cs, #[trigger] st[i].0, r)
}

/// A child of an entity below `r`, or of `r` itself, is below `r`.
pub proof fn lemma_below_child(cs: Map<u64, ChildRec>, y: u64, r: u64)
    requires
        cs.contains_key(y),
        cs[y].0 == r || below(cs, cs[y].0, r),
    ensures
        below(cs, y, r),
{
    if cs[y].0 == r {
        assert(up(cs, y, 1) == up(cs, cs[y].0, 0));
        assert(climbs(cs, y, 1)) by {
            assert forall|j: nat| j < 1 implies #[trigger] cs.contains_key(up(cs, y, j)) by {
                assert(j == 0);
            }
        }
    } else {
        let k = choose|k: nat| k >= 1 && climbs(cs, cs[y].0, k) && #[trigger] up(cs, cs[y].0, k) == r;
        assert(up(cs, y, k + 1) == up(cs, cs[y].0, k));
        assert(climbs(cs, y, k + 1)) by {
            assert forall|j: nat| j < k + 1 implies #[trigger] cs.contains_key(up(cs, y, j)) by {
                if j > 0 {
                    assert(up(cs, y, j) == up(cs, cs[y].0, (j - 1) as nat));
                    assert(climbs(cs, cs[y].0, k));
                }
            }
        }
    }
}

/// Two children of one parent lie below the same entities.
proof fn lemma_below_sibling(cs: Map<u64, ChildRec>, x: u64, y: u64, r: u64)
    requires
        cs.contains_key(x),
        cs.contains_key(y),
        cs[x].0 == cs[y].0,
        below(cs, x, r),
    ensures
        below(cs, y, r),
{
    let k = choose|k: nat| k >= 1 && climbs(cs, x, k) && #[trigger] up(cs, x, k) == r;
    if k == 1 {
        assert(up(cs, x, 1) == up(cs, cs[x].0, 0));
        lemma_below_child(cs, y, r);
    } else {
        assert(up(cs, x, k) == up(cs, cs[x].0, (k - 1) as nat));
        assert(climbs(cs, cs[x].0, (k - 1) as nat)) by {
            assert forall|j: nat| j < k - 1 implies #[trigger] cs.contains_key(up(cs, cs[x].0, j)) by {
                assert(up(cs, x, j + 1) == up(cs, cs[x].0, j));
                assert(climbs(cs, x, k));
            }
        }
        assert(below(cs, cs[x].0, r));
        lemma_below_child(cs, y, r);
    }
}

/// One step of a depth-first walk keeps every live frame below `r`, and what it yields is
/// below `r`.
proof fn lemma_dfs_step_below(ps: Map<u64, ParentRec>, cs: Map<u64, ChildRec>, r: u64, st: Seq<Frame>)
    requires
        wf(ps, cs),
        frames_below(cs, r, st),
    ensures
        frames_below(cs, r, dfs_next(ps, cs, st).1),
        dfs_next(ps, cs, st).0.is_some() ==> below(cs, dfs_next(ps, cs, st).0.unwrap(), r),
    decreases st.len(),
{
    if st.len() > 0 {
        let top = st.last();
        let base = st.drop_last();
        assert(frames_below(cs, r, base)) by {
            assert forall|i: int|
                0 <= i < base.len() && base[i].1 > 0 && cs.contains_key(base[i].0) implies below(
                cs,
                #[trigger] base[i].0,
                r,
            ) by {
                assert(base[i] == st[i]);
            }
        }
        if top.1 == 0 {
            lemma_dfs_step_below(ps, cs, r, base);
        } else if cs.contains_key(top.0) {
            let x = top.0;
            assert(st[st.len() - 1] == top);
            assert(below(cs, x, r));
            let nx = cs[x].1;
            let st1 = base.push((nx, (top.1 - 1) as usize));
            lemma_child_in_kids(ps, cs, x);
            let p = cs[x].0;
            let s = kids(ps, cs, p);
            lemma_kids_of_parent(ps, cs, p);
            let i = choose|i: int| 0 <= i < s.len() && s[i] == x;
            assert(linked(cs, p, s, i));
            assert(linked(cs, p, s, next_index(i, s.len() as int)));
            lemma_below_sibling(cs, x, nx, r);
            assert(frames_below(cs, r, st1)) by {
                assert forall|j: int|
                    0 <= j < st1.len() && st1[j].1 > 0 && cs.contains_key(st1[j].0) implies below(
                    cs,
                    #[trigger] st1[j].0,
                    r,
                ) by {
                    if j < base.len() {
                        assert(st1[j] == base[j]);
                    }
                }
            }
            if ps.contains_key(x) && cs.contains_key(ps[x].1) && st1.len() < usize::MAX {
                let f = cs[ps[x].1].1;
                let t = kids(ps, cs, x);
                lemma_kids_of_parent(ps, cs, x);
                assert(linked(cs, x, t, 0));
                lemma_below_child(cs, f, r);
                let st2 = st1.push((f, ps[x].0));
                assert(frames_below(cs, r, st2)) by {
                    assert forall|j: int|
                        0 <= j < st2.len() && st2[j].1 > 0 && cs.contains_key(st2[j].0) implies below(
                        cs,
                        #[trigger] st2[j].0,
                        r,
                    ) by {
                        if j < st1.len() {
                            assert(st2[j] == st1[j]);
                        }
                    }
                }
            }
        }
    }
}

/// A depth-first walk over a well-formed hierarchy yields only entities that lie below
/// the entity it started from.
pub proof fn law_depth_first_stays_below(ps: Map<u64, ParentRec>, cs: Map<u64, ChildRec>, r: u64, fuel: nat)
    requires
        wf(ps, cs),
    ensures
        forall|i: int|
            0 <= i < dfs_seq(ps, cs, root_frames(ps, cs, r), fuel).len() ==> below(
                cs,
                #[trigger] dfs_seq(ps, cs, root_frames(ps, cs, r), fuel)[i],
                r,
            ),
{
    let st = root_frames(ps, cs, r);
    if ps.contains_key(r) && cs.contains_key(ps[r].1) {
        let t = kids(ps, cs, r);
        lemma_kids_of_parent(ps, cs, r);
        assert(linked(cs, r, t, 0));
        lemma_below_child(cs, cs[ps[r].1].1, r);
    }
    lemma_walk_below(ps, cs, r, st, fuel);
}

/// Every entity a depth-first walk yields from a stack whose live frames lie below `r`
/// lies below `r`.
proof fn lemma_walk_below(ps: Map<u64, ParentRec>, cs: Map<u64, ChildRec>, r: u64, st: Seq<Frame>, fuel: nat)
    requires
        wf(ps, cs),
        frames_below(cs, r, st),
    ensures
        forall|i: int|
            0 <= i < dfs_seq(ps, cs, st, fuel).len() ==> below(cs, #[trigger] dfs_seq(ps, cs, st, fuel)[i], r),
    decreases fuel,
{
    if fuel > 0 {
        lemma_dfs_step_below(ps, cs, r, st);
        let (e, st1) = dfs_next(ps, cs, st);
        if e.is_some() {
            lemma_walk_below(ps, cs, r, st1, (fuel - 1) as nat);
            let rest = dfs_seq(ps, cs, st1, (fuel - 1) as nat);
            assert(dfs_seq(ps, cs, st, fuel) == seq![e.unwrap()] + rest);
            assert forall|i: int| 0 <= i < dfs_seq(ps, cs, st, fuel).len() implies below(
                cs,
                #[trigger] dfs_seq(ps, cs, st, fuel)[i],
                r,
            ) by {
                if i > 0 {
                    assert(dfs_seq(ps, cs, st, fuel)[i] == rest[i - 1]);
                }
            }
        }
    }
}

} // verus!
