//! Operations that change a hierarchy, and the lookups they are built on.
use vstd::prelude::*;

use crate::components::{Child, ChildRec, Parent};
use crate::laws::below;
use crate::laws::{law_depth_first_stays_below, lemma_below_child};
use crate::preorder::{law_depth_first_exactly_once, lemma_below_after_unlink, lemma_drop_subtree, lemma_not_below_self, ranked, subtree_set};
use crate::iter::{accepts, decides, DepthFirstVisitor, BreadthFirstIterator, bits_of, dfs_seq, root_frames, AncestorIter, ChildrenIter, DepthFirstIterator};
use crate::entity::{Entity, HierarchyError};
use crate::model::{attach_links, attach_parents, kids, lemma_attach_first, lemma_attach_more, lemma_child_in_kids, lemma_detach, lemma_drop_children, lemma_kids_of_parent, linked, next_index, prev_index, splice_links, unlink_links, unlink_parent, wf};
use crate::table::{
    child_table, despawn, get_child, get_parent, insert_child, insert_parent, is_live, live_set,
    parent_table, query_roots, remove_child, remove_parent, spawn,
};

verus! {

/// The children of `p` in the hierarchy tagged `tag` of the world, first to last.
pub open spec fn children_of(w: hecs::World, tag: u64, p: u64) -> Seq<u64> {
    kids(parent_table(w, tag), child_table(w, tag), p)
}

/// The hierarchy tagged `tag` of the world is well formed.
pub open spec fn well_formed(w: hecs::World, tag: u64) -> bool {
    wf(parent_table(w, tag), child_table(w, tag))
}

/// The columns of every other tag, and the set of live entities, are as they were.
pub open spec fn others_unchanged(a: hecs::World, b: hecs::World, tag: u64) -> bool {
    &&& live_set(b) == live_set(a)
    &&& forall|t: u64| t != tag ==> #[trigger] parent_table(b, t) == parent_table(a, t)
    &&& forall|t: u64| t != tag ==> #[trigger] child_table(b, t) == child_table(a, t)
}

/// The columns of the tag are as they were too.
pub open spec fn unchanged(a: hecs::World, b: hecs::World, tag: u64) -> bool {
    &&& others_unchanged(a, b, tag)
    &&& parent_table(b, tag) == parent_table(a, tag)
    &&& child_table(b, tag) == child_table(a, tag)
}

/// What `attach` returns: it fails on a dead parent or child, and on a parent whose last
/// child, or the first child after it, has lost its `Child` component.
pub open spec fn attach_outcome(w: hecs::World, tag: u64, child: Entity, parent: Entity) -> Result<
    Entity,
    HierarchyError,
> {
    let ps = parent_table(w, tag);
    let cs = child_table(w, tag);
    if !live_set(w).contains(parent.bits) {
        Err(HierarchyError::NoSuchEntity(parent))
    } else if !live_set(w).contains(child.bits) {
        Err(HierarchyError::NoSuchEntity(child))
    } else if ps.contains_key(parent.bits) && !cs.contains_key(ps[parent.bits].1) {
        Err(HierarchyError::MissingComponent(Entity { bits: ps[parent.bits].1 }))
    } else if ps.contains_key(parent.bits) && !cs.contains_key(cs[ps[parent.bits].1].1) {
        Err(HierarchyError::MissingComponent(Entity { bits: cs[ps[parent.bits].1].1 }))
    } else {
        Ok(child)
    }
}

/// Attach `child` under `parent` in the hierarchy tagged `H`, as the parent's last child,
/// and return `child`. The parent gets a `Parent` component if it had none.
///
/// `child` must not be attached in this hierarchy already, and must not be an ancestor
/// of `parent`; neither is checked. The child's own children come along with it.
pub fn attach<const H: u64>(w: &mut hecs::World, child: Entity, parent: Entity) -> (r: Result<
    Entity,
    HierarchyError,
>)
    requires
        parent_table(*old(w), H).contains_key(parent.bits) ==> parent_table(*old(w), H)[parent.bits].0
            < usize::MAX,
    ensures
        r == attach_outcome(*old(w), H, child, parent),
        others_unchanged(*old(w), *final(w), H),
        r.is_err() ==> unchanged(*old(w), *final(w), H),
        r.is_ok() ==> child_table(*final(w), H).contains_key(child.bits) && child_table(*final(w), H)[child.bits].0
            == parent.bits,
        r.is_ok() ==> parent_table(*final(w), H) == attach_parents(parent_table(*old(w), H), parent.bits, child.bits),
        r.is_ok() ==> child_table(*final(w), H) == attach_links(
            parent_table(*old(w), H),
            child_table(*old(w), H),
            parent.bits,
            child.bits,
        ),
        r.is_ok() ==> parent_table(*final(w), H).dom() == parent_table(*old(w), H).dom().insert(
            parent.bits,
        ),
        r.is_ok() ==> child_table(*final(w), H).dom() == child_table(*old(w), H).dom().insert(
            child.bits,
        ),
        r.is_ok() && well_formed(*old(w), H) && !child_table(*old(w), H).contains_key(child.bits)
            ==> {
            &&& well_formed(*final(w), H)
            &&& children_of(*final(w), H, parent.bits) == children_of(*old(w), H, parent.bits).push(
                child.bits,
            )
            &&& forall|q: u64| q != parent.bits ==> #[trigger] children_of(*final(w), H, q)
                == children_of(*old(w), H, q)
        },
{
    let ghost ps = parent_table(*w, H);
    let ghost cs = child_table(*w, H);
    if !is_live(w, parent) {
        return Err(HierarchyError::NoSuchEntity(parent));
    }
    if !is_live(w, child) {
        return Err(HierarchyError::NoSuchEntity(child));
    }
    match get_parent::<H>(w, parent) {
        Some(pp) => {
            let last = pp.last_child;
            let lrec = match get_child::<H>(w, last) {
                Some(c) => c,
                None => return Err(HierarchyError::MissingComponent(last)),
            };
            let first = lrec.next;
            if get_child::<H>(w, first).is_none() {
                return Err(HierarchyError::MissingComponent(first));
            }
            insert_parent(w, parent, Parent::<H>::new(pp.num_children + 1, child));
            insert_child(w, last, Child::<H>::new(lrec.parent, child, lrec.prev));
            let frec = match get_child::<H>(w, first) {
                Some(c) => c,
                None => return Err(HierarchyError::MissingComponent(first)),
            };
            insert_child(w, first, Child::<H>::new(frec.parent, frec.next, child));
            insert_child(w, child, Child::<H>::new(parent, first, last));
            proof {
                assert(child_table(*w, H) =~= splice_links(cs, parent.bits, child.bits, last.bits));
                assert(parent_table(*w, H) =~= attach_parents(ps, parent.bits, child.bits));
                if wf(ps, cs) && !cs.contains_key(child.bits) {
                    lemma_attach_more(ps, cs, parent.bits, child.bits);
                }
            }
        },
        None => {
            insert_parent(w, parent, Parent::<H>::new(1, child));
            insert_child(w, child, Child::<H>::new(parent, child, child));
            proof {
                assert(parent_table(*w, H) =~= attach_parents(ps, parent.bits, child.bits));
                assert(child_table(*w, H) =~= attach_links(ps, cs, parent.bits, child.bits));
                if wf(ps, cs) && !cs.contains_key(child.bits) {
                    lemma_attach_first(ps, cs, parent.bits, child.bits);
                }
            }
        },
    }
    proof {
        assert(parent_table(*w, H).dom() =~= ps.dom().insert(parent.bits));
        assert(child_table(*w, H).dom() =~= cs.dom().insert(child.bits));
    }
    Ok(child)
}

/// What `detach` returns: it fails on a dead child, on an entity that is not a child,
/// and on a child whose neighbours or parent have lost their components.
pub open spec fn detach_outcome(w: hecs::World, tag: u64, child: Entity) -> Result<(), HierarchyError> {
    let ps = parent_table(w, tag);
    let cs = child_table(w, tag);
    if !live_set(w).contains(child.bits) {
        Err(HierarchyError::NoSuchEntity(child))
    } else if !cs.contains_key(child.bits) {
        Err(HierarchyError::MissingComponent(child))
    } else if !cs.contains_key(cs[child.bits].2) {
        Err(HierarchyError::MissingComponent(Entity { bits: cs[child.bits].2 }))
    } else if !cs.contains_key(cs[child.bits].1) {
        Err(HierarchyError::MissingComponent(Entity { bits: cs[child.bits].1 }))
    } else if !ps.contains_key(cs[child.bits].0) {
        Err(HierarchyError::MissingComponent(Entity { bits: cs[child.bits].0 }))
    } else {
        Ok(())
    }
}

/// Take `child` out of its parent's children in the hierarchy tagged `H` and drop its
/// `Child` component. The parent loses its `Parent` component with its last child. The
/// children of `child` stay attached to it, so the whole subtree moves out.
pub fn detach<const H: u64>(w: &mut hecs::World, child: Entity) -> (r: Result<(), HierarchyError>)
    ensures
        r == detach_outcome(*old(w), H, child),
        others_unchanged(*old(w), *final(w), H),
        r.is_err() ==> unchanged(*old(w), *final(w), H),
        r.is_ok() ==> child_table(*final(w), H) == unlink_links(child_table(*old(w), H), child.bits),
        r.is_ok() ==> child_table(*final(w), H).dom() == child_table(*old(w), H).dom().remove(
            child.bits,
        ),
        r.is_ok() ==> parent_table(*final(w), H) == unlink_parent(
            parent_table(*old(w), H),
            child_table(*old(w), H),
            child.bits,
        ),
        r.is_ok() && well_formed(*old(w), H) ==> {
            let p = child_table(*old(w), H)[child.bits].0;
            let s = children_of(*old(w), H, p);
            &&& well_formed(*final(w), H)
            &&& 0 <= s.index_of(child.bits) < s.len()
            &&& children_of(*final(w), H, p) == s.remove(s.index_of(child.bits))
            &&& !children_of(*final(w), H, p).contains(child.bits)
            &&& forall|q: u64| q != p ==> #[trigger] children_of(*final(w), H, q) == children_of(
                *old(w),
                H,
                q,
            )
        },
{
    let ghost ps = parent_table(*w, H);
    let ghost cs = child_table(*w, H);
    if !is_live(w, child) {
        return Err(HierarchyError::NoSuchEntity(child));
    }
    let data = match get_child::<H>(w, child) {
        Some(d) => d,
        None => return Err(HierarchyError::MissingComponent(child)),
    };
    let parent = data.parent;
    let prev = data.prev;
    let next = data.next;
    let prec = match get_child::<H>(w, prev) {
        Some(d) => d,
        None => return Err(HierarchyError::MissingComponent(prev)),
    };
    if get_child::<H>(w, next).is_none() {
        return Err(HierarchyError::MissingComponent(next));
    }
    let pp = match get_parent::<H>(w, parent) {
        Some(p) => p,
        None => return Err(HierarchyError::MissingComponent(parent)),
    };
    insert_child(w, prev, Child::<H>::new(prec.parent, next, prec.prev));
    let nrec = match get_child::<H>(w, next) {
        Some(d) => d,
        None => return Err(HierarchyError::MissingComponent(next)),
    };
    insert_child(w, next, Child::<H>::new(nrec.parent, nrec.next, prev));
    remove_child::<H>(w, child);
    if pp.num_children <= 1 {
        remove_parent::<H>(w, parent);
    } else {
        let last = if pp.last_child == child {
            prev
        } else {
            pp.last_child
        };
        insert_parent(w, parent, Parent::<H>::new(pp.num_children - 1, last));
    }
    proof {
        assert(child_table(*w, H) =~= unlink_links(cs, child.bits));
        assert(parent_table(*w, H) =~= unlink_parent(ps, cs, child.bits));
        assert(child_table(*w, H).dom() =~= cs.dom().remove(child.bits));
        if wf(ps, cs) {
            lemma_detach(ps, cs, child.bits);
        }
    }
    Ok(())
}

/// The entity `k` steps up the chain of parents from `e`.
pub open spec fn up(cs: Map<u64, ChildRec>, e: u64, k: nat) -> u64
    decreases k,
{
    if k == 0 {
        e
    } else {
        up(cs, cs[e].0, (k - 1) as nat)
    }
}

/// The first `k` entities up the chain from `e`, `e` included, all have a `Child` component.
pub open spec fn climbs(cs: Map<u64, ChildRec>, e: u64, k: nat) -> bool {
    forall|j: nat| j < k ==> #[trigger] cs.contains_key(up(cs, e, j))
}

/// The parent of `child` in the hierarchy tagged `H`.
pub fn parent<const H: u64>(w: &hecs::World, child: Entity) -> (r: Result<Entity, HierarchyError>)
    ensures
        r == if !live_set(*w).contains(child.bits) {
            Err(HierarchyError::NoSuchEntity(child))
        } else if !child_table(*w, H).contains_key(child.bits) {
            Err(HierarchyError::MissingComponent(child))
        } else {
            Ok(Entity { bits: child_table(*w, H)[child.bits].0 })
        },
{
    if !is_live(w, child) {
        return Err(HierarchyError::NoSuchEntity(child));
    }
    match get_child::<H>(w, child) {
        Some(c) => Ok(c.parent),
        None => Err(HierarchyError::MissingComponent(child)),
    }
}

/// The root above `child` in the hierarchy tagged `H`: the first entity up the chain of
/// parents that has no `Child` component, `child` itself when it has none. Fails when the
/// chain meets a dead entity first.
///
/// The chain must end, as it does in any hierarchy without cycles.
pub fn root<const H: u64>(w: &hecs::World, child: Entity) -> (r: Result<Entity, HierarchyError>)
    requires
        exists|k: nat| !child_table(*w, H).contains_key(#[trigger] up(child_table(*w, H), child.bits, k)),
    ensures
        ({
            let cs = child_table(*w, H);
            &&& r.is_ok() ==> exists|k: nat|
                {
                    &&& climbs(cs, child.bits, k)
                    &&& #[trigger] up(cs, child.bits, k) == r.unwrap().bits
                    &&& !cs.contains_key(r.unwrap().bits)
                    &&& live_set(*w).contains(r.unwrap().bits)
                }
            &&& r.is_err() ==> exists|k: nat|
                {
                    &&& climbs(cs, child.bits, k)
                    &&& r == Err::<Entity, HierarchyError>(
                        HierarchyError::NoSuchEntity(Entity { bits: #[trigger] up(cs, child.bits, k) }),
                    )
                    &&& !live_set(*w).contains(up(cs, child.bits, k))
                }
        }),
{
    let ghost cs = child_table(*w, H);
    let ghost end: nat = choose|k: nat| !cs.contains_key(#[trigger] up(cs, child.bits, k));
    let ghost mut steps: nat = 0;
    let mut cur = child;
    loop
        invariant
            cs == child_table(*w, H),
            !cs.contains_key(up(cs, child.bits, end)),
            steps <= end,
            cur.bits == up(cs, child.bits, steps),
            climbs(cs, child.bits, steps),
        decreases end - steps,
    {
        if !is_live(w, cur) {
            return Err(HierarchyError::NoSuchEntity(cur));
        }
        match get_child::<H>(w, cur) {
            Some(c) => {
                proof {
                    lemma_up_step(cs, child.bits, steps);
                    assert forall|j: nat| j < steps + 1 implies #[trigger] cs.contains_key(
                        up(cs, child.bits, j),
                    ) by {
                        if j < steps {
                            assert(climbs(cs, child.bits, steps));
                        }
                    }
                    steps = steps + 1;
                }
                cur = c.parent;
            },
            None => {
                return Ok(cur);
            },
        }
    }
}

/// One more step up the chain is a step from where the chain got to.
pub proof fn lemma_up_step(cs: Map<u64, ChildRec>, e: u64, k: nat)
    ensures
        up(cs, e, k + 1) == cs[up(cs, e, k)].0,
    decreases k,
{
    if k > 0 {
        lemma_up_step(cs, cs[e].0, (k - 1) as nat);
        assert(up(cs, e, k + 1) == up(cs, cs[e].0, k));
        assert(up(cs, e, k) == up(cs, cs[e].0, (k - 1) as nat));
    } else {
        assert(up(cs, e, 1) == up(cs, cs[e].0, 0));
    }
}

/// Walks the children of `parent` in the hierarchy tagged `H`; an empty walk when it
/// has none.
pub fn children<const H: u64>(w: &hecs::World, parent: Entity) -> (r: ChildrenIter<H>)
    ensures
        r.rest(*w) == children_of(*w, H, parent.bits),
        r.remaining == if parent_table(*w, H).contains_key(parent.bits) && child_table(*w, H).contains_key(
            parent_table(*w, H)[parent.bits].1,
        ) {
            parent_table(*w, H)[parent.bits].0
        } else {
            0
        },
{
    match get_parent::<H>(w, parent) {
        Some(p) => match get_child::<H>(w, p.last_child) {
            Some(last) => ChildrenIter::new(p.num_children, Some(last.next)),
            None => ChildrenIter::new(0, None),
        },
        None => ChildrenIter::new(0, None),
    }
}

/// Walks up from `child` through its ancestors in the hierarchy tagged `H`, `child`
/// itself not included.
pub fn ancestors<const H: u64>(child: Entity) -> (r: AncestorIter<H>)
    ensures
        r.current == child,
{
    AncestorIter::new(child)
}

/// Detach every child of `parent` in the hierarchy tagged `H` and drop the parent's
/// `Parent` component; return the children, first to last. Each keeps its own children.
pub fn detach_children<const H: u64>(w: &mut hecs::World, parent: Entity) -> (r: Result<
    Vec<Entity>,
    HierarchyError,
>)
    ensures
        others_unchanged(*old(w), *final(w), H),
        r.is_ok() ==> bits_of(r.unwrap()@) == children_of(*old(w), H, parent.bits),
        r.is_ok() ==> parent_table(*final(w), H) == parent_table(*old(w), H).remove(parent.bits),
        r.is_ok() ==> child_table(*final(w), H) == child_table(*old(w), H).remove_keys(
            children_of(*old(w), H, parent.bits).to_set(),
        ),
        r.is_err() ==> exists|i: int|
            0 <= i < children_of(*old(w), H, parent.bits).len() && r == Err::<Vec<Entity>, HierarchyError>(
                HierarchyError::MissingComponent(
                    Entity { bits: #[trigger] children_of(*old(w), H, parent.bits)[i] },
                ),
            ),
        well_formed(*old(w), H) ==> {
            &&& r.is_ok()
            &&& well_formed(*final(w), H)
            &&& children_of(*final(w), H, parent.bits) == Seq::<u64>::empty()
            &&& forall|q: u64| q != parent.bits ==> #[trigger] children_of(*final(w), H, q)
                == children_of(*old(w), H, q)
        },
{
    let ghost ps = parent_table(*w, H);
    let ghost cs = child_table(*w, H);
    let ghost s = kids(ps, cs, parent.bits);
    let list = children::<H>(w, parent).collect(w);
    proof {
        if wf(ps, cs) {
            lemma_drop_children(ps, cs, parent.bits);
            if ps.contains_key(parent.bits) {
                lemma_kids_of_parent(ps, cs, parent.bits);
            }
        }
    }
    let mut i: usize = 0;
    while i < list.len()
        invariant
            bits_of(list@) == s,
            0 <= i <= list.len(),
            ps == parent_table(*old(w), H),
            cs == child_table(*old(w), H),
            s == children_of(*old(w), H, parent.bits),
            others_unchanged(*old(w), *w, H),
            parent_table(*w, H) == ps,
            child_table(*w, H) == cs.remove_keys(s.subrange(0, i as int).to_set()),
            wf(ps, cs) ==> s.no_duplicates() && forall|j: int| 0 <= j < s.len() ==> #[trigger] cs.contains_key(s[j]),
        decreases list.len() - i,
    {
        let c = list[i];
        assert(s[i as int] == c.bits);
        proof {
            if wf(ps, cs) {
                let k = i as int;
                assert(cs.contains_key(s[k]));
                if s.subrange(0, k).to_set().contains(s[k]) {
                    let j = choose|j: int| 0 <= j < k && s.subrange(0, k)[j] == s[k];
                    assert(s[j] == s[k]);
                }
                assert(child_table(*w, H).contains_key(c.bits));
            }
        }
        if !remove_child::<H>(w, c) {
            assert(s[i as int] == c.bits);
            return Err(HierarchyError::MissingComponent(c));
        }
        proof {
            assert(s.subrange(0, i + 1) =~= s.subrange(0, i as int).push(c.bits));
            s.subrange(0, i as int).lemma_push_to_set_commute(c.bits);
            assert(child_table(*w, H) =~= cs.remove_keys(s.subrange(0, i + 1).to_set()));
        }
        i = i + 1;
    }
    remove_parent::<H>(w, parent);
    proof {
        assert(s.subrange(0, s.len() as int) =~= s);
        assert(parent_table(*w, H) =~= ps.remove(parent.bits));
    }
    Ok(list)
}

/// Detach every child of `entity` and then `entity` itself from its parent, leaving it
/// with neither component in the hierarchy tagged `H`. Fails as `detach` does when
/// `entity` is not a child, after its children have been detached.
pub fn detach_all<const H: u64>(w: &mut hecs::World, entity: Entity) -> (r: Result<(), HierarchyError>)
    ensures
        others_unchanged(*old(w), *final(w), H),
        well_formed(*old(w), H) && !children_of(*old(w), H, entity.bits).contains(entity.bits) ==> r
            == detach_outcome(*old(w), H, entity),
        well_formed(*old(w), H) && r.is_ok() ==> {
            &&& well_formed(*final(w), H)
            &&& !parent_table(*final(w), H).contains_key(entity.bits)
            &&& !child_table(*final(w), H).contains_key(entity.bits)
            &&& forall|c: u64| #[trigger] children_of(*old(w), H, entity.bits).contains(c) ==> !child_table(
                *final(w),
                H,
            ).contains_key(c)
        },
{
    let ghost ps = parent_table(*w, H);
    let ghost cs = child_table(*w, H);
    let ghost wf0 = wf(ps, cs);
    detach_children::<H>(w, entity)?;
    proof {
        if wf0 && !kids(ps, cs, entity.bits).contains(entity.bits) {
            let s = kids(ps, cs, entity.bits);
            lemma_drop_children(ps, cs, entity.bits);
            assert(!s.to_set().contains(entity.bits));
            if cs.contains_key(entity.bits) {
                let q = cs[entity.bits].0;
                lemma_detach(ps, cs, entity.bits);
                assert(q != entity.bits) by {
                    lemma_child_in_kids(ps, cs, entity.bits);
                }
                let t = kids(ps, cs, q);
                lemma_kids_of_parent(ps, cs, q);
                let i = t.index_of(entity.bits);
                assert(linked(cs, q, t, i));
                assert(linked(cs, q, t, next_index(i, t.len() as int)));
                assert(linked(cs, q, t, prev_index(i, t.len() as int)));
                assert(!s.to_set().contains(cs[entity.bits].1)) by {
                    if s.to_set().contains(cs[entity.bits].1) {
                        let j = choose|j: int| 0 <= j < s.len() && s[j] == cs[entity.bits].1;
                    }
                }
                assert(!s.to_set().contains(cs[entity.bits].2)) by {
                    if s.to_set().contains(cs[entity.bits].2) {
                        let j = choose|j: int| 0 <= j < s.len() && s[j] == cs[entity.bits].2;
                    }
                }
            }
        }
    }
    let ghost ps1 = parent_table(*w, H);
    let ghost cs1 = child_table(*w, H);
    detach::<H>(w, entity)?;
    proof {
        if wf0 {
            let s = kids(ps, cs, entity.bits);
            lemma_drop_children(ps, cs, entity.bits);
            lemma_detach(ps1, cs1, entity.bits);
            assert(cs1.contains_key(entity.bits));
            assert(!s.to_set().contains(entity.bits));
            let q = cs[entity.bits].0;
            lemma_child_in_kids(ps, cs, entity.bits);
            assert(q != entity.bits) by {
                if q == entity.bits {
                    assert(s.contains(entity.bits));
                }
            }
            let t = kids(ps, cs, q);
            lemma_kids_of_parent(ps, cs, q);
            let i = t.index_of(entity.bits);
            assert(linked(cs, q, t, i));
            assert(linked(cs, q, t, next_index(i, t.len() as int)));
            assert(linked(cs, q, t, prev_index(i, t.len() as int)));
            assert forall|c: u64| #[trigger] s.contains(c) implies !child_table(*w, H).contains_key(c) by {
                assert(s.to_set().contains(c));
                let j = choose|j: int| 0 <= j < s.len() && s[j] == c;
                assert(cs.contains_key(s[j]));
                assert(cs[s[j]].0 == entity.bits);
            }
        }
    }
    Ok(())
}

/// Spawn an entity with the components gathered in `components` and attach it under
/// `parent` in the hierarchy tagged `H`; return it. The builder is left empty. Any
/// `Parent<H>` or `Child<H>` among the components is dropped, so the new entity always
/// starts loose.
pub fn attach_new<const H: u64>(w: &mut hecs::World, parent: Entity, components: &mut hecs::EntityBuilder) -> (r: Result<
    Entity,
    HierarchyError,
>)
    requires
        parent_table(*old(w), H).contains_key(parent.bits) ==> parent_table(*old(w), H)[parent.bits].0
            < usize::MAX,
    ensures
        !live_set(*old(w)).contains(parent.bits) ==> r == Err::<Entity, HierarchyError>(
            HierarchyError::NoSuchEntity(parent),
        ),
        well_formed(*old(w), H) && live_set(*old(w)).contains(parent.bits) ==> r.is_ok(),
        r.is_ok() ==> !live_set(*old(w)).contains(r.unwrap().bits) && live_set(*final(w)) == live_set(
            *old(w),
        ).insert(r.unwrap().bits),
        r.is_ok() ==> child_table(*final(w), H).contains_key(r.unwrap().bits) && child_table(*final(w), H)[r.unwrap().bits].0
            == parent.bits,
        r.is_ok() ==> !parent_table(*final(w), H).contains_key(r.unwrap().bits),
        r.is_ok() && well_formed(*old(w), H) ==> {
            &&& well_formed(*final(w), H)
            &&& children_of(*final(w), H, parent.bits) == children_of(*old(w), H, parent.bits).push(
                r.unwrap().bits,
            )
            &&& forall|q: u64| q != parent.bits && q != r.unwrap().bits ==> #[trigger] children_of(*final(w), H, q)
                == children_of(*old(w), H, q)
        },
{
    let ghost ps = parent_table(*w, H);
    let ghost cs = child_table(*w, H);
    if !is_live(w, parent) {
        return Err(HierarchyError::NoSuchEntity(parent));
    }
    let child = spawn(w, components);
    remove_parent::<H>(w, child);
    remove_child::<H>(w, child);
    proof {
        assert(parent_table(*w, H) =~= ps);
        assert(child_table(*w, H) =~= cs);
    }
    let r = attach::<H>(w, child, parent);
    proof {
        if wf(ps, cs) {
            assert(!ps.contains_key(child.bits));
            assert(kids(ps, cs, child.bits) =~= Seq::<u64>::empty());
            if ps.contains_key(parent.bits) {
                lemma_kids_of_parent(ps, cs, parent.bits);
            }
        }
    }
    r
}

/// Walks the descendants of `root` in the hierarchy tagged `H` depth first.
pub fn descendants_depth_first<const H: u64>(w: &hecs::World, root: Entity) -> (r: DepthFirstIterator<H>)
    ensures
        r.frames() == root_frames(parent_table(*w, H), child_table(*w, H), root.bits),
{
    DepthFirstIterator::new(w, root)
}

/// Despawn `parent` and everything the depth-first walk below it reaches, after detaching
/// `parent` from its own parent. Dead or dangling entities along the way are skipped.
///
/// In a well-formed hierarchy without cycles (`rank` below witnesses that), this removes
/// exactly the subtree of `parent`, and what remains is well formed: nothing left links to
/// a despawned entity.
pub fn despawn_all<const H: u64>(w: &mut hecs::World, parent: Entity)
    ensures
        ({
            let ps = parent_table(*old(w), H);
            let cs = child_table(*old(w), H);
            let under = dfs_seq(ps, cs, root_frames(ps, cs, parent.bits), usize::MAX as nat);
            let gone = under.to_set().insert(parent.bits);
            let detached = detach_outcome(*old(w), H, parent).is_ok();
            let ps1 = if detached {
                unlink_parent(ps, cs, parent.bits)
            } else {
                ps
            };
            let cs1 = if detached {
                unlink_links(cs, parent.bits)
            } else {
                cs
            };
            &&& live_set(*final(w)) == live_set(*old(w)).difference(under.to_set()).remove(parent.bits)
            &&& parent_table(*final(w), H) == ps1.remove_keys(gone)
            &&& child_table(*final(w), H) == cs1.remove_keys(gone)
            &&& forall|t: u64| t != H ==> #[trigger] parent_table(*final(w), t) == parent_table(*old(w), t).remove_keys(gone)
            &&& forall|t: u64| t != H ==> #[trigger] child_table(*final(w), t) == child_table(*old(w), t).remove_keys(gone)
            &&& well_formed(*old(w), H) && live_set(*old(w)).contains(parent.bits) && under.len() < usize::MAX
                && (exists|rank: Map<u64, nat>|
                #[trigger] ranked(cs, rank) && rank.contains_key(parent.bits) && rank[parent.bits] < usize::MAX)
                ==> {
                &&& well_formed(*final(w), H)
                &&& gone == subtree_set(cs, parent.bits)
                &&& cs.contains_key(parent.bits) ==> {
                    let up1 = cs[parent.bits].0;
                    let s = children_of(*old(w), H, up1);
                    &&& !gone.contains(up1)
                    &&& 0 <= s.index_of(parent.bits) < s.len()
                    &&& children_of(*final(w), H, up1) == s.remove(s.index_of(parent.bits))
                }
                &&& forall|q: u64|
                    !gone.contains(q) && (cs.contains_key(parent.bits) ==> q != cs[parent.bits].0) ==> #[trigger] children_of(
                        *final(w),
                        H,
                        q,
                    ) == children_of(*old(w), H, q)
            }
        }),
{
    let ghost ps = parent_table(*w, H);
    let ghost cs = child_table(*w, H);
    let ghost under = dfs_seq(ps, cs, root_frames(ps, cs, parent.bits), usize::MAX as nat);
    let list = descendants_depth_first::<H>(w, parent).collect(w);
    let detached = detach::<H>(w, parent);
    let ghost live0 = live_set(*w);
    let ghost ps1 = parent_table(*w, H);
    let ghost cs1 = child_table(*w, H);
    assert(live0 == live_set(*old(w)));
    let mut i: usize = 0;
    while i < list.len()
        invariant
            bits_of(list@) == under,
            0 <= i <= list.len(),
            live_set(*w) == live0.difference(under.subrange(0, i as int).to_set()),
            parent_table(*w, H) == ps1.remove_keys(under.subrange(0, i as int).to_set()),
            child_table(*w, H) == cs1.remove_keys(under.subrange(0, i as int).to_set()),
            forall|t: u64| t != H ==> #[trigger] parent_table(*w, t) == parent_table(*old(w), t).remove_keys(
                under.subrange(0, i as int).to_set(),
            ),
            forall|t: u64| t != H ==> #[trigger] child_table(*w, t) == child_table(*old(w), t).remove_keys(
                under.subrange(0, i as int).to_set(),
            ),
        decreases list.len() - i,
    {
        let e = list[i];
        assert(under[i as int] == e.bits);
        despawn(w, e);
        proof {
            assert(under.subrange(0, i + 1) =~= under.subrange(0, i as int).push(e.bits));
            under.subrange(0, i as int).lemma_push_to_set_commute(e.bits);
            assert(live_set(*w) =~= live0.difference(under.subrange(0, i + 1).to_set()));
            assert(parent_table(*w, H) =~= ps1.remove_keys(under.subrange(0, i + 1).to_set()));
            assert(child_table(*w, H) =~= cs1.remove_keys(under.subrange(0, i + 1).to_set()));
            assert forall|t: u64| t != H implies #[trigger] parent_table(*w, t) == parent_table(*old(w), t).remove_keys(
                under.subrange(0, i + 1).to_set(),
            ) by {
                assert(parent_table(*w, t) =~= parent_table(*old(w), t).remove_keys(under.subrange(0, i + 1).to_set()));
            }
            assert forall|t: u64| t != H implies #[trigger] child_table(*w, t) == child_table(*old(w), t).remove_keys(
                under.subrange(0, i + 1).to_set(),
            ) by {
                assert(child_table(*w, t) =~= child_table(*old(w), t).remove_keys(under.subrange(0, i + 1).to_set()));
            }
        }
        i = i + 1;
    }
    despawn(w, parent);
    proof {
        assert(under.subrange(0, under.len() as int) =~= under);
        let gone = under.to_set().insert(parent.bits);
        assert(parent_table(*w, H) =~= ps1.remove_keys(gone));
        assert(child_table(*w, H) =~= cs1.remove_keys(gone));
        assert forall|t: u64| t != H implies #[trigger] parent_table(*w, t) == parent_table(*old(w), t).remove_keys(gone) by {
            assert(parent_table(*w, t) =~= parent_table(*old(w), t).remove_keys(gone));
        }
        assert forall|t: u64| t != H implies #[trigger] child_table(*w, t) == child_table(*old(w), t).remove_keys(gone) by {
            assert(child_table(*w, t) =~= child_table(*old(w), t).remove_keys(gone));
        }
        if wf(ps, cs) && live0.contains(parent.bits) && under.len() < usize::MAX && exists|rank: Map<u64, nat>|
            #[trigger] ranked(cs, rank) && rank.contains_key(parent.bits) && rank[parent.bits] < usize::MAX {
            let rank = choose|rank: Map<u64, nat>|
                #[trigger] ranked(cs, rank) && rank.contains_key(parent.bits) && rank[parent.bits] < usize::MAX;
            law_depth_first_exactly_once(ps, cs, rank, parent.bits);
            if cs.contains_key(parent.bits) {
                lemma_detach(ps, cs, parent.bits);
                assert(detached.is_ok());
                assert forall|y: u64| #[trigger] cs1.contains_key(y) implies cs.contains_key(y) && cs1[y].0
                    == cs[y].0 by {}
                assert forall|y: u64| #[trigger] cs.contains_key(y) && y != parent.bits implies cs1.contains_key(y) by {}
                assert forall|x: u64| below(cs, x, parent.bits) <==> below(cs1, x, parent.bits) by {
                    lemma_below_after_unlink(cs, cs1, rank, parent.bits, x);
                }
            } else {
                assert(detached.is_err());
                assert(cs1 == cs);
                assert(ps1 == ps);
            }
            let sub = subtree_set(cs1, parent.bits);
            assert(gone =~= sub);
            assert(gone =~= subtree_set(cs, parent.bits));
            lemma_drop_subtree(ps1, cs1, parent.bits);
            if cs.contains_key(parent.bits) {
                let up1 = cs[parent.bits].0;
                lemma_not_below_self(cs, rank, parent.bits);
                if gone.contains(up1) {
                    lemma_below_child(cs, parent.bits, parent.bits);
                }
            }
        }
    }
}

/// Despawn everything the depth-first walk below `parent` in the hierarchy tagged `H`
/// reaches, after detaching the children of `parent`; `parent` itself stays, without a
/// `Parent` component.
pub fn despawn_children<const H: u64>(w: &mut hecs::World, parent: Entity)
    ensures
        ({
            let ps = parent_table(*old(w), H);
            let cs = child_table(*old(w), H);
            let under = dfs_seq(ps, cs, root_frames(ps, cs, parent.bits), usize::MAX as nat);
            &&& live_set(*final(w)) == live_set(*old(w)).difference(under.to_set())
            &&& well_formed(*old(w), H) ==> !parent_table(*final(w), H).contains_key(parent.bits)
            &&& well_formed(*old(w), H) && (exists|rank: Map<u64, nat>| #[trigger] ranked(cs, rank)) ==> (
            live_set(*final(w)).contains(parent.bits) == live_set(*old(w)).contains(parent.bits))
            &&& well_formed(*old(w), H) && under.len() < usize::MAX && (exists|rank: Map<u64, nat>|
                #[trigger] ranked(cs, rank) && rank.contains_key(parent.bits) && rank[parent.bits] < usize::MAX)
                ==> forall|c: u64| #[trigger] children_of(*old(w), H, parent.bits).contains(c) ==> !live_set(
                *final(w),
            ).contains(c)
        }),
{
    let ghost ps = parent_table(*w, H);
    let ghost cs = child_table(*w, H);
    let ghost under = dfs_seq(ps, cs, root_frames(ps, cs, parent.bits), usize::MAX as nat);
    let list = descendants_depth_first::<H>(w, parent).collect(w);
    let _ = detach_children::<H>(w, parent);
    let ghost live0 = live_set(*w);
    let ghost ps1 = parent_table(*w, H);
    let mut i: usize = 0;
    while i < list.len()
        invariant
            bits_of(list@) == under,
            0 <= i <= list.len(),
            live_set(*w) == live0.difference(under.subrange(0, i as int).to_set()),
            parent_table(*w, H) == ps1.remove_keys(under.subrange(0, i as int).to_set()),
        decreases list.len() - i,
    {
        let e = list[i];
        assert(under[i as int] == e.bits);
        despawn(w, e);
        proof {
            assert(under.subrange(0, i + 1) =~= under.subrange(0, i as int).push(e.bits));
            under.subrange(0, i as int).lemma_push_to_set_commute(e.bits);
            assert(live_set(*w) =~= live0.difference(under.subrange(0, i + 1).to_set()));
            assert(parent_table(*w, H) =~= ps1.remove_keys(under.subrange(0, i + 1).to_set()));
        }
        i = i + 1;
    }
    proof {
        assert(under.subrange(0, under.len() as int) =~= under);
        if wf(ps, cs) {
            if exists|rank: Map<u64, nat>| #[trigger] ranked(cs, rank) {
                let rank = choose|rank: Map<u64, nat>| #[trigger] ranked(cs, rank);
                law_depth_first_stays_below(ps, cs, parent.bits, usize::MAX as nat);
                lemma_not_below_self(cs, rank, parent.bits);
                assert(!under.to_set().contains(parent.bits));
            }
            if under.len() < usize::MAX && exists|rank: Map<u64, nat>|
                #[trigger] ranked(cs, rank) && rank.contains_key(parent.bits) && rank[parent.bits] < usize::MAX {
                let rank = choose|rank: Map<u64, nat>|
                    #[trigger] ranked(cs, rank) && rank.contains_key(parent.bits) && rank[parent.bits] < usize::MAX;
                law_depth_first_exactly_once(ps, cs, rank, parent.bits);
                let k = kids(ps, cs, parent.bits);
                assert forall|c: u64| #[trigger] k.contains(c) implies !live_set(*w).contains(c) by {
                    let j = choose|j: int| 0 <= j < k.len() && k[j] == c;
                    lemma_kids_of_parent(ps, cs, parent.bits);
                    assert(linked(cs, parent.bits, k, j));
                    lemma_below_child(cs, c, parent.bits);
                    assert(under.contains(c));
                }
            }
        }
    }
}

/// Walks the descendants of `root` in the hierarchy tagged `H` breadth first.
pub fn descendants_breadth_first<const H: u64>(w: &hecs::World, root: Entity) -> (r: BreadthFirstIterator<H>)
    ensures
        r.pending() == children_of(*w, H, root.bits),
{
    BreadthFirstIterator::new(w, root)
}

/// The roots of the hierarchy tagged `H`: the entities that have children but no parent,
/// each once, in the world's own order.
pub fn roots<const H: u64>(w: &hecs::World) -> (r: Vec<Entity>)
    ensures
        bits_of(r@).no_duplicates(),
        forall|e: u64| #[trigger] bits_of(r@).contains(e) <==> parent_table(*w, H).contains_key(e)
            && !child_table(*w, H).contains_key(e),
{
    query_roots::<H>(w)
}

/// Walks the descendants of `root` in the hierarchy tagged `H` depth first, skipping
/// every entity that `accept` rejects together with its subtree.
pub fn visit<const H: u64, F: Fn(&hecs::World, Entity) -> bool>(w: &hecs::World, root: Entity, accept: F) -> (r: DepthFirstVisitor<H, F>)
    requires
        decides(accept, *w),
    ensures
        r.accept == accept,
        r.frames() == if accepts(accept, *w, root.bits) {
            root_frames(parent_table(*w, H), child_table(*w, H), root.bits)
        } else {
            Seq::empty()
        },
{
    DepthFirstVisitor::new(w, root, accept)
}

impl<const H: u64> Parent<H> {
    /// The first child: the sibling after the last child.
    pub fn first_child(&self, w: &hecs::World) -> (r: Result<Entity, HierarchyError>)
        ensures
            r == if !live_set(*w).contains(self.last_child.bits) {
                Err(HierarchyError::NoSuchEntity(self.last_child))
            } else if !child_table(*w, H).contains_key(self.last_child.bits) {
                Err(HierarchyError::MissingComponent(self.last_child))
            } else {
                Ok(Entity { bits: child_table(*w, H)[self.last_child.bits].1 })
            },
    {
        if !is_live(w, self.last_child) {
            return Err(HierarchyError::NoSuchEntity(self.last_child));
        }
        match get_child::<H>(w, self.last_child) {
            Some(c) => Ok(c.next),
            None => Err(HierarchyError::MissingComponent(self.last_child)),
        }
    }
}

} // verus!
