//! Walks over a hierarchy. Each walker holds only its own position and reads the world
//! it is handed on every step; a step whose lookup fails ends the walk.
use vstd::prelude::*;

use crate::entity::Entity;
use crate::hierarchy::children;
use crate::components::{ChildRec, ParentRec};
use crate::model::{kids, walk};
use crate::stack::{frames_of, stack_len, stack_new, stack_pop, stack_push, Frame, FrameStack};
use crate::table::{child_table, get_child, get_parent, parent_table};

verus! {

/// The packed handles of a sequence of entities.
pub open spec fn bits_of(s: Seq<Entity>) -> Seq<u64> {
    s.map_values(|e: Entity| e.bits)
}

/// Walks the children of one parent: `remaining` steps along the sibling links from
/// `current`. The number of steps is known in advance.
pub struct ChildrenIter<const H: u64> {
    pub remaining: usize,
    pub current: Option<Entity>,
}

impl<const H: u64> ChildrenIter<H> {
    /// What the walk still yields in world `w`.
    pub open spec fn rest(self, w: hecs::World) -> Seq<u64> {
        match self.current {
            Some(c) => walk(child_table(w, H), c.bits, self.remaining as nat),
            None => Seq::empty(),
        }
    }

    pub fn new(num_children: usize, current: Option<Entity>) -> (r: Self)
        ensures
            r.remaining == num_children,
            r.current == current,
    {
        ChildrenIter { remaining: num_children, current }
    }

    /// The next child, or `None` once the walk is over or a sibling link leads to an
    /// entity without a `Child` component.
    pub fn next(&mut self, w: &hecs::World) -> (r: Option<Entity>)
        ensures
            old(self).rest(*w).len() == 0 ==> r.is_none() && final(self).rest(*w).len() == 0,
            old(self).rest(*w).len() > 0 ==> r == Some(Entity { bits: old(self).rest(*w)[0] })
                && final(self).rest(*w) == old(self).rest(*w).drop_first(),
            final(self).remaining <= old(self).remaining,
            r.is_some() ==> final(self).remaining < old(self).remaining,
    {
        if self.remaining == 0 {
            return None;
        }
        self.remaining = self.remaining - 1;
        let current = match self.current {
            Some(c) => c,
            None => return None,
        };
        match get_child::<H>(w, current) {
            Some(data) => {
                self.current = Some(data.next);
                proof {
                    assert(old(self).rest(*w).drop_first() =~= self.rest(*w));
                }
                Some(current)
            },
            None => None,
        }
    }

    /// The bounds on what is left: exactly `remaining`, in a well-formed hierarchy.
    pub fn size_hint(&self) -> (r: (usize, Option<usize>))
        ensures
            r == (self.remaining, Some(self.remaining)),
    {
        (self.remaining, Some(self.remaining))
    }

    /// The number of children left, known without walking.
    pub fn count(self) -> (r: usize)
        ensures
            r == self.remaining,
    {
        self.remaining
    }

    /// Everything the walk still yields, in order.
    pub fn collect(self, w: &hecs::World) -> (r: Vec<Entity>)
        ensures
            bits_of(r@) == self.rest(*w),
    {
        let ghost start = self.rest(*w);
        let mut it = self;
        let mut out: Vec<Entity> = Vec::new();
        proof {
            assert(bits_of(out@) + it.rest(*w) =~= start);
        }
        loop
            invariant
                bits_of(out@) + it.rest(*w) == start,
            ensures
                bits_of(out@) == start,
            decreases it.remaining,
        {
            let ghost before = it.rest(*w);
            match it.next(w) {
                Some(e) => {
                    let ghost prev = out@;
                    out.push(e);
                    proof {
                        assert(bits_of(out@) =~= bits_of(prev).push(e.bits));
                        assert(bits_of(out@) + it.rest(*w) =~= bits_of(prev) + before);
                    }
                },
                None => {
                    proof {
                        assert(bits_of(out@) =~= start);
                    }
                    break;
                },
            }
        }
        out
    }
}

/// Walks up from an entity through its parent, grandparent and so on, up to the root.
pub struct AncestorIter<const H: u64> {
    pub current: Entity,
}

impl<const H: u64> AncestorIter<H> {
    pub fn new(current: Entity) -> (r: Self)
        ensures
            r.current == current,
    {
        AncestorIter { current }
    }

    /// The parent of the current entity, which becomes the current entity; `None` at a
    /// root, which has no `Child` component.
    pub fn next(&mut self, w: &hecs::World) -> (r: Option<Entity>)
        ensures
            ({
                let cs = child_table(*w, H);
                let cur = old(self).current.bits;
                &&& cs.contains_key(cur) ==> r == Some(Entity { bits: cs[cur].0 }) && final(self).current
                    == Entity { bits: cs[cur].0 }
                &&& !cs.contains_key(cur) ==> r.is_none() && final(self).current == old(self).current
            }),
    {
        match get_child::<H>(w, self.current) {
            Some(c) => {
                self.current = c.parent;
                Some(c.parent)
            },
            None => None,
        }
    }
}

/// The first frame of a depth-first walk below `r`: its first child, and the number of
/// its children. No frame when `r` has no children.
pub open spec fn root_frames(ps: Map<u64, ParentRec>, cs: Map<u64, ChildRec>, r: u64) -> Seq<Frame> {
    if ps.contains_key(r) && cs.contains_key(ps[r].1) {
        seq![(cs[ps[r].1].1, ps[r].0)]
    } else {
        Seq::empty()
    }
}

/// One step of a depth-first walk in pre-order: drop the exhausted frames on top, visit
/// the next sibling of the top frame, advance that frame, and push a frame for the
/// visited entity's own children. A sibling without a `Child` component ends the walk,
/// and so does a visited parent whose last child has none: that parent is the last
/// entity yielded.
pub open spec fn dfs_next(ps: Map<u64, ParentRec>, cs: Map<u64, ChildRec>, st: Seq<Frame>) -> (
    Option<u64>,
    Seq<Frame>,
)
    decreases st.len(),
{
    if st.len() == 0 {
        (None, st)
    } else {
        let top = st.last();
        let base = st.drop_last();
        if top.1 == 0 {
            dfs_next(ps, cs, base)
        } else if !cs.contains_key(top.0) {
            (None, Seq::empty())
        } else {
            let st1 = base.push((cs[top.0].1, (top.1 - 1) as usize));
            if ps.contains_key(top.0) && !cs.contains_key(ps[top.0].1) {
                (Some(top.0), Seq::empty())
            } else if ps.contains_key(top.0) && st1.len() < usize::MAX {
                (Some(top.0), st1.push((cs[ps[top.0].1].1, ps[top.0].0)))
            } else {
                (Some(top.0), st1)
            }
        }
    }
}

/// The first `fuel` entities a depth-first walk from the stack `st` yields.
pub open spec fn dfs_seq(ps: Map<u64, ParentRec>, cs: Map<u64, ChildRec>, st: Seq<Frame>, fuel: nat) -> Seq<
    u64,
>
    decreases fuel,
{
    if fuel == 0 {
        Seq::empty()
    } else {
        match dfs_next(ps, cs, st).0 {
            None => Seq::empty(),
            Some(e) => seq![e] + dfs_seq(ps, cs, dfs_next(ps, cs, st).1, (fuel - 1) as nat),
        }
    }
}

/// Walks the descendants of an entity depth first, in pre-order, the entity itself not
/// included. The stack holds one frame per level being walked.
pub struct DepthFirstIterator<const H: u64> {
    pub stack: FrameStack,
}

impl<const H: u64> DepthFirstIterator<H> {
    pub open spec fn frames(self) -> Seq<Frame> {
        frames_of(self.stack)
    }

    /// A walk below `root`.
    pub fn new(w: &hecs::World, root: Entity) -> (r: Self)
        ensures
            r.frames() == root_frames(parent_table(*w, H), child_table(*w, H), root.bits),
    {
        let mut stack = stack_new();
        if let Some(p) = get_parent::<H>(w, root) {
            if let Some(last) = get_child::<H>(w, p.last_child) {
                stack_push(&mut stack, (last.next.bits, p.num_children));
            }
        }
        proof {
            assert(frames_of(stack) =~= root_frames(parent_table(*w, H), child_table(*w, H), root.bits));
        }
        DepthFirstIterator { stack }
    }

    /// The next entity in pre-order.
    pub fn next(&mut self, w: &hecs::World) -> (r: Option<Entity>)
        ensures
            ({
                let (e, st) = dfs_next(parent_table(*w, H), child_table(*w, H), old(self).frames());
                &&& r.is_some() == e.is_some()
                &&& r.is_some() ==> r.unwrap().bits == e.unwrap()
                &&& final(self).frames() == st
            }),
    {
        let ghost ps = parent_table(*w, H);
        let ghost cs = child_table(*w, H);
        loop
            invariant
                ps == parent_table(*w, H),
                cs == child_table(*w, H),
                dfs_next(ps, cs, self.frames()) == dfs_next(ps, cs, old(self).frames()),
            decreases self.frames().len(),
        {
            let ghost st = self.frames();
            let top = match stack_pop(&mut self.stack) {
                Some(f) => f,
                None => return None,
            };
            if top.1 == 0 {
                continue;
            }
            let current = Entity::from_bits(top.0);
            let data = match get_child::<H>(w, current) {
                Some(d) => d,
                None => {
                    self.stack = stack_new();
                    return None;
                },
            };
            stack_push(&mut self.stack, (data.next.bits, top.1 - 1));
            if let Some(p) = get_parent::<H>(w, current) {
                match get_child::<H>(w, p.last_child) {
                    Some(last) => {
                        if stack_len(&self.stack) < usize::MAX {
                            stack_push(&mut self.stack, (last.next.bits, p.num_children));
                        }
                    },
                    None => {
                        self.stack = stack_new();
                    },
                }
            }
            return Some(current);
        }
    }

    /// Everything the walk still yields, in order (up to `usize::MAX` entities, more than
    /// any world holds).
    pub fn collect(self, w: &hecs::World) -> (r: Vec<Entity>)
        ensures
            bits_of(r@) == dfs_seq(parent_table(*w, H), child_table(*w, H), self.frames(), usize::MAX as nat),
    {
        let ghost ps = parent_table(*w, H);
        let ghost cs = child_table(*w, H);
        let ghost start = dfs_seq(ps, cs, self.frames(), usize::MAX as nat);
        let mut it = self;
        let mut out: Vec<Entity> = Vec::new();
        proof {
            assert(bits_of(out@) + dfs_seq(ps, cs, it.frames(), usize::MAX as nat) =~= start);
        }
        loop
            invariant_except_break
                bits_of(out@) + dfs_seq(ps, cs, it.frames(), (usize::MAX - out.len()) as nat) == start,
            invariant
                ps == parent_table(*w, H),
                cs == child_table(*w, H),
                out.len() <= usize::MAX,
            ensures
                bits_of(out@) == start,
            decreases usize::MAX - out.len(),
        {
            if out.len() == usize::MAX {
                proof {
                    assert(bits_of(out@) =~= start);
                }
                break;
            }
            let ghost before = it.frames();
            let ghost fuel = (usize::MAX - out.len()) as nat;
            match it.next(w) {
                Some(e) => {
                    let ghost prev = out@;
                    out.push(e);
                    proof {
                        assert(bits_of(out@) =~= bits_of(prev).push(e.bits));
                        assert(dfs_seq(ps, cs, before, fuel) == seq![e.bits] + dfs_seq(
                            ps,
                            cs,
                            it.frames(),
                            (fuel - 1) as nat,
                        ));
                        assert(bits_of(out@) + dfs_seq(ps, cs, it.frames(), (fuel - 1) as nat)
                            =~= bits_of(prev) + dfs_seq(ps, cs, before, fuel));
                    }
                },
                None => {
                    proof {
                        assert(bits_of(out@) =~= start);
                    }
                    break;
                },
            }
        }
        out
    }
}

/// Walks the descendants of an entity breadth first, level by level, the entity itself
/// not included. The queue holds the entities still to visit.
pub struct BreadthFirstIterator<const H: u64> {
    pub queue: std::collections::VecDeque<Entity>,
}

/// Appends `items` to the back of `queue`, in order.
fn enqueue_all(queue: &mut std::collections::VecDeque<Entity>, items: &Vec<Entity>)
    ensures
        final(queue)@ == old(queue)@ + items@,
{
    let mut i: usize = 0;
    while i < items.len()
        invariant
            0 <= i <= items.len(),
            queue@ == old(queue)@ + items@.subrange(0, i as int),
        decreases items.len() - i,
    {
        queue.push_back(items[i]);
        i = i + 1;
        proof {
            assert(queue@ =~= old(queue)@ + items@.subrange(0, i as int));
        }
    }
    proof {
        assert(items@.subrange(0, items.len() as int) =~= items@);
    }
}

impl<const H: u64> BreadthFirstIterator<H> {
    /// What the walk visits next, front first.
    pub open spec fn pending(self) -> Seq<u64> {
        bits_of(self.queue@)
    }

    /// A walk below `root`, starting from its children.
    pub fn new(w: &hecs::World, root: Entity) -> (r: Self)
        ensures
            r.pending() == kids(parent_table(*w, H), child_table(*w, H), root.bits),
    {
        let first = children::<H>(w, root).collect(w);
        let mut queue = std::collections::VecDeque::new();
        enqueue_all(&mut queue, &first);
        proof {
            assert(queue@ =~= first@);
        }
        BreadthFirstIterator { queue }
    }

    /// The entity at the front of the queue; its children join the back.
    pub fn next(&mut self, w: &hecs::World) -> (r: Option<Entity>)
        ensures
            old(self).pending().len() == 0 ==> r.is_none() && final(self).pending() == old(self).pending(),
            old(self).pending().len() > 0 ==> r == Some(Entity { bits: old(self).pending()[0] })
                && final(self).pending() == old(self).pending().drop_first() + kids(
                parent_table(*w, H),
                child_table(*w, H),
                old(self).pending()[0],
            ),
    {
        let front = match self.queue.pop_front() {
            Some(e) => e,
            None => return None,
        };
        let more = children::<H>(w, front).collect(w);
        let ghost mid = self.queue@;
        enqueue_all(&mut self.queue, &more);
        proof {
            assert(bits_of(self.queue@) =~= bits_of(mid) + bits_of(more@));
            assert(bits_of(mid) =~= old(self).pending().drop_first());
        }
        Some(front)
    }
}

/// The number of siblings left over all frames of a stack.
pub open spec fn frames_left(st: Seq<Frame>) -> nat
    decreases st.len(),
{
    if st.len() == 0 {
        0
    } else {
        frames_left(st.drop_last()) + st.last().1 as nat
    }
}

/// One step of a depth-first walk that asks `acc` of each entity it meets: a rejected
/// entity is neither yielded nor descended into, and the walk goes on past it. Failed
/// lookups end the walk as in `dfs_next`.
pub open spec fn visit_next(
    ps: Map<u64, ParentRec>,
    cs: Map<u64, ChildRec>,
    st: Seq<Frame>,
    acc: spec_fn(u64) -> bool,
) -> (Option<u64>, Seq<Frame>)
    decreases frames_left(st), st.len() via visit_next_decreases
{
    if st.len() == 0 {
        (None, st)
    } else {
        let top = st.last();
        let base = st.drop_last();
        if top.1 == 0 {
            visit_next(ps, cs, base, acc)
        } else if !cs.contains_key(top.0) {
            (None, Seq::empty())
        } else {
            let st1 = base.push((cs[top.0].1, (top.1 - 1) as usize));
            if !acc(top.0) {
                visit_next(ps, cs, st1, acc)
            } else if ps.contains_key(top.0) && !cs.contains_key(ps[top.0].1) {
                (Some(top.0), Seq::empty())
            } else if ps.contains_key(top.0) && st1.len() < usize::MAX {
                (Some(top.0), st1.push((cs[ps[top.0].1].1, ps[top.0].0)))
            } else {
                (Some(top.0), st1)
            }
        }
    }
}

#[via_fn]
proof fn visit_next_decreases(
    ps: Map<u64, ParentRec>,
    cs: Map<u64, ChildRec>,
    st: Seq<Frame>,
    acc: spec_fn(u64) -> bool,
) {
    if st.len() > 0 {
        let top = st.last();
        let base = st.drop_last();
        if top.1 != 0 && cs.contains_key(top.0) {
            proof_frames_left_push(base, (cs[top.0].1, (top.1 - 1) as usize));
        }
    }
}

/// Pushing a frame adds its count to what is left.
pub proof fn proof_frames_left_push(st: Seq<Frame>, f: Frame)
    ensures
        frames_left(st.push(f)) == frames_left(st) + f.1,
{
    assert(st.push(f).drop_last() =~= st);
}

/// Walks the descendants of an entity depth first like `DepthFirstIterator`, asking a
/// predicate of each entity met: a rejected entity is skipped with all of its subtree.
pub struct DepthFirstVisitor<const H: u64, F> {
    pub stack: FrameStack,
    pub accept: F,
}

/// What the predicate answers for `e` in world `w`, for a predicate whose answer is
/// determined by its arguments.
pub open spec fn accepts<F: Fn(&hecs::World, Entity) -> bool>(accept: F, w: hecs::World, e: u64) -> bool {
    call_ensures(accept, (&w, Entity { bits: e }), true)
}

/// The predicate may be called on any entity of `w`, and gives one answer for each.
pub open spec fn decides<F: Fn(&hecs::World, Entity) -> bool>(accept: F, w: hecs::World) -> bool {
    &&& forall|e: Entity| call_requires(accept, (&w, e))
    &&& forall|e: Entity, b: bool| #[trigger] call_ensures(accept, (&w, e), b) ==> b == call_ensures(accept, (&w, e), true)
}

impl<const H: u64, F: Fn(&hecs::World, Entity) -> bool> DepthFirstVisitor<H, F> {
    pub open spec fn frames(self) -> Seq<Frame> {
        frames_of(self.stack)
    }

    /// A walk below `root`, which is descended into only if it has children and the
    /// predicate accepts it.
    pub fn new(w: &hecs::World, root: Entity, accept: F) -> (r: Self)
        requires
            decides(accept, *w),
        ensures
            r.accept == accept,
            r.frames() == if accepts(accept, *w, root.bits) {
                root_frames(parent_table(*w, H), child_table(*w, H), root.bits)
            } else {
                Seq::empty()
            },
    {
        let mut stack = stack_new();
        if let Some(p) = get_parent::<H>(w, root) {
            if accept(w, root) {
                if let Some(last) = get_child::<H>(w, p.last_child) {
                    stack_push(&mut stack, (last.next.bits, p.num_children));
                }
            }
        }
        proof {
            if accepts(accept, *w, root.bits) {
                assert(frames_of(stack) =~= root_frames(parent_table(*w, H), child_table(*w, H), root.bits));
            } else {
                assert(frames_of(stack) =~= Seq::<Frame>::empty());
            }
        }
        DepthFirstVisitor { stack, accept }
    }

    /// The next accepted entity in pre-order.
    pub fn next(&mut self, w: &hecs::World) -> (r: Option<Entity>)
        requires
            decides(old(self).accept, *w),
        ensures
            final(self).accept == old(self).accept,
            ({
                let (e, st) = visit_next(
                    parent_table(*w, H),
                    child_table(*w, H),
                    old(self).frames(),
                    |b: u64| accepts(old(self).accept, *w, b),
                );
                &&& r.is_some() == e.is_some()
                &&& r.is_some() ==> r.unwrap().bits == e.unwrap()
                &&& final(self).frames() == st
            }),
    {
        let ghost ps = parent_table(*w, H);
        let ghost cs = child_table(*w, H);
        let ghost acc = |b: u64| accepts(old(self).accept, *w, b);
        loop
            invariant
                ps == parent_table(*w, H),
                cs == child_table(*w, H),
                self.accept == old(self).accept,
                acc == (|b: u64| accepts(old(self).accept, *w, b)),
                decides(self.accept, *w),
                visit_next(ps, cs, self.frames(), acc) == visit_next(ps, cs, old(self).frames(), acc),
            decreases frames_left(self.frames()), self.frames().len(),
        {
            let ghost st = self.frames();
            let top = match stack_pop(&mut self.stack) {
                Some(f) => f,
                None => return None,
            };
            if top.1 == 0 {
                continue;
            }
            let current = Entity::from_bits(top.0);
            let data = match get_child::<H>(w, current) {
                Some(d) => d,
                None => {
                    self.stack = stack_new();
                    return None;
                },
            };
            stack_push(&mut self.stack, (data.next.bits, top.1 - 1));
            proof {
                proof_frames_left_push(st.drop_last(), (data.next.bits, (top.1 - 1) as usize));
            }
            if !(self.accept)(w, current) {
                continue;
            }
            if let Some(p) = get_parent::<H>(w, current) {
                match get_child::<H>(w, p.last_child) {
                    Some(last) => {
                        if stack_len(&self.stack) < usize::MAX {
                            stack_push(&mut self.stack, (last.next.bits, p.num_children));
                        }
                    },
                    None => {
                        self.stack = stack_new();
                    },
                }
            }
            return Some(current);
        }
    }
}

} // verus!
