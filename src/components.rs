use vstd::prelude::*;

use crate::entity::Entity;

verus! {

/// Component of an entity that has children in the hierarchy tagged `H`.
///
/// The children form a circular doubly linked list through their `Child` components;
/// the parent holds their number and the last of them, from which the first is one
/// step further along the list. Hierarchies with different tags are independent, so
/// an entity may take part in several at once.
#[derive(Clone, Copy)]
pub struct Parent<const H: u64> {
    pub num_children: usize,
    pub last_child: Entity,
}

/// Component of an entity that has a parent in the hierarchy tagged `H`: the parent,
/// and the next and previous siblings in the parent's circular list of children. A
/// sole child is its own next and previous sibling.
#[derive(Clone, Copy)]
pub struct Child<const H: u64> {
    pub parent: Entity,
    pub next: Entity,
    pub prev: Entity,
}

/// How a `Parent` is recorded in the model: the number of children and the last child.
pub type ParentRec = (usize, u64);

/// How a `Child` is recorded in the model: parent, next sibling, previous sibling.
pub type ChildRec = (u64, u64, u64);

impl<const H: u64> Parent<H> {
    pub open spec fn rec(self) -> ParentRec {
        (self.num_children, self.last_child.bits)
    }

    pub fn new(num_children: usize, last_child: Entity) -> (r: Self)
        ensures
            r.num_children == num_children,
            r.last_child == last_child,
    {
        Parent { num_children, last_child }
    }

    /// The number of children.
    pub fn num_children(&self) -> (r: usize)
        ensures
            r == self.num_children,
    {
        self.num_children
    }

    /// The last child, the one attached most recently.
    pub fn last_child(&self) -> (r: Entity)
        ensures
            r == self.last_child,
    {
        self.last_child
    }
}

impl<const H: u64> Child<H> {
    pub open spec fn rec(self) -> ChildRec {
        (self.parent.bits, self.next.bits, self.prev.bits)
    }

    pub fn new(parent: Entity, next: Entity, prev: Entity) -> (r: Self)
        ensures
            r.parent == parent,
            r.next == next,
            r.prev == prev,
    {
        Child { parent, next, prev }
    }
}

} // verus!
