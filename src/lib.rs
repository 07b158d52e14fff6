//! Hierarchies of entities in a `hecs::World`.
//!
//! An entity with children carries a `Parent` component and each child a `Child`
//! component; the children of one parent form a circular doubly linked list through
//! their `Child` components, so no entity owns any storage for its children.
//! Several hierarchies, told apart by a constant tag, can coexist in one world.
//!
//! Children are attached at the end of their parent's list, so they are walked in the
//! order they were attached. A parent loses its `Parent` component with its last child,
//! and a detached child loses its `Child` component.
mod components;
mod entity;
mod hierarchy;
mod iter;
mod laws;
mod model;
mod preorder;
mod ring;
mod stack;
mod table;

pub use components::{Child, ChildRec, Parent, ParentRec};
pub use entity::{Entity, HierarchyError};
pub use hierarchy::{
    ancestors, attach, attach_new, attach_outcome, children, children_of, climbs,
    descendants_breadth_first, descendants_depth_first, despawn_all, despawn_children, detach,
    detach_all,
    detach_children, detach_outcome, lemma_up_step, others_unchanged, parent, root, roots,
    unchanged, up, visit, well_formed,
};
pub use iter::{
    accepts, bits_of, decides, dfs_next, dfs_seq, frames_left, proof_frames_left_push,
    root_frames, visit_next, AncestorIter, BreadthFirstIterator, ChildrenIter,
    DepthFirstIterator, DepthFirstVisitor,
};
pub use laws::{
    below, frames_below, lemma_below_child, law_children_count, law_children_stable, law_depth_first_stays_below,
    law_reattach_keeps_children,
};
pub use model::{
    attach_links, attach_parents, kids, lemma_attach, lemma_child_in_kids, lemma_detach,
    lemma_drop_children, lemma_kids_of_parent, lemma_ring_frame, lemma_walk_ring, linked,
    next_index, prev_index, ring, splice_links, unlink_links, unlink_parent, walk, wf,
};
pub use preorder::{
    at_or_below, forest, law_depth_first_exactly_once, law_depth_first_is_preorder,
    lemma_not_below_self, lemma_below_after_unlink,
    lemma_drop_subtree, lemma_subtree_distinct, lemma_subtree_holds, pending, ranked, sibling_ok,
    stack_ok, subtree, subtree_set,
};
pub use ring::count;
pub use stack::{frames_of, Frame, FrameStack, STACK_SIZE};
pub use table::{child_table, is_root_in, live_set, parent_table};
