//! The entity table the hierarchy lives in, `hecs::World`, and the calls into it.
//!
//! Verus sees the world through three names: the set of live entities, and for each
//! tag the column of `Parent` components and the column of `Child` components, keyed
//! by the packed entity handle.
use vstd::prelude::*;

use crate::components::{Child, ChildRec, Parent, ParentRec};
use crate::entity::Entity;
use crate::iter::bits_of;

verus! {

#[verifier::external_type_specification]
#[verifier::external_body]
pub struct ExWorld(hecs::World);

#[verifier::external_type_specification]
#[verifier::external_body]
pub struct ExEntityBuilder(hecs::EntityBuilder);

/// The packed handles of the entities that are live in the world.
pub uninterp spec fn live_set(w: hecs::World) -> Set<u64>;

/// The `Parent<tag>` components of the world, by entity.
pub uninterp spec fn parent_table(w: hecs::World, tag: u64) -> Map<u64, ParentRec>;

/// The `Child<tag>` components of the world, by entity.
pub uninterp spec fn child_table(w: hecs::World, tag: u64) -> Map<u64, ChildRec>;

/// Relies on hecs::World::contains: whether the entity is live.
#[verifier::external_body]
pub(crate) fn is_live(w: &hecs::World, e: Entity) -> (r: bool)
    ensures
        r == live_set(*w).contains(e.bits),
{
    match hecs::Entity::from_bits(e.bits) {
        Some(h) => w.contains(h),
        None => false,
    }
}

/// Relies on hecs::World::get: a copy of the entity's `Parent<H>`, if it has one.
#[verifier::external_body]
pub(crate) fn get_parent<const H: u64>(w: &hecs::World, e: Entity) -> (r: Option<Parent<H>>)
    ensures
        r.is_some() == parent_table(*w, H).contains_key(e.bits),
        r.is_some() ==> r.unwrap().rec() == parent_table(*w, H)[e.bits],
        r.is_some() ==> live_set(*w).contains(e.bits),
{
    let h = hecs::Entity::from_bits(e.bits)?;
    match w.get::<&Parent<H>>(h) {
        Ok(p) => Some(*p),
        Err(_) => None,
    }
}

/// Relies on hecs::World::get: a copy of the entity's `Child<H>`, if it has one.
#[verifier::external_body]
pub(crate) fn get_child<const H: u64>(w: &hecs::World, e: Entity) -> (r: Option<Child<H>>)
    ensures
        r.is_some() == child_table(*w, H).contains_key(e.bits),
        r.is_some() ==> r.unwrap().rec() == child_table(*w, H)[e.bits],
        r.is_some() ==> live_set(*w).contains(e.bits),
{
    let h = hecs::Entity::from_bits(e.bits)?;
    match w.get::<&Child<H>>(h) {
        Ok(c) => Some(*c),
        Err(_) => None,
    }
}

/// Relies on hecs::World::insert_one: on a live entity it adds the component, or
/// replaces the one of the same type, and touches nothing else; on any other handle
/// it fails and changes nothing.
#[verifier::external_body]
pub(crate) fn insert_parent<const H: u64>(w: &mut hecs::World, e: Entity, p: Parent<H>) -> (r: bool)
    ensures
        r == live_set(*old(w)).contains(e.bits),
        live_set(*final(w)) == live_set(*old(w)),
        r ==> parent_table(*final(w), H) == parent_table(*old(w), H).insert(e.bits, p.rec()),
        !r ==> parent_table(*final(w), H) == parent_table(*old(w), H),
        forall|t: u64| t != H ==> #[trigger] parent_table(*final(w), t) == parent_table(*old(w), t),
        forall|t: u64| #[trigger] child_table(*final(w), t) == child_table(*old(w), t),
{
    match hecs::Entity::from_bits(e.bits) {
        Some(h) => w.insert_one(h, p).is_ok(),
        None => false,
    }
}

/// Relies on hecs::World::insert_one, as `insert_parent` does.
#[verifier::external_body]
pub(crate) fn insert_child<const H: u64>(w: &mut hecs::World, e: Entity, c: Child<H>) -> (r: bool)
    ensures
        r == live_set(*old(w)).contains(e.bits),
        live_set(*final(w)) == live_set(*old(w)),
        r ==> child_table(*final(w), H) == child_table(*old(w), H).insert(e.bits, c.rec()),
        !r ==> child_table(*final(w), H) == child_table(*old(w), H),
        forall|t: u64| t != H ==> #[trigger] child_table(*final(w), t) == child_table(*old(w), t),
        forall|t: u64| #[trigger] parent_table(*final(w), t) == parent_table(*old(w), t),
{
    match hecs::Entity::from_bits(e.bits) {
        Some(h) => w.insert_one(h, c).is_ok(),
        None => false,
    }
}

/// Relies on hecs::World::remove_one: it takes the component off the entity if it has
/// one, and otherwise fails and changes nothing.
#[verifier::external_body]
pub(crate) fn remove_parent<const H: u64>(w: &mut hecs::World, e: Entity) -> (r: bool)
    ensures
        r == parent_table(*old(w), H).contains_key(e.bits),
        live_set(*final(w)) == live_set(*old(w)),
        parent_table(*final(w), H) == parent_table(*old(w), H).remove(e.bits),
        forall|t: u64| t != H ==> #[trigger] parent_table(*final(w), t) == parent_table(*old(w), t),
        forall|t: u64| #[trigger] child_table(*final(w), t) == child_table(*old(w), t),
{
    match hecs::Entity::from_bits(e.bits) {
        Some(h) => w.remove_one::<Parent<H>>(h).is_ok(),
        None => false,
    }
}

/// Relies on hecs::World::remove_one, as `remove_parent` does.
#[verifier::external_body]
pub(crate) fn remove_child<const H: u64>(w: &mut hecs::World, e: Entity) -> (r: bool)
    ensures
        r == child_table(*old(w), H).contains_key(e.bits),
        live_set(*final(w)) == live_set(*old(w)),
        child_table(*final(w), H) == child_table(*old(w), H).remove(e.bits),
        forall|t: u64| t != H ==> #[trigger] child_table(*final(w), t) == child_table(*old(w), t),
        forall|t: u64| #[trigger] parent_table(*final(w), t) == parent_table(*old(w), t),
{
    match hecs::Entity::from_bits(e.bits) {
        Some(h) => w.remove_one::<Child<H>>(h).is_ok(),
        None => false,
    }
}

/// Relies on hecs::World::despawn: a live entity is destroyed with all its
/// components; any other handle fails and changes nothing.
#[verifier::external_body]
pub(crate) fn despawn(w: &mut hecs::World, e: Entity) -> (r: bool)
    ensures
        r == live_set(*old(w)).contains(e.bits),
        live_set(*final(w)) == live_set(*old(w)).remove(e.bits),
        forall|t: u64| #[trigger] parent_table(*final(w), t) == parent_table(*old(w), t).remove(e.bits),
        forall|t: u64| #[trigger] child_table(*final(w), t) == child_table(*old(w), t).remove(e.bits),
{
    match hecs::Entity::from_bits(e.bits) {
        Some(h) => w.despawn(h).is_ok(),
        None => false,
    }
}

/// Relies on hecs::World::spawn, fed with hecs::EntityBuilder::build (which holds at most
/// one component of each type, so the spawn cannot fail on a repeated type): a new live
/// entity whose handle no live entity had; only its own components are added. The
/// builder is left empty for reuse.
#[verifier::external_body]
pub(crate) fn spawn(w: &mut hecs::World, components: &mut hecs::EntityBuilder) -> (r: Entity)
    ensures
        !live_set(*old(w)).contains(r.bits),
        live_set(*final(w)) == live_set(*old(w)).insert(r.bits),
        forall|t: u64| #[trigger] parent_table(*final(w), t).remove(r.bits) == parent_table(*old(w), t),
        forall|t: u64| #[trigger] child_table(*final(w), t).remove(r.bits) == child_table(*old(w), t),
{
    Entity { bits: w.spawn(components.build()).to_bits().get() }
}

/// `b` has a `Parent<tag>` and no `Child<tag>` component.
pub open spec fn is_root_in(w: hecs::World, tag: u64, b: u64) -> bool {
    parent_table(w, tag).contains_key(b) && !child_table(w, tag).contains_key(b)
}

/// Relies on hecs::World::query with a `Without` filter: every live entity that has a
/// `Parent<H>` and no `Child<H>`, each once, in the world's own order.
#[verifier::external_body]
pub(crate) fn query_roots<const H: u64>(w: &hecs::World) -> (r: Vec<Entity>)
    ensures
        bits_of(r@).no_duplicates(),
        forall|b: u64| #[trigger] bits_of(r@).contains(b) <==> is_root_in(*w, H, b),
{
    w.query::<(hecs::Entity, &Parent<H>)>()
        .without::<&Child<H>>()
        .iter()
        .map(|(e, _)| Entity::from_bits(e.to_bits().get()))
        .collect()
}

} // verus!
