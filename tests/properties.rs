use hecs::{EntityBuilder, World};
use hecs_hierarchy::{
    attach, attach_new, children, count, descendants_depth_first, despawn_all, despawn_children,
    detach,
    detach_all, detach_children, parent, root, roots, Entity, HierarchyError, Parent,
};

const TREE: u64 = 0;
const OTHER: u64 = 7;

fn named(name: &'static str) -> EntityBuilder {
    let mut b = EntityBuilder::new();
    b.add(name);
    b
}

fn spawn_named(world: &mut World, name: &'static str) -> Entity {
    Entity::from_bits(world.spawn((name,)).to_bits().get())
}

fn handle(e: Entity) -> hecs::Entity {
    hecs::Entity::from_bits(e.to_bits()).unwrap()
}

fn child_list<const H: u64>(world: &World, p: Entity) -> Vec<Entity> {
    children::<H>(world, p).collect(world)
}

fn dfs_list(world: &World, p: Entity) -> Vec<Entity> {
    descendants_depth_first::<TREE>(world, p).collect(world)
}

#[test]
fn depth_first_visits_each_descendant_once() {
    let mut world = World::default();
    let root = spawn_named(&mut world, "root");
    let a = attach_new::<TREE>(&mut world, root, &mut named("a")).unwrap();
    let b = attach_new::<TREE>(&mut world, root, &mut named("b")).unwrap();
    let a1 = attach_new::<TREE>(&mut world, a, &mut named("a1")).unwrap();
    let a2 = attach_new::<TREE>(&mut world, a, &mut named("a2")).unwrap();
    let b1 = attach_new::<TREE>(&mut world, b, &mut named("b1")).unwrap();
    let a11 = attach_new::<TREE>(&mut world, a1, &mut named("a11")).unwrap();
    let seen = dfs_list(&world, root);
    assert_eq!(seen, vec![a, a1, a11, a2, b, b1]);
    let mut sorted = seen.clone();
    sorted.sort();
    sorted.dedup();
    assert_eq!(sorted.len(), 6);
}

#[test]
fn children_count_matches_parent_component() {
    let mut world = World::default();
    let root = spawn_named(&mut world, "root");
    for _ in 0..5 {
        attach_new::<TREE>(&mut world, root, &mut named("c")).unwrap();
    }
    let n = world.get::<&Parent<TREE>>(handle(root)).unwrap().num_children();
    assert_eq!(n, 5);
    let it = children::<TREE>(&world, root);
    assert_eq!(it.size_hint(), (5, Some(5)));
    assert_eq!(child_list::<TREE>(&world, root).len(), 5);
}

#[test]
fn attach_sets_parent() {
    let mut world = World::default();
    let p = spawn_named(&mut world, "p");
    let c = spawn_named(&mut world, "c");
    assert_eq!(attach::<TREE>(&mut world, c, p), Ok(c));
    assert_eq!(parent::<TREE>(&world, c), Ok(p));
    assert_eq!(parent::<TREE>(&world, p), Err(HierarchyError::MissingComponent(p)));
}

#[test]
fn detach_removes_child_and_counts_down() {
    let mut world = World::default();
    let p = spawn_named(&mut world, "p");
    let c1 = attach_new::<TREE>(&mut world, p, &mut named("c1")).unwrap();
    let c2 = attach_new::<TREE>(&mut world, p, &mut named("c2")).unwrap();
    detach::<TREE>(&mut world, c2).unwrap();
    assert_eq!(child_list::<TREE>(&world, p), vec![c1]);
    assert_eq!(world.get::<&Parent<TREE>>(handle(p)).unwrap().num_children(), 1);
    assert_eq!(world.get::<&Parent<TREE>>(handle(p)).unwrap().last_child(), c1);
    detach::<TREE>(&mut world, c1).unwrap();
    assert!(world.get::<&Parent<TREE>>(handle(p)).is_err());
    assert_eq!(children::<TREE>(&world, p).count(), 0);
    assert_eq!(parent::<TREE>(&world, c1), Err(HierarchyError::MissingComponent(c1)));
}

#[test]
fn children_walk_is_repeatable() {
    let mut world = World::default();
    let p = spawn_named(&mut world, "p");
    for _ in 0..4 {
        attach_new::<TREE>(&mut world, p, &mut named("c")).unwrap();
    }
    assert_eq!(child_list::<TREE>(&world, p), child_list::<TREE>(&world, p));
}

#[test]
fn reattach_moves_subtree_whole() {
    let mut world = World::default();
    let r1 = spawn_named(&mut world, "r1");
    let r2 = spawn_named(&mut world, "r2");
    let c = attach_new::<TREE>(&mut world, r1, &mut named("c")).unwrap();
    let g1 = attach_new::<TREE>(&mut world, c, &mut named("g1")).unwrap();
    let g2 = attach_new::<TREE>(&mut world, c, &mut named("g2")).unwrap();
    detach::<TREE>(&mut world, c).unwrap();
    attach::<TREE>(&mut world, c, r2).unwrap();
    assert_eq!(child_list::<TREE>(&world, c), vec![g1, g2]);
    assert_eq!(child_list::<TREE>(&world, r2), vec![c]);
    assert_eq!(child_list::<TREE>(&world, r1), Vec::<Entity>::new());
    assert_eq!(root::<TREE>(&world, g2), Ok(r2));
}

#[test]
fn despawn_all_removes_chain() {
    let mut world = World::default();
    let top = spawn_named(&mut world, "top");
    let other = spawn_named(&mut world, "other");
    let r = attach_new::<TREE>(&mut world, top, &mut named("root")).unwrap();
    let sibling = attach_new::<TREE>(&mut world, top, &mut named("sibling")).unwrap();
    let a = attach_new::<TREE>(&mut world, r, &mut named("a")).unwrap();
    let b = attach_new::<TREE>(&mut world, a, &mut named("b")).unwrap();
    let c = attach_new::<TREE>(&mut world, b, &mut named("c")).unwrap();
    let o = attach_new::<TREE>(&mut world, other, &mut named("o")).unwrap();
    despawn_all::<TREE>(&mut world, r);
    for e in [r, a, b, c] {
        assert!(!world.contains(handle(e)));
    }
    assert_eq!(dfs_list(&world, top), vec![sibling]);
    assert_eq!(dfs_list(&world, other), vec![o]);
    let mut found = roots::<TREE>(&world);
    found.sort();
    let mut expected = vec![top, other];
    expected.sort();
    assert_eq!(found, expected);
}

#[test]
fn hierarchies_with_different_tags_are_independent() {
    let mut world = World::default();
    let p = spawn_named(&mut world, "p");
    let c = spawn_named(&mut world, "c");
    attach::<TREE>(&mut world, c, p).unwrap();
    attach::<OTHER>(&mut world, p, c).unwrap();
    assert_eq!(child_list::<TREE>(&world, p), vec![c]);
    assert_eq!(child_list::<OTHER>(&world, c), vec![p]);
    assert_eq!(child_list::<OTHER>(&world, p), Vec::<Entity>::new());
    detach::<TREE>(&mut world, c).unwrap();
    assert_eq!(child_list::<OTHER>(&world, c), vec![p]);
}

#[test]
fn attach_to_dead_parent_fails() {
    let mut world = World::default();
    let p = spawn_named(&mut world, "p");
    let c = spawn_named(&mut world, "c");
    world.despawn(handle(p)).unwrap();
    assert_eq!(attach::<TREE>(&mut world, c, p), Err(HierarchyError::NoSuchEntity(p)));
    assert_eq!(attach_new::<TREE>(&mut world, p, &mut named("x")), Err(HierarchyError::NoSuchEntity(p)));
    assert!(world.get::<&hecs_hierarchy::Child<TREE>>(handle(c)).is_err());
}

#[test]
fn attach_dead_child_fails() {
    let mut world = World::default();
    let p = spawn_named(&mut world, "p");
    let c = spawn_named(&mut world, "c");
    world.despawn(handle(c)).unwrap();
    assert_eq!(attach::<TREE>(&mut world, c, p), Err(HierarchyError::NoSuchEntity(c)));
}

#[test]
fn detach_errors() {
    let mut world = World::default();
    let loose = spawn_named(&mut world, "loose");
    assert_eq!(detach::<TREE>(&mut world, loose), Err(HierarchyError::MissingComponent(loose)));
    let gone = spawn_named(&mut world, "gone");
    world.despawn(handle(gone)).unwrap();
    assert_eq!(detach::<TREE>(&mut world, gone), Err(HierarchyError::NoSuchEntity(gone)));
    assert_eq!(parent::<TREE>(&world, gone), Err(HierarchyError::NoSuchEntity(gone)));
}

#[test]
fn detach_children_returns_them_in_order() {
    let mut world = World::default();
    let p = spawn_named(&mut world, "p");
    let c1 = attach_new::<TREE>(&mut world, p, &mut named("c1")).unwrap();
    let c2 = attach_new::<TREE>(&mut world, p, &mut named("c2")).unwrap();
    let g = attach_new::<TREE>(&mut world, c2, &mut named("g")).unwrap();
    assert_eq!(detach_children::<TREE>(&mut world, p), Ok(vec![c1, c2]));
    assert!(world.get::<&Parent<TREE>>(handle(p)).is_err());
    assert_eq!(parent::<TREE>(&world, c1), Err(HierarchyError::MissingComponent(c1)));
    assert_eq!(child_list::<TREE>(&world, c2), vec![g]);
    assert_eq!(detach_children::<TREE>(&mut world, p), Ok(Vec::new()));
}

#[test]
fn detach_all_leaves_entity_loose() {
    let mut world = World::default();
    let top = spawn_named(&mut world, "top");
    let mid = attach_new::<TREE>(&mut world, top, &mut named("mid")).unwrap();
    let low = attach_new::<TREE>(&mut world, mid, &mut named("low")).unwrap();
    assert_eq!(detach_all::<TREE>(&mut world, mid), Ok(()));
    assert!(world.get::<&Parent<TREE>>(handle(mid)).is_err());
    assert_eq!(parent::<TREE>(&world, mid), Err(HierarchyError::MissingComponent(mid)));
    assert_eq!(parent::<TREE>(&world, low), Err(HierarchyError::MissingComponent(low)));
    assert_eq!(children::<TREE>(&world, top).count(), 0);
    assert_eq!(detach_all::<TREE>(&mut world, top), Err(HierarchyError::MissingComponent(top)));
}

#[test]
fn root_of_chain_and_of_dead_entity() {
    let mut world = World::default();
    let top = spawn_named(&mut world, "top");
    let a = attach_new::<TREE>(&mut world, top, &mut named("a")).unwrap();
    let b = attach_new::<TREE>(&mut world, a, &mut named("b")).unwrap();
    assert_eq!(root::<TREE>(&world, b), Ok(top));
    assert_eq!(root::<TREE>(&world, top), Ok(top));
    world.despawn(handle(b)).unwrap();
    assert_eq!(root::<TREE>(&world, b), Err(HierarchyError::NoSuchEntity(b)));
}

#[test]
fn first_child_follows_last_child() {
    let mut world = World::default();
    let p = spawn_named(&mut world, "p");
    let c1 = attach_new::<TREE>(&mut world, p, &mut named("c1")).unwrap();
    let c2 = attach_new::<TREE>(&mut world, p, &mut named("c2")).unwrap();
    let parent_component = *world.get::<&Parent<TREE>>(handle(p)).unwrap();
    assert_eq!(parent_component.last_child(), c2);
    assert_eq!(parent_component.first_child(&world), Ok(c1));
}

#[test]
fn attach_new_drops_hierarchy_components_of_bundle() {
    let mut world = World::default();
    let p = spawn_named(&mut world, "p");
    let stray = hecs_hierarchy::Child::<TREE>::new(p, p, p);
    let c = attach_new::<TREE>(&mut world, p, named("c").add(stray)).unwrap();
    assert_eq!(child_list::<TREE>(&world, p), vec![c]);
    assert_eq!(children::<TREE>(&world, c).count(), 0);
}

#[test]
fn ring_count_values() {
    assert_eq!(count(0, 3, 8), 3);
    assert_eq!(count(6, 2, 8), 4);
    assert_eq!(count(5, 5, 16), 0);
    assert_eq!(count(usize::MAX, 1, 4), 2);
    assert_eq!(count(0, 7, 1), 0);
}

#[test]
fn despawn_children_keeps_parent() {
    let mut world = World::default();
    let p = spawn_named(&mut world, "p");
    let c1 = attach_new::<TREE>(&mut world, p, &mut named("c1")).unwrap();
    let c2 = attach_new::<TREE>(&mut world, p, &mut named("c2")).unwrap();
    let g = attach_new::<TREE>(&mut world, c1, &mut named("g")).unwrap();
    despawn_children::<TREE>(&mut world, p);
    assert!(world.contains(handle(p)));
    for e in [c1, c2, g] {
        assert!(!world.contains(handle(e)));
    }
    assert!(world.get::<&Parent<TREE>>(handle(p)).is_err());
    assert_eq!(children::<TREE>(&world, p).count(), 0);
}

#[test]
fn walk_ends_at_parent_with_dangling_last_child() {
    let mut world = World::default();
    let root = spawn_named(&mut world, "root");
    let a = attach_new::<TREE>(&mut world, root, &mut named("a")).unwrap();
    let b = attach_new::<TREE>(&mut world, a, &mut named("b")).unwrap();
    let _c = attach_new::<TREE>(&mut world, root, &mut named("c")).unwrap();
    world.remove_one::<hecs_hierarchy::Child<TREE>>(handle(b)).unwrap();
    let mut it = descendants_depth_first::<TREE>(&world, root);
    assert_eq!(it.next(&world), Some(a));
    assert_eq!(it.next(&world), None);
    assert_eq!(it.next(&world), None);
}

#[test]
fn attach_new_with_repeated_component_type() {
    let mut world = World::default();
    let p = spawn_named(&mut world, "p");
    let mut b = EntityBuilder::new();
    b.add(1u32).add(2u32);
    let c = attach_new::<TREE>(&mut world, p, &mut b).unwrap();
    assert_eq!(*world.get::<&u32>(handle(c)).unwrap(), 2);
    assert_eq!(child_list::<TREE>(&world, p), vec![c]);
}

#[test]
fn despawn_all_clears_tables() {
    let mut world = World::default();
    let root = spawn_named(&mut world, "root");
    let c1 = attach_new::<TREE>(&mut world, root, &mut named("c1")).unwrap();
    let c2 = attach_new::<TREE>(&mut world, root, &mut named("c2")).unwrap();
    let c3 = attach_new::<TREE>(&mut world, c2, &mut named("c3")).unwrap();
    despawn_all::<TREE>(&mut world, c3);
    assert!(world.get::<&Parent<TREE>>(handle(c2)).is_err());
    assert_eq!(dfs_list(&world, root), vec![c1, c2]);
    despawn_all::<TREE>(&mut world, root);
    assert_eq!(roots::<TREE>(&world), Vec::<Entity>::new());
    for e in [root, c1, c2, c3] {
        assert!(!world.contains(handle(e)));
    }
}
