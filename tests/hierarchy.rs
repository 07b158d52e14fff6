use hecs::{EntityBuilder, World};
use hecs_hierarchy::{
    ancestors, attach, attach_new, children, descendants_breadth_first, descendants_depth_first,
    despawn_all, detach, parent, roots, visit, Entity,
};

const TREE: u64 = 0;

struct Skip;

fn named(name: &'static str) -> EntityBuilder {
    let mut b = EntityBuilder::new();
    b.add(name);
    b
}

fn spawn_named(world: &mut World, name: &'static str) -> Entity {
    Entity::from_bits(world.spawn((name,)).to_bits().get())
}

fn handle(e: Entity) -> hecs::Entity {
    hecs::Entity::from_bits(e.to_bits()).unwrap()
}

fn name_of(world: &World, e: Entity) -> &'static str {
    *world.get::<&&'static str>(handle(e)).unwrap()
}

fn child_list(world: &World, p: Entity) -> Vec<Entity> {
    children::<TREE>(world, p).collect(world)
}

fn dfs_list(world: &World, p: Entity) -> Vec<Entity> {
    descendants_depth_first::<TREE>(world, p).collect(world)
}

fn bfs_list(world: &World, p: Entity) -> Vec<Entity> {
    let mut it = descendants_breadth_first::<TREE>(world, p);
    let mut out = Vec::new();
    while let Some(e) = it.next(world) {
        out.push(e);
    }
    out
}

fn ancestor_list(world: &World, e: Entity) -> Vec<Entity> {
    let mut it = ancestors::<TREE>(e);
    let mut out = Vec::new();
    while let Some(a) = it.next(world) {
        out.push(a);
    }
    out
}

fn ten_children(world: &mut World) {
    let root = spawn_named(world, "Root");
    let mut expected = std::collections::HashSet::new();
    for i in 0..10 {
        let child = Entity::from_bits(world.spawn((format!("Child {}", i),)).to_bits().get());
        expected.insert(child);
        attach::<TREE>(world, child, root).unwrap();
    }
    for child in child_list(world, root) {
        if !expected.remove(&child) {
            panic!("Entity {:?} does not belong in hierarchy", child);
        }
    }
    if !expected.is_empty() {
        panic!("Not all children in hierarchy were visited")
    }
}

#[test]
fn basic_basic() {
    let mut world = World::default();
    ten_children(&mut world);
}

#[test]
fn tests_basic() {
    let mut world = World::default();
    ten_children(&mut world);
}

#[test]
fn reattach2() {
    let mut world = World::default();
    let root = spawn_named(&mut world, "Root");
    let child1 = spawn_named(&mut world, "Child1");
    let child2 = spawn_named(&mut world, "Child2");
    attach::<TREE>(&mut world, child1, root).unwrap();
    attach::<TREE>(&mut world, child2, root).unwrap();

    detach::<TREE>(&mut world, child2).unwrap();
    attach::<TREE>(&mut world, child2, child1).unwrap();
    detach::<TREE>(&mut world, child2).unwrap();
    attach::<TREE>(&mut world, child2, root).unwrap();
    assert_eq!(dfs_list(&world, root), vec![child1, child2]);

    detach::<TREE>(&mut world, child2).unwrap();
    attach::<TREE>(&mut world, child2, child1).unwrap();
    assert_eq!(dfs_list(&world, root), vec![child1, child2]);
    assert_eq!(child_list(&world, child1), vec![child2]);
}

fn chain_ancestors(world: &mut World) {
    let depth = 10;
    let root = Entity::from_bits(world.spawn((String::from("Root"),)).to_bits().get());
    let mut chain = vec![root];
    for i in 1..depth {
        let child = Entity::from_bits(world.spawn((format!("Child {}", i),)).to_bits().get());
        attach::<TREE>(world, child, chain[i - 1]).unwrap();
        chain.push(child);
    }
    let last = chain.pop().unwrap();
    assert_eq!(ancestor_list(world, last), chain.into_iter().rev().collect::<Vec<_>>());
}

#[test]
fn basic_ancestors() {
    let mut world = World::default();
    chain_ancestors(&mut world);
}

#[test]
fn tests_ancestors() {
    let mut world = World::default();
    chain_ancestors(&mut world);
}

/// Root with Child1, Child2 (holding Child3), Child4 and Child5.
fn five_children(world: &mut World) -> [Entity; 6] {
    let root = spawn_named(world, "Root");
    let child1 = attach_new::<TREE>(world, root, &mut named("Child1")).unwrap();
    let child2 = attach_new::<TREE>(world, root, &mut named("Child2")).unwrap();
    let child3 = attach_new::<TREE>(world, child2, &mut named("Child3")).unwrap();
    let child4 = attach_new::<TREE>(world, root, &mut named("Child4")).unwrap();
    let child5 = attach_new::<TREE>(world, root, &mut named("Child5")).unwrap();
    [root, child1, child2, child3, child4, child5]
}

fn detach_middle(world: &mut World) {
    let [root, child1, child2, child3, child4, child5] = five_children(world);
    detach::<TREE>(world, child2).unwrap();
    assert_eq!(child_list(world, root), vec![child1, child4, child5]);
    assert_eq!(child_list(world, child2), vec![child3]);
    assert_eq!(parent::<TREE>(world, child3), Ok(child2));
}

#[test]
fn basic_detach() {
    let mut world = World::default();
    detach_middle(&mut world);
}

#[test]
fn tests_detach() {
    let mut world = World::default();
    detach_middle(&mut world);
}

fn reattach_middle(world: &mut World) {
    let [root, child1, child2, child3, child4, child5] = five_children(world);
    detach::<TREE>(world, child2).unwrap();
    attach::<TREE>(world, child2, child4).unwrap();
    assert_eq!(child_list(world, root), vec![child1, child4, child5]);
    assert_eq!(dfs_list(world, root), vec![child1, child4, child2, child3, child5]);
}

#[test]
fn basic_reattach() {
    let mut world = World::default();
    reattach_middle(&mut world);
}

#[test]
fn tests_reattach() {
    let mut world = World::default();
    reattach_middle(&mut world);
}

#[test]
fn despawn() {
    let mut world = World::default();
    let [root, child1, child2, child3, child4, child5] = five_children(&mut world);
    despawn_all::<TREE>(&mut world, child3);
    assert_eq!(dfs_list(&world, root), vec![child1, child2, child4, child5]);
    assert!(!world.contains(handle(child3)));
}

#[test]
fn despawn_last_child() {
    let mut world = World::default();
    let root = spawn_named(&mut world, "Root");
    let child1 = attach_new::<TREE>(&mut world, root, &mut named("Child1")).unwrap();
    despawn_all::<TREE>(&mut world, child1);
    let child2 = attach_new::<TREE>(&mut world, root, &mut named("Child2")).unwrap();
    assert_eq!(children::<TREE>(&world, root).count(), 1);
    assert_eq!(dfs_list(&world, root), vec![child2]);
}

/// Root with Child1 and Child2, Child2 holding Child3, Child3 holding Child4.
fn four_deep(world: &mut World, skip_third: bool) -> [Entity; 5] {
    let root = spawn_named(world, "Root");
    let child1 = attach_new::<TREE>(world, root, &mut named("Child1")).unwrap();
    let child2 = attach_new::<TREE>(world, root, &mut named("Child2")).unwrap();
    let child3 = if skip_third {
        attach_new::<TREE>(world, child2, named("Child3").add(Skip)).unwrap()
    } else {
        attach_new::<TREE>(world, child2, &mut named("Child3")).unwrap()
    };
    let child4 = attach_new::<TREE>(world, child3, &mut named("Child4")).unwrap();
    [root, child1, child2, child3, child4]
}

fn depth_first_order() {
    let mut world = World::default();
    let [root, child1, child2, child3, child4] = four_deep(&mut world, false);
    assert_eq!(dfs_list(&world, root), vec![child1, child2, child3, child4]);
    assert_eq!(name_of(&world, child4), "Child4");
}

#[test]
fn basic_dfs() {
    depth_first_order();
}

#[test]
fn tests_dfs() {
    depth_first_order();
}

fn visit_skipping() {
    let mut world = World::default();
    let [root, child1, child2, _child3, _child4] = four_deep(&mut world, true);
    let mut it = visit::<TREE, _>(&world, root, |w: &World, e: Entity| {
        w.get::<&Skip>(hecs::Entity::from_bits(e.to_bits()).unwrap()).is_err()
    });
    let mut seen = Vec::new();
    while let Some(e) = it.next(&world) {
        seen.push(e);
    }
    assert_eq!(seen, vec![child1, child2]);
}

#[test]
fn basic_dfs_skip() {
    visit_skipping();
}

#[test]
fn tests_dfs_skip() {
    visit_skipping();
}

fn breadth_first_order() {
    let mut world = World::default();
    let [root, child1, child2, child3, child4] = four_deep(&mut world, false);
    assert_eq!(bfs_list(&world, root), vec![child1, child2, child3, child4]);
}

#[test]
fn basic_bfs() {
    breadth_first_order();
}

#[test]
fn tests_bfs() {
    breadth_first_order();
}

fn empty_children() {
    let mut world = World::default();
    let empty_root = spawn_named(&mut world, "Root");
    assert_eq!(children::<TREE>(&world, empty_root).count(), 0);
    assert_eq!(child_list(&world, empty_root), Vec::<Entity>::new());
}

#[test]
fn basic_empty() {
    empty_children();
}

#[test]
fn tests_empty() {
    empty_children();
}

fn forest_roots() {
    let mut world = World::default();
    let root1 = spawn_named(&mut world, "Root1");
    let root2 = spawn_named(&mut world, "Root2");
    let root3 = spawn_named(&mut world, "Root3");
    attach_new::<TREE>(&mut world, root1, &mut named("Child1")).unwrap();
    attach_new::<TREE>(&mut world, root1, &mut named("Child2")).unwrap();
    attach_new::<TREE>(&mut world, root2, &mut named("Child3")).unwrap();
    attach_new::<TREE>(&mut world, root1, &mut named("Child4")).unwrap();
    attach_new::<TREE>(&mut world, root3, &mut named("Child5")).unwrap();
    let mut expected = [root1, root2, root3];
    expected.sort();
    let mut found = roots::<TREE>(&world);
    found.sort();
    assert_eq!(found, expected.to_vec());
}

#[test]
fn basic_roots() {
    forest_roots();
}

#[test]
fn tests_roots() {
    forest_roots();
}
