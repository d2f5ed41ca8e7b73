use apex_core::component::Tick;
use apex_core::entity::Entity;
use apex_core::registry::ComponentDesc;
use apex_core::relation_graph::Refusal;
use apex_core::relation_index::{RelationPair, SubjectEntry};
use apex_core::relations::{ChildOf, HookEvent, Kind, Likes, Owns, RelationRegistry};
use apex_core::shape::{Role, Shape};
use apex_core::world::{Bundle, BundlePart, World};

const POSITION: u64 = 100;

fn desc() -> ComponentDesc {
    ComponentDesc {
        key: POSITION,
        name: "tests::Position".to_string(),
        size: 8,
        align: 4,
        needs_drop: false,
        requires: Vec::new(),
    }
}

fn position(x: f32, y: f32) -> Bundle {
    let mut value = x.to_le_bytes().to_vec();
    value.extend(y.to_le_bytes());
    Bundle { parts: vec![BundlePart { desc: desc(), value }] }
}

fn x_of(b: &[u8]) -> f32 {
    f32::from_le_bytes([b[0], b[1], b[2], b[3]])
}

fn new_world() -> World {
    let mut world = World::new();
    world.register_component(&desc());
    world
}

fn pair(kind_idx: u32, index: u32) -> RelationPair {
    RelationPair { kind_idx, target: Entity::from_raw_parts(index, 0) }
}

#[test]
fn add_has_remove_relation() {
    let mut world = new_world();
    let parent = world.spawn(&position(0.0, 0.0));
    let child = world.spawn(&position(1.0, 0.0));

    world.add_relation(child, ChildOf, parent);
    assert!(world.has_relation(child, ChildOf, parent));
    assert!(!world.has_relation(parent, ChildOf, child));

    world.remove_relation(child, ChildOf, parent);
    assert!(!world.has_relation(child, ChildOf, parent));
}

#[test]
fn add_relation_no_structural_change() {
    let mut world = new_world();
    let parent = world.spawn(&position(0.0, 0.0));
    let child = world.spawn(&position(1.0, 0.0));

    let arch_count = world.archetype_count();
    world.add_relation(child, ChildOf, parent);
    assert_eq!(world.archetype_count(), arch_count, "a relation creates no archetype");
}

#[test]
fn subject_entry_kind_mask() {
    let mut entry = SubjectEntry::new();
    let rel1 = pair(0, 100);
    let rel2 = pair(1, 200);
    let rel3 = pair(0, 300);

    entry.insert(rel1.sort_key());
    assert!(entry.has_kind(0));
    assert!(!entry.has_kind(1));

    entry.insert(rel2.sort_key());
    assert!(entry.has_kind(1));

    entry.insert(rel3.sort_key());
    entry.remove(rel1.sort_key());
    assert!(entry.has_kind(0));

    entry.remove(rel3.sort_key());
    assert!(!entry.has_kind(0));
}

#[test]
fn relation_registry_name_roundtrip() {
    let mut reg = RelationRegistry::new();
    let idx = reg.get_or_register::<ChildOf>();

    let name = reg.get_name(idx).unwrap();
    assert!(name.contains("ChildOf"));

    let found_idx = reg.get_idx_by_name(name).unwrap();
    assert_eq!(found_idx, idx);
}

#[test]
fn despawn_recursive() {
    let mut world = new_world();
    let root = world.spawn(&position(0.0, 0.0));
    let child = world.spawn(&position(1.0, 0.0));
    let leaf = world.spawn(&position(2.0, 0.0));

    world.add_relation(child, ChildOf, root);
    world.add_relation(leaf, ChildOf, child);

    assert_eq!(world.entity_count(), 3);
    world.despawn_recursive(ChildOf, root);
    assert_eq!(world.entity_count(), 0);
}

#[test]
fn get_relation_target() {
    let mut world = new_world();
    let parent = world.spawn(&position(0.0, 0.0));
    let child = world.spawn(&position(1.0, 0.0));

    world.add_relation(child, ChildOf, parent);
    assert_eq!(world.target_of(child, ChildOf), Some(parent));
}

#[test]
fn despawn_target_cascades() {
    let mut world = new_world();
    let root = world.spawn(&position(0.0, 0.0));
    let child = world.spawn(&position(1.0, 0.0));
    let leaf = world.spawn(&position(2.0, 0.0));

    world.add_relation(child, ChildOf, root);
    world.add_relation(leaf, ChildOf, child);

    world.despawn(root);
    assert_eq!(world.entity_count(), 0, "children die with the parent");
}

#[test]
fn despawn_target_clears_non_cascade() {
    let mut world = new_world();
    let owner = world.spawn(&position(0.0, 0.0));
    let item = world.spawn(&position(1.0, 0.0));

    world.add_relation(item, Owns, owner);
    assert!(world.has_relation(item, Owns, owner));

    world.despawn(owner);
    assert!(world.is_alive(item));
    assert_eq!(world.target_of(item, Owns), None, "a relation must not outlive its target");
}

#[test]
fn reused_index_does_not_leak_relations() {
    let mut world = new_world();
    let parent = world.spawn(&position(0.0, 0.0));
    let child = world.spawn(&position(1.0, 0.0));
    world.add_relation(child, ChildOf, parent);

    world.despawn(parent);

    let n1 = world.spawn(&position(9.0, 9.0));
    let n2 = world.spawn(&position(8.0, 8.0));
    let newcomer = [n1, n2]
        .into_iter()
        .find(|e| e.index() == parent.index())
        .expect("the parent's index is reused");

    assert_eq!(world.targets_of(ChildOf, newcomer).len(), 0);
    assert_eq!(world.targets_of(ChildOf, parent).len(), 0);
}

#[test]
fn children_of_lists_all_children() {
    let mut world = new_world();
    let parent = world.spawn(&position(0.0, 0.0));
    let mut spawned: Vec<Entity> = Vec::new();
    for i in 0..30 {
        let c = world.spawn(&position(i as f32, 0.0));
        world.add_relation(c, ChildOf, parent);
        spawned.push(c);
    }
    let mut children: Vec<Entity> = world.targets_of(ChildOf, parent);
    children.sort_by_key(|e| e.index());
    spawned.sort_by_key(|e| e.index());
    assert_eq!(children, spawned);
}

#[test]
fn query_relation_fetches_components() {
    let mut world = new_world();
    let parent = world.spawn(&position(0.0, 0.0));
    let c1 = world.spawn(&position(1.0, 0.0));
    let c2 = world.spawn(&position(2.0, 0.0));
    world.add_relation(c1, ChildOf, parent);
    world.add_relation(c2, ChildOf, parent);

    let mut seen: Vec<(Entity, f32)> = Vec::new();
    let mut it = world.query_relation(ChildOf, parent, Shape::Component(Role::Read, POSITION));
    while let Some(item) = it.next() {
        seen.push((item.entity, x_of(item.values[0].unwrap())));
    }
    seen.sort_by(|a, b| a.1.total_cmp(&b.1));
    assert_eq!(seen.len(), 2);
    assert_eq!(seen[0], (c1, 1.0));
    assert_eq!(seen[1], (c2, 2.0));
}

#[test]
fn query_wildcard_fetches_all_subjects() {
    let mut world = new_world();
    let p1 = world.spawn(&position(0.0, 0.0));
    let p2 = world.spawn(&position(0.0, 1.0));
    let c1 = world.spawn(&position(1.0, 0.0));
    let c2 = world.spawn(&position(2.0, 0.0));
    world.add_relation(c1, ChildOf, p1);
    world.add_relation(c2, ChildOf, p2);

    let mut count = 0;
    let mut it = world.query_wildcard(ChildOf, Shape::Component(Role::Read, POSITION));
    while it.next().is_some() {
        count += 1;
    }
    assert_eq!(count, 2);
}

#[test]
fn add_relation_dead_target_is_noop() {
    let mut world = new_world();
    let child = world.spawn(&position(1.0, 0.0));
    let parent = world.spawn(&position(0.0, 0.0));
    world.despawn(parent);

    world.add_relation(child, ChildOf, parent);
    assert!(!world.has_relation(child, ChildOf, parent));
    assert_eq!(world.target_of(child, ChildOf), None);
}

#[test]
fn exclusive_childof_replaces_previous_parent() {
    let mut world = new_world();
    let child = world.spawn(&position(0.0, 0.0));
    let p1 = world.spawn(&position(1.0, 0.0));
    let p2 = world.spawn(&position(2.0, 0.0));

    world.add_relation(child, ChildOf, p1);
    assert_eq!(world.target_of(child, ChildOf), Some(p1));

    world.add_relation(child, ChildOf, p2);
    assert_eq!(world.target_of(child, ChildOf), Some(p2));
    assert_eq!(world.targets_of(ChildOf, p1).len(), 0, "the old parent lost the child");
    assert_eq!(world.targets_of(ChildOf, p2).len(), 1, "the new parent gained it");
}

#[test]
fn non_exclusive_relation_still_accumulates() {
    let mut world = new_world();
    let hub = world.spawn(&position(0.0, 0.0));
    let t1 = world.spawn(&position(1.0, 0.0));
    let t2 = world.spawn(&position(2.0, 0.0));
    world.add_relation(hub, Likes, t1);
    world.add_relation(hub, Likes, t2);
    assert!(world.has_relation(hub, Likes, t1));
    assert!(world.has_relation(hub, Likes, t2));
}

#[test]
fn self_relation_rejected() {
    let mut world = new_world();
    let a = world.spawn(&position(0.0, 0.0));
    world.add_relation(a, ChildOf, a);
    assert_eq!(world.target_of(a, ChildOf), None);
}

#[test]
fn childof_cycle_rejected() {
    let mut world = new_world();
    let a = world.spawn(&position(0.0, 0.0));
    let b = world.spawn(&position(1.0, 0.0));
    let c = world.spawn(&position(2.0, 0.0));

    world.add_relation(a, ChildOf, b);
    world.add_relation(b, ChildOf, c);
    world.add_relation(c, ChildOf, a);
    assert_eq!(world.target_of(c, ChildOf), None, "the edge that closes a cycle is rejected");
    assert_eq!(world.target_of(a, ChildOf), Some(b), "existing edges are intact");
    assert_eq!(world.target_of(b, ChildOf), Some(c));
}

fn with_children(world: &mut World, parent: Entity, n: usize) -> Vec<Entity> {
    (0..n)
        .map(|i| {
            let c = world.spawn(&position(i as f32, 0.0));
            world.add_relation(c, ChildOf, parent);
            c
        })
        .collect()
}

#[test]
fn children_order_is_insertion_order() {
    let mut world = new_world();
    let parent = world.spawn(&position(0.0, 0.0));
    let kids = with_children(&mut world, parent, 5);
    assert_eq!(world.targets_of(ChildOf, parent), kids);
}

#[test]
fn children_order_stable_across_removal() {
    let mut world = new_world();
    let parent = world.spawn(&position(0.0, 0.0));
    let kids = with_children(&mut world, parent, 5);

    world.remove_relation(kids[2], ChildOf, parent);
    assert_eq!(world.targets_of(ChildOf, parent), vec![kids[0], kids[1], kids[3], kids[4]]);

    world.despawn(kids[3]);
    assert_eq!(world.targets_of(ChildOf, parent), vec![kids[0], kids[1], kids[4]]);
}

#[test]
fn insert_relation_at_positions_child() {
    let mut world = new_world();
    let parent = world.spawn(&position(0.0, 0.0));
    let a = world.spawn(&position(1.0, 0.0));
    let b = world.spawn(&position(2.0, 0.0));
    let c = world.spawn(&position(3.0, 0.0));
    let d = world.spawn(&position(4.0, 0.0));

    world.add_relation(a, ChildOf, parent);
    world.add_relation(b, ChildOf, parent);
    world.insert_relation_at(c, ChildOf, parent, 0);
    world.insert_relation_at(d, ChildOf, parent, 99);
    assert_eq!(world.targets_of(ChildOf, parent), vec![c, a, b, d]);
    assert_eq!(world.relation_index(c, ChildOf, parent), Some(0));
    assert_eq!(world.relation_index(d, ChildOf, parent), Some(3));
}

#[test]
fn insert_relation_at_existing_reorders() {
    let mut world = new_world();
    let parent = world.spawn(&position(0.0, 0.0));
    let kids = with_children(&mut world, parent, 3);
    world.insert_relation_at(kids[2], ChildOf, parent, 0);
    assert_eq!(world.targets_of(ChildOf, parent), vec![kids[2], kids[0], kids[1]]);
}

#[test]
fn set_relation_index_reorders() {
    let mut world = new_world();
    let parent = world.spawn(&position(0.0, 0.0));
    let kids = with_children(&mut world, parent, 4);

    assert!(world.set_relation_index(kids[0], ChildOf, parent, 3));
    assert!(world.set_relation_index(kids[3], ChildOf, parent, 0));
    assert_eq!(
        world.targets_of(ChildOf, parent),
        vec![kids[3], kids[1], kids[2], kids[0]]
    );

    let stranger = world.spawn(&position(9.0, 0.0));
    assert!(!world.set_relation_index(stranger, ChildOf, parent, 0));
    assert_eq!(world.target_of(stranger, ChildOf), None);
}

#[test]
fn reparent_order_semantics() {
    let mut world = new_world();
    let p1 = world.spawn(&position(0.0, 0.0));
    let p2 = world.spawn(&position(0.0, 1.0));
    let a = world.spawn(&position(1.0, 0.0));
    let b = world.spawn(&position(2.0, 0.0));
    let c = world.spawn(&position(3.0, 0.0));
    world.add_relation(a, ChildOf, p2);
    world.add_relation(b, ChildOf, p1);
    world.add_relation(c, ChildOf, p1);

    world.add_relation(b, ChildOf, p2);
    assert_eq!(world.targets_of(ChildOf, p2), vec![a, b]);

    world.insert_relation_at(c, ChildOf, p2, 0);
    assert_eq!(world.targets_of(ChildOf, p2), vec![c, a, b]);
    assert_eq!(world.targets_of(ChildOf, p1).len(), 0);
}

#[test]
fn iter_relations_target_major_order() {
    let mut world = new_world();
    let p1 = world.spawn(&position(0.0, 0.0));
    let p2 = world.spawn(&position(0.0, 1.0));
    let a = world.spawn(&position(1.0, 0.0));
    let b = world.spawn(&position(2.0, 0.0));
    let c = world.spawn(&position(3.0, 0.0));
    world.add_relation(b, ChildOf, p2);
    world.add_relation(a, ChildOf, p2);
    world.insert_relation_at(c, ChildOf, p2, 1);
    world.add_relation(p2, ChildOf, p1);

    let rels = world.iter_relations_target_major();
    let expected: Vec<(Entity, u32)> = vec![
        (p2, p1.index()),
        (b, p2.index()),
        (c, p2.index()),
        (a, p2.index()),
    ];
    let seen: Vec<(Entity, u32)> = rels.iter().map(|&(s, _k, t)| (s, t)).collect();
    assert_eq!(seen, expected);

    let by_subject = world.iter_relations();
    assert_eq!(by_subject.len(), 4);
    assert_eq!(by_subject[0], (p2.index(), 0, p1));
}

#[test]
fn pair_storage_dense_upgrade() {
    let mut world = new_world();
    let hub = world.spawn(&position(0.0, 0.0));
    let targets: Vec<Entity> = (0..20).map(|i| world.spawn(&position(i as f32, 0.0))).collect();
    for &t in &targets {
        world.add_relation(hub, Likes, t);
    }
    for &t in &targets {
        assert!(world.has_relation(hub, Likes, t));
    }
    world.despawn(targets[7]);
    assert!(!world.has_relation(hub, Likes, targets[7]));
    let alive = targets.iter().filter(|&&t| world.has_relation(hub, Likes, t)).count();
    assert_eq!(alive, 19);
}

#[test]
fn relations_apex_and_bevy_see_all_10k_children() {
    let mut world = new_world();
    let parent = world.spawn(&position(0.0, 0.0));
    with_children(&mut world, parent, 10_000);
    assert_eq!(world.targets_of(ChildOf, parent).len(), 10_000, "all children are seen");
}

#[test]
fn despawn_recursive_walks_kinds_that_do_not_cascade() {
    let mut world = new_world();
    let root = world.spawn(&position(0.0, 0.0));
    let child = world.spawn(&position(1.0, 0.0));
    let leaf = world.spawn(&position(2.0, 0.0));
    let other = world.spawn(&position(3.0, 0.0));
    world.add_relation(child, Owns, root);
    world.add_relation(leaf, Owns, child);
    world.add_relation(leaf, Likes, other);
    world.despawn_recursive(Owns, root);
    assert!(!world.is_alive(root) && !world.is_alive(child) && !world.is_alive(leaf));
    assert!(world.is_alive(other));
    assert_eq!(world.targets_of(Likes, other).len(), 0);
}

#[test]
fn hooks_come_in_order() {
    let mut world = new_world();
    let parent = world.spawn(&position(0.0, 0.0));
    let child = world.spawn(&position(1.0, 0.0));
    world.add_relation(child, ChildOf, parent);
    let hooks: Vec<HookEvent> = world.take_hooks();
    assert_eq!(hooks.len(), 0, "no hook is set");
    assert_eq!(world.current_tick(), Tick(1));
}

#[test]
fn subjects_of_dead_targets_are_not_listed() {
    let mut world = new_world();
    let a = world.spawn(&position(0.0, 0.0));
    let b = world.spawn(&position(1.0, 0.0));
    world.add_relation(a, Likes, b);
    world.add_relation(a, Likes, b);
    assert_eq!(world.targets_of(Likes, b), vec![a], "a relation is listed once");
    world.despawn(a);
    assert_eq!(world.targets_of(Likes, b).len(), 0);
    let mut it = world.query_relation(Likes, b, Shape::Entity);
    assert!(it.next().is_none());
    let mut all = world.query_wildcard(Owns, Shape::Entity);
    assert!(all.next().is_none());
}

#[test]
fn target_index_lists_targets_in_order() {
    let mut index = apex_core::relation_index::TargetIndex::new();
    let e = |i: u32| Entity::from_raw_parts(i, 0);
    index.add(0, e(7), e(1));
    index.add(0, e(3), e(2));
    index.add(0, e(7), e(4));
    index.add_at(0, e(7), e(5), 0);
    let seen: Vec<(u32, Vec<Entity>)> =
        index.entries_sorted(0).into_iter().map(|(t, s)| (t, s.to_vec())).collect();
    assert_eq!(seen, vec![(3, vec![e(2)]), (7, vec![e(5), e(1), e(4)])]);
    assert!(index.entries_sorted(9).is_empty());
    assert_eq!(index.largest_count(), 3);
    assert_eq!(index.all_subjects(0), vec![e(2), e(5), e(1), e(4)]);
}

fn holds() -> Kind {
    Kind { key: 900, name: "tests::Holds".to_string(), cascade: true, exclusive: false }
}

#[test]
fn cascading_kinds_stay_acyclic() {
    let mut world = new_world();
    let a = world.spawn(&position(0.0, 0.0));
    let b = world.spawn(&position(1.0, 0.0));
    let c = world.spawn(&position(2.0, 0.0));
    world.add_relation_of_kind(a, holds(), b);
    world.add_relation_of_kind(a, holds(), c);
    world.add_relation_of_kind(c, holds(), a);
    let rows = world.iter_relations();
    assert_eq!(rows.len(), 2, "the edge that closes a cycle is refused");
    assert!(rows.iter().all(|r| r.0 == a.index));
    // Two ways to the same ancestor are no cycle.
    world.add_relation_of_kind(b, holds(), c);
    assert_eq!(world.iter_relations().len(), 3);
    world.add_relation_by_kind_idx(c, rows[0].1, a);
    assert_eq!(world.iter_relations_target_major().len(), 3);
}

#[test]
fn relation_hooks_are_queued() {
    let mut world = new_world();
    let parent = world.spawn(&position(0.0, 0.0));
    let other = world.spawn(&position(0.0, 1.0));
    let child = world.spawn(&position(1.0, 0.0));
    let kind_idx = world.register_relation_kind::<ChildOf>();
    world.set_relation_on_add(kind_idx, 7);
    world.set_relation_on_remove(kind_idx, 8);
    assert_eq!(world.relation_graph().on_add_hook(kind_idx), Some(7));
    assert_eq!(world.relation_graph().on_remove_hook(kind_idx), Some(8));
    world.add_relation(child, ChildOf, parent);
    world.add_relation(child, ChildOf, other);
    assert_eq!(
        world.take_hooks(),
        vec![
            HookEvent::RelationAdded { kind_idx, subject: child, target: parent },
            HookEvent::RelationRemoved { kind_idx, subject: child, target: parent },
            HookEvent::RelationAdded { kind_idx, subject: child, target: other },
        ]
    );
}

#[test]
fn refused_relations_say_why() {
    let mut world = new_world();
    let a = world.spawn(&position(0.0, 0.0));
    let b = world.spawn(&position(1.0, 0.0));
    let gone = world.spawn(&position(2.0, 0.0));
    world.despawn(gone);
    let kind_idx = world.register_relation_kind::<ChildOf>();
    assert!(world.relation_refusal(a, kind_idx, b).is_none());
    world.add_relation(a, ChildOf, b);
    assert!(matches!(world.relation_refusal(a, kind_idx, gone), Some(Refusal::Dead)));
    assert!(matches!(world.relation_refusal(gone, kind_idx, a), Some(Refusal::Dead)));
    assert!(matches!(world.relation_refusal(a, kind_idx, a), Some(Refusal::Itself)));
    assert!(matches!(world.relation_refusal(b, kind_idx, a), Some(Refusal::Cycle)));
    world.add_relation(b, ChildOf, a);
    assert!(!world.has_relation(b, ChildOf, a));
    assert!(world.has_relation(a, ChildOf, b));
}
