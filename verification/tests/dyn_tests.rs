use std::collections::HashSet;

use apex_core::component::{ComponentId, Tick};
use apex_core::dyn_query::{DynQuery, DynQueryError, DynQueryMut};
use apex_core::entity::Entity;
use apex_core::query::Query;
use apex_core::registry::ComponentDesc;
use apex_core::relations::{ChildOf, Likes};
use apex_core::shape::{Role, Shape};
use apex_core::world::{Bundle, BundlePart, World};

const HP: u64 = 100;
const MANA: u64 = 101;
const BOSS: u64 = 102;
const GHOST: u64 = 103;

fn desc(key: u64) -> ComponentDesc {
    let (name, size) = match key {
        HP => ("tests::Hp", 4),
        MANA => ("tests::Mana", 4),
        _ => ("tests::Boss", 0),
    };
    ComponentDesc { key, name: name.to_string(), size, align: 1, needs_drop: false, requires: Vec::new() }
}

fn num(key: u64, v: u32) -> BundlePart {
    BundlePart { desc: desc(key), value: v.to_le_bytes().to_vec() }
}

fn boss() -> BundlePart {
    BundlePart { desc: desc(BOSS), value: Vec::new() }
}

fn spawn(world: &mut World, parts: Vec<BundlePart>) -> Entity {
    world.spawn(&Bundle { parts })
}

fn number(b: &[u8]) -> u32 {
    u32::from_le_bytes([b[0], b[1], b[2], b[3]])
}

fn get(world: &World, e: Entity, key: u64) -> Option<u32> {
    world.get_by_key(e, key).map(number)
}

fn seen(q: &DynQuery) -> Vec<Entity> {
    let mut out = Vec::new();
    let mut it = q.iter();
    while let Some(item) = it.next() {
        out.push(item.entity());
    }
    out
}

/// Changes a component of every match.
fn for_each_mut(q: &mut DynQueryMut, key: u64, id: ComponentId, f: impl Fn(u32) -> u32) {
    for e in q.entities() {
        let mut item = q.get_mut(e).unwrap();
        let mut m = item.get_mut(key, id).unwrap();
        let v = f(number(&m.get()));
        m.set(&v.to_le_bytes());
    }
}

#[test]
fn dyn_read_by_name_iter_typed_and_untyped() {
    let mut world = World::new();
    let a = spawn(&mut world, vec![num(HP, 100), num(MANA, 50)]);
    let b = spawn(&mut world, vec![num(HP, 10)]);
    let _c = spawn(&mut world, vec![num(MANA, 5)]);

    let hp_id = world.component_id_by_name("tests::Hp").unwrap();
    let q = world.query_builder().read_name("tests::Hp").build().ok().unwrap();
    assert_eq!(q.reads(), &[hp_id.0]);
    assert_eq!(q.count(), 2);

    let mut found: Vec<(Entity, u32)> = Vec::new();
    let mut it = q.iter();
    while let Some(item) = it.next() {
        found.push((item.entity(), number(item.get(HP, hp_id).unwrap())));
    }
    found.sort_by_key(|(_, hp)| *hp);
    assert_eq!(found, vec![(b, 10), (a, 100)]);

    let item = q.get(a).unwrap();
    assert_eq!(number(item.get_ptr(hp_id).unwrap()), 100);
}

#[test]
fn dyn_unknown_name_is_loud() {
    let world = World::new();
    let err = world.query_builder().read_name("does::not::Exist").build().err().unwrap();
    assert_eq!(err, DynQueryError::UnknownComponent("does::not::Exist".into()));
    assert!(world
        .query_builder()
        .read_name("does::not::Exist")
        .matching_archetype_ids()
        .is_empty());
    assert_eq!(err.text(), "dynamic query: unknown component name 'does::not::Exist'");
}

#[test]
fn dyn_unregistered_typed_read_matches_nothing() {
    let mut world = World::new();
    spawn(&mut world, vec![num(HP, 1)]);

    let q = world.query_builder().read(HP).read(GHOST);
    assert!(q.matching_archetype_ids().is_empty());
    assert_eq!(q.build().ok().unwrap().count(), 0);

    let q = world.query_builder().read(HP).exclude(GHOST);
    assert_eq!(q.build().ok().unwrap().count(), 1);
}

#[test]
fn dyn_with_and_exclude_filters() {
    let mut world = World::new();
    let big = spawn(&mut world, vec![num(HP, 100), num(MANA, 50), boss()]);
    let mob = spawn(&mut world, vec![num(HP, 10), num(MANA, 5)]);

    let hp_id = world.component_id_by_name("tests::Hp").unwrap();

    let q = world.query_builder().read_id(hp_id).with(BOSS).build().ok().unwrap();
    assert_eq!(seen(&q), vec![big]);
    let q = world.query_builder().read_id(hp_id).exclude(BOSS).build().ok().unwrap();
    assert_eq!(seen(&q), vec![mob]);
    let q = world.query_builder().with_name("tests::Boss").build().ok().unwrap();
    assert_eq!(seen(&q), vec![big]);
    let q = world.query_builder().read(HP).exclude_name("tests::Boss").build().ok().unwrap();
    assert_eq!(seen(&q), vec![mob]);
}

#[test]
fn dyn_point_get_respects_filter_and_liveness() {
    let mut world = World::new();
    let big = spawn(&mut world, vec![num(HP, 100), boss()]);
    let mob = spawn(&mut world, vec![num(HP, 10)]);
    let dead = spawn(&mut world, vec![num(HP, 1), boss()]);
    world.despawn(dead);

    let q = world.query_builder().read(HP).with(BOSS).build().ok().unwrap();
    assert!(q.get(big).is_some());
    assert!(q.get(mob).is_none());
    assert!(q.get(dead).is_none());

    let hp_id = world.component_id_by_name("tests::Hp").unwrap();
    assert_eq!(number(q.get(big).unwrap().get(HP, hp_id).unwrap()), 100);
}

#[test]
fn dyn_write_build_is_rejected() {
    let mut world = World::new();
    spawn(&mut world, vec![num(HP, 1)]);
    let err = world.query_builder().write(HP).build().err().unwrap();
    assert_eq!(err, DynQueryError::WriteNotSupported);
    assert_eq!(world.query_builder().write(HP).matching_archetype_ids().len(), 1);
    assert_eq!(
        err.text(),
        "dynamic query: write access requires exclusive world access; use World::query_builder_mut (not query_builder)"
    );
}

#[test]
fn dyn_typed_get_type_mismatch_returns_none() {
    let mut world = World::new();
    let e = spawn(&mut world, vec![num(HP, 1), num(MANA, 2)]);
    let hp_id = world.component_id_by_name("tests::Hp").unwrap();
    let mana_id = world.component_id_by_name("tests::Mana").unwrap();

    let q = world.query_builder().read_id(hp_id).build().ok().unwrap();
    let item = q.get(e).unwrap();
    assert!(item.get(MANA, hp_id).is_none());
    assert_eq!(number(item.get(MANA, mana_id).unwrap()), 2);
    assert!(item.get_ptr(ComponentId::invalid()).is_none());
    assert!(item.archetype().has_component(mana_id));
    assert_eq!(item.row(), 0);
}

#[test]
fn dyn_zst_component_typed_get() {
    let mut world = World::new();
    let e = spawn(&mut world, vec![num(HP, 1), boss()]);
    let boss_id = world.component_id_by_name("tests::Boss").unwrap();

    let q = world.query_builder().with_id(boss_id).read(HP).build().ok().unwrap();
    let item = q.get(e).unwrap();
    assert!(item.get(BOSS, boss_id).is_some());
    assert!(item.get_ptr(boss_id).is_some());
}

#[test]
fn dyn_iter_spans_multiple_archetypes() {
    let mut world = World::new();
    spawn(&mut world, vec![num(HP, 1)]);
    spawn(&mut world, vec![num(HP, 2), num(MANA, 1)]);
    spawn(&mut world, vec![num(HP, 3), boss()]);
    spawn(&mut world, vec![num(MANA, 9)]);

    let q = world.query_builder().read(HP).build().ok().unwrap();
    assert!(q.archetype_ids().len() >= 3);
    assert_eq!(q.count(), 3);
    let hp_id = world.component_id_by_name("tests::Hp").unwrap();
    let mut sum = 0;
    let mut it = q.iter();
    while let Some(item) = it.next() {
        sum += number(item.get(HP, hp_id).unwrap());
    }
    assert_eq!(sum, 6);
    assert!(!q.is_empty());
}

#[test]
fn dyn_query_relation_terms() {
    let mut world = World::new();
    let p1 = spawn(&mut world, vec![num(HP, 1)]);
    let p2 = spawn(&mut world, vec![num(HP, 2)]);
    let a = spawn(&mut world, vec![num(HP, 10)]);
    let b = spawn(&mut world, vec![num(HP, 11)]);
    let c = spawn(&mut world, vec![num(HP, 12)]);
    let d = spawn(&mut world, vec![num(HP, 13)]);
    world.add_relation(a, ChildOf, p1);
    world.add_relation(b, ChildOf, p1);
    world.add_relation(c, ChildOf, p2);

    {
        let q = world.query_builder().read(HP).with_relation(ChildOf, p1).build().ok().unwrap();
        let ids: HashSet<Entity> = seen(&q).into_iter().collect();
        assert_eq!(ids, HashSet::from([a, b]));
        assert_eq!(q.count(), 2);
        assert!(!q.is_empty());

        let q = world.query_builder().read(HP).with_any_relation(ChildOf).build().ok().unwrap();
        assert_eq!(q.count(), 3);

        let q = world.query_builder().read(HP).without_relation(ChildOf, p1).build().ok().unwrap();
        let got: HashSet<Entity> = seen(&q).into_iter().collect();
        assert!(!got.contains(&a) && !got.contains(&b));
        assert!(got.contains(&c) && got.contains(&d) && got.contains(&p1) && got.contains(&p2));

        let q = world.query_builder().read(HP).with_relation(ChildOf, p1).build().ok().unwrap();
        assert!(q.get(a).is_some());
        assert!(q.get(c).is_none(), "it belongs to another parent");

        // A kind that no relation has.
        let q = world.query_builder().read(HP).with_any_relation(Likes).build().ok().unwrap();
        assert_eq!(q.count(), 0);
        let q = world.query_builder().read(HP).without_relation(Likes, p1).build().ok().unwrap();
        assert_eq!(q.count(), 6);
    }

    let hp_id = world.component_id_by_name("tests::Hp").unwrap();
    let mut q =
        world.query_builder_mut().write(HP).with_relation(ChildOf, p1).build().ok().unwrap();
    assert_eq!(q.count(), 2);
    for_each_mut(&mut q, HP, hp_id, |v| v + 100);
    assert_eq!(get(&world, a, HP), Some(110));
    assert_eq!(get(&world, b, HP), Some(111));
    assert_eq!(get(&world, c, HP), Some(12), "untouched");
}

#[test]
fn dyn_write_for_each_mut_typed_and_untyped() {
    let mut world = World::new();
    let a = spawn(&mut world, vec![num(HP, 100), num(MANA, 50)]);
    let b = spawn(&mut world, vec![num(HP, 10)]);
    let hp_id = world.component_id_by_name("tests::Hp").unwrap();

    {
        let mut q = world.query_builder_mut().write_name("tests::Hp").build().ok().unwrap();
        assert_eq!(q.writes(), &[hp_id.0]);
        assert_eq!(q.count(), 2);
        for_each_mut(&mut q, HP, hp_id, |v| v + 1);
    }
    assert_eq!(get(&world, a, HP), Some(101));
    assert_eq!(get(&world, b, HP), Some(11));

    {
        let mut q = world.query_builder_mut().write_id(hp_id).build().ok().unwrap();
        for e in q.entities() {
            let mut item = q.get_mut(e).unwrap();
            let mut m = item.get_mut_ptr(hp_id).unwrap();
            let v = number(&m.get()) + 1000;
            m.set(&v.to_le_bytes());
        }
    }
    assert_eq!(get(&world, a, HP), Some(1101));
}

#[test]
fn dyn_write_gate_refuses_undeclared_write() {
    let mut world = World::new();
    let a = spawn(&mut world, vec![num(HP, 100), num(MANA, 50)]);
    let hp_id = world.component_id_by_name("tests::Hp").unwrap();
    let mana_id = world.component_id_by_name("tests::Mana").unwrap();

    {
        let mut q = world.query_builder_mut().write(HP).read(MANA).build().ok().unwrap();
        assert_eq!(q.reads(), &[mana_id.0]);
        let mut item = q.get_mut(a).unwrap();
        assert_eq!(item.entity(), a);
        {
            let mut m = item.get_mut(HP, hp_id).unwrap();
            let v = number(&m.get()) + 1;
            m.set(&v.to_le_bytes());
        }
        assert!(item.get_mut(MANA, mana_id).is_none(), "a component for reading is not writable");
        assert!(item.get_mut_ptr(mana_id).is_none());
        assert_eq!(item.get(MANA, mana_id).map(number), Some(50));
        assert_eq!(item.get_ptr(mana_id).map(number), Some(50));
    }

    assert_eq!(get(&world, a, HP), Some(101));
    assert_eq!(get(&world, a, MANA), Some(50));
    let texts: Vec<String> = world.take_anomalies().iter().map(|x| x.text()).collect();
    assert_eq!(texts.len(), 2);
    assert_eq!(
        texts[0],
        "DynItemMut::get_mut::<tests::Mana> on entity 0:0 — component id ComponentId(1) is not in the query's declared writes — mutation refused (declare it via write/write_id/write_name)"
    );
    assert!(texts[1].starts_with("DynItemMut::get_mut_ptr::<tests::Mana>"));
}

#[test]
fn dyn_write_marks_changed() {
    let mut world = World::new();
    let e = spawn(&mut world, vec![num(HP, 1)]);
    let hp_id = world.component_id_by_name("tests::Hp").unwrap();

    world.tick();
    let lr: Tick = world.current_tick();
    world.tick();

    let changed = |w: &World| Query::new_with_tick(w, Shape::Component(Role::Changed, HP), lr).len();
    assert_eq!(changed(&world), 0);

    {
        let mut q = world.query_builder_mut().write_id(hp_id).build().ok().unwrap();
        for_each_mut(&mut q, HP, hp_id, |_| 42);
    }
    assert_eq!(changed(&world), 1);
    assert_eq!(get(&world, e, HP), Some(42));
}

#[test]
fn dyn_write_aliased_is_loud() {
    let mut world = World::new();
    spawn(&mut world, vec![num(HP, 1)]);
    let hp_id = world.component_id_by_name("tests::Hp").unwrap();
    let err =
        world.query_builder_mut().write_id(hp_id).write_id(hp_id).build().err().unwrap();
    assert_eq!(err, DynQueryError::AliasedWrite(hp_id));
    assert_eq!(
        err.text(),
        "dynamic query: component id ComponentId(0) is written more than once — that would alias one row's data (write each component at most once)"
    );
}

#[test]
fn dyn_write_unknown_name_is_loud() {
    let mut world = World::new();
    spawn(&mut world, vec![num(HP, 1)]);
    let err = world.query_builder_mut().write_name("nope::Nope").build().err().unwrap();
    assert_eq!(err, DynQueryError::UnknownComponent("nope::Nope".into()));
}

#[test]
fn dyn_write_read_build_rejects_write_terms() {
    let mut world = World::new();
    spawn(&mut world, vec![num(HP, 1)]);
    let err = world.query_builder().write(HP).build().err().unwrap();
    assert_eq!(err, DynQueryError::WriteNotSupported);
}

#[test]
fn dyn_write_get_mut_point_lookup_and_filter() {
    let mut world = World::new();
    let big = spawn(&mut world, vec![num(HP, 100), boss()]);
    let mob = spawn(&mut world, vec![num(HP, 10)]);
    let hp_id = world.component_id_by_name("tests::Hp").unwrap();

    {
        let mut q = world.query_builder_mut().write_id(hp_id).with(BOSS).build().ok().unwrap();
        {
            let mut item = q.get_mut(big).unwrap();
            item.get_mut(HP, hp_id).unwrap().set(&7u32.to_le_bytes());
        }
        assert!(q.get_mut(mob).is_none());
        assert_eq!(q.archetype_ids().len(), 1);
        assert!(!q.is_empty());
    }
    assert_eq!(get(&world, big, HP), Some(7));
    assert_eq!(get(&world, mob, HP), Some(10));
}

#[test]
fn dyn_write_mixed_read_and_write_terms() {
    let mut world = World::new();
    let e = spawn(&mut world, vec![num(HP, 3), num(MANA, 10)]);
    let hp_id = world.component_id_by_name("tests::Hp").unwrap();
    let mana_id = world.component_id_by_name("tests::Mana").unwrap();

    {
        let mut q = world.query_builder_mut().read_id(hp_id).write_id(mana_id).build().ok().unwrap();
        for e in q.entities() {
            let mut item = q.get_mut(e).unwrap();
            let hp = number(item.get(HP, hp_id).unwrap());
            let mut m = item.get_mut(MANA, mana_id).unwrap();
            let v = number(&m.get()) * hp;
            m.set(&v.to_le_bytes());
        }
    }
    assert_eq!(get(&world, e, MANA), Some(30));
}

#[test]
fn matching_archetypes_go_by_components_alone() {
    let mut world = World::new();
    let e = spawn(&mut world, vec![num(HP, 1)]);
    let all = world.query_builder().read(HP).matching_archetype_ids();
    assert_eq!(all.len(), 1);
    let q = world.query_builder().read(HP).with_any_relation(Likes);
    assert_eq!(q.matching_archetype_ids(), all, "relations are looked at for each entity");
    let q = q.build().ok().unwrap();
    assert_eq!(q.count(), 0);
    assert!(q.get(e).is_none());
}
