use apex_core::commands::insert_ladder::{
    apply_rung, apply_rung_name, arena_bytes, direct_insert, fresh_commands, queue_len,
    record_rung, record_rung_name, warmed_commands, APPLY_COPY_COMPLETE, APPLY_REAL,
    RECORD_COPY_COMPLETE, RECORD_REAL,
};
use apex_core::entity::Entity;
use apex_core::registry::ComponentDesc;
use apex_core::world::{Bundle, BundlePart, World};

const A: u64 = 100;
const B: u64 = 101;

fn desc(key: u64) -> ComponentDesc {
    let name = if key == A { "tests::A" } else { "tests::B" };
    ComponentDesc { key, name: name.to_string(), size: 4, align: 4, needs_drop: false, requires: Vec::new() }
}

fn part(key: u64, v: f32) -> BundlePart {
    BundlePart { desc: desc(key), value: v.to_le_bytes().to_vec() }
}

fn world_with(n: usize) -> (World, Vec<Entity>) {
    let mut world = World::new();
    let entities = (0..n).map(|_| world.spawn(&Bundle { parts: vec![part(A, 0.0)] })).collect();
    (world, entities)
}

fn items(n: usize) -> Vec<BundlePart> {
    (0..n).map(|i| part(B, i as f32)).collect()
}

fn same(w1: &World, e1: &[Entity], w2: &World, e2: &[Entity]) {
    assert_eq!(w1.entity_count(), w2.entity_count(), "live count");
    for (i, (&a, &b)) in e1.iter().zip(e2.iter()).enumerate() {
        let la = w1.location(a).expect("a location is lost");
        let lb = w2.location(b).expect("a location is lost");
        assert_eq!(la.archetype_id.0, lb.archetype_id.0, "entity {i}: archetype");
        assert_eq!(la.row, lb.row, "entity {i}: row");
        assert_eq!(w1.get_by_key(a, B), w2.get_by_key(b, B), "entity {i}: inserted value");
        assert_eq!(w1.get_by_key(a, A), w2.get_by_key(b, A), "entity {i}: carried value");
    }
}

#[test]
fn commands_ladder_copy_matches_the_real_path() {
    const N: usize = 128;

    let (mut w_copy, e_copy) = world_with(N);
    let mut c_copy = fresh_commands();
    record_rung(&mut c_copy, &e_copy, RECORD_COPY_COMPLETE, items(N));
    apply_rung(&mut c_copy, &mut w_copy, APPLY_COPY_COMPLETE);

    let (mut w_real, e_real) = world_with(N);
    let mut c_real = fresh_commands();
    record_rung(&mut c_real, &e_real, RECORD_REAL, items(N));
    apply_rung(&mut c_real, &mut w_real, APPLY_REAL);

    same(&w_copy, &e_copy, &w_real, &e_real);
}

#[test]
fn every_rung_leaves_a_consistent_world() {
    for rec in 0..=RECORD_REAL {
        for app in 0..=APPLY_REAL {
            let (mut w, entities) = world_with(16);
            let mut c = fresh_commands();
            record_rung(&mut c, &entities, rec, items(16));
            apply_rung(&mut c, &mut w, app);
            for &e in &entities {
                assert!(w.get_by_key(e, A).is_some(), "rec {rec} / app {app}: A lost");
            }
            let inserted = entities.iter().filter(|&&e| w.get_by_key(e, B).is_some()).count();
            let expect_all = rec >= RECORD_COPY_COMPLETE && app >= APPLY_COPY_COMPLETE;
            assert_eq!(
                inserted,
                if expect_all { entities.len() } else { 0 },
                "rec {rec} ({}) / app {app} ({}): inserted count",
                record_rung_name(rec),
                apply_rung_name(app)
            );
        }
    }
}

#[test]
fn the_direct_arm_lands_where_the_deferred_one_does() {
    const N: usize = 64;
    let (mut w_direct, e_direct) = world_with(N);
    direct_insert(&mut w_direct, &e_direct, items(N));

    let (mut w_def, e_def) = world_with(N);
    let mut c = fresh_commands();
    record_rung(&mut c, &e_def, RECORD_REAL, items(N));
    apply_rung(&mut c, &mut w_def, APPLY_REAL);

    same(&w_direct, &e_direct, &w_def, &e_def);
}

#[test]
fn warmed_commands_have_room_and_no_commands() {
    let (mut w, entities) = world_with(8);
    let c = warmed_commands(&mut w, &entities, items(8));
    assert_eq!(queue_len(&c), 0);
    assert!(arena_bytes(&c) >= 32);
    assert_eq!(w.get_by_key(entities[3], B), Some(3.0f32.to_le_bytes().as_slice()));
}

#[test]
fn rungs_have_names() {
    assert_eq!(record_rung_name(0), "payload ctor only");
    assert_eq!(record_rung_name(RECORD_REAL), "real Commands::insert");
    assert_eq!(apply_rung_name(2), "+component id resolve");
    assert_eq!(apply_rung_name(APPLY_REAL), "real Commands::apply");
}
