use std::collections::{HashMap, HashSet};
use std::sync::Arc;

use apex_core::arena::CommandArena;
use apex_core::commands::insert_ladder::command_bytes;
use apex_core::commands::{report_template_missing, Commands, Deferred};
use apex_core::component::ComponentId;
use apex_core::entity::Entity;
use apex_core::query::Query;
use apex_core::registry::{ComponentDesc, ComponentHooks};
use apex_core::relations::{ChildOf, HookEvent, Likes};
use apex_core::shape::{Role, Shape};
use apex_core::world::{Bundle, BundlePart, World};

const POS: u64 = 100;
const VEL: u64 = 101;
const ACC: u64 = 102;
const HP: u64 = 103;
const ALIGNED: u64 = 104;
const HOLDER: u64 = 105;

fn holder() -> ComponentDesc {
    ComponentDesc {
        key: HOLDER,
        name: "tests::Holder".to_string(),
        size: 8,
        align: 8,
        needs_drop: true,
        requires: Vec::new(),
    }
}

/// Values that own something, by the number under which a world keeps them.
#[derive(Default)]
struct Holders {
    kept: HashMap<u64, Arc<()>>,
    made: u64,
}

impl Holders {
    fn value(&mut self, probe: &Arc<()>) -> Vec<u8> {
        self.made += 1;
        self.kept.insert(self.made, probe.clone());
        self.made.to_le_bytes().to_vec()
    }

    fn bundle(&mut self, probe: &Arc<()>) -> Bundle {
        Bundle { parts: vec![BundlePart { desc: holder(), value: self.value(probe) }] }
    }

    /// Drops what the world gave up, which each comes once.
    fn dispose(&mut self, world: &mut World) {
        for d in world.take_discarded() {
            assert_eq!(d.key, HOLDER);
            let number = u64::from_le_bytes(d.value.try_into().unwrap());
            assert!(self.kept.remove(&number).is_some(), "a value is given up once");
        }
    }
}

fn desc(key: u64) -> ComponentDesc {
    let (name, size, align) = match key {
        POS => ("tests::Pos", 4, 4),
        VEL => ("tests::Vel", 4, 4),
        ACC => ("tests::Acc", 4, 4),
        HP => ("tests::Hp", 4, 4),
        _ => ("tests::Aligned16", 16, 16),
    };
    ComponentDesc { key, name: name.to_string(), size, align, needs_drop: false, requires: Vec::new() }
}

fn bytes(v: f32) -> Vec<u8> {
    v.to_le_bytes().to_vec()
}

fn number(b: &[u8]) -> f32 {
    f32::from_le_bytes([b[0], b[1], b[2], b[3]])
}

fn aligned(v: [f32; 4]) -> Vec<u8> {
    v.iter().flat_map(|x| x.to_le_bytes()).collect()
}

fn part(key: u64, v: f32) -> BundlePart {
    BundlePart { desc: desc(key), value: bytes(v) }
}

fn one(key: u64, v: f32) -> Bundle {
    Bundle { parts: vec![part(key, v)] }
}

fn value(world: &World, e: Entity, key: u64) -> Option<f32> {
    world.get_by_key(e, key).map(number)
}

fn all_values(world: &World, key: u64) -> Vec<f32> {
    let q = Query::new(world, Shape::Component(Role::Read, key));
    let mut out = Vec::new();
    let mut it = q.iter();
    while let Some(item) = it.next() {
        out.push(number(item.values[0].unwrap()));
    }
    out
}

fn apply(cmds: &mut Commands, world: &mut World) {
    assert!(cmds.apply(world).is_none());
}

#[test]
fn commands_spawn_entity() {
    let mut world = World::new();
    let mut cmds = Commands::new();

    cmds.spawn(&mut world, one(POS, 1.0));
    assert_eq!(cmds.len(), 1);
    apply(&mut cmds, &mut world);
    assert_eq!(cmds.len(), 0);

    assert_eq!(all_values(&world, POS), vec![1.0]);
}

#[test]
fn commands_spawn_id_is_real_entity_and_alive_after_apply() {
    let mut world = World::new();
    let mut cmds = Commands::new();
    cmds.set_reserver(world.entity_reserver());
    assert!(cmds.has_reserver());

    let e = cmds.spawn(&mut world, one(POS, 7.0)).id();
    assert_ne!(e, Entity::placeholder());
    assert!(!world.is_alive(e), "a reserved entity is not alive before the commands are applied");

    apply(&mut cmds, &mut world);
    assert!(world.is_alive(e));
    assert_eq!(value(&world, e, POS), Some(7.0));
}

#[test]
fn dropped_commands_reservations_are_reclaimed() {
    let mut world = World::new();
    {
        let mut cmds = Commands::new();
        cmds.set_reserver(world.entity_reserver());
        let a = cmds.spawn(&mut world, one(POS, 1.0)).id();
        let b = cmds.spawn(&mut world, one(POS, 2.0)).id();
        let c = cmds.spawn(&mut world, one(POS, 3.0)).id();
        assert_eq!([a.index, b.index, c.index], [0, 1, 2]);
        // What is not applied gives its reservations back before it goes.
        cmds.clear(&mut world);
    }
    world.flush_reserved();

    let mut cmds2 = Commands::new();
    cmds2.set_reserver(world.entity_reserver());
    let reused: HashSet<u32> =
        (0..3).map(|i| cmds2.spawn(&mut world, one(POS, i as f32)).id().index).collect();
    assert_eq!(reused, [0, 1, 2].into_iter().collect());
    apply(&mut cmds2, &mut world);
    assert_eq!(world.entity_count(), 3, "only the applied entities are alive");
}

#[test]
fn cleared_commands_reservations_are_reclaimed() {
    let mut world = World::new();
    let mut cmds = Commands::new();
    cmds.set_reserver(world.entity_reserver());
    let a = cmds.spawn(&mut world, one(POS, 1.0)).id();
    let b = cmds.spawn(&mut world, one(POS, 2.0)).id();
    assert_eq!([a.index, b.index], [0, 1]);
    cmds.clear(&mut world);
    world.flush_reserved();

    let c = cmds.spawn(&mut world, one(POS, 9.0)).id();
    assert!(c.index < 2, "a cleared reservation is reused");
}

#[test]
fn entity_commands_with_children_wires_childof() {
    let mut world = World::new();
    let mut cmds = Commands::new();
    cmds.set_reserver(world.entity_reserver());

    let spawned = cmds.spawn(&mut world, one(POS, 0.0));
    let parent = spawned.id();
    let mut children = spawned.child_spawner();
    children.spawn(&mut world, one(VEL, 1.0));
    children.spawn(&mut world, one(VEL, 2.0));
    apply(&mut cmds, &mut world);

    let kids: Vec<Entity> = world.targets_of(ChildOf, parent);
    assert_eq!(kids.len(), 2, "both children are linked to the parent");
    for k in kids {
        assert!(value(&world, k, VEL).is_some(), "the child carries its own component");
        assert_eq!(world.target_of(k, ChildOf), Some(parent));
    }
}

#[test]
fn spawn_batch_reserves_distinct_ids_and_applies() {
    let mut world = World::new();
    let mut cmds = Commands::new();
    cmds.set_reserver(world.entity_reserver());

    let ids = cmds.spawn_batch(&mut world, (0..100).map(|i| one(POS, i as f32)).collect());
    assert_eq!(ids.len(), 100);
    let uniq: HashSet<_> = ids.iter().collect();
    assert_eq!(uniq.len(), 100, "the ids of a batch are unique");
    assert!(ids.iter().all(|&e| e != Entity::placeholder()));

    apply(&mut cmds, &mut world);
    for (i, &e) in ids.iter().enumerate() {
        assert!(world.is_alive(e), "entity {i} is alive");
        assert_eq!(value(&world, e, POS), Some(i as f32));
    }
}

#[test]
fn entity_commands_reparent_existing_entities() {
    let mut world = World::new();
    let parent = world.spawn(&one(POS, 0.0));
    let a = world.spawn(&one(VEL, 1.0));
    let b = world.spawn(&one(VEL, 2.0));

    let mut cmds = Commands::new();
    cmds.set_reserver(world.entity_reserver());

    cmds.entity(parent).add_children(&[a, b]);
    apply(&mut cmds, &mut world);
    assert_eq!(world.target_of(a, ChildOf), Some(parent));
    assert_eq!(world.target_of(b, ChildOf), Some(parent));

    cmds.entity(a).remove_parent();
    apply(&mut cmds, &mut world);
    assert_eq!(world.target_of(a, ChildOf), None);

    cmds.entity(parent).clear_children();
    apply(&mut cmds, &mut world);
    assert_eq!(world.target_of(b, ChildOf), None);
    assert!(world.is_alive(b), "clearing the children does not despawn them");
}

#[test]
fn commands_insert_and_remove_component() {
    let mut world = World::new();
    let entity = world.spawn(&one(POS, 0.0));

    let mut cmds = Commands::new();
    cmds.insert(entity, desc(VEL), &bytes(5.0));
    apply(&mut cmds, &mut world);
    assert_eq!(value(&world, entity, VEL), Some(5.0));

    cmds.remove(entity, VEL);
    apply(&mut cmds, &mut world);
    assert!(value(&world, entity, VEL).is_none());
}

#[test]
fn commands_despawn_entity() {
    let mut world = World::new();
    let entity = world.spawn(&one(POS, 0.0));

    let mut cmds = Commands::new();
    cmds.despawn(entity);
    apply(&mut cmds, &mut world);

    assert!(value(&world, entity, POS).is_none());
}

#[test]
fn commands_insert_raw_and_remove_raw() {
    let mut world = World::new();
    let vel_id = world.register_component(&desc(VEL));
    let entity = world.spawn(&one(POS, 0.0));

    let mut cmds = Commands::new();
    let tick = world.current_tick();
    cmds.insert_raw(entity, vel_id, bytes(7.0), tick);
    apply(&mut cmds, &mut world);
    assert_eq!(value(&world, entity, VEL), Some(7.0));

    cmds.remove_raw(entity, vel_id);
    apply(&mut cmds, &mut world);
    assert!(value(&world, entity, VEL).is_none());
}

#[test]
fn commands_apply_clears_queue() {
    let mut world = World::new();
    let mut cmds = Commands::new();

    cmds.spawn(&mut world, one(POS, 0.0));
    cmds.spawn(&mut world, one(POS, 1.0));
    assert_eq!(cmds.len(), 2);

    apply(&mut cmds, &mut world);
    assert_eq!(cmds.len(), 0);
    assert!(cmds.is_empty());
}

#[test]
fn commands_clear_drops_without_apply() {
    let mut world = World::new();
    let mut cmds = Commands::new();
    cmds.spawn(&mut world, one(POS, 1.0));
    cmds.spawn(&mut world, one(POS, 2.0));
    assert_eq!(cmds.len(), 2);

    cmds.clear(&mut world);
    assert_eq!(cmds.len(), 0);
    assert!(cmds.is_empty());
}

/// Applies all commands; what is handed out is carried out by `run`.
fn apply_with(cmds: &mut Commands, world: &mut World, run: impl Fn(&mut World, Deferred)) {
    while let Some(next) = cmds.apply(world) {
        run(world, next);
    }
}

#[test]
fn commands_spawn_from_template() {
    let mut world = World::new();
    let mut cmds = Commands::new();
    cmds.spawn_template("test");
    apply_with(&mut cmds, &mut world, |w, d| match d {
        Deferred::Template { name, .. } => {
            assert_eq!(name, "test");
            w.spawn(&one(POS, 99.0));
        }
        _ => unreachable!(),
    });
    assert_eq!(all_values(&world, POS), vec![99.0]);
}

#[test]
fn commands_spawn_from_template_with_params() {
    let mut world = World::new();
    world.register_component(&desc(POS));
    let mut cmds = Commands::new();
    cmds.spawn_template_with("param_test", 42);
    apply_with(&mut cmds, &mut world, |w, d| match d {
        Deferred::Template { name, params } => {
            assert_eq!(name, "param_test");
            w.spawn(&one(POS, params as f32));
        }
        _ => unreachable!(),
    });
    assert_eq!(all_values(&world, POS), vec![42.0]);
}

#[test]
fn commands_custom_add_fn() {
    let mut world = World::new();
    let mut cmds = Commands::new();
    cmds.add(5);
    apply_with(&mut cmds, &mut world, |w, d| match d {
        Deferred::Apply(handle) => {
            assert_eq!(handle, 5);
            w.insert_resource(POS, bytes(100.0));
        }
        _ => unreachable!(),
    });
    assert_eq!(number(world.resources().get(POS)), 100.0);
}

#[test]
fn commands_empty_apply_noop() {
    let mut world = World::new();
    let mut cmds = Commands::new();
    apply(&mut cmds, &mut world);
    assert!(cmds.is_empty());
}

#[test]
fn commands_with_capacity() {
    let cmds = Commands::with_capacity(1000);
    assert_eq!(cmds.len(), 0);
    assert!(cmds.is_empty());
}

#[test]
fn commands_multiple_spawns() {
    let mut world = World::new();
    let mut cmds = Commands::new();

    for i in 0..100 {
        cmds.spawn(&mut world, one(POS, i as f32));
    }
    apply(&mut cmds, &mut world);

    let mut values = all_values(&world, POS);
    values.sort_by(|a, b| a.partial_cmp(b).unwrap());
    assert_eq!(values.len(), 100);
    assert_eq!(values[0], 0.0);
    assert_eq!(values[99], 99.0);
}

#[test]
fn commands_arena_reuse() {
    let mut world = World::new();
    let mut cmds = Commands::new();

    for _ in 0..10 {
        cmds.spawn(&mut world, one(POS, 1.0));
    }
    apply(&mut cmds, &mut world);
    assert_eq!(cmds.len(), 0);

    for _ in 0..10 {
        cmds.spawn(&mut world, one(POS, 2.0));
    }
    apply(&mut cmds, &mut world);
    assert_eq!(cmds.len(), 0);

    assert_eq!(all_values(&world, POS).len(), 20);
}

#[test]
fn commands_insert_burst_grouped_single_move() {
    let mut world = World::new();
    let entity = world.spawn(&one(POS, 0.0));

    let mut cmds = Commands::new();
    cmds.insert(entity, desc(VEL), &bytes(1.0));
    cmds.insert(entity, desc(ACC), &bytes(2.0));
    cmds.insert(entity, desc(HP), &bytes(3.0));
    let archetypes = world.archetype_count();
    apply(&mut cmds, &mut world);

    assert_eq!(value(&world, entity, VEL), Some(1.0));
    assert_eq!(value(&world, entity, ACC), Some(2.0));
    assert_eq!(value(&world, entity, HP), Some(3.0));
    assert_eq!(value(&world, entity, POS), Some(0.0), "the old component survived the move");
    assert_eq!(world.archetype_count(), archetypes + 1, "the entity moved once");
}

#[test]
fn commands_insert_burst_duplicate_last_wins() {
    let mut world = World::new();
    let entity = world.spawn(&one(POS, 0.0));

    let mut cmds = Commands::new();
    cmds.insert(entity, desc(VEL), &bytes(1.0));
    cmds.insert(entity, desc(VEL), &bytes(2.0));
    cmds.insert(entity, desc(ACC), &bytes(9.0));
    apply(&mut cmds, &mut world);

    assert_eq!(value(&world, entity, VEL), Some(2.0));
    assert_eq!(value(&world, entity, ACC), Some(9.0));
}

#[test]
fn commands_insert_burst_dead_entity_drops_payloads() {
    let mut holders = Holders::default();
    let mut world = World::new();
    let entity = world.spawn(&one(POS, 0.0));
    world.despawn(entity);

    let probe = Arc::new(());
    let mut cmds = Commands::new();
    cmds.insert(entity, holder(), &holders.value(&probe));
    cmds.insert(entity, holder(), &holders.value(&probe));
    assert_eq!(Arc::strong_count(&probe), 3);
    apply(&mut cmds, &mut world);
    holders.dispose(&mut world);

    assert_eq!(Arc::strong_count(&probe), 1, "the dead entity's payloads were dropped");
    assert_eq!(world.entity_count(), 0);
    assert_eq!(world.error_handler().counts().total(), 2, "each dropped payload is reported");
    let texts: Vec<String> = world.take_anomalies().iter().map(|a| a.text()).collect();
    assert_eq!(texts.len(), 2);
    assert!(texts[0].starts_with("World::insert::<tests::Holder> on entity 0:0"), "{}", texts[0]);
}

#[test]
fn commands_insert_burst_then_despawn_order_preserved() {
    let mut world = World::new();
    let entity = world.spawn(&one(POS, 0.0));

    let mut cmds = Commands::new();
    cmds.insert(entity, desc(VEL), &bytes(1.0));
    cmds.insert(entity, desc(ACC), &bytes(2.0));
    cmds.despawn(entity);
    apply(&mut cmds, &mut world);

    assert!(value(&world, entity, POS).is_none(), "the despawn came after the burst");
    assert!(!world.is_alive(entity));
}

#[test]
fn commands_insert_overwrite_drops_old_value() {
    let mut holders = Holders::default();
    let probe = Arc::new(());
    let mut world = World::new();
    let entity = world.spawn(&holders.bundle(&probe));
    holders.dispose(&mut world);
    assert_eq!(Arc::strong_count(&probe), 2);

    // A single insert over an existing one.
    world.insert(entity, &holder(), holders.value(&probe));
    holders.dispose(&mut world);
    assert_eq!(Arc::strong_count(&probe), 2, "the old value was dropped (single path)");

    // A burst with a duplicate over an existing one.
    let mut cmds = Commands::new();
    cmds.insert(entity, holder(), &holders.value(&probe));
    cmds.insert(entity, holder(), &holders.value(&probe));
    apply(&mut cmds, &mut world);
    holders.dispose(&mut world);
    assert_eq!(Arc::strong_count(&probe), 2, "the group path drops the overwritten ones");
    assert_eq!(world.get_by_key(entity, HOLDER).unwrap(), 4u64.to_le_bytes(), "the last one stays");

    world.despawn(entity);
    holders.dispose(&mut world);
    assert_eq!(Arc::strong_count(&probe), 1);
}

#[test]
fn removed_values_are_disposed_of() {
    let mut holders = Holders::default();
    let probe = Arc::new(());
    let mut world = World::new();
    let e = world.spawn(&holders.bundle(&probe));
    world.insert(e, &desc(POS), bytes(1.0));
    assert!(world.remove(e, POS));
    holders.dispose(&mut world);
    assert_eq!(Arc::strong_count(&probe), 2, "plain values need no disposal");
    assert!(world.remove(e, HOLDER));
    holders.dispose(&mut world);
    assert_eq!(Arc::strong_count(&probe), 1);
    assert!(!world.remove(e, HOLDER));
    assert!(world.take_discarded().is_empty());
}

#[test]
fn cleared_payloads_are_disposed_of() {
    let mut holders = Holders::default();
    let probe = Arc::new(());
    let mut world = World::new();
    let e = world.spawn(&one(POS, 0.0));
    let mut cmds = Commands::new();
    cmds.insert(e, holder(), &holders.value(&probe));
    let bundle = holders.bundle(&probe);
    cmds.spawn(&mut world, bundle);
    cmds.clear(&mut world);
    holders.dispose(&mut world);
    assert_eq!(Arc::strong_count(&probe), 1);
    apply(&mut cmds, &mut world);
    assert_eq!(world.entity_count(), 1);
}

#[test]
fn commands_preserves_tick() {
    let mut world = World::new();
    let mut cmds = Commands::new();

    let entity = world.spawn(&one(POS, 0.0));
    let before = world.current_tick();

    cmds.insert(entity, desc(VEL), &bytes(5.0));
    apply(&mut cmds, &mut world);

    assert_eq!(value(&world, entity, VEL), Some(5.0));
    assert_eq!(world.current_tick(), before);
}

#[test]
fn arena_honors_payload_alignment_over_eight() {
    let mut arena = CommandArena::new();
    let _o0 = arena.store(&[0xAB], 1);
    let payload = aligned([1.0, 2.0, 3.0, 4.0]);
    let o16 = arena.store(&payload, 16);
    assert_eq!(o16 % 16, 0, "the payload stands at an aligned offset");
    assert_eq!(arena.align() % 16, 0, "and the buffer is aligned as strictly");
    assert_eq!(arena.get(o16, 16), payload.as_slice());
}

#[test]
fn arena_alignment_growth_preserves_earlier_payloads() {
    let mut arena = CommandArena::new();
    let first = 0x0102_0304_0506_0708u64.to_le_bytes();
    let o_a = arena.store(&first, 8);
    let payload = aligned([9.0, 8.0, 7.0, 6.0]);
    let o_b = arena.store(&payload, 16);
    assert_eq!(o_a % 8, 0);
    assert_eq!(o_b % 16, 0);
    assert_eq!(arena.get(o_a, 8), first.as_slice());
    assert_eq!(arena.get(o_b, 16), payload.as_slice());
}

#[test]
fn commands_spawn_and_insert_over_aligned_component() {
    let mut world = World::new();
    let mut cmds = Commands::new();
    cmds.set_reserver(world.entity_reserver());

    let big = aligned([1.0, 2.0, 3.0, 4.0]);
    let bundle = Bundle {
        parts: vec![part(POS, 1.0), BundlePart { desc: desc(ALIGNED), value: big.clone() }],
    };
    let e = cmds.spawn(&mut world, bundle).id();
    apply(&mut cmds, &mut world);
    assert_eq!(world.get_by_key(e, ALIGNED), Some(big.as_slice()));

    let e2 = world.spawn(&one(VEL, 0.0));
    let other = aligned([5.0, 6.0, 7.0, 8.0]);
    cmds.insert(e2, desc(ALIGNED), &other);
    apply(&mut cmds, &mut world);
    assert_eq!(world.get_by_key(e2, ALIGNED), Some(other.as_slice()));
}

#[test]
fn relations_can_be_queued() {
    let mut world = World::new();
    let a = world.spawn(&one(POS, 0.0));
    let b = world.spawn(&one(POS, 1.0));
    let c = world.spawn(&one(POS, 2.0));
    let mut cmds = Commands::new();
    cmds.add_relation(a, Likes, c);
    cmds.add_relation_batch(vec![b], Likes, c);
    apply(&mut cmds, &mut world);
    assert_eq!(world.targets_of(Likes, c), vec![a, b]);
    cmds.remove_relation(a, Likes, c);
    cmds.entity(b).set_parent(c);
    apply(&mut cmds, &mut world);
    assert_eq!(world.targets_of(Likes, c), vec![b]);
    assert_eq!(world.target_of(b, ChildOf), Some(c));
    cmds.insert_resource(HP, bytes(3.0));
    cmds.entity(c).despawn();
    apply(&mut cmds, &mut world);
    assert_eq!(number(world.resources().get(HP)), 3.0);
    assert!(!world.is_alive(b), "children go with their parent");
    assert!(world.is_alive(a));
}

#[test]
fn commands_behind_a_handed_out_one_wait() {
    let mut world = World::new();
    let e = world.spawn(&one(POS, 0.0));
    let mut cmds = Commands::new();
    cmds.insert(e, desc(VEL), &bytes(1.0));
    cmds.add(9);
    cmds.insert(e, desc(ACC), &bytes(2.0));
    match cmds.apply(&mut world) {
        Some(Deferred::Apply(h)) => assert_eq!(h, 9),
        _ => unreachable!(),
    }
    assert_eq!(value(&world, e, VEL), Some(1.0));
    assert_eq!(value(&world, e, ACC), None);
    assert_eq!(cmds.len(), 1);
    apply(&mut cmds, &mut world);
    assert_eq!(value(&world, e, ACC), Some(2.0));
    assert_eq!(world.registry().get_id_by_type(POS), Some(ComponentId(0)));
}

#[test]
fn arena_grows_and_is_reset() {
    let mut arena = CommandArena::new();
    assert_eq!(arena.capacity(), 0);
    let mut offsets = Vec::new();
    for i in 0..100u8 {
        offsets.push(arena.store(&[i; 8], 8));
    }
    for (i, o) in offsets.iter().enumerate() {
        assert_eq!(arena.get(*o, 8), [i as u8; 8].as_slice());
    }
    assert!(arena.capacity() >= 800);
    assert_eq!(arena.cursor(), 800);
    arena.reset();
    assert_eq!(arena.cursor(), 0);
    assert!(arena.capacity() >= 800, "the buffer is kept");
}

#[test]
fn unknown_templates_are_reported() {
    let mut world = World::new();
    let mut cmds = Commands::new();
    cmds.spawn_template("nobody");
    apply_with(&mut cmds, &mut world, |w, d| match d {
        Deferred::Template { name, .. } => report_template_missing(w, &name),
        _ => unreachable!(),
    });
    assert_eq!(world.entity_count(), 0);
    let texts: Vec<String> = world.take_anomalies().iter().map(|a| a.text()).collect();
    assert_eq!(
        texts,
        vec!["Commands::spawn_template — no template registered under name \"nobody\"; nothing spawned"]
    );
}

#[test]
fn despawning_a_dead_entity_is_reported() {
    let mut world = World::new();
    let e = world.spawn(&one(POS, 0.0));
    let mut cmds = Commands::new();
    cmds.despawn(e);
    cmds.despawn(e);
    apply(&mut cmds, &mut world);
    let texts: Vec<String> = world.take_anomalies().iter().map(|a| a.text()).collect();
    assert_eq!(texts, vec!["Commands::despawn on entity 0:0 — no-op (already despawned?)"]);
}

#[test]
fn commands_know_what_they_may_use_up() {
    let mut world = World::new();
    let mut cmds = Commands::new();
    assert_eq!(cmds.cost(), Some(0));
    let e = world.spawn(&one(POS, 0.0));
    cmds.spawn(&mut world, Bundle { parts: vec![part(POS, 1.0), part(VEL, 2.0)] });
    cmds.insert(e, desc(HP), &bytes(1.0));
    cmds.add_relation_batch(vec![e, e], Likes, e);
    cmds.despawn(e);
    assert_eq!(cmds.cost(), Some(3 + 2 + 3 + 1));
    assert!(world.has_room(1000));
    assert!(!world.has_room(u32::MAX as usize));
}

#[test]
fn bundles_that_disagree_are_not_spawned() {
    let mut world = World::new();
    assert!(world.try_spawn(&one(POS, 1.0)).is_some());
    let mut short = one(POS, 1.0);
    short.parts[0].value.pop();
    assert!(!world.bundle_suits(&short));
    assert!(world.try_spawn(&short).is_none(), "the value has another size than its type");
    let mut other = one(POS, 1.0);
    other.parts[0].desc.size = 8;
    other.parts[0].value = vec![0; 8];
    assert!(world.try_spawn(&other).is_none(), "the type is registered with another size");
    let mut twice = Bundle { parts: vec![part(VEL, 1.0), part(VEL, 2.0)] };
    assert!(world.bundle_suits(&twice));
    twice.parts[1].desc.size = 0;
    twice.parts[1].value.clear();
    assert!(!world.bundle_suits(&twice), "two descriptions of one type disagree");
    assert_eq!(world.entity_count(), 1);
}

#[test]
fn going_on_does_not_flush_again() {
    let mut world = World::new();
    let e = world.spawn(&one(POS, 1.0));
    let mut cmds = Commands::new();
    cmds.despawn(e);
    cmds.add(1);
    assert!(matches!(cmds.apply(&mut world), Some(Deferred::Apply(1))));
    // What runs in between reserves the slot that was given up.
    let reserver = world.entity_reserver();
    let mut inner = Commands::new();
    inner.set_reserver(reserver);
    let reserved = inner.spawn(&mut world, one(VEL, 2.0)).id();
    assert!(!world.is_alive(reserved));
    apply(&mut cmds, &mut world);
    assert!(!world.is_alive(reserved), "going on leaves the reservation as it is");
    apply(&mut inner, &mut world);
    assert!(world.is_alive(reserved), "the next start makes it good");
    assert_eq!(value(&world, reserved, VEL), Some(2.0));
}

#[test]
fn hooks_run_between_commands() {
    let mut world = World::new();
    let e = world.spawn(&one(POS, 0.0));
    let kind_idx = world.register_relation_kind::<Likes>();
    world.set_relation_on_add(kind_idx, 1);
    let other = world.spawn(&one(POS, 0.0));
    let mut cmds = Commands::new();
    cmds.add_relation(e, Likes, other);
    cmds.insert(e, desc(HP), &bytes(2.0));
    assert!(matches!(cmds.apply(&mut world), Some(Deferred::Hooks)));
    assert_eq!(value(&world, e, HP), None, "the hook comes before the next command");
    let due = world.take_hooks();
    assert_eq!(due, vec![HookEvent::RelationAdded { kind_idx, subject: e, target: other }]);
    world.insert(e, &desc(HP), bytes(1.0));
    apply(&mut cmds, &mut world);
    assert_eq!(value(&world, e, HP), Some(2.0), "the command has the last word");
}

fn with_hook(world: &mut World, key: u64) -> ComponentId {
    let id = world.register_component(&desc(key));
    let hooks = ComponentHooks { on_add: Some(1), on_remove: None, emit_removed: None };
    world.set_component_hooks(id, hooks);
    id
}

#[test]
fn component_hooks_run_behind_the_group() {
    let mut world = World::new();
    let id = with_hook(&mut world, HP);
    let e = world.spawn(&one(POS, 0.0));
    let other = world.spawn(&one(POS, 0.0));
    let archetypes = world.archetype_count();
    let mut cmds = Commands::new();
    cmds.insert(e, desc(HP), &bytes(1.0));
    cmds.insert(e, desc(VEL), &bytes(2.0));
    cmds.insert(other, desc(VEL), &bytes(3.0));
    assert!(matches!(cmds.apply(&mut world), Some(Deferred::Hooks)));
    assert_eq!(value(&world, e, HP), Some(1.0));
    assert_eq!(value(&world, e, VEL), Some(2.0), "a burst on one entity is one operation");
    assert_eq!(world.archetype_count(), archetypes + 1, "and one move");
    assert_eq!(value(&world, other, VEL), None, "the hook comes before the next operation");
    let due = world.take_hooks();
    assert_eq!(due, vec![HookEvent::ComponentAdded { component: id.0, entity: e }]);
    apply(&mut cmds, &mut world);
    assert_eq!(value(&world, other, VEL), Some(3.0));
}

#[test]
fn component_hooks_run_behind_the_batch() {
    let mut world = World::new();
    let id = with_hook(&mut world, HP);
    let mut cmds = Commands::new();
    cmds.spawn(&mut world, one(HP, 1.0));
    cmds.spawn(&mut world, one(HP, 2.0));
    cmds.spawn(&mut world, one(POS, 3.0));
    assert!(matches!(cmds.apply(&mut world), Some(Deferred::Hooks)));
    assert_eq!(all_values(&world, HP), vec![1.0, 2.0], "spawns of one kind are one operation");
    assert_eq!(all_values(&world, POS), Vec::<f32>::new());
    let due = world.take_hooks();
    assert_eq!(due.len(), 2);
    assert!(due.iter().all(
        |h| matches!(h, HookEvent::ComponentAdded { component, .. } if *component == id.0)
    ));
    apply(&mut cmds, &mut world);
    assert_eq!(all_values(&world, POS), vec![3.0]);
}

#[test]
fn hooked_orphans_are_handed_out() {
    let mut world = World::new();
    let parent = world.spawn(&one(POS, 0.0));
    let child = world.spawn(&one(POS, 1.0));
    world.add_relation(child, ChildOf, parent);
    let mut cmds = Commands::new();
    cmds.entity(parent).clear_children();
    let kind_idx = world.register_relation_kind::<ChildOf>();
    world.set_relation_on_remove(kind_idx, 3);
    match cmds.apply(&mut world) {
        Some(Deferred::Orphans { parent: p, children }) => {
            assert_eq!(p, parent);
            assert_eq!(children, vec![child]);
        }
        _ => panic!("the children are handed out"),
    }
    assert!(world.has_relation(child, ChildOf, parent));
    world.remove_relation(child, ChildOf, parent);
    assert_eq!(
        world.take_hooks(),
        vec![HookEvent::RelationRemoved { kind_idx, subject: child, target: parent }]
    );
    apply(&mut cmds, &mut world);
}

#[test]
fn hooks_come_in_one_queue() {
    let mut world = World::new();
    let id = world.register_component(&desc(HP));
    world.set_component_hooks(
        id,
        ComponentHooks { on_add: Some(1), on_remove: Some(2), emit_removed: None },
    );
    let kind_idx = world.register_relation_kind::<Likes>();
    world.set_relation_on_add(kind_idx, 1);
    let a = world.spawn(&one(POS, 0.0));
    let b = world.spawn(&one(POS, 0.0));
    assert!(!world.hooks_due());
    world.insert(a, &desc(HP), bytes(1.0));
    world.add_relation(a, Likes, b);
    world.remove(a, HP);
    assert!(world.hooks_due());
    assert_eq!(
        world.take_hooks(),
        vec![
            HookEvent::ComponentAdded { component: id.0, entity: a },
            HookEvent::RelationAdded { kind_idx, subject: a, target: b },
            HookEvent::ComponentRemoved { component: id.0, entity: a },
        ]
    );
    assert!(!world.hooks_due());
}

#[test]
fn commands_take_room_in_the_queue() {
    assert!(command_bytes() > 0);
}

#[test]
fn entities_lie_where_their_components_say() {
    let mut world = World::new();
    let a = world.spawn(&one(POS, 0.0));
    let b = world.spawn(&one(POS, 1.0));
    let at = world.location(a).unwrap();
    assert_eq!(world.location(b).unwrap().archetype_id, at.archetype_id);
    let before = world.archetype_count();
    world.insert(a, &desc(VEL), bytes(1.0));
    assert_eq!(world.archetype_count(), before + 1);
    assert_ne!(world.location(a).unwrap().archetype_id, at.archetype_id);
    assert_eq!(world.location(b).unwrap().row, at.row, "the last row fills the gap");
    world.remove(a, VEL);
    assert_eq!(world.archetype_count(), before + 1, "no archetype goes");
    assert_eq!(world.location(a).unwrap().archetype_id, at.archetype_id);
    world.despawn(b);
    assert!(world.location(b).is_none());
    assert_eq!(world.location(a).unwrap().row, at.row);
}
