use apex_core::access::AccessDescriptor;
use apex_core::component::{ComponentId, ComponentSerdeError, Tick};
use apex_core::entity::Entity;
use apex_core::error::{Anomaly, AnomalyCounts, ErrorHandler, ErrorMode, Response, Severity};
use apex_core::fn_system::short_system_name;
use apex_core::json::{json_merge, Json};
use apex_core::par_utils::{combined_rows, compute_par_chunks, par_split_run_ranges, split_half};
use apex_core::registry::{
    ComponentDesc, ComponentHooks, ComponentRegistry, ComponentSerdeFns, RequiredDesc, SerdeFormat,
    FLAG_ON_ADD, FLAG_REQUIRES,
};
use apex_core::relations::HookEvent;
use apex_core::resources::{ResourceSerdeFns, Resources};
use apex_core::world::{Bundle, BundlePart, World};

const C: u64 = 100;
const GRAVITY: u64 = 200;
const SCORE: u64 = 201;

fn desc(key: u64, name: &str, size: usize) -> ComponentDesc {
    ComponentDesc { key, name: name.to_string(), size, align: 1, needs_drop: false, requires: Vec::new() }
}

fn c(v: u8) -> BundlePart {
    BundlePart { desc: desc(C, "tests::C", 1), value: vec![v] }
}

/// An entity that is spawned and despawned.
fn dead_entity(world: &mut World) -> Entity {
    let e = world.spawn(&Bundle { parts: vec![c(1)] });
    world.despawn(e);
    e
}

fn insert(world: &mut World, e: Entity, v: u8) -> bool {
    world.insert(e, &desc(C, "tests::C", 1), vec![v])
}

#[test]
fn lazy_register_applies_required_components_without_linkme() {
    const HOST: u64 = 300;
    const REQ: u64 = 301;
    let host = ComponentDesc {
        key: HOST,
        name: "tests::Host".to_string(),
        size: 0,
        align: 1,
        needs_drop: false,
        requires: vec![RequiredDesc { component: desc(REQ, "tests::Req", 0), default: Vec::new() }],
    };

    let mut reg = ComponentRegistry::new();
    let host_id = reg.register(&host);

    assert!(
        reg.requirements_of(host_id).is_some_and(|r| r.len() == 1),
        "registering a type registers what it requires"
    );
    assert!(reg.get_id_by_type(REQ).is_some(), "the required type is registered");
    assert_eq!(reg.flags(host_id) & FLAG_REQUIRES, FLAG_REQUIRES);

    // Registering again does not require it twice.
    reg.register(&host);
    assert_eq!(reg.requirements_of(host_id).map(|r| r.len()), Some(1));
}

#[test]
fn counts_every_hit_even_when_log_is_throttled() {
    let mut world = World::new();
    let e = dead_entity(&mut world);
    insert(&mut world, e, 2);
    insert(&mut world, e, 3);
    assert_eq!(world.error_handler().counts().warn, 2);
    assert_eq!(world.error_handler().counts().total(), 2);

    // Only the first one of a call site is logged.
    let anomalies = world.take_anomalies();
    let mut throttle = false;
    let handler = world.error_handler();
    assert!(matches!(handler.respond(&anomalies[0], &mut throttle), Response::Log(Severity::Warn, _)));
    assert!(matches!(handler.respond(&anomalies[1], &mut throttle), Response::Nothing));
}

#[test]
fn silent_mode_counts_without_logging() {
    let mut world = World::new();
    world.set_error_mode(ErrorMode::Silent);
    let e = dead_entity(&mut world);
    insert(&mut world, e, 2);
    assert_eq!(world.error_handler().counts().warn, 1);
    let anomalies = world.take_anomalies();
    let mut throttle = false;
    assert!(matches!(world.error_handler().respond(&anomalies[0], &mut throttle), Response::Nothing));
}

#[test]
#[should_panic(expected = "World::insert")]
fn panic_mode_turns_a_conscious_drop_into_a_panic() {
    let mut world = World::new();
    world.set_error_mode(ErrorMode::Panic);
    let e = dead_entity(&mut world);
    insert(&mut world, e, 2);
    let anomalies = world.take_anomalies();
    let mut throttle = false;
    if let Response::Panic(text) = world.error_handler().respond(&anomalies[0], &mut throttle) {
        panic!("{}", text);
    }
}

#[test]
fn custom_mode_receives_structured_context() {
    let mut world = World::new();
    world.set_error_mode(ErrorMode::Custom(77));
    let e = dead_entity(&mut world);
    insert(&mut world, e, 2);

    let anomalies = world.take_anomalies();
    let mut throttle = false;
    assert!(matches!(world.error_handler().respond(&anomalies[0], &mut throttle), Response::Call(77)));
    assert_eq!(anomalies[0].op, "World::insert");
    assert_eq!(anomalies[0].entity.map(|x| x.index()), Some(e.index()));
    assert_eq!(world.error_handler().counts().warn, 1);
}

#[test]
fn reset_counts_clears_the_tally() {
    let mut world = World::new();
    world.set_error_mode(ErrorMode::Silent);
    let e = dead_entity(&mut world);
    insert(&mut world, e, 2);
    assert_eq!(world.error_handler().counts().total(), 1);
    world.reset_error_counts();
    assert_eq!(world.error_handler().counts().total(), 0);
}

#[test]
fn mode_is_read_from_a_setting() {
    let mode = |s: Option<&str>| ErrorHandler::from_setting(s).mode();
    assert_eq!(mode(None), ErrorMode::Warn);
    assert_eq!(mode(Some("panic")), ErrorMode::Panic);
    assert_eq!(mode(Some(" \t PaNiC \n")), ErrorMode::Panic);
    assert_eq!(mode(Some("\u{2003}silent\u{a0}")), ErrorMode::Silent);
    assert_eq!(mode(Some("panics")), ErrorMode::Warn);
    assert_eq!(mode(Some("")), ErrorMode::Warn);
    assert_eq!(ErrorMode::Custom(3).text(), "Custom(..)");
    assert_eq!(ErrorMode::Panic.text(), "Panic");
}

#[test]
fn anomalies_as_text() {
    let mut a = Anomaly {
        severity: Severity::Error,
        op: "World::f",
        entity: None,
        component: None,
        detail: "why".to_string(),
    };
    assert_eq!(a.text(), "World::f — why");
    a.component = Some("m::T".to_string());
    a.entity = Some(Entity::from_raw_parts(12, 34));
    assert_eq!(a.text(), "World::f::<m::T> on entity 12:34 — why");

    let mut h = ErrorHandler::new(ErrorMode::Warn);
    let mut throttle = false;
    assert!(matches!(h.report(&a, &mut throttle), Response::Log(Severity::Error, _)));
    assert!(matches!(h.report(&a, &mut throttle), Response::Nothing));
    assert_eq!(h.counts(), AnomalyCounts { warn: 0, error: 2 });
}

#[test]
fn insert_get() {
    let mut map: Resources<f32> = Resources::new();
    map.insert(GRAVITY, 9.8, Tick(1));
    assert_eq!(*map.get(GRAVITY), 9.8);
}

#[test]
fn get_mut() {
    let mut map: Resources<u32> = Resources::new();
    map.insert(SCORE, 0, Tick(1));
    *map.get_mut(SCORE, Tick(2)) += 10;
    assert_eq!(*map.get(SCORE), 10);
}

#[test]
fn try_get_missing() {
    let map: Resources<f32> = Resources::new();
    assert!(map.try_get(GRAVITY).is_none());
}

#[test]
fn remove() {
    let mut map: Resources<u32> = Resources::new();
    map.insert(SCORE, 42, Tick(1));
    assert!(map.contains(SCORE));
    map.remove(SCORE);
    assert!(!map.contains(SCORE));
}

#[test]
fn get_raw_parts() {
    let mut map: Resources<u32> = Resources::new();
    map.insert(SCORE, 10, Tick(1));
    *map.try_get_mut(SCORE, Tick(7)).unwrap() = 99;
    assert_eq!(*map.get(SCORE), 99);
    assert_eq!(map.changed_tick(SCORE), Some(Tick(7)));
}

#[test]
fn insert_stamps_tick() {
    let mut map: Resources<u32> = Resources::new();
    map.insert(SCORE, 1, Tick(5));
    assert_eq!(map.changed_tick(SCORE), Some(Tick(5)));
    assert_eq!(map.changed_tick(GRAVITY), None);
}

#[test]
fn get_mut_stamps_tick_only_when_present() {
    let mut map: Resources<u32> = Resources::new();
    map.insert(SCORE, 1, Tick(1));
    let _ = map.try_get_mut(SCORE, Tick(9));
    assert_eq!(map.changed_tick(SCORE), Some(Tick(9)));
    assert!(map.try_get_mut(GRAVITY, Tick(9)).is_none());
    assert_eq!(map.changed_tick(GRAVITY), None);
}

#[test]
fn shared_read_does_not_stamp() {
    let mut map: Resources<u32> = Resources::new();
    map.insert(SCORE, 1, Tick(3));
    let _ = map.get(SCORE);
    let _ = map.try_get(SCORE);
    assert_eq!(map.changed_tick(SCORE), Some(Tick(3)));
}

#[test]
fn reflect_by_full_and_short_name() {
    const INVENTORY: u64 = 210;
    let full = "game::items::Inventory";
    let mut map: Resources<Vec<String>> = Resources::new();
    map.register_reflect(INVENTORY, full.to_string(), 5);
    map.insert(INVENTORY, vec!["sword".to_string()], Tick(1));
    for name in [full, "Inventory"] {
        let key = map.reflect_by_name(name).expect("resolved");
        assert_eq!(map.reflect_of(key).unwrap().to_json, 5);
        assert_eq!(map.try_get(key).expect("present")[0], "sword");
    }
    assert!(map.reflect_by_name("NoSuch").is_none());
}

#[test]
fn reflect_absent_resource_is_none() {
    const INVENTORY: u64 = 210;
    let mut map: Resources<Vec<String>> = Resources::new();
    map.register_reflect(INVENTORY, "game::items::Inventory".to_string(), 5);
    let key = map.reflect_by_name("Inventory").expect("registered");
    assert!(map.try_get(key).is_none(), "registered but not inserted");
}

#[test]
fn resources_are_saved_and_restored_by_name() {
    let mut map: Resources<u32> = Resources::new();
    let fns = ResourceSerdeFns { name: "game::Score".to_string(), serialize: 1, deserialize: 2 };
    map.register_serde(SCORE, fns);
    assert_eq!(map.snapshot_serde(), Vec::<u64>::new());
    map.insert(SCORE, 4, Tick(1));
    assert_eq!(map.snapshot_serde(), vec![SCORE]);
    assert_eq!(map.serde_by_name("game::Score"), Some(SCORE));
    assert_eq!(map.restore_serde("game::Score", Ok(9), Tick(6)), Ok(true));
    assert_eq!(*map.get(SCORE), 9);
    assert_eq!(map.changed_tick(SCORE), Some(Tick(6)));
    assert_eq!(map.restore_serde("game::Lives", Ok(9), Tick(6)), Ok(false));
    assert!(map.restore_serde("game::Score", Err("bad".to_string()), Tick(7)).is_err());
    assert_eq!(*map.get(SCORE), 9);
    assert_eq!(map.len(), 1);
    map.check_change_ticks(Tick(0x5000_0006));
    assert_eq!(map.changed_tick(SCORE), Some(Tick(0x1000_0006)));
}

#[test]
fn registry_numbers_and_names() {
    let mut reg = ComponentRegistry::new();
    assert!(reg.is_empty());
    let a = reg.register(&desc(1, "one::Pos", 4));
    let b = reg.register(&desc(2, "two::Pos", 8));
    let v = reg.register(&desc(3, "two::Vel", 2));
    assert_eq!([a, b, v], [ComponentId(0), ComponentId(1), ComponentId(2)]);
    assert_eq!(reg.register(&desc(1, "one::Pos", 4)), a);
    assert_eq!(reg.len(), 3);
    assert_eq!(reg.get_id_by_type(2), Some(b));
    assert_eq!(reg.get_id_by_type(9), None);
    assert_eq!(reg.get_info(v).unwrap().name, "two::Vel");
    assert!(reg.get_info(ComponentId(7)).is_none());
    assert_eq!(reg.find_by_name("one::Pos").unwrap().id, a);
    assert_eq!(reg.find_by_name("Vel").unwrap().id, v);
    assert_eq!(
        reg.find_by_name("Pos").map(|i| i.id).unwrap_err(),
        "component name 'Pos' is ambiguous ('one::Pos' vs 'two::Pos') — use the full type name"
    );
    assert_eq!(
        reg.find_by_name("Acc").map(|i| i.id).unwrap_err(),
        "component 'Acc' is not registered"
    );
    assert_eq!(reg.iter().len(), 3);
}

#[test]
fn registry_flags_hooks_and_serialization() {
    let mut reg = ComponentRegistry::new();
    let a = reg.register(&desc(1, "one::Pos", 4));
    assert!(!reg.any_flags());
    reg.set_flag(a, FLAG_ON_ADD);
    assert!(reg.any_flags());
    assert_eq!(reg.flags(a), FLAG_ON_ADD);
    assert_eq!(reg.flags(ComponentId(50)), 0);
    assert!(reg.hooks(a).is_none());
    reg.set_hooks(a, ComponentHooks { on_add: Some(4), on_remove: None, emit_removed: None });
    assert_eq!(reg.hooks(a).unwrap().on_add, Some(4));
    assert!(reg.iter_serializable().is_empty());
    let fns = ComponentSerdeFns { serialize_fn: 1, deserialize_fn: 2, format: SerdeFormat::Json };
    assert_eq!(reg.register_serde(&desc(1, "one::Pos", 4), fns), a);
    assert_eq!(reg.iter_serializable(), vec![a]);
    assert!(!reg.any_map_entities());
    reg.set_map_entities(a, 8);
    assert!(reg.any_map_entities());
    assert_eq!(reg.get_info(a).unwrap().map_entities, Some(8));
}

#[test]
fn serialization_errors_as_text() {
    assert_eq!(
        ComponentSerdeError::SerializationFailed("x".to_string()).text(),
        "serialize failed: x"
    );
    assert_eq!(
        ComponentSerdeError::DeserializationFailed("y".to_string()).text(),
        "deserialize failed: y"
    );
    assert_eq!(
        ComponentSerdeError::FormatMismatch { expected: "json" }.text(),
        "format mismatch, expected json"
    );
}

#[test]
fn access_conflicts_follow_borrowing() {
    let reader = AccessDescriptor::new().read(1).read(2).read(1);
    let other_reader = AccessDescriptor::new().read(2);
    let writer = AccessDescriptor::new().write(2);
    assert_eq!(reader.reads, vec![1, 2]);
    assert!(!reader.conflicts_with(&other_reader));
    assert!(reader.conflicts_with(&writer));
    assert!(writer.conflicts_with(&reader));
    assert!(writer.conflicts_with(&AccessDescriptor::new().write(2)));
    assert!(!writer.conflicts_with(&AccessDescriptor::new().write(3)));
    assert!(AccessDescriptor::new().is_empty());
}

#[test]
fn access_merges_without_repetition() {
    let mut a = AccessDescriptor::new();
    for k in 0..12 {
        a = a.read(k);
    }
    let b = AccessDescriptor::new()
        .read(5)
        .read(50)
        .write(7)
        .read_event(1, "E")
        .event_reserve(1, 10)
        .whole_world()
        .commands_used();
    let m = a.event_reserve(1, 4).merge(&b).merge(&b);
    assert_eq!(m.reads, (0..12).chain([50]).collect::<Vec<u64>>());
    assert_eq!(m.writes, vec![7]);
    assert_eq!(m.reads_event, vec![(1, "E")]);
    assert_eq!(m.event_reserves, vec![(1, 10)]);
    assert!(m.needs_whole_world && m.uses_commands);
    assert!(!m.uses_par_for_each && !m.writes_resource && !m.stateful);
}

#[test]
fn chunks_cover_each_archetype() {
    let out = compute_par_chunks(&[(3, 10, 4), (5, 0, 4), (9, 2, 8)]);
    assert_eq!(out.as_slice(), &[(3, 0, 4), (3, 4, 8), (3, 8, 10), (9, 0, 2)]);
}

#[test]
fn rows_are_halved_across_archetypes() {
    let items = [(1usize, 0usize, 6usize), (2, 5, 9)];
    assert_eq!(combined_rows(&items), 10);
    let (left, right) = split_half(&items);
    assert_eq!(left.as_slice(), &[(1, 0, 5)]);
    assert_eq!(right.as_slice(), &[(1, 5, 6), (2, 5, 9)]);
    let mut leaves = Vec::new();
    par_split_run_ranges(&items, 3, &mut leaves);
    let mut rows = Vec::new();
    for leaf in &leaves {
        assert!(combined_rows(leaf.as_slice()) <= 3);
        for &(a, s, e) in leaf.as_slice() {
            rows.extend((s..e).map(|r| (a, r)));
        }
    }
    let expected: Vec<(usize, usize)> =
        (0..6).map(|r| (1, r)).chain((5..9).map(|r| (2, r))).collect();
    assert_eq!(rows, expected);
}

#[test]
fn system_names_lose_their_path() {
    assert_eq!(short_system_name("game::systems::movement"), "movement");
    assert_eq!(short_system_name("movement"), "movement");
    assert_eq!(
        short_system_name("game::run<core::option::Option<game::Hp>>"),
        "run<core::option::Option<game::Hp>>"
    );
}

fn num(s: &str) -> Json {
    Json::Number(s.to_string())
}

fn obj(entries: Vec<(&str, Json)>) -> Json {
    Json::Object(entries.into_iter().map(|(k, v)| (k.to_string(), v)).collect())
}

fn show(j: &Json) -> String {
    match j {
        Json::Null => "null".to_string(),
        Json::Bool(b) => format!("{b}"),
        Json::Number(n) => n.clone(),
        Json::Text(t) => format!("\"{t}\""),
        Json::List(v) => format!("[{}]", v.iter().map(show).collect::<Vec<_>>().join(",")),
        Json::Object(v) => format!(
            "{{{}}}",
            v.iter().map(|(k, x)| format!("{k}:{}", show(x))).collect::<Vec<_>>().join(",")
        ),
    }
}

#[test]
fn json_objects_merge_name_by_name() {
    let mut base = obj(vec![
        ("pos", obj(vec![("x", num("1")), ("y", num("2"))])),
        ("tags", Json::List(vec![num("1"), num("2")])),
        ("name", Json::Text("a".to_string())),
    ]);
    let overlay = obj(vec![
        ("pos", obj(vec![("y", num("5")), ("z", Json::Null)])),
        ("tags", Json::List(vec![num("9")])),
        ("on", Json::Bool(true)),
    ]);
    json_merge(&mut base, &overlay);
    assert_eq!(show(&base), "{pos:{x:1,y:5,z:null},tags:[9],name:\"a\",on:true}");
    json_merge(&mut base, &num("3"));
    assert_eq!(show(&base), "3");
    json_merge(&mut base, &obj(vec![]));
    assert_eq!(show(&base), "{}");
}

#[test]
fn event_writers_conflict_with_readers_and_writers() {
    let w = AccessDescriptor::new().write_event(7, "Hit");
    let r = AccessDescriptor::new().read_event(7, "Hit");
    assert!(w.conflicts_with(&w.clone()), "two writers of one event type");
    assert!(w.conflicts_with(&r) && r.conflicts_with(&w), "a writer and a reader");
    assert!(!r.conflicts_with(&r.clone()), "two readers");
    assert!(!w.conflicts_with(&AccessDescriptor::new().write_event(8, "Miss")));
    assert!(!w.conflicts_with(&AccessDescriptor::new().write(7)), "a component is no event");
    let both = AccessDescriptor::new().read(1).merge(&w);
    assert!(both.conflicts_with(&r));
    let copy = both.clone().event_reserve(7, 64);
    assert_eq!(copy.reads, vec![1]);
    assert_eq!(copy.clone().event_reserves, vec![(7, 64)]);
    assert!(!both.conflicts_with(&AccessDescriptor::default()));
}

#[test]
fn ranges_are_cut_at_half() {
    let items = [(0usize, 0usize, 4usize), (1, 0, 3)];
    let mut leaves = Vec::new();
    par_split_run_ranges(&items, 4, &mut leaves);
    let calls: Vec<(usize, usize, usize)> =
        leaves.iter().flat_map(|l| l.as_slice().to_vec()).collect();
    assert_eq!(calls, vec![(0, 0, 3), (0, 3, 4), (1, 0, 3)]);

    let mut one = Vec::new();
    par_split_run_ranges(&items, 7, &mut one);
    assert_eq!(one.len(), 1);
    assert_eq!(one[0].as_slice(), &items);
}

const HOST: u64 = 310;
const ARMOR: u64 = 311;
const WEIGHT: u64 = 312;

/// A host requires armor, and armor has a weight.
fn host_desc() -> ComponentDesc {
    let weight = desc(WEIGHT, "tests::Weight", 1);
    let armor = ComponentDesc {
        requires: vec![RequiredDesc { component: weight, default: vec![5] }],
        ..desc(ARMOR, "tests::Armor", 2)
    };
    ComponentDesc {
        requires: vec![RequiredDesc { component: armor, default: vec![1, 2] }],
        ..desc(HOST, "tests::Host", 1)
    }
}

#[test]
fn required_components_come_along() {
    let mut world = World::new();
    let host = BundlePart { desc: host_desc(), value: vec![9] };
    let e = world.spawn(&Bundle { parts: vec![host] });
    assert_eq!(world.get_by_key(e, HOST), Some(&[9u8][..]));
    assert_eq!(world.get_by_key(e, ARMOR), Some(&[1u8, 2][..]), "the default");
    assert_eq!(world.get_by_key(e, WEIGHT), Some(&[5u8][..]), "what the required one requires");

    let f = world.spawn(&Bundle { parts: vec![c(1)] });
    assert!(world.insert(f, &host_desc(), vec![8]));
    assert_eq!(world.get_by_key(f, ARMOR), Some(&[1u8, 2][..]));
    assert_eq!(world.get_by_key(f, WEIGHT), Some(&[5u8][..]));
    assert_eq!(world.get_by_key(f, C), Some(&[1u8][..]));

    // What was removed does not come back when the host is written again.
    assert!(world.remove(f, ARMOR));
    assert!(world.insert(f, &host_desc(), vec![7]));
    assert_eq!(world.get_by_key(f, ARMOR), None);
}

#[test]
fn given_values_win_over_defaults() {
    let mut world = World::new();
    let armor = || BundlePart { desc: desc(ARMOR, "tests::Armor", 2), value: vec![7, 7] };
    let host = || BundlePart { desc: host_desc(), value: vec![9] };
    let e = world.spawn(&Bundle { parts: vec![host(), armor()] });
    assert_eq!(world.get_by_key(e, ARMOR), Some(&[7u8, 7][..]));
    assert_eq!(world.get_by_key(e, WEIGHT), Some(&[5u8][..]));
    let f = world.spawn(&Bundle { parts: vec![armor(), host()] });
    assert_eq!(world.get_by_key(f, ARMOR), Some(&[7u8, 7][..]));

    let g = world.spawn(&Bundle { parts: vec![armor()] });
    assert!(world.insert(g, &host_desc(), vec![1]));
    assert_eq!(world.get_by_key(g, ARMOR), Some(&[7u8, 7][..]), "what is there stays");
}

#[test]
fn requirements_can_be_declared_later() {
    let mut world = World::new();
    let e = world.spawn(&Bundle { parts: vec![c(1)] });
    world.require_component(&desc(C, "tests::C", 1), &desc(WEIGHT, "tests::Weight", 1), vec![3]);
    assert_eq!(world.get_by_key(e, WEIGHT), None, "only where it appears");
    let f = world.spawn(&Bundle { parts: vec![c(2)] });
    assert_eq!(world.get_by_key(f, WEIGHT), Some(&[3u8][..]));
}

#[test]
fn a_default_of_another_size_is_refused() {
    let mut world = World::new();
    let host = ComponentDesc {
        requires: vec![RequiredDesc {
            component: desc(WEIGHT, "tests::Weight", 1),
            default: vec![1, 2, 3],
        }],
        ..desc(HOST, "tests::Host", 1)
    };
    let bundle = Bundle { parts: vec![BundlePart { desc: host, value: vec![9] }] };
    assert!(!world.bundle_suits(&bundle));
    assert_eq!(world.try_spawn(&bundle), None);
}

#[test]
fn component_hooks_are_queued() {
    let mut world = World::new();
    let id = world.register_component(&desc(C, "tests::C", 1));
    let armor = world.register_component(&desc(ARMOR, "tests::Armor", 2));
    let hooks = ComponentHooks { on_add: Some(1), on_remove: Some(2), emit_removed: None };
    world.set_component_hooks(id, hooks);
    let track = ComponentHooks { on_add: None, on_remove: None, emit_removed: Some(3) };
    world.set_component_hooks(armor, track);
    assert_eq!(world.registry().hooks(id).unwrap().on_add, Some(1));

    let e = world.spawn(&Bundle { parts: vec![c(1)] });
    insert(&mut world, e, 2);
    let added = HookEvent::ComponentAdded { component: id.0, entity: e };
    assert_eq!(world.take_hooks(), vec![added], "once: a component that is there does not appear");
    assert!(world.insert(e, &desc(ARMOR, "tests::Armor", 2), vec![0, 0]));
    assert!(world.remove(e, C));
    assert!(!world.remove(e, C));
    let gone = HookEvent::ComponentRemoved { component: id.0, entity: e };
    assert_eq!(world.take_hooks(), vec![gone]);
    world.despawn(e);
    let lost = HookEvent::ComponentRemoved { component: armor.0, entity: e };
    assert_eq!(world.take_hooks(), vec![lost]);
    assert!(world.take_hooks().is_empty());
}

#[test]
fn settings_are_trimmed() {
    for pad in [" ", "\t\n", "\u{85}", "\u{a0}", "\u{1680}", "\u{2003}", "\u{3000}"] {
        let text = format!("{pad}PANIC{pad}");
        assert!(matches!(ErrorHandler::from_setting(Some(&text)).mode(), ErrorMode::Panic));
    }
    assert!(matches!(ErrorHandler::from_setting(Some("\u{200b}panic")).mode(), ErrorMode::Warn));
}
