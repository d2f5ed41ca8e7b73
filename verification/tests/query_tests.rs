use apex_core::component::{ComponentId, Tick};
use apex_core::entity::Entity;
use apex_core::query::{assert_no_self_alias, find_self_alias, Query, QuerySingleError, Single};
use apex_core::registry::ComponentDesc;
use apex_core::shape::{Role, Shape};
use apex_core::world::{Bundle, BundlePart, World};

const HP: u64 = 100;
const MANA: u64 = 101;
const BOSS: u64 = 102;
const A: u64 = 103;
const B: u64 = 104;
const POS: u64 = 105;
const MARKER2: u64 = 106;
const CC: u64 = 107;
const DD: u64 = 108;
const NEVER: u64 = 999;

fn desc(key: u64) -> ComponentDesc {
    let (name, size) = match key {
        HP => ("tests::Hp", 4),
        MANA => ("tests::Mana", 4),
        BOSS => ("tests::Boss", 0),
        A => ("tests::A", 0),
        B => ("tests::B", 0),
        POS => ("tests::Pos", 4),
        MARKER2 => ("tests::Marker2", 4),
        CC => ("tests::C", 4),
        _ => ("tests::D", 4),
    };
    ComponentDesc {
        key,
        name: name.to_string(),
        size,
        align: if size == 0 { 1 } else { 4 },
        needs_drop: false,
        requires: Vec::new(),
    }
}

fn num(key: u64, v: u32) -> BundlePart {
    BundlePart { desc: desc(key), value: v.to_le_bytes().to_vec() }
}

fn tag(key: u64) -> BundlePart {
    BundlePart { desc: desc(key), value: Vec::new() }
}

fn spawn(world: &mut World, parts: Vec<BundlePart>) -> Entity {
    world.spawn(&Bundle { parts })
}

fn number(b: &[u8]) -> u32 {
    u32::from_le_bytes([b[0], b[1], b[2], b[3]])
}

fn read(key: u64) -> Shape {
    Shape::Component(Role::Read, key)
}

fn write(key: u64) -> Shape {
    Shape::Component(Role::Write, key)
}

fn role(role: Role, key: u64) -> Shape {
    Shape::Component(role, key)
}

fn all(parts: Vec<Shape>) -> Shape {
    Shape::All(parts)
}

fn entities(q: &Query) -> Vec<Entity> {
    let mut out = Vec::new();
    let mut it = q.iter();
    while let Some(item) = it.next() {
        out.push(item.entity);
    }
    out
}

fn count(q: &Query) -> usize {
    entities(q).len()
}

fn values(q: &Query) -> Vec<u32> {
    let mut out = Vec::new();
    let mut it = q.iter();
    while let Some(item) = it.next() {
        out.push(number(item.values[0].unwrap()));
    }
    out
}

fn id(world: &World, key: u64) -> ComponentId {
    world.registry().get_id_by_type(key).unwrap()
}

fn get(world: &World, e: Entity, key: u64) -> Option<u32> {
    world.get_by_key(e, key).map(number)
}

/// Changes a component through what the world opens for writing.
fn change(world: &mut World, e: Entity, key: u64, f: impl Fn(u32) -> u32) {
    let id = id(world, key);
    let mut m = world.get_mut(e, id).unwrap();
    let v = f(number(&m.get()));
    m.set(&v.to_le_bytes());
}

/// Changes a component of every match.
fn for_each_mut(world: &mut World, key: u64, f: impl Fn(Entity, u32) -> u32) {
    let es = entities(&Query::new(world, write(key)));
    for e in es {
        change(world, e, key, |v| f(e, v));
    }
}

/// Starts a new run and tells when the last one was.
fn advance(world: &mut World) -> Tick {
    let last = world.current_tick();
    world.tick();
    last
}

fn changed(world: &World, key: u64, last_run: Tick) -> Vec<Entity> {
    entities(&Query::new_with_tick(world, role(Role::Changed, key), last_run))
}

#[test]
fn query_data_filter_form() {
    let mut world = World::new();
    let boss = spawn(&mut world, vec![num(HP, 100), num(MANA, 50), tag(BOSS)]);
    let _mob = spawn(&mut world, vec![num(HP, 10), num(MANA, 5)]);

    {
        let data = all(vec![Shape::Entity, read(HP), read(MANA)]);
        let q = Query::new(&world, all(vec![data, all(vec![role(Role::With, BOSS)])]));
        let mut it = q.iter();
        let got = it.next().unwrap();
        assert_eq!(got.entity, boss);
        assert_eq!(got.values.len(), 2, "the filter hands nothing out");
        assert_eq!(number(got.values[0].unwrap()), 100);
        assert!(it.next().is_none());
    }
    let n = count(&Query::new(&world, all(vec![read(HP), role(Role::With, BOSS)])));
    assert_eq!(n, 1);

    let lr = advance(&mut world);
    let shape = || all(vec![read(HP), role(Role::Changed, HP)]);
    assert_eq!(count(&Query::new_with_tick(&world, shape(), lr)), 0);
    change(&mut world, boss, HP, |v| v + 1);
    assert_eq!(count(&Query::new_with_tick(&world, shape(), lr)), 1);
}

#[test]
fn query_for_loop_iteration() {
    let mut world = World::new();
    spawn(&mut world, vec![num(HP, 1)]);
    spawn(&mut world, vec![num(HP, 2)]);

    let sum: u32 = values(&Query::new(&world, read(HP))).iter().sum();
    assert_eq!(sum, 3);

    for_each_mut(&mut world, HP, |_, v| v * 10);
    let total: u32 = values(&Query::new(&world, read(HP))).iter().sum();
    assert_eq!(total, 30);

    let pairs = entities(&Query::new(&world, all(vec![Shape::Entity, read(HP)])));
    assert_eq!(pairs.len(), 2);
    assert!(pairs.iter().all(|e| world.is_alive(*e)));
}

#[test]
fn a2_write_stamps_change_tick_soundly() {
    let mut world = World::new();
    let e = spawn(&mut world, vec![num(HP, 1)]);
    let f = spawn(&mut world, vec![num(HP, 2)]);
    let lr = advance(&mut world);
    assert_eq!(changed(&world, HP, lr).len(), 0);

    for_each_mut(&mut world, HP, |_, v| v + 100);
    assert_eq!(get(&world, e, HP), Some(101));
    assert_eq!(changed(&world, HP, lr).len(), 2);

    let lr2 = advance(&mut world);
    write_chunks(&mut world, HP, |v| v + 1);
    assert_eq!(get(&world, e, HP), Some(102));
    assert_eq!(get(&world, f, HP), Some(103));
    assert_eq!(changed(&world, HP, lr2).len(), 2);
}

/// Changes a component of every match, chunk by chunk.
fn write_chunks(world: &mut World, key: u64, f: impl Fn(u32) -> u32) {
    let id = id(world, key);
    let mut work: Vec<(Vec<Entity>, Vec<u8>)> = Vec::new();
    {
        let q = Query::new(world, write(key));
        for chunk in q.chunks() {
            let mut data = Vec::new();
            for piece in chunk.columns[0].unwrap().chunks(4) {
                data.extend(f(number(piece)).to_le_bytes());
            }
            work.push((chunk.entities.to_vec(), data));
        }
    }
    for (rows, data) in work {
        world.write_rows(&rows, id, 4, &data);
    }
}

#[test]
fn c2_rejects_self_aliasing_query_shapes() {
    let mut world = World::new();
    spawn(&mut world, vec![num(HP, 1), num(MANA, 2)]);
    let reg = world.registry();
    let hp = id(&world, HP);

    for shape in [
        all(vec![write(HP), write(HP)]),
        all(vec![read(HP), write(HP)]),
        all(vec![write(HP), role(Role::MaybeWrite, HP)]),
    ] {
        assert_eq!(find_self_alias(reg, &shape), Some(hp));
        let text = assert_no_self_alias(reg, &shape).unwrap();
        assert!(text.starts_with("Query aliases component `tests::Hp`: it is accessed mutably"));
        assert!(text.contains("(e.g. `Query<(&mut tests::Hp, &mut tests::Hp)>`"));
        assert!(text.ends_with("or split into separate queries."));
    }
    for shape in [
        all(vec![read(HP), read(HP)]),
        all(vec![write(HP), write(MANA)]),
        all(vec![write(HP), role(Role::With, HP)]),
        all(vec![write(HP), role(Role::Changed, HP)]),
        all(vec![write(HP), role(Role::Maybe, MANA)]),
        all(vec![write(NEVER), write(NEVER)]),
    ] {
        assert_eq!(find_self_alias(reg, &shape), None);
        assert!(assert_no_self_alias(reg, &shape).is_none());
    }
}

#[test]
fn a12_len_honors_row_filters() {
    let mut world = World::new();
    let e1 = spawn(&mut world, vec![num(HP, 1)]);
    let _e2 = spawn(&mut world, vec![num(HP, 2)]);
    let lr = advance(&mut world);
    let shape = || all(vec![read(HP), role(Role::Changed, HP)]);

    {
        let q = Query::new_with_tick(&world, shape(), lr);
        assert_eq!(q.len(), 0, "no row changed");
        assert!(q.is_empty());
    }

    change(&mut world, e1, HP, |v| v + 10);
    {
        let q = Query::new_with_tick(&world, shape(), lr);
        assert_eq!(q.len(), 1);
        assert!(!q.is_empty());
        assert_eq!(count(&q), 1, "the length agrees with the walk");
    }
    assert_eq!(Query::new(&world, read(HP)).len(), 2);
}

#[test]
fn query_single() {
    let mut world = World::new();
    assert_eq!(
        Query::new(&world, read(HP)).single().err(),
        Some(QuerySingleError::NoEntities)
    );

    let e = spawn(&mut world, vec![num(HP, 42)]);
    {
        let q = Query::new(&world, all(vec![Shape::Entity, read(HP)]));
        let item = q.single().ok().unwrap();
        assert_eq!((item.entity, number(item.values[0].unwrap())), (e, 42));
        let single = Single::of(q).ok().unwrap();
        assert_eq!(single.entity(), e);
        assert_eq!(number(single.into_inner().values[0].unwrap()), 42);
    }

    let only = Query::new(&world, write(HP)).single().ok().unwrap().entity;
    change(&mut world, only, HP, |_| 7);
    assert_eq!(get(&world, e, HP), Some(7));

    spawn(&mut world, vec![num(HP, 1)]);
    assert_eq!(
        Query::new(&world, read(HP)).single().err(),
        Some(QuerySingleError::MultipleEntities)
    );
    assert_eq!(QuerySingleError::NoEntities.text(), "Query::single: no matching entity");
    assert_eq!(
        QuerySingleError::MultipleEntities.text(),
        "Query::single: more than one matching entity"
    );
}

#[test]
fn query_get_by_entity() {
    let mut world = World::new();
    let boss = spawn(&mut world, vec![num(HP, 100), tag(BOSS)]);
    let mob = spawn(&mut world, vec![num(HP, 10)]);

    {
        let q = Query::new(&world, all(vec![read(HP), role(Role::With, BOSS)]));
        assert_eq!(number(q.get(boss).unwrap().values[0].unwrap()), 100);
        assert!(q.get(mob).is_none(), "the filter does not take it");
    }

    let lr = advance(&mut world);
    change(&mut world, mob, HP, |v| v + 1);
    {
        let q = Query::new_with_tick(&world, all(vec![read(HP), role(Role::Changed, HP)]), lr);
        assert_eq!(number(q.get(mob).unwrap().values[0].unwrap()), 11);
        assert!(q.get(boss).is_none(), "it did not change");
    }

    change(&mut world, boss, HP, |_| 1);
    assert_eq!(get(&world, boss, HP), Some(1));
}

#[test]
fn query_filter_with_chunks() {
    let mut world = World::new();
    spawn(&mut world, vec![num(HP, 1), tag(BOSS)]);
    spawn(&mut world, vec![num(HP, 2)]);

    let mut sum = 0;
    let q = Query::new(&world, all(vec![read(HP), role(Role::With, BOSS)]));
    for chunk in q.chunks() {
        sum += chunk.columns[0].unwrap().chunks(4).map(number).sum::<u32>();
    }
    assert_eq!(sum, 1, "chunks respect the filter");
}

#[test]
fn without_exclude_mask_works() {
    let mut world = World::new();
    let e1 = spawn(&mut world, vec![tag(A)]);
    let _e2 = spawn(&mut world, vec![tag(A), tag(B)]);
    let e3 = spawn(&mut world, vec![tag(B)]);

    let q = Query::new(&world, all(vec![Shape::Entity, read(A), role(Role::Without, B)]));
    assert_eq!(entities(&q), vec![e1]);
    let q = Query::new(&world, all(vec![Shape::Entity, read(B), role(Role::Without, A)]));
    assert_eq!(entities(&q), vec![e3]);
    let q = Query::new(&world, all(vec![role(Role::Without, A), role(Role::Without, B)]));
    assert!(q.is_empty());
}

#[test]
fn without_with_large_world() {
    let mut world = World::new();
    let mut only_a = Vec::new();
    let mut with_b = Vec::new();
    for _ in 0..50 {
        only_a.push(spawn(&mut world, vec![tag(A)]));
    }
    for _ in 0..50 {
        with_b.push(spawn(&mut world, vec![tag(A), tag(B)]));
    }

    let q = Query::new(&world, all(vec![Shape::Entity, read(A), role(Role::Without, B)]));
    let results = entities(&q);
    assert_eq!(results.len(), 50);
    for e in &results {
        assert!(only_a.contains(e));
        assert!(!with_b.contains(e));
    }
}

#[test]
fn write_query_marks_changed() {
    let mut world = World::new();
    let target = spawn(&mut world, vec![num(POS, 0)]);
    let _other = spawn(&mut world, vec![num(POS, 100)]);

    world.tick();
    let last_run = world.current_tick();
    world.tick();

    change(&mut world, target, POS, |v| v + 1);

    let q = Query::new_with_tick(
        &world,
        all(vec![Shape::Entity, role(Role::Changed, POS), read(POS)]),
        last_run,
    );
    assert_eq!(entities(&q), vec![target]);
}

#[test]
fn bevy_ref_syntax_query() {
    let mut world = World::new();
    let e = spawn(&mut world, vec![num(POS, 1)]);

    assert_eq!(values(&Query::new(&world, all(vec![read(POS)]))), vec![1]);
    for_each_mut(&mut world, POS, |_, v| v + 10);
    assert_eq!(get(&world, e, POS), Some(11));

    world.tick();
    let lr = world.current_tick();
    world.tick();
    for_each_mut(&mut world, POS, |_, v| v + 1);
    assert_eq!(changed(&world, POS, lr).len(), 1);
}

#[test]
fn write_query_read_only_no_change() {
    let mut world = World::new();
    let _e = spawn(&mut world, vec![num(POS, 5)]);

    world.tick();
    let last_run = world.current_tick();
    world.tick();

    assert_eq!(values(&Query::new(&world, write(POS))), vec![5]);
    assert_eq!(changed(&world, POS, last_run).len(), 0, "reading does not mark a change");
}

#[test]
fn without_alone_query() {
    let mut world = World::new();
    let _e1 = spawn(&mut world, vec![tag(A)]);
    let e2 = spawn(&mut world, vec![tag(B)]);
    let _e3 = spawn(&mut world, vec![tag(A), tag(B)]);

    let q = Query::new(&world, all(vec![Shape::Entity, role(Role::Without, A)]));
    assert_eq!(entities(&q), vec![e2]);
}

#[test]
fn maybe_optional_component_simple() {
    let mut world = World::new();
    spawn(&mut world, vec![tag(A), tag(B)]);
    spawn(&mut world, vec![tag(A), tag(B)]);
    let q = Query::new(&world, all(vec![read(A), role(Role::Maybe, B)]));
    assert_eq!(count(&q), 2);
}

fn has_second(q: &Query) -> Vec<bool> {
    let mut out = Vec::new();
    let mut it = q.iter();
    while let Some(item) = it.next() {
        out.push(item.values[1].is_some());
    }
    out
}

#[test]
fn maybe_optional_component_mixed_archetypes() {
    let mut world = World::new();
    spawn(&mut world, vec![tag(A), tag(B)]);
    spawn(&mut world, vec![tag(A)]);
    spawn(&mut world, vec![tag(B)]);

    let q = Query::new(&world, all(vec![read(A), role(Role::Maybe, B)]));
    let results = has_second(&q);
    assert_eq!(results.len(), 2);
    assert!(results[0] != results[1]);
}

#[test]
fn maybe_write_optional_mut() {
    let mut world = World::new();
    spawn(&mut world, vec![tag(A), tag(B)]);
    spawn(&mut world, vec![tag(A)]);

    let q = Query::new(&world, all(vec![read(A), role(Role::MaybeWrite, B)]));
    let results = has_second(&q);
    assert_eq!(results.len(), 2);
    assert_eq!(results.iter().filter(|b| **b).count(), 1);
}

#[test]
fn maybe_with_unregistered_component() {
    let mut world = World::new();
    spawn(&mut world, vec![tag(A)]);

    let q = Query::new(&world, role(Role::Maybe, B));
    let mut it = q.iter();
    let item = it.next().unwrap();
    assert!(item.values[0].is_none());
    assert!(it.next().is_none());
}

#[test]
fn maybe_unregistered_does_not_misalign_following_ids() {
    let mut world = World::new();
    spawn(&mut world, vec![tag(A)]);
    spawn(&mut world, vec![tag(A), tag(B)]);

    let q = Query::new(&world, all(vec![role(Role::Maybe, NEVER), read(A)]));
    assert_eq!(count(&q), 2);
}

#[test]
fn or_changed_matches_either_branch() {
    let mut world = World::new();
    let ea = spawn(&mut world, vec![num(POS, 0), tag(A)]);
    let eb = spawn(&mut world, vec![num(POS, 0), tag(B)]);
    let _ec = spawn(&mut world, vec![num(POS, 0)]);
    let em = spawn(&mut world, vec![num(POS, 0), num(MARKER2, 0)]);

    world.tick();
    let last_run = world.current_tick();
    world.tick();

    change(&mut world, ea, POS, |_| 1);
    change(&mut world, em, MARKER2, |_| 1);

    let or = Shape::Or(vec![role(Role::Changed, POS), role(Role::Changed, MARKER2)]);
    let q = Query::new_with_tick(&world, all(vec![Shape::Entity, read(POS), or]), last_run);
    let hits = entities(&q);
    assert!(hits.contains(&ea));
    assert!(hits.contains(&em));
    assert!(!hits.contains(&eb));
    assert_eq!(hits.len(), 2);
}

#[test]
fn a13_get_mut_is_lazy_about_change_detection() {
    let mut world = World::new();
    let e_read = spawn(&mut world, vec![num(POS, 5)]);
    let e_write = spawn(&mut world, vec![num(POS, 5)]);

    world.tick();
    let last_run = world.current_tick();
    world.tick();

    let pos = id(&world, POS);
    if let Some(m) = world.get_mut(e_read, pos) {
        assert_eq!(number(&m.get()), 5);
    }
    change(&mut world, e_write, POS, |_| 9);

    let hits = changed(&world, POS, last_run);
    assert!(hits.contains(&e_write));
    assert!(!hits.contains(&e_read));
}

#[test]
fn or_with_matches_archetype_union() {
    let mut world = World::new();
    let ea = spawn(&mut world, vec![num(POS, 0), tag(A)]);
    let eb = spawn(&mut world, vec![num(POS, 0), tag(B)]);
    let none = spawn(&mut world, vec![num(POS, 0)]);

    let or = Shape::Or(vec![role(Role::With, A), role(Role::With, B)]);
    let hits = entities(&Query::new(&world, all(vec![Shape::Entity, read(POS), or])));
    assert!(hits.contains(&ea) && hits.contains(&eb));
    assert!(!hits.contains(&none));
}

#[test]
fn or_with_unregistered_branch_is_dead_not_fatal() {
    let mut world = World::new();
    let ea = spawn(&mut world, vec![num(POS, 0), tag(A)]);
    let _e = spawn(&mut world, vec![num(POS, 0)]);

    let or = Shape::Or(vec![role(Role::With, NEVER), role(Role::With, A)]);
    let hits = entities(&Query::new(&world, all(vec![Shape::Entity, read(POS), or])));
    assert_eq!(hits, vec![ea]);
}

#[test]
fn or_cache_key_distinguishes_grouping() {
    let mut world = World::new();
    let _only_a = spawn(&mut world, vec![tag(A)]);
    let both = spawn(&mut world, vec![tag(A), tag(B)]);

    let strict = all(vec![
        Shape::Entity,
        Shape::Or(vec![role(Role::With, A)]),
        role(Role::With, B),
    ]);
    let union = Shape::Or(vec![role(Role::With, A), role(Role::With, B)]);
    let mut strict_key = apex_core::inline::KeyList::new();
    strict.fill_cache_key(world.registry(), &mut strict_key);
    let mut union_key = apex_core::inline::KeyList::new();
    union.fill_cache_key(world.registry(), &mut union_key);
    assert_ne!(strict_key.as_slice(), union_key.as_slice());

    let q = Query::from_world_cached(&world, strict, Tick(0));
    assert_eq!(entities(&q), vec![both]);
    let q = Query::from_world_cached(&world, union, Tick(0));
    assert_eq!(count(&q), 2);
}

#[test]
fn maybe_tuple_integration() {
    let mut world = World::new();
    let _e1 = spawn(&mut world, vec![tag(A), num(CC, 1)]);
    let _e2 = spawn(&mut world, vec![tag(B), num(DD, 2)]);

    let q = Query::new(&world, all(vec![role(Role::Maybe, A), role(Role::Maybe, CC)]));
    let mut results = Vec::new();
    let mut it = q.iter();
    while let Some(item) = it.next() {
        results.push((item.values[0].is_some(), item.values[1].is_some()));
    }
    assert_eq!(results.len(), 2);
    assert!(results[0].0 && results[0].1);
    assert!(!results[1].0 && !results[1].1);
}

#[test]
fn s1_read_write_accessor_split() {
    let mut world = World::new();
    for i in 0u32..8 {
        spawn(&mut world, vec![num(HP, i)]);
    }
    for_each_mut(&mut world, HP, |_, v| v + 100);
    for_each_mut(&mut world, HP, |_, v| v + 1000);

    let sum: u32 = values(&Query::new(&world, read(HP))).iter().sum();
    assert_eq!(sum, 28 + 8800);

    let q = Query::new(&world, read(HP));
    let mut via_rows = 0u32;
    for (place, row) in q.rows() {
        via_rows += number(q.item_at(place, row).values[0].unwrap());
    }
    assert_eq!(via_rows, sum);
}

#[test]
fn dense_chunk_iterates_all_rows() {
    let mut world = World::new();
    for i in 0..100 {
        spawn(&mut world, vec![num(POS, i), num(CC, 1)]);
    }
    for i in 0..50 {
        spawn(&mut world, vec![num(POS, i), num(CC, 2), tag(A)]);
    }

    let pos = id(&world, POS);
    let mut work: Vec<(Vec<Entity>, Vec<u8>)> = Vec::new();
    {
        let q = Query::new(&world, all(vec![read(CC), write(POS)]));
        for chunk in q.chunks() {
            let v = chunk.columns[0].unwrap();
            let p = chunk.columns[1].unwrap();
            assert_eq!(chunk.entities.len() * 4, v.len());
            assert_eq!(v.len(), p.len());
            let mut data = Vec::new();
            for i in 0..chunk.entities.len() {
                let sum = number(&p[i * 4..]) + number(&v[i * 4..]);
                data.extend(sum.to_le_bytes());
            }
            work.push((chunk.entities.to_vec(), data));
        }
    }
    let total: usize = work.iter().map(|(e, _)| e.len()).sum();
    assert_eq!(total, 150);
    for (rows, data) in work {
        world.write_rows(&rows, pos, 4, &data);
    }

    let sum: u32 = values(&Query::new(&world, read(POS))).iter().sum();
    let expected: u32 = (0..100).map(|i| i + 1).sum::<u32>() + (0..50).map(|i| i + 2).sum::<u32>();
    assert_eq!(sum, expected);
}

#[test]
fn dense_write_stamps_whole_range_changed() {
    let mut world = World::new();
    for _ in 0..10 {
        spawn(&mut world, vec![num(POS, 0)]);
    }
    world.tick();
    let last_run = world.current_tick();
    world.tick();

    // The same values are written back: all rows count as changed all the same.
    write_chunks(&mut world, POS, |v| v);
    assert_eq!(changed(&world, POS, last_run).len(), 10);
}

#[test]
fn dense_maybe_slices_per_archetype() {
    let mut world = World::new();
    spawn(&mut world, vec![num(POS, 1), num(CC, 10)]);
    spawn(&mut world, vec![num(POS, 2)]);

    let q = Query::new(&world, all(vec![read(POS), role(Role::Maybe, CC)]));
    let mut seen: Vec<(usize, bool)> = q
        .chunks()
        .iter()
        .map(|c| (c.columns[0].unwrap().len() / 4, c.columns[1].is_some()))
        .collect();
    seen.sort();
    assert_eq!(seen, vec![(1, false), (1, true)]);
}

#[test]
fn dense_par_chunk_matches_sequential() {
    let mut world = World::new();
    for i in 0..10_000 {
        spawn(&mut world, vec![num(POS, i), num(CC, 1)]);
    }
    let q = Query::new(&world, all(vec![read(CC), read(POS)]));
    let sizes = vec![256; q.listed().len()];
    let mut sum = 0u64;
    let mut rows = 0;
    for &(place, start, end) in q.par_chunks(&sizes).as_slice() {
        assert!(end - start <= 256);
        let chunk = q.chunk_at(place, start, end);
        rows += chunk.entities.len();
        for i in 0..chunk.entities.len() {
            sum += number(&chunk.columns[0].unwrap()[i * 4..]) as u64;
            sum += number(&chunk.columns[1].unwrap()[i * 4..]) as u64;
        }
    }
    assert_eq!(rows, 10_000);
    let expected: u64 = (0..10_000u64).map(|i| i + 1).sum();
    assert_eq!(sum, expected);
}

#[test]
fn heavy_compute_visits_each_entity_once() {
    let mut world = World::new();
    for i in 0..1000 {
        spawn(&mut world, vec![num(POS, i)]);
    }
    let q = Query::new(&world, read(POS));
    let mut visits = vec![0; 1000];
    for leaf in q.par_leaves(64) {
        for &(place, start, end) in leaf.as_slice() {
            for (p, r) in q.rows_in_range(place, start, end) {
                visits[number(q.item_at(p, r).values[0].unwrap()) as usize] += 1;
            }
        }
    }
    assert!(visits.iter().all(|v| *v == 1));
}

#[test]
fn changed_iter_apex_and_bevy_yield_same_count() {
    let mut world = World::new();
    let es: Vec<Entity> = (0..10_000).map(|i| spawn(&mut world, vec![num(POS, i)])).collect();
    for _frame in 0..3 {
        let last_run = advance(&mut world);
        for e in es.iter().step_by(10) {
            change(&mut world, *e, POS, |v| v + 1);
        }
        assert_eq!(changed(&world, POS, last_run).len(), 1000);
    }
}

#[test]
fn many_archetypes_are_narrowed_by_the_rarest_component() {
    let mut world = World::new();
    // Nine tags give more archetypes than are tried one by one.
    for mask in 0u64..512 {
        let mut parts = vec![num(HP, mask as u32)];
        for bit in 0..9 {
            if mask >> bit & 1 == 1 {
                let mut d = desc(A);
                d.key = 500 + bit;
                d.name = format!("tests::T{bit}");
                parts.push(BundlePart { desc: d, value: Vec::new() });
            }
        }
        spawn(&mut world, parts);
    }
    assert!(world.archetype_count() > 128);
    let q = Query::new(&world, all(vec![read(HP), role(Role::With, 500), role(Role::Without, 501)]));
    let mut got = values(&q);
    got.sort_unstable();
    let expected: Vec<u32> = (0..512).filter(|m| m & 1 == 1 && m & 2 == 0).collect();
    assert_eq!(got, expected);
    assert_eq!(q.len(), 128);
    assert_eq!(count(&Query::new(&world, all(vec![read(HP), read(NEVER)]))), 0);
    assert_eq!(count(&Query::new(&world, role(Role::Without, 500))), 256);
}

#[test]
fn ranges_restrict_the_rows() {
    let mut world = World::new();
    let es: Vec<Entity> = (0..10).map(|i| spawn(&mut world, vec![num(HP, i)])).collect();
    let mob = spawn(&mut world, vec![num(MANA, 3)]);
    let place = world.location(es[0]).unwrap().archetype_id.as_usize();
    let other = world.location(mob).unwrap().archetype_id.as_usize();
    let places = [place, other];
    let ranges = [(place, 2, 5)];
    let q = Query::from_sub_world(&world, read(HP), Tick(0), &places, &ranges);
    assert_eq!(values(&q), vec![2, 3, 4]);
    assert_eq!(q.len(), 3);
    assert!(q.get(es[2]).is_some());
    assert!(q.get(es[5]).is_none());
    assert!(q.get(mob).is_none(), "the shape does not take the archetype");
    assert_eq!(q.spans().as_slice(), &[(place, 2, 5)]);
    let none = [(place, 7, 3)];
    let q = Query::from_sub_world(&world, read(HP), Tick(0), &places, &none);
    assert!(q.is_empty());
    let q = Query::from_state_parts(&world, read(HP), &places[..1], Tick(0));
    assert_eq!(q.len(), 10);
}

#[test]
fn shapes_tell_what_they_need() {
    let mut world = World::new();
    spawn(&mut world, vec![num(HP, 1), num(MANA, 2), tag(BOSS)]);
    let shape = all(vec![
        read(HP),
        role(Role::MaybeWrite, MANA),
        role(Role::Without, A),
        Shape::Or(vec![role(Role::With, BOSS), role(Role::Added, HP)]),
    ]);
    assert_eq!(shape.component_count(), 5);
    assert!(shape.has_row_filter());
    assert!(!shape.is_read_only());
    let reg = world.registry();
    let mut ids = apex_core::inline::IdList::new();
    shape.fill_ids(reg, &mut ids);
    assert_eq!(ids.as_slice(), &[0, 1, u32::MAX, 2, 0]);
    let mut required = apex_core::inline::IdList::new();
    shape.fill_required_ids(reg, &mut required);
    assert_eq!(required.as_slice(), &[0]);
    let mut positive = apex_core::inline::IdList::new();
    shape.fill_positive_ids(reg, &mut positive);
    assert_eq!(positive.as_slice(), &[0, 1, 2, 0]);
    let mut key = apex_core::inline::KeyList::new();
    shape.fill_cache_key(reg, &mut key);
    assert_eq!(
        key.as_slice(),
        &[0, 1 | 2 << 32, 0xFFFF_FFFF | 1 << 32, 4 << 32, 2, 0, 5 << 32]
    );
    assert_eq!(apex_core::shape::ids_from_key(&key).as_slice(), ids.as_slice());
    let mut access = Vec::new();
    shape.fill_data_access(reg, &mut access);
    assert_eq!(access, vec![(0, false), (1, true)]);
    let declared = shape.system_access();
    assert_eq!(declared.reads, vec![HP, BOSS]);
    assert_eq!(declared.writes, vec![MANA]);
    let e = entities(&Query::new(&world, Shape::Unit))[0];
    let place = world.location(e).unwrap().archetype_id.as_usize();
    assert!(shape.matches_archetype(reg, world.storage().archetype(place)));
    assert!(!shape.matches_archetype(reg, world.storage().archetype(0)));
}

#[test]
fn added_is_told_from_changed() {
    let mut world = World::new();
    let e = spawn(&mut world, vec![num(HP, 1)]);
    let lr = advance(&mut world);
    change(&mut world, e, HP, |v| v + 1);
    let f = spawn(&mut world, vec![num(HP, 2)]);
    let added = entities(&Query::new_with_tick(&world, role(Role::Added, HP), lr));
    assert_eq!(added, vec![f]);
    assert_eq!(changed(&world, HP, lr), vec![e, f]);
}

#[test]
fn writes_can_bypass_change_detection() {
    let mut world = World::new();
    let e = spawn(&mut world, vec![num(HP, 1)]);
    let hp = id(&world, HP);
    let lr = advance(&mut world);
    {
        let mut m = world.get_mut(e, hp).unwrap();
        m.bypass_change_detection(&5u32.to_le_bytes());
    }
    assert_eq!(get(&world, e, HP), Some(5));
    assert_eq!(changed(&world, HP, lr).len(), 0);
    {
        let mut m = world.get_mut(e, hp).unwrap();
        m.set_changed();
    }
    assert_eq!(get(&world, e, HP), Some(5));
    assert_eq!(changed(&world, HP, lr), vec![e]);
    assert!(world.get_mut(Entity::placeholder(), hp).is_none());
}

#[test]
fn equal_keys_take_the_same_archetypes() {
    let mut world = World::new();
    spawn(&mut world, vec![tag(A)]);
    spawn(&mut world, vec![tag(A), tag(B)]);
    let keys = |s: &Shape| {
        let mut key = apex_core::inline::KeyList::new();
        s.fill_cache_key(world.registry(), &mut key);
        key.as_slice().to_vec()
    };
    let reads = all(vec![read(A), role(Role::Without, B)]);
    let changes = all(vec![role(Role::Changed, A), all(vec![role(Role::Without, B)])]);
    assert_eq!(keys(&reads), keys(&changes));
    for place in 0..world.archetype_count() {
        let arch = world.storage().archetype(place);
        assert_eq!(
            reads.matches_archetype(world.registry(), arch),
            changes.matches_archetype(world.registry(), arch)
        );
    }
    assert_ne!(keys(&reads), keys(&all(vec![read(A), role(Role::Maybe, B)])));
}

#[test]
fn keys_tell_branches_of_several_components() {
    let mut world = World::new();
    spawn(&mut world, vec![tag(A)]);
    spawn(&mut world, vec![tag(A), tag(B)]);
    spawn(&mut world, vec![tag(B), num(CC, 1)]);
    let keys = |s: &Shape| {
        let mut key = apex_core::inline::KeyList::new();
        s.fill_cache_key(world.registry(), &mut key);
        key.as_slice().to_vec()
    };
    let (a, b, c) = (id(&world, A).0 as u64, id(&world, B).0 as u64, id(&world, CC).0 as u64);
    let flat = Shape::Or(vec![role(Role::With, A), role(Role::With, B), role(Role::With, CC)]);
    let pair = all(vec![role(Role::With, A), role(Role::With, B)]);
    let nested = Shape::Or(vec![pair, role(Role::With, CC)]);
    assert_eq!(keys(&flat), vec![4 << 32, a, b, c, 5 << 32]);
    assert_eq!(keys(&nested), vec![4 << 32, 6 << 32, a, b, 7 << 32, c, 5 << 32]);
    assert_eq!(count(&Query::from_world_cached(&world, flat, Tick(0))), 3);
    assert_eq!(count(&Query::from_world_cached(&world, nested, Tick(0))), 2);
}
