use std::collections::HashSet;

use apex_core::archetype::ArchetypeId;
use apex_core::entity::{Entity, EntityAllocator, EntityLocation, EntityReserver};

fn make_loc() -> EntityLocation {
    EntityLocation { archetype_id: ArchetypeId::empty(), row: 0 }
}

#[test]
fn allocate_free_reuse() {
    let mut alloc = EntityAllocator::new();
    let e1 = alloc.allocate();
    let e2 = alloc.allocate();
    assert_ne!(e1, e2);

    alloc.set_location(e1, make_loc());
    alloc.set_location(e2, make_loc());
    assert!(alloc.is_alive(e1));

    alloc.free(e1);
    assert!(!alloc.is_alive(e1));

    let e3 = alloc.allocate();
    assert_eq!(e3.index, e1.index);
    assert_ne!(e3.generation, e1.generation);
    alloc.set_location(e3, make_loc());
    assert!(alloc.is_alive(e3));
}

#[test]
fn idle_flush_does_not_rebuild_the_lease() {
    let mut alloc = EntityAllocator::new();
    let entities = alloc.allocate_batch(4096);
    for e in &entities {
        alloc.set_location(*e, make_loc());
    }
    // Every index lands in the reuse pool, then in the lease.
    for e in &entities {
        alloc.free(*e);
    }
    alloc.flush();
    let leased = alloc.lease_epoch();
    assert_eq!(alloc.lease_len(), 4096, "the freed indices are leased for reuse");

    for _ in 0..8 {
        alloc.flush();
        assert_eq!(alloc.lease_epoch(), leased, "an idle flush must not publish the lease again");
        assert_eq!(alloc.lease_len(), 4096);
    }

    // The pool is still fully usable afterwards.
    let reused = alloc.allocate_batch(4096);
    assert_eq!(reused.len(), 4096);
    let fresh_indices: Vec<u32> = reused.iter().map(|e| e.index).filter(|i| *i >= 4096).collect();
    assert!(fresh_indices.is_empty(), "every id came from the reuse pool: {fresh_indices:?}");
}

#[test]
fn allocate_batch_basic() {
    let mut alloc = EntityAllocator::new();
    let batch = alloc.allocate_batch(100);
    assert_eq!(batch.len(), 100);
    let mut indices: Vec<u32> = batch.iter().map(|e| e.index).collect();
    indices.sort_unstable();
    indices.dedup();
    assert_eq!(indices.len(), 100);
}

#[test]
fn allocate_batch_uses_free_list() {
    let mut alloc = EntityAllocator::new();
    let entities: Vec<Entity> = (0..5)
        .map(|_| {
            let e = alloc.allocate();
            alloc.set_location(e, make_loc());
            e
        })
        .collect();

    alloc.free(entities[1]);
    alloc.free(entities[3]);

    let batch = alloc.allocate_batch(5);
    assert_eq!(batch.len(), 5);

    let batch_indices: HashSet<u32> = batch.iter().map(|e| e.index).collect();
    assert!(batch_indices.contains(&entities[1].index));
    assert!(batch_indices.contains(&entities[3].index));
}

#[test]
fn slot_at_max_generation_is_retired_not_reused() {
    let mut alloc = EntityAllocator::new();
    let e = alloc.allocate();
    alloc.set_location(e, make_loc());

    // As after very many reuses of the slot.
    alloc.set_generation(e.index, u32::MAX - 1);
    let last_life = Entity::from_raw_parts(e.index, u32::MAX - 1);
    alloc.set_location(last_life, make_loc());
    assert!(alloc.is_alive(last_life));

    // Freeing brings the generation to its end, so the slot is retired.
    assert!(alloc.free(last_life));
    assert!(!alloc.is_alive(last_life));
    assert_eq!(alloc.free_count(), 0, "a slot at the end of its generations is not returned");

    let fresh = alloc.allocate();
    assert_ne!(fresh.index, e.index);

    // The handle from the slot's first life is dead forever.
    assert!(!alloc.is_alive(e));
    assert!(alloc.get_location(e).is_none());
}

#[test]
fn get_by_index_dead_slot_returns_none() {
    let mut alloc = EntityAllocator::new();
    let e = alloc.allocate();
    alloc.set_location(e, make_loc());
    assert_eq!(alloc.get_by_index(e.index), Some(e));
    alloc.free(e);
    assert_eq!(alloc.get_by_index(e.index), None, "a slot without a location has no entity");
}

#[test]
fn reserve_produces_fresh_gen0_ids_then_flush_materializes() {
    let mut alloc = EntityAllocator::new();
    let mut r = alloc.reserver();
    let a = r.reserve(&mut alloc);
    let b = r.reserve(&mut alloc);
    assert_ne!(a.index, b.index, "reservations yield different indices");
    assert_eq!(a.generation, 0);
    assert_eq!(b.generation, 0);
    // Before the flush there are no records, so the entity is not alive.
    assert!(!alloc.is_alive(a));

    alloc.flush();
    alloc.set_location(a, make_loc());
    alloc.set_location(b, make_loc());
    assert!(alloc.is_alive(a));
    assert!(alloc.is_alive(b));
}

#[test]
fn len_counts_only_located_ignoring_orphaned_reservations() {
    let mut alloc = EntityAllocator::new();
    let a = alloc.allocate();
    alloc.set_location(a, make_loc());
    let b = alloc.allocate();
    alloc.set_location(b, make_loc());
    assert_eq!(alloc.len(), 2);

    // Three reservations that nobody ever gives a location.
    let mut r = alloc.reserver();
    let orphans = [r.reserve(&mut alloc), r.reserve(&mut alloc), r.reserve(&mut alloc)];
    alloc.flush();

    assert_eq!(alloc.len(), 2, "orphaned reservations do not count");
    for o in orphans {
        assert!(!alloc.is_alive(o), "an orphaned reservation is not alive");
    }
    assert!(alloc.free(a));
    assert_eq!(alloc.len(), 1, "the count follows the despawn");
    assert!(!alloc.is_alive(a) && alloc.is_alive(b));
}

#[test]
fn abandoned_reservations_are_reclaimed_on_flush() {
    let mut alloc = EntityAllocator::new();
    let mut r = alloc.reserver();
    let a = r.reserve(&mut alloc);
    let b = r.reserve(&mut alloc);
    let c = r.reserve(&mut alloc);
    assert_eq!([a.index, b.index, c.index], [0, 1, 2]);

    r.abandon(&mut alloc, &[a, b, c]);
    alloc.flush();

    // The next reservations reuse the abandoned indices.
    let reused: HashSet<u32> = [
        r.reserve(&mut alloc).index,
        r.reserve(&mut alloc).index,
        r.reserve(&mut alloc).index,
    ]
    .into_iter()
    .collect();
    assert_eq!(reused, [0, 1, 2].into_iter().collect(), "abandoned indices are reused");

    // The placeholder carries no reservation.
    r.abandon(&mut alloc, &[Entity::placeholder()]);
    alloc.flush();
    assert_eq!(alloc.high_water(), 3);
}

#[test]
fn reserve_and_direct_allocate_never_collide() {
    let mut alloc = EntityAllocator::new();
    let mut r = alloc.reserver();
    let mut indices = HashSet::new();
    for _ in 0..50 {
        assert!(indices.insert(r.reserve(&mut alloc).index));
        let e = alloc.allocate();
        alloc.set_location(e, make_loc());
        assert!(indices.insert(e.index), "direct allocation does not meet reservations");
    }
    alloc.flush();
}

#[test]
fn reservation_reuses_freed_slots_after_flush() {
    let mut alloc = EntityAllocator::new();
    let mut r = alloc.reserver();
    let a = r.reserve(&mut alloc);
    let b = r.reserve(&mut alloc);
    let c = r.reserve(&mut alloc);
    alloc.flush();
    for e in [a, b, c] {
        alloc.set_location(e, make_loc());
    }
    let records_after_3 = alloc.record_count();
    assert_eq!(records_after_3, 3);

    alloc.free(b);
    alloc.flush();

    // The next reservation reuses the slot, so there are no more records.
    let mut r2 = alloc.reserver();
    let d = r2.reserve(&mut alloc);
    assert_eq!(d.index, b.index, "the reservation reused the freed slot");
    assert_ne!(d.generation, b.generation, "a new generation of the slot");
    alloc.flush();
    alloc.set_location(d, make_loc());
    assert!(alloc.is_alive(d));
    assert!(!alloc.is_alive(b), "the old handle is dead");
    assert_eq!(alloc.record_count(), records_after_3);
}

#[test]
fn the_allocators_lease_handle_is_the_shared_one() {
    // The allocator and its reservers draw from one lease. That shows in what they hand out, and
    // in when the lease is published anew.
    let mut a = EntityAllocator::new();
    let fresh_epoch = a.lease_epoch();

    let first: Vec<Entity> = (0..8).map(|_| a.allocate()).collect();
    assert_eq!(a.lease_epoch(), fresh_epoch, "after fresh allocations");

    for e in &first[..4] {
        a.free(*e);
    }
    a.flush();
    assert_ne!(a.lease_epoch(), fresh_epoch, "after flush");
    assert_eq!(a.lease_len(), 4, "after flush");

    let reused = a.allocate();
    assert!(
        first[..4].iter().any(|e| e.index == reused.index),
        "reuse comes from the leased slots"
    );
    assert_eq!(reused.generation, 1, "a reused slot carries the generation from the lease");

    let mut reserver = a.reserver();
    let through_reserver = reserver.reserve(&mut a);
    assert_ne!(through_reserver.index, reused.index, "after a leased allocation");
    a.flush();
    let from_reserver = reserver.reserve(&mut a);
    assert!(
        first.iter().all(|e| e.index != from_reserver.index) || from_reserver.generation != 0,
        "reserver and allocator handed out the same live index"
    );
    let next = a.allocate();
    assert_ne!(next.index, from_reserver.index, "after the reserver drew");
    assert_ne!(next.index, reused.index);
    assert_ne!(next.index, through_reserver.index);
}

#[test]
fn reserver_surviving_flush_never_double_issues() {
    let mut alloc = EntityAllocator::new();
    let first: Vec<Entity> = (0..6).map(|_| alloc.allocate()).collect();
    alloc.flush();
    for &e in &first {
        alloc.set_location(e, make_loc());
    }
    for &e in &first {
        assert!(alloc.free(e));
    }
    alloc.flush();

    // The reserver is taken once and survives the next flush.
    let mut r = alloc.reserver();
    let x0 = r.reserve(&mut alloc);
    let x1 = r.reserve(&mut alloc);
    alloc.flush();

    let mut seen = HashSet::new();
    assert!(seen.insert(x0.index));
    assert!(seen.insert(x1.index));
    for _ in 0..4 {
        let a = r.reserve(&mut alloc);
        assert!(seen.insert(a.index), "the reserver handed out index {} twice", a.index);
        let b = alloc.allocate();
        alloc.set_location(b, make_loc());
        assert!(seen.insert(b.index), "allocate met the reserver at {}", b.index);
    }
    alloc.flush();
}

#[test]
fn reservation_churn_keeps_records_bounded() {
    let mut alloc = EntityAllocator::new();
    let peak = 200usize;
    let mut live: Vec<Entity> = Vec::new();
    for frame in 0..500 {
        let mut r = alloc.reserver();
        while live.len() < peak {
            live.push(r.reserve(&mut alloc));
        }
        alloc.flush();
        for &e in &live {
            if alloc.get_location(e).is_none() {
                alloc.set_location(e, make_loc());
            }
        }
        let mut kept = Vec::new();
        for (i, &e) in live.iter().enumerate() {
            if i % 2 == frame % 2 {
                assert!(alloc.free(e), "free of a live entity");
            } else {
                kept.push(e);
            }
        }
        live = kept;
        alloc.flush();
        for &e in &live {
            assert!(alloc.is_alive(e), "the surviving entity stayed alive");
        }
    }
    assert!(
        alloc.record_count() <= peak * 2,
        "records are bounded by the peak ({peak}); got {}",
        alloc.record_count()
    );
}

#[test]
fn set_locations_batch() {
    let mut alloc = EntityAllocator::new();
    let entities = alloc.allocate_batch(10);
    let arch_id = ArchetypeId(42);
    alloc.set_locations_batch(&entities, arch_id, 0);

    for (i, entity) in entities.iter().enumerate() {
        let loc = alloc.get_location(*entity).unwrap();
        assert_eq!(loc.archetype_id.0, 42);
        assert_eq!(loc.row as usize, i);
    }
}

#[test]
fn block_reserver_hands_out_contiguous_deterministic_ids() {
    let mut alloc = EntityAllocator::new();
    let mut r = alloc.reserve_block(5);
    let ids: Vec<u32> = (0..5).map(|_| r.reserve(&mut alloc).index).collect();
    assert_eq!(ids, vec![0, 1, 2, 3, 4], "a block yields its ids in order");
    assert_eq!(r.block_remaining(), Some(0));
}

#[test]
fn block_reserver_overflow_falls_back_to_shared() {
    let mut alloc = EntityAllocator::new();
    let mut r = alloc.reserve_block(2);
    assert_eq!(r.reserve(&mut alloc).index, 0);
    assert_eq!(r.reserve(&mut alloc).index, 1);
    assert!(!r.block_overflowed());
    // The block is used up: the next fresh index comes from the shared pool.
    assert_eq!(r.reserve(&mut alloc).index, 2);
    assert!(r.block_overflowed());
}

#[test]
fn block_reserver_n_is_contiguous() {
    let mut alloc = EntityAllocator::new();
    let mut r = alloc.reserve_block(10);
    let batch = r.reserve_n(&mut alloc, 4);
    assert_eq!(batch.iter().map(|e| e.index).collect::<Vec<_>>(), vec![0, 1, 2, 3]);
    assert_eq!(r.reserve(&mut alloc).index, 4);
}

#[test]
fn per_system_blocks_are_deterministic_across_runs() {
    fn run(sizes: &[u32], spawns: &[u32]) -> Vec<Vec<u32>> {
        let mut alloc = EntityAllocator::new();
        let mut reservers: Vec<EntityReserver> = Vec::new();
        for &s in sizes {
            reservers.push(alloc.reserve_block(s));
        }
        let mut out = Vec::new();
        for (r, &n) in reservers.iter_mut().zip(spawns) {
            let mut ids = Vec::new();
            for _ in 0..n {
                ids.push(r.reserve(&mut alloc).index);
            }
            out.push(ids);
        }
        out
    }
    let sizes = [4u32, 4, 4];
    let spawns = [3u32, 2, 4];
    let a = run(&sizes, &spawns);
    let b = run(&sizes, &spawns);
    assert_eq!(a, b, "the ids of a block do not depend on the run");
    assert_eq!(a, vec![vec![0, 1, 2], vec![4, 5], vec![8, 9, 10, 11]]);
}

#[test]
fn reserve_block_draws_freed_slots_before_fresh() {
    let mut alloc = EntityAllocator::new();
    let es: Vec<Entity> = (0..3).map(|_| alloc.allocate()).collect();
    for e in &es {
        alloc.set_location(*e, make_loc());
    }
    for e in &es {
        assert!(alloc.free(*e));
    }
    alloc.flush();
    let mut r = alloc.reserve_block(5);
    let ids: Vec<Entity> = (0..5).map(|_| r.reserve(&mut alloc)).collect();
    let reused: Vec<u32> = ids.iter().filter(|e| e.generation == 1).map(|e| e.index).collect();
    let fresh: Vec<u32> = ids.iter().filter(|e| e.generation == 0).map(|e| e.index).collect();
    assert_eq!(reused.len(), 3, "the block reused the freed slots: {ids:?}");
    assert_eq!(fresh.len(), 2, "the block drew fresh slots: {ids:?}");
    let mut ru = reused.clone();
    ru.sort_unstable();
    assert_eq!(ru, vec![0, 1, 2]);
}

#[test]
fn reuse_aware_blocks_bound_id_space_and_are_deterministic_under_churn() {
    const FRAMES: usize = 200;
    const K: u32 = 8;
    const BLOCK: u32 = K + 4;

    fn run() -> (u32, Vec<u32>) {
        let mut alloc = EntityAllocator::new();
        let mut prev: Vec<Entity> = Vec::new();
        let mut max_index = 0u32;
        let mut trace: Vec<u32> = Vec::new();
        for _ in 0..FRAMES {
            let mut r = alloc.reserve_block(BLOCK);
            let spawned: Vec<Entity> = (0..K).map(|_| r.reserve(&mut alloc)).collect();
            trace.push(spawned[0].index);
            for e in &spawned {
                max_index = max_index.max(e.index);
            }
            for e in &prev {
                assert!(alloc.free(*e), "despawn of a live entity must succeed");
            }
            alloc.flush();
            for e in &spawned {
                assert!(!alloc.is_alive(*e), "reused id {e:?} must not already be live");
                alloc.set_location(*e, make_loc());
                assert!(alloc.is_alive(*e));
            }
            alloc.reclaim_block_tail(&r.unused_block_ids());
            prev = spawned;
        }
        (max_index, trace)
    }

    let (max_a, trace_a) = run();
    let (max_b, trace_b) = run();
    assert_eq!(trace_a, trace_b, "the ids do not depend on the run");
    assert_eq!(max_a, max_b);
    assert!(max_a < 100, "ids stay bounded under churn (largest index {max_a})");
}

#[test]
fn entity_as_text() {
    assert_eq!(Entity::from_raw_parts(7, 3).text(), "Entity(7v3)");
    assert_eq!(
        Entity::placeholder().text(),
        "Entity(4294967295v4294967295)"
    );
    assert_eq!(Entity::from_raw_parts(7, 3).index(), 7);
    assert_eq!(Entity::from_raw_parts(7, 3).generation(), 3);
}

#[test]
fn reclaimed_tail_is_handed_out_again() {
    let mut alloc = EntityAllocator::new();
    let mut r = alloc.reserve_block(4);
    let a = r.reserve(&mut alloc);
    let unused = r.unused_block_ids();
    assert_eq!(unused.len(), 3);
    alloc.flush();
    alloc.set_location(a, make_loc());
    alloc.reclaim_block_tail(&unused);
    alloc.flush();
    let batch = alloc.allocate_batch(3);
    let mut indices: Vec<u32> = batch.iter().map(|e| e.index).collect();
    indices.sort_unstable();
    assert_eq!(indices, vec![1, 2, 3]);
    assert_eq!(alloc.high_water(), 4);
}

#[test]
fn locations_survive_packing() {
    let mut alloc = EntityAllocator::new();
    let e = alloc.allocate();
    let loc = EntityLocation { archetype_id: ArchetypeId(0xFFFF_FFFE), row: 0xFFFF_FFFF };
    alloc.set_location(e, loc);
    let got = alloc.get_location(e).unwrap();
    assert_eq!(got.archetype_id.0, 0xFFFF_FFFE);
    assert_eq!(got.row, 0xFFFF_FFFF);
    assert!(!alloc.is_empty());
}
