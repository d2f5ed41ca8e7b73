//! Which slots entities get, and what one operation on a slot does to it and to the others.

use vstd::prelude::*;
use crate::archetype::ArchetypeId;
use crate::entity::{
    AllocState, BlockState, Entity, EntityLocation, after_allocate, after_clear_location,
    after_draw, after_flush, after_free, after_set_location, after_set_locations, alive, allocated,
    drawn, is_current, lemma_located_update, located, location_of, real_indices, state_wf,
};
use crate::storage::{after_reserve, entities_after_reserve, reserved_ids};

verus! {

/// The slot that was freed last is the first to be given out again, one generation on.
pub proof fn law_freed_slots_come_back_first(s: AllocState, e: Entity)
    requires
        state_wf(s),
        is_current(s, e),
        e.generation < u32::MAX - 1,
    ensures
        allocated(after_free(s, e), 1)[0] == (Entity {
            index: e.index,
            generation: (e.generation + 1) as u32,
        }),
{
    let t = after_free(s, e);
    assert(t.free_list.last() == e.index);
}

/// Freed slots are given out the last one first, each under its current generation.
pub proof fn law_free_slots_are_a_stack(s: AllocState, n: nat, k: int)
    requires
        state_wf(s),
        n <= s.free_list.len(),
        0 <= k < n,
    ensures
        ({
            let index = s.free_list[s.free_list.len() - 1 - k];
            &&& allocated(s, n)[k] == Entity { index, generation: s.generations[index as int] }
            &&& allocated(s, n).len() == n
            &&& after_allocate(s, n).free_list == s.free_list.subrange(0, s.free_list.len() - n)
            &&& after_allocate(s, n).high_water == s.high_water
        }),
{
}

/// A slot whose generations are used up is not given out again.
pub proof fn law_used_up_slots_are_retired(s: AllocState, e: Entity)
    requires
        is_current(s, e),
        e.generation == u32::MAX - 1,
    ensures
        after_free(s, e).free_list == s.free_list,
        !is_current(after_free(s, e), e),
{
}

/// No new slot is started while a free one is at hand: the first index that was never issued moves
/// on by what the pool cannot supply, and by no more.
pub proof fn law_free_slots_go_before_new_ones(s: AllocState, n: nat)
    requires
        state_wf(s),
    ensures
        after_draw(s, n).high_water == s.high_water + if n <= s.unconsumed {
            0
        } else {
            n - s.unconsumed
        },
        after_allocate(s, n).high_water == s.high_water + if n <= s.free_list.len() + s.unconsumed {
            0
        } else {
            n - s.free_list.len() - s.unconsumed
        },
        drawn(s, n).len() == n,
        allocated(s, n).len() == n,
{
}

/// Where no slot is free, new ones are started in ascending order, each at generation zero.
pub proof fn law_new_slots_ascend(s: AllocState, n: nat, k: int)
    requires
        state_wf(s),
        s.free_list.len() == 0,
        s.unconsumed == 0,
        0 <= k < n,
        s.high_water + n <= u32::MAX,
    ensures
        allocated(s, n)[k].index == s.high_water + k,
        allocated(s, n)[k].generation == 0,
        drawn(s, n)[k].index == s.high_water + k,
        drawn(s, n)[k].generation == 0,
{
    assert(allocated(s, n) =~= drawn(s, n));
}

/// A flush offers every slot that was freed or given up, under its current generation, together
/// with those that were offered and not taken. The slots freed are the last to be taken.
pub proof fn law_flush_offers_every_free_slot(s: AllocState, index: u32)
    requires
        state_wf(s),
    ensures
        ({
            let t = after_flush(s);
            let offered = exists|i: int|
                0 <= i < t.unconsumed && (#[trigger] t.lease[i]).0 == index;
            let was = exists|i: int|
                0 <= i < s.unconsumed && (#[trigger] s.lease[i]).0 == index;
            &&& offered <==> s.free_list.contains(index) || s.abandoned.contains(index) || was
            &&& t.free_list.len() == 0
            &&& t.abandoned.len() == 0
            &&& t.unconsumed == s.free_list.len() + s.abandoned.len() + s.unconsumed
            &&& t.high_water == s.high_water
            &&& t.generations.len() == s.high_water
            &&& forall|i: int|
                0 <= i < s.free_list.len() ==> (#[trigger] t.lease[i]).0 == s.free_list[i]
            &&& forall|i: int|
                0 <= i < t.unconsumed && !(s.free_list.len() == 0 && s.abandoned.len() == 0
                    && s.unconsumed == s.lease.len()) ==> (#[trigger] t.lease[i]).1
                    == t.generations[t.lease[i].0 as int]
        }),
{
    let t = after_flush(s);
    let und = crate::entity::undrawn(s);
    assert(und.len() == s.unconsumed);
    assert forall|i: int| 0 <= i < s.unconsumed implies und[i] == (#[trigger] s.lease[i]).0 by {}
    let idle = s.free_list.len() == 0 && s.abandoned.len() == 0 && s.unconsumed == s.lease.len();
    if !idle {
        let pool = s.free_list + s.abandoned + und;
        assert(t.lease.len() == pool.len());
        assert forall|i: int| 0 <= i < pool.len() implies (#[trigger] t.lease[i]).0 == pool[i] by {}
        let a = s.free_list.len() as int;
        let b = s.abandoned.len() as int;
        if s.free_list.contains(index) {
            let i = choose|i: int| 0 <= i < a && s.free_list[i] == index;
            assert(t.lease[i].0 == pool[i]);
            assert(pool[i] == index);
        }
        if s.abandoned.contains(index) {
            let i = choose|i: int| 0 <= i < b && s.abandoned[i] == index;
            assert(t.lease[a + i].0 == pool[a + i]);
            assert(pool[a + i] == index);
        }
        if exists|i: int| 0 <= i < s.unconsumed && (#[trigger] s.lease[i]).0 == index {
            let i = choose|i: int| 0 <= i < s.unconsumed && (#[trigger] s.lease[i]).0 == index;
            assert(und[i] == index);
            assert(t.lease[a + b + i].0 == pool[a + b + i]);
            assert(pool[a + b + i] == index);
        }
        if exists|i: int| 0 <= i < t.unconsumed && (#[trigger] t.lease[i]).0 == index {
            let i = choose|i: int| 0 <= i < t.unconsumed && (#[trigger] t.lease[i]).0 == index;
            assert(pool[i] == index);
            if i < a {
                assert(s.free_list[i] == index);
            } else if i < a + b {
                assert(s.abandoned[i - a] == index);
            } else {
                assert(und[i - a - b] == index);
                assert(s.lease[i - a - b].0 == index);
            }
        }
    }
}

/// Slots that are offered are taken from the last one down, as they were offered.
pub proof fn law_offers_are_taken_from_the_end(s: AllocState, n: nat, k: int)
    requires
        state_wf(s),
        n <= s.unconsumed,
        0 <= k < n,
    ensures
        drawn(s, n)[k].index == s.lease[s.unconsumed - 1 - k].0,
        drawn(s, n)[k].generation == s.lease[s.unconsumed - 1 - k].1,
        after_draw(s, n).unconsumed == s.unconsumed - n,
        after_draw(s, n).lease == s.lease,
{
}

/// Freeing an entity ends it and no other: every handle of another slot is as alive as it was, at
/// the same place. A handle that is not current frees nothing.
pub proof fn law_freeing_ends_one_entity(s: AllocState, e: Entity, f: Entity)
    requires
        state_wf(s),
    ensures
        ({
            let t = after_free(s, e);
            &&& !(e.index < s.generations.len() && s.generations[e.index as int] == e.generation)
                ==> t == s
            &&& !alive(t, e)
            &&& f.index != e.index ==> (alive(t, f) <==> alive(s, f)) && location_of(t, f)
                == location_of(s, f)
            &&& located(t.locations) == located(s.locations) - (if alive(s, e) {
                1int
            } else {
                0
            })
        }),
{
    if is_current(s, e) {
        lemma_located_update(s.locations, e.index as int, None);
    }
}

/// Placing an entity puts it there and moves no other. Only the current handle of a slot can be
/// placed.
pub proof fn law_placing_moves_one_entity(
    s: AllocState,
    e: Entity,
    loc: EntityLocation,
    f: Entity,
)
    requires
        state_wf(s),
        loc.archetype_id.0 < u32::MAX || loc.row < u32::MAX,
    ensures
        ({
            let t = after_set_location(s, e, loc);
            let current = e.index < s.generations.len() && s.generations[e.index as int]
                == e.generation;
            &&& current ==> location_of(t, e) == Some(loc) && alive(t, e)
            &&& !current ==> t == s
            &&& f.index != e.index ==> location_of(t, f) == location_of(s, f)
            &&& t.generations == s.generations
            &&& t.free_list == s.free_list
            &&& t.high_water == s.high_water
        }),
        ({
            let t = after_clear_location(s, e);
            &&& location_of(t, e) is None
            &&& is_current(t, e) <==> is_current(s, e)
            &&& f.index != e.index ==> location_of(t, f) == location_of(s, f)
        }),
{
}

/// A batch of entities is placed in consecutive rows, in order.
pub proof fn law_batches_are_placed_in_order(
    s: AllocState,
    es: Seq<Entity>,
    archetype_id: ArchetypeId,
    start_row: int,
    k: int,
    f: Entity,
)
    requires
        state_wf(s),
        0 <= start_row,
        start_row + es.len() < u32::MAX,
        forall|i: int| 0 <= i < es.len() ==> is_current(s, #[trigger] es[i]),
        forall|i: int, j: int|
            0 <= i < j < es.len() ==> (#[trigger] es[i]).index != (#[trigger] es[j]).index,
        0 <= k < es.len(),
    ensures
        location_of(after_set_locations(s, es, archetype_id, start_row), es[k]) == Some(
            EntityLocation { archetype_id, row: (start_row + k) as u32 },
        ),
        (forall|i: int| 0 <= i < es.len() ==> (#[trigger] es[i]).index != f.index) ==> location_of(
            after_set_locations(s, es, archetype_id, start_row),
            f,
        ) == location_of(s, f),
    decreases es.len(),
{
    lemma_batch_generations(s, es, archetype_id, start_row);
    let head = es.drop_last();
    lemma_batch_generations(s, head, archetype_id, start_row);
    assert forall|i: int| 0 <= i < head.len() implies is_current(s, #[trigger] head[i]) by {
        assert(head[i] == es[i]);
    }
    assert forall|i: int, j: int| 0 <= i < j < head.len() implies (#[trigger] head[i]).index != (
    #[trigger] head[j]).index by {
        assert(head[i] == es[i] && head[j] == es[j]);
    }
    let m = after_set_locations(s, head, archetype_id, start_row);
    let last = es[es.len() - 1];
    assert(is_current(m, last));
    if k < head.len() {
        law_batches_are_placed_in_order(s, head, archetype_id, start_row, k, f);
        assert(head[k] == es[k]);
        assert(es[k].index != last.index);
    } else if head.len() > 0 {
        law_batches_are_placed_in_order(s, head, archetype_id, start_row, 0, f);
    }
    if (forall|i: int| 0 <= i < es.len() ==> (#[trigger] es[i]).index != f.index) {
        assert(es[es.len() - 1].index != f.index);
        assert forall|i: int| 0 <= i < head.len() implies (#[trigger] head[i]).index != f.index by {
            assert(head[i] == es[i]);
        }
    }
}

proof fn lemma_batch_generations(
    s: AllocState,
    es: Seq<Entity>,
    archetype_id: ArchetypeId,
    start_row: int,
)
    requires
        state_wf(s),
    ensures
        after_set_locations(s, es, archetype_id, start_row).generations == s.generations,
        after_set_locations(s, es, archetype_id, start_row).locations.len() == s.locations.len(),
        state_wf(after_set_locations(s, es, archetype_id, start_row)),
    decreases es.len(),
{
    if es.len() > 0 {
        lemma_batch_generations(s, es.drop_last(), archetype_id, start_row);
    }
}

/// A reserver with a block hands out the ids of the block in order, and leaves the pool alone; one
/// without, or whose block is too short, takes ids from the pool. Nothing is asked for in vain.
pub proof fn law_blocks_serve_before_the_pool(r: Option<BlockState>, s: AllocState, n: nat, k: int)
    requires
        0 <= k < n,
    ensures
        ({
            let ids = reserved_ids(r, s, n);
            let t = entities_after_reserve(r, s, n);
            match r {
                Some(b) if b.next + n <= b.ids.len() => {
                    &&& ids.len() == n
                    &&& ids[k] == b.ids[b.next + k]
                    &&& t == s
                    &&& after_reserve(r, n) == Some(BlockState { next: b.next + n, ..b })
                },
                Some(b) => {
                    &&& ids == drawn(s, n)
                    &&& t == after_draw(s, n)
                    &&& after_reserve(r, n) == Some(BlockState { overflowed: true, ..b })
                },
                None => ids == drawn(s, n) && t == after_draw(s, n) && after_reserve(r, n) is None,
            }
        }),
{
}

/// The slots of handles are those of all but the placeholders, in order.
pub proof fn law_placeholders_have_no_slot(es: Seq<Entity>, e: Entity)
    ensures
        real_indices(Seq::<Entity>::empty()) == Seq::<u32>::empty(),
        e == (Entity { index: u32::MAX, generation: u32::MAX }) ==> real_indices(es.push(e))
            == real_indices(es),
        e != (Entity { index: u32::MAX, generation: u32::MAX }) ==> real_indices(es.push(e))
            == real_indices(es).push(e.index),
{
    assert(es.push(e).drop_last() =~= es);
}

/// Placing an entity that had no place makes one entity more that has.
pub proof fn law_placed_entities_are_counted(s: AllocState, e: Entity, loc: EntityLocation)
    requires
        state_wf(s),
        is_current(s, e),
        loc.archetype_id.0 < u32::MAX || loc.row < u32::MAX,
    ensures
        located(after_set_location(s, e, loc).locations) == located(s.locations) + (if s.locations[e.index as int] is None {
            1int
        } else {
            0
        }),
        located(after_clear_location(s, e).locations) == located(s.locations) - (if s.locations[e.index as int] is Some {
            1int
        } else {
            0
        }),
{
    lemma_located_update(s.locations, e.index as int, Some(loc));
    lemma_located_update(s.locations, e.index as int, None);
}

/// A flush offers freed slots first, then those given up, then those that were offered before, each
/// in its order, under a lease of its own; where there is nothing to offer anew, the lease stays.
pub proof fn law_flush_offers_in_order(s: AllocState, i: int)
    requires
        state_wf(s),
    ensures
        ({
            let t = after_flush(s);
            let a = s.free_list.len() as int;
            let b = s.abandoned.len() as int;
            let idle = a == 0 && b == 0 && s.unconsumed == s.lease.len();
            &&& 0 <= i < b ==> t.lease[a + i].0 == s.abandoned[i]
            &&& 0 <= i < s.unconsumed ==> t.lease[a + b + i].0 == s.lease[i].0
            &&& idle ==> t.lease == s.lease && t.leases_published == s.leases_published
            &&& !idle && s.leases_published < u64::MAX ==> t.leases_published == s.leases_published
                + 1
            &&& !idle ==> t.lease.len() == a + b + s.unconsumed
        }),
{
    let t = after_flush(s);
    let und = crate::entity::undrawn(s);
    assert(und.len() == s.unconsumed);
    assert forall|k: int| 0 <= k < s.unconsumed implies und[k] == (#[trigger] s.lease[k]).0 by {}
    let a = s.free_list.len() as int;
    let b = s.abandoned.len() as int;
    let pool = s.free_list + s.abandoned + und;
    if 0 <= i < b {
        assert(pool[a + i] == s.abandoned[i]);
    }
    if 0 <= i < s.unconsumed {
        assert(pool[a + b + i] == und[i]);
    }
}

} // verus!
