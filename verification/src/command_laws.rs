//! What holds of every queue of commands.

use vstd::prelude::*;
use crate::commands::layout::lemma_run_end_behind;
use crate::commands::{
    CommandState, after_commands, lemma_run_end_grows, reserved_of, run_end, spawn_ids, spawns_reserved, spawns_wait, stop_place,
    stops, world_after_ids,
};
use crate::entity::{
    AllocState, BlockState, Entity, after_draw, after_flush, after_pop, allocated, can_draw, drawn,
    real_indices, state_wf, undrawn,
};
use crate::entity_laws::{
    awaits, held, law_abandoned_ids_are_reused, law_draw_issues_each_slot_once,
    law_held_stays_held, law_reserved_ids_wait,
};
use crate::world::{BundleState, WorldState, world_ok};

verus! {

/// Queuing a spawn keeps the queue ready to be applied: the entity that it reserves waits for it,
/// and so do those of the spawns before it. For a reserver without a block of its own.
pub proof fn law_queued_spawns_wait(
    w: WorldState,
    bound: Option<Option<BlockState>>,
    cmds: Seq<CommandState>,
    bundle: Seq<BundleState>,
)
    requires
        world_ok(w),
        can_draw(w.entities, 1),
        spawns_wait(w.entities, cmds, 0),
        bound is None || bound == Some(None::<BlockState>),
    ensures
        spawns_wait(
            world_after_ids(w, bound, 1).entities,
            cmds.push(
                CommandState::Spawn { entity: spawn_ids(bound, w.entities, 1)[0], bundle },
            ),
            0,
        ),
{
    let s = w.entities;
    let e = spawn_ids(bound, s, 1)[0];
    let more = cmds.push(CommandState::Spawn { entity: e, bundle });
    let t = world_after_ids(w, bound, 1).entities;
    if bound is Some {
        assert(t == after_draw(s, 1));
        assert(e == drawn(s, 1)[0]);
        law_draw_issues_each_slot_once(s, 1);
        law_reserved_ids_wait(s, 1, 0);
        assert(!held(s, e.index));
        assert forall|i: int| 0 <= i < more.len() && spawns_reserved(#[trigger] more[i]) implies awaits(
            t,
            more[i]->Spawn_entity,
        ) by {
            if i < cmds.len() {
                assert(more[i] == cmds[i]);
                assert(spawns_reserved(cmds[i]));
                law_held_stays_held(s, 1, cmds[i]->Spawn_entity);
            }
        }
        assert forall|i: int, j: int|
            0 <= i < j < more.len() && spawns_reserved(#[trigger] more[i]) && spawns_reserved(
                #[trigger] more[j],
            ) implies more[i]->Spawn_entity.index != more[j]->Spawn_entity.index by {
            assert(more[i] == cmds[i]);
            assert(awaits(s, cmds[i]->Spawn_entity));
            if j < cmds.len() {
                assert(more[j] == cmds[j]);
            }
        }
    } else {
        assert(e.is_placeholder());
        assert forall|i: int| 0 <= i < more.len() && spawns_reserved(#[trigger] more[i]) implies awaits(
            t,
            more[i]->Spawn_entity,
        ) by {
            assert(i < cmds.len());
            assert(more[i] == cmds[i]);
        }
        assert forall|i: int, j: int|
            0 <= i < j < more.len() && spawns_reserved(#[trigger] more[i]) && spawns_reserved(
                #[trigger] more[j],
            ) implies more[i]->Spawn_entity.index != more[j]->Spawn_entity.index by {
            assert(j < cmds.len());
            assert(more[i] == cmds[i] && more[j] == cmds[j]);
        }
    }
}

/// Queuing anything but a spawn keeps the queue ready to be applied.
pub proof fn law_other_commands_keep_spawns_waiting(
    w: WorldState,
    cmds: Seq<CommandState>,
    c: CommandState,
)
    requires
        spawns_wait(w.entities, cmds, 0),
        !spawns_reserved(c),
    ensures
        spawns_wait(w.entities, cmds.push(c), 0),
{
    let more = cmds.push(c);
    assert forall|i: int| 0 <= i < more.len() && spawns_reserved(#[trigger] more[i]) implies awaits(
        w.entities,
        more[i]->Spawn_entity,
    ) by {
        assert(more[i] == cmds[i]);
    }
    assert forall|i: int, j: int|
        0 <= i < j < more.len() && spawns_reserved(#[trigger] more[i]) && spawns_reserved(
            #[trigger] more[j],
        ) implies more[i]->Spawn_entity.index != more[j]->Spawn_entity.index by {
        assert(more[i] == cmds[i] && more[j] == cmds[j]);
    }
}

/// Applying a queue in parts gives what applying it in one go gives: the state after `k` commands
/// and then the `n` that follow is the state after all of them, whatever the commands are. So
/// where applying stops to hand a command out, it goes on as if it had not stopped.
pub proof fn law_commands_apply_in_parts(w: WorldState, cmds: Seq<CommandState>, k: nat, n: nat)
    requires
        k + n <= cmds.len(),
    ensures
        after_commands(
            after_commands(w, cmds, k),
            cmds.subrange(k as int, cmds.len() as int),
            n,
        ) == after_commands(w, cmds, k + n),
    decreases n,
{
    if n > 0 {
        law_commands_apply_in_parts(w, cmds, k, (n - 1) as nat);
        assert(cmds.subrange(k as int, cmds.len() as int)[n - 1] == cmds[k + n - 1]);
    }
}

/// Whether a run of commands that go together starts at `k`, or the queue ends there, where one
/// starts at `from`.
pub open spec fn starts_run(cmds: Seq<CommandState>, from: nat, k: nat) -> bool
    decreases cmds.len() - from,
{
    k == from || from < cmds.len() && {
        proof {
            lemma_run_end_grows(cmds, from, from + 1);
        }
        starts_run(cmds, run_end(cmds, from, from + 1), k)
    }
}

proof fn lemma_starts_behind(cmds: Seq<CommandState>, from: nat, k: nat)
    requires
        starts_run(cmds, from, k),
    ensures
        from <= k,
    decreases cmds.len() - from,
{
    if k != from {
        lemma_run_end_grows(cmds, from, from + 1);
        lemma_starts_behind(cmds, run_end(cmds, from, from + 1), k);
    }
}

/// Applying stops at the first place between runs where it has to, and goes through to the end
/// where there is none.
pub proof fn law_applying_stops_at_the_first_place(
    w: WorldState,
    cmds: Seq<CommandState>,
    from: nat,
    heed: bool,
)
    requires
        from <= cmds.len(),
    ensures
        from <= stop_place(w, cmds, from, heed) <= cmds.len(),
        starts_run(cmds, from, stop_place(w, cmds, from, heed)),
        forall|k: nat|
            from <= k < stop_place(w, cmds, from, heed) && starts_run(cmds, from, k)
                ==> !#[trigger] stops(w, cmds, k, heed),
        stop_place(w, cmds, from, heed) < cmds.len() ==> stops(
            w,
            cmds,
            stop_place(w, cmds, from, heed),
            heed,
        ),
    decreases cmds.len() - from,
{
    if from < cmds.len() && !stops(w, cmds, from, heed) {
        let end = run_end(cmds, from, from + 1);
        lemma_run_end_grows(cmds, from, from + 1);
        law_applying_stops_at_the_first_place(w, cmds, end, heed);
        assert forall|k: nat|
            from <= k < stop_place(w, cmds, from, heed) && starts_run(
                cmds,
                from,
                k,
            ) implies !#[trigger] stops(w, cmds, k, heed) by {
            if k > from {
                lemma_starts_behind(cmds, end, k);
            }
        }
    }
}

/// Where a queue stops for something that leaves the world as it is, going on comes to what not
/// stopping comes to.
pub proof fn law_going_on_is_not_stopping(
    w: WorldState,
    cmds: Seq<CommandState>,
    k: nat,
    heed: bool,
)
    requires
        k <= cmds.len(),
    ensures
        ({
            let rest = cmds.subrange(k as int, cmds.len() as int);
            let now = after_commands(w, cmds, k);
            after_commands(now, rest, stop_place(now, rest, 0, heed)) == after_commands(
                w,
                cmds,
                stop_place(w, cmds, k, heed),
            )
        }),
{
    lemma_stop_behind(w, cmds, k, 0, heed);
    let rest = cmds.subrange(k as int, cmds.len() as int);
    let now = after_commands(w, cmds, k);
    law_applying_stops_at_the_first_place(now, rest, 0, heed);
    law_commands_apply_in_parts(w, cmds, k, stop_place(now, rest, 0, heed));
}

proof fn lemma_stop_behind(w: WorldState, cmds: Seq<CommandState>, k: nat, i: nat, heed: bool)
    requires
        k + i <= cmds.len(),
    ensures
        ({
            let rest = cmds.subrange(k as int, cmds.len() as int);
            let now = after_commands(w, cmds, k);
            k + stop_place(now, rest, i, heed) == stop_place(w, cmds, k + i, heed)
        }),
    decreases cmds.len() - i,
{
    let rest = cmds.subrange(k as int, cmds.len() as int);
    let now = after_commands(w, cmds, k);
    if k + i < cmds.len() {
        law_commands_apply_in_parts(w, cmds, k, i);
        assert(rest[i as int] == cmds[(k + i) as int]);
        assert(stops(now, rest, i, heed) == stops(w, cmds, k + i, heed));
        if !stops(now, rest, i, heed) {
            lemma_run_end_grows(rest, i, i + 1);
            lemma_run_end_behind(cmds, rest, k, i, i + 1);
            lemma_stop_behind(w, cmds, k, run_end(rest, i, i + 1), heed);
        }
    }
}

proof fn lemma_reserved_of(cmds: Seq<CommandState>, i: int)
    requires
        0 <= i < cmds.len(),
        spawns_reserved(cmds[i]),
    ensures
        real_indices(reserved_of(cmds)).contains(cmds[i]->Spawn_entity.index),
    decreases cmds.len(),
{
    let e = cmds[i]->Spawn_entity;
    let head = reserved_of(cmds.drop_last());
    let all = reserved_of(cmds);
    if i < cmds.len() - 1 {
        lemma_reserved_of(cmds.drop_last(), i);
        if spawns_reserved(cmds.last()) {
            assert(all.drop_last() =~= head);
            let indices = real_indices(head);
            let k = choose|k: int| 0 <= k < indices.len() && indices[k] == e.index;
            assert(real_indices(all)[k] == e.index);
        }
    } else {
        assert(all.drop_last() =~= head);
        assert(real_indices(all).last() == e.index);
    }
}

proof fn lemma_reserved_below(s: AllocState, cmds: Seq<CommandState>, k: int)
    requires
        spawns_wait(s, cmds, 0),
        0 <= k < reserved_of(cmds).len(),
    ensures
        reserved_of(cmds)[k].index < s.high_water,
    decreases cmds.len(),
{
    if cmds.len() > 0 {
        let head = cmds.drop_last();
        assert(spawns_wait(s, head, 0)) by {
            assert forall|i: int| 0 <= i < head.len() && spawns_reserved(
                #[trigger] head[i],
            ) implies awaits(s, head[i]->Spawn_entity) by {
                assert(cmds[i] == head[i]);
            }
            assert forall|i: int, j: int|
                0 <= i < j < head.len() && spawns_reserved(#[trigger] head[i]) && spawns_reserved(
                    #[trigger] head[j],
                ) implies head[i]->Spawn_entity.index != head[j]->Spawn_entity.index by {
                assert(cmds[i] == head[i] && cmds[j] == head[j]);
            }
        }
        if k < reserved_of(head).len() {
            lemma_reserved_below(s, head, k);
        } else {
            assert(spawns_reserved(cmds[cmds.len() - 1]));
        }
    }
}

/// The ids of a queue that is dropped are not lost: once reservations are reconciled, later
/// entities get them before any index that was never issued. `n` entities that use up the pool
/// have the id among them, and as long as the pool is not used up no fresh index is issued.
pub proof fn law_dropped_reservations_are_reissued(
    s: AllocState,
    cmds: Seq<CommandState>,
    i: int,
    n: nat,
)
    requires
        state_wf(s),
        spawns_wait(s, cmds, 0),
        0 <= i < cmds.len(),
        spawns_reserved(cmds[i]),
    ensures
        ({
            let t = after_flush(
                AllocState {
                    abandoned: s.abandoned + real_indices(reserved_of(cmds)),
                    ..s
                },
            );
            let index = cmds[i]->Spawn_entity.index;
            &&& t.high_water == s.high_water
            &&& n >= undrawn(t).len() ==> exists|k: int|
                0 <= k < n && (#[trigger] allocated(t, n)[k]).index == index
            &&& n <= undrawn(t).len() ==> forall|k: int|
                0 <= k < n ==> (#[trigger] allocated(t, n)[k]).index < s.high_water
        }),
{
    let es = reserved_of(cmds);
    let index = cmds[i]->Spawn_entity.index;
    let a = AllocState { abandoned: s.abandoned + real_indices(es), ..s };
    let t = after_flush(a);
    lemma_reserved_of(cmds, i);
    assert forall|k: int| 0 <= k < es.len() implies (#[trigger] es[k]).is_placeholder()
        || es[k].index < s.high_water by {
        lemma_reserved_below(s, cmds, k);
    }
    law_abandoned_ids_are_reused(s, es, index);
    assert(a.abandoned.len() > 0);
    assert(t.free_list.len() == 0);
    assert(after_pop(t, n) == t) by {
        assert(after_pop(t, n).free_list =~= t.free_list);
    }
    assert(allocated(t, n) =~= drawn(t, n));
    let pool = undrawn(t);
    let q = choose|q: int| 0 <= q < pool.len() && pool[q] == index;
    if n >= pool.len() {
        let k = t.unconsumed - 1 - q;
        assert(t.lease[q].0 == pool[q]);
        assert(drawn(t, n)[k].index == index);
    }
    assert forall|k: int| 0 <= k < n && n <= pool.len() implies (
    #[trigger] allocated(t, n)[k]).index < s.high_water by {
        let place = t.unconsumed - 1 - k;
        assert(t.lease[place].0 == pool[place]);
        lemma_pool_below(s, es, place);
    }
}

proof fn lemma_real_indices_below(es: Seq<Entity>, bound: nat)
    requires
        forall|k: int|
            0 <= k < es.len() ==> (#[trigger] es[k]).is_placeholder() || es[k].index < bound,
    ensures
        forall|k: int| 0 <= k < real_indices(es).len() ==> #[trigger] real_indices(es)[k] < bound,
    decreases es.len(),
{
    if es.len() > 0 {
        let head = es.drop_last();
        assert forall|k: int| 0 <= k < head.len() implies (#[trigger] head[k]).is_placeholder()
            || head[k].index < bound by {
            assert(es[k] == head[k]);
        }
        lemma_real_indices_below(head, bound);
        assert(es[es.len() - 1] == es.last());
        let all = real_indices(es);
        let few = real_indices(head);
        assert forall|k: int| 0 <= k < all.len() implies #[trigger] all[k] < bound by {
            if k < few.len() {
                assert(all[k] == few[k]);
            }
        }
    }
}

proof fn lemma_pool_below(s: AllocState, es: Seq<Entity>, place: int)
    requires
        state_wf(s),
        forall|k: int|
            0 <= k < es.len() ==> (#[trigger] es[k]).is_placeholder() || es[k].index < s.high_water,
        ({
            let a = AllocState { abandoned: s.abandoned + real_indices(es), ..s };
            a.abandoned.len() > 0 && 0 <= place < undrawn(after_flush(a)).len()
        }),
    ensures
        undrawn(
            after_flush(AllocState { abandoned: s.abandoned + real_indices(es), ..s }),
        )[place] < s.high_water,
{
    let a = AllocState { abandoned: s.abandoned + real_indices(es), ..s };
    let t = after_flush(a);
    let left = undrawn(a);
    let pool = a.free_list + a.abandoned + left;
    lemma_real_indices_below(es, s.high_water);
    assert(undrawn(t) =~= pool);
    let f = a.free_list.len() as int;
    let b = s.abandoned.len() as int;
    let c = real_indices(es).len() as int;
    if place < f {
        assert(pool[place] == s.free_list[place]);
        assert(s.free_list[place] < s.generations.len());
    } else if place < f + b {
        assert(pool[place] == s.abandoned[place - f]);
        assert(s.abandoned[place - f] < s.high_water);
    } else if place < f + b + c {
        assert(pool[place] == real_indices(es)[place - f - b]);
    } else {
        assert(pool[place] == left[place - f - b - c]);
        assert(s.lease[place - f - b - c].0 < s.generations.len());
    }
}

} // verus!
