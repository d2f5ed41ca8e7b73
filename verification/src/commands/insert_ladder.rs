//! A ladder inside the path of deferred inserts: the stages of recording and applying them can be
//! run up to a chosen rung, so that each stage can be timed by itself. The complete copy of either
//! half does what the real path does.

use vstd::prelude::*;
use crate::arena::{ArenaState, empty_arena};
use crate::column::bytes_of;
use crate::component::{ComponentId, INVALID_ID};
use crate::entity::Entity;
use crate::registry::{
    InfoView, after_register, agrees, desc_count, extends, id_of, infos_agree, infos_wf,
    law_registering_keeps_numbers, lemma_after_register, lemma_id_of, lemma_register_agrees,
    lemma_register_requires, requires_wf,
};
use crate::requirements::lemma_put_one;
use crate::storage::Table;
use crate::world::{
    BundlePart, BundleState, PartState, World, WorldState, after_insert, after_registers,
    bundle_cost, bundle_fits, lemma_after_registers, with_registry,
};
use super::{
    CommandState, Commands, Queued, QueuedPart, after_commands, after_stores, command_cost,
    command_fits, commands_cost, commands_fit, flushed, is_outside,
    lemma_command_keeps, lemma_commands_cost, lemma_goes_through, lemma_stores_fit,
    reversed, spawns_reserved, states, stores_fit,
};
use super::layout::{lemma_tables_alone, lemma_tables_done, tables_after, tables_between};

verus! {

/// The last rung of recording that still runs the copy.
pub const RECORD_COPY_COMPLETE: u8 = 2;

/// The rung of recording that is the real path.
pub const RECORD_REAL: u8 = 3;

/// The last rung of applying that still runs the copy.
pub const APPLY_COPY_COMPLETE: u8 = 3;

/// The rung of applying that is the real path.
pub const APPLY_REAL: u8 = 4;

/// The contents of components.
pub open spec fn item_states(items: Seq<BundlePart>) -> Seq<BundleState> {
    items.map_values(|p: BundlePart| BundleState { desc: p.desc, value: p.value@ })
}

/// The inserts of the first `n` items, one per entity.
pub open spec fn inserts(es: Seq<Entity>, items: Seq<BundleState>, n: nat) -> Seq<CommandState> {
    Seq::new(n, |i: int| CommandState::Insert { entity: es[i], part: items[i] })
}

/// Records one insert per entity up to a rung: nothing but the components themselves, their
/// payloads in the arena, the queued commands as well, or the real path.
pub fn record_rung(cmds: &mut Commands, entities: &[Entity], rung: u8, items: Vec<BundlePart>)
    requires
        old(cmds).wf(),
        rung <= RECORD_REAL,
        entities@.len() == items@.len(),
        stores_fit(old(cmds).arena_state(), item_states(items@), items@.len()),
    ensures
        final(cmds).wf(),
        final(cmds).bound() == old(cmds).bound(),
        final(cmds).half_applied() == old(cmds).half_applied(),
        final(cmds)@ == if rung >= RECORD_COPY_COMPLETE {
            old(cmds)@ + inserts(entities@, item_states(items@), items@.len())
        } else {
            old(cmds)@
        },
        final(cmds).arena_state() == if rung == 0 {
            old(cmds).arena_state()
        } else {
            after_stores(old(cmds).arena_state(), item_states(items@), items@.len())
        },
{
    if rung == 0 {
        return ;
    }
    let ghost all = item_states(items@);
    let ghost first = items@;
    let ghost base = cmds.arena_state();
    let mut rest: Vec<BundlePart> = reversed(items);
    let ghost back = rest@;
    let mut n: usize = 0;
    assert(old(cmds)@ + inserts(entities@, all, 0) =~= old(cmds)@);
    while rest.len() > 0
        invariant
            0 < rung <= RECORD_REAL,
            n + rest@.len() == all.len() == back.len() == entities@.len() == first.len(),
            all == item_states(first),
            back == first.reverse(),
            rest@ == back.subrange(0, rest@.len() as int),
            cmds.wf(),
            cmds.bound() == old(cmds).bound(),
            cmds.half_applied() == old(cmds).half_applied(),
            base == old(cmds).arena_state(),
            cmds.arena_state() == after_stores(base, all, n as nat),
            stores_fit(base, all, all.len()),
            cmds@ == if rung >= RECORD_COPY_COMPLETE {
                old(cmds)@ + inserts(entities@, all, n as nat)
            } else {
                old(cmds)@
            },
        decreases rest.len(),
    {
        proof {
            lemma_stores_fit(base, all, all.len(), (n + 1) as nat);
        }
        let ghost old_rest = rest@;
        if let Some(p) = rest.pop() {
            proof {
                assert(p == back[old_rest.len() - 1]);
                assert(p == first[n as int]);
                assert(rest@ =~= back.subrange(0, rest@.len() as int));
                assert(all[n as int] == (BundleState { desc: p.desc, value: p.value@ }));
            }
            let entity: Entity = entities[n];
            if rung == RECORD_REAL {
                cmds.insert(entity, p.desc, p.value.as_slice());
            } else {
                let part: QueuedPart = cmds.store(p.desc, p.value.as_slice());
                if rung == RECORD_COPY_COMPLETE {
                    cmds.push(Queued::Insert { entity, part });
                }
            }
            n = n + 1;
            proof {
                assert(inserts(entities@, all, n as nat) =~= inserts(
                    entities@,
                    all,
                    (n - 1) as nat,
                ).push(CommandState::Insert { entity, part: all[n - 1] }));
                assert(cmds@ =~= if rung >= RECORD_COPY_COMPLETE {
                    old(cmds)@ + inserts(entities@, all, n as nat)
                } else {
                    old(cmds)@
                });
            }
        }
    }
}

/// Whether the ladder describes a queue: it holds inserts only, and no two in a row are of one
/// entity.
pub open spec fn describes(cmds: Seq<CommandState>) -> bool {
    &&& forall|i: int| 0 <= i < cmds.len() ==> (#[trigger] cmds[i]) is Insert
    &&& forall|i: int, j: int|
        0 <= i && j == i + 1 && j < cmds.len() ==> (#[trigger] cmds[i])->Insert_entity != (
        #[trigger] cmds[j])->Insert_entity
}

/// The components of inserts.
pub open spec fn payloads(cmds: Seq<CommandState>) -> Seq<BundleState> {
    cmds.map_values(|c: CommandState| c->Insert_part)
}

/// The world after the queue was applied up to a rung.
pub open spec fn after_rung(w: WorldState, cmds: Seq<CommandState>, rung: u8) -> WorldState {
    if rung >= APPLY_COPY_COMPLETE {
        after_commands(w, cmds, cmds.len())
    } else if rung == 2 {
        with_registry(w, after_registers(w.registry, payloads(cmds), cmds.len()))
    } else {
        w
    }
}

/// The layout after the queue was applied up to a rung.
pub open spec fn rung_tables(
    t: Seq<Table>,
    w: WorldState,
    cmds: Seq<CommandState>,
    rung: u8,
) -> Seq<Table> {
    if rung >= APPLY_COPY_COMPLETE {
        tables_after(t, w, cmds, cmds.len())
    } else {
        t
    }
}

/// Applies a queue of inserts up to a rung: the walk over the queue, the reading of the payloads,
/// the look-up of the component types, the inserts as well, or the real path. The queue is empty
/// afterwards. Hooks that get due are left for later.
#[verifier::rlimit(60)]
pub fn apply_rung(cmds: &mut Commands, world: &mut World, rung: u8)
    requires
        old(cmds).wf(),
        old(world).wf(),
        rung <= APPLY_REAL,
        !old(cmds).half_applied(),
        describes(old(cmds)@),
        old(world).room(commands_cost(old(cmds)@, old(cmds)@.len())),
        exists|sizes: Map<u64, usize>|
            #![trigger infos_agree(sizes, old(world)@.registry.infos)]
            infos_agree(sizes, old(world)@.registry.infos) && commands_fit(
                sizes,
                old(world)@.registry.infos,
                old(cmds)@,
            ),
    ensures
        final(cmds).wf(),
        final(world).wf(),
        final(cmds)@ == Seq::<CommandState>::empty(),
        final(cmds).bound() == old(cmds).bound(),
        !final(cmds).half_applied(),
        final(world)@ == after_rung(flushed(old(world)@), old(cmds)@, rung),
        final(world).layout() == rung_tables(
            old(world).layout(),
            flushed(old(world)@),
            old(cmds)@,
            rung,
        ),
        final(cmds).arena_state() == (ArenaState {
            bytes: Seq::<u8>::empty(),
            ..old(cmds).arena_state()
        }),
{
    let ghost all = cmds@;
    let ghost total = all.len();
    let ghost sizes = choose|sizes: Map<u64, usize>|
        #![trigger infos_agree(sizes, old(world)@.registry.infos)]
        infos_agree(sizes, old(world)@.registry.infos) && commands_fit(
            sizes,
            old(world)@.registry.infos,
            old(cmds)@,
        );
    if rung == APPLY_REAL {
        proof {
            assert forall|k: int| 0 <= k < total implies !is_outside(#[trigger] all[k]) by {
                assert(all[k] is Insert);
            }
            lemma_goes_through(flushed(world@), all);
            lemma_tables_alone(world.layout(), flushed(world@), all, total);
            assert forall|i: int|
                0 <= i < all.len() && spawns_reserved(#[trigger] all[i]) implies false by {
                assert(all[i] is Insert);
            }
        }
        cmds.start(world);
        assert(infos_agree(sizes, world@.registry.infos));
        let ghost before = *world;
        let next: Option<super::Deferred> = cmds.run(world, false);
        proof {
            lemma_tables_done(before.layout(), world.layout(), before@, all, total);
        }
        return ;
    }
    world.flush_reserved();
    let ghost w = world@;
    let ghost bytes = cmds.arena@.bytes;
    let mut i: usize = 0;
    while i < cmds.queue.len()
        invariant
            rung < APPLY_REAL,
            i <= cmds.queue@.len() == total == all.len(),
            *cmds == *old(cmds),
            cmds.wf(),
            all == cmds@,
            bytes == cmds.arena@.bytes,
            world.wf(),
            describes(all),
            w == flushed(old(world)@),
            commands_fit(sizes, w.registry.infos, all),
            infos_agree(sizes, world@.registry.infos),
            extends(w.registry, world@.registry),
            old(world).room(commands_cost(all, total)),
            rung < 2 ==> world@ == w,
            rung == 2 ==> world@ == with_registry(
                w,
                after_registers(w.registry, payloads(all), i as nat),
            ),
            rung == 3 ==> world@ == after_commands(w, all, i as nat),
            world.layout() == if rung == 3 {
                tables_after(old(world).layout(), w, all, i as nat)
            } else {
                old(world).layout()
            },
            forall|n: nat|
                old(world).room(n + commands_cost(all, i as nat)) ==> #[trigger] world.room(n),
        decreases cmds.queue.len() - i,
    {
        let ghost before = *world;
        let ghost c = all[i as int];
        let ghost cost = command_cost(c);
        proof {
            assert(c == cmds.queue@[i as int].state(bytes));
            assert(cmds.queue@[i as int].wf(bytes));
            assert(c is Insert);
            assert(command_fits(sizes, w.registry.infos, c));
            world.lemma_wf();
            lemma_commands_cost(all, (i + 1) as nat, total);
            let m = (commands_cost(all, total) - commands_cost(all, i as nat)) as nat;
            assert(old(world).room(m + commands_cost(all, i as nat)));
            assert(world.room(m));
            world.lemma_room(cost, m);
            world.lemma_room_infos(cost);
            lemma_command_keeps(sizes, world@, c);
            assert(payloads(all)[i as int] == c->Insert_part);
        }
        if let Queued::Insert { entity, part } = &cmds.queue[i] {
            if rung >= 1 {
                let value: Vec<u8> = bytes_of(cmds.arena.get(part.offset, part.len));
                if rung == 2 {
                    proof {
                        world.lemma_room(desc_count(part.desc), cost);
                        lemma_after_register(world@.registry, part.desc);
                        lemma_register_agrees(sizes, world@.registry, part.desc);
                    }
                    let id: ComponentId = world.register_component(&part.desc);
                } else if rung == 3 {
                    proof {
                        let infos = world@.registry.infos;
                        assert forall|k: int|
                            0 <= k < infos.len() && (#[trigger] infos[k]).key
                                == part.desc.key implies infos[k].size == part.desc.size by {
                            assert(sizes[infos[k].key] == infos[k].size);
                            assert(agrees(sizes, part.desc));
                        }
                    }
                    let done: bool = world.insert(*entity, &part.desc, value);
                }
            }
        }
        i = i + 1;
        proof {
            assert forall|n: nat| old(world).room(n + commands_cost(all, i as nat)) implies
                #[trigger] world.room(n) by {
                assert(old(world).room((n + cost) + commands_cost(all, (i - 1) as nat)));
                assert(before.room(n + cost));
                if rung == 2 {
                    before.lemma_room(n + desc_count(c->Insert_part.desc), n + cost);
                } else if rung < 2 {
                    before.lemma_room(n, n + cost);
                } else {
                    assert(before.room(n + desc_count(c->Insert_part.desc) + 1));
                }
            }
        }
    }
    cmds.queue.clear();
    cmds.arena.reset();
    assert(cmds@ =~= Seq::<CommandState>::empty());
}

/// Gives the queue room for more commands.
pub fn reserve_queue(cmds: &mut Commands, additional: usize)
    requires
        old(cmds).wf(),
    ensures
        final(cmds).wf(),
        final(cmds)@ == old(cmds)@,
        final(cmds).bound() == old(cmds).bound(),
        final(cmds).half_applied() == old(cmds).half_applied(),
        final(cmds).arena_state() == old(cmds).arena_state(),
{
    cmds.queue.reserve(additional);
}

/// Writes the payloads into the arena and their offsets, with the entities, into `scratch`.
/// Nothing is queued.
pub fn record_narrow(
    cmds: &mut Commands,
    scratch: &mut Vec<(Entity, u32)>,
    entities: &[Entity],
    items: Vec<BundlePart>,
)
    requires
        old(cmds).wf(),
        entities@.len() == items@.len(),
        stores_fit(old(cmds).arena_state(), item_states(items@), items@.len()),
    ensures
        final(cmds).wf(),
        final(cmds)@ == old(cmds)@,
        final(cmds).bound() == old(cmds).bound(),
        final(cmds).half_applied() == old(cmds).half_applied(),
        final(cmds).arena_state() == after_stores(
            old(cmds).arena_state(),
            item_states(items@),
            items@.len(),
        ),
        final(scratch)@.len() == old(scratch)@.len() + items@.len(),
        final(scratch)@.subrange(0, old(scratch)@.len() as int) == old(scratch)@,
        forall|i: int|
            0 <= i < items@.len() ==> (#[trigger] final(scratch)@[old(scratch)@.len() + i]).0
                == entities@[i] && final(scratch)@[old(scratch)@.len() + i].1
                == crate::arena::offset_of(
                after_stores(old(cmds).arena_state(), item_states(items@), i as nat),
                items@[i].value@,
                items@[i].desc.align as nat,
            ),
{
    let ghost all = item_states(items@);
    let ghost first = items@;
    let ghost base = cmds.arena_state();
    let ghost start = scratch@;
    let mut rest: Vec<BundlePart> = reversed(items);
    let ghost back = rest@;
    let mut n: usize = 0;
    assert(start.subrange(0, start.len() as int) =~= start);
    while rest.len() > 0
        invariant
            n + rest@.len() == all.len() == back.len() == entities@.len() == first.len(),
            all == item_states(first),
            back == first.reverse(),
            rest@ == back.subrange(0, rest@.len() as int),
            cmds.wf(),
            cmds@ == old(cmds)@,
            cmds.bound() == old(cmds).bound(),
            cmds.half_applied() == old(cmds).half_applied(),
            cmds.arena_state() == after_stores(base, all, n as nat),
            stores_fit(base, all, all.len()),
            scratch@.len() == start.len() + n,
            scratch@.subrange(0, start.len() as int) == start,
            forall|i: int|
                0 <= i < n ==> (#[trigger] scratch@[start.len() + i]).0 == entities@[i]
                    && scratch@[start.len() + i].1 == crate::arena::offset_of(
                    after_stores(base, all, i as nat),
                    first[i].value@,
                    first[i].desc.align as nat,
                ),
        decreases rest.len(),
    {
        proof {
            lemma_stores_fit(base, all, all.len(), (n + 1) as nat);
        }
        let ghost old_rest = rest@;
        let ghost prev = scratch@;
        if let Some(p) = rest.pop() {
            proof {
                assert(p == back[old_rest.len() - 1]);
                assert(p == first[n as int]);
                assert(rest@ =~= back.subrange(0, rest@.len() as int));
                assert(all[n as int] == (BundleState { desc: p.desc, value: p.value@ }));
            }
            let part: QueuedPart = cmds.store(p.desc, p.value.as_slice());
            scratch.push((entities[n], part.offset));
            n = n + 1;
            proof {
                assert(scratch@.subrange(0, start.len() as int) =~= start) by {
                    assert forall|k: int| 0 <= k < start.len() implies scratch@[k] == start[k] by {
                        assert(prev.subrange(0, start.len() as int)[k] == start[k]);
                    }
                }
                assert forall|i: int| 0 <= i < n implies (#[trigger] scratch@[start.len() + i]).0
                    == entities@[i] && scratch@[start.len() + i].1 == crate::arena::offset_of(
                    after_stores(base, all, i as nat),
                    first[i].value@,
                    first[i].desc.align as nat,
                ) by {
                    if i < n - 1 {
                        assert(scratch@[start.len() + i] == prev[start.len() + i]);
                    }
                }
            }
        }
    }
}

/// Number of commands in the queue.
pub fn queue_len(cmds: &Commands) -> (n: usize)
    ensures
        n == cmds@.len(),
{
    cmds.len()
}

/// Number of bytes that the arena has room for.
pub fn arena_bytes(cmds: &Commands) -> (n: usize)
    ensures
        n == cmds.arena_state().capacity,
{
    cmds.arena.capacity()
}

/// Size of a queued command on this machine.
pub closed spec fn command_size() -> nat {
    vstd::layout::size_of::<Queued>()
}

/// Number of bytes that a command takes in the queue.
pub fn command_bytes() -> (n: usize)
    ensures
        n == command_size(),
{
    core::mem::size_of::<Queued>()
}

/// Commands with an empty queue and arena.
pub fn fresh_commands() -> (c: Commands)
    ensures
        c.wf(),
        c@ == Seq::<CommandState>::empty(),
        c.bound() is None,
        !c.half_applied(),
        c.arena_state() == empty_arena(),
{
    Commands::new()
}

/// The world after one component per entity was inserted, of the first `n`.
pub open spec fn after_direct(
    w: WorldState,
    es: Seq<Entity>,
    items: Seq<BundleState>,
    n: nat,
) -> WorldState
    decreases n,
{
    if n == 0 {
        w
    } else {
        after_insert(
            after_direct(w, es, items, (n - 1) as nat),
            es[n - 1],
            items[n - 1].desc,
            items[n - 1].value,
        )
    }
}

/// Inserts one component per entity straight into the world.
pub fn direct_insert(world: &mut World, entities: &[Entity], items: Vec<BundlePart>)
    requires
        old(world).wf(),
        entities@.len() == items@.len(),
        old(world).room(
            commands_cost(
                inserts(entities@, item_states(items@), items@.len()),
                items@.len(),
            ),
        ),
        exists|sizes: Map<u64, usize>|
            #![trigger infos_agree(sizes, old(world)@.registry.infos)]
            infos_agree(sizes, old(world)@.registry.infos) && commands_fit(
                sizes,
                old(world)@.registry.infos,
                inserts(entities@, item_states(items@), items@.len()),
            ),
    ensures
        final(world).wf(),
        final(world)@ == after_direct(
            old(world)@,
            entities@,
            item_states(items@),
            items@.len(),
        ),
        final(world).layout() == tables_after(
            old(world).layout(),
            old(world)@,
            inserts(entities@, item_states(items@), items@.len()),
            items@.len(),
        ),
{
    let ghost all = inserts(entities@, item_states(items@), items@.len());
    let ghost states = item_states(items@);
    let ghost total = all.len();
    let ghost w = world@;
    let ghost sizes = choose|sizes: Map<u64, usize>|
        #![trigger infos_agree(sizes, old(world)@.registry.infos)]
        infos_agree(sizes, old(world)@.registry.infos) && commands_fit(
            sizes,
            old(world)@.registry.infos,
            inserts(entities@, item_states(items@), items@.len()),
        );
    let mut i: usize = 0;
    while i < items.len()
        invariant
            i <= items@.len() == entities@.len() == total == all.len(),
            w == old(world)@,
            states == item_states(items@),
            all == inserts(entities@, states, total),
            world.wf(),
            commands_fit(sizes, w.registry.infos, all),
            infos_agree(sizes, world@.registry.infos),
            extends(w.registry, world@.registry),
            old(world).room(commands_cost(all, total)),
            world@ == after_direct(w, entities@, states, i as nat),
            world.layout() == tables_after(
                old(world).layout(),
                w,
                all,
                i as nat,
            ),
            forall|n: nat|
                old(world).room(n + commands_cost(all, i as nat)) ==> #[trigger] world.room(n),
        decreases items.len() - i,
    {
        let ghost before = *world;
        let ghost c = all[i as int];
        let ghost cost = command_cost(c);
        proof {
            assert(states[i as int] == (BundleState {
                desc: items@[i as int].desc,
                value: items@[i as int].value@,
            }));
            assert(command_fits(sizes, w.registry.infos, c));
            world.lemma_wf();
            lemma_commands_cost(all, (i + 1) as nat, total);
            let m = (commands_cost(all, total) - commands_cost(all, i as nat)) as nat;
            assert(old(world).room(m + commands_cost(all, i as nat)));
            assert(world.room(m));
            world.lemma_room(cost, m);
            world.lemma_room_infos(cost);
            lemma_command_keeps(sizes, world@, c);
            let infos = world@.registry.infos;
            assert forall|k: int|
                0 <= k < infos.len() && (#[trigger] infos[k]).key
                    == items@[i as int].desc.key implies infos[k].size
                == items@[i as int].desc.size by {
                assert(sizes[infos[k].key] == infos[k].size);
                assert(agrees(sizes, items@[i as int].desc));
            }
        }
        let value: Vec<u8> = bytes_of(items[i].value.as_slice());
        let done: bool = world.insert(entities[i], &items[i].desc, value);
        i = i + 1;
        proof {
            law_direct_lands_where_deferred_does(w, entities@, states, i as nat);
            assert forall|n: nat| old(world).room(n + commands_cost(all, i as nat)) implies
                #[trigger] world.room(n) by {
                assert(old(world).room((n + cost) + commands_cost(all, (i - 1) as nat)));
                assert(before.room(n + cost));
                assert(before.room(n + desc_count(items@[i - 1].desc) + 1));
            }
        }
    }
}

/// The complete copy lands where the real path does: the copy of recording queues what the real
/// path queues, and the copy of applying gives the world that applying gives, with every entity in
/// the same archetype and row.
pub proof fn law_copy_matches_the_real_path(
    w: WorldState,
    t: Seq<Table>,
    cmds: Seq<CommandState>,
)
    ensures
        after_rung(w, cmds, APPLY_COPY_COMPLETE) == after_rung(w, cmds, APPLY_REAL),
        rung_tables(t, w, cmds, APPLY_COPY_COMPLETE) == rung_tables(t, w, cmds, APPLY_REAL),
{
}

/// Deferred inserts land where direct inserts do.
pub proof fn law_direct_lands_where_deferred_does(
    w: WorldState,
    es: Seq<Entity>,
    items: Seq<BundleState>,
    n: nat,
)
    requires
        n <= es.len() == items.len(),
    ensures
        after_direct(w, es, items, n) == after_commands(w, inserts(es, items, items.len()), n),
    decreases n,
{
    if n > 0 {
        law_direct_lands_where_deferred_does(w, es, items, (n - 1) as nat);
    }
}

/// The queue after one component per entity was recorded up to a rung in an empty queue.
pub open spec fn recorded(es: Seq<Entity>, items: Seq<BundleState>, rung: u8) -> Seq<CommandState> {
    if rung >= RECORD_COPY_COMPLETE {
        inserts(es, items, items.len())
    } else {
        Seq::empty()
    }
}

/// Whether an entity has a component of the type with the given key.
pub open spec fn has_type(w: WorldState, e: Entity, key: u64) -> bool {
    id_of(w.registry.infos, key) is Some && w.values[e].contains_key(
        id_of(w.registry.infos, key)->0,
    )
}

proof fn lemma_payload_cost(cmds: Seq<CommandState>, n: nat)
    requires
        n <= cmds.len(),
        forall|i: int| 0 <= i < cmds.len() ==> (#[trigger] cmds[i]) is Insert,
    ensures
        bundle_cost(payloads(cmds), n) <= commands_cost(cmds, n),
    decreases n,
{
    if n > 0 {
        lemma_payload_cost(cmds, (n - 1) as nat);
        assert(cmds[n - 1] is Insert);
        assert(payloads(cmds)[n - 1] == cmds[n - 1]->Insert_part);
    }
}

proof fn lemma_id_key(infos: Seq<InfoView>, key: u64)
    requires
        infos_wf(infos),
        id_of(infos, key) is Some,
    ensures
        id_of(infos, key)->0 < infos.len(),
        infos[id_of(infos, key)->0 as int].key == key,
{
    let i = choose|i: int| 0 <= i < infos.len() && (#[trigger] infos[i]).key == key;
    assert(0 <= i < infos.len() && infos[i].key == key);
    lemma_id_of(infos, i);
}

/// What holds once the first `n` inserts were applied.
proof fn lemma_inserts_applied(
    sizes: Map<u64, usize>,
    w: WorldState,
    es: Seq<Entity>,
    items: Seq<BundleState>,
    key: u64,
    a: u32,
    n: nat,
)
    requires
        infos_wf(w.registry.infos),
        requires_wf(w.registry),
        infos_agree(sizes, w.registry.infos),
        n <= es.len() == items.len(),
        forall|i: int|
            0 <= i < items.len() ==> (#[trigger] items[i]).desc.key == key && agrees(
                sizes,
                items[i].desc,
            ),
        w.registry.infos.len() + commands_cost(inserts(es, items, items.len()), n) <= INVALID_ID,
        a < w.registry.infos.len(),
        w.registry.infos[a as int].key != key,
        forall|i: int|
            0 <= i < es.len() ==> w.values.contains_key(#[trigger] es[i])
                && w.values[es[i]].contains_key(a),
    ensures
        ({
            let t = after_commands(w, inserts(es, items, items.len()), n);
            &&& infos_wf(t.registry.infos)
            &&& requires_wf(t.registry)
            &&& infos_agree(sizes, t.registry.infos)
            &&& extends(w.registry, t.registry)
            &&& t.registry.infos.len() <= w.registry.infos.len() + commands_cost(
                inserts(es, items, items.len()),
                n,
            )
            &&& forall|i: int|
                0 <= i < es.len() ==> t.values.contains_key(#[trigger] es[i])
                    && t.values[es[i]].contains_key(a) && t.values[es[i]][a] == w.values[es[i]][a]
            &&& forall|i: int| 0 <= i < n ==> has_type(t, #[trigger] es[i], key)
        }),
    decreases n,
{
    if n > 0 {
        let n1 = (n - 1) as nat;
        let cmds = inserts(es, items, items.len());
        lemma_inserts_applied(sizes, w, es, items, key, a, n1);
        let m = after_commands(w, cmds, n1);
        let t = after_commands(w, cmds, n);
        let e = es[n - 1];
        let d = items[n - 1].desc;
        assert(cmds[n - 1] == CommandState::Insert { entity: e, part: items[n - 1] });
        assert(items[n - 1].desc.key == key && agrees(sizes, items[n - 1].desc));
        lemma_after_register(m.registry, d);
        lemma_register_agrees(sizes, m.registry, d);
        lemma_register_requires(sizes, m.registry, d);
        let r = after_register(m.registry, d);
        lemma_id_key(r.infos, key);
        let b = id_of(r.infos, key)->0;
        let p = PartState { id: b, value: items[n - 1].value, tick: m.tick };
        assert(r.infos[a as int] == m.registry.infos[a as int]);
        assert(m.registry.infos[a as int] == w.registry.infos[a as int]);
        assert(a != b);
        lemma_put_one(r, m.values[e], p, m.tick, a);
        assert(m.values.contains_key(es[n - 1]));
        assert(t.registry == r);
        assert forall|i: int| 0 <= i < n implies has_type(t, #[trigger] es[i], key) by {
            if es[i] != e {
                assert(has_type(m, es[i], key));
                law_registering_keeps_numbers(m.registry, d, key);
            }
        }
        assert forall|i: int| 0 <= i < es.len() implies t.values.contains_key(#[trigger] es[i])
            && t.values[es[i]].contains_key(a) && t.values[es[i]][a] == w.values[es[i]][a] by {
            assert(m.values.contains_key(es[i]));
        }
    }
}

/// Every rung leaves a consistent world: whatever the rungs of recording and applying, each entity
/// keeps the component that it had, with its value, and the new component is on all of the
/// entities where both rungs reach far enough, and on none otherwise.
pub proof fn law_every_rung_leaves_a_consistent_world(
    sizes: Map<u64, usize>,
    w: WorldState,
    es: Seq<Entity>,
    items: Seq<BundleState>,
    record: u8,
    apply: u8,
    key: u64,
    a: u32,
    k: int,
)
    requires
        infos_wf(w.registry.infos),
        requires_wf(w.registry),
        infos_agree(sizes, w.registry.infos),
        es.len() == items.len(),
        bundle_fits(sizes, items),
        forall|i: int| 0 <= i < items.len() ==> (#[trigger] items[i]).desc.key == key,
        w.registry.infos.len() + commands_cost(
            inserts(es, items, items.len()),
            items.len(),
        ) <= INVALID_ID,
        record <= RECORD_REAL,
        apply <= APPLY_REAL,
        forall|i: int|
            0 <= i < es.len() ==> w.values.contains_key(#[trigger] es[i])
                && w.values[es[i]].contains_key(a),
        forall|i: int, c: u32|
            0 <= i < es.len() && #[trigger] w.values[es[i]].contains_key(c) ==> c
                < w.registry.infos.len() && w.registry.infos[c as int].key != key,
        0 <= k < es.len(),
    ensures
        ({
            let t = after_rung(w, recorded(es, items, record), apply);
            &&& t.values.contains_key(es[k])
            &&& t.values[es[k]].contains_key(a)
            &&& t.values[es[k]][a] == w.values[es[k]][a]
            &&& has_type(t, es[k], key) <==> record >= RECORD_COPY_COMPLETE && apply
                >= APPLY_COPY_COMPLETE
        }),
{
    let cmds = recorded(es, items, record);
    let t = after_rung(w, cmds, apply);
    assert(w.values[es[k]].contains_key(a));
    if record >= RECORD_COPY_COMPLETE && apply >= APPLY_COPY_COMPLETE {
        assert forall|i: int| 0 <= i < items.len() implies (#[trigger] items[i]).desc.key == key
            && agrees(sizes, items[i].desc) by {
            assert(bundle_fits(sizes, items));
        }
        lemma_inserts_applied(sizes, w, es, items, key, a, es.len());
        assert(cmds.len() == es.len());
        assert(has_type(t, es[k], key));
    } else {
        let n = cmds.len();
        if record >= RECORD_COPY_COMPLETE && apply == 2 {
            assert forall|i: int| 0 <= i < cmds.len() implies (#[trigger] cmds[i]) is Insert by {}
            lemma_payload_cost(cmds, n);
            assert(payloads(cmds) =~= items);
            lemma_after_registers(sizes, w.registry, items, n);
        }
        assert(extends(w.registry, t.registry));
        assert(infos_wf(t.registry.infos));
        assert(t.values == w.values);
        if has_type(t, es[k], key) {
            lemma_id_key(t.registry.infos, key);
            let b = id_of(t.registry.infos, key)->0;
            assert(w.values[es[k]].contains_key(b));
            assert(t.registry.infos[b as int] == w.registry.infos[b as int]);
        }
    }
}

/// Name of a rung of recording.
pub fn record_rung_name(rung: u8) -> (name: &'static str)
    requires
        rung <= RECORD_REAL,
    ensures
        name@ == if rung == 0 {
            "payload ctor only"@
        } else if rung == 1 {
            "+arena.alloc"@
        } else if rung == RECORD_COPY_COMPLETE {
            "+queue.push == COPY COMPLETE"@
        } else {
            "real Commands::insert"@
        },
{
    if rung == 0 {
        "payload ctor only"
    } else if rung == 1 {
        "+arena.alloc"
    } else if rung == RECORD_COPY_COMPLETE {
        "+queue.push == COPY COMPLETE"
    } else {
        "real Commands::insert"
    }
}

/// Name of a rung of applying.
pub fn apply_rung_name(rung: u8) -> (name: &'static str)
    requires
        rung <= APPLY_REAL,
    ensures
        name@ == if rung == 0 {
            "flush + queue walk + group probe"@
        } else if rung == 1 {
            "+payload read from arena"@
        } else if rung == 2 {
            "+component id resolve"@
        } else if rung == APPLY_COPY_COMPLETE {
            "+World::insert == COPY COMPLETE"@
        } else {
            "real Commands::apply"@
        },
{
    if rung == 0 {
        "flush + queue walk + group probe"
    } else if rung == 1 {
        "+payload read from arena"
    } else if rung == 2 {
        "+component id resolve"
    } else if rung == APPLY_COPY_COMPLETE {
        "+World::insert == COPY COMPLETE"
    } else {
        "real Commands::apply"
    }
}

/// A queue that has room: one insert per entity was recorded in it and applied. Hooks that get due
/// are left for later.
pub fn warmed_commands(world: &mut World, entities: &[Entity], items: Vec<BundlePart>) -> (c:
    Commands)
    requires
        old(world).wf(),
        entities@.len() == items@.len(),
        stores_fit(
            empty_arena(),
            item_states(items@),
            items@.len(),
        ),
        old(world).room(
            commands_cost(
                inserts(entities@, item_states(items@), items@.len()),
                items@.len(),
            ),
        ),
        exists|sizes: Map<u64, usize>|
            #![trigger infos_agree(sizes, old(world)@.registry.infos)]
            infos_agree(sizes, old(world)@.registry.infos) && commands_fit(
                sizes,
                old(world)@.registry.infos,
                inserts(entities@, item_states(items@), items@.len()),
            ),
    ensures
        c.wf(),
        final(world).wf(),
        c@ == Seq::<CommandState>::empty(),
        c.bound() is None,
        !c.half_applied(),
        final(world)@ == after_commands(
            flushed(old(world)@),
            inserts(entities@, item_states(items@), items@.len()),
            items@.len(),
        ),
        final(world).layout() == tables_between(
            old(world).layout(),
            flushed(old(world)@),
            inserts(entities@, item_states(items@), items@.len()),
            0,
            items@.len(),
        ),
{
    let mut c: Commands = Commands::new();
    let ghost all = inserts(entities@, item_states(items@), items@.len());
    let ghost total = all.len();
    record_rung(&mut c, entities, RECORD_REAL, items);
    proof {
        assert(c@ =~= all);
        assert forall|k: int| 0 <= k < total implies !is_outside(#[trigger] all[k]) by {
            assert(all[k] is Insert);
        }
        lemma_goes_through(flushed(world@), all);
        assert forall|i: int|
            0 <= i < all.len() && spawns_reserved(#[trigger] all[i]) implies false by {
            assert(all[i] is Insert);
        }
    }
    let ghost sizes = choose|sizes: Map<u64, usize>|
        #![trigger infos_agree(sizes, old(world)@.registry.infos)]
        infos_agree(sizes, old(world)@.registry.infos) && commands_fit(
            sizes,
            old(world)@.registry.infos,
            all,
        );
    c.start(world);
    assert(infos_agree(sizes, world@.registry.infos));
    let ghost before = *world;
    let _next: Option<super::Deferred> = c.run(world, false);
    proof {
        lemma_tables_done(before.layout(), world.layout(), before@, all, total);
    }
    c
}

/// The ladder records one insert per entity, in order, with the component of that place.
pub proof fn law_inserts_go_to_their_entities(
    es: Seq<Entity>,
    items: Seq<BundleState>,
    n: nat,
    i: int,
)
    requires
        0 <= i < n,
    ensures
        inserts(es, items, n).len() == n,
        inserts(es, items, n)[i] == (CommandState::Insert { entity: es[i], part: items[i] }),
{
}

/// The lower rungs change no component of any entity, and the upper ones carry out every command of
/// the queue.
pub proof fn law_upper_rungs_apply_everything(w: WorldState, cmds: Seq<CommandState>, rung: u8)
    ensures
        rung < 3 ==> after_rung(w, cmds, rung).values == w.values && after_rung(
            w,
            cmds,
            rung,
        ).entities == w.entities,
        rung < 2 ==> after_rung(w, cmds, rung) == w,
        rung >= 3 ==> after_rung(w, cmds, rung) == after_commands(w, cmds, cmds.len()),
{
}

} // verus!
