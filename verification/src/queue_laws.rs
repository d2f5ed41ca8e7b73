//! What queued commands come to: what the same operations do to the world directly, in the order of
//! queuing, and when the caller is asked.

use vstd::prelude::*;
use crate::commands::{
    CommandState, Deferred, adopted, after_command, after_commands, bound_after, command_discards,
    commands_discards, goes_with, is_handed_out, is_outcome, spawn_ids, spawns, started, stops,
    world_after_ids,
};
use crate::entity::{BlockState, Entity, after_draw, after_flush, drawn};
use crate::registry::{RegistryState, infos_wf, lemma_id_of};
use crate::relations::{ChildOf, KindInfo, RelationKind, distinct_keys, kind_index, lemma_kind_index};
use crate::requirements::DiscardState;
use crate::world::{
    BundleState, PartState, WorldState, after_add_relation, after_despawns, after_insert,
    after_inserts, after_remove, after_remove_relation, after_spawn_bundle, after_spawn_reserved,
    subjects_of,
};

verus! {

/// A queued command does what the same operation does directly: a spawn, an insert, a removal, a
/// despawn, a relation that comes or goes, a resource that is set.
pub proof fn law_commands_do_what_the_world_does(
    w: WorldState,
    e: Entity,
    target: Entity,
    bundle: Seq<BundleState>,
    part: BundleState,
    raw: PartState,
    kind: KindInfo,
    key: u64,
    id: u32,
    value: Vec<u8>,
)
    requires
        infos_wf(w.registry.infos),
    ensures
        e.index == u32::MAX && e.generation == u32::MAX ==> after_command(
            w,
            CommandState::Spawn { entity: e, bundle },
        ) == after_spawn_bundle(w, bundle),
        !(e.index == u32::MAX && e.generation == u32::MAX) ==> after_command(
            w,
            CommandState::Spawn { entity: e, bundle },
        ) == after_spawn_reserved(w, e, bundle),
        after_command(w, CommandState::Insert { entity: e, part }) == after_insert(
            w,
            e,
            part.desc,
            part.value,
        ),
        after_command(w, CommandState::InsertRaw { entity: e, part: raw }) == after_inserts(
            w,
            e,
            seq![raw],
        ),
        after_command(w, CommandState::Remove { entity: e, id }) == after_remove(w, e, id),
        forall|i: u32|
            i < w.registry.infos.len() && (#[trigger] w.registry.infos[i as int]).key == key
                ==> after_command(w, CommandState::RemoveTyped { entity: e, key }) == after_remove(
                w,
                e,
                i,
            ),
        (forall|i: int| 0 <= i < w.registry.infos.len() ==> (#[trigger] w.registry.infos[i]).key
            != key) ==> after_command(w, CommandState::RemoveTyped { entity: e, key }) == w,
        w.values.contains_key(e) ==> after_command(w, CommandState::Despawn { entity: e })
            == after_despawns(w, seq![e]),
        after_command(w, CommandState::AddRelation { subject: e, kind, target })
            == after_add_relation(w, e, kind, target),
        after_command(w, CommandState::RemoveRelation { subject: e, key, target })
            == after_remove_relation(w, e, key, target),
        ({
            let t = after_command(w, CommandState::InsertResource { key, value });
            &&& t.resources.values == w.resources.values.insert(key, value)
            &&& t.resources.changed == w.resources.changed.insert(key, w.tick)
            &&& t == WorldState { resources: t.resources, ..w }
        }),
{
    assert forall|i: u32|
        i < w.registry.infos.len() && (#[trigger] w.registry.infos[i as int]).key
            == key implies after_command(w, CommandState::RemoveTyped { entity: e, key })
        == after_remove(w, e, i) by {
        lemma_id_of(w.registry.infos, i as int);
    }
}

/// A despawn of the dead changes nothing but that it is an anomaly.
pub proof fn law_despawning_the_dead_is_an_anomaly(w: WorldState, e: Entity)
    requires
        !w.values.contains_key(e),
    ensures
        ({
            let t = after_command(w, CommandState::Despawn { entity: e });
            &&& t.values == w.values
            &&& t.entities == w.entities
            &&& t.relations == w.relations
            &&& t.anomalies.len() == w.anomalies.len() + 1
            &&& t.anomalies.last().entity == Some(e)
            &&& t.counts.warn as int == (w.counts.warn + 1) % 0x1_0000_0000_0000_0000
        }),
{
    crate::text_laws::law_anomalies_are_counted_once(w.counts, crate::error::Severity::Warn);
}

/// Commands are applied one after the other, each once and in the order of queuing.
pub proof fn law_commands_apply_in_order(w: WorldState, cmds: Seq<CommandState>, n: nat)
    ensures
        after_commands(w, cmds, 0) == w,
        after_commands(w, cmds, n + 1) == after_command(
            after_commands(w, cmds, n),
            cmds[n as int],
        ),
{
}

/// The caller is asked for what only the caller can do, functions and templates, and, where hooks
/// are heeded, for hooks that are due and for children that are to be taken from their parent one
/// by one because a hook follows each. For nothing else.
pub proof fn law_the_caller_is_asked_for(w: WorldState, cmds: Seq<CommandState>, k: nat, heed: bool)
    requires
        k < cmds.len(),
        distinct_keys(after_commands(w, cmds, k).relations.kinds),
        after_commands(w, cmds, k).relations.kinds.len() <= u32::MAX,
    ensures
        stops(w, cmds, k, heed) <==> {
            let now = after_commands(w, cmds, k);
            ||| cmds[k as int] is Apply
            ||| cmds[k as int] is Template
            ||| heed && now.relations.hooks.len() > 0
            ||| heed && cmds[k as int] is ClearChildren && exists|i: int|
                0 <= i < now.relations.kinds.len() && (#[trigger] now.relations.kinds[i]).key
                    == ChildOf::spec_kind_key() && now.relations.kinds[i].on_remove is Some
        },
{
    let now = after_commands(w, cmds, k);
    let kinds = now.relations.kinds;
    let key = ChildOf::spec_kind_key();
    if kind_index(kinds, key) is Some {
        let j = choose|j: int| 0 <= j < kinds.len() && (#[trigger] kinds[j]).key == key;
        lemma_kind_index(kinds, j);
        assert(0 <= j < kinds.len() && kinds[j].key == key);
        assert forall|i: int| 0 <= i < kinds.len() && (#[trigger] kinds[i]).key == key implies i
            == j by {
            lemma_kind_index(kinds, i);
        }
    }
}

/// What the caller is told is what the command says: the function, the template with its
/// parameters, or the children of the parent.
pub proof fn law_the_caller_is_told_what_to_do(w: WorldState, c: CommandState, d: Deferred)
    requires
        is_handed_out(w, c, d),
    ensures
        match c {
            CommandState::Apply { handle } => d == Deferred::Apply(handle),
            CommandState::Template { name, params } => {
                &&& d is Template
                &&& d->Template_name@ == name
                &&& d->Template_params == params
            },
            CommandState::ClearChildren { parent } => {
                &&& d is Orphans
                &&& d->Orphans_parent == parent
                &&& d->Orphans_children@ == subjects_of(w, ChildOf::spec_kind_key(), parent)
            },
            _ => false,
        },
{
}

/// Applying is done when every command was carried out and, where hooks are heeded, none is due.
/// Where the caller is asked to run hooks, nothing of the queue is lost; where the caller is asked
/// for a command, that command and no other leaves the queue.
pub proof fn law_nothing_of_the_queue_is_lost(
    now: WorldState,
    cmds: Seq<CommandState>,
    k: nat,
    heed: bool,
    next: Option<Deferred>,
    rest: Seq<CommandState>,
)
    requires
        k <= cmds.len(),
        is_outcome(now, cmds, k, heed, next, rest),
    ensures
        match next {
            None => k == cmds.len() && rest.len() == 0 && !(heed && now.relations.hooks.len() > 0),
            Some(d) => if d is Hooks {
                &&& heed && now.relations.hooks.len() > 0
                &&& cmds == cmds.subrange(0, k as int) + rest
            } else {
                &&& k < cmds.len()
                &&& is_handed_out(now, cmds[k as int], d)
                &&& cmds == cmds.subrange(0, k as int).push(cmds[k as int]) + rest
            },
        },
{
    if let Some(d) = next {
        if d is Hooks {
            assert(cmds =~= cmds.subrange(0, k as int) + rest);
        } else {
            assert(cmds =~= cmds.subrange(0, k as int).push(cmds[k as int]) + rest);
        }
    }
}

/// Commands are applied together only where they write to one entity, or spawn bundles of the same
/// types.
pub proof fn law_what_is_applied_together(c: CommandState, d: CommandState)
    ensures
        goes_with(c, d) <==> {
            ||| c is Insert && d is Insert && c->Insert_entity == d->Insert_entity
            ||| c is Insert && d is InsertRaw && c->Insert_entity == d->InsertRaw_entity
            ||| c is InsertRaw && d is Insert && c->InsertRaw_entity == d->Insert_entity
            ||| c is InsertRaw && d is InsertRaw && c->InsertRaw_entity == d->InsertRaw_entity
            ||| c is Spawn && d is Spawn && c->Spawn_bundle.len() == d->Spawn_bundle.len()
                && forall|i: int|
                0 <= i < c->Spawn_bundle.len() ==> (#[trigger] c->Spawn_bundle[i]).desc.key
                    == d->Spawn_bundle[i].desc.key
        },
{
}

/// Applying starts by reconciling reservations, which changes no component and no relation; going on
/// does not do it again.
pub proof fn law_applying_starts_once(w: WorldState)
    ensures
        started(w, true) == w,
        started(w, false) == (WorldState { entities: after_flush(w.entities), ..w }),
{
}

/// A command that is not applied hands back each value that needs disposal, and no other.
pub proof fn law_unapplied_inserts_hand_back_their_value(
    r: RegistryState,
    e: Entity,
    part: BundleState,
    raw: PartState,
)
    ensures
        command_discards(r, CommandState::Insert { entity: e, part }) == if part.desc.needs_drop {
            seq![DiscardState { key: part.desc.key, value: part.value }]
        } else {
            Seq::empty()
        },
        raw.id < r.infos.len() ==> command_discards(
            r,
            CommandState::InsertRaw { entity: e, part: raw },
        ) == if r.infos[raw.id as int].needs_drop {
            seq![DiscardState { key: r.infos[raw.id as int].key, value: raw.value }]
        } else {
            Seq::empty()
        },
{
}

/// A spawn that is not applied hands back the values of its bundle that need disposal, in order.
pub proof fn law_unapplied_spawns_hand_back_their_values(
    r: RegistryState,
    e: Entity,
    bundle: Seq<BundleState>,
    more: BundleState,
)
    ensures
        command_discards(r, CommandState::Spawn { entity: e, bundle: bundle.push(more) })
            == command_discards(r, CommandState::Spawn { entity: e, bundle }) + if more.desc.needs_drop {
            seq![DiscardState { key: more.desc.key, value: more.value }]
        } else {
            Seq::empty()
        },
        command_discards(r, CommandState::Spawn { entity: e, bundle: Seq::empty() }).len() == 0,
{
    lemma_bundle_discards(bundle, bundle.push(more), bundle.len());
}

proof fn lemma_bundle_discards(a: Seq<BundleState>, b: Seq<BundleState>, n: nat)
    requires
        n <= a.len() <= b.len(),
        forall|i: int| 0 <= i < a.len() ==> #[trigger] b[i] == a[i],
    ensures
        crate::commands::bundle_discards(a, n) == crate::commands::bundle_discards(b, n),
    decreases n,
{
    if n > 0 {
        lemma_bundle_discards(a, b, (n - 1) as nat);
        assert(b[n - 1] == a[n - 1]);
    }
}

/// A queue that is cleared hands back what each of its commands does, in order.
pub proof fn law_cleared_queues_hand_back_everything(
    r: RegistryState,
    cmds: Seq<CommandState>,
    n: nat,
)
    ensures
        commands_discards(r, cmds, 0).len() == 0,
        commands_discards(r, cmds, n + 1) == commands_discards(r, cmds, n) + command_discards(
            r,
            cmds[n as int],
        ),
{
}

/// A child is added by relating it to its parent.
pub proof fn law_children_are_related_to_their_parent(child: Entity, parent: Entity)
    ensures
        ({
            let c = adopted(child, parent);
            &&& c is AddRelation
            &&& c->AddRelation_subject == child
            &&& c->AddRelation_target == parent
            &&& c->AddRelation_kind.key == ChildOf::spec_kind_key()
            &&& c->AddRelation_kind.exclusive
            &&& c->AddRelation_kind.cascade
        }),
{
}

/// Spawns that are queued are those of the bundles, in order, each as its entity.
pub proof fn law_batches_are_queued_in_order(
    es: Seq<Entity>,
    bundles: Seq<Seq<BundleState>>,
    n: nat,
    i: int,
)
    requires
        0 <= i < n,
    ensures
        spawns(es, bundles, n).len() == n,
        spawns(es, bundles, n)[i] == (CommandState::Spawn { entity: es[i], bundle: bundles[i] }),
{
}

/// A queue with a reserver knows its entities at once; one without knows them when it is applied,
/// and takes nothing from the world before.
pub proof fn law_spawns_know_their_entities(
    w: WorldState,
    bound: Option<Option<BlockState>>,
    n: nat,
    i: int,
)
    requires
        0 <= i < n,
    ensures
        bound is None ==> {
            &&& spawn_ids(bound, w.entities, n).len() == n
            &&& spawn_ids(bound, w.entities, n)[i].index == u32::MAX
            &&& spawn_ids(bound, w.entities, n)[i].generation == u32::MAX
            &&& world_after_ids(w, bound, n) == w
            &&& bound_after(bound, n) is None
        },
        bound == Some(None::<BlockState>) ==> {
            &&& spawn_ids(bound, w.entities, n) == drawn(w.entities, n)
            &&& world_after_ids(w, bound, n) == (WorldState {
                entities: after_draw(w.entities, n),
                ..w
            })
            &&& bound_after(bound, n) == Some(None::<BlockState>)
        },
{
}

} // verus!
