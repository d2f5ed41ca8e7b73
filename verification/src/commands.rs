//! Commands: structural changes of a world that are queued and applied later.
//!
//! Applying keeps the order of the commands. Runs of commands that write components of one entity
//! are applied as a group, and runs of spawns of the same types as a batch: both give what the
//! commands give one after the other.

use vstd::prelude::*;
use vstd::string::StringExecFns;
use crate::arena::{
    ArenaState, CommandArena, after_store, empty_arena, has_room, law_payload_is_at_its_offset,
    law_store_keeps_payloads, offset_of,
};
use crate::column::bytes_of;
use crate::command_laws::law_applying_stops_at_the_first_place;
use crate::component::{ComponentId, INVALID_ID, Tick};
use crate::entity::{
    AllocState, BlockState, Entity, EntityReserver, after_flush, alive, allocated, is_current,
    real_indices,
};
use crate::entity_laws::{all_wait, awaits, law_flush_keeps_waiting};
use crate::error::{Anomaly, AnomalyState, Severity};
use crate::registry::{
    ComponentDesc, InfoView, RegistryState, after_register, agrees, desc_count, extends, id_of,
    infos_agree, lemma_after_register, lemma_id_of, lemma_register_agrees, requires_wf,
};
use crate::relations::{
    ChildOf, HookEvent, Kind, KindInfo, RelationKind, kind_index, kind_of,
};
use crate::requirements::{
    DiscardState, Discarded, discard_for, discard_of, discard_states, lemma_none, lemma_one_more,
};
use crate::resources::with_resource;
use crate::sizes::{desc_cost, lemma_bundle_cost};
use crate::storage::{after_reserve, entities_after_reserve, reserved_ids};
use crate::world::{
    Bundle, BundlePart, BundleState, PartState, RawPart, World, WorldState, after_add_relation,
    after_add_relations, after_despawns, after_drops, after_insert, after_inserts, after_release,
    after_remove, after_remove_relation, after_spawn_all, after_spawn_one, bundle_cost, bundle_fits,
    bundle_states, part_states, ready, reported, same_types, settled, states_fit, subjects_of,
    target_in, with_registry, world_ok,
};
use self::layout::{
    laid_out, leads_to, lemma_laid_out_group, lemma_laid_out_one, lemma_laid_out_spawns,
    lemma_leads_nowhere, lemma_leads_on, lemma_run_end, lemma_run_end_behind, lemma_tables_done, lemma_tables_spawned,
    tables_after, tables_after_command, tables_between,
};

pub mod insert_ladder;
pub mod layout;

verus! {

/// A command.
pub enum CommandState {
    /// Spawn a bundle: as a reserved entity, or as a new one where that is a placeholder.
    Spawn { entity: Entity, bundle: Seq<BundleState> },
    /// Write a component of a described type.
    Insert { entity: Entity, part: BundleState },
    /// Remove a component.
    Remove { entity: Entity, id: u32 },
    /// Remove a component of the type with the given key.
    RemoveTyped { entity: Entity, key: u64 },
    /// Write a component of a registered type.
    InsertRaw { entity: Entity, part: PartState },
    /// Despawn an entity.
    Despawn { entity: Entity },
    /// Spawn an entity from a template, which the caller knows by name.
    Template { name: Seq<char>, params: u64 },
    /// Run a function of the caller's.
    Apply { handle: u64 },
    /// Add a relation.
    AddRelation { subject: Entity, kind: KindInfo, target: Entity },
    /// Remove a relation.
    RemoveRelation { subject: Entity, key: u64, target: Entity },
    /// Add relations of many subjects to one target.
    AddRelations { subjects: Seq<Entity>, kind: KindInfo, target: Entity },
    /// Take an entity from its parent.
    RemoveParent { entity: Entity },
    /// Take all children from an entity.
    ClearChildren { parent: Entity },
    /// Set a resource.
    InsertResource { key: u64, value: Vec<u8> },
}

/// What the caller has to do before applying goes on.
pub enum Deferred {
    /// Run the function with this handle.
    Apply(u64),
    /// Spawn an entity from the template of this name.
    Template { name: String, params: u64 },
    /// Take these children from their parent, one after the other, and run the hooks that are due
    /// after each.
    Orphans { parent: Entity, children: Vec<Entity> },
    /// Run the hooks that are due.
    Hooks,
}

/// Whether a command is carried out by the caller.
pub open spec fn is_outside(c: CommandState) -> bool {
    c is Apply || c is Template
}

/// Key of the kind of relation between child and parent.
pub open spec fn child_key() -> u64 {
    ChildOf::spec_kind_key()
}

/// The anomaly of despawning a dead entity.
pub open spec fn despawn_noop(e: Entity) -> AnomalyState {
    AnomalyState {
        severity: Severity::Warn,
        op: "Commands::despawn"@,
        entity: Some(e),
        component: None,
        detail: "no-op (already despawned?)"@,
    }
}

/// The state after the first `n` children were taken from their parent.
pub open spec fn after_orphaned(w: WorldState, children: Seq<Entity>, parent: Entity, n: nat) -> WorldState
    decreases n,
{
    if n == 0 {
        w
    } else {
        after_remove_relation(
            after_orphaned(w, children, parent, (n - 1) as nat),
            children[n - 1],
            child_key(),
            parent,
        )
    }
}

/// The state after one command.
pub open spec fn after_command(w: WorldState, c: CommandState) -> WorldState {
    match c {
        CommandState::Spawn { entity, bundle } => after_spawn_one(w, entity, bundle),
        CommandState::Insert { entity, part } => after_insert(w, entity, part.desc, part.value),
        CommandState::Remove { entity, id } => after_remove(w, entity, id),
        CommandState::RemoveTyped { entity, key } => match id_of(w.registry.infos, key) {
            Some(id) => after_remove(w, entity, id),
            None => w,
        },
        CommandState::InsertRaw { entity, part } => after_inserts(w, entity, seq![part]),
        CommandState::Despawn { entity } => if w.values.contains_key(entity) {
            after_despawns(w, seq![entity])
        } else {
            reported(w, despawn_noop(entity))
        },
        CommandState::AddRelation { subject, kind, target } => after_add_relation(
            w,
            subject,
            kind,
            target,
        ),
        CommandState::RemoveRelation { subject, key, target } => after_remove_relation(
            w,
            subject,
            key,
            target,
        ),
        CommandState::AddRelations { subjects, kind, target } => after_add_relations(
            w,
            subjects,
            kind,
            target,
            subjects.len(),
        ),
        CommandState::RemoveParent { entity } => match target_in(w, entity, child_key()) {
            Some(parent) => after_remove_relation(w, entity, child_key(), parent),
            None => w,
        },
        CommandState::ClearChildren { parent } => {
            let children = subjects_of(w, child_key(), parent);
            after_orphaned(w, children, parent, children.len())
        },
        CommandState::InsertResource { key, value } => WorldState {
            resources: with_resource(w.resources, key, value, w.tick),
            ..w
        },
        CommandState::Template { .. } => w,
        CommandState::Apply { .. } => w,
    }
}

/// The state after the first `n` commands, one after the other.
pub open spec fn after_commands(w: WorldState, cmds: Seq<CommandState>, n: nat) -> WorldState
    decreases n,
{
    if n == 0 {
        w
    } else {
        after_command(after_commands(w, cmds, (n - 1) as nat), cmds[n - 1])
    }
}

/// Whether hooks are due.
pub open spec fn hooks_are_due(w: WorldState) -> bool {
    w.relations.hooks.len() > 0
}

/// Whether a hook runs when a child is taken from its parent.
pub open spec fn orphans_have_hook(w: WorldState) -> bool {
    match kind_index(w.relations.kinds, child_key()) {
        Some(k) => w.relations.kinds[k as int].on_remove is Some,
        None => false,
    }
}

/// Whether applying stops after the first `k` commands. Where hooks are heeded it does so when one
/// is due, and before a command that takes several steps with hooks between them.
pub open spec fn stops(w: WorldState, cmds: Seq<CommandState>, k: nat, heed: bool) -> bool {
    let now = after_commands(w, cmds, k);
    ||| heed && hooks_are_due(now)
    ||| k < cmds.len() && is_outside(cmds[k as int])
    ||| k < cmds.len() && heed && cmds[k as int] is ClearChildren && orphans_have_hook(now)
}

/// The entity to which a command writes a component.
pub open spec fn writes_to(c: CommandState) -> Option<Entity> {
    match c {
        CommandState::Insert { entity, .. } => Some(entity),
        CommandState::InsertRaw { entity, .. } => Some(entity),
        _ => None,
    }
}

/// Whether `d` is applied together with `c` where it follows it: both write to one entity, or both
/// spawn bundles of the same types.
pub open spec fn goes_with(c: CommandState, d: CommandState) -> bool {
    match (c, d) {
        (CommandState::Spawn { bundle: a, .. }, CommandState::Spawn { bundle: b, .. }) => same_types(
            a,
            b,
        ),
        _ => writes_to(c) is Some && writes_to(c) == writes_to(d),
    }
}

/// Place of the first command from `j` on that does not go with command `i`.
pub open spec fn run_end(cmds: Seq<CommandState>, i: nat, j: nat) -> nat
    decreases cmds.len() - j,
{
    if j < cmds.len() && goes_with(cmds[i as int], cmds[j as int]) {
        run_end(cmds, i, j + 1)
    } else {
        j
    }
}

pub proof fn lemma_run_end_grows(cmds: Seq<CommandState>, i: nat, j: nat)
    ensures
        run_end(cmds, i, j) >= j,
        j <= cmds.len() ==> run_end(cmds, i, j) <= cmds.len(),
    decreases cmds.len() - j,
{
    if j < cmds.len() && goes_with(cmds[i as int], cmds[j as int]) {
        lemma_run_end_grows(cmds, i, j + 1);
    }
}

/// Number of commands after which applying stops, from `from` on. Commands that go together are
/// one operation, so applying does not stop between them.
pub open spec fn stop_place(w: WorldState, cmds: Seq<CommandState>, from: nat, heed: bool) -> nat
    decreases cmds.len() - from,
{
    if from >= cmds.len() {
        cmds.len()
    } else if stops(w, cmds, from, heed) {
        from
    } else {
        proof {
            lemma_run_end_grows(cmds, from, from + 1);
        }
        stop_place(w, cmds, run_end(cmds, from, from + 1), heed)
    }
}

/// Whether `d` is what the caller is told to do for a command.
pub open spec fn is_handed_out(w: WorldState, c: CommandState, d: Deferred) -> bool {
    match c {
        CommandState::Apply { handle } => d == Deferred::Apply(handle),
        CommandState::Template { name, params } => d matches Deferred::Template {
            name: n,
            params: p,
        } && n@ == name && p == params,
        CommandState::ClearChildren { parent } => d matches Deferred::Orphans {
            parent: p,
            children,
        } && p == parent && children@ == subjects_of(w, child_key(), parent),
        _ => false,
    }
}

/// What applying comes to: `now` is the state, `k` the number of commands that were carried out,
/// `rest` the queue that is left.
pub open spec fn is_outcome(
    now: WorldState,
    cmds: Seq<CommandState>,
    k: nat,
    heed: bool,
    next: Option<Deferred>,
    rest: Seq<CommandState>,
) -> bool {
    let due = heed && hooks_are_due(now);
    match next {
        None => !due && k == cmds.len() && rest == Seq::<CommandState>::empty(),
        Some(Deferred::Hooks) => due && rest == cmds.subrange(k as int, cmds.len() as int),
        Some(d) => !due && k < cmds.len() && is_handed_out(now, cmds[k as int], d) && rest
            == cmds.subrange(k as int + 1, cmds.len() as int),
    }
}

/// The world in which a queue is applied: reservations are reconciled when applying starts, and not
/// again when it goes on.
pub open spec fn started(w: WorldState, half_applied: bool) -> WorldState {
    if half_applied {
        w
    } else {
        flushed(w)
    }
}

/// What a command may use up of each kind of number.
pub open spec fn command_cost(c: CommandState) -> nat {
    match c {
        CommandState::Spawn { entity, bundle } => bundle_cost(bundle, bundle.len()) + 1,
        CommandState::Insert { entity, part } => desc_count(part.desc) + 1,
        CommandState::AddRelations { subjects, kind, target } => subjects.len() + 1,
        _ => 1,
    }
}

/// What the first `n` commands may use up of each kind of number.
pub open spec fn commands_cost(cmds: Seq<CommandState>, n: nat) -> nat
    decreases n,
{
    if n == 0 {
        0
    } else {
        commands_cost(cmds, (n - 1) as nat) + command_cost(cmds[n - 1])
    }
}

/// What is to be disposed of where a component is not written after all.
pub open spec fn part_discard(p: BundleState) -> Seq<DiscardState> {
    if p.desc.needs_drop {
        seq![DiscardState { key: p.desc.key, value: p.value }]
    } else {
        Seq::empty()
    }
}

/// What is to be disposed of where the first `n` parts of a bundle are not written after all.
pub open spec fn bundle_discards(bundle: Seq<BundleState>, n: nat) -> Seq<DiscardState>
    decreases n,
{
    if n == 0 {
        Seq::empty()
    } else {
        bundle_discards(bundle, (n - 1) as nat) + part_discard(bundle[n - 1])
    }
}

/// What is to be disposed of where a command is not applied.
pub open spec fn command_discards(r: RegistryState, c: CommandState) -> Seq<DiscardState> {
    match c {
        CommandState::Spawn { entity, bundle } => bundle_discards(bundle, bundle.len()),
        CommandState::Insert { entity, part } => part_discard(part),
        CommandState::InsertRaw { entity, part } => discard_of(r, part.id, part.value),
        _ => Seq::empty(),
    }
}

/// What is to be disposed of where the first `n` commands are not applied.
pub open spec fn commands_discards(r: RegistryState, cmds: Seq<CommandState>, n: nat) -> Seq<
    DiscardState,
>
    decreases n,
{
    if n == 0 {
        Seq::empty()
    } else {
        commands_discards(r, cmds, (n - 1) as nat) + command_discards(r, cmds[n - 1])
    }
}

/// Whether the values of a command have the sizes of their types.
pub open spec fn command_fits(
    sizes: Map<u64, usize>,
    infos: Seq<InfoView>,
    c: CommandState,
) -> bool {
    match c {
        CommandState::Spawn { entity, bundle } => bundle_fits(sizes, bundle),
        CommandState::Insert { entity, part } => agrees(sizes, part.desc) && part.value.len()
            == part.desc.size,
        CommandState::InsertRaw { entity, part } => part.id < infos.len() && part.value.len()
            == infos[part.id as int].size,
        _ => true,
    }
}

/// Whether the values of all commands have the sizes of their types.
pub open spec fn commands_fit(
    sizes: Map<u64, usize>,
    infos: Seq<InfoView>,
    cmds: Seq<CommandState>,
) -> bool {
    forall|i: int| 0 <= i < cmds.len() ==> command_fits(sizes, infos, #[trigger] cmds[i])
}

/// Whether a command spawns a reserved entity.
pub open spec fn spawns_reserved(c: CommandState) -> bool {
    c matches CommandState::Spawn { entity, .. } && !entity.is_placeholder()
}

/// Whether the entities of the spawns from `from` on wait for them, each once.
pub open spec fn spawns_wait(s: AllocState, cmds: Seq<CommandState>, from: int) -> bool {
    &&& forall|i: int|
        from <= i < cmds.len() && spawns_reserved(#[trigger] cmds[i]) ==> awaits(
            s,
            cmds[i]->Spawn_entity,
        )
    &&& forall|i: int, j: int|
        from <= i < j < cmds.len() && spawns_reserved(#[trigger] cmds[i]) && spawns_reserved(
            #[trigger] cmds[j],
        ) ==> cmds[i]->Spawn_entity.index != cmds[j]->Spawn_entity.index
}

/// Whether the entities of the spawns from `from` on are ready, each once.
pub open spec fn spawns_ready(s: AllocState, cmds: Seq<CommandState>, from: int) -> bool {
    &&& forall|i: int|
        from <= i < cmds.len() && spawns_reserved(#[trigger] cmds[i]) ==> ready(
            s,
            cmds[i]->Spawn_entity,
        )
    &&& forall|i: int, j: int|
        from <= i < j < cmds.len() && spawns_reserved(#[trigger] cmds[i]) && spawns_reserved(
            #[trigger] cmds[j],
        ) ==> cmds[i]->Spawn_entity.index != cmds[j]->Spawn_entity.index
}

/// A payload in the arena.
struct QueuedPart {
    desc: ComponentDesc,
    offset: u32,
    len: usize,
}

impl QueuedPart {
    spec fn wf(&self, bytes: Seq<u8>) -> bool {
        self.offset + self.len <= bytes.len()
    }

    spec fn state(&self, bytes: Seq<u8>) -> BundleState {
        BundleState {
            desc: self.desc,
            value: bytes.subrange(self.offset as int, self.offset + self.len),
        }
    }
}

/// A command in the queue. Payloads of spawns and inserts are in the arena.
enum Queued {
    Spawn { entity: Entity, parts: Vec<QueuedPart> },
    Insert { entity: Entity, part: QueuedPart },
    Remove { entity: Entity, component_id: ComponentId },
    RemoveTyped { entity: Entity, key: u64 },
    InsertRaw { entity: Entity, component_id: ComponentId, data: Vec<u8>, tick: Tick },
    Despawn { entity: Entity },
    Template { name: String, params: u64 },
    Apply { handle: u64 },
    AddRelation { subject: Entity, kind: Kind, target: Entity },
    RemoveRelation { subject: Entity, key: u64, target: Entity },
    AddRelations { subjects: Vec<Entity>, kind: Kind, target: Entity },
    RemoveParent { entity: Entity },
    ClearChildren { parent: Entity },
    InsertResource { key: u64, value: Vec<u8> },
}

impl Queued {
    spec fn wf(&self, bytes: Seq<u8>) -> bool {
        match self {
            Queued::Spawn { entity, parts } => forall|i: int|
                0 <= i < parts@.len() ==> (#[trigger] parts@[i]).wf(bytes),
            Queued::Insert { entity, part } => part.wf(bytes),
            _ => true,
        }
    }

    spec fn state(&self, bytes: Seq<u8>) -> CommandState {
        match self {
            Queued::Spawn { entity, parts } => CommandState::Spawn {
                entity: *entity,
                bundle: parts@.map_values(|p: QueuedPart| p.state(bytes)),
            },
            Queued::Insert { entity, part } => CommandState::Insert {
                entity: *entity,
                part: part.state(bytes),
            },
            Queued::Remove { entity, component_id } => CommandState::Remove {
                entity: *entity,
                id: component_id.0,
            },
            Queued::RemoveTyped { entity, key } => CommandState::RemoveTyped {
                entity: *entity,
                key: *key,
            },
            Queued::InsertRaw { entity, component_id, data, tick } => CommandState::InsertRaw {
                entity: *entity,
                part: PartState { id: component_id.0, value: data@, tick: *tick },
            },
            Queued::Despawn { entity } => CommandState::Despawn { entity: *entity },
            Queued::Template { name, params } => CommandState::Template {
                name: name@,
                params: *params,
            },
            Queued::Apply { handle } => CommandState::Apply { handle: *handle },
            Queued::AddRelation { subject, kind, target } => CommandState::AddRelation {
                subject: *subject,
                kind: kind@,
                target: *target,
            },
            Queued::RemoveRelation { subject, key, target } => CommandState::RemoveRelation {
                subject: *subject,
                key: *key,
                target: *target,
            },
            Queued::AddRelations { subjects, kind, target } => CommandState::AddRelations {
                subjects: subjects@,
                kind: kind@,
                target: *target,
            },
            Queued::RemoveParent { entity } => CommandState::RemoveParent { entity: *entity },
            Queued::ClearChildren { parent } => CommandState::ClearChildren { parent: *parent },
            Queued::InsertResource { key, value } => CommandState::InsertResource {
                key: *key,
                value: *value,
            },
        }
    }
}

/// A queue of commands.
pub struct Commands {
    queue: Vec<Queued>,
    arena: CommandArena,
    reserver: Option<EntityReserver>,
    half_applied: bool,
}

spec fn states(queue: Seq<Queued>, bytes: Seq<u8>) -> Seq<CommandState> {
    queue.map_values(|q: Queued| q.state(bytes))
}

spec fn queue_wf(queue: Seq<Queued>, bytes: Seq<u8>) -> bool {
    forall|i: int| 0 <= i < queue.len() ==> (#[trigger] queue[i]).wf(bytes)
}

impl View for Commands {
    type V = Seq<CommandState>;

    closed spec fn view(&self) -> Seq<CommandState> {
        states(self.queue@, self.arena@.bytes)
    }
}

impl Commands {
    /// The invariant of the queue: every payload is in the arena.
    pub closed spec fn wf(&self) -> bool {
        queue_wf(self.queue@, self.arena@.bytes) && (self.reserver matches Some(r) ==> r.wf())
    }

    /// State of the arena.
    pub closed spec fn arena_state(&self) -> ArenaState {
        self.arena@
    }

    /// Whether a reserver is bound, and its block.
    pub closed spec fn bound(&self) -> Option<Option<BlockState>> {
        match self.reserver {
            Some(r) => Some(r@),
            None => None,
        }
    }

    /// Whether applying has stopped before the end of the queue, and is to go on.
    pub closed spec fn half_applied(&self) -> bool {
        self.half_applied
    }

    /// An empty queue.
    pub fn new() -> (c: Commands)
        ensures
            c.wf(),
            c@ == Seq::<CommandState>::empty(),
            c.bound() is None,
            !c.half_applied(),
            c.arena_state() == empty_arena(),
    {
        let c = Commands {
            queue: Vec::new(),
            arena: CommandArena::new(),
            reserver: None,
            half_applied: false,
        };
        assert(c@ =~= Seq::<CommandState>::empty());
        c
    }

    /// An empty queue with room for `cap` commands.
    pub fn with_capacity(cap: usize) -> (c: Commands)
        ensures
            c.wf(),
            c@ == Seq::<CommandState>::empty(),
            c.bound() is None,
            !c.half_applied(),
            c.arena_state() == empty_arena(),
    {
        let c = Commands {
            queue: Vec::with_capacity(cap),
            arena: CommandArena::new(),
            reserver: None,
            half_applied: false,
        };
        assert(c@ =~= Seq::<CommandState>::empty());
        c
    }

    /// Binds a reserver: spawned entities then have their ids at once.
    pub fn set_reserver(&mut self, reserver: EntityReserver)
        requires
            old(self).wf(),
            reserver.wf(),
        ensures
            final(self).wf(),
            final(self)@ == old(self)@,
            final(self).bound() == Some(reserver@),
            final(self).half_applied() == old(self).half_applied(),
            final(self).arena_state() == old(self).arena_state(),
    {
        self.reserver = Some(reserver);
    }

    /// Whether a reserver is bound.
    pub fn has_reserver(&self) -> (b: bool)
        ensures
            b == self.bound() is Some,
    {
        self.reserver.is_some()
    }

    /// Number of commands.
    pub fn len(&self) -> (n: usize)
        ensures
            n == self@.len(),
    {
        self.queue.len()
    }

    /// Whether there is no command.
    pub fn is_empty(&self) -> (b: bool)
        ensures
            b == (self@.len() == 0),
    {
        self.queue.len() == 0
    }

    fn push(&mut self, q: Queued)
        requires
            old(self).wf(),
            q.wf(old(self).arena@.bytes),
        ensures
            final(self).wf(),
            final(self)@ == old(self)@.push(q.state(old(self).arena@.bytes)),
            final(self).bound() == old(self).bound(),
            final(self).half_applied() == old(self).half_applied(),
            final(self).arena_state() == old(self).arena_state(),
    {
        let ghost c = q.state(self.arena@.bytes);
        self.queue.push(q);
        assert(self@ =~= old(self)@.push(c));
    }

    /// Queues the despawning of an entity.
    pub fn despawn(&mut self, entity: Entity)
        requires
            old(self).wf(),
        ensures
            final(self).wf(),
            final(self)@ == old(self)@.push(CommandState::Despawn { entity }),
            final(self).bound() == old(self).bound(),
            final(self).half_applied() == old(self).half_applied(),
            final(self).arena_state() == old(self).arena_state(),
    {
        self.push(Queued::Despawn { entity });
    }

    /// Queues the writing of a component of a registered type.
    pub fn insert_raw(
        &mut self,
        entity: Entity,
        component_id: ComponentId,
        data: Vec<u8>,
        tick: Tick,
    )
        requires
            old(self).wf(),
        ensures
            final(self).wf(),
            final(self)@ == old(self)@.push(
                CommandState::InsertRaw {
                    entity,
                    part: PartState { id: component_id.0, value: data@, tick },
                },
            ),
            final(self).bound() == old(self).bound(),
            final(self).half_applied() == old(self).half_applied(),
            final(self).arena_state() == old(self).arena_state(),
    {
        self.push(Queued::InsertRaw { entity, component_id, data, tick });
    }

    /// Queues the removal of a component.
    pub fn remove_raw(&mut self, entity: Entity, component_id: ComponentId)
        requires
            old(self).wf(),
        ensures
            final(self).wf(),
            final(self)@ == old(self)@.push(CommandState::Remove { entity, id: component_id.0 }),
            final(self).bound() == old(self).bound(),
            final(self).half_applied() == old(self).half_applied(),
            final(self).arena_state() == old(self).arena_state(),
    {
        self.push(Queued::Remove { entity, component_id });
    }

    /// Queues the removal of a component of the type with the given key.
    pub fn remove(&mut self, entity: Entity, key: u64)
        requires
            old(self).wf(),
        ensures
            final(self).wf(),
            final(self)@ == old(self)@.push(CommandState::RemoveTyped { entity, key }),
            final(self).bound() == old(self).bound(),
            final(self).half_applied() == old(self).half_applied(),
            final(self).arena_state() == old(self).arena_state(),
    {
        self.push(Queued::RemoveTyped { entity, key });
    }

    /// Queues the setting of a resource.
    pub fn insert_resource(&mut self, key: u64, value: Vec<u8>)
        requires
            old(self).wf(),
        ensures
            final(self).wf(),
            final(self)@ == old(self)@.push(CommandState::InsertResource { key, value }),
            final(self).bound() == old(self).bound(),
            final(self).half_applied() == old(self).half_applied(),
            final(self).arena_state() == old(self).arena_state(),
    {
        self.push(Queued::InsertResource { key, value });
    }

    /// Queues a function of the caller's, known by its handle.
    pub fn add(&mut self, handle: u64)
        requires
            old(self).wf(),
        ensures
            final(self).wf(),
            final(self)@ == old(self)@.push(CommandState::Apply { handle }),
            final(self).bound() == old(self).bound(),
            final(self).half_applied() == old(self).half_applied(),
            final(self).arena_state() == old(self).arena_state(),
    {
        self.push(Queued::Apply { handle });
    }

    /// Queues the adding of a relation.
    pub fn add_relation<R: RelationKind>(&mut self, subject: Entity, kind: R, target: Entity)
        requires
            old(self).wf(),
        ensures
            final(self).wf(),
            final(self)@ == old(self)@.push(
                CommandState::AddRelation { subject, kind: kind_of::<R>(), target },
            ),
            final(self).bound() == old(self).bound(),
            final(self).half_applied() == old(self).half_applied(),
            final(self).arena_state() == old(self).arena_state(),
    {
        self.push(Queued::AddRelation { subject, kind: Kind::of::<R>(), target });
    }

    /// Queues the removal of a relation.
    pub fn remove_relation<R: RelationKind>(&mut self, subject: Entity, kind: R, target: Entity)
        requires
            old(self).wf(),
        ensures
            final(self).wf(),
            final(self)@ == old(self)@.push(
                CommandState::RemoveRelation { subject, key: R::spec_kind_key(), target },
            ),
            final(self).bound() == old(self).bound(),
            final(self).half_applied() == old(self).half_applied(),
            final(self).arena_state() == old(self).arena_state(),
    {
        self.push(Queued::RemoveRelation { subject, key: R::kind_key(), target });
    }

    /// Queues the adding of relations of many subjects to one target.
    pub fn add_relation_batch<R: RelationKind>(
        &mut self,
        subjects: Vec<Entity>,
        kind: R,
        target: Entity,
    )
        requires
            old(self).wf(),
        ensures
            final(self).wf(),
            final(self)@ == old(self)@.push(
                CommandState::AddRelations { subjects: subjects@, kind: kind_of::<R>(), target },
            ),
            final(self).bound() == old(self).bound(),
            final(self).half_applied() == old(self).half_applied(),
            final(self).arena_state() == old(self).arena_state(),
    {
        self.push(Queued::AddRelations { subjects, kind: Kind::of::<R>(), target });
    }

    /// Queues the spawning of an entity from a template with parameters, known by their handle.
    pub fn spawn_template_with(&mut self, name: &str, params: u64)
        requires
            old(self).wf(),
        ensures
            final(self).wf(),
            final(self)@ == old(self)@.push(CommandState::Template { name: name@, params }),
            final(self).bound() == old(self).bound(),
            final(self).half_applied() == old(self).half_applied(),
            final(self).arena_state() == old(self).arena_state(),
    {
        self.push(Queued::Template { name: name.to_owned(), params });
    }

    /// Queues the spawning of an entity from a template without parameters.
    pub fn spawn_template(&mut self, name: &str)
        requires
            old(self).wf(),
        ensures
            final(self).wf(),
            final(self)@ == old(self)@.push(CommandState::Template { name: name@, params: 0 }),
            final(self).bound() == old(self).bound(),
            final(self).half_applied() == old(self).half_applied(),
            final(self).arena_state() == old(self).arena_state(),
    {
        self.spawn_template_with(name, 0);
    }
}

/// Whether `a` is how `b` starts.
spec fn starts(a: Seq<u8>, b: Seq<u8>) -> bool {
    a.len() <= b.len() && b.subrange(0, a.len() as int) == a
}

proof fn lemma_part_kept(p: QueuedPart, a: Seq<u8>, b: Seq<u8>)
    requires
        p.wf(a),
        starts(a, b),
    ensures
        p.wf(b),
        p.state(b) == p.state(a),
{
    assert(b.subrange(p.offset as int, p.offset + p.len) =~= a.subrange(
        p.offset as int,
        p.offset + p.len,
    )) by {
        assert forall|i: int| 0 <= i < a.len() implies #[trigger] b[i] == a[i] by {
            assert(b.subrange(0, a.len() as int)[i] == a[i]);
        }
    }
}

proof fn lemma_queue_kept(queue: Seq<Queued>, a: Seq<u8>, b: Seq<u8>)
    requires
        queue_wf(queue, a),
        starts(a, b),
    ensures
        queue_wf(queue, b),
        states(queue, b) == states(queue, a),
{
    assert forall|i: int| 0 <= i < queue.len() implies (#[trigger] queue[i]).wf(b)
        && queue[i].state(b) == queue[i].state(a) by {
        assert(queue[i].wf(a));
        match queue[i] {
            Queued::Spawn { entity, parts } => {
                assert forall|k: int| 0 <= k < parts@.len() implies (#[trigger] parts@[k]).wf(b)
                    && parts@[k].state(b) == parts@[k].state(a) by {
                    lemma_part_kept(parts@[k], a, b);
                }
                assert(parts@.map_values(|p: QueuedPart| p.state(b)) =~= parts@.map_values(
                    |p: QueuedPart| p.state(a),
                ));
            },
            Queued::Insert { entity, part } => {
                lemma_part_kept(part, a, b);
            },
            _ => {},
        }
    }
    assert(states(queue, b) =~= states(queue, a));
}

/// State of the arena after the first `n` values of a bundle were written.
pub open spec fn after_stores(s: ArenaState, bundle: Seq<BundleState>, n: nat) -> ArenaState
    decreases n,
{
    if n == 0 {
        s
    } else {
        after_store(
            after_stores(s, bundle, (n - 1) as nat),
            bundle[n - 1].value,
            bundle[n - 1].desc.align as nat,
        )
    }
}

/// Whether the arena has room for the first `n` values of a bundle.
pub open spec fn stores_fit(s: ArenaState, bundle: Seq<BundleState>, n: nat) -> bool
    decreases n,
{
    n == 0 || (stores_fit(s, bundle, (n - 1) as nat) && bundle[n - 1].desc.align > 0 && has_room(
        after_stores(s, bundle, (n - 1) as nat),
        bundle[n - 1].value.len(),
        bundle[n - 1].desc.align as nat,
    ))
}

proof fn lemma_stores_fit(s: ArenaState, bundle: Seq<BundleState>, n: nat, m: nat)
    requires
        stores_fit(s, bundle, n),
        m <= n,
    ensures
        stores_fit(s, bundle, m),
    decreases n,
{
    if m < n {
        lemma_stores_fit(s, bundle, (n - 1) as nat, m);
    }
}

/// State of the arena after the values of the first `n` bundles were written.
pub open spec fn after_bundles(s: ArenaState, bundles: Seq<Seq<BundleState>>, n: nat) -> ArenaState
    decreases n,
{
    if n == 0 {
        s
    } else {
        after_stores(
            after_bundles(s, bundles, (n - 1) as nat),
            bundles[n - 1],
            bundles[n - 1].len(),
        )
    }
}

/// Whether the arena has room for the values of the first `n` bundles.
pub open spec fn bundles_fit(s: ArenaState, bundles: Seq<Seq<BundleState>>, n: nat) -> bool
    decreases n,
{
    n == 0 || (bundles_fit(s, bundles, (n - 1) as nat) && stores_fit(
        after_bundles(s, bundles, (n - 1) as nat),
        bundles[n - 1],
        bundles[n - 1].len(),
    ))
}

proof fn lemma_bundles_fit(s: ArenaState, bundles: Seq<Seq<BundleState>>, n: nat, m: nat)
    requires
        bundles_fit(s, bundles, n),
        m <= n,
    ensures
        bundles_fit(s, bundles, m),
    decreases n,
{
    if m < n {
        lemma_bundles_fit(s, bundles, (n - 1) as nat, m);
    }
}

/// The spawns of bundles as the given entities.
pub open spec fn spawns(es: Seq<Entity>, bundles: Seq<Seq<BundleState>>, n: nat) -> Seq<
    CommandState,
> {
    Seq::new(n, |i: int| CommandState::Spawn { entity: es[i], bundle: bundles[i] })
}

/// The handle that never matches a real entity.
pub open spec fn no_entity() -> Entity {
    Entity { index: u32::MAX, generation: u32::MAX }
}

/// The ids of `n` spawns: reserved ones, or placeholders where no reserver is bound.
pub open spec fn spawn_ids(bound: Option<Option<BlockState>>, s: AllocState, n: nat) -> Seq<Entity> {
    match bound {
        Some(r) => reserved_ids(r, s, n),
        None => Seq::new(n, |i: int| no_entity()),
    }
}

/// What is bound after `n` ids were handed out.
pub open spec fn bound_after(bound: Option<Option<BlockState>>, n: nat) -> Option<
    Option<BlockState>,
> {
    match bound {
        Some(r) => Some(after_reserve(r, n)),
        None => None,
    }
}

/// The world after `n` ids were handed out.
pub open spec fn world_after_ids(w: WorldState, bound: Option<Option<BlockState>>, n: nat) -> WorldState {
    match bound {
        Some(r) => WorldState { entities: entities_after_reserve(r, w.entities, n), ..w },
        None => w,
    }
}

impl Commands {
    /// Writes a payload into the arena.
    fn store(&mut self, desc: ComponentDesc, value: &[u8]) -> (part: QueuedPart)
        requires
            old(self).wf(),
            desc.align > 0,
            has_room(old(self).arena_state(), value@.len(), desc.align as nat),
        ensures
            final(self).wf(),
            final(self)@ == old(self)@,
            final(self).bound() == old(self).bound(),
            final(self).half_applied() == old(self).half_applied(),
            final(self).arena_state() == after_store(
                old(self).arena_state(),
                value@,
                desc.align as nat,
            ),
            starts(old(self).arena@.bytes, final(self).arena@.bytes),
            part.wf(final(self).arena@.bytes),
            part.state(final(self).arena@.bytes) == (BundleState { desc, value: value@ }),
            part.offset == offset_of(old(self).arena_state(), value@, desc.align as nat),
    {
        let ghost s = self.arena@;
        let ghost align = desc.align as nat;
        proof {
            law_payload_is_at_its_offset(s, value@, align);
            law_store_keeps_payloads(s, value@, align, 0, s.bytes.len() as int);
            assert(s.bytes.subrange(0, s.bytes.len() as int) =~= s.bytes);
        }
        let offset: u32 = self.arena.store(value, desc.align);
        proof {
            lemma_queue_kept(self.queue@, s.bytes, self.arena@.bytes);
        }
        QueuedPart { desc, offset, len: value.len() }
    }

    /// Queues the writing of a component of a described type.
    pub fn insert(&mut self, entity: Entity, desc: ComponentDesc, value: &[u8])
        requires
            old(self).wf(),
            desc.align > 0,
            has_room(old(self).arena_state(), value@.len(), desc.align as nat),
        ensures
            final(self).wf(),
            final(self)@ == old(self)@.push(
                CommandState::Insert { entity, part: BundleState { desc, value: value@ } },
            ),
            final(self).bound() == old(self).bound(),
            final(self).half_applied() == old(self).half_applied(),
            final(self).arena_state() == after_store(
                old(self).arena_state(),
                value@,
                desc.align as nat,
            ),
    {
        let part: QueuedPart = self.store(desc, value);
        self.push(Queued::Insert { entity, part });
    }

    /// Queues the spawning of a bundle as an entity.
    fn push_spawn(&mut self, entity: Entity, bundle: Bundle)
        requires
            old(self).wf(),
            stores_fit(old(self).arena_state(), bundle@, bundle@.len()),
        ensures
            final(self).wf(),
            final(self)@ == old(self)@.push(CommandState::Spawn { entity, bundle: bundle@ }),
            final(self).bound() == old(self).bound(),
            final(self).half_applied() == old(self).half_applied(),
            final(self).arena_state() == after_stores(
                old(self).arena_state(),
                bundle@,
                bundle@.len(),
            ),
    {
        let ghost all = bundle@;
        let ghost first = bundle.parts@;
        let mut rest: Vec<BundlePart> = reversed(bundle.parts);
        let ghost back = rest@;
        let mut parts: Vec<QueuedPart> = Vec::new();
        let ghost base = self.arena_state();
        let ghost mut n: nat = 0;
        while rest.len() > 0
            invariant
                n + rest@.len() == all.len() == back.len(),
                parts@.len() == n,
                first.len() == all.len(),
                forall|i: int|
                    0 <= i < all.len() ==> #[trigger] all[i] == (BundleState {
                        desc: first[i].desc,
                        value: first[i].value@,
                    }),
                back == first.reverse(),
                rest@ == back.subrange(0, rest@.len() as int),
                self.wf(),
                self@ == old(self)@,
                self.bound() == old(self).bound(),
                self.half_applied() == old(self).half_applied(),
                base == old(self).arena_state(),
                self.arena_state() == after_stores(base, all, n),
                stores_fit(base, all, all.len()),
                forall|i: int|
                    0 <= i < n ==> (#[trigger] parts@[i]).wf(self.arena@.bytes)
                        && parts@[i].state(self.arena@.bytes) == all[i],
            decreases rest.len(),
        {
            proof {
                lemma_stores_fit(base, all, all.len(), n + 1);
            }
            let ghost before = self.arena@.bytes;
            let ghost old_parts = parts@;
            let ghost old_rest = rest@;
            if let Some(p) = rest.pop() {
                proof {
                    assert(p == back[old_rest.len() - 1]);
                    assert(p == first[n as int]);
                    assert(rest@ =~= back.subrange(0, rest@.len() as int));
                }
                let part: QueuedPart = self.store(p.desc, p.value.as_slice());
                parts.push(part);
                proof {
                    assert forall|i: int| 0 <= i < n + 1 implies (#[trigger] parts@[i]).wf(
                        self.arena@.bytes,
                    ) && parts@[i].state(self.arena@.bytes) == all[i] by {
                        if i < n {
                            assert(parts@[i] == old_parts[i]);
                            lemma_part_kept(parts@[i], before, self.arena@.bytes);
                        }
                    }
                    n = n + 1;
                }
            }
        }
        proof {
            assert(parts@.map_values(|p: QueuedPart| p.state(self.arena@.bytes)) =~= all);
        }
        self.push(Queued::Spawn { entity, parts });
    }

    /// Hands out the ids of `n` spawns.
    fn next_ids(&mut self, world: &mut World, n: usize) -> (es: Vec<Entity>)
        requires
            old(self).wf(),
            old(world).wf(),
            old(world).room(n as nat),
        ensures
            final(self).wf(),
            final(world).wf(),
            final(self)@ == old(self)@,
            final(self).arena_state() == old(self).arena_state(),
            final(self).bound() == bound_after(old(self).bound(), n as nat),
            final(self).half_applied() == old(self).half_applied(),
            final(world)@ == world_after_ids(old(world)@, old(self).bound(), n as nat),
            final(world).store().archetypes == old(world).store().archetypes,
            es@ == spawn_ids(old(self).bound(), old(world)@.entities, n as nat),
            forall|m: nat| old(world).room(m + n as nat) ==> #[trigger] final(world).room(m),
    {
        match &mut self.reserver {
            Some(r) => world.reserve_n(r, n),
            None => {
                let mut es: Vec<Entity> = Vec::new();
                let mut i: usize = 0;
                while i < n
                    invariant
                        i <= n,
                        es@ == Seq::new(i as nat, |k: int| no_entity()),
                    decreases n - i,
                {
                    es.push(Entity::placeholder());
                    i = i + 1;
                    assert(es@ =~= Seq::new(i as nat, |k: int| no_entity()));
                }
                proof {
                    assert forall|m: nat|
                        old(world).room(m + n as nat) implies #[trigger] world.room(m) by {
                        world.lemma_room(m, m + n as nat);
                    }
                }
                es
            },
        }
    }

    /// Queues the spawning of a bundle. The id of the entity is known at once where a reserver is
    /// bound; else it is a placeholder, and the entity gets its id when the command is applied.
    pub fn spawn<'a>(&'a mut self, world: &mut World, bundle: Bundle) -> (e: EntityCommands<'a>)
        requires
            old(self).wf(),
            old(world).wf(),
            old(world).room(1),
            stores_fit(old(self).arena_state(), bundle@, bundle@.len()),
        ensures
            final(world).wf(),
            final(world)@ == world_after_ids(old(world)@, old(self).bound(), 1),
            final(world).store().archetypes == old(world).store().archetypes,
            forall|m: nat| old(world).room(m + 1) ==> #[trigger] final(world).room(m),
            e.entity == spawn_ids(old(self).bound(), old(world)@.entities, 1)[0],
            e.commands.wf(),
            e.commands@ == old(self)@.push(
                CommandState::Spawn { entity: e.entity, bundle: bundle@ },
            ),
            e.commands.bound() == bound_after(old(self).bound(), 1),
            e.commands.half_applied() == old(self).half_applied(),
            e.commands.arena_state() == after_stores(
                old(self).arena_state(),
                bundle@,
                bundle@.len(),
            ),
            *final(self) == *final(e.commands),
    {
        let es: Vec<Entity> = self.next_ids(world, 1);
        let entity: Entity = es[0];
        self.push_spawn(entity, bundle);
        EntityCommands { commands: self, entity }
    }

    /// Queues the spawning of many bundles. The ids are reserved at once.
    pub fn spawn_batch(&mut self, world: &mut World, bundles: Vec<Bundle>) -> (es: Vec<Entity>)
        requires
            old(self).wf(),
            old(world).wf(),
            old(world).room(bundles@.len()),
            bundles_fit(old(self).arena_state(), bundle_states(bundles@), bundles@.len()),
        ensures
            final(self).wf(),
            final(world).wf(),
            final(world)@ == world_after_ids(old(world)@, old(self).bound(), bundles@.len()),
            final(world).store().archetypes == old(world).store().archetypes,
            forall|m: nat|
                old(world).room(m + bundles@.len()) ==> #[trigger] final(world).room(m),
            es@ == spawn_ids(old(self).bound(), old(world)@.entities, bundles@.len()),
            final(self)@ == old(self)@ + spawns(
                es@,
                bundle_states(bundles@),
                bundles@.len(),
            ),
            final(self).bound() == bound_after(old(self).bound(), bundles@.len()),
            final(self).half_applied() == old(self).half_applied(),
            final(self).arena_state() == after_bundles(
                old(self).arena_state(),
                bundle_states(bundles@),
                bundles@.len(),
            ),
    {
        let ghost all = bundle_states(bundles@);
        let ghost first = bundles@;
        let ghost base = self.arena_state();
        let total: usize = bundles.len();
        let es: Vec<Entity> = self.next_ids(world, total);
        assert(es@.len() == total) by {
            lemma_spawn_ids_len(old(self).bound(), old(world)@.entities, total as nat);
        }
        let mut rest: Vec<Bundle> = reversed(bundles);
        let ghost back = rest@;
        let mut n: usize = 0;
        assert(old(self)@ + spawns(es@, all, 0) =~= old(self)@);
        while rest.len() > 0
            invariant
                n + rest@.len() == total == all.len() == back.len(),
                es@.len() == total,
                first.len() == total,
                all == bundle_states(first),
                back == first.reverse(),
                rest@ == back.subrange(0, rest@.len() as int),
                self.wf(),
                self@ == old(self)@ + spawns(es@, all, n as nat),
                self.bound() == bound_after(old(self).bound(), total as nat),
                self.half_applied() == old(self).half_applied(),
                self.arena_state() == after_bundles(base, all, n as nat),
                bundles_fit(base, all, all.len()),
            decreases rest.len(),
        {
            proof {
                lemma_bundles_fit(base, all, all.len(), (n + 1) as nat);
            }
            let ghost old_rest = rest@;
            let ghost before = self@;
            if let Some(b) = rest.pop() {
                proof {
                    assert(b == back[old_rest.len() - 1]);
                    assert(b == first[n as int]);
                    assert(rest@ =~= back.subrange(0, rest@.len() as int));
                    assert(all[n as int] == b@);
                }
                let entity: Entity = es[n];
                self.push_spawn(entity, b);
                n = n + 1;
                proof {
                    assert(spawns(es@, all, n as nat) =~= spawns(es@, all, (n - 1) as nat).push(
                        CommandState::Spawn { entity, bundle: all[n - 1] },
                    ));
                    assert(self@ =~= old(self)@ + spawns(es@, all, n as nat));
                }
            }
        }
        es
    }

    /// A builder for commands on an entity.
    pub fn entity<'a>(&'a mut self, entity: Entity) -> (e: EntityCommands<'a>)
        requires
            old(self).wf(),
        ensures
            e.entity == entity,
            *e.commands == *old(self),
            *final(self) == *final(e.commands),
    {
        EntityCommands { commands: self, entity }
    }
}

proof fn lemma_spawn_ids_len(bound: Option<Option<BlockState>>, s: AllocState, n: nat)
    ensures
        spawn_ids(bound, s, n).len() == n,
{
}

/// The items in reverse order.
fn reversed<T>(items: Vec<T>) -> (out: Vec<T>)
    ensures
        out@ == items@.reverse(),
{
    let ghost all = items@;
    let mut rest: Vec<T> = items;
    let mut out: Vec<T> = Vec::new();
    while rest.len() > 0
        invariant
            out@.len() + rest@.len() == all.len(),
            rest@ == all.subrange(0, rest@.len() as int),
            forall|i: int| 0 <= i < out@.len() ==> #[trigger] out@[i] == all[all.len() - 1 - i],
        decreases rest.len(),
    {
        let ghost before = rest@;
        if let Some(x) = rest.pop() {
            proof {
                assert(x == all[before.len() - 1]);
                assert(rest@ =~= all.subrange(0, rest@.len() as int));
            }
            out.push(x);
        }
    }
    assert(out@ =~= all.reverse());
    out
}

/// A builder for commands on one entity.
pub struct EntityCommands<'a> {
    pub commands: &'a mut Commands,
    pub entity: Entity,
}

impl<'a> EntityCommands<'a> {
    /// The entity.
    pub fn id(&self) -> (e: Entity)
        ensures
            e == self.entity,
    {
        self.entity
    }

    /// Queues the writing of a component.
    pub fn insert(self, desc: ComponentDesc, value: &[u8]) -> (r: EntityCommands<'a>)
        requires
            self.commands.wf(),
            desc.align > 0,
            has_room(self.commands.arena_state(), value@.len(), desc.align as nat),
        ensures
            r.entity == self.entity,
            r.commands.wf(),
            r.commands@ == old(self.commands)@.push(
                CommandState::Insert {
                    entity: self.entity,
                    part: BundleState { desc, value: value@ },
                },
            ),
            r.commands.bound() == old(self.commands).bound(),
            r.commands.half_applied() == old(self.commands).half_applied(),
            r.commands.arena_state() == after_store(
                old(self.commands).arena_state(),
                value@,
                desc.align as nat,
            ),
            *final(self.commands) == *final(r.commands),
    {
        let EntityCommands { commands, entity } = self;
        commands.insert(entity, desc, value);
        EntityCommands { commands, entity }
    }

    /// Queues the removal of a component of the type with the given key.
    pub fn remove(self, key: u64) -> (r: EntityCommands<'a>)
        requires
            self.commands.wf(),
        ensures
            r.entity == self.entity,
            r.commands.wf(),
            r.commands@ == old(self.commands)@.push(
                CommandState::RemoveTyped { entity: self.entity, key },
            ),
            r.commands.bound() == old(self.commands).bound(),
            r.commands.half_applied() == old(self.commands).half_applied(),
            r.commands.arena_state() == old(self.commands).arena_state(),
            *final(self.commands) == *final(r.commands),
    {
        let EntityCommands { commands, entity } = self;
        commands.remove(entity, key);
        EntityCommands { commands, entity }
    }

    /// Queues the adding of a relation to `target`.
    pub fn add_relation<R: RelationKind>(self, kind: R, target: Entity) -> (r: EntityCommands<'a>)
        requires
            self.commands.wf(),
        ensures
            r.entity == self.entity,
            r.commands.wf(),
            r.commands@ == old(self.commands)@.push(
                CommandState::AddRelation {
                    subject: self.entity,
                    kind: kind_of::<R>(),
                    target,
                },
            ),
            r.commands.bound() == old(self.commands).bound(),
            r.commands.half_applied() == old(self.commands).half_applied(),
            r.commands.arena_state() == old(self.commands).arena_state(),
            *final(self.commands) == *final(r.commands),
    {
        let EntityCommands { commands, entity } = self;
        commands.add_relation(entity, kind, target);
        EntityCommands { commands, entity }
    }

    /// Makes the entity a child of `parent`.
    pub fn set_parent(self, parent: Entity) -> (r: EntityCommands<'a>)
        requires
            self.commands.wf(),
        ensures
            r.entity == self.entity,
            r.commands.wf(),
            r.commands@ == old(self.commands)@.push(
                CommandState::AddRelation {
                    subject: self.entity,
                    kind: kind_of::<ChildOf>(),
                    target: parent,
                },
            ),
            r.commands.bound() == old(self.commands).bound(),
            r.commands.half_applied() == old(self.commands).half_applied(),
            r.commands.arena_state() == old(self.commands).arena_state(),
            *final(self.commands) == *final(r.commands),
    {
        self.add_relation(ChildOf, parent)
    }

    /// Makes `child` a child of the entity.
    pub fn add_child(self, child: Entity) -> (r: EntityCommands<'a>)
        requires
            self.commands.wf(),
        ensures
            r.entity == self.entity,
            r.commands.wf(),
            r.commands@ == old(self.commands)@.push(adopted(child, self.entity)),
            r.commands.bound() == old(self.commands).bound(),
            r.commands.half_applied() == old(self.commands).half_applied(),
            r.commands.arena_state() == old(self.commands).arena_state(),
            *final(self.commands) == *final(r.commands),
    {
        let EntityCommands { commands, entity } = self;
        commands.add_relation(child, ChildOf, entity);
        EntityCommands { commands, entity }
    }

    /// Makes `children` children of the entity.
    pub fn add_children(self, children: &[Entity]) -> (r: EntityCommands<'a>)
        requires
            self.commands.wf(),
        ensures
            r.entity == self.entity,
            r.commands.wf(),
            r.commands@ == old(self.commands)@ + children@.map_values(
                |c: Entity| adopted(c, self.entity),
            ),
            r.commands.bound() == old(self.commands).bound(),
            r.commands.half_applied() == old(self.commands).half_applied(),
            r.commands.arena_state() == old(self.commands).arena_state(),
            *final(self.commands) == *final(r.commands),
    {
        let ghost before = *self.commands;
        let EntityCommands { commands, entity } = self;
        let ghost f = |c: Entity| adopted(c, entity);
        let mut i: usize = 0;
        assert(before@ + children@.subrange(0, 0).map_values(f) =~= before@);
        while i < children.len()
            invariant
                i <= children@.len(),
                commands.wf(),
                f == (|c: Entity| adopted(c, entity)),
                commands@ == before@ + children@.subrange(0, i as int).map_values(f),
                commands.bound() == before.bound(),
                commands.half_applied() == before.half_applied(),
                commands.arena_state() == before.arena_state(),
            decreases children.len() - i,
        {
            let child: Entity = children[i];
            commands.add_relation(child, ChildOf, entity);
            i = i + 1;
            assert(children@.subrange(0, i as int).map_values(f) =~= children@.subrange(
                0,
                i - 1,
            ).map_values(f).push(adopted(child, entity)));
            assert(commands@ =~= before@ + children@.subrange(0, i as int).map_values(f));
        }
        assert(children@.subrange(0, children@.len() as int) =~= children@);
        EntityCommands { commands, entity }
    }

    /// Takes the entity from its parent, which is looked up when the command is applied.
    pub fn remove_parent(self) -> (r: EntityCommands<'a>)
        requires
            self.commands.wf(),
        ensures
            r.entity == self.entity,
            r.commands.wf(),
            r.commands@ == old(self.commands)@.push(
                CommandState::RemoveParent { entity: self.entity },
            ),
            r.commands.bound() == old(self.commands).bound(),
            r.commands.half_applied() == old(self.commands).half_applied(),
            r.commands.arena_state() == old(self.commands).arena_state(),
            *final(self.commands) == *final(r.commands),
    {
        let EntityCommands { commands, entity } = self;
        commands.push(Queued::RemoveParent { entity });
        EntityCommands { commands, entity }
    }

    /// Takes all children from the entity; they are looked up when the command is applied, and
    /// stay alive.
    pub fn clear_children(self) -> (r: EntityCommands<'a>)
        requires
            self.commands.wf(),
        ensures
            r.entity == self.entity,
            r.commands.wf(),
            r.commands@ == old(self.commands)@.push(
                CommandState::ClearChildren { parent: self.entity },
            ),
            r.commands.bound() == old(self.commands).bound(),
            r.commands.half_applied() == old(self.commands).half_applied(),
            r.commands.arena_state() == old(self.commands).arena_state(),
            *final(self.commands) == *final(r.commands),
    {
        let EntityCommands { commands, entity } = self;
        commands.push(Queued::ClearChildren { parent: entity });
        EntityCommands { commands, entity }
    }

    /// A spawner of children of the entity.
    pub fn child_spawner(self) -> (r: ChildSpawner<'a>)
        requires
            self.commands.wf(),
        ensures
            r.parent == self.entity,
            *r.commands == *old(self.commands),
            *final(self.commands) == *final(r.commands),
    {
        let EntityCommands { commands, entity } = self;
        ChildSpawner { commands, parent: entity }
    }

    /// Queues the despawning of the entity.
    pub fn despawn(self)
        requires
            self.commands.wf(),
        ensures
            final(self.commands).wf(),
            final(self.commands)@ == old(self.commands)@.push(
                CommandState::Despawn { entity: self.entity },
            ),
            final(self.commands).bound() == old(self.commands).bound(),
            final(self.commands).half_applied() == old(self.commands).half_applied(),
            final(self.commands).arena_state() == old(self.commands).arena_state(),
    {
        self.commands.despawn(self.entity);
    }
}

/// The command that makes `child` a child of `parent`.
pub open spec fn adopted(child: Entity, parent: Entity) -> CommandState {
    CommandState::AddRelation { subject: child, kind: kind_of::<ChildOf>(), target: parent }
}

/// Spawns children of one entity.
pub struct ChildSpawner<'a> {
    pub commands: &'a mut Commands,
    pub parent: Entity,
}

impl<'a> ChildSpawner<'a> {
    /// Queues the spawning of a child.
    pub fn spawn<'b>(&'b mut self, world: &mut World, bundle: Bundle) -> (e: EntityCommands<'b>)
        requires
            old(self).commands.wf(),
            old(world).wf(),
            old(world).room(1),
            stores_fit(old(self).commands.arena_state(), bundle@, bundle@.len()),
        ensures
            final(world).wf(),
            final(world)@ == world_after_ids(old(world)@, old(self).commands.bound(), 1),
            final(world).store().archetypes == old(world).store().archetypes,
            forall|m: nat| old(world).room(m + 1) ==> #[trigger] final(world).room(m),
            e.entity == spawn_ids(old(self).commands.bound(), old(world)@.entities, 1)[0],
            e.commands.wf(),
            e.commands@ == old(self).commands@.push(
                CommandState::Spawn { entity: e.entity, bundle: bundle@ },
            ).push(adopted(e.entity, old(self).parent)),
            e.commands.bound() == bound_after(old(self).commands.bound(), 1),
            e.commands.half_applied() == old(self).commands.half_applied(),
            e.commands.arena_state() == after_stores(
                old(self).commands.arena_state(),
                bundle@,
                bundle@.len(),
            ),
            final(self).parent == old(self).parent,
            *final(self).commands == *final(e.commands),
    {
        let child: Entity = self.commands.spawn(world, bundle).id();
        self.commands.add_relation(child, ChildOf, self.parent);
        EntityCommands { commands: &mut *self.commands, entity: child }
    }
}

proof fn lemma_drops_kept(
    w: WorldState,
    r: RegistryState,
    e: Entity,
    parts: Seq<PartState>,
    longer: Seq<PartState>,
    n: nat,
)
    requires
        n <= parts.len() <= longer.len(),
        extends(w.registry, r),
        forall|i: int|
            0 <= i < parts.len() ==> (#[trigger] parts[i]).id < w.registry.infos.len() && longer[i]
                == parts[i],
    ensures
        with_registry(after_drops(w, e, parts, n), r) == after_drops(
            with_registry(w, r),
            e,
            longer,
            n,
        ),
    decreases n,
{
    if n > 0 {
        lemma_drops_kept(w, r, e, parts, longer, (n - 1) as nat);
        assert(parts[n - 1].id < w.registry.infos.len());
        assert(r.infos[parts[n - 1].id as int] == w.registry.infos[parts[n - 1].id as int]);
    }
}

/// Writing components in one go is writing them one after the other, whatever types are registered
/// in between.
pub proof fn law_inserts_one_by_one(
    w: WorldState,
    r: RegistryState,
    e: Entity,
    parts: Seq<PartState>,
    p: PartState,
)
    requires
        extends(w.registry, r),
        requires_wf(w.registry),
        requires_wf(r),
        p.id < r.infos.len(),
        forall|i: int|
            0 <= i < parts.len() ==> (#[trigger] parts[i]).id < w.registry.infos.len(),
    ensures
        after_inserts(with_registry(after_inserts(w, e, parts), r), e, seq![p]) == after_inserts(
            with_registry(w, r),
            e,
            parts.push(p),
        ),
{
    let longer = parts.push(p);
    let n = parts.len();
    lemma_drops_kept(w, r, e, parts, longer, n);
    reveal_with_fuel(after_drops, 2);
    if w.values.contains_key(e) {
        lemma_one_more(w.registry, r, e, w.values[e], parts, p, w.tick);
        let a = after_inserts(with_registry(after_inserts(w, e, parts), r), e, seq![p]);
        let b = after_inserts(with_registry(w, r), e, longer);
        assert(longer[n as int] == p);
        assert(a.values =~= b.values);
        assert(a.relations.hooks =~= b.relations.hooks);
        assert(a.discarded =~= b.discarded);
    } else {
        lemma_drops_values(w, e, parts, n);
        assert(longer[n as int] == p);
    }
}

proof fn lemma_drops_values(w: WorldState, e: Entity, parts: Seq<PartState>, n: nat)
    requires
        n <= parts.len(),
    ensures
        after_drops(w, e, parts, n).values == w.values,
        after_drops(w, e, parts, n).registry == w.registry,
        after_drops(w, e, parts, n).entities == w.entities,
        after_drops(w, e, parts, n).relations == w.relations,
        after_drops(w, e, parts, n).tick == w.tick,
    decreases n,
{
    if n > 0 {
        lemma_drops_values(w, e, parts, (n - 1) as nat);
    }
}

/// Ids that are ready stay so through a despawn.
proof fn lemma_despawns_keep(w: WorldState, stack: Seq<Entity>, x: Entity)
    requires
        world_ok(w),
        ready(w.entities, x),
    ensures
        ready(after_despawns(w, stack).entities, x),
    decreases crate::entity::located(w.entities.locations), stack.len(),
{
    if stack.len() > 0 {
        let e = stack.last();
        if alive(w.entities, e) && e.index < w.entities.locations.len() {
            crate::entity::lemma_located_update(w.entities.locations, e.index as int, None);
            lemma_release_ok(w, e);
            assert(e.index != x.index) by {
                if e.index == x.index {
                    assert(w.entities.locations[e.index as int] is Some);
                }
            }
            crate::world::lemma_ready_kept(w.entities, x, e);
            lemma_despawns_keep(
                after_release(w, e),
                stack.drop_last() + crate::relation_graph::cascade_children(
                    w.relations,
                    e,
                    w.relations.kinds.len(),
                ),
                x,
            );
        } else {
            lemma_despawns_keep(w, stack.drop_last(), x);
        }
    }
}

proof fn lemma_despawns_registry(w: WorldState, stack: Seq<Entity>)
    ensures
        after_despawns(w, stack).registry == w.registry,
        after_despawns(w, stack).tick == w.tick,
    decreases crate::entity::located(w.entities.locations), stack.len(),
{
    if stack.len() > 0 {
        let e = stack.last();
        if alive(w.entities, e) && e.index < w.entities.locations.len() {
            crate::entity::lemma_located_update(w.entities.locations, e.index as int, None);
            lemma_despawns_registry(
                after_release(w, e),
                stack.drop_last() + crate::relation_graph::cascade_children(
                    w.relations,
                    e,
                    w.relations.kinds.len(),
                ),
            );
        } else {
            lemma_despawns_registry(w, stack.drop_last());
        }
    }
}

/// A world stays in order when a live entity is released.
pub proof fn lemma_release_ok(w: WorldState, e: Entity)
    requires
        world_ok(w),
        alive(w.entities, e),
    ensures
        world_ok(after_release(w, e)),
{
    crate::world::lemma_located_is_held(w.entities, e.index);
    crate::entity_laws::law_free_keeps_pool_sound(w.entities, e);
    crate::relation_graph::lemma_after_detach(w.relations, e);
    let t = after_release(w, e);
    assert forall|x: Entity| #[trigger] t.values.contains_key(x) <==> alive(t.entities, x) by {
        assert(w.values.contains_key(x) <==> alive(w.entities, x));
        if x.index == e.index {
            assert(!alive(t.entities, x));
            if x != e {
                assert(!alive(w.entities, x));
            }
        }
    }
}

proof fn lemma_orphaned_keeps(w: WorldState, children: Seq<Entity>, parent: Entity, n: nat)
    ensures
        after_orphaned(w, children, parent, n).registry == w.registry,
        after_orphaned(w, children, parent, n).entities == w.entities,
        after_orphaned(w, children, parent, n).tick == w.tick,
    decreases n,
{
    if n > 0 {
        lemma_orphaned_keeps(w, children, parent, (n - 1) as nat);
    }
}

proof fn lemma_add_relations_keeps(
    w: WorldState,
    subjects: Seq<Entity>,
    kind: KindInfo,
    target: Entity,
    n: nat,
)
    ensures
        after_add_relations(w, subjects, kind, target, n).registry == w.registry,
        after_add_relations(w, subjects, kind, target, n).entities == w.entities,
        after_add_relations(w, subjects, kind, target, n).tick == w.tick,
    decreases n,
{
    if n > 0 {
        lemma_add_relations_keeps(w, subjects, kind, target, (n - 1) as nat);
    }
}

/// What one command leaves in order: types keep their numbers and sizes, and ids that are ready
/// for a later spawn stay so.
proof fn lemma_command_keeps(sizes: Map<u64, usize>, w: WorldState, c: CommandState)
    requires
        world_ok(w),
        infos_agree(sizes, w.registry.infos),
        command_fits(sizes, w.registry.infos, c),
        w.registry.infos.len() + command_cost(c) <= INVALID_ID,
        w.entities.high_water + 1 <= u32::MAX,
        spawns_reserved(c) ==> ready(w.entities, c->Spawn_entity),
    ensures
        infos_agree(sizes, after_command(w, c).registry.infos),
        extends(w.registry, after_command(w, c).registry),
        after_command(w, c).tick == w.tick,
        forall|x: Entity|
            ready(w.entities, x) && (spawns_reserved(c) ==> x.index != c->Spawn_entity.index)
                ==> #[trigger] ready(after_command(w, c).entities, x),
{
    let t = after_command(w, c);
    match c {
        CommandState::Spawn { entity, bundle } => {
            crate::world::lemma_after_registers(sizes, w.registry, bundle, bundle.len());
            assert forall|x: Entity|
                ready(w.entities, x) && (spawns_reserved(c) ==> x.index
                    != c->Spawn_entity.index) implies #[trigger] ready(t.entities, x) by {
                crate::world::lemma_ready_kept(w.entities, x, entity);
            }
        },
        CommandState::Insert { entity, part } => {
            lemma_after_register(w.registry, part.desc);
            lemma_register_agrees(sizes, w.registry, part.desc);
            let r = with_registry(w, after_register(w.registry, part.desc));
            let id = id_of(r.registry.infos, part.desc.key)->0;
            lemma_drops_values(
                r,
                entity,
                seq![PartState { id, value: part.value, tick: w.tick }],
                1,
            );
        },
        CommandState::InsertRaw { entity, part } => {
            lemma_drops_values(w, entity, seq![part], 1);
        },
        CommandState::Despawn { entity } => {
            lemma_despawns_registry(w, seq![entity]);
            assert forall|x: Entity| ready(w.entities, x) implies #[trigger] ready(
                t.entities,
                x,
            ) by {
                if w.values.contains_key(entity) {
                    lemma_despawns_keep(w, seq![entity], x);
                }
            }
        },
        CommandState::AddRelations { subjects, kind, target } => {
            lemma_add_relations_keeps(w, subjects, kind, target, subjects.len());
        },
        CommandState::ClearChildren { parent } => {
            let children = subjects_of(w, child_key(), parent);
            lemma_orphaned_keeps(w, children, parent, children.len());
        },
        _ => {},
    }
}

/// The world once reservations are reconciled.
pub open spec fn flushed(w: WorldState) -> WorldState {
    WorldState { entities: after_flush(w.entities), ..w }
}

proof fn lemma_commands_cost(cmds: Seq<CommandState>, m: nat, n: nat)
    requires
        m <= n <= cmds.len(),
    ensures
        commands_cost(cmds, m) <= commands_cost(cmds, n),
    decreases n - m,
{
    if m < n {
        lemma_commands_cost(cmds, m + 1, n);
    }
}

/// A command at the front of the rest of a queue.
fn insert_target(q: &Queued) -> (e: Option<Entity>)
    ensures
        forall|bytes: Seq<u8>|
            e == match #[trigger] q.state(bytes) {
                CommandState::Insert { entity, .. } => Some(entity),
                CommandState::InsertRaw { entity, .. } => Some(entity),
                _ => None,
            },
{
    match q {
        Queued::Insert { entity, .. } => Some(*entity),
        Queued::InsertRaw { entity, .. } => Some(*entity),
        _ => None,
    }
}

/// Whether two spawns are of the same types.
fn same_spawn(a: &Vec<QueuedPart>, b: &Vec<QueuedPart>) -> (same: bool)
    ensures
        same == (a@.len() == b@.len() && forall|i: int|
            0 <= i < a@.len() ==> (#[trigger] a@[i]).desc.key == b@[i].desc.key),
{
    if a.len() != b.len() {
        return false;
    }
    let mut i: usize = 0;
    while i < a.len()
        invariant
            i <= a@.len() == b@.len(),
            forall|k: int| 0 <= k < i ==> (#[trigger] a@[k]).desc.key == b@[k].desc.key,
        decreases a.len() - i,
    {
        if a[i].desc.key != b[i].desc.key {
            assert(a@[i as int].desc.key != b@[i as int].desc.key);
            return false;
        }
        i = i + 1;
    }
    true
}

impl Commands {
    /// Reads the payloads of a spawn.
    fn load(&self, parts: Vec<QueuedPart>) -> (bundle: Bundle)
        requires
            forall|i: int| 0 <= i < parts@.len() ==> (#[trigger] parts@[i]).wf(self.arena@.bytes),
        ensures
            bundle@ == parts@.map_values(|p: QueuedPart| p.state(self.arena@.bytes)),
    {
        let ghost all = parts@;
        let ghost bytes = self.arena@.bytes;
        let mut rest: Vec<QueuedPart> = reversed(parts);
        let ghost back = rest@;
        let mut out: Vec<BundlePart> = Vec::new();
        while rest.len() > 0
            invariant
                out@.len() + rest@.len() == all.len() == back.len(),
                back == all.reverse(),
                bytes == self.arena@.bytes,
                rest@ == back.subrange(0, rest@.len() as int),
                forall|i: int| 0 <= i < all.len() ==> (#[trigger] all[i]).wf(bytes),
                forall|i: int|
                    0 <= i < out@.len() ==> (BundleState {
                        desc: (#[trigger] out@[i]).desc,
                        value: out@[i].value@,
                    }) == all[i].state(bytes),
            decreases rest.len(),
        {
            let ghost old_rest = rest@;
            let ghost n = out@.len();
            if let Some(p) = rest.pop() {
                proof {
                    assert(p == back[old_rest.len() - 1]);
                    assert(p == all[n as int]);
                    assert(rest@ =~= back.subrange(0, rest@.len() as int));
                }
                let value: Vec<u8> = bytes_of(self.arena.get(p.offset, p.len));
                out.push(BundlePart { desc: p.desc, value });
            }
        }
        let bundle = Bundle { parts: out };
        assert(bundle@ =~= all.map_values(|p: QueuedPart| p.state(self.arena@.bytes)));
        bundle
    }

    /// Applies a run of commands that write components of one entity: the entity changes its
    /// archetype at most once.
    #[verifier::spinoff_prover]
    #[verifier::rlimit(100)]
    fn apply_insert_group(&self, world: &mut World, entity: Entity, group: &Vec<Queued>)
        requires
            old(world).wf(),
            queue_wf(group@, self.arena@.bytes),
            forall|i: int|
                0 <= i < group@.len() ==> match (#[trigger] group@[i]).state(self.arena@.bytes) {
                    CommandState::Insert { entity: e, .. } => e == entity,
                    CommandState::InsertRaw { entity: e, .. } => e == entity,
                    _ => false,
                },
            group@.len() > 0,
            old(world).room(commands_cost(states(group@, self.arena@.bytes), group@.len())),
            exists|sizes: Map<u64, usize>|
                #![trigger infos_agree(sizes, old(world)@.registry.infos)]
                infos_agree(sizes, old(world)@.registry.infos) && commands_fit(
                    sizes,
                    old(world)@.registry.infos,
                    states(group@, self.arena@.bytes),
                ),
        ensures
            final(world).wf(),
            final(world)@ == after_commands(
                old(world)@,
                states(group@, self.arena@.bytes),
                group@.len(),
            ),
            final(world).layout() == settled(old(world).layout(), final(world)@, entity),
            forall|n: nat|
                old(world).room(
                    n + commands_cost(states(group@, self.arena@.bytes), group@.len()),
                ) ==> #[trigger] final(world).room(n),
    {
        let ghost bytes = self.arena@.bytes;
        let ghost cmds = states(group@, bytes);
        let ghost w = world@;
        let ghost total = commands_cost(cmds, cmds.len());
        let ghost sizes = choose|sizes: Map<u64, usize>|
            #![trigger infos_agree(sizes, old(world)@.registry.infos)]
            infos_agree(sizes, old(world)@.registry.infos) && commands_fit(
                sizes,
                old(world)@.registry.infos,
                states(group@, self.arena@.bytes),
            );
        let tick: Tick = world.current_tick();
        let mut parts: Vec<RawPart> = Vec::new();
        let mut k: usize = 0;
        proof {
            assert(part_states(parts@) =~= Seq::<PartState>::empty());
            assert(after_commands(w, cmds, 0) == w);
            assert(after_inserts(w, entity, Seq::<PartState>::empty()) == w) by {
                if w.values.contains_key(entity) {
                    lemma_none(w.registry, entity, w.values[entity], w.tick);
                    assert(w.values.insert(entity, w.values[entity]) =~= w.values);
                    assert(w.relations.hooks + Seq::<HookEvent>::empty() =~= w.relations.hooks);
                    assert(w.discarded + Seq::<DiscardState>::empty() =~= w.discarded);
                }
            }
        }
        while k < group.len()
            invariant
                k <= group@.len() == cmds.len(),
                bytes == self.arena@.bytes,
                cmds == states(group@, bytes),
                queue_wf(group@, bytes),
                forall|i: int|
                    0 <= i < group@.len() ==> match (#[trigger] group@[i]).state(bytes) {
                        CommandState::Insert { entity: e, .. } => e == entity,
                        CommandState::InsertRaw { entity: e, .. } => e == entity,
                        _ => false,
                    },
                total == commands_cost(cmds, cmds.len()),
                old(world).room(total),
                world.wf(),
                w == old(world)@,
                tick == w.tick,
                world@ == with_registry(w, world@.registry),
                world.store() == old(world).store(),
                extends(w.registry, world@.registry),
                infos_agree(sizes, world@.registry.infos),
                commands_fit(sizes, w.registry.infos, cmds),
                states_fit(part_states(parts@), world@.registry.infos),
                after_commands(w, cmds, k as nat) == after_inserts(
                    world@,
                    entity,
                    part_states(parts@),
                ),
                forall|n: nat|
                    old(world).room(n + commands_cost(cmds, k as nat)) ==> #[trigger] world.room(n),
                k > 0 ==> forall|n: nat|
                    old(world).room(n + commands_cost(cmds, k as nat)) ==> #[trigger] world.room(
                        n + 1,
                    ),
            decreases group.len() - k,
        {
            let ghost before = *world;
            let ghost prev = part_states(parts@);
            let ghost c = cmds[k as int];
            let ghost cost = command_cost(c);
            proof {
                assert(c == group@[k as int].state(bytes));
                assert(group@[k as int].wf(bytes));
                assert(command_fits(sizes, w.registry.infos, c));
                world.lemma_wf();
                lemma_commands_cost(cmds, (k + 1) as nat, cmds.len());
                let m = (total - commands_cost(cmds, k as nat)) as nat;
                assert(old(world).room(m + commands_cost(cmds, k as nat)));
                assert(world.room(m));
                assert(cost <= m);
                world.lemma_room(cost, m);
                world.lemma_room_infos(cost);
            }
            match &group[k] {
                Queued::Insert { part, .. } => {
                    proof {
                        world.lemma_room(desc_count(part.desc), cost);
                        lemma_after_register(world@.registry, part.desc);
                        lemma_register_agrees(sizes, world@.registry, part.desc);
                    }
                    let id: ComponentId = world.register_component(&part.desc);
                    let value: Vec<u8> = bytes_of(self.arena.get(part.offset, part.len));
                    parts.push(RawPart { id, value, tick });
                    proof {
                        let p = parts@.last()@;
                        assert(part_states(parts@) =~= prev.push(p));
                        let infos = world@.registry.infos;
                        let j = choose|j: int|
                            0 <= j < infos.len() && (#[trigger] infos[j]).key == part.desc.key;
                        assert(0 <= j < infos.len() && infos[j].key == part.desc.key);
                        world.lemma_wf();
                        lemma_id_of(infos, j);
                        assert(sizes[infos[j].key] == infos[j].size);
                        assert(agrees(sizes, part.desc));
                        law_inserts_one_by_one(before@, world@.registry, entity, prev, p);
                        let done = after_commands(w, cmds, k as nat);
                        lemma_inserts_registry(before@, entity, prev);
                        assert(after_commands(w, cmds, (k + 1) as nat) == after_command(done, c));
                        assert forall|i: int|
                            0 <= i < part_states(parts@).len() implies (#[trigger] part_states(
                            parts@,
                        )[i]).id < infos.len() && part_states(parts@)[i].value.len()
                            == infos[part_states(parts@)[i].id as int].size by {
                            if i < prev.len() {
                                assert(part_states(parts@)[i] == prev[i]);
                            }
                        }
                        assert forall|n: nat|
                            old(world).room(n + commands_cost(cmds, (k + 1) as nat)) implies
                            #[trigger] world.room(n + 1) by {
                            assert(old(world).room((n + cost) + commands_cost(cmds, k as nat)));
                            assert(before.room((n + 1) + desc_count(part.desc)));
                        }
                    }
                },
                Queued::InsertRaw { component_id, data, tick: at, .. } => {
                    parts.push(
                        RawPart { id: *component_id, value: bytes_of(data.as_slice()), tick: *at },
                    );
                    proof {
                        let p = parts@.last()@;
                        assert(part_states(parts@) =~= prev.push(p));
                        law_inserts_one_by_one(before@, world@.registry, entity, prev, p);
                        lemma_inserts_registry(before@, entity, prev);
                        let done = after_commands(w, cmds, k as nat);
                        assert(with_registry(done, done.registry) == done);
                        assert(after_commands(w, cmds, (k + 1) as nat) == after_command(done, c));
                        let infos = world@.registry.infos;
                        assert(infos[p.id as int] == w.registry.infos[p.id as int]);
                        assert forall|i: int|
                            0 <= i < part_states(parts@).len() implies (#[trigger] part_states(
                            parts@,
                        )[i]).id < infos.len() && part_states(parts@)[i].value.len()
                            == infos[part_states(parts@)[i].id as int].size by {
                            if i < prev.len() {
                                assert(part_states(parts@)[i] == prev[i]);
                            }
                        }
                        assert forall|n: nat|
                            old(world).room(n + commands_cost(cmds, (k + 1) as nat)) implies
                            #[trigger] world.room(n + 1) by {
                            assert(old(world).room((n + cost) + commands_cost(cmds, k as nat)));
                            assert(before.room(n + 1));
                        }
                    }
                },
                _ => {},
            }
            k = k + 1;
            proof {
                assert forall|n: nat|
                    old(world).room(n + commands_cost(cmds, k as nat)) implies #[trigger] world.room(
                    n,
                ) by {
                    assert(world.room(n + 1));
                    world.lemma_room(n, n + 1);
                }
            }
        }
        let ghost mid = *world;
        proof {
            assert(old(world).room(0 + commands_cost(cmds, cmds.len())));
            assert(world.room(0 + 1));
        }
        let done: bool = world.insert_parts(entity, &parts);
        proof {
            assert forall|n: nat| old(world).room(n + total) implies #[trigger] world.room(n) by {
                assert(mid.room(n + 1));
            }
        }
    }
}

proof fn lemma_inserts_registry(w: WorldState, e: Entity, parts: Seq<PartState>)
    ensures
        after_inserts(w, e, parts).registry == w.registry,
        after_inserts(w, e, parts).tick == w.tick,
{
    lemma_drops_values(w, e, parts, parts.len());
}

impl Commands {
    /// Applies one command that is not part of a run.
    fn apply_one(&self, cmd: Queued, world: &mut World)
        requires
            old(world).wf(),
            cmd.wf(self.arena@.bytes),
            !is_outside(cmd.state(self.arena@.bytes)),
            old(world).room(command_cost(cmd.state(self.arena@.bytes))),
            spawns_reserved(cmd.state(self.arena@.bytes)) ==> ready(
                old(world)@.entities,
                cmd.state(self.arena@.bytes)->Spawn_entity,
            ),
            exists|sizes: Map<u64, usize>|
                #![trigger infos_agree(sizes, old(world)@.registry.infos)]
                infos_agree(sizes, old(world)@.registry.infos) && command_fits(
                    sizes,
                    old(world)@.registry.infos,
                    cmd.state(self.arena@.bytes),
                ),
        ensures
            final(world).wf(),
            final(world)@ == after_command(old(world)@, cmd.state(self.arena@.bytes)),
            final(world).layout() == tables_after_command(
                old(world).layout(),
                old(world)@,
                cmd.state(self.arena@.bytes),
            ),
            forall|n: nat|
                old(world).room(n + command_cost(cmd.state(self.arena@.bytes)))
                    ==> #[trigger] final(world).room(n),
    {
        let ghost bytes = self.arena@.bytes;
        let ghost c = cmd.state(bytes);
        let ghost cost = command_cost(c);
        let ghost sizes = choose|sizes: Map<u64, usize>|
            #![trigger infos_agree(sizes, old(world)@.registry.infos)]
            infos_agree(sizes, old(world)@.registry.infos) && command_fits(
                sizes,
                old(world)@.registry.infos,
                cmd.state(self.arena@.bytes),
            );
        match cmd {
            Queued::Spawn { entity, parts } => {
                let bundle: Bundle = self.load(parts);
                assert(c == (CommandState::Spawn { entity, bundle: bundle@ }));
                assert(bundle_fits(sizes, bundle@));
                if entity.index == u32::MAX && entity.generation == u32::MAX {
                    let new: Entity = world.spawn(&bundle);
                } else {
                    assert(spawns_reserved(c));
                    world.spawn_reserved(entity, &bundle);
                }
            },
            Queued::Insert { entity, part } => {
                let value: Vec<u8> = bytes_of(self.arena.get(part.offset, part.len));
                proof {
                    let infos = world@.registry.infos;
                    assert(agrees(sizes, part.desc));
                    assert forall|i: int|
                        0 <= i < infos.len() && (#[trigger] infos[i]).key
                            == part.desc.key implies infos[i].size == part.desc.size by {
                        assert(sizes[infos[i].key] == infos[i].size);
                    }
                }
                let done: bool = world.insert(entity, &part.desc, value);
            },
            Queued::Remove { entity, component_id } => {
                let done: bool = world.remove_raw(entity, component_id);
            },
            Queued::RemoveTyped { entity, key } => {
                let done: bool = world.remove(entity, key);
            },
            Queued::InsertRaw { entity, component_id, data, tick } => {
                let done: bool = world.insert_raw(entity, component_id, data, tick);
            },
            Queued::Despawn { entity } => {
                let done: bool = world.despawn(entity);
                if !done {
                    proof {
                        old(world).lemma_wf();
                        reveal_with_fuel(after_despawns, 2);
                        assert(seq![entity].drop_last() =~= Seq::<Entity>::empty());
                        assert(world@ == old(world)@);
                    }
                    let ghost mid = *world;
                    world.report(
                        Anomaly {
                            severity: Severity::Warn,
                            op: "Commands::despawn",
                            entity: Some(entity),
                            component: None,
                            detail: "no-op (already despawned?)".to_owned(),
                        },
                    );
                    proof {
                        assert forall|n: nat| old(world).room(n + cost) implies #[trigger] world.room(
                            n,
                        ) by {
                            old(world).lemma_room(n, n + cost);
                            assert(mid.room(n));
                        }
                    }
                } else {
                    proof {
                        assert forall|n: nat| old(world).room(n + cost) implies #[trigger] world.room(
                            n,
                        ) by {
                            old(world).lemma_room(n, n + cost);
                        }
                    }
                }
            },
            Queued::AddRelation { subject, kind, target } => {
                world.add_relation_of_kind(subject, kind, target);
            },
            Queued::RemoveRelation { subject, key, target } => {
                world.remove_relation_by_key(subject, key, target);
                proof {
                    assert forall|n: nat| old(world).room(n + cost) implies #[trigger] world.room(
                        n,
                    ) by {
                        old(world).lemma_room(n, n + cost);
                    }
                }
            },
            Queued::AddRelations { subjects, kind, target } => {
                world.add_relation_batch_of_kind(&subjects, kind, target);
                proof {
                    assert forall|n: nat| old(world).room(n + cost) implies #[trigger] world.room(
                        n,
                    ) by {
                        assert(old(world).room(n + subjects@.len() + 1));
                    }
                }
            },
            Queued::RemoveParent { entity } => {
                if let Some(parent) = world.target_of(entity, ChildOf) {
                    world.remove_relation(entity, ChildOf, parent);
                }
                proof {
                    assert forall|n: nat| old(world).room(n + cost) implies #[trigger] world.room(
                        n,
                    ) by {
                        old(world).lemma_room(n, n + cost);
                    }
                }
            },
            Queued::ClearChildren { parent } => {
                let children: Vec<Entity> = world.targets_of(ChildOf, parent);
                let mut i: usize = 0;
                while i < children.len()
                    invariant
                        i <= children@.len(),
                        world.wf(),
                        world@ == after_orphaned(old(world)@, children@, parent, i as nat),
                        world.store() == old(world).store(),
                        forall|n: nat| old(world).room(n) ==> #[trigger] world.room(n),
                    decreases children.len() - i,
                {
                    let ghost before = *world;
                    world.remove_relation(children[i], ChildOf, parent);
                    i = i + 1;
                    proof {
                        assert forall|n: nat| old(world).room(n) implies #[trigger] world.room(n) by {
                            assert(before.room(n));
                        }
                    }
                }
                proof {
                    assert forall|n: nat| old(world).room(n + cost) implies #[trigger] world.room(
                        n,
                    ) by {
                        old(world).lemma_room(n, n + cost);
                    }
                }
            },
            Queued::InsertResource { key, value } => {
                world.insert_resource(key, value);
                proof {
                    assert forall|n: nat| old(world).room(n + cost) implies #[trigger] world.room(
                        n,
                    ) by {
                        old(world).lemma_room(n, n + cost);
                    }
                }
            },
            Queued::Template { .. } => {},
            Queued::Apply { .. } => {},
        }
    }
}

/// The entity to which a queued command writes a component.
spec fn queued_target(q: Queued) -> Option<Entity> {
    match q {
        Queued::Insert { entity, .. } => Some(entity),
        Queued::InsertRaw { entity, .. } => Some(entity),
        _ => None,
    }
}

/// The run at the front ends where the commands that write to its entity end.
proof fn lemma_insert_run(rest: Seq<Queued>, bytes: Seq<u8>, n: nat, e: Entity)
    requires
        1 <= n <= rest.len(),
        is_insert_run(rest, n as int, e),
        n < rest.len() ==> queued_target(rest[rest.len() - 1 - n]) != Some(e),
    ensures
        run_end(pending(rest, bytes), 0, 1) == n,
        writes_to(pending(rest, bytes)[0]) == Some(e),
{
    let p = pending(rest, bytes);
    assert forall|k: int| 0 <= k < rest.len() implies #[trigger] p[k] == rest[rest.len() - 1
        - k].state(bytes) && writes_to(p[k]) == queued_target(rest[rest.len() - 1 - k]) by {
    }
    assert(queued_target(rest[rest.len() - 1]) == Some(e));
    assert(writes_to(p[0]) == Some(e));
    assert forall|k: int| 1 <= k < n implies goes_with(p[0], #[trigger] p[k]) by {
        assert(is_insert_run(rest, n as int, e));
        let x = rest[rest.len() - 1 - k];
        assert(queued_target(x) == Some(e));
    }
    lemma_run_end(p, 0, 1, n);
}

/// The run at the front ends where the spawns of its types end, unless it writes to an entity.
proof fn lemma_spawn_run(rest: Seq<Queued>, bytes: Seq<u8>, n: nat)
    requires
        1 <= n <= rest.len(),
        n > 1 ==> forall|i: int|
            rest.len() - n <= i < rest.len() ==> same_keys(rest.last(), #[trigger] rest[i]),
        n < rest.len() ==> !same_keys(rest.last(), rest[rest.len() - 1 - n]),
        queued_target(rest.last()) is None,
    ensures
        run_end(pending(rest, bytes), 0, 1) == n,
        writes_to(pending(rest, bytes)[0]) is None,
{
    let p = pending(rest, bytes);
    assert(p[0] == rest.last().state(bytes));
    assert(writes_to(p[0]) is None);
    assert forall|k: int| 0 <= k < rest.len() implies goes_with(p[0], #[trigger] p[k]) == same_keys(
        rest.last(),
        rest[rest.len() - 1 - k],
    ) by {
        let x = rest[rest.len() - 1 - k];
        assert(p[k] == x.state(bytes));
        lemma_same_keys(rest.last(), x, bytes);
    }
    assert forall|k: int| 1 <= k < n implies goes_with(p[0], #[trigger] p[k]) by {
        let x = rest[rest.len() - 1 - k];
        assert(same_keys(rest.last(), x));
    }
    lemma_run_end(p, 0, 1, n);
}

/// Spawns of the same types go together.
proof fn lemma_same_keys(a: Queued, b: Queued, bytes: Seq<u8>)
    requires
        queued_target(a) is None,
    ensures
        goes_with(a.state(bytes), b.state(bytes)) == same_keys(a, b),
{
    match (a, b) {
        (Queued::Spawn { parts: x, .. }, Queued::Spawn { parts: y, .. }) => {
            let u = a.state(bytes)->Spawn_bundle;
            let v = b.state(bytes)->Spawn_bundle;
            assert forall|i: int| 0 <= i < x@.len() implies (#[trigger] x@[i]).desc.key
                == u[i].desc.key by {
            }
            assert forall|i: int| 0 <= i < y@.len() implies (#[trigger] y@[i]).desc.key
                == v[i].desc.key by {
            }
            if same_keys(a, b) {
                assert forall|i: int| 0 <= i < u.len() implies (#[trigger] u[i]).desc.key
                    == v[i].desc.key by {
                    assert(x@[i].desc.key == y@[i].desc.key);
                }
            }
            if same_types(u, v) {
                assert forall|i: int| 0 <= i < x@.len() implies (#[trigger] x@[i]).desc.key
                    == y@[i].desc.key by {
                    assert(u[i].desc.key == v[i].desc.key);
                    let yi = y@[i];
                }
            }
        },
        _ => {},
    }
}

/// Whether the last `n` of the rest of a queue write components of one entity.
spec fn is_insert_run(rest: Seq<Queued>, n: int, e: Entity) -> bool {
    forall|i: int|
        rest.len() - n <= i < rest.len() ==> match #[trigger] rest[i] {
            Queued::Insert { entity, .. } => entity == e,
            Queued::InsertRaw { entity, .. } => entity == e,
            _ => false,
        }
}

/// Whether two spawns in the queue are of the same types.
spec fn same_keys(a: Queued, b: Queued) -> bool {
    match (a, b) {
        (Queued::Spawn { parts: p, .. }, Queued::Spawn { parts: q, .. }) => p@.len() == q@.len()
            && forall|i: int| 0 <= i < p@.len() ==> (#[trigger] p@[i]).desc.key == q@[i].desc.key,
        _ => false,
    }
}

/// Number of commands at the end of the rest of a queue that write components of one entity, and
/// that entity; one where the last command is another.
fn insert_run(rest: &Vec<Queued>) -> (run: (usize, Option<Entity>))
    requires
        rest@.len() > 0,
    ensures
        1 <= run.0 <= rest@.len(),
        run.1 is None ==> run.0 == 1,
        run.1 matches Some(e) ==> is_insert_run(rest@, run.0 as int, e),
        queued_target(rest@.last()) == run.1,
        run.1 is Some && run.0 < rest@.len() ==> queued_target(rest@[rest@.len() - 1 - run.0])
            != run.1,
{
    let last: usize = rest.len() - 1;
    match insert_target(&rest[last]) {
        None => (1, None),
        Some(e) => {
            let mut n: usize = 1;
            let ghost none = Seq::<u8>::empty();
            assert(is_insert_run(rest@, 1, e)) by {
                let s = rest@[last as int].state(none);
            }
            while n < rest.len()
                invariant
                    1 <= n <= rest@.len(),
                    is_insert_run(rest@, n as int, e),
                decreases rest.len() - n,
            {
                let i: usize = rest.len() - 1 - n;
                match insert_target(&rest[i]) {
                    Some(x) => {
                        if x != e {
                            return (n, Some(e));
                        }
                        assert(is_insert_run(rest@, n + 1, e)) by {
                            let s = rest@[i as int].state(none);
                            assert forall|k: int|
                                rest@.len() - (n + 1) <= k < rest@.len() implies match
                            #[trigger] rest@[k] {
                                Queued::Insert { entity, .. } => entity == e,
                                Queued::InsertRaw { entity, .. } => entity == e,
                                _ => false,
                            } by {
                                if k > i {
                                    assert(is_insert_run(rest@, n as int, e));
                                }
                            }
                        }
                        n = n + 1;
                    },
                    None => {
                        return (n, Some(e));
                    },
                }
            }
            (n, Some(e))
        },
    }
}

/// Number of commands at the end of the rest of a queue that are spawns of the same types; one
/// where the last command is another.
fn spawn_run(rest: &Vec<Queued>) -> (n: usize)
    requires
        rest@.len() > 0,
    ensures
        1 <= n <= rest@.len(),
        n > 1 ==> forall|i: int|
            rest@.len() - n <= i < rest@.len() ==> same_keys(rest@.last(), #[trigger] rest@[i]),
        n < rest@.len() ==> !same_keys(rest@.last(), rest@[rest@.len() - 1 - n]),
{
    let last: usize = rest.len() - 1;
    match &rest[last] {
        Queued::Spawn { parts, .. } => {
            let mut n: usize = 1;
            while n < rest.len()
                invariant
                    1 <= n <= rest@.len(),
                    last == rest@.len() - 1,
                    rest@[last as int] matches Queued::Spawn { parts: p, .. } && p == *parts,
                    forall|i: int|
                        rest@.len() - n <= i < rest@.len() ==> same_keys(
                            rest@.last(),
                            #[trigger] rest@[i],
                        ),
                decreases rest.len() - n,
            {
                let i: usize = rest.len() - 1 - n;
                match &rest[i] {
                    Queued::Spawn { parts: other, .. } => {
                        if !same_spawn(parts, other) {
                            return n;
                        }
                        n = n + 1;
                    },
                    _ => {
                        return n;
                    },
                }
            }
            n
        },
        _ => 1,
    }
}

proof fn lemma_commands_split(w: WorldState, cmds: Seq<CommandState>, i: int, n: nat)
    requires
        0 <= i <= i + n <= cmds.len(),
    ensures
        after_commands(w, cmds, (i + n) as nat) == after_commands(
            after_commands(w, cmds, i as nat),
            cmds.subrange(i, i + n),
            n,
        ),
        commands_cost(cmds, (i + n) as nat) == commands_cost(cmds, i as nat) + commands_cost(
            cmds.subrange(i, i + n),
            n,
        ),
    decreases n,
{
    if n > 0 {
        let n1 = (n - 1) as nat;
        lemma_commands_split(w, cmds, i, n1);
        let long = cmds.subrange(i, i + n);
        let short = cmds.subrange(i, i + n1);
        lemma_commands_prefix(after_commands(w, cmds, i as nat), short, long, n1);
        assert(long[n - 1] == cmds[i + n - 1]);
    }
}

proof fn lemma_commands_prefix(
    w: WorldState,
    short: Seq<CommandState>,
    long: Seq<CommandState>,
    n: nat,
)
    requires
        n <= short.len() <= long.len(),
        forall|i: int| 0 <= i < short.len() ==> #[trigger] long[i] == short[i],
    ensures
        after_commands(w, short, n) == after_commands(w, long, n),
        commands_cost(short, n) == commands_cost(long, n),
    decreases n,
{
    if n > 0 {
        lemma_commands_prefix(w, short, long, (n - 1) as nat);
        assert(long[n - 1] == short[n - 1]);
    }
}

/// A world stays in order when a component is written or a bundle spawned.
proof fn lemma_command_ok(sizes: Map<u64, usize>, w: WorldState, c: CommandState)
    requires
        world_ok(w),
        c is Spawn || c is Insert || c is InsertRaw,
        infos_agree(sizes, w.registry.infos),
        command_fits(sizes, w.registry.infos, c),
        w.registry.infos.len() + command_cost(c) <= INVALID_ID,
        w.entities.high_water + 1 <= u32::MAX,
        spawns_reserved(c) ==> ready(w.entities, c->Spawn_entity),
    ensures
        world_ok(after_command(w, c)),
        after_command(w, c).registry.infos.len() <= w.registry.infos.len() + command_cost(c),
        after_command(w, c).entities.high_water <= w.entities.high_water + 1,
{
    let t = after_command(w, c);
    match c {
        CommandState::Spawn { entity, bundle } => {
            crate::world::lemma_after_registers(sizes, w.registry, bundle, bundle.len());
            let s = w.entities;
            if entity.is_placeholder() {
                crate::entity_laws::law_allocate_issues_each_slot_once(s, 1);
                let e = crate::entity::allocated(s, 1)[0];
                let a = crate::entity::after_allocate(s, 1);
                assert(is_current(a, e));
                crate::entity_laws::law_set_location_keeps_pool_sound(
                    a,
                    e,
                    crate::world::somewhere(),
                );
                assert forall|x: Entity| #[trigger] t.values.contains_key(x) <==> alive(
                    t.entities,
                    x,
                ) by {
                    assert(w.values.contains_key(x) <==> alive(w.entities, x));
                    if x != e && x.index == e.index {
                        assert(!is_current(a, x));
                        assert(!alive(s, x)) by {
                            if alive(s, x) {
                                assert(is_current(a, x));
                            }
                        }
                    }
                }
            } else {
                crate::entity_laws::law_set_location_keeps_pool_sound(
                    s,
                    entity,
                    crate::world::somewhere(),
                );
                assert forall|x: Entity| #[trigger] t.values.contains_key(x) <==> alive(
                    t.entities,
                    x,
                ) by {
                    assert(w.values.contains_key(x) <==> alive(w.entities, x));
                }
            }
        },
        CommandState::Insert { entity, part } => {
            lemma_after_register(w.registry, part.desc);
            let r = with_registry(w, after_register(w.registry, part.desc));
            let id = id_of(r.registry.infos, part.desc.key)->0;
            lemma_drops_values(
                r,
                entity,
                seq![PartState { id, value: part.value, tick: w.tick }],
                1,
            );
            assert forall|x: Entity| #[trigger] t.values.contains_key(x) <==> alive(
                t.entities,
                x,
            ) by {
                assert(w.values.contains_key(x) <==> alive(w.entities, x));
            }
        },
        CommandState::InsertRaw { entity, part } => {
            lemma_drops_values(w, entity, seq![part], 1);
            assert forall|x: Entity| #[trigger] t.values.contains_key(x) <==> alive(
                t.entities,
                x,
            ) by {
                assert(w.values.contains_key(x) <==> alive(w.entities, x));
            }
        },
        _ => {},
    }
}

/// What a run of commands leaves in order.
proof fn lemma_run_keeps(
    sizes: Map<u64, usize>,
    w: WorldState,
    cmds: Seq<CommandState>,
    run: Seq<CommandState>,
    i: int,
    n: nat,
)
    requires
        0 <= i <= i + n <= cmds.len(),
        n <= run.len(),
        forall|k: int| 0 <= k < n ==> #[trigger] run[k] == cmds[i + k],
        world_ok(w),
        infos_agree(sizes, w.registry.infos),
        commands_fit(sizes, w.registry.infos, run),
        forall|k: int|
            0 <= k < n ==> (#[trigger] run[k]) is Spawn || run[k] is Insert
                || run[k] is InsertRaw,
        w.registry.infos.len() + commands_cost(run, n) <= INVALID_ID,
        w.entities.high_water + n <= u32::MAX,
        spawns_ready(w.entities, cmds, i),
    ensures
        world_ok(after_commands(w, run, n)),
        infos_agree(sizes, after_commands(w, run, n).registry.infos),
        extends(w.registry, after_commands(w, run, n).registry),
        after_commands(w, run, n).registry.infos.len() <= w.registry.infos.len()
            + commands_cost(run, n),
        after_commands(w, run, n).entities.high_water <= w.entities.high_water + n,
        after_commands(w, run, n).tick == w.tick,
        spawns_ready(after_commands(w, run, n).entities, cmds, i + n),
    decreases n,
{
    if n > 0 {
        let n1 = (n - 1) as nat;
        lemma_run_keeps(sizes, w, cmds, run, i, n1);
        let m = after_commands(w, run, n1);
        let c = run[n - 1];
        assert(c == cmds[i + n - 1]);
        assert(command_fits(sizes, w.registry.infos, c));
        assert(command_fits(sizes, m.registry.infos, c));
        lemma_command_ok(sizes, m, c);
        lemma_command_keeps(sizes, m, c);
        let t = after_commands(w, run, n);
        assert forall|k: int|
            i + n <= k < cmds.len() && spawns_reserved(#[trigger] cmds[k]) implies ready(
            t.entities,
            cmds[k]->Spawn_entity,
        ) by {
            assert(ready(m.entities, cmds[k]->Spawn_entity));
        }
    }
}

impl Commands {
    /// Applies a run of spawns of the same types as a batch.
    fn apply_spawn_batch(&self, world: &mut World, group: Vec<Queued>)
        requires
            old(world).wf(),
            group@.len() > 0,
            queue_wf(group@, self.arena@.bytes),
            forall|i: int| 0 <= i < group@.len() ==> same_keys(group@[0], #[trigger] group@[i]),
            old(world).room(commands_cost(states(group@, self.arena@.bytes), group@.len())),
            spawns_ready(old(world)@.entities, states(group@, self.arena@.bytes), 0),
            exists|sizes: Map<u64, usize>|
                #![trigger infos_agree(sizes, old(world)@.registry.infos)]
                infos_agree(sizes, old(world)@.registry.infos) && commands_fit(
                    sizes,
                    old(world)@.registry.infos,
                    states(group@, self.arena@.bytes),
                ),
        ensures
            final(world).wf(),
            final(world)@ == after_commands(
                old(world)@,
                states(group@, self.arena@.bytes),
                group@.len(),
            ),
            final(world).layout() == tables_after(
                old(world).layout(),
                old(world)@,
                states(group@, self.arena@.bytes),
                group@.len(),
            ),
            forall|n: nat|
                old(world).room(
                    n + commands_cost(states(group@, self.arena@.bytes), group@.len()),
                ) ==> #[trigger] final(world).room(n),
    {
        let ghost bytes = self.arena@.bytes;
        let ghost first = group@;
        let ghost cmds = states(group@, bytes);
        let ghost w = world@;
        let ghost sizes = choose|sizes: Map<u64, usize>|
            #![trigger infos_agree(sizes, old(world)@.registry.infos)]
            infos_agree(sizes, old(world)@.registry.infos) && commands_fit(
                sizes,
                old(world)@.registry.infos,
                states(group@, self.arena@.bytes),
            );
        let mut rest: Vec<Queued> = reversed(group);
        let ghost back = rest@;
        let mut es: Vec<Entity> = Vec::new();
        let mut bundles: Vec<Bundle> = Vec::new();
        while rest.len() > 0
            invariant
                es@.len() == bundles@.len(),
                es@.len() + rest@.len() == first.len() == back.len() == cmds.len(),
                first.len() > 0,
                back == first.reverse(),
                bytes == self.arena@.bytes,
                cmds == states(first, bytes),
                rest@ == back.subrange(0, rest@.len() as int),
                queue_wf(first, bytes),
                forall|i: int| 0 <= i < first.len() ==> same_keys(first[0], #[trigger] first[i]),
                forall|i: int|
                    0 <= i < es@.len() ==> (#[trigger] cmds[i]) == (CommandState::Spawn {
                        entity: es@[i],
                        bundle: bundles@[i]@,
                    }),
            decreases rest.len(),
        {
            let ghost old_rest = rest@;
            let ghost n = es@.len() as int;
            if let Some(q) = rest.pop() {
                proof {
                    assert(q == back[old_rest.len() - 1]);
                    assert(q == first[n]);
                    assert(rest@ =~= back.subrange(0, rest@.len() as int));
                    assert(same_keys(first[0], first[n]));
                    assert(first[n].wf(bytes));
                    assert(cmds[n] == q.state(bytes));
                }
                match q {
                    Queued::Spawn { entity, parts } => {
                        let bundle: Bundle = self.load(parts);
                        es.push(entity);
                        bundles.push(bundle);
                    },
                    _ => {},
                }
            }
        }
        proof {
            let all = bundle_states(bundles@);
            assert forall|i: int| 0 <= i < bundles@.len() implies same_types(
                bundles@[0]@,
                (#[trigger] bundles@[i])@,
            ) && bundle_fits(sizes, bundles@[i]@) by {
                assert(cmds[i] == (CommandState::Spawn {
                    entity: es@[i],
                    bundle: bundles@[i]@,
                }));
                assert(cmds[0] == (CommandState::Spawn {
                    entity: es@[0],
                    bundle: bundles@[0]@,
                }));
                assert(same_keys(first[0], first[i]));
                assert(cmds[i] == first[i].state(bytes));
                assert(cmds[0] == first[0].state(bytes));
                assert(command_fits(sizes, w.registry.infos, cmds[i]));
                let a = bundles@[0]@;
                let b = bundles@[i]@;
                let p = first[0]->Spawn_parts@;
                let q = first[i]->Spawn_parts@;
                assert forall|k: int| 0 <= k < a.len() implies (#[trigger] a[k]).desc.key
                    == b[k].desc.key by {
                    assert(a[k] == p[k].state(bytes));
                    assert(b[k] == q[k].state(bytes));
                }
            }
            assert forall|i: int| 0 <= i < es@.len() implies (#[trigger] es@[i]).is_placeholder()
                || ready(w.entities, es@[i]) by {
                assert(cmds[i] == (CommandState::Spawn {
                    entity: es@[i],
                    bundle: bundles@[i]@,
                }));
                if !es@[i].is_placeholder() {
                    assert(spawns_reserved(cmds[i]));
                }
            }
            assert forall|i: int, j: int|
                0 <= i < j < es@.len() && !es@[i].is_placeholder()
                    && !es@[j].is_placeholder() implies (#[trigger] es@[i]).index != (
            #[trigger] es@[j]).index by {
                assert(spawns_reserved(cmds[i]) && spawns_reserved(cmds[j]));
            }
            lemma_batch_cost(cmds, bundles@[0]@, cmds.len());
            lemma_spawn_all(w, cmds, es@, all, cmds.len());
            lemma_tables_spawned(world.layout(), w, cmds, es@, all, cmds.len());
            let cost = bundle_cost(bundles@[0]@, bundles@[0]@.len());
            assert(cmds[0] == (CommandState::Spawn { entity: es@[0], bundle: bundles@[0]@ }));
            world.lemma_room(
                cost + bundles@.len(),
                commands_cost(cmds, cmds.len()),
            );
        }
        let ghost cost = bundle_cost(bundles@[0]@, bundles@[0]@.len());
        world.spawn_bundles_bulk(&es, &bundles);
        proof {
            let total = commands_cost(cmds, cmds.len());
            assert forall|n: nat| old(world).room(n + total) implies #[trigger] world.room(n) by {
                old(world).lemma_room(n + cost + bundles@.len(), n + total);
            }
        }
    }
}

proof fn lemma_batch_cost(cmds: Seq<CommandState>, bundle: Seq<BundleState>, n: nat)
    requires
        0 < n <= cmds.len(),
        cmds[0] matches CommandState::Spawn { bundle: b, .. } && b == bundle,
        forall|i: int| 0 <= i < cmds.len() ==> (#[trigger] cmds[i]) is Spawn,
    ensures
        bundle_cost(bundle, bundle.len()) + n <= commands_cost(cmds, n),
    decreases n,
{
    reveal_with_fuel(commands_cost, 2);
    if n > 1 {
        lemma_batch_cost(cmds, bundle, (n - 1) as nat);
        assert(cmds[n - 1] is Spawn);
    }
}

proof fn lemma_spawn_all(
    w: WorldState,
    cmds: Seq<CommandState>,
    es: Seq<Entity>,
    bundles: Seq<Seq<BundleState>>,
    n: nat,
)
    requires
        n <= cmds.len() == es.len() == bundles.len(),
        forall|i: int|
            0 <= i < cmds.len() ==> (#[trigger] cmds[i]) == (CommandState::Spawn {
                entity: es[i],
                bundle: bundles[i],
            }),
    ensures
        after_commands(w, cmds, n) == after_spawn_all(w, es, bundles, n),
    decreases n,
{
    if n > 0 {
        lemma_spawn_all(w, cmds, es, bundles, (n - 1) as nat);
        assert(cmds[n - 1] == (CommandState::Spawn {
            entity: es[n - 1],
            bundle: bundles[n - 1],
        }));
    }
}

/// A queue without commands for the caller is applied in one go where hooks are not heeded.
proof fn lemma_goes_through(w: WorldState, cmds: Seq<CommandState>)
    requires
        forall|k: int| 0 <= k < cmds.len() ==> !is_outside(#[trigger] cmds[k]),
    ensures
        stop_place(w, cmds, 0, false) == cmds.len(),
{
    lemma_goes_through_from(w, cmds, 0);
}

proof fn lemma_goes_through_from(w: WorldState, cmds: Seq<CommandState>, from: nat)
    requires
        from <= cmds.len(),
        forall|k: int| 0 <= k < cmds.len() ==> !is_outside(#[trigger] cmds[k]),
    ensures
        stop_place(w, cmds, from, false) == cmds.len(),
    decreases cmds.len() - from,
{
    if from < cmds.len() {
        assert(!is_outside(cmds[from as int]));
        lemma_run_end_grows(cmds, from, from + 1);
        lemma_goes_through_from(w, cmds, run_end(cmds, from, from + 1));
    }
}

/// The reserved ids of the spawns among commands, in order.
pub open spec fn reserved_of(cmds: Seq<CommandState>) -> Seq<Entity>
    decreases cmds.len(),
{
    if cmds.len() == 0 {
        Seq::empty()
    } else if spawns_reserved(cmds.last()) {
        reserved_of(cmds.drop_last()).push(cmds.last()->Spawn_entity)
    } else {
        reserved_of(cmds.drop_last())
    }
}

/// Whether a command spawns the reserved entity `e`.
spec fn is_reserved_in(cmds: Seq<CommandState>, e: Entity) -> bool {
    exists|k: int|
        0 <= k < cmds.len() && spawns_reserved(#[trigger] cmds[k]) && cmds[k]->Spawn_entity == e
}

proof fn lemma_reserved_of(cmds: Seq<CommandState>, s: AllocState)
    requires
        spawns_wait(s, cmds, 0),
    ensures
        all_wait(s, reserved_of(cmds)),
        forall|i: int|
            0 <= i < reserved_of(cmds).len() ==> is_reserved_in(
                cmds,
                #[trigger] reserved_of(cmds)[i],
            ),
    decreases cmds.len(),
{
    if cmds.len() > 0 {
        let head = cmds.drop_last();
        assert(spawns_wait(s, head, 0)) by {
            assert forall|i: int|
                0 <= i < head.len() && spawns_reserved(#[trigger] head[i]) implies awaits(
                s,
                head[i]->Spawn_entity,
            ) by {
                assert(cmds[i] == head[i]);
            }
            assert forall|i: int, j: int|
                0 <= i < j < head.len() && spawns_reserved(#[trigger] head[i]) && spawns_reserved(
                    #[trigger] head[j],
                ) implies head[i]->Spawn_entity.index != head[j]->Spawn_entity.index by {
                assert(cmds[i] == head[i] && cmds[j] == head[j]);
            }
        }
        lemma_reserved_of(head, s);
        let r = reserved_of(cmds);
        let h = reserved_of(head);
        assert forall|i: int| 0 <= i < r.len() implies is_reserved_in(cmds, #[trigger] r[i]) by {
            if i < h.len() {
                assert(r[i] == h[i]);
                assert(is_reserved_in(head, h[i]));
                let k = choose|k: int|
                    0 <= k < head.len() && spawns_reserved(#[trigger] head[k])
                        && head[k]->Spawn_entity == h[i];
                assert(cmds[k] == head[k]);
            } else {
                assert(cmds[cmds.len() - 1] == cmds.last());
            }
        }
        if spawns_reserved(cmds.last()) {
            let e = cmds.last()->Spawn_entity;
            assert(spawns_reserved(cmds[cmds.len() - 1]));
            assert forall|i: int, j: int|
                0 <= i < j < r.len() && !r[i].is_placeholder() && !r[j].is_placeholder() implies (
            #[trigger] r[i]).index != (#[trigger] r[j]).index by {
                if j == h.len() {
                    assert(r[i] == h[i]);
                    assert(is_reserved_in(head, h[i]));
                    let k = choose|k: int|
                        0 <= k < head.len() && spawns_reserved(#[trigger] head[k])
                            && head[k]->Spawn_entity == h[i];
                    assert(cmds[k] == head[k]);
                    assert(cmds[k]->Spawn_entity.index != cmds[cmds.len()
                        - 1]->Spawn_entity.index);
                } else {
                    assert(r[i] == h[i] && r[j] == h[j]);
                }
            }
        }
    }
}

impl Commands {
    /// Applies the run of commands at the front of the rest of the queue. A run is one command
    /// where hooks are heeded and someone wants to know when components appear.
    #[verifier::spinoff_prover]
    #[verifier::rlimit(60)]
    fn apply_run(&self, rest: &mut Vec<Queued>, world: &mut World) -> (n: usize)
        requires
            old(world).wf(),
            old(rest)@.len() > 0,
            queue_wf(old(rest)@, self.arena@.bytes),
            !is_outside(pending(old(rest)@, self.arena@.bytes)[0]),
            old(world).room(
                commands_cost(pending(old(rest)@, self.arena@.bytes), old(rest)@.len()),
            ),
            spawns_ready(old(world)@.entities, pending(old(rest)@, self.arena@.bytes), 0),
            exists|sizes: Map<u64, usize>|
                #![trigger infos_agree(sizes, old(world)@.registry.infos)]
                infos_agree(sizes, old(world)@.registry.infos) && commands_fit(
                    sizes,
                    old(world)@.registry.infos,
                    pending(old(rest)@, self.arena@.bytes),
                ),
        ensures
            final(world).wf(),
            1 <= n <= old(rest)@.len(),
            final(rest)@ == old(rest)@.subrange(0, old(rest)@.len() - n),
            ({
                let p = pending(old(rest)@, self.arena@.bytes);
                &&& final(world)@ == after_commands(old(world)@, p, n as nat)
                &&& spawns_ready(final(world)@.entities, p, n as int)
                &&& extends(old(world)@.registry, final(world)@.registry)
                &&& n == run_end(p, 0, 1)
                &&& laid_out(
                    old(world).layout(),
                    final(world).layout(),
                    old(world)@,
                    p,
                    n as nat,
                )
                &&& forall|m: nat|
                    old(world).room(m + commands_cost(p, n as nat)) ==> #[trigger] final(world).room(
                        m,
                    )
                &&& forall|sizes: Map<u64, usize>|
                    infos_agree(sizes, old(world)@.registry.infos) && commands_fit(
                        sizes,
                        old(world)@.registry.infos,
                        p,
                    ) ==> #[trigger] infos_agree(sizes, final(world)@.registry.infos)
            }),
    {
        let ghost bytes = self.arena@.bytes;
        let ghost p = pending(rest@, bytes);
        let ghost w = world@;
        let ghost all = rest@;
        let ghost total = rest@.len();
        let ghost sizes = choose|sizes: Map<u64, usize>|
            #![trigger infos_agree(sizes, old(world)@.registry.infos)]
            infos_agree(sizes, old(world)@.registry.infos) && commands_fit(
                sizes,
                old(world)@.registry.infos,
                pending(old(rest)@, self.arena@.bytes),
            );
        proof {
            world.lemma_wf();
            assert forall|k: int| 0 <= k < total implies #[trigger] p[k] == all[total - 1
                - k].state(bytes) by {
            }
        }
        let (inserts, target): (usize, Option<Entity>) = insert_run(rest);
        let mut n: usize = inserts;
        if n == 1 {
            n = spawn_run(rest);
        }
        proof {
            if target is Some {
                lemma_insert_run(all, bytes, inserts as nat, target->0);
                assert(n == inserts);
            } else {
                lemma_spawn_run(all, bytes, n as nat);
            }
        }
        let at: usize = rest.len() - n;
        let tail: Vec<Queued> = rest.split_off(at);
        let mut group: Vec<Queued> = reversed(tail);
        let ghost run = states(group@, bytes);
        proof {
            assert forall|k: int| 0 <= k < group@.len() implies #[trigger] group@[k] == all[total
                - 1 - k] by {
                assert(group@[k] == tail@[n - 1 - k]);
            }
            assert forall|k: int| 0 <= k < group@.len() implies (#[trigger] group@[k]).wf(bytes) by {
                assert(group@[k] == all[total - 1 - k]);
            }
            assert forall|k: int| 0 <= k < run.len() implies #[trigger] run[k] == p[0 + k] by {
                assert(group@[k] == all[total - 1 - k]);
            }
            lemma_commands_prefix(w, run, p, n as nat);
            assert forall|sizes: Map<u64, usize>| #[trigger]
                commands_fit(sizes, w.registry.infos, p) implies commands_fit(
                sizes,
                w.registry.infos,
                run,
            ) by {
                assert forall|k: int| 0 <= k < run.len() implies command_fits(
                    sizes,
                    w.registry.infos,
                    #[trigger] run[k],
                ) by {
                    assert(command_fits(sizes, w.registry.infos, p[0 + k]));
                }
            }
            lemma_commands_cost(p, n as nat, total);
            world.lemma_room(commands_cost(run, n as nat), commands_cost(p, total));
            world.lemma_room_infos(commands_cost(run, n as nat));
            lemma_run_cost(run, n as nat);
            assert(rest@ =~= all.subrange(0, all.len() - n));
        }
        if n == 1 {
            if let Some(q) = group.pop() {
                proof {
                    assert(q == all[total - 1]);
                    reveal_with_fuel(commands_cost, 2);
                    reveal_with_fuel(after_commands, 2);
                    assert(run[0] == q.state(bytes));
                    assert(run[0] == p[0]);
                    assert(command_fits(sizes, w.registry.infos, run[0]));
                    lemma_command_keeps(sizes, w, run[0]);
                }
                self.apply_one(q, world);
                proof {
                    lemma_laid_out_one(old(world).layout(), world.layout(), w, p);
                    assert forall|k: int|
                        1 <= k < p.len() && spawns_reserved(#[trigger] p[k]) implies ready(
                        world@.entities,
                        p[k]->Spawn_entity,
                    ) by {
                        assert(ready(w.entities, p[k]->Spawn_entity));
                        if spawns_reserved(p[0]) {
                            assert(p[0]->Spawn_entity.index != p[k]->Spawn_entity.index);
                        }
                    }
                    assert forall|sizes: Map<u64, usize>|
                        infos_agree(sizes, w.registry.infos) && commands_fit(
                            sizes,
                            w.registry.infos,
                            p,
                        ) implies #[trigger] infos_agree(sizes, world@.registry.infos) by {
                        assert(command_fits(sizes, w.registry.infos, p[0]));
                        lemma_command_keeps(sizes, w, p[0]);
                    }
                }
            }
        } else {
            proof {
                assert forall|k: int| 0 <= k < run.len() implies (#[trigger] run[k]) is Spawn
                    || run[k] is Insert || run[k] is InsertRaw by {
                    assert(run[k] == group@[k].state(bytes));
                    assert(group@[k] == all[total - 1 - k]);
                    if inserts <= 1 {
                        assert(same_keys(all.last(), all[total - 1 - k]));
                    }
                }
                lemma_run_keeps(sizes, w, p, run, 0, n as nat);
                assert forall|k: int| 0 <= k < n implies (#[trigger] p[k]) is Spawn || p[k] is Insert
                    || p[k] is InsertRaw by {
                    assert(run[k] == p[0 + k]);
                }
            }
            if inserts > 1 {
                if let Some(e) = target {
                    proof {
                        assert forall|k: int| 0 <= k < group@.len() implies match (
                        #[trigger] group@[k]).state(bytes) {
                            CommandState::Insert { entity: x, .. } => x == e,
                            CommandState::InsertRaw { entity: x, .. } => x == e,
                            _ => false,
                        } by {
                            assert(group@[k] == all[total - 1 - k]);
                        }
                    }
                    self.apply_insert_group(world, e, &group);
                    proof {
                        lemma_laid_out_group(
                            old(world).layout(),
                            world.layout(),
                            w,
                            p,
                            n as nat,
                        );
                    }
                }
            } else {
                proof {
                    assert forall|k: int| 0 <= k < group@.len() implies same_keys(
                        group@[0],
                        #[trigger] group@[k],
                    ) by {
                        assert(group@[k] == all[total - 1 - k]);
                        assert(group@[0] == all.last());
                    }
                    assert(spawns_ready(w.entities, run, 0)) by {
                        assert forall|k: int|
                            0 <= k < run.len() && spawns_reserved(#[trigger] run[k]) implies ready(
                            w.entities,
                            run[k]->Spawn_entity,
                        ) by {
                            assert(run[k] == p[0 + k]);
                        }
                        assert forall|a: int, b: int|
                            0 <= a < b < run.len() && spawns_reserved(
                                #[trigger] run[a],
                            ) && spawns_reserved(
                                #[trigger] run[b],
                            ) implies run[a]->Spawn_entity.index != run[b]->Spawn_entity.index by {
                            assert(run[a] == p[0 + a] && run[b] == p[0 + b]);
                        }
                    }
                }
                let ghost first = group@;
                self.apply_spawn_batch(world, group);
                proof {
                    assert forall|k: int| 0 <= k < n implies (#[trigger] p[k]) is Spawn by {
                        assert(run[k] == p[0 + k]);
                        assert(run[k] == first[k].state(bytes));
                        assert(same_keys(first[0], first[k]));
                    }
                    lemma_laid_out_spawns(
                        old(world).layout(),
                        world.layout(),
                        w,
                        run,
                        p,
                        n as nat,
                    );
                }
            }
            proof {
                assert forall|sizes: Map<u64, usize>|
                    infos_agree(sizes, w.registry.infos) && commands_fit(
                        sizes,
                        w.registry.infos,
                        p,
                    ) implies #[trigger] infos_agree(sizes, world@.registry.infos) by {
                    lemma_run_keeps(sizes, w, p, run, 0, n as nat);
                }
            }
        }
        n
    }

    /// Hands out the command at the front of the rest of the queue; the others are the new queue.
    fn hand_out(&mut self, rest: Vec<Queued>, world: &World) -> (next: Option<Deferred>)
        requires
            world.wf(),
            old(self).queue@.len() == 0,
            old(self).wf(),
            rest@.len() > 0,
            queue_wf(rest@, old(self).arena@.bytes),
            ({
                let c = pending(rest@, old(self).arena@.bytes)[0];
                is_outside(c) || c is ClearChildren
            }),
        ensures
            final(self).wf(),
            final(self).arena == old(self).arena,
            final(self).reserver == old(self).reserver,
            ({
                let p = pending(rest@, old(self).arena@.bytes);
                &&& final(self)@ == p.subrange(1, p.len() as int)
                &&& next is Some
                &&& is_handed_out(world@, p[0], next->0)
            }),
            final(self).half_applied(),
    {
        let ghost bytes = self.arena@.bytes;
        let ghost all = rest@;
        let ghost p = pending(all, bytes);
        let mut rest: Vec<Queued> = rest;
        let popped: Option<Queued> = rest.pop();
        proof {
            assert(p[0] == all.last().state(bytes));
            assert(rest@ =~= all.subrange(0, all.len() - 1));
            lemma_pending(all, rest@, bytes, 1);
            assert forall|k: int| 0 <= k < rest@.len() implies (
            #[trigger] rest@.reverse()[k]).wf(bytes) by {
                assert(rest@.reverse()[k] == rest@[rest@.len() - 1 - k]);
            }
        }
        self.queue = reversed(rest);
        self.half_applied = true;
        match popped {
            Some(Queued::Template { name, params }) => Some(Deferred::Template { name, params }),
            Some(Queued::Apply { handle }) => Some(Deferred::Apply(handle)),
            Some(Queued::ClearChildren { parent }) => Some(
                Deferred::Orphans { parent, children: world.targets_of(ChildOf, parent) },
            ),
            _ => None,
        }
    }

    /// Keeps the rest of the queue while the hooks that are due are run.
    fn wait_for_hooks(&mut self, rest: Vec<Queued>) -> (next: Option<Deferred>)
        requires
            old(self).wf(),
            queue_wf(rest@, old(self).arena@.bytes),
        ensures
            final(self).wf(),
            final(self).arena == old(self).arena,
            final(self).reserver == old(self).reserver,
            final(self)@ == pending(rest@, old(self).arena@.bytes),
            final(self).half_applied(),
            next == Some(Deferred::Hooks),
    {
        let ghost bytes = self.arena@.bytes;
        proof {
            assert forall|k: int| 0 <= k < rest@.len() implies (
            #[trigger] rest@.reverse()[k]).wf(bytes) by {
                assert(rest@.reverse()[k] == rest@[rest@.len() - 1 - k]);
            }
        }
        self.queue = reversed(rest);
        self.half_applied = true;
        Some(Deferred::Hooks)
    }

    /// Applies the commands in order. Where a command is for the caller to carry out, and where
    /// hooks are due, applying stops and hands that out; the commands behind stay in the queue, and
    /// applying again goes on with them.
    pub fn apply(&mut self, world: &mut World) -> (next: Option<Deferred>)
        requires
            old(self).wf(),
            old(world).wf(),
            old(world).room(commands_cost(old(self)@, old(self)@.len())),
            if old(self).half_applied() {
                spawns_ready(old(world)@.entities, old(self)@, 0)
            } else {
                spawns_wait(old(world)@.entities, old(self)@, 0)
            },
            exists|sizes: Map<u64, usize>|
                #![trigger infos_agree(sizes, old(world)@.registry.infos)]
                infos_agree(sizes, old(world)@.registry.infos) && commands_fit(
                    sizes,
                    old(world)@.registry.infos,
                    old(self)@,
                ),
        ensures
            final(self).wf(),
            final(world).wf(),
            final(self).bound() == old(self).bound(),
            final(self).half_applied() == next is Some,
            final(self).arena_state() == if next is Some {
                old(self).arena_state()
            } else {
                ArenaState { bytes: Seq::<u8>::empty(), ..old(self).arena_state() }
            },
            spawns_ready(final(world)@.entities, final(self)@, 0),
            ({
                let cmds = old(self)@;
                let w = started(old(world)@, old(self).half_applied());
                let k = stop_place(w, cmds, 0, true);
                &&& final(world)@ == after_commands(w, cmds, k)
                &&& is_outcome(final(world)@, cmds, k, true, next, final(self)@)
                &&& final(world).layout() == tables_between(
                    old(world).layout(),
                    w,
                    cmds,
                    0,
                    k,
                )
                &&& forall|n: nat|
                    old(world).room(n + commands_cost(cmds, k)) ==> #[trigger] final(world).room(n)
            }),
    {
        let ghost sizes = choose|sizes: Map<u64, usize>|
            #![trigger infos_agree(sizes, old(world)@.registry.infos)]
            infos_agree(sizes, old(world)@.registry.infos) && commands_fit(
                sizes,
                old(world)@.registry.infos,
                old(self)@,
            );
        self.start(world);
        assert(infos_agree(sizes, world@.registry.infos));
        let ghost before = *world;
        let next: Option<Deferred> = self.run(world, true);
        proof {
            lemma_tables_done(
                before.layout(),
                world.layout(),
                before@,
                old(self)@,
                stop_place(before@, old(self)@, 0, true),
            );
        }
        next
    }

    /// Reconciles reservations, unless the queue is half applied.
    fn start(&self, world: &mut World)
        requires
            old(world).wf(),
            if self.half_applied() {
                spawns_ready(old(world)@.entities, self@, 0)
            } else {
                spawns_wait(old(world)@.entities, self@, 0)
            },
        ensures
            final(world).wf(),
            final(world)@ == started(old(world)@, self.half_applied()),
            final(world).layout() == old(world).layout(),
            spawns_ready(final(world)@.entities, self@, 0),
            forall|n: nat| old(world).room(n) ==> #[trigger] final(world).room(n),
    {
        if self.half_applied {
            return;
        }
        let ghost cmds = self@;
        proof {
            world.lemma_wf();
            assert forall|i: int|
                0 <= i < cmds.len() && spawns_reserved(#[trigger] cmds[i]) implies ready(
                after_flush(world@.entities),
                cmds[i]->Spawn_entity,
            ) by {
                law_flush_keeps_waiting(world@.entities, cmds[i]->Spawn_entity);
            }
        }
        world.flush_reserved();
    }

    /// Applies the commands in order, as far as they go. Hooks that get due are heeded, or left for
    /// later.
    #[verifier::spinoff_prover]
    #[verifier::rlimit(60)]
    fn run(&mut self, world: &mut World, heed: bool) -> (next: Option<Deferred>)
        requires
            old(self).wf(),
            old(world).wf(),
            old(world).room(commands_cost(old(self)@, old(self)@.len())),
            spawns_ready(old(world)@.entities, old(self)@, 0),
            exists|sizes: Map<u64, usize>|
                #![trigger infos_agree(sizes, old(world)@.registry.infos)]
                infos_agree(sizes, old(world)@.registry.infos) && commands_fit(
                    sizes,
                    old(world)@.registry.infos,
                    old(self)@,
                ),
        ensures
            final(self).wf(),
            final(world).wf(),
            final(self).bound() == old(self).bound(),
            final(self).half_applied() == next is Some,
            final(self).arena_state() == if next is Some {
                old(self).arena_state()
            } else {
                ArenaState { bytes: Seq::<u8>::empty(), ..old(self).arena_state() }
            },
            spawns_ready(final(world)@.entities, final(self)@, 0),
            ({
                let cmds = old(self)@;
                let w = old(world)@;
                let k = stop_place(w, cmds, 0, heed);
                &&& final(world)@ == after_commands(w, cmds, k)
                &&& is_outcome(final(world)@, cmds, k, heed, next, final(self)@)
                &&& leads_to(old(world).layout(), final(world).layout(), w, cmds, k, k)
                &&& forall|n: nat|
                    old(world).room(n + commands_cost(cmds, k)) ==> #[trigger] final(world).room(n)
            }),
    {
        let ghost cmds = self@;
        let ghost bytes = self.arena@.bytes;
        let ghost first = self.queue@;
        let ghost total = cmds.len();
        let ghost sizes = choose|sizes: Map<u64, usize>|
            #![trigger infos_agree(sizes, old(world)@.registry.infos)]
            infos_agree(sizes, old(world)@.registry.infos) && commands_fit(
                sizes,
                old(world)@.registry.infos,
                old(self)@,
            );
        let ghost w = world@;
        let mut queue: Vec<Queued> = Vec::new();
        queue.append(&mut self.queue);
        assert(queue@ =~= first);
        let mut rest: Vec<Queued> = reversed(queue);
        let ghost mut i: int = 0;
        let ghost stop = stop_place(w, cmds, 0, heed);
        proof {
            reveal(is_next_stop);
            lemma_leads_nowhere(world.layout(), w, cmds, stop);
            assert(cmds.subrange(0, total as int) =~= cmds);
            assert(pending(rest@, bytes) =~= cmds) by {
                assert(rest@.reverse() =~= first);
            }
            assert forall|k: int| 0 <= k < rest@.len() implies (#[trigger] rest@[k]).wf(bytes) by {
                assert(rest@[k] == first[first.len() - 1 - k]);
            }
        }
        while rest.len() > 0
            invariant
                0 <= i,
                i + rest@.len() == total == cmds.len(),
                self.queue@.len() == 0,
                self.arena == old(self).arena,
                self.reserver == old(self).reserver,
                old(self).wf(),
                bytes == self.arena@.bytes,
                cmds == old(self)@,
                queue_wf(rest@, bytes),
                pending(rest@, bytes) == cmds.subrange(i, total as int),
                world.wf(),
                w == old(world)@,
                world@ == after_commands(w, cmds, i as nat),
                infos_agree(sizes, world@.registry.infos),
                extends(w.registry, world@.registry),
                commands_fit(sizes, w.registry.infos, cmds),
                spawns_ready(world@.entities, cmds, i),
                stop == stop_place(w, cmds, 0, heed),
                is_next_stop(w, cmds, i as nat, heed, stop),
                leads_to(old(world).layout(), world.layout(), w, cmds, i as nat, stop),
                old(world).room(commands_cost(cmds, total)),
                forall|n: nat|
                    old(world).room(n + commands_cost(cmds, i as nat)) ==> #[trigger] world.room(n),
            decreases rest.len(),
        {
            let ghost before = *world;
            let ghost p = pending(rest@, bytes);
            let ghost old_rest = rest@;
            let last: usize = rest.len() - 1;
            proof {
                assert(p[0] == cmds[i]);
                assert(p[0] == rest@[last as int].state(bytes));
                lemma_rest(w, world@, sizes, cmds, p, i);
                lemma_stop_here(w, cmds, i as nat, heed, stop);
            }
            if heed && world.hooks_due() {
                return self.wait_for_hooks(rest);
            }
            let outside: bool = match &rest[last] {
                Queued::Template { .. } => true,
                Queued::Apply { .. } => true,
                Queued::ClearChildren { .. } => heed && orphans_are_hooked(world),
                _ => false,
            };
            if outside {
                proof {
                    assert(stops(w, cmds, i as nat, heed));
                    assert(p.subrange(1, p.len() as int) =~= cmds.subrange(i + 1, total as int));
                    lemma_ready_next(world@.entities, cmds, i, i + 1);
                }
                return self.hand_out(rest, world);
            }
            proof {
                lemma_commands_split(w, cmds, i, p.len());
                let m = commands_cost(p, p.len());
                assert(old(world).room(m + commands_cost(cmds, i as nat)));
                assert(world.room(m));
                assert(after_commands(world@, p, 0) == world@);
                assert(!stops(w, cmds, i as nat, heed));
                assert(!is_outside(p[0]));
            }
            let n: usize = self.apply_run(&mut rest, world);
            proof {
                lemma_pending(old_rest, rest@, bytes, n as int);
                lemma_after_run(w, before@, world@, cmds, p, i, n as nat);
                let j = i + n;
                lemma_stop_ahead(w, cmds, p, i as nat, n as nat, heed, stop);
                lemma_leads_on(
                    old(world).layout(),
                    before.layout(),
                    world.layout(),
                    w,
                    cmds,
                    p,
                    i as nat,
                    n as nat,
                    stop,
                );
                assert(p.subrange(n as int, p.len() as int) =~= cmds.subrange(j, total as int));
                assert forall|m: nat|
                    old(world).room(m + commands_cost(cmds, j as nat)) implies #[trigger] world.room(
                    m,
                ) by {
                    assert(old(world).room(
                        (m + commands_cost(p, n as nat)) + commands_cost(cmds, i as nat),
                    ));
                    assert(before.room(m + commands_cost(p, n as nat)));
                }
                i = j;
            }
        }
        proof {
            lemma_stop_here(w, cmds, total, heed, stop);
            assert(cmds.subrange(total as int, total as int) =~= Seq::<CommandState>::empty());
            assert(pending(rest@, bytes) =~= Seq::<CommandState>::empty());
        }
        if heed && world.hooks_due() {
            return self.wait_for_hooks(rest);
        }
        self.arena.reset();
        self.half_applied = false;
        assert(self@ =~= Seq::<CommandState>::empty());
        None
    }
}

/// Whether a hook runs when a child is taken from its parent.
fn orphans_are_hooked(world: &World) -> (b: bool)
    requires
        world.wf(),
    ensures
        b == orphans_have_hook(world@),
{
    match world.relation_graph().relation_kind_idx::<ChildOf>() {
        Some(k) => world.relation_graph().on_remove_hook(k).is_some(),
        None => false,
    }
}

/// Spawns that are ready further on are ready in the rest of the queue.
proof fn lemma_ready_next(s: AllocState, cmds: Seq<CommandState>, i: int, j: int)
    requires
        0 <= i <= j <= cmds.len(),
        spawns_ready(s, cmds, i),
    ensures
        spawns_ready(s, cmds.subrange(j, cmds.len() as int), 0),
{
    let p = cmds.subrange(j, cmds.len() as int);
    assert forall|k: int| 0 <= k < p.len() && spawns_reserved(#[trigger] p[k]) implies ready(
        s,
        p[k]->Spawn_entity,
    ) by {
        assert(p[k] == cmds[j + k]);
    }
    assert forall|a: int, b: int|
        0 <= a < b < p.len() && spawns_reserved(#[trigger] p[a]) && spawns_reserved(
            #[trigger] p[b],
        ) implies p[a]->Spawn_entity.index != p[b]->Spawn_entity.index by {
        assert(p[a] == cmds[j + a] && p[b] == cmds[j + b]);
    }
}

proof fn lemma_pending(before: Seq<Queued>, rest: Seq<Queued>, bytes: Seq<u8>, n: int)
    requires
        0 <= n <= before.len(),
        rest == before.subrange(0, before.len() - n),
        queue_wf(before, bytes),
    ensures
        queue_wf(rest, bytes),
        pending(rest, bytes) == pending(before, bytes).subrange(n, before.len() as int),
{
    assert forall|k: int| 0 <= k < rest.len() implies (#[trigger] rest[k]).wf(bytes) by {
        assert(rest[k] == before[k]);
    }
    assert(pending(rest, bytes) =~= pending(before, bytes).subrange(n, before.len() as int)) by {
        assert forall|k: int| 0 <= k < rest.len() implies pending(rest, bytes)[k] == pending(
            before,
            bytes,
        )[n + k] by {
            assert(rest[rest.len() - 1 - k] == before[before.len() - 1 - (n + k)]);
        }
    }
}

/// Whether `stop` is the place where applying stops, from `i` on.
#[verifier::opaque]
spec fn is_next_stop(
    w: WorldState,
    cmds: Seq<CommandState>,
    i: nat,
    heed: bool,
    stop: nat,
) -> bool {
    stop == stop_place(w, cmds, i, heed)
}

/// Where applying stops at `i`, or the queue ends there, that is the place.
proof fn lemma_stop_here(w: WorldState, cmds: Seq<CommandState>, i: nat, heed: bool, stop: nat)
    requires
        is_next_stop(w, cmds, i, heed, stop),
        i <= cmds.len(),
    ensures
        i < cmds.len() && stops(w, cmds, i, heed) ==> stop == i,
        i == cmds.len() ==> stop == i,
{
    reveal(is_next_stop);
}

/// Where applying does not stop at `i`, the place is not before the end of the run there.
proof fn lemma_stop_ahead(
    w: WorldState,
    cmds: Seq<CommandState>,
    p: Seq<CommandState>,
    i: nat,
    n: nat,
    heed: bool,
    stop: nat,
)
    requires
        is_next_stop(w, cmds, i, heed, stop),
        i < cmds.len(),
        i + n <= cmds.len(),
        p == cmds.subrange(i as int, cmds.len() as int),
        n == run_end(p, 0, 1),
        !stops(w, cmds, i, heed),
    ensures
        is_next_stop(w, cmds, i + n, heed, stop),
        i + n <= stop <= cmds.len(),
{
    reveal(is_next_stop);
    lemma_run_end_behind(cmds, p, i, 0, 1);
    law_applying_stops_at_the_first_place(w, cmds, i + n, heed);
}

proof fn lemma_after_run(
    w: WorldState,
    before: WorldState,
    now: WorldState,
    cmds: Seq<CommandState>,
    p: Seq<CommandState>,
    i: int,
    n: nat,
)
    requires
        0 <= i <= i + n <= cmds.len(),
        p == cmds.subrange(i, cmds.len() as int),
        before == after_commands(w, cmds, i as nat),
        now == after_commands(before, p, n),
        spawns_ready(now.entities, p, n as int),
    ensures
        now == after_commands(w, cmds, (i + n) as nat),
        commands_cost(cmds, (i + n) as nat) == commands_cost(cmds, i as nat) + commands_cost(p, n),
        spawns_ready(now.entities, cmds, i + n),
{
    lemma_run_split(w, cmds, p, i, n);
    lemma_ready_behind(now.entities, cmds, p, i, n as int);
}

/// What a run at the front of the rest of a queue does and costs.
proof fn lemma_run_split(
    w: WorldState,
    cmds: Seq<CommandState>,
    p: Seq<CommandState>,
    i: int,
    n: nat,
)
    requires
        0 <= i <= i + n <= cmds.len(),
        p == cmds.subrange(i, cmds.len() as int),
    ensures
        after_commands(after_commands(w, cmds, i as nat), p, n) == after_commands(
            w,
            cmds,
            (i + n) as nat,
        ),
        commands_cost(cmds, (i + n) as nat) == commands_cost(cmds, i as nat) + commands_cost(p, n),
{
    let run = cmds.subrange(i, i + n);
    assert forall|k: int| 0 <= k < run.len() implies #[trigger] p[k] == run[k] by {}
    lemma_commands_split(w, cmds, i, n);
    lemma_commands_prefix(after_commands(w, cmds, i as nat), run, p, n);
}

/// Spawns that are ready in the rest of a queue are ready in the queue.
proof fn lemma_ready_behind(
    s: AllocState,
    cmds: Seq<CommandState>,
    p: Seq<CommandState>,
    i: int,
    n: int,
)
    requires
        0 <= i <= i + n <= cmds.len(),
        0 <= n,
        p == cmds.subrange(i, cmds.len() as int),
        spawns_ready(s, p, n),
    ensures
        spawns_ready(s, cmds, i + n),
{
    assert forall|k: int|
        i + n <= k < cmds.len() && spawns_reserved(#[trigger] cmds[k]) implies ready(
        s,
        cmds[k]->Spawn_entity,
    ) by {
        assert(p[k - i] == cmds[k]);
    }
    assert forall|a: int, b: int|
        i + n <= a < b < cmds.len() && spawns_reserved(#[trigger] cmds[a]) && spawns_reserved(
            #[trigger] cmds[b],
        ) implies cmds[a]->Spawn_entity.index != cmds[b]->Spawn_entity.index by {
        assert(p[a - i] == cmds[a] && p[b - i] == cmds[b]);
    }
}

/// The commands of the rest of a queue, which is kept in reverse.
spec fn pending(rest: Seq<Queued>, bytes: Seq<u8>) -> Seq<CommandState> {
    states(rest.reverse(), bytes)
}

proof fn lemma_rest(
    w: WorldState,
    now: WorldState,
    sizes: Map<u64, usize>,
    cmds: Seq<CommandState>,
    p: Seq<CommandState>,
    i: int,
)
    requires
        0 <= i <= cmds.len(),
        p == cmds.subrange(i, cmds.len() as int),
        extends(w.registry, now.registry),
        commands_fit(sizes, w.registry.infos, cmds),
        spawns_ready(now.entities, cmds, i),
    ensures
        commands_fit(sizes, now.registry.infos, p),
        spawns_ready(now.entities, p, 0),
{
    assert forall|k: int| 0 <= k < p.len() implies command_fits(
        sizes,
        now.registry.infos,
        #[trigger] p[k],
    ) by {
        assert(command_fits(sizes, w.registry.infos, cmds[i + k]));
    }
    assert forall|k: int| 0 <= k < p.len() && spawns_reserved(#[trigger] p[k]) implies ready(
        now.entities,
        p[k]->Spawn_entity,
    ) by {
        assert(p[k] == cmds[i + k]);
    }
    assert forall|a: int, b: int|
        0 <= a < b < p.len() && spawns_reserved(#[trigger] p[a]) && spawns_reserved(
            #[trigger] p[b],
        ) implies p[a]->Spawn_entity.index != p[b]->Spawn_entity.index by {
        assert(p[a] == cmds[i + a] && p[b] == cmds[i + b]);
    }
}

proof fn lemma_run_cost(run: Seq<CommandState>, n: nat)
    requires
        n <= run.len(),
    ensures
        n <= commands_cost(run, n),
    decreases n,
{
    if n > 0 {
        lemma_run_cost(run, (n - 1) as nat);
    }
}

impl Commands {
    /// The reserved ids of the spawns in the queue, in order.
    fn queued_reservations(&self) -> (es: Vec<Entity>)
        ensures
            es@ == reserved_of(self@),
    {
        let ghost cmds = self@;
        let mut es: Vec<Entity> = Vec::new();
        let mut i: usize = 0;
        assert(cmds.subrange(0, 0) =~= Seq::<CommandState>::empty());
        while i < self.queue.len()
            invariant
                i <= self.queue@.len() == cmds.len(),
                cmds == self@,
                es@ == reserved_of(cmds.subrange(0, i as int)),
            decreases self.queue.len() - i,
        {
            let ghost part = cmds.subrange(0, i + 1);
            proof {
                assert(part.drop_last() =~= cmds.subrange(0, i as int));
                assert(part.last() == self.queue@[i as int].state(self.arena@.bytes));
            }
            match &self.queue[i] {
                Queued::Spawn { entity, .. } => {
                    if !(entity.index == u32::MAX && entity.generation == u32::MAX) {
                        es.push(*entity);
                    }
                },
                _ => {},
            }
            i = i + 1;
        }
        assert(cmds.subrange(0, cmds.len() as int) =~= cmds);
        es
    }

    /// Gives the reserved ids of queued spawns back: they return to the pool at the next flush.
    /// Without a reserver there are none.
    fn abandon_queued_reservations(&self, world: &mut World)
        requires
            self.wf(),
            old(world).wf(),
            spawns_wait(old(world)@.entities, self@, 0),
        ensures
            final(world).wf(),
            final(world)@ == (WorldState {
                entities: if self.bound() is Some {
                    AllocState {
                        abandoned: old(world)@.entities.abandoned + real_indices(
                            reserved_of(self@),
                        ),
                        ..old(world)@.entities
                    }
                } else {
                    old(world)@.entities
                },
                ..old(world)@
            }),
            final(world).store().archetypes == old(world).store().archetypes,
            forall|n: nat| old(world).room(n) ==> #[trigger] final(world).room(n),
    {
        if let Some(r) = &self.reserver {
            let es: Vec<Entity> = self.queued_reservations();
            proof {
                lemma_reserved_of(self@, world@.entities);
            }
            if es.len() == 0 {
                assert(es@ =~= Seq::<Entity>::empty());
                assert(world@.entities.abandoned + real_indices(es@)
                    =~= world@.entities.abandoned);
                return ;
            }
            world.abandon(r, es.as_slice());
        }
    }

    /// Notes the value of a queued component that is not written after all.
    fn note_part(&self, list: &mut Vec<Discarded>, part: &QueuedPart)
        requires
            part.wf(self.arena@.bytes),
        ensures
            discard_states(final(list)@) == discard_states(old(list)@) + part_discard(
                part.state(self.arena@.bytes),
            ),
    {
        if part.desc.needs_drop {
            let value: Vec<u8> = bytes_of(self.arena.get(part.offset, part.len));
            list.push(Discarded { key: part.desc.key, value });
        }
        assert(discard_states(list@) =~= discard_states(old(list)@) + part_discard(
            part.state(self.arena@.bytes),
        ));
    }

    /// Notes the values of a command that is not applied.
    fn note_command(&self, world: &World, list: &mut Vec<Discarded>, q: &Queued)
        requires
            world.wf(),
            q.wf(self.arena@.bytes),
        ensures
            discard_states(final(list)@) == discard_states(old(list)@) + command_discards(
                world@.registry,
                q.state(self.arena@.bytes),
            ),
    {
        let ghost bytes = self.arena@.bytes;
        let ghost first = discard_states(list@);
        assert(first + Seq::<DiscardState>::empty() =~= first);
        match q {
            Queued::Spawn { parts, .. } => {
                let ghost bundle = parts@.map_values(|p: QueuedPart| p.state(bytes));
                let mut i: usize = 0;
                while i < parts.len()
                    invariant
                        i <= parts@.len() == bundle.len(),
                        bytes == self.arena@.bytes,
                        bundle == parts@.map_values(|p: QueuedPart| p.state(bytes)),
                        forall|k: int| 0 <= k < parts@.len() ==> (#[trigger] parts@[k]).wf(bytes),
                        discard_states(list@) == first + bundle_discards(bundle, i as nat),
                    decreases parts.len() - i,
                {
                    assert(bundle[i as int] == parts@[i as int].state(bytes));
                    self.note_part(list, &parts[i]);
                    i = i + 1;
                    assert(discard_states(list@) =~= first + bundle_discards(bundle, i as nat));
                }
            },
            Queued::Insert { part, .. } => {
                self.note_part(list, part);
            },
            Queued::InsertRaw { component_id, data, .. } => {
                let mut more: Vec<Discarded> = discard_for(world, *component_id, data.as_slice());
                let ghost added = discard_states(more@);
                list.append(&mut more);
                assert(discard_states(list@) =~= first + added);
            },
            _ => {},
        }
    }

    /// The values of the queued commands, which are not applied.
    fn queued_values(&self, world: &World) -> (list: Vec<Discarded>)
        requires
            self.wf(),
            world.wf(),
        ensures
            discard_states(list@) == commands_discards(world@.registry, self@, self@.len()),
    {
        let ghost bytes = self.arena@.bytes;
        let ghost r = world@.registry;
        let mut list: Vec<Discarded> = Vec::new();
        let mut i: usize = 0;
        assert(discard_states(list@) =~= Seq::<DiscardState>::empty());
        while i < self.queue.len()
            invariant
                i <= self.queue@.len() == self@.len(),
                self.wf(),
                world.wf(),
                bytes == self.arena@.bytes,
                r == world@.registry,
                discard_states(list@) == commands_discards(r, self@, i as nat),
            decreases self.queue.len() - i,
        {
            assert(self@[i as int] == self.queue@[i as int].state(bytes));
            assert(self.queue@[i as int].wf(bytes));
            self.note_command(world, &mut list, &self.queue[i]);
            i = i + 1;
        }
        list
    }

    /// Empties the queue without applying it. The reserved ids of queued spawns are given back, and
    /// the queued values are to be disposed of.
    pub fn clear(&mut self, world: &mut World)
        requires
            old(self).wf(),
            old(world).wf(),
            spawns_wait(old(world)@.entities, old(self)@, 0),
        ensures
            final(self).wf(),
            final(self)@ == Seq::<CommandState>::empty(),
            final(self).bound() == old(self).bound(),
            !final(self).half_applied(),
            final(self).arena_state() == (ArenaState {
                bytes: Seq::<u8>::empty(),
                ..old(self).arena_state()
            }),
            final(world).wf(),
            final(world)@ == (WorldState {
                entities: if old(self).bound() is Some {
                    AllocState {
                        abandoned: old(world)@.entities.abandoned + real_indices(
                            reserved_of(old(self)@),
                        ),
                        ..old(world)@.entities
                    }
                } else {
                    old(world)@.entities
                },
                discarded: old(world)@.discarded + commands_discards(
                    old(world)@.registry,
                    old(self)@,
                    old(self)@.len(),
                ),
                ..old(world)@
            }),
            final(world).store().archetypes == old(world).store().archetypes,
            forall|n: nat| old(world).room(n) ==> #[trigger] final(world).room(n),
    {
        self.abandon_queued_reservations(world);
        let values: Vec<Discarded> = self.queued_values(world);
        let ghost mid = *world;
        world.discard(values);
        proof {
            assert forall|n: nat| old(world).room(n) implies #[trigger] world.room(n) by {
                assert(mid.room(n));
            }
        }
        self.queue = Vec::new();
        self.half_applied = false;
        self.arena.reset();
        assert(self@ =~= Seq::<CommandState>::empty());
    }
}

impl Default for Commands {
    fn default() -> (c: Commands)
        ensures
            c.wf(),
            c@ == Seq::<CommandState>::empty(),
            c.bound() is None,
            !c.half_applied(),
            c.arena_state() == empty_arena(),
    {
        Commands::new()
    }
}

/// The anomaly of a template that nobody knows.
pub open spec fn template_missing(name: Seq<char>) -> AnomalyState {
    AnomalyState {
        severity: Severity::Warn,
        op: "Commands::spawn_template"@,
        entity: None,
        component: None,
        detail: "no template registered under name \""@ + name + "\"; nothing spawned"@,
    }
}

/// Reports that a template which was handed out is not known, so that nothing was spawned.
pub fn report_template_missing(world: &mut World, name: &str)
    requires
        old(world).wf(),
    ensures
        final(world).wf(),
        final(world)@ == reported(old(world)@, template_missing(name@)),
        final(world).store() == old(world).store(),
        forall|n: nat| old(world).room(n) ==> #[trigger] final(world).room(n),
{
    let mut detail: String = "no template registered under name \"".to_owned();
    detail.append(name);
    detail.append("\"; nothing spawned");
    world.report(
        Anomaly {
            severity: Severity::Warn,
            op: "Commands::spawn_template",
            entity: None,
            component: None,
            detail,
        },
    );
}

impl Queued {
    /// What the command may use up of each kind of number, unless it is beyond what a machine word
    /// counts.
    fn cost(&self, Ghost(bytes): Ghost<Seq<u8>>) -> (n: Option<usize>)
        ensures
            match n {
                Some(k) => k == command_cost(self.state(bytes)),
                None => command_cost(self.state(bytes)) > usize::MAX,
            },
    {
        match self {
            Queued::Spawn { entity, parts } => {
                let ghost bundle = parts@.map_values(|p: QueuedPart| p.state(bytes));
                let mut n: usize = 0;
                let mut i: usize = 0;
                while i < parts.len()
                    invariant
                        i <= parts@.len() == bundle.len(),
                        bundle == parts@.map_values(|p: QueuedPart| p.state(bytes)),
                        self.state(bytes) == (CommandState::Spawn { entity: *entity, bundle }),
                        n == bundle_cost(bundle, i as nat),
                    decreases parts.len() - i,
                {
                    proof {
                        lemma_bundle_cost(bundle, (i + 1) as nat);
                        assert(bundle[i as int].desc == parts@[i as int].desc);
                    }
                    let next: Option<usize> = match desc_cost(&parts[i].desc) {
                        Some(k) => n.checked_add(k),
                        None => None,
                    };
                    match next {
                        Some(m) => {
                            n = m;
                        },
                        None => {
                            return None;
                        },
                    }
                    i = i + 1;
                }
                n.checked_add(1)
            },
            Queued::Insert { entity: _, part } => match desc_cost(&part.desc) {
                Some(k) => k.checked_add(1),
                None => None,
            },
            Queued::AddRelations { subjects, kind: _, target: _ } => subjects.len().checked_add(1),
            _ => Some(1),
        }
    }
}

impl Commands {
    /// What the commands may use up of each kind of number, unless it is beyond what a machine word
    /// counts.
    pub fn cost(&self) -> (n: Option<usize>)
        requires
            self.wf(),
        ensures
            match n {
                Some(k) => k == commands_cost(self@, self@.len()),
                None => commands_cost(self@, self@.len()) > usize::MAX,
            },
    {
        let ghost cmds = self@;
        let mut n: usize = 0;
        let mut i: usize = 0;
        while i < self.queue.len()
            invariant
                i <= self.queue@.len() == cmds.len(),
                cmds == self@,
                n == commands_cost(cmds, i as nat),
            decreases self.queue.len() - i,
        {
            proof {
                lemma_commands_cost(cmds, (i + 1) as nat, cmds.len());
                assert(cmds[i as int] == self.queue@[i as int].state(self.arena@.bytes));
            }
            let next: Option<usize> = match self.queue[i].cost(Ghost(self.arena@.bytes)) {
                Some(k) => n.checked_add(k),
                None => None,
            };
            match next {
                Some(m) => {
                    n = m;
                },
                None => {
                    return None;
                },
            }
            i = i + 1;
        }
        Some(n)
    }
}

} // verus!
