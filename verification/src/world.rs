//! The world: entities with their components and relations.

use vstd::prelude::*;
use crate::archetype::{ArchState, ArchetypeId, column_of};
use crate::column::{bytes_of, column_wf};
use crate::component::{ComponentId, INVALID_ID, Tick};
use crate::entity::{
    AllocState, Entity, EntityLocation, EntityReserver, after_allocate, after_draw, after_flush,
    after_free, after_set_location, alive, allocated, can_allocate, can_draw, drawn, grow, is_current,
    lemma_located_update, located, location_of, real_indices, state_wf, undrawn,
};
use crate::entity_laws::{
    all_wait, awaits, held, law_abandon_keeps_pool_sound, law_allocate_issues_each_slot_once,
    law_draw_issues_each_slot_once, law_flush_keeps_pool_sound, law_free_keeps_pool_sound,
    law_held_stays_held, law_waiting_is_undisturbed, law_set_location_keeps_pool_sound, pool_sound,
    unlocated,
};
use crate::error::{
    Anomaly, AnomalyCounts, AnomalyState, ErrorHandler, ErrorMode, Severity, counted,
};
use crate::event_registry::{EventRegistry, with_queue};
use crate::events::{Events, EventsState, after_update, fits};
use crate::requirements::{
    DiscardState, Discarded, components_of, discard_for, discard_of, discard_states, discards_for,
    discards_of_all, hooks_for, hooks_of_all, puts_all, removal_hooks_for, removal_is_wanted,
    removed_hooks, removed_values, removed_values_of, wants_removed, written_with,
};
use crate::resources::{Resources, ResourcesState, with_resource};
use crate::registry::{
    ComponentDesc, ComponentHooks, ComponentRegistry, FLAG_ON_ADD, FLAG_ON_REMOVE,
    FLAG_TRACK_REMOVED, InfoView, RegistryState, after_register, agrees, desc_count, extends,
    first_full, flag_of, id_of, infos_agree, infos_wf, law_registering_keeps_numbers,
    lemma_after_register, lemma_id_of, lemma_register_agrees, requires_wf, suits_types, with_flag,
    with_requirement,
};
use crate::relation_graph::{
    GraphState, Refusal, RelationGraph, after_add, after_detach, as_listed, cascade_children,
    edge_removed, has_relation_to, kind_rows, lemma_after_detach, lists_all_targets, refusal_of,
    related, sibling_moved, with_hooks, with_registered,
};
use crate::relation_index::{RelationPair, first_pair, listed_before, place_of};
use crate::storage::{
    CellState, Storage, StoreState, StoredPart, Table, arch_ok, cell, cell_at, component_list,
    ids_at, lemma_component_list, lemma_settled, lists_components, others_same, same_slots,
    store_wf, tables, tables_moved, tables_with, tables_without, written,
};
use crate::storage::{after_reserve, entities_after_reserve, reserved_ids};
use crate::relations::{
    HookEvent, Kind, KindInfo, RelationKind, distinct_keys, index_with_kind, kind_index, kind_of,
};

verus! {

/// What can be observed of a world.
pub struct WorldState {
    /// The component types.
    pub registry: RegistryState,
    /// The entity slots. Where the components of a live entity are kept is not told.
    pub entities: AllocState,
    /// The components of each live entity.
    pub values: Map<Entity, Map<u32, CellState>>,
    /// Relations between entities.
    pub relations: GraphState,
    /// The current tick.
    pub tick: Tick,
    /// What is done about anomalies.
    pub mode: ErrorMode,
    /// Numbers of anomalies so far.
    pub counts: AnomalyCounts,
    /// The anomalies that were not responded to yet.
    pub anomalies: Seq<AnomalyState>,
    /// The event queues, by type.
    pub events: Map<u64, EventsState<Vec<u8>>>,
    /// The resources.
    pub resources: ResourcesState<Vec<u8>>,
    /// Values that were overwritten, removed or dropped, and are to be disposed of.
    pub discarded: Seq<DiscardState>,
}

/// The location that stands for every location.
pub open spec fn somewhere() -> EntityLocation {
    EntityLocation { archetype_id: ArchetypeId(0), row: 0 }
}

/// The slots without the locations, but for whether there is one.
pub open spec fn flat(s: AllocState) -> AllocState {
    AllocState {
        locations: s.locations.map_values(
            |l: Option<EntityLocation>|
                if l is Some {
                    Some(somewhere())
                } else {
                    None
                },
        ),
        ..s
    }
}

/// The components of an entity in a storage.
pub open spec fn row_of(s: StoreState, e: Entity) -> Map<u32, CellState> {
    Map::new(|c: u32| cell(s, e, c) is Some, |c: u32| cell(s, e, c)->0)
}

/// The components of every live entity in a storage.
pub open spec fn values_of(s: StoreState) -> Map<Entity, Map<u32, CellState>> {
    Map::new(|e: Entity| location_of(s.entities, e) is Some, |e: Entity| row_of(s, e))
}

/// What holds of the state of every world.
pub open spec fn world_ok(w: WorldState) -> bool {
    &&& infos_wf(w.registry.infos)
    &&& state_wf(w.entities)
    &&& pool_sound(w.entities)
    &&& forall|e: Entity| #[trigger] w.values.contains_key(e) <==> alive(w.entities, e)
    &&& w.relations.kinds.len() <= u32::MAX
    &&& w.relations.pairs.dom() == Set::<u32>::full()
    &&& w.relations.siblings.dom() == Set::<(u32, u32)>::full()
}

/// A component value to write, with the tick of the change.
pub struct PartState {
    pub id: u32,
    pub value: Seq<u8>,
    pub tick: Tick,
}

/// The components with one written: over what was there, whose tick of being added stays, or new.
pub open spec fn put(m: Map<u32, CellState>, p: PartState) -> Map<u32, CellState> {
    m.insert(
        p.id,
        CellState {
            value: p.value,
            changed: p.tick,
            added: if m.contains_key(p.id) {
                m[p.id].added
            } else {
                p.tick
            },
        },
    )
}

/// The components with the first `n` of `parts` written one after the other.
pub open spec fn puts(m: Map<u32, CellState>, parts: Seq<PartState>, n: nat) -> Map<u32, CellState>
    decreases n,
{
    if n == 0 {
        m
    } else {
        put(puts(m, parts, (n - 1) as nat), parts[n - 1])
    }
}

/// The state after an anomaly.
pub open spec fn reported(w: WorldState, a: AnomalyState) -> WorldState {
    WorldState { counts: counted(w.counts, a.severity), anomalies: w.anomalies.push(a), ..w }
}

/// The state with more values to be disposed of.
pub open spec fn with_discarded(w: WorldState, more: Seq<DiscardState>) -> WorldState {
    WorldState { discarded: w.discarded + more, ..w }
}

/// The anomaly of a component that is written to a dead entity.
pub open spec fn insert_dropped(infos: Seq<InfoView>, e: Entity, id: u32) -> AnomalyState {
    AnomalyState {
        severity: Severity::Warn,
        op: "World::insert"@,
        entity: Some(e),
        component: Some(infos[id as int].name),
        detail: "component dropped, not inserted (entity already despawned)"@,
    }
}

/// The state after the first `n` of `parts` were dropped because the entity is dead.
pub open spec fn after_drops(w: WorldState, e: Entity, parts: Seq<PartState>, n: nat) -> WorldState
    decreases n,
{
    if n == 0 {
        w
    } else {
        let p = parts[n - 1];
        with_discarded(
            reported(
                after_drops(w, e, parts, (n - 1) as nat),
                insert_dropped(w.registry.infos, e, p.id),
            ),
            discard_of(w.registry, p.id, p.value),
        )
    }
}

/// The state after components of an entity were written, with what they require. For a dead entity
/// each of them is an anomaly.
pub open spec fn after_inserts(w: WorldState, e: Entity, parts: Seq<PartState>) -> WorldState {
    if w.values.contains_key(e) {
        WorldState {
            values: w.values.insert(e, puts_all(w.registry, w.values[e], parts, w.tick)),
            relations: with_hooks(
                w.relations,
                hooks_of_all(w.registry, e, w.values[e], parts, w.tick),
            ),
            discarded: w.discarded + discards_of_all(w.registry, w.values[e], parts, w.tick),
            ..w
        }
    } else {
        after_drops(w, e, parts, parts.len())
    }
}

/// The layout once an entity has the components that it has in a state.
pub open spec fn settled(t: Seq<Table>, w: WorldState, e: Entity) -> Seq<Table> {
    if w.values.contains_key(e) {
        tables_moved(t, e, component_list(w.values[e]))
    } else {
        t
    }
}

/// The state after a component of an entity was removed.
pub open spec fn after_remove(w: WorldState, e: Entity, id: u32) -> WorldState {
    if w.values.contains_key(e) {
        WorldState {
            values: w.values.insert(e, w.values[e].remove(id)),
            relations: if w.values[e].contains_key(id) && wants_removed(w.registry, id) {
                with_hooks(
                    w.relations,
                    seq![HookEvent::ComponentRemoved { component: id, entity: e }],
                )
            } else {
                w.relations
            },
            discarded: if w.values[e].contains_key(id) {
                w.discarded + discard_of(w.registry, id, w.values[e][id].value)
            } else {
                w.discarded
            },
            ..w
        }
    } else {
        w
    }
}

/// The state after an issued but unlocated entity came to life with the components `parts` and what
/// they require.
pub open spec fn after_spawn_at(w: WorldState, e: Entity, parts: Seq<PartState>) -> WorldState {
    WorldState {
        entities: after_set_location(w.entities, e, somewhere()),
        values: w.values.insert(e, puts_all(w.registry, Map::empty(), parts, w.tick)),
        relations: with_hooks(
            w.relations,
            hooks_of_all(w.registry, e, Map::empty(), parts, w.tick),
        ),
        discarded: w.discarded + discards_of_all(w.registry, Map::empty(), parts, w.tick),
        ..w
    }
}

/// The state after an entity was allocated and came to life with the components `parts`.
pub open spec fn after_spawn(w: WorldState, parts: Seq<PartState>) -> WorldState {
    after_spawn_at(
        WorldState { entities: after_allocate(w.entities, 1), ..w },
        allocated(w.entities, 1)[0],
        parts,
    )
}

/// The state after a component type was registered.
pub open spec fn with_registry(w: WorldState, registry: RegistryState) -> WorldState {
    WorldState { registry, ..w }
}

/// The registry once it is noted who wants to know when a component comes and goes.
pub open spec fn with_hook_flags(r: RegistryState, id: u32, hooks: ComponentHooks) -> RegistryState {
    let a = if hooks.on_add is Some {
        with_flag(r, id, FLAG_ON_ADD)
    } else {
        r
    };
    let b = if hooks.on_remove is Some {
        with_flag(a, id, FLAG_ON_REMOVE)
    } else {
        a
    };
    if hooks.emit_removed is Some {
        with_flag(b, id, FLAG_TRACK_REMOVED)
    } else {
        b
    }
}

/// The state after one live entity was despawned: its relations are cleared, its slot is freed.
pub open spec fn after_release(w: WorldState, e: Entity) -> WorldState {
    WorldState {
        entities: after_free(w.entities, e),
        values: w.values.remove(e),
        relations: with_hooks(
            after_detach(w.relations, e),
            removed_hooks(
                w.registry,
                e,
                components_of(w.values, e),
                w.registry.infos.len(),
            ),
        ),
        discarded: w.discarded + removed_values(
            w.registry,
            components_of(w.values, e),
            w.registry.infos.len(),
        ),
        ..w
    }
}

/// The state after the entities of `stack` were despawned, the last one first. The subjects that go
/// with an entity are put on top of the stack; dead entities are passed over.
pub open spec fn after_despawns(w: WorldState, stack: Seq<Entity>) -> WorldState
    decreases located(w.entities.locations), stack.len(),
{
    if stack.len() == 0 {
        w
    } else {
        let e = stack.last();
        if alive(w.entities, e) && e.index < w.entities.locations.len() {
            proof {
                lemma_located_update(w.entities.locations, e.index as int, None);
            }
            after_despawns(
                after_release(w, e),
                stack.drop_last() + cascade_children(w.relations, e, w.relations.kinds.len()),
            )
        } else {
            after_despawns(w, stack.drop_last())
        }
    }
}

/// The layout after the entities of `stack` were despawned, the last one first.
pub open spec fn tables_after_despawns(t: Seq<Table>, w: WorldState, stack: Seq<Entity>) -> Seq<
    Table,
>
    decreases located(w.entities.locations), stack.len(),
{
    if stack.len() == 0 {
        t
    } else {
        let e = stack.last();
        if alive(w.entities, e) && e.index < w.entities.locations.len() {
            proof {
                lemma_located_update(w.entities.locations, e.index as int, None);
            }
            tables_after_despawns(
                tables_without(t, e),
                after_release(w, e),
                stack.drop_last() + cascade_children(w.relations, e, w.relations.kinds.len()),
            )
        } else {
            tables_after_despawns(t, w, stack.drop_last())
        }
    }
}

pub proof fn lemma_flat(s: AllocState)
    ensures
        state_wf(flat(s)) <==> state_wf(s),
        pool_sound(flat(s)) <==> pool_sound(s),
        undrawn(flat(s)) == undrawn(s),
        forall|e: Entity| #[trigger] is_current(flat(s), e) <==> is_current(s, e),
        s.generations.len() == s.locations.len() ==> forall|e: Entity| #[trigger]
            alive(flat(s), e) <==> alive(s, e),
        forall|i: u32| #[trigger] held(flat(s), i) <==> held(s, i),
        forall|i: u32| #[trigger] unlocated(flat(s), i) <==> unlocated(s, i),
{
    assert(undrawn(flat(s)) =~= undrawn(s));
    let f = flat(s);
    assert forall|i: u32| #[trigger] unlocated(f, i) <==> unlocated(s, i) by {
    }
    if pool_sound(s) {
        assert(crate::entity_laws::all_unlocated(f, s.free_list));
        assert(crate::entity_laws::all_unlocated(f, s.abandoned));
        assert(crate::entity_laws::all_unlocated(f, undrawn(s)));
    }
    if pool_sound(f) {
        assert(crate::entity_laws::all_unlocated(s, s.free_list)) by {
            assert(crate::entity_laws::all_unlocated(f, s.free_list));
        }
        assert(crate::entity_laws::all_unlocated(s, s.abandoned)) by {
            assert(crate::entity_laws::all_unlocated(f, s.abandoned));
        }
        assert(crate::entity_laws::all_unlocated(s, undrawn(s))) by {
            assert(crate::entity_laws::all_unlocated(f, undrawn(s)));
        }
    }
}

proof fn lemma_flat_grow(s: AllocState, n: nat)
    requires
        s.generations.len() == s.locations.len(),
    ensures
        flat(grow(s, n)) == grow(flat(s), n),
{
    assert(flat(grow(s, n)).locations =~= grow(flat(s), n).locations);
}

proof fn lemma_flat_allocate(s: AllocState, n: nat)
    requires
        s.generations.len() == s.locations.len(),
    ensures
        flat(after_allocate(s, n)) == after_allocate(flat(s), n),
        allocated(flat(s), n) == allocated(s, n),
        can_allocate(flat(s), n) == can_allocate(s, n),
{
    let t = after_draw(
        crate::entity::after_pop(s, n),
        (n - crate::entity::from_free(s, n)) as nat,
    );
    lemma_flat_grow(t, t.high_water);
    assert(allocated(flat(s), n) =~= allocated(s, n));
    assert(flat(after_allocate(s, n)).locations =~= after_allocate(flat(s), n).locations);
}

proof fn lemma_flat_flush(s: AllocState)
    requires
        s.generations.len() == s.locations.len(),
    ensures
        flat(after_flush(s)) == after_flush(flat(s)),
{
    lemma_flat(s);
    lemma_flat_grow(s, s.high_water);
    let g = grow(s, s.high_water);
    let pool = s.free_list + s.abandoned + undrawn(s);
    assert(flat(g).generations == g.generations);
    assert(after_flush(flat(s)).lease =~= flat(after_flush(s)).lease);
}

proof fn lemma_values(s: StoreState, t: StoreState, e: Entity)
    requires
        others_same(s, t, e),
    ensures
        location_of(t.entities, e) is Some ==> values_of(t) == values_of(s).insert(
            e,
            row_of(t, e),
        ),
        location_of(t.entities, e) is None ==> values_of(t) == values_of(s).remove(e),
{
    assert forall|x: Entity| x != e implies (values_of(t).contains_key(x) <==> values_of(
        s,
    ).contains_key(x)) && #[trigger] row_of(t, x) == row_of(s, x) by {
        assert(location_of(t.entities, x) is Some <==> location_of(s.entities, x) is Some);
        assert(row_of(t, x) =~= row_of(s, x)) by {
            assert forall|c: u32| #[trigger] cell(t, x, c) == cell(s, x, c) by {
            }
        }
    }
    if location_of(t.entities, e) is Some {
        assert(values_of(t) =~= values_of(s).insert(e, row_of(t, e)));
    } else {
        assert(values_of(t) =~= values_of(s).remove(e));
    }
}

proof fn lemma_puts(m: Map<u32, CellState>, parts: Seq<PartState>, list: Seq<StoredPart>, n: nat)
    requires
        n <= parts.len() == list.len(),
        forall|i: int|
            0 <= i < parts.len() ==> (#[trigger] list[i]).id.0 == parts[i].id && list[i].value@
                == parts[i].value && list[i].changed == parts[i].tick && list[i].added
                == parts[i].tick,
    ensures
        forall|c: u32|
            #![trigger written(cell_in(m, c), list, c, n)]
            #![trigger puts(m, parts, n).contains_key(c)]
            written(cell_in(m, c), list, c, n) == cell_in(puts(m, parts, n), c),
    decreases n,
{
    if n > 0 {
        let n1 = (n - 1) as nat;
        lemma_puts(m, parts, list, n1);
        assert(list[n - 1].id.0 == parts[n - 1].id);
        assert forall|c: u32|
            #![trigger written(cell_in(m, c), list, c, n)]
            #![trigger puts(m, parts, n).contains_key(c)]
            written(cell_in(m, c), list, c, n) == cell_in(puts(m, parts, n), c) by {
            assert(written(cell_in(m, c), list, c, n1) == cell_in(puts(m, parts, n1), c));
        }
    }
}

/// The components of the archetype of a live entity are those of the entity.
proof fn lemma_ids_listed(t: StoreState, infos: Seq<InfoView>, e: Entity)
    requires
        store_wf(t, infos),
        location_of(t.entities, e) is Some,
    ensures
        component_list(row_of(t, e)) == ids_at(t, e),
{
    let loc = location_of(t.entities, e)->0;
    assert(arch_ok(t.archetypes[loc.archetype_id.0 as int], loc.archetype_id.0 as int, infos));
    assert(lists_components(ids_at(t, e), row_of(t, e))) by {
        assert forall|c: u32| #[trigger] ids_at(t, e).contains(c) <==> row_of(t, e).contains_key(
            c,
        ) by {
            assert(row_of(t, e).contains_key(c) <==> cell(t, e, c) is Some);
        }
    }
    lemma_component_list(ids_at(t, e), row_of(t, e));
}

/// A component in a map, if it is there.
pub open spec fn cell_in(m: Map<u32, CellState>, c: u32) -> Option<CellState> {
    if m.contains_key(c) {
        Some(m[c])
    } else {
        None
    }
}

/// A component of a bundle: its type and its value.
pub struct BundlePart {
    pub desc: ComponentDesc,
    pub value: Vec<u8>,
}

/// Components that belong together.
pub struct Bundle {
    pub parts: Vec<BundlePart>,
}

/// The contents of a [`BundlePart`].
pub struct BundleState {
    pub desc: ComponentDesc,
    pub value: Seq<u8>,
}

impl View for Bundle {
    type V = Seq<BundleState>;

    open spec fn view(&self) -> Seq<BundleState> {
        self.parts@.map_values(|p: BundlePart| BundleState { desc: p.desc, value: p.value@ })
    }
}

/// A component value to write, with the tick of the change.
pub struct RawPart {
    pub id: ComponentId,
    pub value: Vec<u8>,
    pub tick: Tick,
}

impl View for RawPart {
    type V = PartState;

    open spec fn view(&self) -> PartState {
        PartState { id: self.id.0, value: self.value@, tick: self.tick }
    }
}

/// The contents of parts.
pub open spec fn part_states(parts: Seq<RawPart>) -> Seq<PartState> {
    parts.map_values(|p: RawPart| p@)
}

/// Whether parts are of registered types and have their sizes.
pub open spec fn states_fit(parts: Seq<PartState>, infos: Seq<InfoView>) -> bool {
    forall|i: int|
        0 <= i < parts.len() ==> (#[trigger] parts[i]).id < infos.len() && parts[i].value.len()
            == infos[parts[i].id as int].size
}

/// The registry after the types of the first `n` parts of a bundle were registered.
pub open spec fn after_registers(r: RegistryState, bundle: Seq<BundleState>, n: nat) -> RegistryState
    decreases n,
{
    if n == 0 {
        r
    } else {
        after_register(after_registers(r, bundle, (n - 1) as nat), bundle[n - 1].desc)
    }
}

/// Number of types that the first `n` parts of a bundle name.
pub open spec fn bundle_cost(bundle: Seq<BundleState>, n: nat) -> nat
    decreases n,
{
    if n == 0 {
        0
    } else {
        bundle_cost(bundle, (n - 1) as nat) + desc_count(bundle[n - 1].desc)
    }
}

/// Whether the values of a bundle have the sizes in `sizes`.
pub open spec fn bundle_fits(sizes: Map<u64, usize>, bundle: Seq<BundleState>) -> bool {
    forall|i: int|
        0 <= i < bundle.len() ==> agrees(sizes, (#[trigger] bundle[i]).desc)
            && bundle[i].value.len() == bundle[i].desc.size
}

/// The parts of a bundle whose types are registered.
pub open spec fn bundle_parts(infos: Seq<InfoView>, bundle: Seq<BundleState>, tick: Tick) -> Seq<
    PartState,
> {
    Seq::new(
        bundle.len(),
        |i: int|
            PartState {
                id: id_of(infos, bundle[i].desc.key)->0,
                value: bundle[i].value,
                tick,
            },
    )
}

/// The state after the types of a bundle were registered.
pub open spec fn with_bundle(w: WorldState, bundle: Seq<BundleState>) -> WorldState {
    with_registry(w, after_registers(w.registry, bundle, bundle.len()))
}

/// The state after a bundle was spawned as a new entity.
pub open spec fn after_spawn_bundle(w: WorldState, bundle: Seq<BundleState>) -> WorldState {
    let r = with_bundle(w, bundle);
    after_spawn(r, bundle_parts(r.registry.infos, bundle, w.tick))
}

/// The state after a bundle was spawned as an entity that was reserved for it.
pub open spec fn after_spawn_reserved(w: WorldState, e: Entity, bundle: Seq<BundleState>) -> WorldState {
    let r = with_bundle(w, bundle);
    after_spawn_at(r, e, bundle_parts(r.registry.infos, bundle, w.tick))
}

/// What registering the types of a bundle does: the list of types grows at the end.
pub proof fn lemma_after_registers(
    sizes: Map<u64, usize>,
    r: RegistryState,
    bundle: Seq<BundleState>,
    n: nat,
)
    requires
        n <= bundle.len(),
        infos_wf(r.infos),
        infos_agree(sizes, r.infos),
        bundle_fits(sizes, bundle),
        r.infos.len() + bundle_cost(bundle, n) <= INVALID_ID,
    ensures
        extends(r, after_registers(r, bundle, n)),
        infos_wf(after_registers(r, bundle, n).infos),
        infos_agree(sizes, after_registers(r, bundle, n).infos),
        after_registers(r, bundle, n).infos.len() <= r.infos.len() + bundle_cost(bundle, n),
        forall|i: int|
            0 <= i < n ==> id_of(
                after_registers(r, bundle, n).infos,
                (#[trigger] bundle[i]).desc.key,
            ) is Some,
    decreases n,
{
    if n > 0 {
        let n1 = (n - 1) as nat;
        let d = bundle[n - 1].desc;
        lemma_after_registers(sizes, r, bundle, n1);
        let m = after_registers(r, bundle, n1);
        lemma_after_register(m, d);
        lemma_register_agrees(sizes, m, d);
        let t = after_registers(r, bundle, n);
        assert forall|i: int| 0 <= i < n implies id_of(
            t.infos,
            (#[trigger] bundle[i]).desc.key,
        ) is Some by {
            if i < n - 1 {
                law_registering_keeps_numbers(m, d, bundle[i].desc.key);
            }
        }
        assert forall|i: int| 0 <= i < r.infos.len() implies #[trigger] t.infos[i] == r.infos[i] by {
            assert(m.infos[i] == r.infos[i]);
        }
    }
}

proof fn lemma_bundle_parts_fit(
    sizes: Map<u64, usize>,
    infos: Seq<InfoView>,
    bundle: Seq<BundleState>,
    tick: Tick,
)
    requires
        infos_wf(infos),
        infos_agree(sizes, infos),
        bundle_fits(sizes, bundle),
        forall|i: int|
            0 <= i < bundle.len() ==> id_of(infos, (#[trigger] bundle[i]).desc.key) is Some,
    ensures
        states_fit(bundle_parts(infos, bundle, tick), infos),
{
    let parts = bundle_parts(infos, bundle, tick);
    assert forall|i: int| 0 <= i < parts.len() implies (#[trigger] parts[i]).id < infos.len()
        && parts[i].value.len() == infos[parts[i].id as int].size by {
        let key = bundle[i].desc.key;
        assert(id_of(infos, key) is Some);
        let j = choose|j: int| 0 <= j < infos.len() && (#[trigger] infos[j]).key == key;
        lemma_id_of(infos, j);
        assert(agrees(sizes, bundle[i].desc));
    }
}

proof fn lemma_bundle_cost(bundle: Seq<BundleState>, n: nat)
    requires
        n <= bundle.len(),
    ensures
        bundle_cost(bundle, n) <= bundle_cost(bundle, bundle.len()),
    decreases bundle.len() - n,
{
    if n < bundle.len() {
        lemma_bundle_cost(bundle, n + 1);
    }
}

/// Parts as the storage takes them: what is new is added at the tick of the change.
fn stored_parts(parts: &Vec<RawPart>) -> (list: Vec<StoredPart>)
    ensures
        list@.len() == parts@.len(),
        forall|i: int|
            0 <= i < parts@.len() ==> (#[trigger] list@[i]).id == parts@[i].id && list@[i].value@
                == parts@[i].value@ && list@[i].changed == parts@[i].tick && list@[i].added
                == parts@[i].tick,
{
    let mut list: Vec<StoredPart> = Vec::new();
    let mut i: usize = 0;
    while i < parts.len()
        invariant
            i <= parts@.len(),
            list@.len() == i,
            forall|k: int|
                0 <= k < i ==> (#[trigger] list@[k]).id == parts@[k].id && list@[k].value@
                    == parts@[k].value@ && list@[k].changed == parts@[k].tick && list@[k].added
                    == parts@[k].tick,
        decreases parts.len() - i,
    {
        list.push(
            StoredPart {
                id: parts[i].id,
                value: bytes_of(parts[i].value.as_slice()),
                changed: parts[i].tick,
                added: parts[i].tick,
            },
        );
        i = i + 1;
    }
    list
}

/// Entities with components and relations.
pub struct World {
    registry: ComponentRegistry,
    storage: Storage,
    relations: RelationGraph,
    tick: Tick,
    errors: ErrorHandler,
    anomalies: Vec<Anomaly>,
    events: EventRegistry<Vec<u8>>,
    resources: Resources<Vec<u8>>,
    discarded: Vec<Discarded>,
}

impl View for World {
    type V = WorldState;

    closed spec fn view(&self) -> WorldState {
        WorldState {
            registry: self.registry@,
            entities: flat(self.storage@.entities),
            values: values_of(self.storage@),
            relations: self.relations@,
            tick: self.tick,
            mode: self.errors.spec_mode(),
            counts: self.errors.spec_counts(),
            anomalies: self.anomalies@.map_values(|a: Anomaly| a@),
            events: self.events@,
            resources: self.resources@,
            discarded: discard_states(self.discarded@),
        }
    }
}

proof fn lemma_flat_located(s: StoreState, t: StoreState, e: Entity)
    requires
        state_wf(s.entities),
        same_slots(s.entities, t.entities),
        others_same(s, t, e),
        location_of(t.entities, e) is Some,
    ensures
        flat(t.entities) == after_set_location(flat(s.entities), e, somewhere()),
        location_of(s.entities, e) is Some ==> flat(t.entities) == flat(s.entities),
{
    let f = flat(s.entities);
    let g = flat(t.entities);
    assert(is_current(f, e));
    let want = after_set_location(f, e, somewhere());
    assert forall|i: int| 0 <= i < g.locations.len() implies g.locations[i] == want.locations[i] by {
        let x = Entity { index: i as u32, generation: s.entities.generations[i] };
        if x != e {
            assert(location_of(t.entities, x) is Some <==> location_of(s.entities, x) is Some);
            assert(i != e.index);
        }
    }
    assert(g.locations =~= want.locations);
    assert(g == want);
    if location_of(s.entities, e) is Some {
        assert(want.locations =~= f.locations);
    }
}

impl World {
    /// The world's invariant.
    pub closed spec fn wf(&self) -> bool {
        &&& self.registry.wf()
        &&& self.storage.wf(self.registry@.infos)
        &&& self.relations.wf()
        &&& self.events.wf()
        &&& pool_sound(self.storage@.entities)
    }

    /// Whether every kind of number still has room for `n` more: component types, kinds of
    /// relations, entity indexes, archetypes, and relations that point at one entity.
    pub closed spec fn room(&self, n: nat) -> bool {
        &&& self.registry@.infos.len() + n <= INVALID_ID
        &&& self.relations@.kinds.len() + n <= u32::MAX
        &&& self.storage@.entities.high_water + n <= u32::MAX
        &&& self.storage@.archetypes.len() + n <= u32::MAX
        &&& forall|t: u32| #[trigger] self.relations.fan_in(t) + n <= u32::MAX
    }

    /// Less room is needed for less.
    pub proof fn lemma_room(&self, m: nat, n: nat)
        requires
            self.room(n),
            m <= n,
        ensures
            self.room(m),
    {
        assert forall|t: u32| #[trigger] self.relations.fan_in(t) + m <= u32::MAX by {
            assert(self.relations.fan_in(t) + n <= u32::MAX);
        }
    }

    /// The invariant, as it shows in the state.
    pub proof fn lemma_wf(&self)
        requires
            self.wf(),
        ensures
            world_ok(self@),
            requires_wf(self@.registry),
            distinct_keys(self@.relations.kinds),
            !self@.registry.any_flags ==> forall|id: u32| #[trigger]
                flag_of(self@.registry, id) == 0,
    {
        self.registry.lemma_wf();
        self.storage.lemma_wf(self.registry@.infos);
        self.relations.lemma_wf();
        lemma_flat(self.storage@.entities);
        assert forall|e: Entity| #[trigger] self@.values.contains_key(e) <==> alive(
            self@.entities,
            e,
        ) by {
            assert(alive(flat(self.storage@.entities), e) <==> alive(self.storage@.entities, e));
        }
    }

    /// Entities are where their components are.
    pub proof fn lemma_settled(&self, e: Entity)
        requires
            self.wf(),
        ensures
            settled(self.layout(), self@, e) == self.layout(),
    {
        let infos = self.registry@.infos;
        self.storage.lemma_wf(infos);
        if self@.values.contains_key(e) {
            lemma_ids_listed(self.storage@, infos, e);
            lemma_settled(self.storage@, infos, e);
        }
    }

    /// Entities have components of registered types only.
    pub proof fn lemma_components_known(&self, e: Entity, c: u32)
        requires
            self.wf(),
            self@.values.contains_key(e),
            self@.values[e].contains_key(c),
        ensures
            c < self@.registry.infos.len(),
    {
        let s = self.storage@;
        let infos = self.registry@.infos;
        self.storage.lemma_wf(infos);
        let loc = location_of(s.entities, e)->0;
        let a = loc.archetype_id.0 as int;
        assert(cell(s, e, c) is Some);
        assert(arch_ok(s.archetypes[a], a, infos));
        assert(s.archetypes[a].ids.contains(c));
        let i = choose|i: int| 0 <= i < s.archetypes[a].ids.len() && s.archetypes[a].ids[i] == c;
        assert(s.archetypes[a].ids[i] < infos.len());
    }

    /// A world without entities.
    pub fn new() -> (w: World)
        ensures
            w.wf(),
            w.room((u32::MAX - 1) as nat),
            w@.registry.infos.len() == 0,
            w@.entities.high_water == 0,
            w@.entities.generations.len() == 0,
            (w@.values == Map::<Entity, Map<u32, CellState>>::empty()),
            w@.relations.kinds.len() == 0,
            w@.relations.hooks.len() == 0,
            forall|i: u32|
                (#[trigger] w@.relations.pairs[i]) == Set::<
                    crate::relation_index::RelationPair,
                >::empty(),
            forall|key: (u32, u32)| (#[trigger] w@.relations.siblings[key]).len() == 0,
            w@.tick.0 == 1,
            w@.mode == ErrorMode::Warn,
            w@.counts == (AnomalyCounts { warn: 0, error: 0 }),
            w@.anomalies == Seq::<AnomalyState>::empty(),
            (w@.events == Map::<u64, EventsState<Vec<u8>>>::empty()),
            (w@.resources.values == Map::<u64, Vec<u8>>::empty()),
            w@.discarded == Seq::<DiscardState>::empty(),
    {
        let w = World {
            registry: ComponentRegistry::new(),
            storage: Storage::new(),
            relations: RelationGraph::new(),
            tick: Tick(1),
            errors: ErrorHandler::new(ErrorMode::Warn),
            anomalies: Vec::new(),
            events: EventRegistry::new(),
            resources: Resources::new(),
            discarded: Vec::new(),
        };
        proof {
            assert(w@.discarded =~= Seq::<DiscardState>::empty());
            assert(w@.anomalies =~= Seq::<AnomalyState>::empty());
            assert(w.registry@.infos =~= Seq::<InfoView>::empty());
            w.storage.lemma_wf(Seq::empty());
            assert forall|e: Entity| (#[trigger] location_of(w.storage@.entities, e)) is None by {
            }
            assert(values_of(w.storage@) =~= Map::<Entity, Map<u32, CellState>>::empty());
            assert(undrawn(w.storage@.entities) =~= Seq::<u32>::empty());
            assert forall|t: u32| #[trigger]
                w.relations.fan_in(t) + (u32::MAX - 1) as nat <= u32::MAX by {
                assert(w.relations.fan_in(t) == 0);
            }
        }
        w
    }

    /// The component types.
    pub fn registry(&self) -> (r: &ComponentRegistry)
        requires
            self.wf(),
        ensures
            r.wf(),
            r@ == self@.registry,
            r.hook_map() == self.component_hooks(),
    {
        &self.registry
    }

    /// The functions that run when components come and go, by component number.
    pub closed spec fn component_hooks(&self) -> Map<u64, ComponentHooks> {
        self.registry.hook_map()
    }

    /// Sets the functions that run when a component comes and goes, and notes who wants to know.
    pub fn set_component_hooks(&mut self, id: ComponentId, hooks: ComponentHooks)
        requires
            old(self).wf(),
        ensures
            final(self).wf(),
            final(self)@ == with_registry(
                old(self)@,
                with_hook_flags(old(self)@.registry, id.0, hooks),
            ),
            final(self).component_hooks() == old(self).component_hooks().insert(
                id.0 as u64,
                hooks,
            ),
            final(self).store() == old(self).store(),
            forall|n: nat| old(self).room(n) ==> #[trigger] final(self).room(n),
    {
        self.registry.set_hooks(id, hooks);
        if hooks.on_add.is_some() {
            self.registry.set_flag(id, FLAG_ON_ADD);
        }
        if hooks.on_remove.is_some() {
            self.registry.set_flag(id, FLAG_ON_REMOVE);
        }
        if hooks.emit_removed.is_some() {
            self.registry.set_flag(id, FLAG_TRACK_REMOVED);
        }
        proof {
            self.lemma_kept_room(*old(self));
        }
    }

    /// Declares that the first component requires the second: where the first appears, the second
    /// is added with the default, unless it is there.
    pub fn require_component(
        &mut self,
        component: &ComponentDesc,
        required: &ComponentDesc,
        default: Vec<u8>,
    )
        requires
            old(self).wf(),
            old(self).room(desc_count(*component) + desc_count(*required)),
            default@.len() == required.size,
            exists|sizes: Map<u64, usize>| #[trigger]
                infos_agree(sizes, old(self)@.registry.infos) && agrees(sizes, *component)
                    && agrees(sizes, *required),
        ensures
            final(self).wf(),
            ({
                let s = after_register(
                    after_register(old(self)@.registry, *component),
                    *required,
                );
                final(self)@ == with_registry(
                    old(self)@,
                    with_requirement(
                        s,
                        id_of(s.infos, component.key)->0,
                        (id_of(s.infos, required.key)->0, default@),
                    ),
                )
            }),
            final(self).store() == old(self).store(),
            forall|n: nat|
                old(self).room(n + desc_count(*component) + desc_count(*required))
                    ==> #[trigger] final(self).room(n),
    {
        let ghost r = self.registry@;
        let ghost cost = desc_count(*component) + desc_count(*required);
        proof {
            self.registry.lemma_wf();
            lemma_after_register(r, *component);
            lemma_after_register(after_register(r, *component), *required);
        }
        self.registry.register_required(component, required, default);
        proof {
            let t = self.registry@;
            let mid = after_register(r, *component);
            assert forall|i: int| 0 <= i < r.infos.len() implies (#[trigger] t.infos[i]).size
                == r.infos[i].size by {
                assert(mid.infos[i] == r.infos[i]);
                assert(after_register(mid, *required).infos[i] == mid.infos[i]);
            }
            self.storage.lemma_more_infos(r.infos, t.infos);
            assert forall|n: nat|
                old(self).room(n + desc_count(*component) + desc_count(*required)) implies
                #[trigger] self.room(n) by {
                assert(old(self).room(n + cost));
                old(self).lemma_room(n, n + cost);
                assert forall|t: u32| #[trigger] self.relations.fan_in(t) + n <= u32::MAX by {
                    assert(old(self).relations.fan_in(t) + n <= u32::MAX);
                }
            }
        }
    }

    /// Registers a component type, unless it is registered.
    pub fn register_component(&mut self, desc: &ComponentDesc) -> (id: ComponentId)
        requires
            old(self).wf(),
            old(self).room(desc_count(*desc)),
            suits_types(old(self)@.registry.infos, *desc),
        ensures
            final(self).wf(),
            final(self)@ == with_registry(
                old(self)@,
                after_register(old(self)@.registry, *desc),
            ),
            Some(id.0) == id_of(final(self)@.registry.infos, desc.key),
            final(self).store() == old(self).store(),
            forall|n: nat|
                old(self).room(n + desc_count(*desc)) ==> #[trigger] final(self).room(n),
    {
        let ghost r = self.registry@;
        proof {
            self.registry.lemma_wf();
            lemma_after_register(r, *desc);
        }
        let id: ComponentId = self.registry.register(desc);
        proof {
            let t = self.registry@;
            assert forall|i: int| 0 <= i < r.infos.len() implies (#[trigger] t.infos[i]).size
                == r.infos[i].size by {
                assert(t.infos[i] == r.infos[i]);
            }
            self.storage.lemma_more_infos(r.infos, t.infos);
            assert forall|n: nat|
                old(self).room(n + desc_count(*desc)) implies #[trigger] self.room(n) by {
                old(self).lemma_room(n, n + desc_count(*desc));
                assert forall|t: u32| #[trigger] self.relations.fan_in(t) + n <= u32::MAX by {
                    assert(old(self).relations.fan_in(t) + n <= u32::MAX);
                }
            }
        }
        id
    }

    /// Registers the types of a bundle and returns its parts.
    fn resolve(&mut self, bundle: &Bundle) -> (parts: Vec<RawPart>)
        requires
            old(self).wf(),
            old(self).room(bundle_cost(bundle@, bundle@.len())),
            exists|sizes: Map<u64, usize>|
                #![trigger infos_agree(sizes, old(self)@.registry.infos)]
                infos_agree(sizes, old(self)@.registry.infos) && bundle_fits(sizes, bundle@),
        ensures
            final(self).wf(),
            final(self)@ == with_bundle(old(self)@, bundle@),
            part_states(parts@) == bundle_parts(
                final(self)@.registry.infos,
                bundle@,
                old(self)@.tick,
            ),
            states_fit(part_states(parts@), final(self)@.registry.infos),
            final(self).store() == old(self).store(),
            forall|n: nat|
                old(self).room(n + bundle_cost(bundle@, bundle@.len()))
                    ==> #[trigger] final(self).room(n),
    {
        let ghost sizes = choose|sizes: Map<u64, usize>|
            #![trigger infos_agree(sizes, old(self)@.registry.infos)]
            infos_agree(sizes, old(self)@.registry.infos) && bundle_fits(sizes, bundle@);
        let ghost w = self@;
        let ghost total = bundle_cost(bundle@, bundle@.len());
        let mut i: usize = 0;
        proof {
            self.lemma_wf();
        }
        while i < bundle.parts.len()
            invariant
                i <= bundle@.len() == bundle.parts@.len(),
                old(self).wf(),
                self.wf(),
                world_ok(w),
                w == old(self)@,
                infos_agree(sizes, w.registry.infos),
                bundle_fits(sizes, bundle@),
                total == bundle_cost(bundle@, bundle@.len()),
                old(self).room(total),
                self@ == with_registry(w, after_registers(w.registry, bundle@, i as nat)),
                self.store() == old(self).store(),
                forall|n: nat|
                    old(self).room(n + bundle_cost(bundle@, i as nat)) ==> #[trigger] self.room(n),
            decreases bundle.parts.len() - i,
        {
            let ghost before = *self;
            let ghost cost = desc_count(bundle@[i as int].desc);
            proof {
                lemma_bundle_cost(bundle@, (i + 1) as nat);
                let m = (total - bundle_cost(bundle@, i as nat)) as nat;
                assert(old(self).room(m + bundle_cost(bundle@, i as nat)));
                assert(self.room(m));
                self.lemma_room(cost, m);
                old(self).lemma_room_registry(total);
                lemma_bundle_cost(bundle@, i as nat);
                lemma_after_registers(sizes, w.registry, bundle@, i as nat);
                assert(agrees(sizes, bundle@[i as int].desc));
                assert(infos_agree(sizes, self@.registry.infos));
            }
            let id: ComponentId = self.register_component(&bundle.parts[i].desc);
            i = i + 1;
            proof {
                assert forall|n: nat|
                    old(self).room(n + bundle_cost(bundle@, i as nat)) implies #[trigger] self.room(
                    n,
                ) by {
                    assert(old(self).room((n + cost) + bundle_cost(bundle@, (i - 1) as nat)));
                    assert(before.room(n + cost));
                }
            }
        }
        let ghost infos = self@.registry.infos;
        proof {
            self.lemma_wf();
            old(self).lemma_room_registry(total);
            lemma_after_registers(sizes, w.registry, bundle@, bundle@.len());
            lemma_bundle_parts_fit(sizes, infos, bundle@, w.tick);
        }
        let tick: Tick = self.tick;
        let mut parts: Vec<RawPart> = Vec::new();
        let mut k: usize = 0;
        while k < bundle.parts.len()
            invariant
                k <= bundle@.len() == bundle.parts@.len(),
                self.wf(),
                infos == self@.registry.infos,
                infos_wf(infos),
                tick == w.tick,
                parts@.len() == k,
                forall|j: int|
                    0 <= j < bundle@.len() ==> id_of(
                        infos,
                        (#[trigger] bundle@[j]).desc.key,
                    ) is Some,
                forall|j: int|
                    0 <= j < k ==> (#[trigger] parts@[j])@ == bundle_parts(infos, bundle@, tick)[j],
            decreases bundle.parts.len() - k,
        {
            assert(id_of(infos, bundle@[k as int].desc.key) is Some);
            if let Some(id) = self.registry.get_id_by_type(bundle.parts[k].desc.key) {
                parts.push(RawPart { id, value: bytes_of(bundle.parts[k].value.as_slice()), tick });
            }
            k = k + 1;
        }
        assert(part_states(parts@) =~= bundle_parts(infos, bundle@, tick));
        parts
    }

    /// Room for `n` more is room for `n` more component types and entity indexes.
    pub proof fn lemma_room_infos(&self, n: nat)
        requires
            self.room(n),
        ensures
            self@.registry.infos.len() + n <= INVALID_ID,
            self@.entities.high_water + n <= u32::MAX,
    {
    }

    proof fn lemma_room_registry(&self, n: nat)
        requires
            self.room(n),
        ensures
            self@.registry.infos.len() + n <= INVALID_ID,
    {
    }

    proof fn lemma_same_room(&self, before: World)
        requires
            self.registry@.infos.len() <= before.registry@.infos.len(),
            self.relations@.kinds.len() <= before.relations@.kinds.len(),
            self.storage@.entities.high_water <= before.storage@.entities.high_water + 1,
            self.storage@.archetypes.len() <= before.storage@.archetypes.len() + 1,
            forall|t: u32| #[trigger]
                self.relations.fan_in(t) <= before.relations.fan_in(t) + 1,
        ensures
            forall|n: nat| before.room(n + 1) ==> #[trigger] self.room(n),
    {
        assert forall|n: nat| before.room(n + 1) implies #[trigger] self.room(n) by {
            assert forall|t: u32| #[trigger] self.relations.fan_in(t) + n <= u32::MAX by {
                assert(before.relations.fan_in(t) + (n + 1) <= u32::MAX);
            }
        }
    }

    fn note(&mut self, anomaly: Anomaly)
        requires
            old(self).wf(),
        ensures
            final(self).wf(),
            final(self)@ == reported(old(self)@, anomaly@),
            final(self).registry == old(self).registry,
            final(self).storage == old(self).storage,
            final(self).relations == old(self).relations,
    {
        let ghost a = anomaly@;
        self.errors.count(anomaly.severity);
        self.anomalies.push(anomaly);
        assert(self@.anomalies =~= old(self)@.anomalies.push(a));
    }

    /// Counts an anomaly and keeps it until it is responded to.
    pub fn report(&mut self, anomaly: Anomaly)
        requires
            old(self).wf(),
        ensures
            final(self).wf(),
            final(self)@ == reported(old(self)@, anomaly@),
            final(self).store() == old(self).store(),
            forall|n: nat| old(self).room(n) ==> #[trigger] final(self).room(n),
    {
        self.note(anomaly);
        proof {
            self.lemma_kept_room(*old(self));
        }
    }

    /// Keeps values until they are disposed of.
    pub fn discard(&mut self, values: Vec<Discarded>)
        requires
            old(self).wf(),
        ensures
            final(self).wf(),
            final(self)@ == with_discarded(old(self)@, discard_states(values@)),
            final(self).store() == old(self).store(),
            forall|n: nat| old(self).room(n) ==> #[trigger] final(self).room(n),
    {
        let ghost more = discard_states(values@);
        let mut values: Vec<Discarded> = values;
        self.discarded.append(&mut values);
        proof {
            assert(self@.discarded =~= old(self)@.discarded + more);
            self.lemma_kept_room(*old(self));
        }
    }

    /// Takes the values that are to be disposed of, first come first.
    pub fn take_discarded(&mut self) -> (out: Vec<Discarded>)
        requires
            old(self).wf(),
        ensures
            final(self).wf(),
            discard_states(out@) == old(self)@.discarded,
            final(self)@ == (WorldState {
                discarded: Seq::<DiscardState>::empty(),
                ..old(self)@
            }),
            final(self).store() == old(self).store(),
            forall|n: nat| old(self).room(n) ==> #[trigger] final(self).room(n),
    {
        let mut out: Vec<Discarded> = Vec::new();
        out.append(&mut self.discarded);
        proof {
            assert(out@ =~= old(self).discarded@);
            assert(self@.discarded =~= Seq::<DiscardState>::empty());
            self.lemma_kept_room(*old(self));
        }
        out
    }

    /// Reports each of `parts` as dropped, and hands it back.
    fn drop_parts(&mut self, e: Entity, parts: &Vec<RawPart>)
        requires
            old(self).wf(),
            states_fit(part_states(parts@), old(self)@.registry.infos),
        ensures
            final(self).wf(),
            final(self)@ == after_drops(
                old(self)@,
                e,
                part_states(parts@),
                parts@.len(),
            ),
            final(self).registry == old(self).registry,
            final(self).storage == old(self).storage,
            final(self).relations == old(self).relations,
    {
        let ghost states = part_states(parts@);
        let mut i: usize = 0;
        while i < parts.len()
            invariant
                i <= parts@.len(),
                states == part_states(parts@),
                states_fit(states, old(self)@.registry.infos),
                self.wf(),
                self@ == after_drops(old(self)@, e, states, i as nat),
                self.registry == old(self).registry,
                self.storage == old(self).storage,
                self.relations == old(self).relations,
            decreases parts.len() - i,
        {
            assert(states[i as int] == parts@[i as int]@);
            let mut gone: Vec<Discarded> = discard_for(self, parts[i].id, parts[i].value.as_slice());
            let ghost more = discard_states(gone@);
            if let Some(info) = self.registry.get_info(parts[i].id) {
                let name: String = info.name.clone();
                self.note(
                    Anomaly {
                        severity: Severity::Warn,
                        op: "World::insert",
                        entity: Some(e),
                        component: Some(name),
                        detail: "component dropped, not inserted (entity already despawned)".to_owned(),
                    },
                );
            }
            let ghost noted = self@;
            self.discarded.append(&mut gone);
            assert(self@.discarded =~= noted.discarded + more);
            i = i + 1;
        }
    }

    /// The error handler.
    pub fn error_handler(&self) -> (h: &ErrorHandler)
        ensures
            h.spec_mode() == self@.mode,
            h.spec_counts() == self@.counts,
    {
        &self.errors
    }

    /// Sets the error handler, with the counts that it has.
    pub fn set_error_handler(&mut self, handler: ErrorHandler)
        requires
            old(self).wf(),
        ensures
            final(self).wf(),
            final(self)@ == (WorldState {
                mode: handler.spec_mode(),
                counts: handler.spec_counts(),
                ..old(self)@
            }),
            final(self).store() == old(self).store(),
            forall|n: nat| old(self).room(n) ==> #[trigger] final(self).room(n),
    {
        self.errors = handler;
        proof {
            self.lemma_kept_room(*old(self));
        }
    }

    /// Sets what is done about anomalies. The counts stay.
    pub fn set_error_mode(&mut self, mode: ErrorMode)
        requires
            old(self).wf(),
        ensures
            final(self).wf(),
            final(self)@ == (WorldState { mode, ..old(self)@ }),
            final(self).store() == old(self).store(),
            forall|n: nat| old(self).room(n) ==> #[trigger] final(self).room(n),
    {
        self.errors.set_mode(mode);
        proof {
            self.lemma_kept_room(*old(self));
        }
    }

    /// Starts counting anomalies anew.
    pub fn reset_error_counts(&mut self)
        requires
            old(self).wf(),
        ensures
            final(self).wf(),
            final(self)@ == (WorldState {
                counts: AnomalyCounts { warn: 0, error: 0 },
                ..old(self)@
            }),
            final(self).store() == old(self).store(),
            forall|n: nat| old(self).room(n) ==> #[trigger] final(self).room(n),
    {
        self.errors.reset_counts();
        proof {
            self.lemma_kept_room(*old(self));
        }
    }

    /// Takes the anomalies that were not responded to yet, first come first.
    pub fn take_anomalies(&mut self) -> (out: Vec<Anomaly>)
        requires
            old(self).wf(),
        ensures
            final(self).wf(),
            out@.map_values(|a: Anomaly| a@) == old(self)@.anomalies,
            final(self)@ == (WorldState {
                anomalies: Seq::<AnomalyState>::empty(),
                ..old(self)@
            }),
            final(self).store() == old(self).store(),
            forall|n: nat| old(self).room(n) ==> #[trigger] final(self).room(n),
    {
        let mut out: Vec<Anomaly> = Vec::new();
        out.append(&mut self.anomalies);
        assert(out@ =~= old(self).anomalies@);
        assert(self@.anomalies =~= Seq::<AnomalyState>::empty());
        proof {
            self.lemma_kept_room(*old(self));
        }
        out
    }

    /// Writes components of an entity one after the other: over what it has, or new ones. False
    /// where the entity is dead.
    pub fn insert_parts(&mut self, e: Entity, parts: &Vec<RawPart>) -> (done: bool)
        requires
            old(self).wf(),
            old(self).room(1),
            states_fit(part_states(parts@), old(self)@.registry.infos),
        ensures
            final(self).wf(),
            done == old(self)@.values.contains_key(e),
            final(self)@ == after_inserts(old(self)@, e, part_states(parts@)),
            final(self).layout() == settled(
                old(self).layout(),
                final(self)@,
                e,
            ),
            forall|n: nat| old(self).room(n + 1) ==> #[trigger] final(self).room(n),
    {
        let ghost s = self.storage@;
        let ghost infos = self.registry@.infos;
        let ghost states = part_states(parts@);
        proof {
            self.storage.lemma_wf(infos);
        }
        if !self.storage.entities().is_alive(e) {
            self.drop_parts(e, parts);
            proof {
                self.lemma_same_room(*old(self));
                assert(!self@.values.contains_key(e));
            }
            return false;
        }
        let full: Vec<RawPart> = written_with(self, e, parts);
        let due: Vec<HookEvent> = hooks_for(self, e, &full);
        let mut gone: Vec<Discarded> = discards_for(self, e, &full);
        let ghost more = discard_states(gone@);
        let list: Vec<StoredPart> = stored_parts(&full);
        let ghost given = states;
        let ghost states = part_states(full@);
        proof {
            assert forall|i: int| 0 <= i < list@.len() implies (#[trigger] list@[i]).id.0
                < infos.len() && list@[i].value@.len() == infos[list@[i].id.0 as int].size by {
                assert(states[i] == full@[i]@);
            }
        }
        self.storage.insert_parts(&self.registry, e, &list);
        self.relations.append_hooks(due);
        self.discarded.append(&mut gone);
        proof {
            assert(self@.discarded =~= old(self)@.discarded + more);
            let t = self.storage@;
            lemma_values(s, t, e);
            lemma_flat_located(s, t, e);
            lemma_flat(s.entities);
            lemma_flat(t.entities);
            let m = row_of(s, e);
            lemma_puts(m, states, list@, states.len());
            assert(row_of(t, e) =~= puts(m, states, states.len())) by {
                assert forall|c: u32| #[trigger] cell(t, e, c) == cell_in(
                    puts(m, states, states.len()),
                    c,
                ) by {
                    assert(cell(s, e, c) == cell_in(m, c));
                }
                assert forall|c: u32| #[trigger]
                    puts(m, states, states.len()).contains_key(c) <==> cell(t, e, c) is Some by {
                    assert(cell(t, e, c) == cell_in(puts(m, states, states.len()), c));
                }
            }
            assert(self@.values =~= after_inserts(old(self)@, e, given).values);
            self.lemma_same_room(*old(self));
            self.storage.lemma_wf(infos);
            lemma_ids_listed(t, infos, e);
            assert(self@.values[e] == row_of(t, e));
        }
        true
    }
}

/// The state after a component of a described type was written.
pub open spec fn after_insert(
    w: WorldState,
    e: Entity,
    desc: ComponentDesc,
    value: Seq<u8>,
) -> WorldState {
    let r = with_registry(w, after_register(w.registry, desc));
    after_inserts(
        r,
        e,
        seq![PartState { id: id_of(r.registry.infos, desc.key)->0, value, tick: w.tick }],
    )
}

/// Whether a value of a described type can be written: the description agrees with the registered
/// types on sizes, and the value has its size.
pub open spec fn desc_fits(infos: Seq<InfoView>, desc: ComponentDesc, value: Seq<u8>) -> bool {
    value.len() == desc.size && suits_types(infos, desc)
}

impl World {
    /// Writes a component of an entity, whose type is registered if it was not. False where the
    /// entity is dead.
    pub fn insert(&mut self, e: Entity, desc: &ComponentDesc, value: Vec<u8>) -> (done: bool)
        requires
            old(self).wf(),
            old(self).room(desc_count(*desc) + 1),
            desc_fits(old(self)@.registry.infos, *desc, value@),
        ensures
            final(self).wf(),
            done == old(self)@.values.contains_key(e),
            final(self)@ == after_insert(old(self)@, e, *desc, value@),
            final(self).layout() == settled(
                old(self).layout(),
                final(self)@,
                e,
            ),
            forall|n: nat|
                old(self).room(n + desc_count(*desc) + 1) ==> #[trigger] final(self).room(n),
    {
        let ghost cost = desc_count(*desc);
        let ghost r = self@.registry;
        proof {
            self.lemma_room(cost, cost + 1);
            self.lemma_wf();
            self.lemma_room_registry(cost);
            lemma_after_register(r, *desc);
            let sizes = choose|sizes: Map<u64, usize>| #[trigger]
                infos_agree(sizes, r.infos) && agrees(sizes, *desc);
            lemma_register_agrees(sizes, r, *desc);
        }
        let id: ComponentId = self.register_component(desc);
        let ghost mid = *self;
        let ghost bytes = value@;
        let mut parts: Vec<RawPart> = Vec::new();
        parts.push(RawPart { id, value, tick: self.tick });
        proof {
            assert(old(self).room(1 + cost));
            assert(self.room(1));
            let want = seq![PartState { id: id.0, value: bytes, tick: old(self)@.tick }];
            assert(part_states(parts@) =~= want);
            let infos = self@.registry.infos;
            let i = choose|i: int| 0 <= i < infos.len() && (#[trigger] infos[i]).key == desc.key;
            assert(0 <= i < infos.len() && infos[i].key == desc.key);
            lemma_id_of(infos, i);
            assert(infos[i].size == desc.size);
        }
        let done: bool = self.insert_parts(e, &parts);
        proof {
            assert forall|n: nat| old(self).room(n + cost + 1) implies #[trigger] self.room(n) by {
                assert(old(self).room((n + 1) + cost));
                assert(mid.room(n + 1));
            }
        }
        done
    }

    /// Writes a component of a registered type. False where the entity is dead.
    pub fn insert_raw(&mut self, e: Entity, id: ComponentId, value: Vec<u8>, tick: Tick) -> (done:
        bool)
        requires
            old(self).wf(),
            old(self).room(1),
            id.0 < old(self)@.registry.infos.len(),
            value@.len() == old(self)@.registry.infos[id.0 as int].size,
        ensures
            final(self).wf(),
            done == old(self)@.values.contains_key(e),
            final(self)@ == after_inserts(
                old(self)@,
                e,
                seq![PartState { id: id.0, value: value@, tick }],
            ),
            final(self).layout() == settled(old(self).layout(), final(self)@, e),
            forall|n: nat| old(self).room(n + 1) ==> #[trigger] final(self).room(n),
    {
        let ghost bytes = value@;
        let mut parts: Vec<RawPart> = Vec::new();
        parts.push(RawPart { id, value, tick });
        assert(part_states(parts@) =~= seq![PartState { id: id.0, value: bytes, tick }]);
        self.insert_parts(e, &parts)
    }

    /// Removes a component of an entity. False where the entity is dead or lacks it.
    pub fn remove_raw(&mut self, e: Entity, id: ComponentId) -> (removed: bool)
        requires
            old(self).wf(),
            old(self).room(1),
        ensures
            final(self).wf(),
            removed == (old(self)@.values.contains_key(e) && old(self)@.values[e].contains_key(
                id.0,
            )),
            final(self)@ == after_remove(old(self)@, e, id.0),
            final(self).layout() == settled(old(self).layout(), final(self)@, e),
            forall|n: nat| old(self).room(n + 1) ==> #[trigger] final(self).room(n),
    {
        let ghost s = self.storage@;
        let ghost infos = self.registry@.infos;
        proof {
            self.storage.lemma_wf(infos);
        }
        let wanted: bool = removal_is_wanted(self, id);
        let mut gone: Vec<Discarded> = match self.get(e, id) {
            Some(value) => discard_for(self, id, value),
            None => Vec::new(),
        };
        let ghost more = discard_states(gone@);
        let removed: bool = self.storage.remove_component(&self.registry, e, id);
        if removed && wanted {
            let mut due: Vec<HookEvent> = Vec::new();
            due.push(HookEvent::ComponentRemoved { component: id.0, entity: e });
            assert(due@ =~= seq![HookEvent::ComponentRemoved { component: id.0, entity: e }]);
            self.relations.append_hooks(due);
        }
        self.discarded.append(&mut gone);
        proof {
            let t = self.storage@;
            assert(self@.discarded =~= old(self)@.discarded + more);
            if !removed {
                assert(more =~= Seq::<DiscardState>::empty());
                assert(old(self)@.discarded + more =~= old(self)@.discarded);
            }
            assert(s.entities.generations.len() == s.entities.locations.len());
            lemma_values(s, t, e);
            if location_of(s.entities, e) is Some {
                lemma_flat_located(s, t, e);
                assert(row_of(t, e) =~= row_of(s, e).remove(id.0));
            } else {
                assert(cell(s, e, id.0) is None);
                assert(t == s);
            }
            lemma_flat(s.entities);
            lemma_flat(t.entities);
            assert(self@.values =~= after_remove(old(self)@, e, id.0).values);
            self.storage.lemma_wf(infos);
            if location_of(s.entities, e) is Some {
                lemma_ids_listed(t, infos, e);
                if !removed {
                    lemma_settled(s, infos, e);
                }
            } else {
                assert(!self@.values.contains_key(e));
            }
            self.lemma_same_room(*old(self));
        }
        removed
    }

    /// Removes a component of the type with the given key. False where the type is not registered,
    /// or the entity is dead or lacks the component.
    pub fn remove(&mut self, e: Entity, key: u64) -> (removed: bool)
        requires
            old(self).wf(),
            old(self).room(1),
        ensures
            final(self).wf(),
            match id_of(old(self)@.registry.infos, key) {
                Some(id) => final(self)@ == after_remove(old(self)@, e, id) && removed == (old(
                    self,
                )@.values.contains_key(e) && old(self)@.values[e].contains_key(id)),
                None => final(self)@ == old(self)@ && !removed,
            },
            final(self).layout() == settled(old(self).layout(), final(self)@, e),
            forall|n: nat| old(self).room(n + 1) ==> #[trigger] final(self).room(n),
    {
        match self.registry.get_id_by_type(key) {
            Some(id) => self.remove_raw(e, id),
            None => {
                proof {
                    self.lemma_same_room(*old(self));
                    self.lemma_settled(e);
                }
                false
            },
        }
    }

    /// The value of a component of an entity.
    pub fn get(&self, e: Entity, id: ComponentId) -> (value: Option<&[u8]>)
        requires
            self.wf(),
        ensures
            value is Some <==> self@.values.contains_key(e) && self@.values[e].contains_key(id.0),
            value matches Some(v) ==> v@ == self@.values[e][id.0].value,
    {
        self.storage.get(&self.registry, e, id)
    }

    /// The value of a component of the type with the given key.
    pub fn get_by_key(&self, e: Entity, key: u64) -> (value: Option<&[u8]>)
        requires
            self.wf(),
        ensures
            match id_of(self@.registry.infos, key) {
                Some(id) => {
                    &&& value is Some <==> self@.values.contains_key(e)
                        && self@.values[e].contains_key(id)
                    &&& value matches Some(v) ==> v@ == self@.values[e][id].value
                },
                None => value is None,
            },
    {
        match self.registry.get_id_by_type(key) {
            Some(id) => self.get(e, id),
            None => None,
        }
    }

    /// Whether an entity is alive.
    pub fn is_alive(&self, e: Entity) -> (b: bool)
        requires
            self.wf(),
        ensures
            b == self@.values.contains_key(e),
    {
        proof {
            self.storage.lemma_wf(self.registry@.infos);
        }
        self.storage.entities().is_alive(e)
    }

    /// Number of live entities.
    pub fn entity_count(&self) -> (n: usize)
        requires
            self.wf(),
        ensures
            n == located(self@.entities.locations),
    {
        proof {
            self.storage.lemma_wf(self.registry@.infos);
            lemma_flat_count(self.storage@.entities.locations);
        }
        self.storage.entities().len()
    }

    /// The current tick.
    pub fn current_tick(&self) -> (t: Tick)
        ensures
            t == self@.tick,
    {
        self.tick
    }

    /// Moves on to the next tick.
    pub fn tick(&mut self)
        requires
            old(self).wf(),
        ensures
            final(self).wf(),
            final(self)@ == (WorldState { tick: next_tick(old(self)@.tick), ..old(self)@ }),
            final(self).store() == old(self).store(),
            forall|n: nat| old(self).room(n) ==> #[trigger] final(self).room(n),
    {
        self.tick = Tick(self.tick.0.wrapping_add(1));
        proof {
            assert forall|n: nat| old(self).room(n) implies #[trigger] self.room(n) by {
                assert forall|t: u32| #[trigger] self.relations.fan_in(t) + n <= u32::MAX by {
                    assert(old(self).relations.fan_in(t) + n <= u32::MAX);
                }
            }
        }
    }

    /// Spawns an entity with the components of a bundle.
    pub fn spawn(&mut self, bundle: &Bundle) -> (e: Entity)
        requires
            old(self).wf(),
            old(self).room(bundle_cost(bundle@, bundle@.len()) + 1),
            exists|sizes: Map<u64, usize>|
                #![trigger infos_agree(sizes, old(self)@.registry.infos)]
                infos_agree(sizes, old(self)@.registry.infos) && bundle_fits(sizes, bundle@),
        ensures
            final(self).wf(),
            final(self)@ == after_spawn_bundle(old(self)@, bundle@),
            final(self).layout() == tables_with(
                old(self).layout(),
                e,
                component_list(final(self)@.values[e]),
            ),
            e == allocated(old(self)@.entities, 1)[0],
            !old(self)@.values.contains_key(e),
            final(self)@.values.contains_key(e),
            forall|n: nat|
                old(self).room(n + bundle_cost(bundle@, bundle@.len()) + 1)
                    ==> #[trigger] final(self).room(n),
    {
        let ghost cost = bundle_cost(bundle@, bundle@.len());
        proof {
            self.lemma_room(cost, cost + 1);
        }
        let parts: Vec<RawPart> = self.resolve(bundle);
        let ghost mid = *self;
        proof {
            assert(old(self).room(1 + cost));
            assert(self.room(1));
        }
        let e: Entity = self.spawn_parts(&parts);
        proof {
            assert forall|n: nat| old(self).room(n + cost + 1) implies #[trigger] self.room(n) by {
                assert(old(self).room((n + 1) + cost));
                assert(mid.room(n + 1));
            }
        }
        e
    }

    /// Spawns an entity with the given components.
    fn spawn_parts(&mut self, parts: &Vec<RawPart>) -> (e: Entity)
        requires
            old(self).wf(),
            old(self).room(1),
            states_fit(part_states(parts@), old(self)@.registry.infos),
        ensures
            final(self).wf(),
            final(self)@ == after_spawn(old(self)@, part_states(parts@)),
            final(self).layout() == tables_with(
                old(self).layout(),
                e,
                component_list(final(self)@.values[e]),
            ),
            e == allocated(old(self)@.entities, 1)[0],
            !old(self)@.values.contains_key(e),
            final(self)@.values.contains_key(e),
            forall|n: nat| old(self).room(n + 1) ==> #[trigger] final(self).room(n),
    {
        let ghost s = self.storage@;
        proof {
            self.storage.lemma_wf(self.registry@.infos);
            lemma_flat_allocate(s.entities, 1);
            law_allocate_issues_each_slot_once(s.entities, 1);
            assert(can_allocate(s.entities, 1));
        }
        let es: Vec<Entity> = self.storage.allocate_batch(&self.registry, 1);
        let ghost mid = *self;
        let ghost t = self.storage@;
        let e: Entity = es[0];
        proof {
            assert(e == allocated(s.entities, 1)[0]);
            assert(is_current(t.entities, e));
            assert(unlocated(t.entities, e.index));
            assert(values_of(t) =~= values_of(s)) by {
                assert forall|x: Entity| location_of(t.entities, x) is Some implies row_of(t, x)
                    == row_of(s, x) by {
                    assert(row_of(t, x) =~= row_of(s, x));
                }
            }
            assert(location_of(t.entities, e) is None);
            assert(location_of(s.entities, e) is None);
            assert(mid@.entities == after_allocate(old(self)@.entities, 1));
            assert(mid@.values == old(self)@.values);
            assert(held(t.entities, e.index));
        }
        self.place_parts(e, parts);
        proof {
            assert(old(self).storage@.entities.high_water + 1 >= t.entities.high_water);
            assert forall|n: nat| old(self).room(n + 1) implies #[trigger] self.room(n) by {
                assert forall|t: u32| #[trigger] self.relations.fan_in(t) + n <= u32::MAX by {
                    assert(mid.relations.fan_in(t) == old(self).relations.fan_in(t));
                    assert(old(self).relations.fan_in(t) + (n + 1) <= u32::MAX);
                }
            }
        }
        e
    }

    /// Gives components to an entity that was issued and is not alive yet.
    fn place_parts(&mut self, e: Entity, parts: &Vec<RawPart>)
        requires
            old(self).wf(),
            old(self).storage@.archetypes.len() < u32::MAX,
            is_current(old(self).storage@.entities, e),
            location_of(old(self).storage@.entities, e) is None,
            held(old(self).storage@.entities, e.index),
            states_fit(part_states(parts@), old(self)@.registry.infos),
        ensures
            final(self).wf(),
            final(self)@ == after_spawn_at(old(self)@, e, part_states(parts@)),
            final(self).layout() == tables_with(
                old(self).layout(),
                e,
                component_list(final(self)@.values[e]),
            ),
            final(self).relations@.kinds == old(self).relations@.kinds,
            forall|t: u32| #[trigger]
                final(self).relations.fan_in(t) == old(self).relations.fan_in(t),
            final(self).registry == old(self).registry,
            final(self).storage@.entities.high_water == old(self).storage@.entities.high_water,
            final(self).storage@.archetypes.len() <= old(self).storage@.archetypes.len() + 1,
    {
        let ghost s = self.storage@;
        let ghost infos = self.registry@.infos;
        let ghost states = part_states(parts@);
        let full: Vec<RawPart> = written_with(self, e, parts);
        let due: Vec<HookEvent> = hooks_for(self, e, &full);
        let mut gone: Vec<Discarded> = discards_for(self, e, &full);
        let ghost more = discard_states(gone@);
        let list: Vec<StoredPart> = stored_parts(&full);
        let ghost given = states;
        let ghost states = part_states(full@);
        proof {
            self.storage.lemma_wf(infos);
            assert(components_of(self@.values, e) == Map::<u32, CellState>::empty());
            assert forall|i: int| 0 <= i < list@.len() implies (#[trigger] list@[i]).id.0
                < infos.len() && list@[i].value@.len() == infos[list@[i].id.0 as int].size by {
                assert(states[i] == full@[i]@);
            }
        }
        self.storage.spawn_at(&self.registry, e, &list);
        self.relations.append_hooks(due);
        self.discarded.append(&mut gone);
        proof {
            assert(self@.discarded =~= old(self)@.discarded + more);
            let t = self.storage@;
            lemma_values(s, t, e);
            lemma_flat_located(s, t, e);
            lemma_flat(s.entities);
            lemma_flat(t.entities);
            law_set_location_keeps_pool_sound(flat(s.entities), e, somewhere());
            let m = Map::<u32, CellState>::empty();
            lemma_puts(m, states, list@, states.len());
            let want = puts(m, states, states.len());
            assert(row_of(t, e) =~= want) by {
                assert forall|c: u32| #[trigger] cell(t, e, c) == cell_in(want, c) by {
                    assert(cell_in(m, c) == None::<CellState>);
                }
                assert forall|c: u32| #[trigger]
                    want.contains_key(c) <==> cell(t, e, c) is Some by {
                    assert(cell(t, e, c) == cell_in(want, c));
                }
            }
            assert(self@.values =~= after_spawn_at(old(self)@, e, given).values);
            self.storage.lemma_wf(infos);
            lemma_ids_listed(t, infos, e);
            assert(self@.values[e] == row_of(t, e));
        }
    }

    /// Spawns a bundle as an entity that was reserved for it.
    pub fn spawn_reserved(&mut self, e: Entity, bundle: &Bundle)
        requires
            old(self).wf(),
            old(self).room(bundle_cost(bundle@, bundle@.len()) + 1),
            awaits(old(self)@.entities, e),
            is_current(old(self)@.entities, e),
            exists|sizes: Map<u64, usize>|
                #![trigger infos_agree(sizes, old(self)@.registry.infos)]
                infos_agree(sizes, old(self)@.registry.infos) && bundle_fits(sizes, bundle@),
        ensures
            final(self).wf(),
            final(self)@ == after_spawn_reserved(old(self)@, e, bundle@),
            final(self).layout() == tables_with(
                old(self).layout(),
                e,
                component_list(final(self)@.values[e]),
            ),
            final(self)@.values.contains_key(e),
            forall|n: nat|
                old(self).room(n + bundle_cost(bundle@, bundle@.len()) + 1)
                    ==> #[trigger] final(self).room(n),
    {
        let ghost cost = bundle_cost(bundle@, bundle@.len());
        proof {
            self.lemma_room(cost, cost + 1);
        }
        let parts: Vec<RawPart> = self.resolve(bundle);
        let ghost mid = *self;
        proof {
            assert(old(self).room(1 + cost));
            assert(self.room(1));
            self.storage.lemma_wf(self.registry@.infos);
            lemma_flat(self.storage@.entities);
            assert(self@.entities == old(self)@.entities);
            assert(unlocated(self.storage@.entities, e.index));
            assert(held(self.storage@.entities, e.index));
            assert(is_current(self.storage@.entities, e));
        }
        self.place_parts(e, &parts);
        proof {
            self.lemma_same_room(mid);
            assert forall|n: nat| old(self).room(n + cost + 1) implies #[trigger] self.room(n) by {
                assert(old(self).room((n + 1) + cost));
                assert(mid.room(n + 1));
            }
        }
    }

    /// Reconciles reservations: every issued index gets its record.
    pub fn flush_reserved(&mut self)
        requires
            old(self).wf(),
        ensures
            final(self).wf(),
            final(self)@ == (WorldState {
                entities: after_flush(old(self)@.entities),
                ..old(self)@
            }),
            final(self).store().archetypes == old(self).store().archetypes,
            forall|n: nat| old(self).room(n) ==> #[trigger] final(self).room(n),
    {
        let ghost s = self.storage@;
        proof {
            self.storage.lemma_wf(self.registry@.infos);
            lemma_flat_flush(s.entities);
            law_flush_keeps_pool_sound(s.entities);
        }
        self.storage.flush(&self.registry);
        proof {
            let t = self.storage@;
            assert(values_of(t) =~= values_of(s)) by {
                assert forall|x: Entity| location_of(t.entities, x) is Some implies row_of(t, x)
                    == row_of(s, x) by {
                    assert(row_of(t, x) =~= row_of(s, x));
                }
            }
            assert forall|n: nat| old(self).room(n) implies #[trigger] self.room(n) by {
                assert forall|t: u32| #[trigger] self.relations.fan_in(t) + n <= u32::MAX by {
                    assert(old(self).relations.fan_in(t) + n <= u32::MAX);
                }
            }
        }
    }
}

/// The tick after `t`.
pub open spec fn next_tick(t: Tick) -> Tick {
    if t.0 == u32::MAX {
        Tick(0)
    } else {
        Tick((t.0 + 1) as u32)
    }
}

proof fn lemma_flat_count(l: Seq<Option<EntityLocation>>)
    ensures
        located(
            l.map_values(
                |l: Option<EntityLocation>|
                    if l is Some {
                        Some(somewhere())
                    } else {
                        None
                    },
            ),
        ) == located(l),
    decreases l.len(),
{
    let f = l.map_values(
        |l: Option<EntityLocation>|
            if l is Some {
                Some(somewhere())
            } else {
                None
            },
    );
    if l.len() > 0 {
        lemma_flat_count(l.drop_last());
        assert(f.drop_last() =~= l.drop_last().map_values(
            |l: Option<EntityLocation>|
                if l is Some {
                    Some(somewhere())
                } else {
                    None
                },
        ));
    }
}

/// The state after the spawning of a bundle as a reserved entity, or as a new one where no
/// entity was reserved.
pub open spec fn after_spawn_one(w: WorldState, e: Entity, bundle: Seq<BundleState>) -> WorldState {
    if e.is_placeholder() {
        after_spawn_bundle(w, bundle)
    } else {
        after_spawn_reserved(w, e, bundle)
    }
}

impl World {
    /// A reserver of entity ids.
    pub fn entity_reserver(&self) -> (r: EntityReserver)
        requires
            self.wf(),
        ensures
            r.wf(),
            r@ is None,
    {
        self.storage.entities().reserver()
    }

    /// Reserves ids through a reserver.
    pub fn reserve_n(&mut self, reserver: &mut EntityReserver, n: usize) -> (es: Vec<Entity>)
        requires
            old(self).wf(),
            old(reserver).wf(),
            old(self).room(n as nat),
        ensures
            final(self).wf(),
            final(reserver).wf(),
            es@ == reserved_ids(old(reserver)@, old(self)@.entities, n as nat),
            final(reserver)@ == after_reserve(old(reserver)@, n as nat),
            final(self)@ == (WorldState {
                entities: entities_after_reserve(
                    old(reserver)@,
                    old(self)@.entities,
                    n as nat,
                ),
                ..old(self)@
            }),
            final(self).store().archetypes == old(self).store().archetypes,
            forall|m: nat| old(self).room(m + n as nat) ==> #[trigger] final(self).room(m),
    {
        let ghost s = self.storage@;
        proof {
            self.storage.lemma_wf(self.registry@.infos);
            law_draw_issues_each_slot_once(s.entities, n as nat);
            assert(drawn(flat(s.entities), n as nat) =~= drawn(s.entities, n as nat));
            assert(flat(after_draw(s.entities, n as nat)) == after_draw(
                flat(s.entities),
                n as nat,
            ));
        }
        let es: Vec<Entity> = self.storage.reserve_n(&self.registry, reserver, n);
        proof {
            let t = self.storage@;
            assert(values_of(t) =~= values_of(s)) by {
                assert forall|x: Entity| location_of(t.entities, x) is Some implies row_of(t, x)
                    == row_of(s, x) by {
                    assert(row_of(t, x) =~= row_of(s, x));
                }
            }
            assert forall|m: nat| old(self).room(m + n as nat) implies #[trigger] self.room(m) by {
                assert forall|t: u32| #[trigger] self.relations.fan_in(t) + m <= u32::MAX by {
                    assert(old(self).relations.fan_in(t) + (m + n as nat) <= u32::MAX);
                }
            }
        }
        es
    }

    /// Gives up reserved ids: they return to the pool at the next flush.
    pub fn abandon(&mut self, reserver: &EntityReserver, es: &[Entity])
        requires
            old(self).wf(),
            all_wait(old(self)@.entities, es@),
        ensures
            final(self).wf(),
            final(self)@ == (WorldState {
                entities: AllocState {
                    abandoned: old(self)@.entities.abandoned + real_indices(es@),
                    ..old(self)@.entities
                },
                ..old(self)@
            }),
            final(self).store().archetypes == old(self).store().archetypes,
            forall|n: nat| old(self).room(n) ==> #[trigger] final(self).room(n),
    {
        let ghost s = self.storage@;
        proof {
            self.storage.lemma_wf(self.registry@.infos);
            lemma_flat(s.entities);
            assert forall|i: int| 0 <= i < es@.len() implies (#[trigger] es@[i]).is_placeholder()
                || es@[i].index < s.entities.high_water by {
                assert(es@[i].is_placeholder() || awaits(flat(s.entities), es@[i]));
            }
        }
        self.storage.abandon(&self.registry, reserver, es);
        proof {
            let t = self.storage@;
            law_abandon_keeps_pool_sound(flat(s.entities), es@);
            assert(flat(t.entities).locations =~= flat(s.entities).locations);
            lemma_flat(t.entities);
            assert(values_of(t) =~= values_of(s)) by {
                assert forall|x: Entity| location_of(t.entities, x) is Some implies row_of(t, x)
                    == row_of(s, x) by {
                    assert(row_of(t, x) =~= row_of(s, x));
                }
            }
            assert forall|n: nat| old(self).room(n) implies #[trigger] self.room(n) by {
                assert forall|t: u32| #[trigger] self.relations.fan_in(t) + n <= u32::MAX by {
                    assert(old(self).relations.fan_in(t) + n <= u32::MAX);
                }
            }
        }
    }

    /// Despawns one live entity: its relations are cleared and its slot is freed. Returns the
    /// subjects that go with it.
    fn release(&mut self, e: Entity) -> (children: Vec<Entity>)
        requires
            old(self).wf(),
            alive(old(self)@.entities, e),
        ensures
            final(self).wf(),
            final(self)@ == after_release(old(self)@, e),
            final(self).layout() == tables_without(old(self).layout(), e),
            children@ == cascade_children(
                old(self)@.relations,
                e,
                old(self)@.relations.kinds.len(),
            ),
            forall|n: nat| old(self).room(n) ==> #[trigger] final(self).room(n),
    {
        let ghost s = self.storage@;
        proof {
            self.storage.lemma_wf(self.registry@.infos);
            lemma_flat(s.entities);
            assert(alive(s.entities, e));
            lemma_located_is_held(s.entities, e.index);
            law_free_keeps_pool_sound(s.entities, e);
        }
        proof {
            self.relations.lemma_wf();
            lemma_after_detach(self.relations@, e);
        }
        let due: Vec<HookEvent> = removal_hooks_for(self, e);
        let mut gone: Vec<Discarded> = removed_values_of(self, e);
        let ghost more = discard_states(gone@);
        let children: Vec<Entity> = self.relations.detach(e);
        self.storage.release(&self.registry, e);
        self.relations.append_hooks(due);
        self.discarded.append(&mut gone);
        proof {
            assert(self@.discarded =~= old(self)@.discarded + more);
            let t = self.storage@;
            lemma_values(s, t, e);
            let f = after_free(flat(s.entities), e);
            let g = flat(t.entities);
            assert forall|i: int| 0 <= i < g.locations.len() implies g.locations[i]
                == f.locations[i] by {
                let x = Entity { index: i as u32, generation: s.entities.generations[i] };
                if i != e.index {
                    assert(location_of(t.entities, x) is Some <==> location_of(
                        s.entities,
                        x,
                    ) is Some);
                } else {
                    assert(after_free(s.entities, e).locations[i] is None);
                    self.storage.lemma_wf(self.registry@.infos);
                    let y = Entity { index: i as u32, generation: t.entities.generations[i] };
                    if t.entities.locations[i] is Some {
                        assert(location_of(t.entities, y) is Some);
                        assert(location_of(s.entities, y) is Some);
                    }
                }
            }
            assert(g.locations =~= f.locations);
            assert(g == f);
            lemma_flat(t.entities);
            lemma_flat(after_free(s.entities, e));
            assert(flat(after_free(s.entities, e)).locations =~= f.locations);
            assert(pool_sound(g));
            assert forall|n: nat| old(self).room(n) implies #[trigger] self.room(n) by {
                assert forall|t: u32| #[trigger] self.relations.fan_in(t) + n <= u32::MAX by {
                    assert(old(self).relations.fan_in(t) + n <= u32::MAX);
                }
            }
        }
        children
    }

    /// Despawns an entity with everything that goes with it. False where it is dead.
    pub fn despawn(&mut self, e: Entity) -> (done: bool)
        requires
            old(self).wf(),
        ensures
            final(self).wf(),
            done == old(self)@.values.contains_key(e),
            final(self)@ == after_despawns(old(self)@, seq![e]),
            final(self).layout() == tables_after_despawns(
                old(self).layout(),
                old(self)@,
                seq![e],
            ),
            forall|n: nat| old(self).room(n) ==> #[trigger] final(self).room(n),
    {
        proof {
            self.lemma_wf();
            reveal_with_fuel(after_despawns, 2);
            reveal_with_fuel(tables_after_despawns, 2);
            assert(seq![e].drop_last() =~= Seq::<Entity>::empty());
        }
        if !self.is_alive(e) {
            return false;
        }
        let mut stack: Vec<Entity> = Vec::new();
        stack.push(e);
        assert(stack@ =~= seq![e]);
        while stack.len() > 0
            invariant
                self.wf(),
                after_despawns(self@, stack@) == after_despawns(old(self)@, seq![e]),
                tables_after_despawns(self.layout(), self@, stack@) == tables_after_despawns(
                    old(self).layout(),
                    old(self)@,
                    seq![e],
                ),
                forall|n: nat| old(self).room(n) ==> #[trigger] self.room(n),
            decreases located(self@.entities.locations), stack@.len(),
        {
            let ghost before = *self;
            let ghost all = stack@;
            let last: usize = stack.len() - 1;
            let x: Entity = stack[last];
            stack.truncate(last);
            proof {
                self.lemma_wf();
                assert(stack@ =~= all.drop_last());
                assert(x == all.last());
            }
            if self.is_alive(x) {
                let mut children: Vec<Entity> = self.release(x);
                stack.append(&mut children);
                proof {
                    lemma_located_update(before@.entities.locations, x.index as int, None);
                    assert forall|n: nat| old(self).room(n) implies #[trigger] self.room(n) by {
                        assert(before.room(n));
                    }
                }
            }
        }
        true
    }

    /// Whether hooks are due.
    pub fn hooks_due(&self) -> (b: bool)
        ensures
            b == (self@.relations.hooks.len() > 0),
    {
        self.relations.hooks_due()
    }

    /// Takes the hooks that are due, first come first.
    pub fn take_hooks(&mut self) -> (hooks: Vec<HookEvent>)
        requires
            old(self).wf(),
        ensures
            final(self).wf(),
            hooks@ == old(self)@.relations.hooks,
            final(self)@ == (WorldState {
                relations: GraphState {
                    hooks: Seq::<HookEvent>::empty(),
                    ..old(self)@.relations
                },
                ..old(self)@
            }),
            final(self).store() == old(self).store(),
            forall|n: nat| old(self).room(n) ==> #[trigger] final(self).room(n),
    {
        let hooks: Vec<HookEvent> = self.relations.take_hooks();
        proof {
            assert forall|n: nat| old(self).room(n) implies #[trigger] self.room(n) by {
                assert forall|t: u32| #[trigger] self.relations.fan_in(t) + n <= u32::MAX by {
                    assert(old(self).relations.fan_in(t) + n <= u32::MAX);
                }
            }
        }
        hooks
    }
}

/// A located slot is in use.
pub proof fn lemma_located_is_held(s: AllocState, i: u32)
    requires
        state_wf(s),
        pool_sound(s),
        i < s.locations.len(),
        s.locations[i as int] is Some,
    ensures
        held(s, i),
{
    if s.free_list.contains(i) {
        let q = choose|q: int| 0 <= q < s.free_list.len() && s.free_list[q] == i;
        assert(unlocated(s, s.free_list[q]));
    }
    if s.abandoned.contains(i) {
        let q = choose|q: int| 0 <= q < s.abandoned.len() && s.abandoned[q] == i;
        assert(unlocated(s, s.abandoned[q]));
    }
    if undrawn(s).contains(i) {
        let q = choose|q: int| 0 <= q < undrawn(s).len() && undrawn(s)[q] == i;
        assert(unlocated(s, undrawn(s)[q]));
    }
}

/// The state after a relation was asked for.
pub open spec fn after_add_relation(
    w: WorldState,
    subject: Entity,
    kind: KindInfo,
    target: Entity,
) -> WorldState {
    WorldState {
        relations: after_add(
            with_registered(w.relations, kind),
            w.entities,
            subject,
            index_with_kind(w.relations.kinds, kind),
            target,
            None,
        ),
        ..w
    }
}

/// The state after a relation was removed.
pub open spec fn after_remove_relation(
    w: WorldState,
    subject: Entity,
    key: u64,
    target: Entity,
) -> WorldState {
    match kind_index(w.relations.kinds, key) {
        Some(kind_idx) => WorldState {
            relations: edge_removed(w.relations, subject, RelationPair { kind_idx, target }),
            ..w
        },
        None => w,
    }
}

/// The state after relations of the first `n` subjects to one target were asked for.
pub open spec fn after_add_relations(
    w: WorldState,
    subjects: Seq<Entity>,
    kind: KindInfo,
    target: Entity,
    n: nat,
) -> WorldState
    decreases n,
{
    if n == 0 {
        WorldState { relations: with_registered(w.relations, kind), ..w }
    } else {
        after_add_relation(
            after_add_relations(w, subjects, kind, target, (n - 1) as nat),
            subjects[n - 1],
            kind,
            target,
        )
    }
}

/// The subjects that point at a live entity.
pub open spec fn subjects_of(w: WorldState, key: u64, parent: Entity) -> Seq<Entity> {
    match kind_index(w.relations.kinds, key) {
        Some(kind_idx) => if alive(w.entities, parent) {
            w.relations.siblings[(kind_idx, parent.index)]
        } else {
            Seq::<Entity>::empty()
        },
        None => Seq::<Entity>::empty(),
    }
}

/// The first target of a live entity.
pub open spec fn target_in(w: WorldState, subject: Entity, key: u64) -> Option<Entity> {
    match kind_index(w.relations.kinds, key) {
        Some(kind_idx) => if alive(w.entities, subject) {
            match first_pair(w.relations.pairs[subject.index], kind_idx) {
                Some(p) => Some(p.target),
                None => None,
            }
        } else {
            None
        },
        None => None,
    }
}

impl World {
    proof fn lemma_kept_room(&self, before: World)
        requires
            self.registry@.infos.len() <= before.registry@.infos.len(),
            self.relations@.kinds.len() <= before.relations@.kinds.len(),
            self.storage@.entities.high_water <= before.storage@.entities.high_water,
            self.storage@.archetypes.len() <= before.storage@.archetypes.len(),
            forall|t: u32| #[trigger] self.relations.fan_in(t) <= before.relations.fan_in(t),
        ensures
            forall|n: nat| before.room(n) ==> #[trigger] self.room(n),
    {
        assert forall|n: nat| before.room(n) implies #[trigger] self.room(n) by {
            assert forall|t: u32| #[trigger] self.relations.fan_in(t) + n <= u32::MAX by {
                assert(before.relations.fan_in(t) + n <= u32::MAX);
            }
        }
    }

    proof fn lemma_less_room(&self, before: World)
        requires
            self.registry@.infos.len() <= before.registry@.infos.len(),
            self.relations@.kinds.len() <= before.relations@.kinds.len() + 1,
            self.storage@.entities.high_water <= before.storage@.entities.high_water,
            self.storage@.archetypes.len() <= before.storage@.archetypes.len(),
            forall|t: u32| #[trigger]
                self.relations.fan_in(t) <= before.relations.fan_in(t) + 1,
        ensures
            forall|n: nat| before.room(n + 1) ==> #[trigger] self.room(n),
    {
        assert forall|n: nat| before.room(n + 1) implies #[trigger] self.room(n) by {
            assert forall|t: u32| #[trigger] self.relations.fan_in(t) + n <= u32::MAX by {
                assert(before.relations.fan_in(t) + (n + 1) <= u32::MAX);
            }
        }
    }

    /// Why a relation of a registered kind would be turned down, if it would.
    pub fn relation_refusal(&self, subject: Entity, kind_idx: u32, target: Entity) -> (r: Option<
        Refusal,
    >)
        requires
            self.wf(),
            kind_idx < self@.relations.kinds.len(),
        ensures
            r == refusal_of(self@.relations, self@.entities, subject, kind_idx, target),
    {
        proof {
            self.storage.lemma_wf(self.registry@.infos);
            lemma_flat(self.storage@.entities);
        }
        self.relations.refusal(self.storage.entities(), subject, kind_idx, target)
    }

    /// Adds a relation of a registered kind at the end of the siblings.
    pub fn add_relation_by_kind_idx(&mut self, subject: Entity, kind_idx: u32, target: Entity)
        requires
            old(self).wf(),
            old(self).room(1),
            kind_idx < old(self)@.relations.kinds.len(),
        ensures
            final(self).wf(),
            final(self).store() == old(self).store(),
            final(self)@ == (WorldState {
                relations: after_add(
                    old(self)@.relations,
                    old(self)@.entities,
                    subject,
                    kind_idx,
                    target,
                    None,
                ),
                ..old(self)@
            }),
            forall|n: nat| old(self).room(n + 1) ==> #[trigger] final(self).room(n),
    {
        proof {
            self.storage.lemma_wf(self.registry@.infos);
            self.relations.lemma_wf();
            lemma_flat(self.storage@.entities);
            assert(self.relations.fan_in(target.index) + 1 <= u32::MAX);
        }
        self.relations.add_relation_by_kind_idx(self.storage.entities(), subject, kind_idx, target);
        proof {
            self.lemma_less_room(*old(self));
        }
    }

    /// Index of a kind of relations, which is registered if it was not.
    pub fn register_relation_kind<R: RelationKind>(&mut self) -> (kind_idx: u32)
        requires
            old(self).wf(),
            old(self).room(1),
        ensures
            final(self).wf(),
            final(self).store() == old(self).store(),
            final(self)@ == (WorldState {
                relations: with_registered(old(self)@.relations, kind_of::<R>()),
                ..old(self)@
            }),
            kind_idx == index_with_kind(old(self)@.relations.kinds, kind_of::<R>()),
            kind_idx < final(self)@.relations.kinds.len(),
            forall|n: nat| old(self).room(n + 1) ==> #[trigger] final(self).room(n),
    {
        let kind_idx: u32 = self.relations.get_or_register::<R>();
        proof {
            assert(self.relations@.kinds.len() <= old(self).relations@.kinds.len() + 1);
            self.lemma_less_room(*old(self));
        }
        kind_idx
    }

    /// Sets the hook that runs after a relation of a registered kind was added. A kind has one such
    /// hook.
    pub fn set_relation_on_add(&mut self, kind_idx: u32, hook: u64)
        requires
            old(self).wf(),
            kind_idx < old(self)@.relations.kinds.len(),
            old(self)@.relations.kinds[kind_idx as int].on_add is None,
        ensures
            final(self).wf(),
            final(self).store() == old(self).store(),
            final(self)@ == (WorldState {
                relations: GraphState {
                    kinds: old(self)@.relations.kinds.update(
                        kind_idx as int,
                        (KindInfo {
                            on_add: Some(hook),
                            ..old(self)@.relations.kinds[kind_idx as int]
                        }),
                    ),
                    ..old(self)@.relations
                },
                ..old(self)@
            }),
            forall|n: nat| old(self).room(n) ==> #[trigger] final(self).room(n),
    {
        self.relations.set_on_add(kind_idx, hook);
        proof {
            self.lemma_kept_room(*old(self));
        }
    }

    /// Sets the hook that runs after a relation of a registered kind was removed. A kind has one such
    /// hook.
    pub fn set_relation_on_remove(&mut self, kind_idx: u32, hook: u64)
        requires
            old(self).wf(),
            kind_idx < old(self)@.relations.kinds.len(),
            old(self)@.relations.kinds[kind_idx as int].on_remove is None,
        ensures
            final(self).wf(),
            final(self).store() == old(self).store(),
            final(self)@ == (WorldState {
                relations: GraphState {
                    kinds: old(self)@.relations.kinds.update(
                        kind_idx as int,
                        (KindInfo {
                            on_remove: Some(hook),
                            ..old(self)@.relations.kinds[kind_idx as int]
                        }),
                    ),
                    ..old(self)@.relations
                },
                ..old(self)@
            }),
            forall|n: nat| old(self).room(n) ==> #[trigger] final(self).room(n),
    {
        self.relations.set_on_remove(kind_idx, hook);
        proof {
            self.lemma_kept_room(*old(self));
        }
    }

    /// All relations, by subject index and then by kind and target.
    pub fn iter_relations(&self) -> (out: Vec<(u32, u32, Entity)>)
        requires
            self.wf(),
        ensures
            forall|a: int, b: int|
                0 <= a < b < out@.len() ==> listed_before(
                    as_listed(#[trigger] out@[a]),
                    as_listed(#[trigger] out@[b]),
                ),
            forall|i: u32, k: u32, t: Entity| #[trigger]
                out@.contains((i, k, t)) <==> self@.relations.pairs[i].contains(
                    RelationPair { kind_idx: k, target: t },
                ),
    {
        self.relations.iter_relations()
    }

    /// All relations, by kind and target: the subjects of each target in sibling order.
    pub fn iter_relations_target_major(&self) -> (out: Vec<(Entity, u32, u32)>)
        requires
            self.wf(),
        ensures
            exists|targets: Seq<Seq<u32>>| #[trigger]
                lists_all_targets(
                    self@.relations.siblings,
                    self@.relations.kinds.len(),
                    targets,
                ) && out@ == kind_rows(self@.relations.siblings, targets),
    {
        let out: Vec<(Entity, u32, u32)> = self.relations.iter_relations_target_major();
        proof {
            let g = self.relations@;
            let targets = choose|targets: Seq<Seq<u32>>| #[trigger]
                lists_all_targets(g.siblings, g.kinds.len(), targets) && out@ == kind_rows(
                    g.siblings,
                    targets,
                );
            assert(lists_all_targets(
                self@.relations.siblings,
                self@.relations.kinds.len(),
                targets,
            ));
        }
        out
    }

    /// Adds a relation of a kind, which is registered if it was not.
    pub fn add_relation_of_kind(&mut self, subject: Entity, kind: Kind, target: Entity)
        requires
            old(self).wf(),
            old(self).room(1),
        ensures
            final(self).wf(),
            final(self).store() == old(self).store(),
            final(self)@ == after_add_relation(old(self)@, subject, kind@, target),
            forall|n: nat| old(self).room(n + 1) ==> #[trigger] final(self).room(n),
    {
        let ghost g = self.relations@;
        let ghost k = kind@;
        proof {
            self.storage.lemma_wf(self.registry@.infos);
            self.relations.lemma_wf();
            lemma_flat(self.storage@.entities);
            assert(self.relations.fan_in(target.index) + 1 <= u32::MAX);
        }
        let kind_idx: u32 = self.relations.register_kind(kind);
        let ghost mid = *self;
        assert(self.relations.fan_in(target.index) == old(self).relations.fan_in(target.index));
        self.relations.add_relation_by_kind_idx(
            self.storage.entities(),
            subject,
            kind_idx,
            target,
        );
        proof {
            lemma_add_kinds(
                with_registered(g, k),
                self.storage@.entities,
                subject,
                kind_idx,
                target,
            );
            assert forall|n: nat| old(self).room(n + 1) implies #[trigger] self.room(n) by {
                assert forall|t: u32| #[trigger] self.relations.fan_in(t) + n <= u32::MAX by {
                    assert(old(self).relations.fan_in(t) + (n + 1) <= u32::MAX);
                    assert(mid.relations.fan_in(t) == old(self).relations.fan_in(t));
                }
            }
        }
    }

    /// Adds a relation of kind `R` at the end of the siblings.
    pub fn add_relation<R: RelationKind>(&mut self, subject: Entity, kind: R, target: Entity)
        requires
            old(self).wf(),
            old(self).room(1),
        ensures
            final(self).wf(),
            final(self).store() == old(self).store(),
            final(self)@ == after_add_relation(old(self)@, subject, kind_of::<R>(), target),
            forall|n: nat| old(self).room(n + 1) ==> #[trigger] final(self).room(n),
    {
        self.add_relation_of_kind(subject, Kind::of::<R>(), target);
    }

    /// Adds relations of one kind from many subjects to one target.
    pub fn add_relation_batch_of_kind(&mut self, subjects: &Vec<Entity>, kind: Kind, target: Entity)
        requires
            old(self).wf(),
            old(self).room((subjects@.len() + 1) as nat),
        ensures
            final(self).wf(),
            final(self).store() == old(self).store(),
            final(self)@ == after_add_relations(
                old(self)@,
                subjects@,
                kind@,
                target,
                subjects@.len(),
            ),
            forall|n: nat|
                old(self).room(n + subjects@.len() + 1) ==> #[trigger] final(self).room(n),
    {
        let ghost k = kind@;
        let copy: Kind = kind.copied();
        proof {
            self.relations.lemma_wf();
            self.lemma_room(1, (subjects@.len() + 1) as nat);
        }
        let kind_idx: u32 = self.relations.register_kind(copy);
        proof {
            assert forall|n: nat| old(self).room(n + 1) implies #[trigger] self.room(n) by {
                assert forall|t: u32| #[trigger] self.relations.fan_in(t) + n <= u32::MAX by {
                    assert(old(self).relations.fan_in(t) + (n + 1) <= u32::MAX);
                }
            }
            assert(old(self).room(subjects@.len() + 1));
            assert(self.room(subjects@.len()));
        }
        let mut i: usize = 0;
        while i < subjects.len()
            invariant
                i <= subjects@.len(),
                k == kind@,
                self.wf(),
                self.store() == old(self).store(),
                self@ == after_add_relations(old(self)@, subjects@, k, target, i as nat),
                self.room((subjects@.len() - i) as nat),
                forall|n: nat| old(self).room(n + i as nat + 1) ==> #[trigger] self.room(n),
            decreases subjects.len() - i,
        {
            let ghost before = *self;
            let ghost left = (subjects@.len() - i) as nat;
            proof {
                self.lemma_room(1, left);
            }
            self.add_relation_of_kind(subjects[i], kind.copied(), target);
            i = i + 1;
            proof {
                assert(before.room((left - 1) as nat + 1));
                assert(self.room((left - 1) as nat));
                assert forall|n: nat| old(self).room(n + i as nat + 1) implies #[trigger] self.room(n) by {
                    assert(old(self).room((n + 1) + (i - 1) as nat + 1));
                    assert(before.room(n + 1));
                }
            }
        }
    }

    /// Adds relations of kind `R` from many subjects to one target.
    pub fn add_relation_batch<R: RelationKind>(
        &mut self,
        subjects: &Vec<Entity>,
        kind: R,
        target: Entity,
    )
        requires
            old(self).wf(),
            old(self).room((subjects@.len() + 1) as nat),
        ensures
            final(self).wf(),
            final(self).store() == old(self).store(),
            final(self)@ == after_add_relations(
                old(self)@,
                subjects@,
                kind_of::<R>(),
                target,
                subjects@.len(),
            ),
            forall|n: nat|
                old(self).room(n + subjects@.len() + 1) ==> #[trigger] final(self).room(n),
    {
        self.add_relation_batch_of_kind(subjects, Kind::of::<R>(), target);
    }

    /// Removes a relation of the kind with the given key.
    pub fn remove_relation_by_key(&mut self, subject: Entity, key: u64, target: Entity)
        requires
            old(self).wf(),
        ensures
            final(self).wf(),
            final(self).store() == old(self).store(),
            final(self)@ == after_remove_relation(old(self)@, subject, key, target),
            forall|n: nat| old(self).room(n) ==> #[trigger] final(self).room(n),
    {
        if let Some(kind_idx) = self.relations.kind_idx_by_key(key) {
            self.relations.remove_relation_by_kind_idx(subject, kind_idx, target);
        }
        proof {
            self.lemma_kept_room(*old(self));
        }
    }

    /// Removes a relation of kind `R`.
    pub fn remove_relation<R: RelationKind>(&mut self, subject: Entity, kind: R, target: Entity)
        requires
            old(self).wf(),
        ensures
            final(self).wf(),
            final(self).store() == old(self).store(),
            final(self)@ == after_remove_relation(
                old(self)@,
                subject,
                R::spec_kind_key(),
                target,
            ),
            forall|n: nat| old(self).room(n) ==> #[trigger] final(self).room(n),
    {
        self.remove_relation_by_key(subject, R::kind_key(), target);
    }

    /// Sees to it that the relation exists at `index` of the siblings.
    pub fn insert_relation_at<R: RelationKind>(
        &mut self,
        subject: Entity,
        kind: R,
        target: Entity,
        index: usize,
    )
        requires
            old(self).wf(),
            old(self).room(1),
        ensures
            final(self).wf(),
            final(self).store() == old(self).store(),
            final(self)@ == ({
                let s = with_registered(old(self)@.relations, kind_of::<R>());
                let kind_idx = index_with_kind(old(self)@.relations.kinds, kind_of::<R>());
                WorldState {
                    relations: if related(s, old(self)@.entities, subject, kind_idx, target) {
                        sibling_moved(s, kind_idx, target.index, subject, index as nat)
                    } else {
                        after_add(
                            s,
                            old(self)@.entities,
                            subject,
                            kind_idx,
                            target,
                            Some(index),
                        )
                    },
                    ..old(self)@
                }
            }),
            forall|n: nat| old(self).room(n + 1) ==> #[trigger] final(self).room(n),
    {
        proof {
            self.storage.lemma_wf(self.registry@.infos);
            self.relations.lemma_wf();
            lemma_flat(self.storage@.entities);
            assert(self.relations.fan_in(target.index) + 1 <= u32::MAX);
        }
        self.relations.insert_relation_at(self.storage.entities(), subject, kind, target, index);
        proof {
            assert(self.relations@.kinds.len() <= old(self).relations@.kinds.len() + 1);
            self.lemma_less_room(*old(self));
        }
    }

    /// Moves a subject to `index` among its siblings. False where there is no such relation.
    pub fn set_relation_index<R: RelationKind>(
        &mut self,
        subject: Entity,
        kind: R,
        target: Entity,
        index: usize,
    ) -> (moved: bool)
        requires
            old(self).wf(),
        ensures
            final(self).wf(),
            final(self).store() == old(self).store(),
            match kind_index(old(self)@.relations.kinds, R::spec_kind_key()) {
                Some(kind_idx) => if related(
                    old(self)@.relations,
                    old(self)@.entities,
                    subject,
                    kind_idx,
                    target,
                ) {
                    moved == old(self)@.relations.siblings[(kind_idx, target.index)].contains(
                        subject,
                    ) && final(self)@ == (WorldState {
                        relations: sibling_moved(
                            old(self)@.relations,
                            kind_idx,
                            target.index,
                            subject,
                            index as nat,
                        ),
                        ..old(self)@
                    })
                } else {
                    !moved && final(self)@ == old(self)@
                },
                None => !moved && final(self)@ == old(self)@,
            },
            forall|n: nat| old(self).room(n) ==> #[trigger] final(self).room(n),
    {
        proof {
            self.storage.lemma_wf(self.registry@.infos);
            lemma_flat(self.storage@.entities);
        }
        let moved: bool = self.relations.set_relation_index(
            self.storage.entities(),
            subject,
            kind,
            target,
            index,
        );
        proof {
            self.lemma_kept_room(*old(self));
        }
        moved
    }

    /// Position of a subject among its siblings.
    pub fn relation_index<R: RelationKind>(&self, subject: Entity, kind: R, target: Entity) -> (pos:
        Option<usize>)
        requires
            self.wf(),
        ensures
            match kind_index(self@.relations.kinds, R::spec_kind_key()) {
                Some(kind_idx) => {
                    let list = self@.relations.siblings[(kind_idx, target.index)];
                    &&& pos is Some <==> related(
                        self@.relations,
                        self@.entities,
                        subject,
                        kind_idx,
                        target,
                    ) && list.contains(subject)
                    &&& pos matches Some(i) ==> i == place_of(list, subject)
                },
                None => pos is None,
            },
    {
        proof {
            self.storage.lemma_wf(self.registry@.infos);
            lemma_flat(self.storage@.entities);
        }
        self.relations.relation_index(self.storage.entities(), subject, kind, target)
    }

    /// Whether a live subject has the relation.
    pub fn has_relation<R: RelationKind>(&self, subject: Entity, kind: R, target: Entity) -> (b:
        bool)
        requires
            self.wf(),
        ensures
            b == (alive(self@.entities, subject) && match kind_index(
                self@.relations.kinds,
                R::spec_kind_key(),
            ) {
                Some(kind_idx) => self@.relations.pairs[subject.index].contains(
                    RelationPair { kind_idx, target },
                ),
                None => false,
            }),
    {
        proof {
            self.storage.lemma_wf(self.registry@.infos);
            lemma_flat(self.storage@.entities);
        }
        self.relations.has_relation(self.storage.entities(), subject, kind, target)
    }

    /// The subjects that point at a live `parent`, in sibling order.
    pub fn targets_of<R: RelationKind>(&self, kind: R, parent: Entity) -> (out: Vec<Entity>)
        requires
            self.wf(),
        ensures
            out@ == subjects_of(self@, R::spec_kind_key(), parent),
    {
        proof {
            self.storage.lemma_wf(self.registry@.infos);
            lemma_flat(self.storage@.entities);
        }
        self.relations.targets_of(self.storage.entities(), kind, parent)
    }

    /// The first target of a live subject.
    pub fn target_of<R: RelationKind>(&self, subject: Entity, kind: R) -> (target: Option<Entity>)
        requires
            self.wf(),
        ensures
            target == target_in(self@, subject, R::spec_kind_key()),
    {
        proof {
            self.storage.lemma_wf(self.registry@.infos);
            lemma_flat(self.storage@.entities);
        }
        self.relations.target_of(self.storage.entities(), subject, kind)
    }

    /// The relation graph.
    pub fn relation_graph(&self) -> (g: &RelationGraph)
        requires
            self.wf(),
        ensures
            g.wf(),
            g@ == self@.relations,
    {
        &self.relations
    }
}

/// Adding a relation leaves the kinds.
proof fn lemma_add_kinds(
    s: GraphState,
    entities: AllocState,
    subject: Entity,
    kind_idx: u32,
    target: Entity,
)
    ensures
        after_add(s, entities, subject, kind_idx, target, None).kinds == s.kinds,
{
}

/// Whether an id waits for its entity and is the current handle of its slot.
pub open spec fn ready(s: AllocState, e: Entity) -> bool {
    awaits(s, e) && is_current(s, e)
}

/// Whether the ids from `from` on are ready, each once; placeholders do not count.
pub open spec fn all_ready(s: AllocState, es: Seq<Entity>, from: int) -> bool {
    &&& forall|i: int|
        from <= i < es.len() ==> (#[trigger] es[i]).is_placeholder() || ready(s, es[i])
    &&& forall|i: int, j: int|
        from <= i < j < es.len() && !es[i].is_placeholder() && !es[j].is_placeholder() ==> (
        #[trigger] es[i]).index != (#[trigger] es[j]).index
}

/// The state after bundles were spawned one after the other.
pub open spec fn after_spawn_all(
    w: WorldState,
    es: Seq<Entity>,
    bundles: Seq<Seq<BundleState>>,
    n: nat,
) -> WorldState
    decreases n,
{
    if n == 0 {
        w
    } else {
        after_spawn_one(
            after_spawn_all(w, es, bundles, (n - 1) as nat),
            es[n - 1],
            bundles[n - 1],
        )
    }
}

/// The entity as which a bundle is spawned: the one reserved for it, or a new one.
pub open spec fn spawned_as(w: WorldState, e: Entity) -> Entity {
    if e.is_placeholder() {
        allocated(w.entities, 1)[0]
    } else {
        e
    }
}

/// The layout after bundles were spawned one after the other.
pub open spec fn tables_after_spawns(
    t: Seq<Table>,
    w: WorldState,
    es: Seq<Entity>,
    bundles: Seq<Seq<BundleState>>,
    n: nat,
) -> Seq<Table>
    decreases n,
{
    if n == 0 {
        t
    } else {
        let e = spawned_as(after_spawn_all(w, es, bundles, (n - 1) as nat), es[n - 1]);
        tables_with(
            tables_after_spawns(t, w, es, bundles, (n - 1) as nat),
            e,
            component_list(after_spawn_all(w, es, bundles, n).values[e]),
        )
    }
}

/// Whether two bundles hold components of the same types in the same order.
pub open spec fn same_types(a: Seq<BundleState>, b: Seq<BundleState>) -> bool {
    a.len() == b.len() && forall|i: int|
        0 <= i < a.len() ==> (#[trigger] a[i]).desc.key == b[i].desc.key
}

/// The contents of bundles.
pub open spec fn bundle_states(bundles: Seq<Bundle>) -> Seq<Seq<BundleState>> {
    bundles.map_values(|b: Bundle| b@)
}

proof fn lemma_known_types(r: RegistryState, bundle: Seq<BundleState>, n: nat)
    requires
        n <= bundle.len(),
        forall|i: int|
            0 <= i < bundle.len() ==> id_of(r.infos, (#[trigger] bundle[i]).desc.key) is Some,
    ensures
        after_registers(r, bundle, n) == r,
    decreases n,
{
    if n > 0 {
        lemma_known_types(r, bundle, (n - 1) as nat);
        assert(id_of(r.infos, bundle[n - 1].desc.key) is Some);
    }
}

/// Ids that are ready stay so while other entities come to life.
pub proof fn lemma_ready_kept(s: AllocState, x: Entity, e: Entity)
    requires
        state_wf(s),
        pool_sound(s),
        ready(s, x),
    ensures
        can_allocate(s, 1) ==> ready(
            after_set_location(after_allocate(s, 1), allocated(s, 1)[0], somewhere()),
            x,
        ),
        e.index != x.index ==> ready(after_set_location(s, e, somewhere()), x),
        e.index != x.index ==> ready(after_free(s, e), x),
{
    if e.index != x.index {
        law_waiting_is_undisturbed(s, x, e, somewhere());
    }
    if can_allocate(s, 1) {
        law_allocate_issues_each_slot_once(s, 1);
        law_held_stays_held(s, 1, x);
        let y = allocated(s, 1)[0];
        assert(!held(s, y.index));
        law_waiting_is_undisturbed(after_allocate(s, 1), x, y, somewhere());
    }
}

impl World {
    /// Spawns bundles of the same types one after the other: each as the entity that was reserved
    /// for it, or as a new one where that is a placeholder. The types are looked up once.
    #[verifier::rlimit(60)]
    pub fn spawn_bundles_bulk(&mut self, es: &Vec<Entity>, bundles: &Vec<Bundle>)
        requires
            old(self).wf(),
            es@.len() == bundles@.len(),
            bundles@.len() > 0 ==> old(self).room(
                bundle_cost(bundles@[0]@, bundles@[0]@.len()) + bundles@.len(),
            ),
            forall|i: int|
                0 <= i < bundles@.len() ==> same_types(bundles@[0]@, (#[trigger] bundles@[i])@),
            all_ready(old(self)@.entities, es@, 0),
            exists|sizes: Map<u64, usize>|
                #![trigger infos_agree(sizes, old(self)@.registry.infos)]
                infos_agree(sizes, old(self)@.registry.infos) && forall|i: int|
                    0 <= i < bundles@.len() ==> bundle_fits(sizes, (#[trigger] bundles@[i])@),
        ensures
            final(self).wf(),
            final(self)@ == after_spawn_all(
                old(self)@,
                es@,
                bundle_states(bundles@),
                bundles@.len(),
            ),
            final(self).layout() == tables_after_spawns(
                old(self).layout(),
                old(self)@,
                es@,
                bundle_states(bundles@),
                bundles@.len(),
            ),
            bundles@.len() > 0 ==> forall|n: nat|
                old(self).room(
                    n + bundle_cost(bundles@[0]@, bundles@[0]@.len()) + bundles@.len(),
                ) ==> #[trigger] final(self).room(n),
            bundles@.len() == 0 ==> forall|n: nat|
                old(self).room(n) ==> #[trigger] final(self).room(n),
    {
        if bundles.len() == 0 {
            return ;
        }
        let ghost sizes = choose|sizes: Map<u64, usize>|
            #![trigger infos_agree(sizes, old(self)@.registry.infos)]
            infos_agree(sizes, old(self)@.registry.infos) && forall|i: int|
                0 <= i < bundles@.len() ==> bundle_fits(sizes, (#[trigger] bundles@[i])@);
        let ghost w = self@;
        let ghost states = bundle_states(bundles@);
        let ghost first = bundles@[0]@;
        let ghost cost = bundle_cost(first, first.len());
        let total: usize = bundles.len();
        proof {
            self.lemma_wf();
            self.lemma_room(cost, cost + total as nat);
            self.lemma_room_registry(cost);
            lemma_after_registers(sizes, w.registry, first, first.len());
        }
        let head: Vec<RawPart> = self.resolve(&bundles[0]);
        let ghost infos = self@.registry.infos;
        let ghost reg = self@.registry;
        proof {
            assert(part_states(head@).len() == head@.len());
            assert(old(self).room(total as nat + cost));
            assert(self.room(total as nat));
            assert(after_spawn_all(w, es@, states, 0) == w);
            assert forall|n: nat| old(self).room(n + 0 + cost) implies #[trigger] self.room(n) by {
                assert(old(self).room(n + cost));
            }
        }
        let mut i: usize = 0;
        while i < bundles.len()
            invariant
                i <= total == bundles@.len() == es@.len(),
                total > 0,
                self.wf(),
                w == old(self)@,
                states == bundle_states(bundles@),
                first == bundles@[0]@,
                reg == after_registers(w.registry, first, first.len()),
                infos == reg.infos,
                infos_wf(infos),
                infos_agree(sizes, infos),
                self@.registry == reg,
                part_states(head@) == bundle_parts(infos, first, w.tick),
                head@.len() == first.len(),
                self@.tick == w.tick,
                i == 0 ==> self@ == with_bundle(w, first),
                i > 0 ==> self@ == after_spawn_all(w, es@, states, i as nat),
                self.layout() == tables_after_spawns(
                    old(self).layout(),
                    w,
                    es@,
                    states,
                    i as nat,
                ),
                self.room((total - i) as nat),
                all_ready(self@.entities, es@, i as int),
                cost == bundle_cost(first, first.len()),
                forall|n: nat| old(self).room(n + i as nat + cost) ==> #[trigger] self.room(n),
                forall|k: int|
                    0 <= k < bundles@.len() ==> same_types(first, (#[trigger] bundles@[k])@)
                        && bundle_fits(sizes, bundles@[k]@),
                forall|k: int|
                    0 <= k < first.len() ==> id_of(infos, (#[trigger] first[k]).desc.key) is Some,
            decreases bundles.len() - i,
        {
            let ghost before = *self;
            let ghost cur = bundles@[i as int]@;
            let ghost prev = after_spawn_all(w, es@, states, i as nat);
            assert(same_types(first, cur));
            let parts: Vec<RawPart> = with_values(&head, &bundles[i]);
            let e: Entity = es[i];
            proof {
                self.lemma_wf();
                let left = (total - i) as nat;
                self.lemma_room(1, left);
                assert(states[i as int] == cur);
                assert forall|k: int| 0 <= k < cur.len() implies id_of(
                    infos,
                    (#[trigger] cur[k]).desc.key,
                ) is Some by {
                    assert(first[k].desc.key == cur[k].desc.key);
                }
                lemma_known_types(reg, cur, cur.len());
                if i == 0 {
                    assert(with_bundle(prev, cur) == with_bundle(w, first)) by {
                        assert(cur == first);
                    }
                } else {
                    assert(with_bundle(prev, cur) == prev);
                }
                assert(with_bundle(prev, cur) == self@);
                lemma_bundle_parts_fit(sizes, infos, cur, w.tick);
                assert(part_states(parts@) =~= bundle_parts(infos, cur, w.tick)) by {
                    assert forall|k: int| 0 <= k < cur.len() implies part_states(parts@)[k]
                        == bundle_parts(infos, cur, w.tick)[k] by {
                        assert(first[k].desc.key == cur[k].desc.key);
                        assert(part_states(head@)[k] == head@[k]@);
                        assert(part_states(parts@)[k] == parts@[k]@);
                    }
                }
                lemma_flat(self.storage@.entities);
                self.storage.lemma_wf(self.registry@.infos);
            }
            if e.index == u32::MAX && e.generation == u32::MAX {
                let new: Entity = self.spawn_parts(&parts);
                proof {
                    assert forall|k: int| i < k < es@.len() implies (
                    #[trigger] es@[k]).is_placeholder() || ready(self@.entities, es@[k]) by {
                        if !es@[k].is_placeholder() {
                            before.lemma_can_allocate();
                            lemma_ready_kept(before@.entities, es@[k], e);
                        }
                    }
                }
            } else {
                proof {
                    assert(ready(before@.entities, e));
                    assert(unlocated(self.storage@.entities, e.index));
                    assert(held(self.storage@.entities, e.index));
                    assert(is_current(self.storage@.entities, e));
                }
                self.place_parts(e, &parts);
                proof {
                    self.lemma_same_room(before);
                    assert forall|k: int| i < k < es@.len() implies (
                    #[trigger] es@[k]).is_placeholder() || ready(self@.entities, es@[k]) by {
                        if !es@[k].is_placeholder() {
                            assert(es@[i as int].index != es@[k].index);
                            lemma_ready_kept(before@.entities, es@[k], e);
                        }
                    }
                }
            }
            i = i + 1;
            proof {
                assert(after_spawn_all(w, es@, states, i as nat) == after_spawn_one(prev, e, cur));
                assert(self@ == after_spawn_all(w, es@, states, i as nat));
                assert(prev.entities == before@.entities);
                let left = (total - i) as nat;
                assert(before.room(left + 1));
                assert(self.room(left));
                assert forall|n: nat|
                    old(self).room(n + i as nat + cost) implies #[trigger] self.room(n) by {
                    assert(old(self).room((n + 1) + (i - 1) as nat + cost));
                    assert(before.room(n + 1));
                }
            }
        }
        proof {
            assert forall|n: nat|
                old(self).room(n + cost + bundles@.len()) implies #[trigger] self.room(n) by {
                assert(old(self).room(n + total as nat + cost));
            }
        }
    }

    proof fn lemma_can_allocate(&self)
        requires
            self.wf(),
            self.room(1),
        ensures
            can_allocate(self@.entities, 1),
    {
        self.storage.lemma_wf(self.registry@.infos);
        lemma_flat_allocate(self.storage@.entities, 1);
    }
}

/// Parts of the types and ticks of `head` with the values of a bundle.
fn with_values(head: &Vec<RawPart>, bundle: &Bundle) -> (parts: Vec<RawPart>)
    requires
        head@.len() == bundle@.len(),
    ensures
        parts@.len() == head@.len(),
        forall|k: int|
            0 <= k < parts@.len() ==> (#[trigger] parts@[k]).id == head@[k].id && parts@[k].tick
                == head@[k].tick && parts@[k].value@ == bundle@[k].value,
{
    let mut parts: Vec<RawPart> = Vec::new();
    let mut k: usize = 0;
    while k < head.len()
        invariant
            k <= head@.len() == bundle@.len(),
            parts@.len() == k,
            forall|j: int|
                0 <= j < k ==> (#[trigger] parts@[j]).id == head@[j].id && parts@[j].tick
                    == head@[j].tick && parts@[j].value@ == bundle@[j].value,
        decreases head.len() - k,
    {
        parts.push(
            RawPart {
                id: head[k].id,
                value: bytes_of(bundle.parts[k].value.as_slice()),
                tick: head[k].tick,
            },
        );
        k = k + 1;
    }
    parts
}

/// The queue with one more event sent.
pub open spec fn with_sent(q: EventsState<Vec<u8>>, event: Vec<u8>) -> EventsState<Vec<u8>> {
    EventsState { pending: q.pending.push(event), ..q }
}

/// Whether every queue can be updated: what it holds stays within what a queue can hold.
pub open spec fn queues_fit(m: Map<u64, EventsState<Vec<u8>>>) -> bool {
    forall|k: u64| #[trigger] m.contains_key(k) ==> fits(m[k])
}

impl World {
    /// Registers an event type, unless it is registered.
    pub fn add_event(&mut self, key: u64)
        requires
            old(self).wf(),
        ensures
            final(self).wf(),
            final(self)@ == (WorldState { events: with_queue(old(self)@.events, key), ..old(self)@ }),
            final(self).store() == old(self).store(),
            forall|n: nat| old(self).room(n) ==> #[trigger] final(self).room(n),
    {
        self.events.register(key);
        proof {
            self.lemma_kept_room(*old(self));
        }
    }

    /// Sends an event; its type is registered if it was not.
    pub fn send_event(&mut self, key: u64, event: Vec<u8>)
        requires
            old(self).wf(),
        ensures
            final(self).wf(),
            final(self)@ == (WorldState {
                events: ({
                    let m = with_queue(old(self)@.events, key);
                    m.insert(key, with_sent(m[key], event))
                }),
                ..old(self)@
            }),
            final(self).store() == old(self).store(),
            forall|n: nat| old(self).room(n) ==> #[trigger] final(self).room(n),
    {
        let q: &mut Events<Vec<u8>> = self.events.get_or_register_mut(key);
        q.send(event);
        proof {
            self.lemma_kept_room(*old(self));
        }
    }

    /// The queue of a registered event type.
    pub fn events(&self, key: u64) -> (q: &Events<Vec<u8>>)
        requires
            self.wf(),
            self@.events.contains_key(key),
        ensures
            q.wf(),
            q@ == self@.events[key],
    {
        self.events.get(key)
    }

    /// The queue of a registered event type for change.
    pub fn events_mut(&mut self, key: u64) -> (q: &mut Events<Vec<u8>>)
        requires
            old(self).wf(),
            old(self)@.events.contains_key(key),
        ensures
            q.wf(),
            q@ == old(self)@.events[key],
            final(q).wf() ==> final(self).wf(),
            final(self)@ == (WorldState {
                events: old(self)@.events.insert(key, final(q)@),
                ..old(self)@
            }),
            final(self).store() == old(self).store(),
            forall|n: nat| old(self).room(n) ==> #[trigger] final(self).room(n),
    {
        self.events.get_mut(key)
    }

    /// Makes what was sent readable, in every queue.
    pub fn flush_all_events(&mut self)
        requires
            old(self).wf(),
            queues_fit(old(self)@.events),
        ensures
            final(self).wf(),
            final(self)@ == (WorldState {
                events: old(self)@.events.map_values(
                    |q: EventsState<Vec<u8>>| after_update(q),
                ),
                ..old(self)@
            }),
            final(self).store() == old(self).store(),
            forall|n: nat| old(self).room(n) ==> #[trigger] final(self).room(n),
    {
        self.events.flush_all();
        proof {
            self.lemma_kept_room(*old(self));
        }
    }

    /// Ends a frame: makes what was sent readable, and moves on to the next tick.
    pub fn advance_frame(&mut self)
        requires
            old(self).wf(),
            queues_fit(old(self)@.events),
        ensures
            final(self).wf(),
            final(self)@ == (WorldState {
                events: old(self)@.events.map_values(
                    |q: EventsState<Vec<u8>>| after_update(q),
                ),
                tick: next_tick(old(self)@.tick),
                ..old(self)@
            }),
            final(self).store() == old(self).store(),
            forall|n: nat| old(self).room(n) ==> #[trigger] final(self).room(n),
    {
        self.flush_all_events();
        self.tick();
    }

    /// Sets a resource: a change at the current tick.
    pub fn insert_resource(&mut self, key: u64, value: Vec<u8>)
        requires
            old(self).wf(),
        ensures
            final(self).wf(),
            final(self)@ == (WorldState {
                resources: with_resource(
                    old(self)@.resources,
                    key,
                    value,
                    old(self)@.tick,
                ),
                ..old(self)@
            }),
            final(self).store() == old(self).store(),
            forall|n: nat| old(self).room(n) ==> #[trigger] final(self).room(n),
    {
        self.resources.insert(key, value, self.tick);
        proof {
            self.lemma_kept_room(*old(self));
        }
    }

    /// The resources.
    pub fn resources(&self) -> (r: &Resources<Vec<u8>>)
        ensures
            r@ == self@.resources,
    {
        &self.resources
    }
}

/// The components of the entity in a row.
pub open spec fn row_cells(a: ArchState, row: int) -> Map<u32, CellState> {
    Map::new(|c: u32| cell_at(a, row, c) is Some, |c: u32| cell_at(a, row, c)->0)
}

/// The state with a component overwritten that a live entity has.
pub open spec fn after_write(
    w: WorldState,
    e: Entity,
    id: u32,
    value: Seq<u8>,
    tick: Tick,
) -> WorldState {
    WorldState {
        values: w.values.insert(
            e,
            w.values[e].insert(
                id,
                CellState { value, changed: tick, added: w.values[e][id].added },
            ),
        ),
        ..w
    }
}

/// The part of `data` that belongs to row `i`.
pub open spec fn piece(data: Seq<u8>, size: nat, i: int) -> Seq<u8> {
    data.subrange(i * size, i * size + size)
}

/// The state with a component of the first `n` of `rows` overwritten, each with its piece of
/// `data`.
pub open spec fn after_writes(
    w: WorldState,
    rows: Seq<Entity>,
    id: u32,
    size: nat,
    data: Seq<u8>,
    tick: Tick,
    n: nat,
) -> WorldState
    decreases n,
{
    if n == 0 {
        w
    } else {
        after_write(
            after_writes(w, rows, id, size, data, tick, (n - 1) as nat),
            rows[n - 1],
            id,
            piece(data, size, n - 1),
            tick,
        )
    }
}

impl World {
    /// State of the storage: where the components are kept.
    pub closed spec fn store(&self) -> StoreState {
        self.storage@
    }

    /// Which entities are in which rows of which archetypes.
    pub open spec fn layout(&self) -> Seq<Table> {
        tables(self.store().archetypes)
    }

    /// What the storage has to do with the world's state.
    pub proof fn lemma_store(&self)
        requires
            self.wf(),
        ensures
            store_wf(self.store(), self@.registry.infos),
            self@.values == values_of(self.store()),
            self@.entities == flat(self.store().entities),
    {
        self.storage.lemma_wf(self.registry@.infos);
    }

    /// The storage.
    pub fn storage(&self) -> (s: &Storage)
        requires
            self.wf(),
        ensures
            s.wf(self@.registry.infos),
            s@ == self.store(),
    {
        &self.storage
    }

    /// Number of archetypes.
    pub fn archetype_count(&self) -> (n: usize)
        ensures
            n == self.store().archetypes.len(),
    {
        self.storage.archetype_count()
    }

    /// Where a live entity is kept.
    pub fn location(&self, e: Entity) -> (loc: Option<EntityLocation>)
        requires
            self.wf(),
        ensures
            loc == location_of(self.store().entities, e),
            loc is Some <==> self@.values.contains_key(e),
    {
        self.storage.entities().get_location(e)
    }

    /// Overwrites a component of a live entity.
    pub fn write_cell(&mut self, e: Entity, id: ComponentId, value: &[u8], tick: Tick)
        requires
            old(self).wf(),
            old(self)@.values.contains_key(e),
            old(self)@.values[e].contains_key(id.0),
            value@.len() == old(self)@.values[e][id.0].value.len(),
        ensures
            final(self).wf(),
            final(self)@ == after_write(old(self)@, e, id.0, value@, tick),
            final(self).layout() == old(self).layout(),
            forall|n: nat| #[trigger] final(self).room(n) == old(self).room(n),
    {
        let ghost s = self.storage@;
        let ghost infos = self.registry@.infos;
        proof {
            self.storage.lemma_wf(infos);
            let loc = location_of(s.entities, e)->0;
            let a = s.archetypes[loc.archetype_id.0 as int];
            assert(row_of(s, e).contains_key(id.0));
            assert(cell(s, e, id.0) is Some);
            let i = column_of(a, id.0)->0;
            assert(a.ids.contains(id.0));
            assert(a.ids[i] == id.0);
            assert(arch_ok(a, loc.archetype_id.0 as int, infos));
            assert(column_wf(a.columns[i]));
            assert(a.columns[i].rows.len() == a.entities.len());
            assert(a.columns[i].rows[loc.row as int].len() == a.columns[i].item_size);
        }
        self.storage.overwrite(&self.registry, e, id, value, tick);
        proof {
            let t = self.storage@;
            lemma_values(s, t, e);
            assert(row_of(t, e) =~= row_of(s, e).insert(
                id.0,
                CellState { value: value@, changed: tick, added: row_of(s, e)[id.0].added },
            )) by {
                assert forall|c: u32| #[trigger] cell(t, e, c) == if c == id.0 {
                    Some(
                        CellState {
                            value: value@,
                            changed: tick,
                            added: cell(s, e, id.0)->0.added,
                        },
                    )
                } else {
                    cell(s, e, c)
                } by {
                }
            }
            assert(self@ == after_write(old(self)@, e, id.0, value@, tick));
            assert(self.relations == old(self).relations);
            assert forall|n: nat| #[trigger] self.room(n) == old(self).room(n) by {
                assert forall|x: u32| #[trigger] self.relations.fan_in(x) == old(
                    self,
                ).relations.fan_in(x) by {
                }
            }
        }
    }
}

impl World {
    /// When a component of a live entity was last changed.
    pub fn changed_tick(&self, e: Entity, id: ComponentId) -> (t: Tick)
        requires
            self.wf(),
            self@.values.contains_key(e),
            self@.values[e].contains_key(id.0),
        ensures
            t == self@.values[e][id.0].changed,
    {
        proof {
            self.lemma_store();
        }
        let ghost s = self.storage@;
        match self.location(e) {
            Some(loc) => {
                let ghost a = s.archetypes[loc.archetype_id.0 as int];
                let arch = self.storage.archetype(loc.archetype_id.0 as usize);
                proof {
                    assert(row_of(s, e).contains_key(id.0));
                    assert(arch_ok(a, loc.archetype_id.0 as int, self@.registry.infos));
                    let c = column_of(a, id.0)->0;
                    assert(a.ids.contains(id.0));
                    assert(column_wf(a.columns[c]));
                    assert(a.columns[c].rows.len() == a.entities.len());
                }
                match arch.change_tick_of(loc.row as usize, id) {
                    Some(t) => t,
                    None => Tick(0),
                }
            },
            None => Tick(0),
        }
    }
}

impl World {
    /// Number of the component type with this full name.
    pub fn component_id_by_name(&self, name: &str) -> (id: Option<ComponentId>)
        requires
            self.wf(),
        ensures
            match id {
                Some(i) => first_full(self@.registry.infos, name@, 0) < self@.registry.infos.len()
                    && self@.registry.infos[first_full(self@.registry.infos, name@, 0) as int].id
                    == i.0,
                None => first_full(self@.registry.infos, name@, 0) == self@.registry.infos.len(),
            },
    {
        self.registry.id_by_full_name(name)
    }

    /// Whether a live subject has a relation of the kind: to `target`, or to any where that is
    /// `None`.
    pub fn subject_has_relation_idx(&self, subject: Entity, kind_idx: u32, target: Option<Entity>)
        -> (b: bool)
        requires
            self.wf(),
        ensures
            b == has_relation_to(self@.relations, self@.entities, subject, kind_idx, target),
    {
        proof {
            self.storage.lemma_wf(self.registry@.infos);
            lemma_flat(self.storage@.entities);
        }
        self.relations.subject_has_relation_idx(self.storage.entities(), subject, kind_idx, target)
    }

    /// Number of the kind of relation with the given key.
    pub fn relation_kind_idx(&self, key: u64) -> (idx: Option<u32>)
        requires
            self.wf(),
        ensures
            idx == kind_index(self@.relations.kinds, key),
    {
        self.relations.kind_idx_by_key(key)
    }
}

impl World {
    /// Whether every kind of number still has room for `n` more.
    pub fn has_room(&self, n: usize) -> (b: bool)
        requires
            self.wf(),
        ensures
            b == self.room(n as nat),
    {
        proof {
            self.lemma_wf();
            self.storage.lemma_wf(self.registry@.infos);
            lemma_flat(self.storage@.entities);
        }
        let most: u32 = self.relations.largest_fan_in();
        let kinds: u32 = self.relations.registry().kind_count() as u32;
        let types: usize = self.registry.len();
        let slots: u32 = self.storage.entities().high_water();
        let places: usize = self.storage.archetype_count();
        let limit: u64 = u32::MAX as u64;
        let fits: bool = n as u64 <= limit && types as u64 + n as u64 <= INVALID_ID as u64
            && kinds as u64 + n as u64 <= limit && slots as u64 + n as u64 <= limit
            && places as u64 + n as u64 <= limit && most as u64 + n as u64 <= limit;
        proof {
            if fits {
                assert forall|t: u32| #[trigger] self.relations.fan_in(t) + n <= u32::MAX by {
                }
            }
            if self.room(n as nat) {
                assert(self.relations.fan_in(0) + n <= u32::MAX);
                if most > 0 {
                    let t = choose|t: u32| #[trigger] self.relations.fan_in(t) == most;
                    assert(self.relations.fan_in(t) + n <= u32::MAX);
                }
            }
        }
        fits
    }
}

impl World {
    /// There is never room for more than the slots can number.
    pub proof fn lemma_small_room(&self, n: nat)
        ensures
            self.room(n) ==> n <= u32::MAX,
    {
    }
}

impl World {
    /// Where there is room, ids can be reserved.
    pub proof fn lemma_can_draw(&self, n: nat)
        requires
            self.room(n),
        ensures
            can_draw(self@.entities, n),
    {
    }
}

} // verus!
