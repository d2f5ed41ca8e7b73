//! What the models of values say: nothing of a value is left out, and nothing is added.

use vstd::prelude::*;
use crate::access::AccessDescriptor;
use crate::archetype::{ArchState, with_column};
use crate::arena::{ArenaState, empty_arena};
use crate::column::{ColumnState, row_removed};
use crate::commands::{after_stores, flushed};
use crate::commands::insert_ladder::item_states;
use crate::component::{INVALID_ID, Tick};
use crate::dyn_query::{
    DynItem, DynState, TermsState, component_places, is_dyn_item, marked, of_type, terms_suit,
};
use crate::entity::{Entity, after_flush, entity_text, next_position};
use crate::error::AnomalyState;
use crate::events::EventsState;
use crate::json::{Json, JsonState, state, states_upto, entries_upto};
use crate::query::{
    QueryItem, QueryState, aliased, is_item, item_values, rows_from, self_alias, takes_row,
};
use crate::registry::{InfoView, infos_wf, lemma_id_of};
use crate::relation_graph::{GraphState, with_hooks};
use crate::relation_index::{RelationPair, is_target, lists, placed};
use crate::relations::{HookEvent, KindInfo, RelationKind, kind_of, name_index};
use crate::requirements::{DiscardState, Discarded, components_of, discard_states};
use crate::shape::{
    Role, Shape, access_keys, access_upto, data_access, declares, ids, ids_upto, parts,
    positive_ids, required_ids, resolved,
};
use crate::storage::{CellState, tables};
use crate::text::decimal;
use crate::world::{
    Bundle, BundlePart, BundleState, RawPart, WorldState, after_spawn_all, after_spawn_one,
    after_write, bundle_states, part_states, reported, row_cells, with_discarded, with_sent,
};

verus! {

/// A bundle is its parts, in order, each with its description and its value.
pub proof fn law_bundles_are_their_parts(b: Bundle, bundles: Seq<Bundle>, i: int, k: int)
    requires
        0 <= i < b.parts@.len(),
        0 <= k < bundles.len(),
    ensures
        b@.len() == b.parts@.len(),
        b@[i].desc == b.parts@[i].desc,
        b@[i].value == b.parts@[i].value@,
        bundle_states(bundles).len() == bundles.len(),
        bundle_states(bundles)[k] == bundles[k]@,
{
}

/// Components to write are what they are given as.
pub proof fn law_parts_are_what_is_given(
    parts: Seq<RawPart>,
    items: Seq<BundlePart>,
    gone: Seq<Discarded>,
    i: int,
    j: int,
    k: int,
)
    requires
        0 <= i < parts.len(),
        0 <= j < items.len(),
        0 <= k < gone.len(),
    ensures
        part_states(parts).len() == parts.len(),
        part_states(parts)[i].id == parts[i].id.0,
        part_states(parts)[i].value == parts[i].value@,
        part_states(parts)[i].tick == parts[i].tick,
        item_states(items).len() == items.len(),
        item_states(items)[j].desc == items[j].desc,
        item_states(items)[j].value == items[j].value@,
        discard_states(gone).len() == gone.len(),
        discard_states(gone)[k].key == gone[k].key,
        discard_states(gone)[k].value == gone[k].value@,
{
}

/// Bundles are spawned one after the other, each as its entity.
pub proof fn law_bundles_are_spawned_in_turn(
    w: WorldState,
    es: Seq<Entity>,
    bundles: Seq<Seq<BundleState>>,
    n: nat,
)
    ensures
        after_spawn_all(w, es, bundles, 0) == w,
        after_spawn_all(w, es, bundles, n + 1) == after_spawn_one(
            after_spawn_all(w, es, bundles, n),
            es[n as int],
            bundles[n as int],
        ),
{
}

/// What is reported, handed back, sent or due is added behind what was there, and nothing else
/// changes.
pub proof fn law_lists_grow_at_the_end(
    w: WorldState,
    a: AnomalyState,
    gone: Seq<DiscardState>,
    q: EventsState<Vec<u8>>,
    event: Vec<u8>,
    g: GraphState,
    hooks: Seq<HookEvent>,
)
    ensures
        reported(w, a).anomalies == w.anomalies.push(a),
        reported(w, a) == (WorldState {
            anomalies: reported(w, a).anomalies,
            counts: reported(w, a).counts,
            ..w
        }),
        with_discarded(w, gone).discarded == w.discarded + gone,
        with_discarded(w, gone) == (WorldState { discarded: w.discarded + gone, ..w }),
        with_sent(q, event).pending == q.pending.push(event),
        with_sent(q, event).events == q.events,
        with_sent(q, event).sync_pending == q.sync_pending,
        with_sent(q, event).cursors == q.cursors,
        with_hooks(g, hooks).hooks == g.hooks + hooks,
        with_hooks(g, hooks).pairs == g.pairs,
        with_hooks(g, hooks).siblings == g.siblings,
        with_hooks(g, hooks).kinds == g.kinds,
        flushed(w) == (WorldState { entities: after_flush(w.entities), ..w }),
{
}

/// The components of the dead are none, those of the living what they have.
pub proof fn law_the_dead_have_no_components(
    values: Map<Entity, Map<u32, CellState>>,
    e: Entity,
    c: u32,
)
    ensures
        components_of(values, e).contains_key(c) <==> values.contains_key(e)
            && values[e].contains_key(c),
        values.contains_key(e) ==> components_of(values, e) == values[e],
{
}

/// To mark a component as changed keeps its value and when it was added.
pub proof fn law_marking_keeps_the_value(w: WorldState, e: Entity, id: u32, x: Entity, c: u32)
    requires
        w.values.contains_key(e),
        w.values[e].contains_key(id),
        w.values.contains_key(x),
        w.values[x].contains_key(c),
    ensures
        ({
            let t = marked(w, e, id);
            &&& t.values[x][c].value == w.values[x][c].value
            &&& t.values[x][c].added == w.values[x][c].added
            &&& t.values[x][c].changed == if x == e && c == id {
                w.tick
            } else {
                w.values[x][c].changed
            }
        }),
        of_type(w, w.registry.infos[id as int].key, id) <==> id < w.registry.infos.len(),
{
}

/// What a dynamic query hands out for a row is the entity in it, in its archetype.
pub proof fn law_dyn_items_are_rows(q: DynState, hit: (usize, usize), item: DynItem<'_>)
    requires
        is_dyn_item(q, hit, item),
    ensures
        item.spec_entity() == q.archetypes[hit.0 as int].entities[hit.1 as int],
        item.spec_archetype() == q.archetypes[hit.0 as int],
        item.spec_row() == hit.1,
{
}

/// The archetypes that a dynamic query looks at are those that have every component asked for and
/// none that is excluded, whether or not they hold an entity.
pub proof fn law_archetypes_are_looked_at_by_components(
    t: TermsState,
    archetypes: Seq<ArchState>,
    p: usize,
)
    requires
        archetypes.len() <= usize::MAX,
        p < archetypes.len(),
    ensures
        component_places(t, archetypes).contains(p) <==> {
            let ids = archetypes[p as int].ids;
            &&& t.unknown is None
            &&& forall|c: u32|
                #![trigger ids.contains(c)]
                t.reads.contains(c) || t.writes.contains(c) || t.withs.contains(c) ==> ids.contains(
                    c,
                )
            &&& forall|c: u32| #![trigger ids.contains(c)] t.excludes.contains(c) ==> !ids.contains(c)
        },
{
    let a = archetypes[p as int];
    let ids = a.ids;
    if t.unknown is None {
        crate::dyn_laws::lemma_suited_has(t, archetypes, archetypes.len(), p);
        if terms_suit(t, a) {
            assert forall|c: u32|
                #![trigger ids.contains(c)]
                t.reads.contains(c) || t.writes.contains(c) || t.withs.contains(c) implies
                ids.contains(c) by {
                if t.reads.contains(c) {
                    let i = choose|i: int| 0 <= i < t.reads.len() && t.reads[i] == c;
                    assert(a.ids.contains(t.reads[i]));
                } else if t.writes.contains(c) {
                    let i = choose|i: int| 0 <= i < t.writes.len() && t.writes[i] == c;
                    assert(a.ids.contains(t.writes[i]));
                } else {
                    let i = choose|i: int| 0 <= i < t.withs.len() && t.withs[i] == c;
                    assert(a.ids.contains(t.withs[i]));
                }
            }
            assert forall|c: u32|
                #![trigger ids.contains(c)]
                t.excludes.contains(c) implies !ids.contains(c) by {
                let i = choose|i: int| 0 <= i < t.excludes.len() && t.excludes[i] == c;
                assert(!a.ids.contains(t.excludes[i]));
            }
        } else if (forall|c: u32|
            #![trigger ids.contains(c)]
            t.reads.contains(c) || t.writes.contains(c) || t.withs.contains(c) ==> ids.contains(c))
            && (forall|c: u32|
            #![trigger ids.contains(c)]
            t.excludes.contains(c) ==> !ids.contains(c)) {
            assert forall|i: int| 0 <= i < t.reads.len() implies a.ids.contains(
                #[trigger] t.reads[i],
            ) by {
                assert(t.reads.contains(t.reads[i]));
            }
            assert forall|i: int| 0 <= i < t.writes.len() implies a.ids.contains(
                #[trigger] t.writes[i],
            ) by {
                assert(t.writes.contains(t.writes[i]));
            }
            assert forall|i: int| 0 <= i < t.withs.len() implies a.ids.contains(
                #[trigger] t.withs[i],
            ) by {
                assert(t.withs.contains(t.withs[i]));
            }
            assert forall|i: int| 0 <= i < t.excludes.len() implies !a.ids.contains(
                #[trigger] t.excludes[i],
            ) by {
                assert(t.excludes.contains(t.excludes[i]));
            }
        }
    } else {
        assert(component_places(t, archetypes) =~= Seq::<usize>::empty());
    }
}

/// What a query hands out for a row is its entity, and the values that the shape asks for.
pub proof fn law_items_are_rows(q: QueryState, hit: (usize, usize), item: QueryItem<'_>, i: int)
    requires
        is_item(q, hit, item),
        0 <= i < item.values@.len(),
    ensures
        item.entity == q.archetypes[hit.0 as int].entities[hit.1 as int],
        ({
            let want = item_values(
                q.infos,
                row_cells(q.archetypes[hit.0 as int], hit.1 as int),
                q.shape,
            );
            &&& item.values@.len() == want.len()
            &&& item.values@[i] is Some <==> want[i] is Some
            &&& item.values@[i] is Some ==> item.values@[i]->0@ == want[i]->0
        }),
{
    let v = item.values@[i];
}

/// The rows of a stretch that a query takes are in the stretch, and all that it takes there are.
pub proof fn law_stretches_hold_their_rows(
    q: QueryState,
    place: usize,
    start: int,
    end: int,
    p: usize,
    r: usize,
)
    requires
        0 <= start,
        end <= usize::MAX,
    ensures
        rows_from(q, place, start, end).contains((p, r)) <==> p == place && start <= r < end
            && takes_row(q, place, r),
{
    crate::query::lemma_rows_from(q, place, start, end, p, r);
}

/// Where each part of a shape hands out another component, nothing is aliased.
pub proof fn law_different_components_alias_nothing(infos: Seq<InfoView>, all: Vec<Shape>)
    requires
        infos_wf(infos),
        forall|i: int| 0 <= i < all@.len() ==> (#[trigger] all@[i]) is Component,
        forall|i: int, j: int|
            0 <= i < j < all@.len() ==> (#[trigger] all@[i])->Component_1 != (
            #[trigger] all@[j])->Component_1,
    ensures
        !self_alias(infos, Shape::All(all)),
{
    let s = Shape::All(all);
    lemma_access_distinct(infos, s, all@.len());
    let access = data_access(infos, s);
    assert(access == access_upto(infos, s, all@.len()));
    assert forall|i: int, j: int| !aliased(access, i, j) by {
        if aliased(access, i, j) {
            assert(access[i].0 != access[j].0);
        }
    }
}

proof fn lemma_resolved_distinct(infos: Seq<InfoView>, a: u64, b: u64)
    requires
        infos_wf(infos),
        a != b,
        resolved(infos, a) != INVALID_ID,
    ensures
        resolved(infos, a) != resolved(infos, b),
{
    let i = choose|i: int| 0 <= i < infos.len() && (#[trigger] infos[i]).key == a;
    lemma_id_of(infos, i);
    if crate::registry::id_of(infos, b) is Some {
        let j = choose|j: int| 0 <= j < infos.len() && (#[trigger] infos[j]).key == b;
        lemma_id_of(infos, j);
    }
}

proof fn lemma_access_distinct(infos: Seq<InfoView>, s: Shape, n: nat)
    requires
        infos_wf(infos),
        n <= parts(s).len(),
        forall|i: int| 0 <= i < parts(s).len() ==> (#[trigger] parts(s)[i]) is Component,
        forall|i: int, j: int|
            0 <= i < j < parts(s).len() ==> (#[trigger] parts(s)[i])->Component_1 != (
            #[trigger] parts(s)[j])->Component_1,
    ensures
        ({
            let access = access_upto(infos, s, n);
            &&& forall|i: int, j: int|
                0 <= i < j < access.len() && (#[trigger] access[i]).0 != INVALID_ID ==> access[i].0
                    != (#[trigger] access[j]).0
            &&& forall|i: int|
                0 <= i < access.len() ==> exists|k: int|
                    0 <= k < n && (#[trigger] access[i]).0 == resolved(
                        infos,
                        (#[trigger] parts(s)[k])->Component_1,
                    )
        }),
    decreases n,
{
    if n > 0 {
        let n1 = (n - 1) as nat;
        lemma_access_distinct(infos, s, n1);
        let head = access_upto(infos, s, n1);
        let last = parts(s)[n - 1];
        assert(last is Component);
        let more = data_access(infos, last);
        let access = access_upto(infos, s, n);
        assert(access == head + more);
        assert(more.len() <= 1);
        assert forall|i: int| 0 <= i < access.len() implies exists|k: int|
            0 <= k < n && (#[trigger] access[i]).0 == resolved(
                infos,
                (#[trigger] parts(s)[k])->Component_1,
            ) by {
            if i < head.len() {
                assert(access[i] == head[i]);
                let k = choose|k: int|
                    0 <= k < n1 && head[i].0 == resolved(
                        infos,
                        (#[trigger] parts(s)[k])->Component_1,
                    );
                assert(0 <= k < n && access[i].0 == resolved(infos, parts(s)[k]->Component_1));
            } else {
                assert(access[i] == more[0]);
                assert(0 <= n - 1 < n && access[i].0 == resolved(
                    infos,
                    parts(s)[n - 1]->Component_1,
                ));
            }
        }
        assert forall|i: int, j: int|
            0 <= i < j < access.len() && (#[trigger] access[i]).0 != INVALID_ID implies access[i].0
            != (#[trigger] access[j]).0 by {
            assert(access[i] == head[i]);
            if j < head.len() {
                assert(access[j] == head[j]);
            } else {
                assert(access[j] == more[0]);
                let k = choose|k: int|
                    0 <= k < n1 && head[i].0 == resolved(
                        infos,
                        (#[trigger] parts(s)[k])->Component_1,
                    );
                assert(parts(s)[k]->Component_1 != parts(s)[n - 1]->Component_1);
                lemma_resolved_distinct(
                    infos,
                    parts(s)[k]->Component_1,
                    parts(s)[n - 1]->Component_1,
                );
            }
        }
    }
}

/// A key stands for the number of its type, and for none where it is not registered.
pub proof fn law_keys_stand_for_numbers(infos: Seq<InfoView>, key: u64)
    requires
        infos_wf(infos),
    ensures
        forall|i: int|
            0 <= i < infos.len() && (#[trigger] infos[i]).key == key ==> resolved(infos, key) == i,
        (forall|i: int| 0 <= i < infos.len() ==> (#[trigger] infos[i]).key != key) ==> resolved(
            infos,
            key,
        ) == u32::MAX,
{
    assert forall|i: int| 0 <= i < infos.len() && (#[trigger] infos[i]).key == key implies resolved(
        infos,
        key,
    ) == i by {
        lemma_id_of(infos, i);
    }
}

/// The access that a shape declares is to components alone.
pub proof fn law_shapes_declare_components_alone(d: AccessDescriptor, s: Shape)
    requires
        declares(d, access_keys(s)),
    ensures
        d.reads@ == access_keys(s).0,
        d.writes@ == access_keys(s).1,
        d.reads_event@.len() == 0,
        d.writes_event@.len() == 0,
        !d.needs_whole_world,
        !d.uses_commands,
        !d.writes_resource,
{
}

/// What is excluded is no component that a query wants; everything else in a part is.
pub proof fn law_excluded_components_are_not_wanted(infos: Seq<InfoView>, role: Role, key: u64)
    ensures
        positive_ids(infos, Shape::Component(role, key)) == if role == Role::Without {
            Seq::<u32>::empty()
        } else {
            seq![resolved(infos, key)]
        },
{
}

/// The layout is that of the archetypes: their components and the entities of their rows.
pub proof fn law_layouts_are_rows(archetypes: Seq<ArchState>, i: int)
    requires
        0 <= i < archetypes.len(),
    ensures
        tables(archetypes).len() == archetypes.len(),
        tables(archetypes)[i].ids == archetypes[i].ids,
        tables(archetypes)[i].entities == archetypes[i].entities,
{
}

/// A row that is removed from a column takes its value and its ticks with it; the last row takes
/// its place.
pub proof fn law_removed_rows_take_their_ticks(s: ColumnState, i: int, k: int)
    requires
        0 <= i < s.rows.len(),
        s.changed.len() == s.rows.len(),
        s.added.len() == s.rows.len(),
        0 <= k < s.rows.len() - 1,
    ensures
        ({
            let t = row_removed(s, i);
            let from = if k == i {
                s.rows.len() - 1
            } else {
                k
            };
            &&& t.rows.len() == s.rows.len() - 1
            &&& t.changed.len() == s.rows.len() - 1
            &&& t.added.len() == s.rows.len() - 1
            &&& t.rows[k] == s.rows[from]
            &&& t.changed[k] == s.changed[from]
            &&& t.added[k] == s.added[from]
        }),
{
}

/// A column that is changed changes alone.
pub proof fn law_columns_change_alone(s: ArchState, i: int, c: ColumnState, k: int)
    requires
        0 <= i < s.columns.len(),
        0 <= k < s.columns.len(),
    ensures
        with_column(s, i, c).columns[k] == if k == i {
            c
        } else {
            s.columns[k]
        },
        with_column(s, i, c).ids == s.ids,
        with_column(s, i, c).entities == s.entities,
{
}

/// An arena starts empty, and payloads that are stored one after the other leave those before them
/// in place.
pub proof fn law_payloads_stay_in_place(s: ArenaState, bundle: Seq<BundleState>, n: nat)
    requires
        n <= bundle.len(),
        forall|i: int| 0 <= i < bundle.len() ==> (#[trigger] bundle[i]).desc.align > 0,
    ensures
        empty_arena().bytes.len() == 0,
        empty_arena().capacity == 0,
        s.bytes.len() <= after_stores(s, bundle, n).bytes.len(),
        after_stores(s, bundle, n).bytes.subrange(0, s.bytes.len() as int) == s.bytes,
    decreases n,
{
    if n == 0 {
        assert(s.bytes.subrange(0, s.bytes.len() as int) =~= s.bytes);
    } else {
        let n1 = (n - 1) as nat;
        law_payloads_stay_in_place(s, bundle, n1);
        let m = after_stores(s, bundle, n1);
        let t = after_stores(s, bundle, n);
        let p = bundle[n - 1];
        crate::arena::law_store_keeps_payloads(
            m,
            p.value,
            p.desc.align as nat,
            0,
            s.bytes.len() as int,
        );
    }
}

/// The relations of a subject are listed each once, by kind, slot and generation of the target.
pub proof fn law_relations_of_a_subject_are_listed(
    s: Seq<RelationPair>,
    set: Set<RelationPair>,
    i: int,
    j: int,
)
    requires
        lists(s, set),
        0 <= i < j < s.len(),
    ensures
        forall|p: RelationPair| set.contains(p) <==> #[trigger] s.contains(p),
        ({
            let a = s[i];
            let b = s[j];
            ||| a.kind_idx < b.kind_idx
            ||| a.kind_idx == b.kind_idx && a.target.index < b.target.index
            ||| a.kind_idx == b.kind_idx && a.target.index == b.target.index && a.target.generation
                < b.target.generation
        }),
{
    let keys = s.map_values(|p: RelationPair| p.spec_sort_key());
    assert(crate::pairs::precedes(keys[i], keys[j]));
}

/// An entity is put where it is asked for, or at the end, and the others keep their order.
pub proof fn law_places_beyond_the_end_are_the_end(s: Seq<Entity>, e: Entity, index: nat)
    ensures
        placed(s, e, index) == s.insert(
            if index < s.len() {
                index as int
            } else {
                s.len() as int
            },
            e,
        ),
{
}

/// An entity is a target where it has a subject of any kind.
pub proof fn law_targets_have_subjects(m: Map<(u32, u32), Seq<Entity>>, target: u32, k: u32, e: Entity)
    ensures
        m[(k, target)].contains(e) ==> is_target(m, target),
        (forall|j: u32| (#[trigger] m[(j, target)]).len() == 0) ==> !is_target(m, target),
{
    if m[(k, target)].contains(e) {
        assert(m[(k, target)].len() > 0);
    }
}

/// A kind is registered as it describes itself, without hooks.
pub proof fn law_kinds_describe_themselves<R: RelationKind>()
    ensures
        kind_of::<R>().key == R::spec_kind_key(),
        kind_of::<R>().name == R::spec_kind_name(),
        kind_of::<R>().cascade == R::spec_cascade(),
        kind_of::<R>().exclusive == R::spec_exclusive(),
        kind_of::<R>().on_add is None,
        kind_of::<R>().on_remove is None,
{
}

/// A name stands for the last kind of that name, and for none where no kind has it.
pub proof fn law_names_stand_for_kinds(kinds: Seq<KindInfo>, name: Seq<char>)
    requires
        kinds.len() <= u32::MAX,
    ensures
        match name_index(kinds, name) {
            Some(i) => {
                &&& i < kinds.len()
                &&& kinds[i as int].name == name
                &&& forall|j: int| i < j < kinds.len() ==> (#[trigger] kinds[j]).name != name
            },
            None => forall|j: int| 0 <= j < kinds.len() ==> (#[trigger] kinds[j]).name != name,
        },
    decreases kinds.len(),
{
    if kinds.len() > 0 && kinds.last().name != name {
        law_names_stand_for_kinds(kinds.drop_last(), name);
        let d = kinds.drop_last();
        assert forall|j: int| 0 <= j < d.len() implies (#[trigger] kinds[j]).name == d[j].name by {}
        assert forall|j: int| 0 <= j < kinds.len() && j >= d.len() implies (#[trigger] kinds[j]).name
            != name by {
            assert(kinds[j] == kinds.last());
        }
    }
}

/// Handles are spelled with their slot and their generation.
pub proof fn law_handles_are_spelled_out(e: Entity)
    ensures
        entity_text(e) == "Entity("@ + decimal(e.index as nat) + "v"@ + decimal(
            e.generation as nat,
        ) + ")"@,
{
}

/// Positions in a block go one by one.
pub proof fn law_positions_go_on(n: nat)
    requires
        n < u32::MAX,
    ensures
        next_position(n) == n + 1,
{
}

proof fn lemma_states(v: Seq<Json>, n: nat, i: int)
    requires
        0 <= i < n <= v.len(),
    ensures
        states_upto(v, n).len() == n,
        states_upto(v, n)[i] == state(v[i]),
    decreases n,
{
    if n > 1 {
        lemma_states(v, (n - 1) as nat, if i < n - 1 { i } else { 0 });
    } else {
        assert(states_upto(v, 0).len() == 0);
    }
}

proof fn lemma_entries(v: Seq<(String, Json)>, n: nat, i: int)
    requires
        0 <= i < n <= v.len(),
    ensures
        entries_upto(v, n).len() == n,
        entries_upto(v, n)[i] == (v[i].0@, state(v[i].1)),
    decreases n,
{
    if n > 1 {
        lemma_entries(v, (n - 1) as nat, if i < n - 1 { i } else { 0 });
    } else {
        assert(entries_upto(v, 0).len() == 0);
    }
}

/// A JSON value is what is written: lists with their values in order, objects with their names and
/// values in order.
pub proof fn law_json_values_are_what_is_written(
    list: Vec<Json>,
    object: Vec<(String, Json)>,
    text: String,
    b: bool,
    i: int,
    j: int,
)
    requires
        0 <= i < list@.len(),
        0 <= j < object@.len(),
    ensures
        state(Json::Null) == JsonState::Null,
        state(Json::Bool(b)) == JsonState::Bool(b),
        state(Json::Number(text)) == JsonState::Number(text@),
        state(Json::Text(text)) == JsonState::Text(text@),
        state(Json::List(list)) is List,
        state(Json::List(list))->List_0.len() == list@.len(),
        state(Json::List(list))->List_0[i] == state(list@[i]),
        state(Json::Object(object)) is Object,
        state(Json::Object(object))->Object_0.len() == object@.len(),
        state(Json::Object(object))->Object_0[j] == (object@[j].0@, state(object@[j].1)),
{
    lemma_states(list@, list@.len(), i);
    lemma_entries(object@, object@.len(), j);
}

/// The numbers of the component types of several shapes, one shape after the other.
pub open spec fn ids_in_turn(infos: Seq<InfoView>, all: Seq<Shape>) -> Seq<u32>
    decreases all.len(),
{
    if all.len() == 0 {
        Seq::empty()
    } else {
        ids_in_turn(infos, all.drop_last()) + ids(infos, all.last())
    }
}

proof fn lemma_ids_upto(infos: Seq<InfoView>, s: Shape, n: nat)
    requires
        n <= parts(s).len(),
    ensures
        ids_upto(infos, s, n) == ids_in_turn(infos, parts(s).subrange(0, n as int)),
    decreases n,
{
    let all = parts(s).subrange(0, n as int);
    if n > 0 {
        lemma_ids_upto(infos, s, (n - 1) as nat);
        assert(all.drop_last() =~= parts(s).subrange(0, n - 1));
        assert(all.last() == parts(s)[n - 1]);
    }
}

/// The component types of a shape are those of its parts, in order, excluded ones among them.
pub proof fn law_shapes_list_the_types_of_their_parts(
    infos: Seq<InfoView>,
    role: Role,
    key: u64,
    all: Vec<Shape>,
)
    ensures
        ids(infos, Shape::Component(role, key)) == seq![resolved(infos, key)],
        ids(infos, Shape::Entity).len() == 0,
        ids(infos, Shape::Unit).len() == 0,
        ids(infos, Shape::All(all)) == ids_in_turn(infos, all@),
        ids(infos, Shape::Or(all)) == ids_in_turn(infos, all@),
        required_ids(infos, Shape::Component(role, key)) == if role == Role::Without || role
            == Role::Maybe || role == Role::MaybeWrite {
            Seq::<u32>::empty()
        } else {
            seq![resolved(infos, key)]
        },
        required_ids(infos, Shape::Or(all)).len() == 0,
{
    lemma_ids_upto(infos, Shape::All(all), all@.len());
    lemma_ids_upto(infos, Shape::Or(all), all@.len());
    assert(all@.subrange(0, all@.len() as int) =~= all@);
}

/// A write gives the component its value and the tick it is given, and no other component changes.
pub proof fn law_writes_take_their_tick(
    w: WorldState,
    e: Entity,
    id: u32,
    value: Seq<u8>,
    tick: Tick,
    x: Entity,
    c: u32,
)
    requires
        w.values.contains_key(e),
        w.values[e].contains_key(id),
    ensures
        ({
            let t = after_write(w, e, id, value, tick);
            &&& t.values[e][id] == CellState { value, changed: tick, added: w.values[e][id].added }
            &&& !(x == e && c == id) ==> t.values[x][c] == w.values[x][c]
            &&& t.values.contains_key(x) <==> w.values.contains_key(x)
            &&& w.values.contains_key(x) ==> (t.values[x].contains_key(c)
                <==> w.values[x].contains_key(c))
            &&& t == WorldState { values: t.values, ..w }
        }),
{
}

} // verus!
