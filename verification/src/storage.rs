//! Component storage: which entity has which components, with which values.

use vstd::prelude::*;
use rustc_hash::FxHashMap;
use crate::archetype::{
    ArchState, Archetype, ArchetypeId, arch_row_removed, arch_wf, column_of, component_written,
    filled, with_column,
};
use crate::column::{bytes_of, column_wf, pushed, row_removed, row_written, swap_removed};
use crate::component::{ComponentId, Tick};
use crate::entity::{
    AllocState, BlockState, Entity, EntityAllocator, EntityLocation, EntityReserver, after_allocate,
    after_clear_location, after_draw, after_flush, after_free, after_set_location, allocated,
    block_serves, can_allocate, can_draw, drawn, is_current, location_of, real_indices, state_wf,
    stored,
};
use crate::fx::{map_get, map_get_mut, map_insert, map_new};
use crate::inline::{IdList, id_items};
use crate::registry::{ComponentInfo, ComponentRegistry, InfoView};

verus! {

/// State of the storage.
pub struct StoreState {
    pub entities: AllocState,
    pub archetypes: Seq<ArchState>,
}

/// A component value with its ticks.
pub struct CellState {
    pub value: Seq<u8>,
    pub changed: Tick,
    pub added: Tick,
}

/// The value of a component in a row, if the archetype has the component.
pub open spec fn cell_at(a: ArchState, row: int, component: u32) -> Option<CellState> {
    match column_of(a, component) {
        Some(i) => Some(
            CellState {
                value: a.columns[i].rows[row],
                changed: a.columns[i].changed[row],
                added: a.columns[i].added[row],
            },
        ),
        None => None,
    }
}

/// The value of a component of an entity, if the entity is alive and has it.
pub open spec fn cell(s: StoreState, e: Entity, component: u32) -> Option<CellState> {
    match location_of(s.entities, e) {
        Some(loc) => cell_at(s.archetypes[loc.archetype_id.0 as int], loc.row as int, component),
        None => None,
    }
}

/// The location in an archetype and row.
pub open spec fn at(a: int, row: int) -> EntityLocation {
    EntityLocation { archetype_id: ArchetypeId(a as u32), row: row as u32 }
}

/// Whether `ids` ascend.
pub open spec fn ascending_ids(ids: Seq<u32>) -> bool {
    forall|i: int, j: int| 0 <= i < j < ids.len() ==> #[trigger] ids[i] < #[trigger] ids[j]
}

/// Whether an archetype is in order: it knows its place, its components ascend and are
/// registered, and every column has a value of the right size for every entity.
pub open spec fn arch_ok(a: ArchState, place: int, infos: Seq<InfoView>) -> bool {
    &&& arch_wf(a)
    &&& filled(a)
    &&& a.id.0 == place
    &&& ascending_ids(a.ids)
    &&& forall|i: int|
        0 <= i < a.ids.len() ==> (#[trigger] a.ids[i]) < infos.len() && a.columns[i].item_size
            == infos[a.ids[i] as int].size
}

/// Whether every entity in a row knows that it is there.
pub open spec fn rows_located(s: StoreState) -> bool {
    forall|a: int, r: int|
        0 <= a < s.archetypes.len() && 0 <= r < s.archetypes[a].entities.len() ==> location_of(
            s.entities,
            #[trigger] s.archetypes[a].entities[r],
        ) == Some(at(a, r))
}

/// Whether every live entity is in the row that it knows of.
pub open spec fn located_rows(s: StoreState) -> bool {
    forall|e: Entity| #[trigger]
        location_of(s.entities, e) is Some ==> {
            let loc = location_of(s.entities, e)->0;
            let a = loc.archetype_id.0 as int;
            &&& a < s.archetypes.len()
            &&& loc.row < s.archetypes[a].entities.len()
            &&& s.archetypes[a].entities[loc.row as int] == e
        }
}

/// What holds of the state of every storage.
pub open spec fn store_wf(s: StoreState, infos: Seq<InfoView>) -> bool {
    &&& state_wf(s.entities)
    &&& 1 <= s.archetypes.len() <= u32::MAX
    &&& s.archetypes[0].ids.len() == 0
    &&& forall|a: int|
        0 <= a < s.archetypes.len() ==> arch_ok(#[trigger] s.archetypes[a], a, infos)
    &&& forall|a: int, b: int|
        0 <= a < b < s.archetypes.len() ==> (#[trigger] s.archetypes[a]).ids != (
        #[trigger] s.archetypes[b]).ids
    &&& rows_located(s)
    &&& located_rows(s)
}

/// The archetype with a row appended for `e`.
pub open spec fn row_appended(a: ArchState, e: Entity, cells: Seq<CellState>) -> ArchState {
    ArchState {
        columns: Seq::new(
            a.columns.len(),
            |i: int| pushed(a.columns[i], cells[i].value, cells[i].changed, cells[i].added),
        ),
        entities: a.entities.push(e),
        ..a
    }
}

/// The state with an unlocated entity placed in archetype `b`.
pub open spec fn placed_in(s: StoreState, b: int, e: Entity, cells: Seq<CellState>) -> StoreState {
    StoreState {
        entities: after_set_location(
            s.entities,
            e,
            at(b, s.archetypes[b].entities.len() as int),
        ),
        archetypes: s.archetypes.update(b, row_appended(s.archetypes[b], e, cells)),
    }
}

/// The state with a live entity taken out of its row. Its handle stays current.
pub open spec fn taken_out(s: StoreState, e: Entity) -> StoreState {
    let loc = location_of(s.entities, e)->0;
    let a = loc.archetype_id.0 as int;
    let r = loc.row as int;
    let arch = s.archetypes[a];
    let cleared = after_clear_location(s.entities, e);
    StoreState {
        entities: if r == arch.entities.len() - 1 {
            cleared
        } else {
            after_set_location(cleared, arch.entities.last(), at(a, r))
        },
        archetypes: s.archetypes.update(a, arch_row_removed(arch, r)),
    }
}

/// Which entities are in which rows of an archetype with the given components.
pub struct Table {
    pub ids: Seq<u32>,
    pub entities: Seq<Entity>,
}

/// The layout of archetypes.
pub open spec fn tables(archetypes: Seq<ArchState>) -> Seq<Table> {
    archetypes.map_values(|a: ArchState| Table { ids: a.ids, entities: a.entities })
}

/// Whether `e` is in row `at.1` of table `at.0`.
pub open spec fn is_in(t: Seq<Table>, e: Entity, at: (int, int)) -> bool {
    0 <= at.0 < t.len() && 0 <= at.1 < t[at.0].entities.len() && t[at.0].entities[at.1] == e
}

/// Whether `at` is the place of the table for the given components, or of a new one where there
/// is none.
pub open spec fn is_table(t: Seq<Table>, ids: Seq<u32>, at: int) -> bool {
    if exists|i: int| 0 <= i < t.len() && (#[trigger] t[i]).ids == ids {
        0 <= at < t.len() && t[at].ids == ids
    } else {
        at == t.len()
    }
}

/// The layout with `e` behind the last row of the table for the given components.
pub open spec fn tables_with(t: Seq<Table>, e: Entity, ids: Seq<u32>) -> Seq<Table> {
    let b = choose|b: int| is_table(t, ids, b);
    if b < t.len() {
        t.update(b, Table { entities: t[b].entities.push(e), ..t[b] })
    } else {
        t.push(Table { ids, entities: seq![e] })
    }
}

/// The layout without `e`: the last row of its table takes the place of its row.
pub open spec fn tables_without(t: Seq<Table>, e: Entity) -> Seq<Table> {
    let at = choose|at: (int, int)| is_in(t, e, at);
    let from = t[at.0];
    t.update(at.0, Table { entities: swap_removed(from.entities, at.1), ..from })
}

/// The layout once `e` has the given components: it stays where it has them already. Else the last
/// row of its table takes the place of its row, and it goes behind the last row of the table for
/// the components.
pub open spec fn tables_moved(t: Seq<Table>, e: Entity, ids: Seq<u32>) -> Seq<Table> {
    let at = choose|at: (int, int)| is_in(t, e, at);
    if t[at.0].ids == ids {
        t
    } else {
        tables_with(tables_without(t, e), e, ids)
    }
}

/// The components of the archetype that a live entity is in.
pub open spec fn ids_at(s: StoreState, e: Entity) -> Seq<u32> {
    s.archetypes[location_of(s.entities, e)->0.archetype_id.0 as int].ids
}

/// A live entity is in one row.
proof fn lemma_one_place(s: StoreState, infos: Seq<InfoView>, e: Entity)
    requires
        store_wf(s, infos),
        location_of(s.entities, e) is Some,
    ensures
        ({
            let loc = location_of(s.entities, e)->0;
            (choose|at: (int, int)| is_in(tables(s.archetypes), e, at)) == (
                loc.archetype_id.0 as int,
                loc.row as int,
            )
        }),
        location_of(s.entities, e)->0.archetype_id.0 < s.archetypes.len(),
{
    let t = tables(s.archetypes);
    let loc = location_of(s.entities, e)->0;
    let here = (loc.archetype_id.0 as int, loc.row as int);
    assert(is_in(t, e, here));
    let there = choose|at: (int, int)| is_in(t, e, at);
    assert(is_in(t, e, there));
    assert(s.archetypes[there.0].entities[there.1] == e);
    assert(location_of(s.entities, s.archetypes[there.0].entities[there.1]) == Some(
        at(there.0, there.1),
    ));
    lemma_rows_fit(s, infos, there.0);
}

/// Components in ascending order.
pub open spec fn component_list(m: Map<u32, CellState>) -> Seq<u32> {
    choose|ids: Seq<u32>| lists_components(ids, m)
}

/// Whether `ids` lists the components in ascending order.
pub open spec fn lists_components(ids: Seq<u32>, m: Map<u32, CellState>) -> bool {
    ascending_ids(ids) && forall|c: u32| #[trigger] ids.contains(c) <==> m.contains_key(c)
}

/// What is among the parts is written.
proof fn lemma_written_there(
    before: Option<CellState>,
    parts: Seq<StoredPart>,
    c: u32,
    n: nat,
    k: int,
)
    requires
        0 <= k < n <= parts.len(),
        parts[k].id.0 == c,
    ensures
        written(before, parts, c, n) is Some,
    decreases n,
{
    if k < n - 1 {
        lemma_written_there(before, parts, c, (n - 1) as nat, k);
    }
}

/// Taking an entity out lets the last row of its table take the place of its row.
proof fn lemma_taken_tables(s: StoreState, infos: Seq<InfoView>, e: Entity)
    requires
        store_wf(s, infos),
        location_of(s.entities, e) is Some,
    ensures
        tables(taken_out(s, e).archetypes) == tables_without(tables(s.archetypes), e),
        ({
            let t = tables(s.archetypes);
            t[(choose|at: (int, int)| is_in(t, e, at)).0].ids == ids_at(s, e)
        }),
{
    lemma_one_place(s, infos, e);
    assert(tables(taken_out(s, e).archetypes) =~= tables_without(tables(s.archetypes), e));
}

/// An entity that has its components stays where it is.
pub proof fn lemma_settled(s: StoreState, infos: Seq<InfoView>, e: Entity)
    requires
        store_wf(s, infos),
        location_of(s.entities, e) is Some,
    ensures
        tables_moved(tables(s.archetypes), e, ids_at(s, e)) == tables(s.archetypes),
{
    lemma_one_place(s, infos, e);
}

/// Placing an entity puts it behind the last row of the table for its components.
proof fn lemma_placed_tables(
    s: StoreState,
    mid: StoreState,
    infos: Seq<InfoView>,
    b: int,
    e: Entity,
    cells: Seq<CellState>,
    ids: Seq<u32>,
)
    requires
        store_wf(s, infos),
        store_wf(mid, infos),
        0 <= b < mid.archetypes.len(),
        mid.archetypes[b].ids == ids,
        s.archetypes.len() <= mid.archetypes.len() <= s.archetypes.len() + 1,
        forall|i: int|
            0 <= i < s.archetypes.len() ==> (#[trigger] mid.archetypes[i]) == s.archetypes[i],
        forall|i: int|
            s.archetypes.len() <= i < mid.archetypes.len() ==> (
            #[trigger] mid.archetypes[i]).entities.len() == 0,
        mid.archetypes.len() > s.archetypes.len() ==> b == s.archetypes.len(),
        is_current(mid.entities, e),
        mid.entities.locations.len() == mid.entities.generations.len(),
        store_wf(placed_in(mid, b, e, cells), infos),
        location_of(placed_in(mid, b, e, cells).entities, e) is Some,
    ensures
        tables(placed_in(mid, b, e, cells).archetypes) == tables_with(
            tables(s.archetypes),
            e,
            ids_at(placed_in(mid, b, e, cells), e),
        ),
{
    let t = tables(s.archetypes);
    let u = placed_in(mid, b, e, cells);
    let row = mid.archetypes[b].entities.len() as int;
    assert(u.archetypes[b].entities[row] == e);
    assert(location_of(u.entities, u.archetypes[b].entities[row]) == Some(at(b, row)));
    lemma_rows_fit(u, infos, b);
    assert(ids_at(u, e) == ids);
    let c = choose|c: int| is_table(t, ids, c);
    if mid.archetypes.len() == s.archetypes.len() {
        assert(t[b].ids == ids);
        assert(is_table(t, ids, b));
        assert(is_table(t, ids, c));
        if c != b {
            let lo = if c < b { c } else { b };
            let hi = if c < b { b } else { c };
            assert(s.archetypes[lo].ids != s.archetypes[hi].ids);
        }
        assert(tables(u.archetypes) =~= tables_with(t, e, ids));
    } else {
        assert forall|i: int| 0 <= i < t.len() implies (#[trigger] t[i]).ids != ids by {
            assert(mid.archetypes[i] == s.archetypes[i]);
            assert(mid.archetypes[i].ids != mid.archetypes[b].ids);
        }
        assert(is_table(t, ids, t.len() as int));
        assert(is_table(t, ids, c));
        assert(mid.archetypes[b].entities.push(e) =~= seq![e]);
        assert(tables(u.archetypes) =~= tables_with(t, e, ids));
    }
}

/// Components have one ascending list.
pub proof fn lemma_component_list(ids: Seq<u32>, m: Map<u32, CellState>)
    requires
        lists_components(ids, m),
    ensures
        component_list(m) == ids,
{
    let other = component_list(m);
    assert(lists_components(other, m));
    assert forall|c: u32| #[trigger] ids.contains(c) <==> other.contains(c) by {
        assert(ids.contains(c) <==> m.contains_key(c));
        assert(other.contains(c) <==> m.contains_key(c));
    }
    lemma_same_ascending(other, ids);
}

proof fn lemma_same_ascending(a: Seq<u32>, b: Seq<u32>)
    requires
        ascending_ids(a),
        ascending_ids(b),
        forall|c: u32| #[trigger] b.contains(c) <==> a.contains(c),
    ensures
        a == b,
    decreases a.len(),
{
    if a.len() == 0 {
        if b.len() > 0 {
            assert(b.contains(b[0]));
        }
        assert(a =~= b);
    } else {
        let x = a.last();
        assert(a.contains(x));
        assert(b.contains(x));
        let j = choose|j: int| 0 <= j < b.len() && b[j] == x;
        let y = b.last();
        assert(b.contains(y));
        let i = choose|i: int| 0 <= i < a.len() && a[i] == y;
        if j < b.len() - 1 {
            assert(b[j] < b[b.len() - 1]);
        }
        if i < a.len() - 1 {
            assert(a[i] < a[a.len() - 1]);
        }
        assert(x == y);
        let c = a.drop_last();
        let d = b.drop_last();
        assert forall|z: u32| #[trigger] d.contains(z) <==> c.contains(z) by {
            if d.contains(z) {
                let k = choose|k: int| 0 <= k < d.len() && d[k] == z;
                assert(b[k] == z && b[k] < b[b.len() - 1]);
                assert(b.contains(z));
                let q = choose|q: int| 0 <= q < a.len() && a[q] == z;
                assert(c[q] == z);
            }
            if c.contains(z) {
                let k = choose|k: int| 0 <= k < c.len() && c[k] == z;
                assert(a[k] == z && a[k] < a[a.len() - 1]);
                assert(a.contains(z));
                assert(b.contains(z));
                let q = choose|q: int| 0 <= q < b.len() && b[q] == z;
                assert(d[q] == z);
            }
        }
        lemma_same_ascending(c, d);
        assert(a =~= c.push(x));
        assert(b =~= d.push(y));
    }
}

/// Whether the entities other than `e` are as they were: alive or not, with the same values.
pub open spec fn others_same(s: StoreState, t: StoreState, e: Entity) -> bool {
    forall|x: Entity|
        #![trigger location_of(t.entities, x)]
        #![trigger location_of(s.entities, x)]
        x != e ==> (location_of(t.entities, x) is Some <==> location_of(s.entities, x) is Some) && (
        forall|c: u32| #[trigger] cell(t, x, c) == cell(s, x, c))
}

/// Whether only locations differ.
pub open spec fn same_slots(s: AllocState, t: AllocState) -> bool {
    t == (AllocState { locations: t.locations, ..s }) && t.locations.len() == s.locations.len()
}

proof fn lemma_distinct_rows(s: StoreState, infos: Seq<InfoView>, a: int, r: int, b: int, q: int)
    requires
        store_wf(s, infos),
        0 <= a < s.archetypes.len(),
        0 <= r < s.archetypes[a].entities.len(),
        0 <= b < s.archetypes.len(),
        0 <= q < s.archetypes[b].entities.len(),
        s.archetypes[a].entities[r] == s.archetypes[b].entities[q],
        r <= u32::MAX,
        q <= u32::MAX,
    ensures
        a == b,
        r == q,
{
    assert(location_of(s.entities, s.archetypes[a].entities[r]) == Some(at(a, r)));
    assert(location_of(s.entities, s.archetypes[b].entities[q]) == Some(at(b, q)));
    assert(at(a, r).archetype_id.0 == a && at(a, r).row == r);
}

/// Rows are numbered with 32 bits: there are no more of them than slots.
pub proof fn lemma_rows_fit(s: StoreState, infos: Seq<InfoView>, a: int)
    requires
        store_wf(s, infos),
        0 <= a < s.archetypes.len(),
    ensures
        s.archetypes[a].entities.len() <= s.entities.generations.len(),
{
    let es = s.archetypes[a].entities;
    let n = s.entities.generations.len();
    if es.len() > n {
        let head = es.subrange(0, (n + 1) as int);
        let idx = head.map_values(|e: Entity| e.index as int);
        assert forall|i: int| 0 <= i < idx.len() implies 0 <= #[trigger] idx[i] < n by {
            assert(location_of(s.entities, s.archetypes[a].entities[i]) is Some);
        }
        assert forall|i: int, j: int|
            0 <= i < idx.len() && 0 <= j < idx.len() && i != j implies idx[i] != idx[j] by {
            assert(location_of(s.entities, s.archetypes[a].entities[i]) is Some);
            assert(location_of(s.entities, s.archetypes[a].entities[j]) is Some);
            if idx[i] == idx[j] {
                assert(head[i] == head[j]);
                lemma_distinct_rows(s, infos, a, i, a, j);
            }
        }
        lemma_pigeonhole(idx, n);
    }
}

/// A list of distinct numbers below `n` has no more than `n` items.
pub proof fn lemma_pigeonhole(s: Seq<int>, n: nat)
    requires
        s.no_duplicates(),
        forall|i: int| 0 <= i < s.len() ==> 0 <= #[trigger] s[i] < n,
    ensures
        s.len() <= n,
{
    s.unique_seq_to_set();
    let range = vstd::set_lib::set_int_range(0, n as int);
    vstd::set_lib::lemma_int_range(0, n as int);
    assert(s.to_set().subset_of(range)) by {
        assert forall|x: int| s.to_set().contains(x) implies range.contains(x) by {
            let i = choose|i: int| 0 <= i < s.len() && s[i] == x;
            assert(0 <= s[i] < n);
        }
    }
    vstd::set_lib::lemma_len_subset(s.to_set(), range);
}

proof fn lemma_place(s: StoreState, infos: Seq<InfoView>, b: int, e: Entity, cells: Seq<CellState>)
    requires
        store_wf(s, infos),
        0 <= b < s.archetypes.len(),
        is_current(s.entities, e),
        location_of(s.entities, e) is None,
        cells.len() == s.archetypes[b].ids.len(),
        forall|i: int|
            0 <= i < cells.len() ==> (#[trigger] cells[i]).value.len()
                == s.archetypes[b].columns[i].item_size,
    ensures
        store_wf(placed_in(s, b, e, cells), infos),
        same_slots(s.entities, placed_in(s, b, e, cells).entities),
        location_of(placed_in(s, b, e, cells).entities, e) == Some(
            at(b, s.archetypes[b].entities.len() as int),
        ),
        others_same(s, placed_in(s, b, e, cells), e),
        forall|c: u32| #[trigger]
            cell(placed_in(s, b, e, cells), e, c) == match column_of(s.archetypes[b], c) {
                Some(i) => Some(cells[i]),
                None => None,
            },
{
    let t = placed_in(s, b, e, cells);
    let n = s.archetypes[b].entities.len() as int;
    lemma_rows_fit(s, infos, b);
    let loc = at(b, n);
    assert(loc.archetype_id.0 == b && b < u32::MAX);
    assert(stored(loc) == Some(loc));
    assert(location_of(t.entities, e) == Some(loc));
    assert forall|x: Entity| x != e implies location_of(t.entities, x) == location_of(
        s.entities,
        x,
    ) by {
        if x.index == e.index {
            assert(!is_current(s.entities, x));
        }
    }
    let old_arch = s.archetypes[b];
    let arch = t.archetypes[b];
    assert(arch_ok(old_arch, b, infos));
    assert forall|a: int| 0 <= a < t.archetypes.len() implies arch_ok(
        #[trigger] t.archetypes[a],
        a,
        infos,
    ) by {
        assert(arch_ok(s.archetypes[a], a, infos));
        if a == b {
            assert forall|i: int| 0 <= i < arch.columns.len() implies column_wf(
                #[trigger] arch.columns[i],
            ) && arch.columns[i].id == arch.ids[i] && arch.columns[i].rows.len()
                == arch.entities.len() && arch.columns[i].item_size
                == old_arch.columns[i].item_size by {
                assert(column_wf(old_arch.columns[i]));
                assert(old_arch.columns[i].rows.len() == old_arch.entities.len());
                let c = arch.columns[i];
                assert forall|k: int| 0 <= k < c.rows.len() implies (#[trigger] c.rows[k]).len()
                    == c.item_size by {
                    if k < n {
                        assert(c.rows[k] == old_arch.columns[i].rows[k]);
                    } else {
                        assert(cells[i].value.len() == old_arch.columns[i].item_size);
                    }
                }
            }
        }
    }
    assert forall|a: int, q: int|
        0 <= a < t.archetypes.len() && 0 <= q < t.archetypes[a].entities.len() implies location_of(
        t.entities,
        #[trigger] t.archetypes[a].entities[q],
    ) == Some(at(a, q)) by {
        if a == b && q == n {
        } else {
            let x = s.archetypes[a].entities[q];
            assert(t.archetypes[a].entities[q] == x);
            assert(location_of(s.entities, x) == Some(at(a, q)));
            assert(x != e);
        }
    }
    assert forall|x: Entity| #[trigger] location_of(t.entities, x) is Some implies {
        let l = location_of(t.entities, x)->0;
        let a = l.archetype_id.0 as int;
        &&& a < t.archetypes.len()
        &&& l.row < t.archetypes[a].entities.len()
        &&& t.archetypes[a].entities[l.row as int] == x
    } by {
        if x != e {
            assert(location_of(s.entities, x) is Some);
        }
    }
    assert forall|a: int, c: int| 0 <= a < c < t.archetypes.len() implies (
    #[trigger] t.archetypes[a]).ids != (#[trigger] t.archetypes[c]).ids by {
        assert(s.archetypes[a].ids != s.archetypes[c].ids);
    }
    assert forall|x: Entity|
        #![trigger location_of(t.entities, x)]
        #![trigger location_of(s.entities, x)]
        x != e implies (location_of(t.entities, x) is Some <==> location_of(s.entities, x) is Some)
        && (forall|c: u32| #[trigger] cell(t, x, c) == cell(s, x, c)) by {
        assert(location_of(t.entities, x) == location_of(s.entities, x));
        assert forall|c: u32| #[trigger] cell(t, x, c) == cell(s, x, c) by {
            if location_of(s.entities, x) is Some {
                let l = location_of(s.entities, x)->0;
                let a = l.archetype_id.0 as int;
                if a == b {
                    if let Some(i) = column_of(old_arch, c) {
                        assert(column_of(arch, c) == Some(i));
                        assert(old_arch.ids.contains(c));
                        assert(0 <= i < old_arch.ids.len());
                        assert(column_wf(old_arch.columns[i]));
                        assert(old_arch.columns[i].rows.len() == n);
                        assert(l.row < n);
                    }
                }
            }
        }
    }
    assert forall|c: u32| #[trigger] cell(t, e, c) == match column_of(old_arch, c) {
        Some(i) => Some(cells[i]),
        None => None,
    } by {
        if let Some(i) = column_of(old_arch, c) {
            assert(column_of(arch, c) == Some(i));
            assert(old_arch.ids.contains(c));
            assert(0 <= i < old_arch.ids.len());
            assert(column_wf(old_arch.columns[i]));
            assert(old_arch.columns[i].rows.len() == n);
        }
    }
}

proof fn lemma_take(s: StoreState, infos: Seq<InfoView>, e: Entity)
    requires
        store_wf(s, infos),
        location_of(s.entities, e) is Some,
    ensures
        store_wf(taken_out(s, e), infos),
        same_slots(s.entities, taken_out(s, e).entities),
        is_current(taken_out(s, e).entities, e),
        location_of(taken_out(s, e).entities, e) is None,
        others_same(s, taken_out(s, e), e),
{
    let t = taken_out(s, e);
    let loc = location_of(s.entities, e)->0;
    let a = loc.archetype_id.0 as int;
    let r = loc.row as int;
    let old_arch = s.archetypes[a];
    let arch = t.archetypes[a];
    let n = old_arch.entities.len() as int;
    let m = old_arch.entities.last();
    lemma_rows_fit(s, infos, a);
    assert(arch_ok(old_arch, a, infos));
    assert(location_of(s.entities, old_arch.entities[n - 1]) == Some(at(a, n - 1)));
    assert(stored(at(a, r)) == Some(at(a, r)));
    assert(old_arch.entities[r] == e);
    let moved = r != n - 1;
    if moved {
        assert(m != e) by {
            if m == e {
                lemma_distinct_rows(s, infos, a, n - 1, a, r);
            }
        }
        assert(m.index != e.index);
    }
    assert(location_of(t.entities, e) is None);
    assert forall|x: Entity| x != e implies location_of(t.entities, x) == if moved && x == m {
        Some(at(a, r))
    } else {
        location_of(s.entities, x)
    } by {
        if x.index == e.index {
            assert(!is_current(s.entities, x));
        }
        if moved && x.index == m.index && x != m {
            assert(!is_current(s.entities, x));
        }
    }
    assert(arch.entities =~= old_arch.entities.update(r, m).drop_last());
    assert forall|i: int| 0 <= i < arch.columns.len() implies column_wf(
        #[trigger] arch.columns[i],
    ) && arch.columns[i].id == arch.ids[i] && arch.columns[i].rows.len() == arch.entities.len()
        && arch.columns[i].item_size == old_arch.columns[i].item_size by {
        let o = old_arch.columns[i];
        let c = arch.columns[i];
        assert(c == row_removed(o, r));
        assert(column_wf(o));
        assert(o.rows.len() == n);
        assert forall|k: int| 0 <= k < c.rows.len() implies (#[trigger] c.rows[k]).len()
            == c.item_size by {
            assert(c.rows[k] == if k == r {
                o.rows[n - 1]
            } else {
                o.rows[k]
            });
        }
    }
    assert forall|b: int| 0 <= b < t.archetypes.len() implies arch_ok(
        #[trigger] t.archetypes[b],
        b,
        infos,
    ) by {
        assert(arch_ok(s.archetypes[b], b, infos));
    }
    assert forall|b: int, q: int|
        0 <= b < t.archetypes.len() && 0 <= q < t.archetypes[b].entities.len() implies location_of(
        t.entities,
        #[trigger] t.archetypes[b].entities[q],
    ) == Some(at(b, q)) by {
        if b == a {
            if q == r {
                assert(arch.entities[q] == m);
            } else {
                let x = old_arch.entities[q];
                assert(arch.entities[q] == x);
                assert(location_of(s.entities, s.archetypes[a].entities[q]) == Some(at(a, q)));
                assert(x != e) by {
                    if x == e {
                        lemma_distinct_rows(s, infos, a, q, a, r);
                    }
                }
                assert(x != m || !moved) by {
                    if x == m {
                        lemma_distinct_rows(s, infos, a, q, a, n - 1);
                    }
                }
            }
        } else {
            let x = s.archetypes[b].entities[q];
            assert(t.archetypes[b].entities[q] == x);
            assert(location_of(s.entities, x) == Some(at(b, q)));
            assert(at(b, q).archetype_id.0 == b);
            assert(x != e);
            assert(x != m);
        }
    }
    assert forall|x: Entity| #[trigger] location_of(t.entities, x) is Some implies {
        let l = location_of(t.entities, x)->0;
        let b = l.archetype_id.0 as int;
        &&& b < t.archetypes.len()
        &&& l.row < t.archetypes[b].entities.len()
        &&& t.archetypes[b].entities[l.row as int] == x
    } by {
        assert(x != e);
        if moved && x == m {
            assert(arch.entities[r] == m);
        } else {
            assert(location_of(s.entities, x) is Some);
            let l = location_of(s.entities, x)->0;
            let b = l.archetype_id.0 as int;
            if b == a {
                assert(old_arch.entities[l.row as int] == x);
                assert(l.row != r);
                assert(l.row != n - 1);
                assert(arch.entities[l.row as int] == x);
            }
        }
    }
    assert forall|b: int, c: int| 0 <= b < c < t.archetypes.len() implies (
    #[trigger] t.archetypes[b]).ids != (#[trigger] t.archetypes[c]).ids by {
        assert(s.archetypes[b].ids != s.archetypes[c].ids);
    }
    assert forall|x: Entity|
        #![trigger location_of(t.entities, x)]
        #![trigger location_of(s.entities, x)]
        x != e implies (location_of(t.entities, x) is Some <==> location_of(s.entities, x) is Some)
        && (forall|c: u32| #[trigger] cell(t, x, c) == cell(s, x, c)) by {
        if moved && x == m {
            assert(location_of(t.entities, x) == Some(at(a, r)));
            assert(location_of(s.entities, x) == Some(at(a, n - 1)));
        } else {
            assert(location_of(t.entities, x) == location_of(s.entities, x));
        }
        assert forall|c: u32| #[trigger] cell(t, x, c) == cell(s, x, c) by {
            if location_of(s.entities, x) is Some {
                let l = location_of(s.entities, x)->0;
                let b = l.archetype_id.0 as int;
                assert(s.archetypes[b].entities[l.row as int] == x);
                if b == a {
                    if let Some(i) = column_of(old_arch, c) {
                        assert(column_of(arch, c) == Some(i));
                        assert(old_arch.ids.contains(c));
                        assert(0 <= i < old_arch.ids.len());
                        assert(column_wf(old_arch.columns[i]));
                        assert(old_arch.columns[i].rows.len() == n);
                        assert(arch.columns[i] == row_removed(old_arch.columns[i], r));
                        assert(l.row != r);
                    }
                }
            }
        }
    }
}

/// A component of an entity: its value with its ticks.
pub struct StoredPart {
    pub id: ComponentId,
    pub value: Vec<u8>,
    pub changed: Tick,
    pub added: Tick,
}

/// The value and ticks of a part.
pub open spec fn cell_of(p: StoredPart) -> CellState {
    CellState { value: p.value@, changed: p.changed, added: p.added }
}

/// The components of parts.
pub open spec fn part_ids(parts: Seq<StoredPart>) -> Seq<u32> {
    parts.map_values(|p: StoredPart| p.id.0)
}

/// The values and ticks of parts.
pub open spec fn part_cells(parts: Seq<StoredPart>) -> Seq<CellState> {
    parts.map_values(|p: StoredPart| cell_of(p))
}

/// Whether each part is of a registered component and has its size.
pub open spec fn parts_fit(parts: Seq<StoredPart>, infos: Seq<InfoView>) -> bool {
    forall|i: int|
        0 <= i < parts.len() ==> (#[trigger] parts[i]).id.0 < infos.len()
            && parts[i].value@.len() == infos[parts[i].id.0 as int].size
}

/// Archetypes among the first `n` that have a component, in ascending order.
pub open spec fn having(archetypes: Seq<ArchState>, component: u32, n: nat) -> Seq<usize>
    decreases n,
{
    if n == 0 {
        Seq::empty()
    } else {
        let head = having(archetypes, component, (n - 1) as nat);
        if archetypes[n - 1].ids.contains(component) {
            head.push((n - 1) as usize)
        } else {
            head
        }
    }
}

/// Whether two lists of archetypes have the same components throughout.
pub open spec fn same_ids(s: Seq<ArchState>, t: Seq<ArchState>) -> bool {
    s.len() == t.len() && forall|i: int|
        0 <= i < s.len() ==> (#[trigger] t[i]).ids == s[i].ids
}

proof fn lemma_having_same(s: Seq<ArchState>, t: Seq<ArchState>, component: u32, n: nat)
    requires
        n <= s.len(),
        n <= t.len(),
        forall|i: int| 0 <= i < n ==> (#[trigger] t[i]).ids == s[i].ids,
    ensures
        having(t, component, n) == having(s, component, n),
    decreases n,
{
    if n > 0 {
        lemma_having_same(s, t, component, (n - 1) as nat);
        assert(t[n - 1].ids == s[n - 1].ids);
    }
}

/// The list of the archetypes that have a component names each of them once, in ascending order.
pub proof fn law_component_index(archetypes: Seq<ArchState>, component: u32, n: nat, i: usize)
    requires
        n <= archetypes.len() <= usize::MAX,
    ensures
        having(archetypes, component, n).contains(i) <==> i < n
            && archetypes[i as int].ids.contains(component),
        forall|a: int, b: int|
            0 <= a < b < having(archetypes, component, n).len() ==> #[trigger] having(
                archetypes,
                component,
                n,
            )[a] < #[trigger] having(archetypes, component, n)[b],
        forall|a: int|
            0 <= a < having(archetypes, component, n).len() ==> #[trigger] having(
                archetypes,
                component,
                n,
            )[a] < n,
    decreases n,
{
    if n > 0 {
        law_component_index(archetypes, component, (n - 1) as nat, i);
        let head = having(archetypes, component, (n - 1) as nat);
        let all = having(archetypes, component, n);
        if archetypes[n - 1].ids.contains(component) {
            assert(all[head.len() as int] == (n - 1) as usize);
            assert forall|x: usize| all.contains(x) <==> head.contains(x) || x == (n - 1) as usize by {
                if head.contains(x) {
                    let k = choose|k: int| 0 <= k < head.len() && head[k] == x;
                    assert(all[k] == x);
                }
            }
        }
    }
}

/// Entities and archetypes.
pub struct Storage {
    entities: EntityAllocator,
    archetypes: Vec<Archetype>,
    component_index: FxHashMap<u64, Vec<usize>>,
}

impl View for Storage {
    type V = StoreState;

    closed spec fn view(&self) -> StoreState {
        StoreState {
            entities: self.entities@,
            archetypes: self.archetypes@.map_values(|a: Archetype| a@),
        }
    }
}

impl Storage {
    closed spec fn indexed(&self, component: u32) -> Seq<usize> {
        if self.component_index@.contains_key(component as u64) {
            self.component_index@[component as u64]@
        } else {
            Seq::empty()
        }
    }

    closed spec fn index_ok(&self) -> bool {
        forall|c: u32| #[trigger]
            self.indexed(c) == having(self@.archetypes, c, self@.archetypes.len())
    }

    closed spec fn parts_wf(&self) -> bool {
        &&& self.entities.wf()
        &&& forall|i: int|
            0 <= i < self.archetypes@.len() ==> (#[trigger] self.archetypes@[i]).wf()
    }

    /// The storage's invariant, for the component types in `infos`.
    pub closed spec fn wf(&self, infos: Seq<InfoView>) -> bool {
        self.parts_wf() && self.index_ok() && store_wf(self@, infos)
    }

    /// The invariant, as it shows in the state.
    pub proof fn lemma_wf(&self, infos: Seq<InfoView>)
        requires
            self.wf(infos),
        ensures
            store_wf(self@, infos),
    {
    }

    /// More component types do no harm.
    pub proof fn lemma_more_infos(&self, infos: Seq<InfoView>, more: Seq<InfoView>)
        requires
            self.wf(infos),
            infos.len() <= more.len(),
            forall|i: int|
                0 <= i < infos.len() ==> (#[trigger] more[i]).size == infos[i].size,
        ensures
            self.wf(more),
    {
        assert forall|a: int| 0 <= a < self@.archetypes.len() implies arch_ok(
            #[trigger] self@.archetypes[a],
            a,
            more,
        ) by {
            assert(arch_ok(self@.archetypes[a], a, infos));
        }
    }

    /// A storage without entities: its only archetype is the one without components.
    pub fn new() -> (s: Storage)
        ensures
            s.wf(Seq::empty()),
            s@.archetypes.len() == 1,
            s@.archetypes[0].ids.len() == 0,
            s@.archetypes[0].entities.len() == 0,
            s@.entities.high_water == 0,
            s@.entities.generations.len() == 0,
            s@.entities.free_list.len() == 0,
            s@.entities.lease.len() == 0,
            s@.entities.unconsumed == 0,
            s@.entities.abandoned.len() == 0,
    {
        let infos: Vec<&ComponentInfo> = Vec::new();
        let empty: Archetype = Archetype::new(
            ArchetypeId(0),
            IdList::new(),
            infos.as_slice(),
        );
        let ghost a = empty@;
        proof {
            empty.lemma_wf();
        }
        let mut archetypes: Vec<Archetype> = Vec::new();
        archetypes.push(empty);
        let s = Storage {
            entities: EntityAllocator::new(),
            archetypes,
            component_index: map_new(),
        };
        proof {
            assert(s@.archetypes =~= seq![a]);
            assert(s.entities@.generations.len() == 0);
            assert forall|c: u32| #[trigger] s.indexed(c) == having(
                s@.archetypes,
                c,
                s@.archetypes.len(),
            ) by {
                assert(having(s@.archetypes, c, 0) =~= Seq::<usize>::empty());
                assert(having(s@.archetypes, c, 1) =~= Seq::<usize>::empty());
            }
            s.entities.lemma_wf();
        }
        s
    }

    /// The entity allocator.
    pub fn entities(&self) -> (e: &EntityAllocator)
        requires
            exists|infos: Seq<InfoView>| self.wf(infos),
        ensures
            e.wf(),
            e@ == self@.entities,
    {
        &self.entities
    }

    /// An archetype.
    pub fn archetype(&self, i: usize) -> (a: &Archetype)
        requires
            exists|infos: Seq<InfoView>| self.wf(infos),
            i < self@.archetypes.len(),
        ensures
            a.wf(),
            a@ == self@.archetypes[i as int],
    {
        &self.archetypes[i]
    }

    /// Number of archetypes.
    pub fn archetype_count(&self) -> (n: usize)
        ensures
            n == self@.archetypes.len(),
    {
        self.archetypes.len()
    }

    /// Archetypes that have a component, in ascending order.
    pub fn archetypes_with(&self, id: ComponentId) -> (list: Vec<usize>)
        requires
            exists|infos: Seq<InfoView>| self.wf(infos),
        ensures
            list@ == having(self@.archetypes, id.0, self@.archetypes.len()),
    {
        assert(self.indexed(id.0) == having(self@.archetypes, id.0, self@.archetypes.len()));
        match map_get(&self.component_index, id.0 as u64) {
            Some(list) => {
                let mut out: Vec<usize> = Vec::new();
                let mut i: usize = 0;
                while i < list.len()
                    invariant
                        i <= list@.len(),
                        out@ == list@.subrange(0, i as int),
                    decreases list.len() - i,
                {
                    out.push(list[i]);
                    i = i + 1;
                    assert(out@ =~= list@.subrange(0, i as int));
                }
                assert(out@ =~= list@);
                out
            },
            None => Vec::new(),
        }
    }

    /// Place of the archetype with exactly these components.
    pub fn find_archetype(&self, ids: &[u32]) -> (found: Option<usize>)
        ensures
            match found {
                Some(i) => i < self@.archetypes.len() && self@.archetypes[i as int].ids == ids@,
                None => forall|i: int|
                    0 <= i < self@.archetypes.len() ==> (#[trigger] self@.archetypes[i]).ids != ids@,
            },
    {
        let mut i: usize = 0;
        while i < self.archetypes.len()
            invariant
                i <= self.archetypes@.len() == self@.archetypes.len(),
                forall|k: int| 0 <= k < i ==> (#[trigger] self@.archetypes[k]).ids != ids@,
            decreases self.archetypes.len() - i,
        {
            assert(self@.archetypes[i as int] == self.archetypes@[i as int]@);
            if same_items(self.archetypes[i].component_ids(), ids) {
                return Some(i);
            }
            i = i + 1;
        }
        None
    }

    /// Place of the archetype with exactly these components, which is created where there is none.
    pub fn get_or_create_archetype(&mut self, registry: &ComponentRegistry, ids: Vec<u32>) -> (b:
        usize)
        requires
            old(self).wf(registry@.infos),
            registry.wf(),
            ascending_ids(ids@),
            forall|i: int| 0 <= i < ids@.len() ==> (#[trigger] ids@[i]) < registry@.infos.len(),
            old(self)@.archetypes.len() < u32::MAX,
        ensures
            final(self).wf(registry@.infos),
            b < final(self)@.archetypes.len(),
            final(self)@.archetypes[b as int].ids == ids@,
            final(self)@.archetypes.len() > old(self)@.archetypes.len() ==> b == old(
                self,
            )@.archetypes.len(),
            final(self)@.entities == old(self)@.entities,
            old(self)@.archetypes.len() <= final(self)@.archetypes.len() <= old(
                self,
            )@.archetypes.len() + 1,
            forall|i: int|
                0 <= i < old(self)@.archetypes.len() ==> (#[trigger] final(self)@.archetypes[i])
                    == old(self)@.archetypes[i],
            forall|i: int|
                old(self)@.archetypes.len() <= i < final(self)@.archetypes.len() ==> (
                #[trigger] final(self)@.archetypes[i]).entities.len() == 0,
            forall|e: Entity, c: u32| #[trigger]
                cell(final(self)@, e, c) == cell(old(self)@, e, c),
    {
        if let Some(b) = self.find_archetype(ids.as_slice()) {
            return b;
        }
        let ghost s = self@;
        let ghost infos = registry@.infos;
        let b: usize = self.archetypes.len();
        let mut list: IdList = IdList::new();
        let mut refs: Vec<&ComponentInfo> = Vec::new();
        let mut i: usize = 0;
        proof {
            registry.lemma_wf();
        }
        while i < ids.len()
            invariant
                i <= ids@.len(),
                registry.wf(),
                infos == registry@.infos,
                crate::registry::infos_wf(infos),
                forall|k: int| 0 <= k < ids@.len() ==> (#[trigger] ids@[k]) < infos.len(),
                id_items(list) == ids@.subrange(0, i as int),
                refs@.len() == i,
                forall|k: int| 0 <= k < i ==> (#[trigger] refs@[k])@ == infos[ids@[k] as int],
            decreases ids.len() - i,
        {
            list.push(ids[i]);
            assert(ids@[i as int] < infos.len());
            if let Some(info) = registry.get_info(ComponentId(ids[i])) {
                refs.push(info);
            }
            i = i + 1;
            assert(id_items(list) =~= ids@.subrange(0, i as int));
        }
        assert(id_items(list) =~= ids@);
        proof {
            assert forall|x: int, y: int|
                0 <= x < ids@.len() && 0 <= y < ids@.len() && x != y implies ids@[x] != ids@[y] by {
                if x < y {
                    assert(ids@[x] < ids@[y]);
                } else {
                    assert(ids@[y] < ids@[x]);
                }
            }
        }
        let fresh: Archetype = Archetype::new(ArchetypeId(b as u32), list, refs.as_slice());
        let ghost f = fresh@;
        proof {
            fresh.lemma_wf();
        }
        self.archetypes.push(fresh);
        let ghost pushed_state = self@;
        proof {
            assert(self@.archetypes =~= s.archetypes.push(f));
        }
        let ghost mid = *self;
        let mut k: usize = 0;
        assert forall|c: u32| #[trigger] self.indexed(c) == if ids@.subrange(0, 0).contains(c) {
            having(s.archetypes, c, s.archetypes.len()).push(b)
        } else {
            having(s.archetypes, c, s.archetypes.len())
        } by {
            assert(old(self).indexed(c) == having(s.archetypes, c, s.archetypes.len()));
        }
        while k < ids.len()
            invariant
                k <= ids@.len(),
                self.entities == mid.entities,
                self.archetypes == mid.archetypes,
                ascending_ids(ids@),
                forall|c: u32| #[trigger]
                    self.indexed(c) == if ids@.subrange(0, k as int).contains(c) {
                        having(s.archetypes, c, s.archetypes.len()).push(b)
                    } else {
                        having(s.archetypes, c, s.archetypes.len())
                    },
            decreases ids.len() - k,
        {
            let key: u64 = ids[k] as u64;
            let ghost prev = *self;
            let ghost head = ids@.subrange(0, k as int);
            let ghost tail = ids@.subrange(0, k + 1);
            proof {
                assert(!head.contains(ids@[k as int])) by {
                    if head.contains(ids@[k as int]) {
                        let x = choose|x: int| 0 <= x < head.len() && head[x] == ids@[k as int];
                        assert(ids@[x] < ids@[k as int]);
                    }
                }
                assert(prev.indexed(ids@[k as int]) == having(
                    s.archetypes,
                    ids@[k as int],
                    s.archetypes.len(),
                ));
            }
            if let Some(entry) = map_get_mut(&mut self.component_index, key) {
                entry.push(b);
            } else {
                let mut entry: Vec<usize> = Vec::new();
                entry.push(b);
                let none: Option<Vec<usize>> = map_insert(&mut self.component_index, key, entry);
            }
            proof {
                assert forall|c: u32| tail.contains(c) <==> head.contains(c) || c == ids@[k as int] by {
                    if head.contains(c) {
                        let x = choose|x: int| 0 <= x < head.len() && head[x] == c;
                        assert(tail[x] == c);
                    }
                    if c == ids@[k as int] {
                        assert(tail[k as int] == c);
                    }
                    if tail.contains(c) {
                        let x = choose|x: int| 0 <= x < tail.len() && tail[x] == c;
                        if x < k {
                            assert(head[x] == c);
                        }
                    }
                }
                assert forall|c: u32| #[trigger] self.indexed(c) == if tail.contains(c) {
                    having(s.archetypes, c, s.archetypes.len()).push(b)
                } else {
                    having(s.archetypes, c, s.archetypes.len())
                } by {
                    assert(prev.indexed(c) == if head.contains(c) {
                        having(s.archetypes, c, s.archetypes.len()).push(b)
                    } else {
                        having(s.archetypes, c, s.archetypes.len())
                    });
                    if c == ids@[k as int] {
                        assert(self.indexed(c) =~= prev.indexed(c).push(b));
                    } else {
                        assert(self.indexed(c) == prev.indexed(c));
                    }
                }
            }
            k = k + 1;
        }
        proof {
            let t = self@;
            assert(t == mid@);
            assert(ids@.subrange(0, ids@.len() as int) =~= ids@);
            assert forall|c: u32| #[trigger] self.indexed(c) == having(
                t.archetypes,
                c,
                t.archetypes.len(),
            ) by {
                lemma_having_same(s.archetypes, t.archetypes, c, s.archetypes.len());
                assert(t.archetypes[b as int].ids == ids@);
            }
            assert forall|a: int| 0 <= a < t.archetypes.len() implies arch_ok(
                #[trigger] t.archetypes[a],
                a,
                infos,
            ) by {
                if a < b {
                    assert(arch_ok(s.archetypes[a], a, infos));
                } else {
                    assert forall|x: int| 0 <= x < f.ids.len() implies (#[trigger] f.ids[x])
                        < infos.len() && f.columns[x].item_size == infos[f.ids[x] as int].size by {
                        assert(refs@[x]@ == infos[ids@[x] as int]);
                    }
                }
            }
            assert forall|x: int, y: int| 0 <= x < y < t.archetypes.len() implies (
            #[trigger] t.archetypes[x]).ids != (#[trigger] t.archetypes[y]).ids by {
                if y == b {
                    assert(s.archetypes[x].ids != ids@);
                } else {
                    assert(s.archetypes[x].ids != s.archetypes[y].ids);
                }
            }
            assert forall|a: int, r: int|
                0 <= a < t.archetypes.len() && 0 <= r < t.archetypes[a].entities.len() implies location_of(
                t.entities,
                #[trigger] t.archetypes[a].entities[r],
            ) == Some(at(a, r)) by {
                assert(a < b);
                assert(t.archetypes[a] == s.archetypes[a]);
                assert(location_of(s.entities, s.archetypes[a].entities[r]) == Some(at(a, r)));
            }
            assert forall|i: int|
                0 <= i < self.archetypes@.len() implies (#[trigger] self.archetypes@[i]).wf() by {
                if i < b {
                    assert(old(self).archetypes@[i].wf());
                }
            }
            assert forall|e: Entity, c: u32| #[trigger] cell(t, e, c) == cell(s, e, c) by {
                if location_of(s.entities, e) is Some {
                    let a = location_of(s.entities, e)->0.archetype_id.0 as int;
                    assert(t.archetypes[a] == s.archetypes[a]);
                }
            }
        }
        b
    }

    proof fn lemma_index_kept(&self, before: Storage)
        requires
            before.index_ok(),
            self.component_index == before.component_index,
            same_ids(before@.archetypes, self@.archetypes),
        ensures
            self.index_ok(),
    {
        assert forall|c: u32| #[trigger] self.indexed(c) == having(
            self@.archetypes,
            c,
            self@.archetypes.len(),
        ) by {
            assert(before.indexed(c) == having(before@.archetypes, c, before@.archetypes.len()));
            lemma_having_same(before@.archetypes, self@.archetypes, c, self@.archetypes.len());
        }
    }

    /// Puts an unlocated entity into an archetype.
    fn place(
        &mut self,
        registry: &ComponentRegistry,
        b: usize,
        e: Entity,
        parts: &Vec<StoredPart>,
    )
        requires
            old(self).wf(registry@.infos),
            b < old(self)@.archetypes.len(),
            old(self)@.archetypes[b as int].ids == part_ids(parts@),
            parts_fit(parts@, registry@.infos),
            is_current(old(self)@.entities, e),
            location_of(old(self)@.entities, e) is None,
        ensures
            final(self).wf(registry@.infos),
            final(self)@ == placed_in(old(self)@, b as int, e, part_cells(parts@)),
            same_slots(old(self)@.entities, final(self)@.entities),
            location_of(final(self)@.entities, e) is Some,
            others_same(old(self)@, final(self)@, e),
            forall|c: u32| #[trigger] cell(final(self)@, e, c) == lookup(parts@, c),
    {
        let ghost s = self@;
        let ghost infos = registry@.infos;
        let ghost arch = s.archetypes[b as int];
        let ghost cells = part_cells(parts@);
        proof {
            assert(arch_ok(arch, b as int, infos));
            assert forall|i: int| 0 <= i < cells.len() implies (#[trigger] cells[i]).value.len()
                == arch.columns[i].item_size by {
                assert(parts@[i].value@.len() == infos[parts@[i].id.0 as int].size);
                assert(arch.ids[i] == parts@[i].id.0);
            }
            lemma_place(s, infos, b as int, e, cells);
            lemma_rows_fit(s, infos, b as int);
            assert(s.archetypes[b as int].entities.len() < u32::MAX) by {
                let t = placed_in(s, b as int, e, cells);
                lemma_rows_fit(t, infos, b as int);
            }
        }
        let row: usize = self.archetypes[b].allocate_row(e);
        let mut i: usize = 0;
        while i < parts.len()
            invariant
                i <= parts@.len(),
                b < self.archetypes@.len(),
                self.archetypes@.len() == s.archetypes.len(),
                row == arch.entities.len(),
                row < u32::MAX,
                infos == registry@.infos,
                arch == s.archetypes[b as int],
                arch_ok(arch, b as int, infos),
                arch.ids == part_ids(parts@),
                parts_fit(parts@, infos),
                cells == part_cells(parts@),
                forall|k: int|
                    0 <= k < cells.len() ==> (#[trigger] cells[k]).value.len()
                        == arch.columns[k].item_size,
                self.parts_wf(),
                self.entities == old(self).entities,
                self.component_index == old(self).component_index,
                self@.archetypes == s.archetypes.update(b as int, self@.archetypes[b as int]),
                self@.archetypes[b as int] == (ArchState {
                    columns: self@.archetypes[b as int].columns,
                    entities: arch.entities.push(e),
                    ..arch
                }),
                self@.archetypes[b as int].columns.len() == arch.columns.len(),
                forall|k: int|
                    0 <= k < arch.columns.len() ==> (
                    #[trigger] self@.archetypes[b as int].columns[k]) == if k < i {
                        pushed(
                            arch.columns[k],
                            cells[k].value,
                            cells[k].changed,
                            cells[k].added,
                        )
                    } else {
                        arch.columns[k]
                    },
            decreases parts.len() - i,
        {
            let ghost before = *self;
            let ghost cur = self@.archetypes[b as int];
            proof {
                assert(cur == self.archetypes@[b as int]@);
                assert(arch.ids[i as int] == parts@[i as int].id.0);
                assert(cur.ids.contains(cur.ids[i as int]));
                let j = cur.ids.index_of(parts@[i as int].id.0);
                assert(cur.ids[j] == parts@[i as int].id.0);
                assert(j == i);
                assert(cells[i as int].value.len() == arch.columns[i as int].item_size);
                assert(arch.columns[i as int].rows.len() == arch.entities.len());
                assert(self.archetypes@[b as int].wf());
            }
            self.archetypes[b].push_moved(
                parts[i].id,
                parts[i].value.as_slice(),
                parts[i].changed,
                parts[i].added,
            );
            proof {
                let now = self@.archetypes[b as int];
                assert(now == self.archetypes@[b as int]@);
                assert(now.columns == cur.columns.update(
                    i as int,
                    pushed(
                        arch.columns[i as int],
                        cells[i as int].value,
                        cells[i as int].changed,
                        cells[i as int].added,
                    ),
                ));
                assert forall|k: int| 0 <= k < s.archetypes.len() && k != b implies (
                #[trigger] self@.archetypes[k]) == s.archetypes[k] by {
                    assert(self.archetypes@[k] == before.archetypes@[k]);
                    assert(before@.archetypes[k] == before.archetypes@[k]@);
                    assert(before@.archetypes[k] == s.archetypes.update(b as int, cur)[k]);
                }
                assert(self@.archetypes.len() == before@.archetypes.len());
                assert(self@.archetypes =~= s.archetypes.update(b as int, now));
                assert forall|k: int| 0 <= k < self.archetypes@.len() implies (
                #[trigger] self.archetypes@[k]).wf() by {
                    if k != b {
                        assert(self.archetypes@[k] == before.archetypes@[k]);
                        assert(before.archetypes@[k].wf());
                    }
                }
            }
            i = i + 1;
        }
        self.entities.set_location(
            e,
            EntityLocation { archetype_id: ArchetypeId(b as u32), row: row as u32 },
        );
        proof {
            let t = placed_in(s, b as int, e, cells);
            assert(self@.archetypes[b as int].columns =~= t.archetypes[b as int].columns);
            assert(self@.archetypes =~= t.archetypes);
            assert(self@ == t);
            self.lemma_index_kept(*old(self));
            assert forall|c: u32| #[trigger] cell(t, e, c) == lookup(parts@, c) by {
                if let Some(k) = column_of(arch, c) {
                    assert(arch.ids.contains(c));
                    assert(cells[k] == cell_of(parts@[k]));
                }
            }
        }
    }

    /// Takes a live entity out of its row; its handle stays current.
    fn take(&mut self, registry: &ComponentRegistry, e: Entity)
        requires
            old(self).wf(registry@.infos),
            location_of(old(self)@.entities, e) is Some,
        ensures
            final(self).wf(registry@.infos),
            final(self)@ == taken_out(old(self)@, e),
            same_slots(old(self)@.entities, final(self)@.entities),
            is_current(final(self)@.entities, e),
            location_of(final(self)@.entities, e) is None,
            others_same(old(self)@, final(self)@, e),
    {
        let ghost s = self@;
        let ghost infos = registry@.infos;
        proof {
            lemma_take(s, infos, e);
        }
        if let Some(loc) = self.entities.get_location(e) {
            let a: usize = loc.archetype_id.0 as usize;
            let row: usize = loc.row as usize;
            proof {
                assert(arch_ok(s.archetypes[a as int], a as int, infos));
                assert(self.archetypes@[a as int]@ == s.archetypes[a as int]);
            }
            let moved: Option<Entity> = self.archetypes[a].remove_row(row);
            self.entities.clear_location(e);
            if let Some(m) = moved {
                self.entities.set_location(m, loc);
            }
            proof {
                let t = taken_out(s, e);
                assert(self@.archetypes =~= t.archetypes);
                assert(self@ == t);
                assert forall|k: int| 0 <= k < self.archetypes@.len() implies (
                #[trigger] self.archetypes@[k]).wf() by {
                    if k != a {
                        assert(self.archetypes@[k] == old(self).archetypes@[k]);
                        assert(old(self).archetypes@[k].wf());
                    }
                }
                self.lemma_index_kept(*old(self));
            }
        }
    }

    /// The components of a live entity, in ascending order.
    pub fn gather(&self, registry: &ComponentRegistry, e: Entity) -> (parts: Vec<StoredPart>)
        requires
            self.wf(registry@.infos),
            location_of(self@.entities, e) is Some,
        ensures
            ascending_ids(part_ids(parts@)),
            parts_fit(parts@, registry@.infos),
            part_ids(parts@) == self@.archetypes[location_of(
                self@.entities,
                e,
            )->0.archetype_id.0 as int].ids,
            forall|c: u32| #[trigger] lookup(parts@, c) == cell(self@, e, c),
    {
        let ghost infos = registry@.infos;
        let mut parts: Vec<StoredPart> = Vec::new();
        if let Some(loc) = self.entities.get_location(e) {
            let a: usize = loc.archetype_id.0 as usize;
            let row: usize = loc.row as usize;
            let ghost arch = self@.archetypes[a as int];
            proof {
                assert(arch_ok(arch, a as int, infos));
                assert(self.archetypes@[a as int].wf());
                assert(self.archetypes@[a as int]@ == arch);
            }
            let ids: &[u32] = self.archetypes[a].component_ids();
            let mut i: usize = 0;
            while i < ids.len()
                invariant
                    i <= ids@.len(),
                    a < self.archetypes@.len(),
                    self.archetypes@[a as int].wf(),
                    self.archetypes@[a as int]@ == arch,
                    arch_ok(arch, a as int, infos),
                    row < arch.entities.len(),
                    ids@ == arch.ids,
                    parts@.len() == i,
                    forall|k: int|
                        0 <= k < i ==> (#[trigger] parts@[k]).id.0 == arch.ids[k] && cell_of(
                            parts@[k],
                        ) == (CellState {
                            value: arch.columns[k].rows[row as int],
                            changed: arch.columns[k].changed[row as int],
                            added: arch.columns[k].added[row as int],
                        }),
                decreases ids.len() - i,
            {
                proof {
                    assert(column_wf(arch.columns[i as int]));
                    assert(arch.columns[i as int].rows.len() == arch.entities.len());
                }
                let col: &crate::column::Column = self.archetypes[a].column(i);
                parts.push(
                    StoredPart {
                        id: ComponentId(ids[i]),
                        value: bytes_of(col.get(row)),
                        changed: col.get_tick(row),
                        added: col.get_added_tick(row),
                    },
                );
                i = i + 1;
            }
            proof {
                assert(part_ids(parts@) =~= arch.ids);
                assert forall|k: int| 0 <= k < parts@.len() implies (#[trigger] parts@[k]).id.0
                    < infos.len() && parts@[k].value@.len() == infos[parts@[k].id.0 as int].size by {
                    assert(arch.ids[k] < infos.len());
                    assert(column_wf(arch.columns[k]));
                    assert(arch.columns[k].rows.len() == arch.entities.len());
                }
                assert forall|c: u32| #[trigger] lookup(parts@, c) == cell(self@, e, c) by {
                    if arch.ids.contains(c) {
                        let k = arch.ids.index_of(c);
                        assert(arch.ids[k] == c);
                        assert(cell_of(parts@[k]).value == arch.columns[k].rows[row as int]);
                    }
                }
            }
        }
        parts
    }

    /// The value of a component of an entity.
    pub fn get(&self, registry: &ComponentRegistry, e: Entity, id: ComponentId) -> (value: Option<
        &[u8],
    >)
        requires
            self.wf(registry@.infos),
        ensures
            match cell(self@, e, id.0) {
                Some(c) => value is Some && value->0@ == c.value,
                None => value is None,
            },
    {
        match self.entities.get_location(e) {
            Some(loc) => {
                let a: usize = loc.archetype_id.0 as usize;
                proof {
                    let arch = self@.archetypes[a as int];
                    assert(arch_ok(arch, a as int, registry@.infos));
                    assert(self.archetypes@[a as int].wf());
                    assert(self.archetypes@[a as int]@ == arch);
                    if let Some(i) = column_of(arch, id.0) {
                        assert(arch.ids.contains(id.0));
                        assert(0 <= i < arch.columns.len());
                        assert(arch.columns[i].rows.len() == arch.entities.len());
                    }
                }
                self.archetypes[a].get_component(loc.row as usize, id)
            },
            None => None,
        }
    }
}

/// The state with a component of a live entity overwritten.
pub open spec fn overwritten(
    s: StoreState,
    e: Entity,
    component: u32,
    value: Seq<u8>,
    tick: Tick,
) -> StoreState {
    let loc = location_of(s.entities, e)->0;
    let a = loc.archetype_id.0 as int;
    StoreState {
        archetypes: s.archetypes.update(
            a,
            component_written(s.archetypes[a], loc.row as nat, component, value, tick),
        ),
        ..s
    }
}

proof fn lemma_overwrite(
    s: StoreState,
    infos: Seq<InfoView>,
    e: Entity,
    component: u32,
    value: Seq<u8>,
    tick: Tick,
)
    requires
        store_wf(s, infos),
        cell(s, e, component) is Some,
        component < infos.len() ==> value.len() == infos[component as int].size,
    ensures
        store_wf(overwritten(s, e, component, value, tick), infos),
        others_same(s, overwritten(s, e, component, value, tick), e),
        forall|c: u32| #[trigger]
            cell(overwritten(s, e, component, value, tick), e, c) == if c == component {
                Some(CellState { value, changed: tick, added: cell(s, e, component)->0.added })
            } else {
                cell(s, e, c)
            },
{
    let t = overwritten(s, e, component, value, tick);
    let loc = location_of(s.entities, e)->0;
    let b = loc.archetype_id.0 as int;
    let r = loc.row as int;
    let old_arch = s.archetypes[b];
    let arch = t.archetypes[b];
    assert(arch_ok(old_arch, b, infos));
    let k = column_of(old_arch, component)->0;
    assert(old_arch.ids.contains(component));
    assert(0 <= k < old_arch.ids.len() && old_arch.ids[k] == component);
    assert(old_arch.columns[k].rows.len() == old_arch.entities.len());
    assert(column_wf(old_arch.columns[k]));
    assert(arch == with_column(old_arch, k, row_written(old_arch.columns[k], r, value, tick)));
    assert forall|a: int| 0 <= a < t.archetypes.len() implies arch_ok(
        #[trigger] t.archetypes[a],
        a,
        infos,
    ) by {
        assert(arch_ok(s.archetypes[a], a, infos));
        if a == b {
            assert forall|i: int| 0 <= i < arch.columns.len() implies column_wf(
                #[trigger] arch.columns[i],
            ) && arch.columns[i].id == arch.ids[i] && arch.columns[i].rows.len()
                == arch.entities.len() && arch.columns[i].item_size
                == old_arch.columns[i].item_size by {
                assert(column_wf(old_arch.columns[i]));
                assert(old_arch.columns[i].rows.len() == old_arch.entities.len());
                if i == k {
                    let c = arch.columns[i];
                    assert(old_arch.ids[k] < infos.len());
                    assert forall|q: int| 0 <= q < c.rows.len() implies (
                    #[trigger] c.rows[q]).len() == c.item_size by {
                        if q != r {
                            assert(c.rows[q] == old_arch.columns[i].rows[q]);
                        }
                    }
                }
            }
        }
    }
    assert forall|a: int, c: int| 0 <= a < c < t.archetypes.len() implies (
    #[trigger] t.archetypes[a]).ids != (#[trigger] t.archetypes[c]).ids by {
        assert(s.archetypes[a].ids != s.archetypes[c].ids);
    }
    assert forall|a: int, q: int|
        0 <= a < t.archetypes.len() && 0 <= q < t.archetypes[a].entities.len() implies location_of(
        t.entities,
        #[trigger] t.archetypes[a].entities[q],
    ) == Some(at(a, q)) by {
        assert(t.archetypes[a].entities == s.archetypes[a].entities);
        assert(location_of(s.entities, s.archetypes[a].entities[q]) == Some(at(a, q)));
    }
    assert(located_rows(t)) by {
        assert forall|x: Entity| #[trigger] location_of(t.entities, x) is Some implies {
            let l = location_of(t.entities, x)->0;
            let a = l.archetype_id.0 as int;
            &&& a < t.archetypes.len()
            &&& l.row < t.archetypes[a].entities.len()
            &&& t.archetypes[a].entities[l.row as int] == x
        } by {
            assert(location_of(s.entities, x) is Some);
            let l = location_of(s.entities, x)->0;
            assert(t.archetypes[l.archetype_id.0 as int].entities
                == s.archetypes[l.archetype_id.0 as int].entities);
        }
    }
    assert forall|x: Entity|
        #![trigger location_of(t.entities, x)]
        #![trigger location_of(s.entities, x)]
        x != e implies (location_of(t.entities, x) is Some <==> location_of(s.entities, x) is Some)
        && (forall|c: u32| #[trigger] cell(t, x, c) == cell(s, x, c)) by {
        assert forall|c: u32| #[trigger] cell(t, x, c) == cell(s, x, c) by {
            if location_of(s.entities, x) is Some {
                let l = location_of(s.entities, x)->0;
                if l.archetype_id.0 as int == b {
                    assert(old_arch.entities[r] == e);
                    assert(old_arch.entities[l.row as int] == x);
                    assert(l.row != r);
                    if let Some(i) = column_of(old_arch, c) {
                        assert(column_of(arch, c) == Some(i));
                        assert(old_arch.ids.contains(c));
                        assert(column_wf(old_arch.columns[i]));
                        assert(old_arch.columns[i].rows.len() == old_arch.entities.len());
                    }
                }
            }
        }
    }
    assert forall|c: u32| #[trigger] cell(t, e, c) == if c == component {
        Some(CellState { value, changed: tick, added: cell(s, e, component)->0.added })
    } else {
        cell(s, e, c)
    } by {
        if let Some(i) = column_of(old_arch, c) {
            assert(column_of(arch, c) == Some(i));
            assert(old_arch.ids.contains(c));
            assert(old_arch.ids[i] == c);
            assert(column_wf(old_arch.columns[i]));
            assert(old_arch.columns[i].rows.len() == old_arch.entities.len());
        }
    }
}

impl Storage {
    /// Overwrites a component that a live entity has.
    pub fn overwrite(
        &mut self,
        registry: &ComponentRegistry,
        e: Entity,
        id: ComponentId,
        value: &[u8],
        tick: Tick,
    )
        requires
            old(self).wf(registry@.infos),
            cell(old(self)@, e, id.0) is Some,
            id.0 < registry@.infos.len() ==> value@.len() == registry@.infos[id.0 as int].size,
        ensures
            final(self).wf(registry@.infos),
            final(self)@ == overwritten(old(self)@, e, id.0, value@, tick),
            final(self)@.entities == old(self)@.entities,
            others_same(old(self)@, final(self)@, e),
            forall|c: u32| #[trigger]
                cell(final(self)@, e, c) == if c == id.0 {
                    Some(
                        CellState {
                            value: value@,
                            changed: tick,
                            added: cell(old(self)@, e, id.0)->0.added,
                        },
                    )
                } else {
                    cell(old(self)@, e, c)
                },
    {
        let ghost s = self@;
        let ghost infos = registry@.infos;
        proof {
            lemma_overwrite(s, infos, e, id.0, value@, tick);
        }
        if let Some(loc) = self.entities.get_location(e) {
            let a: usize = loc.archetype_id.0 as usize;
            let ghost arch = s.archetypes[a as int];
            proof {
                assert(arch_ok(arch, a as int, infos));
                assert(self.archetypes@[a as int].wf());
                assert(self.archetypes@[a as int]@ == arch);
                lemma_rows_fit(s, infos, a as int);
                let i = column_of(arch, id.0)->0;
                assert(arch.ids.contains(id.0));
                assert(arch.ids[i] == id.0);
                assert(arch.columns[i].rows.len() == arch.entities.len());
                assert(arch.columns[i].item_size == value@.len());
                assert(s.entities.generations.len() <= u32::MAX);
                assert(loc.row < arch.entities.len());
            }
            self.archetypes[a].write_component(loc.row as usize, id, value, tick);
            proof {
                let t = overwritten(s, e, id.0, value@, tick);
                assert(self@.archetypes =~= t.archetypes);
                assert(self@ == t);
                assert forall|k: int| 0 <= k < self.archetypes@.len() implies (
                #[trigger] self.archetypes@[k]).wf() by {
                    if k != a {
                        assert(self.archetypes@[k] == old(self).archetypes@[k]);
                        assert(old(self).archetypes@[k].wf());
                    }
                }
                self.lemma_index_kept(*old(self));
            }
        }
    }
}

/// The value and ticks of a component among parts, if it is there.
pub open spec fn lookup(parts: Seq<StoredPart>, component: u32) -> Option<CellState> {
    if part_ids(parts).contains(component) {
        Some(cell_of(parts[part_ids(parts).index_of(component)]))
    } else {
        None
    }
}

/// What becomes of a component when `p` is written over it: a component that was there keeps the
/// tick at which it was added.
pub open spec fn overlaid(before: Option<CellState>, p: StoredPart) -> CellState {
    CellState {
        value: p.value@,
        changed: p.changed,
        added: match before {
            Some(c) => c.added,
            None => p.added,
        },
    }
}

/// What becomes of a component when the first `n` of `parts` are written one after the other.
pub open spec fn written(
    before: Option<CellState>,
    parts: Seq<StoredPart>,
    component: u32,
    n: nat,
) -> Option<CellState>
    decreases n,
{
    if n == 0 {
        before
    } else {
        let head = written(before, parts, component, (n - 1) as nat);
        if parts[n - 1].id.0 == component {
            Some(overlaid(head, parts[n - 1]))
        } else {
            head
        }
    }
}

proof fn lemma_lookup(parts: Seq<StoredPart>, i: int)
    requires
        ascending_ids(part_ids(parts)),
        0 <= i < parts.len(),
    ensures
        lookup(parts, parts[i].id.0) == Some(cell_of(parts[i])),
{
    let ids = part_ids(parts);
    let c = parts[i].id.0;
    assert(ids[i] == c);
    assert(ids.contains(c));
    let j = ids.index_of(c);
    assert(ids[j] == c);
    if i < j {
        assert(ids[i] < ids[j]);
    } else if j < i {
        assert(ids[j] < ids[i]);
    }
}

/// Writes a part into a list that ascends by component: over the part of that component, or at
/// its place.
fn upsert(list: &mut Vec<StoredPart>, part: StoredPart)
    requires
        ascending_ids(part_ids(old(list)@)),
    ensures
        ascending_ids(part_ids(final(list)@)),
        forall|c: u32| #[trigger]
            lookup(final(list)@, c) == if c == part.id.0 {
                Some(overlaid(lookup(old(list)@, c), part))
            } else {
                lookup(old(list)@, c)
            },
        forall|c: u32| #[trigger]
            part_ids(final(list)@).contains(c) <==> part_ids(old(list)@).contains(c) || c
                == part.id.0,
        forall|infos: Seq<InfoView>|
            parts_fit(old(list)@, infos) && part.id.0 < infos.len() && part.value@.len()
                == infos[part.id.0 as int].size ==> #[trigger] parts_fit(final(list)@, infos),
{
    let ghost s = list@;
    let ghost sid = part_ids(s);
    let id: u32 = part.id.0;
    let mut i: usize = 0;
    while i < list.len() && list[i].id.0 < id
        invariant
            i <= list@.len(),
            list@ == s,
            id == part.id.0,
            forall|k: int| 0 <= k < i ==> (#[trigger] s[k]).id.0 < id,
        decreases list.len() - i,
    {
        i = i + 1;
    }
    if i < list.len() && list[i].id.0 == id {
        let added: Tick = list[i].added;
        proof {
            lemma_lookup(s, i as int);
        }
        let ghost p = StoredPart { id: part.id, value: part.value, changed: part.changed, added };
        list.set(i, StoredPart { id: part.id, value: part.value, changed: part.changed, added });
        proof {
            let t = list@;
            assert(part_ids(t) =~= sid);
            assert(sid[i as int] == id);
            assert(sid.contains(id));
            assert forall|c: u32| #[trigger] lookup(t, c) == if c == id {
                Some(overlaid(lookup(s, c), part))
            } else {
                lookup(s, c)
            } by {
                if c == id {
                    lemma_lookup(t, i as int);
                } else if sid.contains(c) {
                    let j = sid.index_of(c);
                    assert(sid[j] == c);
                    assert(t[j] == s[j]);
                }
            }
            assert forall|infos: Seq<InfoView>|
                parts_fit(s, infos) && part.id.0 < infos.len() && part.value@.len()
                    == infos[part.id.0 as int].size implies #[trigger] parts_fit(t, infos) by {
                assert forall|k: int| 0 <= k < t.len() implies (#[trigger] t[k]).id.0 < infos.len()
                    && t[k].value@.len() == infos[t[k].id.0 as int].size by {
                    if k != i {
                        assert(t[k] == s[k]);
                    }
                }
            }
        }
    } else {
        let ghost p = part;
        list.insert(i, part);
        proof {
            let t = list@;
            assert(t =~= s.insert(i as int, p));
            let tid = part_ids(t);
            assert(tid =~= sid.insert(i as int, id));
            assert forall|k: int| i <= k < s.len() implies (#[trigger] s[k]).id.0 > id by {
                if k > i {
                    assert(sid[i as int] < sid[k]);
                }
            }
            assert forall|a: int, b: int| 0 <= a < b < tid.len() implies #[trigger] tid[a]
                < #[trigger] tid[b] by {
                if a < i && b < i {
                    assert(sid[a] < sid[b]);
                } else if a < i && b == i {
                    assert(s[a].id.0 < id);
                } else if a < i {
                    assert(sid[a] < sid[b - 1]);
                } else if a == i {
                    assert(s[b - 1].id.0 > id);
                } else {
                    assert(sid[a - 1] < sid[b - 1]);
                }
            }
            assert(!sid.contains(id)) by {
                if sid.contains(id) {
                    let j = choose|j: int| 0 <= j < sid.len() && sid[j] == id;
                    assert(s[j].id.0 == id);
                }
            }
            assert forall|c: u32| #[trigger] tid.contains(c) <==> sid.contains(c) || c == id by {
                if sid.contains(c) {
                    let j = choose|j: int| 0 <= j < sid.len() && sid[j] == c;
                    assert(tid[if j < i { j } else { j + 1 }] == c);
                }
                if c == id {
                    assert(tid[i as int] == c);
                }
                if tid.contains(c) {
                    let j = choose|j: int| 0 <= j < tid.len() && tid[j] == c;
                    if j != i {
                        assert(sid[if j < i { j } else { j - 1 }] == c);
                    }
                }
            }
            assert forall|c: u32| #[trigger] lookup(t, c) == if c == id {
                Some(overlaid(lookup(s, c), p))
            } else {
                lookup(s, c)
            } by {
                if c == id {
                    lemma_lookup(t, i as int);
                } else if sid.contains(c) {
                    let j = sid.index_of(c);
                    assert(sid[j] == c);
                    let k = if j < i { j } else { j + 1 };
                    assert(t[k] == s[j]);
                    lemma_lookup(t, k);
                    lemma_lookup(s, j);
                }
            }
            assert forall|infos: Seq<InfoView>|
                parts_fit(s, infos) && p.id.0 < infos.len() && p.value@.len()
                    == infos[p.id.0 as int].size implies #[trigger] parts_fit(t, infos) by {
                assert forall|k: int| 0 <= k < t.len() implies (#[trigger] t[k]).id.0 < infos.len()
                    && t[k].value@.len() == infos[t[k].id.0 as int].size by {
                    if k < i {
                        assert(t[k] == s[k]);
                    } else if k > i {
                        assert(t[k] == s[k - 1]);
                    }
                }
            }
        }
    }
}

impl Storage {
    /// Whether a live entity has every component of `parts`.
    fn has_all(&self, registry: &ComponentRegistry, e: Entity, parts: &Vec<StoredPart>) -> (b: bool)
        requires
            self.wf(registry@.infos),
        ensures
            b == forall|i: int|
                0 <= i < parts@.len() ==> cell(self@, e, (#[trigger] parts@[i]).id.0) is Some,
    {
        let mut i: usize = 0;
        while i < parts.len()
            invariant
                i <= parts@.len(),
                self.wf(registry@.infos),
                forall|k: int|
                    0 <= k < i ==> cell(self@, e, (#[trigger] parts@[k]).id.0) is Some,
            decreases parts.len() - i,
        {
            if self.get(registry, e, parts[i].id).is_none() {
                assert(cell(self@, e, parts@[i as int].id.0) is None);
                return false;
            }
            i = i + 1;
        }
        true
    }

    /// Writes components of a live entity one after the other: over what it has, or new ones.
    /// The entity changes its archetype at most once.
    pub fn insert_parts(
        &mut self,
        registry: &ComponentRegistry,
        e: Entity,
        parts: &Vec<StoredPart>,
    )
        requires
            old(self).wf(registry@.infos),
            registry.wf(),
            location_of(old(self)@.entities, e) is Some,
            parts_fit(parts@, registry@.infos),
            old(self)@.archetypes.len() < u32::MAX,
        ensures
            final(self).wf(registry@.infos),
            same_slots(old(self)@.entities, final(self)@.entities),
            location_of(final(self)@.entities, e) is Some,
            others_same(old(self)@, final(self)@, e),
            forall|c: u32| #[trigger]
                cell(final(self)@, e, c) == written(
                    cell(old(self)@, e, c),
                    parts@,
                    c,
                    parts@.len(),
                ),
            final(self)@.archetypes.len() <= old(self)@.archetypes.len() + 1,
            tables(final(self)@.archetypes) == tables_moved(
                tables(old(self)@.archetypes),
                e,
                ids_at(final(self)@, e),
            ),
    {
        let ghost s = self@;
        let ghost infos = registry@.infos;
        proof {
            lemma_one_place(s, infos, e);
        }
        if self.has_all(registry, e, parts) {
            let mut i: usize = 0;
            while i < parts.len()
                invariant
                    i <= parts@.len(),
                    infos == registry@.infos,
                    self.wf(infos),
                    parts_fit(parts@, infos),
                    self@.entities == s.entities,
                    location_of(s.entities, e) is Some,
                    self@.archetypes.len() == s.archetypes.len(),
                    tables(self@.archetypes) == tables(s.archetypes),
                    others_same(s, self@, e),
                    forall|k: int|
                        0 <= k < parts@.len() ==> cell(s, e, (#[trigger] parts@[k]).id.0) is Some,
                    forall|c: u32| #[trigger]
                        cell(self@, e, c) == written(cell(s, e, c), parts@, c, i as nat),
                    forall|c: u32|
                        cell(s, e, c) is Some ==> (#[trigger] cell(self@, e, c)) is Some,
                decreases parts.len() - i,
            {
                let ghost prev = self@;
                let ghost p = parts@[i as int];
                proof {
                    assert(cell(s, e, p.id.0) is Some);
                    assert(cell(prev, e, p.id.0) is Some);
                }
                self.overwrite(
                    registry,
                    e,
                    parts[i].id,
                    parts[i].value.as_slice(),
                    parts[i].changed,
                );
                i = i + 1;
                proof {
                    assert(tables(self@.archetypes) =~= tables(prev.archetypes));
                    lemma_others_trans(s, prev, self@, e);
                    assert forall|c: u32| #[trigger] cell(self@, e, c) == written(
                        cell(s, e, c),
                        parts@,
                        c,
                        i as nat,
                    ) && (cell(s, e, c) is Some ==> cell(self@, e, c) is Some) by {
                        assert(cell(prev, e, c) == written(
                            cell(s, e, c),
                            parts@,
                            c,
                            (i - 1) as nat,
                        ));
                    }
                }
            }
            proof {
                let a = location_of(s.entities, e)->0.archetype_id.0 as int;
                assert(tables(self@.archetypes)[a].ids == tables(s.archetypes)[a].ids);
            }
            return ;
        }
        let ghost k = choose|k: int|
            0 <= k < parts@.len() && cell(s, e, (#[trigger] parts@[k]).id.0) is None;
        let list: Vec<StoredPart> = self.gather(registry, e);
        self.take(registry, e);
        let ghost taken = self@;
        self.place_new(registry, e, list, parts);
        proof {
            lemma_others_trans(s, taken, self@, e);
            let loc = location_of(s.entities, e)->0;
            let a = loc.archetype_id.0 as int;
            let t = tables(s.archetypes);
            lemma_taken_tables(s, infos, e);
            let c = parts@[k].id.0;
            lemma_written_there(cell(s, e, c), parts@, c, parts@.len(), k);
            assert(cell(self@, e, c) is Some);
            assert(ids_at(self@, e).contains(c));
            assert(!s.archetypes[a].ids.contains(c));
        }
    }

    /// Writes `parts` over `list` and places an unlocated entity with what comes out.
    fn place_new(
        &mut self,
        registry: &ComponentRegistry,
        e: Entity,
        list: Vec<StoredPart>,
        parts: &Vec<StoredPart>,
    )
        requires
            old(self).wf(registry@.infos),
            registry.wf(),
            is_current(old(self)@.entities, e),
            location_of(old(self)@.entities, e) is None,
            ascending_ids(part_ids(list@)),
            parts_fit(list@, registry@.infos),
            parts_fit(parts@, registry@.infos),
            old(self)@.archetypes.len() < u32::MAX,
        ensures
            final(self).wf(registry@.infos),
            same_slots(old(self)@.entities, final(self)@.entities),
            location_of(final(self)@.entities, e) is Some,
            others_same(old(self)@, final(self)@, e),
            forall|c: u32| #[trigger]
                cell(final(self)@, e, c) == written(
                    lookup(list@, c),
                    parts@,
                    c,
                    parts@.len(),
                ),
            final(self)@.archetypes.len() <= old(self)@.archetypes.len() + 1,
            tables(final(self)@.archetypes) == tables_with(
                tables(old(self)@.archetypes),
                e,
                ids_at(final(self)@, e),
            ),
    {
        let ghost s = self@;
        let ghost infos = registry@.infos;
        let ghost first = list@;
        let ghost all = parts@;
        let mut list: Vec<StoredPart> = list;
        let mut i: usize = 0;
        while i < parts.len()
            invariant
                i <= all.len(),
                parts@ == all,
                infos == registry@.infos,
                parts_fit(all, infos),
                ascending_ids(part_ids(list@)),
                parts_fit(list@, infos),
                forall|c: u32| #[trigger]
                    lookup(list@, c) == written(lookup(first, c), all, c, i as nat),
            decreases parts.len() - i,
        {
            let ghost prev = list@;
            let part = StoredPart {
                id: parts[i].id,
                value: bytes_of(parts[i].value.as_slice()),
                changed: parts[i].changed,
                added: parts[i].added,
            };
            upsert(&mut list, part);
            i = i + 1;
            proof {
                assert(all[i - 1].id.0 < infos.len());
                assert forall|c: u32| #[trigger] lookup(list@, c) == written(
                    lookup(first, c),
                    all,
                    c,
                    i as nat,
                ) by {
                    assert(lookup(prev, c) == written(lookup(first, c), all, c, (i - 1) as nat));
                }
            }
        }
        let ids: Vec<u32> = ids_of(&list);
        proof {
            assert forall|k: int| 0 <= k < ids@.len() implies (#[trigger] ids@[k]) < infos.len() by {
                assert(list@[k].id.0 < infos.len());
            }
        }
        let ghost wanted = ids@;
        let b: usize = self.get_or_create_archetype(registry, ids);
        let ghost mid = self@;
        self.place(registry, b, e, &list);
        proof {
            lemma_others_trans(s, mid, self@, e);
            lemma_placed_tables(s, mid, infos, b as int, e, part_cells(list@), wanted);
        }
    }
}

impl Storage {
    /// Gives an unlocated entity the components `parts`, written one after the other.
    pub fn spawn_at(&mut self, registry: &ComponentRegistry, e: Entity, parts: &Vec<StoredPart>)
        requires
            old(self).wf(registry@.infos),
            registry.wf(),
            is_current(old(self)@.entities, e),
            location_of(old(self)@.entities, e) is None,
            parts_fit(parts@, registry@.infos),
            old(self)@.archetypes.len() < u32::MAX,
        ensures
            final(self).wf(registry@.infos),
            same_slots(old(self)@.entities, final(self)@.entities),
            location_of(final(self)@.entities, e) is Some,
            others_same(old(self)@, final(self)@, e),
            forall|c: u32| #[trigger]
                cell(final(self)@, e, c) == written(None, parts@, c, parts@.len()),
            final(self)@.archetypes.len() <= old(self)@.archetypes.len() + 1,
            tables(final(self)@.archetypes) == tables_with(
                tables(old(self)@.archetypes),
                e,
                ids_at(final(self)@, e),
            ),
    {
        let list: Vec<StoredPart> = Vec::new();
        proof {
            assert forall|c: u32| #[trigger] lookup(list@, c) == None::<CellState> by {
                assert(part_ids(list@).len() == 0);
            }
        }
        self.place_new(registry, e, list, parts);
    }

    /// Takes a component from an entity. False where the entity is dead or lacks it.
    pub fn remove_component(
        &mut self,
        registry: &ComponentRegistry,
        e: Entity,
        id: ComponentId,
    ) -> (removed: bool)
        requires
            old(self).wf(registry@.infos),
            registry.wf(),
            old(self)@.archetypes.len() < u32::MAX,
        ensures
            final(self).wf(registry@.infos),
            removed == cell(old(self)@, e, id.0) is Some,
            !removed ==> final(self)@ == old(self)@,
            same_slots(old(self)@.entities, final(self)@.entities),
            location_of(final(self)@.entities, e) is Some <==> location_of(
                old(self)@.entities,
                e,
            ) is Some,
            others_same(old(self)@, final(self)@, e),
            forall|c: u32| #[trigger]
                cell(final(self)@, e, c) == if c == id.0 {
                    None
                } else {
                    cell(old(self)@, e, c)
                },
            final(self)@.archetypes.len() <= old(self)@.archetypes.len() + 1,
            removed ==> tables(final(self)@.archetypes) == tables_moved(
                tables(old(self)@.archetypes),
                e,
                ids_at(final(self)@, e),
            ),
    {
        if self.get(registry, e, id).is_none() {
            return false;
        }
        let ghost s = self@;
        let ghost infos = registry@.infos;
        let all: Vec<StoredPart> = self.gather(registry, e);
        let list: Vec<StoredPart> = without(all, id);
        self.take(registry, e);
        let ghost taken = self@;
        let none: Vec<StoredPart> = Vec::new();
        self.place_new(registry, e, list, &none);
        proof {
            lemma_others_trans(s, taken, self@, e);
            assert forall|c: u32| #[trigger] cell(self@, e, c) == if c == id.0 {
                None
            } else {
                cell(s, e, c)
            } by {
                assert(written(lookup(list@, c), none@, c, 0) == lookup(list@, c));
                assert(lookup(all@, c) == cell(s, e, c));
            }
            lemma_taken_tables(s, infos, e);
            let c = id.0;
            assert(cell(self@, e, c) is None);
            assert(!ids_at(self@, e).contains(c));
            assert(ids_at(s, e).contains(c));
        }
        true
    }

    /// Takes a live entity out of the storage and frees its slot.
    pub fn release(&mut self, registry: &ComponentRegistry, e: Entity)
        requires
            old(self).wf(registry@.infos),
            location_of(old(self)@.entities, e) is Some,
        ensures
            final(self).wf(registry@.infos),
            location_of(final(self)@.entities, e) is None,
            final(self)@.entities.generations == after_free(
                old(self)@.entities,
                e,
            ).generations,
            final(self)@.entities.free_list == after_free(old(self)@.entities, e).free_list,
            same_but_slots(old(self)@.entities, final(self)@.entities),
            others_same(old(self)@, final(self)@, e),
            final(self)@.archetypes.len() == old(self)@.archetypes.len(),
            tables(final(self)@.archetypes) == tables_without(tables(old(self)@.archetypes), e),
    {
        let ghost s = self@;
        let ghost infos = registry@.infos;
        proof {
            lemma_taken_tables(s, infos, e);
        }
        self.take(registry, e);
        let ghost before = *self;
        let ghost taken = self@;
        let freed: bool = self.entities.free(e);
        proof {
            assert(self@.archetypes == taken.archetypes);
            self.entities.lemma_wf();
            assert forall|x: Entity| location_of(self@.entities, x) == #[trigger] location_of(
                taken.entities,
                x,
            ) by {
            }
            lemma_same_locations(taken, self@, infos);
            lemma_others_trans(s, taken, self@, e);
            self.lemma_index_kept(before);
        }
    }

    /// Allocates `count` entities, which are not located yet.
    pub fn allocate_batch(&mut self, registry: &ComponentRegistry, count: usize) -> (es: Vec<
        Entity,
    >)
        requires
            old(self).wf(registry@.infos),
            can_allocate(old(self)@.entities, count as nat),
        ensures
            final(self).wf(registry@.infos),
            es@ == allocated(old(self)@.entities, count as nat),
            final(self)@.entities == after_allocate(old(self)@.entities, count as nat),
            final(self)@.archetypes == old(self)@.archetypes,
            forall|x: Entity| #[trigger]
                location_of(final(self)@.entities, x) == location_of(old(self)@.entities, x),
    {
        let ghost s = self@;
        let es: Vec<Entity> = self.entities.allocate_batch(count);
        proof {
            self.entities.lemma_wf();
            assert(self@.archetypes == s.archetypes);
            lemma_same_locations(s, self@, registry@.infos);
            self.lemma_index_kept(*old(self));
        }
        es
    }

    /// Reconciles reservations.
    pub fn flush(&mut self, registry: &ComponentRegistry)
        requires
            old(self).wf(registry@.infos),
        ensures
            final(self).wf(registry@.infos),
            final(self)@.entities == after_flush(old(self)@.entities),
            final(self)@.archetypes == old(self)@.archetypes,
            forall|x: Entity| #[trigger]
                location_of(final(self)@.entities, x) == location_of(old(self)@.entities, x),
    {
        let ghost s = self@;
        self.entities.flush();
        proof {
            self.entities.lemma_wf();
            assert(self@.archetypes == s.archetypes);
            lemma_same_locations(s, self@, registry@.infos);
            self.lemma_index_kept(*old(self));
        }
    }

    /// Reserves ids through a reserver.
    pub fn reserve_n(
        &mut self,
        registry: &ComponentRegistry,
        reserver: &mut EntityReserver,
        n: usize,
    ) -> (es: Vec<Entity>)
        requires
            old(self).wf(registry@.infos),
            old(reserver).wf(),
            n == 0 || block_serves(old(reserver)@, n as nat) || can_draw(
                old(self)@.entities,
                n as nat,
            ),
        ensures
            final(self).wf(registry@.infos),
            final(reserver).wf(),
            final(self)@.archetypes == old(self)@.archetypes,
            es@ == reserved_ids(old(reserver)@, old(self)@.entities, n as nat),
            final(reserver)@ == after_reserve(old(reserver)@, n as nat),
            final(self)@.entities == entities_after_reserve(
                old(reserver)@,
                old(self)@.entities,
                n as nat,
            ),
            forall|x: Entity| #[trigger]
                location_of(final(self)@.entities, x) == location_of(old(self)@.entities, x),
    {
        let ghost s = self@;
        let es: Vec<Entity> = reserver.reserve_n(&mut self.entities, n);
        proof {
            self.entities.lemma_wf();
            assert(self@.archetypes == s.archetypes);
            lemma_same_locations(s, self@, registry@.infos);
            self.lemma_index_kept(*old(self));
            assert(es@ =~= reserved_ids(old(reserver)@, s.entities, n as nat));
        }
        es
    }

    /// Gives up reserved ids.
    pub fn abandon(
        &mut self,
        registry: &ComponentRegistry,
        reserver: &EntityReserver,
        es: &[Entity],
    )
        requires
            old(self).wf(registry@.infos),
            forall|i: int|
                0 <= i < es@.len() ==> (#[trigger] es@[i]).is_placeholder() || es@[i].index < old(
                    self,
                )@.entities.high_water,
        ensures
            final(self).wf(registry@.infos),
            final(self)@.archetypes == old(self)@.archetypes,
            final(self)@.entities == (AllocState {
                abandoned: old(self)@.entities.abandoned + real_indices(es@),
                ..old(self)@.entities
            }),
            forall|x: Entity| #[trigger]
                location_of(final(self)@.entities, x) == location_of(old(self)@.entities, x),
    {
        let ghost s = self@;
        reserver.abandon(&mut self.entities, es);
        proof {
            self.entities.lemma_wf();
            assert(self@.archetypes == s.archetypes);
            lemma_same_locations(s, self@, registry@.infos);
            self.lemma_index_kept(*old(self));
        }
    }
}

/// Whether everything but generations, locations and the free list is the same.
pub open spec fn same_but_slots(s: AllocState, t: AllocState) -> bool {
    t == (AllocState {
        generations: t.generations,
        locations: t.locations,
        free_list: t.free_list,
        ..s
    }) && t.locations.len() == s.locations.len()
}

/// The ids that a reserver hands out for `n`.
pub open spec fn reserved_ids(r: Option<BlockState>, s: AllocState, n: nat) -> Seq<Entity> {
    if n == 0 {
        Seq::empty()
    } else if block_serves(r, n) {
        r->0.ids.subrange(r->0.next as int, (r->0.next + n) as int)
    } else {
        drawn(s, n)
    }
}

/// The reserver after it handed out `n` ids.
pub open spec fn after_reserve(r: Option<BlockState>, n: nat) -> Option<BlockState> {
    if n == 0 {
        r
    } else if block_serves(r, n) {
        Some(BlockState { next: r->0.next + n, ..r->0 })
    } else {
        match r {
            Some(b) => Some(BlockState { overflowed: true, ..b }),
            None => None,
        }
    }
}

/// The allocator after a reserver handed out `n` ids.
pub open spec fn entities_after_reserve(r: Option<BlockState>, s: AllocState, n: nat) -> AllocState {
    if n == 0 || block_serves(r, n) {
        s
    } else {
        after_draw(s, n)
    }
}

/// A storage is in order as long as its entities know where they are.
proof fn lemma_same_locations(s: StoreState, t: StoreState, infos: Seq<InfoView>)
    requires
        store_wf(s, infos),
        state_wf(t.entities),
        t.archetypes == s.archetypes,
        forall|x: Entity|
            #![trigger location_of(t.entities, x)]
            #![trigger location_of(s.entities, x)]
            location_of(t.entities, x) == location_of(s.entities, x),
    ensures
        store_wf(t, infos),
        forall|e: Entity| #[trigger] others_same(s, t, e),
{
    assert forall|x: Entity| #[trigger] location_of(t.entities, x) is Some implies {
        let l = location_of(t.entities, x)->0;
        let a = l.archetype_id.0 as int;
        &&& a < t.archetypes.len()
        &&& l.row < t.archetypes[a].entities.len()
        &&& t.archetypes[a].entities[l.row as int] == x
    } by {
        assert(location_of(s.entities, x) is Some);
    }
    assert forall|a: int, q: int|
        0 <= a < t.archetypes.len() && 0 <= q < t.archetypes[a].entities.len() implies location_of(
        t.entities,
        #[trigger] t.archetypes[a].entities[q],
    ) == Some(at(a, q)) by {
        assert(location_of(s.entities, s.archetypes[a].entities[q]) == Some(at(a, q)));
    }
}

/// The parts but for one component.
fn without(parts: Vec<StoredPart>, id: ComponentId) -> (list: Vec<StoredPart>)
    requires
        ascending_ids(part_ids(parts@)),
    ensures
        ascending_ids(part_ids(list@)),
        forall|c: u32| #[trigger]
            lookup(list@, c) == if c == id.0 {
                None
            } else {
                lookup(parts@, c)
            },
        forall|infos: Seq<InfoView>|
            parts_fit(parts@, infos) ==> #[trigger] parts_fit(list@, infos),
{
    let ghost s = parts@;
    let ghost sid = part_ids(s);
    let mut list: Vec<StoredPart> = parts;
    let mut i: usize = 0;
    while i < list.len() && list[i].id.0 < id.0
        invariant
            i <= list@.len(),
            list@ == s,
            forall|k: int| 0 <= k < i ==> (#[trigger] s[k]).id.0 < id.0,
        decreases list.len() - i,
    {
        i = i + 1;
    }
    if i < list.len() && list[i].id.0 == id.0 {
        let gone: StoredPart = list.remove(i);
        proof {
            let t = list@;
            let tid = part_ids(t);
            assert(t =~= s.remove(i as int));
            assert(tid =~= sid.remove(i as int));
            assert(sid[i as int] == id.0);
            assert(ascending_ids(tid)) by {
                assert forall|a: int, b: int| 0 <= a < b < tid.len() implies #[trigger] tid[a]
                    < #[trigger] tid[b] by {
                    let p = if a < i { a } else { a + 1 };
                    let q = if b < i { b } else { b + 1 };
                    assert(sid[p] < sid[q]);
                }
            }
            assert forall|c: u32| #[trigger] lookup(t, c) == if c == id.0 {
                None
            } else {
                lookup(s, c)
            } by {
                if tid.contains(c) {
                    let j = choose|j: int| 0 <= j < tid.len() && tid[j] == c;
                    let k = if j < i { j } else { j + 1 };
                    assert(t[j] == s[k]);
                    assert(sid[k] == c);
                    assert(c != id.0) by {
                        if k < i {
                            assert(sid[k] < sid[i as int]);
                        } else {
                            assert(sid[i as int] < sid[k]);
                        }
                    }
                    lemma_lookup(t, j);
                    lemma_lookup(s, k);
                } else if sid.contains(c) && c != id.0 {
                    let k = choose|k: int| 0 <= k < sid.len() && sid[k] == c;
                    let j = if k < i { k } else { k - 1 };
                    assert(tid[j] == c);
                    assert(false);
                }
            }
            assert forall|infos: Seq<InfoView>| parts_fit(s, infos) implies #[trigger] parts_fit(
                t,
                infos,
            ) by {
                assert forall|k: int| 0 <= k < t.len() implies (#[trigger] t[k]).id.0 < infos.len()
                    && t[k].value@.len() == infos[t[k].id.0 as int].size by {
                    let q = if k < i { k } else { k + 1 };
                    assert(t[k] == s[q]);
                }
            }
        }
    } else {
        proof {
            assert forall|c: u32| #[trigger] lookup(s, c) == if c == id.0 {
                None
            } else {
                lookup(s, c)
            } by {
                if c == id.0 && sid.contains(c) {
                    let k = choose|k: int| 0 <= k < sid.len() && sid[k] == c;
                    assert(s[k].id.0 == c);
                    if k > i {
                        assert(sid[i as int] < sid[k]);
                        assert(s[i as int].id.0 == sid[i as int]);
                    }
                    assert(false);
                }
            }
        }
    }
    list
}

/// Others stay as they are through two steps.
proof fn lemma_others_trans(s: StoreState, t: StoreState, u: StoreState, e: Entity)
    requires
        others_same(s, t, e),
        others_same(t, u, e),
    ensures
        others_same(s, u, e),
{
    assert forall|x: Entity|
        #![trigger location_of(u.entities, x)]
        #![trigger location_of(s.entities, x)]
        x != e implies (location_of(u.entities, x) is Some <==> location_of(s.entities, x) is Some)
        && (forall|c: u32| #[trigger] cell(u, x, c) == cell(s, x, c)) by {
        assert(location_of(t.entities, x) is Some <==> location_of(s.entities, x) is Some);
        assert forall|c: u32| #[trigger] cell(u, x, c) == cell(s, x, c) by {
            assert(cell(t, x, c) == cell(s, x, c));
        }
    }
}

/// The components of parts.
fn ids_of(parts: &Vec<StoredPart>) -> (ids: Vec<u32>)
    ensures
        ids@ == part_ids(parts@),
{
    let mut ids: Vec<u32> = Vec::new();
    let mut i: usize = 0;
    while i < parts.len()
        invariant
            i <= parts@.len(),
            ids@ == part_ids(parts@).subrange(0, i as int),
        decreases parts.len() - i,
    {
        ids.push(parts[i].id.0);
        i = i + 1;
        assert(ids@ =~= part_ids(parts@).subrange(0, i as int));
    }
    assert(ids@ =~= part_ids(parts@));
    ids
}

/// Whether two lists are the same.
fn same_items(a: &[u32], b: &[u32]) -> (same: bool)
    ensures
        same == (a@ == b@),
{
    if a.len() != b.len() {
        return false;
    }
    let mut i: usize = 0;
    while i < a.len()
        invariant
            i <= a@.len() == b@.len(),
            forall|k: int| 0 <= k < i ==> a@[k] == b@[k],
        decreases a.len() - i,
    {
        if a[i] != b[i] {
            return false;
        }
        i = i + 1;
    }
    assert(a@ =~= b@);
    true
}

} // verus!
