//! What happens to rows when values and entities come and go: which row moves where, and that all
//! others stay.

use vstd::prelude::*;
use crate::archetype::{ArchState, arch_row_removed, arch_wf, column_of, component_written, filled};
use crate::arena::{ArenaState, after_store, lemma_rounded};
use crate::column::{
    ColumnState, column_wf, doubled_to, grown_capacity, pushed, reserved_capacity, row_written,
    swap_removed,
};
use crate::component::Tick;
use crate::entity::{Entity, alive, allocated};
use crate::relation_graph::cascade_children;
use crate::storage::{
    CellState, Table, cell_at, component_list, is_in, is_table, lists_components, row_appended,
    tables_moved, tables_with, tables_without,
};
use crate::world::{
    BundleState, WorldState, after_release, after_spawn_all, settled, tables_after_despawns,
    tables_after_spawns,
};

verus! {

/// A row that is removed is replaced by the last one; all others stay where they are.
pub proof fn law_the_last_takes_the_gap<T>(s: Seq<T>, i: int, k: int)
    requires
        0 <= i < s.len(),
        0 <= k < s.len() - 1,
    ensures
        swap_removed(s, i).len() == s.len() - 1,
        swap_removed(s, i)[k] == if k == i {
            s[s.len() - 1]
        } else {
            s[k]
        },
{
}

/// A value that is appended comes last, with its ticks; the rows before it stay, and there is room
/// for it.
pub proof fn law_appended_values_come_last(
    s: ColumnState,
    value: Seq<u8>,
    changed: Tick,
    added: Tick,
)
    requires
        column_wf(s),
        s.rows.len() <= s.capacity,
        s.rows.len() < usize::MAX,
    ensures
        ({
            let t = pushed(s, value, changed, added);
            &&& t.rows.len() == s.rows.len() + 1
            &&& t.rows.last() == value
            &&& t.changed.last() == changed
            &&& t.added.last() == added
            &&& t.rows.drop_last() == s.rows
            &&& t.changed.drop_last() == s.changed
            &&& t.added.drop_last() == s.added
            &&& t.rows.len() <= t.capacity
            &&& s.rows.len() < s.capacity ==> t.capacity == s.capacity
            &&& t.id == s.id && t.item_size == s.item_size && t.item_align == s.item_align
        }),
{
    let t = pushed(s, value, changed, added);
    assert(t.rows.drop_last() =~= s.rows);
    assert(t.changed.drop_last() =~= s.changed);
    assert(t.added.drop_last() =~= s.added);
}

/// A column that runs full gets twice the room; the first room is for some 256 bytes, for four
/// values at least and for sixty-four at most.
pub proof fn law_room_doubles(item_size: nat, capacity: nat)
    ensures
        0 < capacity && capacity * 2 <= usize::MAX ==> grown_capacity(item_size, capacity) == capacity
            * 2,
        4 <= grown_capacity(item_size, 0) <= 64,
        4 <= item_size <= 64 ==> grown_capacity(item_size, 0) == 256nat / item_size,
        item_size > 64 ==> grown_capacity(item_size, 0) == 4,
        item_size < 4 ==> grown_capacity(item_size, 0) == 64,
{
    if item_size > 64 {
        assert(256nat / item_size < 4) by (nonlinear_arith)
            requires
                item_size > 64,
        ;
    } else if 0 < item_size < 4 {
        assert(256nat / item_size > 64) by (nonlinear_arith)
            requires
                0 < item_size < 4,
        ;
    } else if item_size >= 4 {
        assert(4 <= 256nat / item_size <= 64) by (nonlinear_arith)
            requires
                4 <= item_size <= 64,
        ;
    }
}

proof fn lemma_doubled(p: nat, n: nat)
    requires
        p > 0,
        n * 4 <= isize::MAX,
    ensures
        doubled_to(p, n) == p || doubled_to(p, n) < 2 * n,
        p >= n ==> doubled_to(p, n) == p,
    decreases
            if n > p {
                n - p
            } else {
                0
            },
{
    if p < n {
        lemma_doubled(p * 2, n);
    }
}

/// A reservation makes less than twice the room that is needed, but room for four at least; where
/// there is room, none is made.
pub proof fn law_reservations_are_tight(s: ColumnState, additional: nat)
    requires
        (s.rows.len() + additional) * 4 <= isize::MAX,
    ensures
        s.rows.len() + additional <= s.capacity ==> reserved_capacity(s, additional) == s.capacity,
        s.rows.len() + additional > s.capacity ==> reserved_capacity(s, additional) == 4
            || reserved_capacity(s, additional) < 2 * (s.rows.len() + additional),
{
    lemma_doubled(4, s.rows.len() + additional);
}

/// Overwriting a row changes its value and its tick of change, not that of being added, and no
/// other row.
pub proof fn law_overwriting_changes_one_row(
    s: ColumnState,
    i: int,
    value: Seq<u8>,
    tick: Tick,
    k: int,
)
    requires
        column_wf(s),
        0 <= i < s.rows.len(),
        0 <= k < s.rows.len(),
    ensures
        ({
            let t = row_written(s, i, value, tick);
            &&& t.rows.len() == s.rows.len()
            &&& t.rows[k] == if k == i {
                value
            } else {
                s.rows[k]
            }
            &&& t.changed[k] == if k == i {
                tick
            } else {
                s.changed[k]
            }
            &&& t.added == s.added
        }),
{
}

/// Writing a component of a row that is there gives it the value and leaves every other component
/// and every other row.
pub proof fn law_writing_changes_one_cell(
    a: ArchState,
    row: nat,
    c: u32,
    value: Seq<u8>,
    tick: Tick,
    other: u32,
    k: int,
)
    requires
        arch_wf(a),
        filled(a),
        row < a.entities.len(),
        0 <= k < a.entities.len(),
        a.ids.contains(c),
        a.ids.contains(other),
    ensures
        ({
            let t = component_written(a, row, c, value, tick);
            &&& t.ids == a.ids
            &&& t.entities == a.entities
            &&& cell_at(t, k, other) == if k == row && other == c {
                Some(CellState { value, changed: tick, added: cell_at(a, k, c)->0.added })
            } else {
                cell_at(a, k, other)
            }
        }),
{
    let i = column_of(a, c)->0;
    let j = column_of(a, other)->0;
    assert(a.ids[i] == c && a.ids[j] == other);
    assert(a.columns[i].rows.len() == a.entities.len());
    assert(column_wf(a.columns[i]));
    if other != c {
        assert(i != j);
    }
}

/// A row of an archetype that is removed is replaced by the last one, entity and components alike;
/// all other rows stay.
pub proof fn law_removing_a_row_moves_the_last(a: ArchState, row: int, c: u32, k: int)
    requires
        arch_wf(a),
        filled(a),
        0 <= row < a.entities.len(),
        0 <= k < a.entities.len() - 1,
    ensures
        ({
            let t = arch_row_removed(a, row);
            let from = if k == row {
                a.entities.len() - 1
            } else {
                k
            };
            &&& t.ids == a.ids
            &&& t.entities.len() == a.entities.len() - 1
            &&& t.entities[k] == a.entities[from]
            &&& cell_at(t, k, c) == cell_at(a, from, c)
        }),
{
    if a.ids.contains(c) {
        let i = column_of(a, c)->0;
        assert(a.ids[i] == c);
        assert(a.columns[i].rows.len() == a.entities.len());
        assert(column_wf(a.columns[i]));
    }
}

/// A row that is appended holds its entity and its components; all rows before it stay.
pub proof fn law_appending_a_row_keeps_the_others(
    a: ArchState,
    e: Entity,
    cells: Seq<CellState>,
    i: int,
    k: int,
)
    requires
        arch_wf(a),
        filled(a),
        cells.len() == a.ids.len(),
        0 <= i < a.ids.len(),
        0 <= k < a.entities.len(),
    ensures
        ({
            let t = row_appended(a, e, cells);
            &&& t.entities == a.entities.push(e)
            &&& cell_at(t, a.entities.len() as int, a.ids[i]) == Some(cells[i])
            &&& cell_at(t, k, a.ids[i]) == cell_at(a, k, a.ids[i])
        }),
{
    assert(a.ids.contains(a.ids[i]));
    let j = column_of(a, a.ids[i])->0;
    assert(a.ids[j] == a.ids[i]);
    assert(j == i);
    assert(a.columns[i].rows.len() == a.entities.len());
    assert(column_wf(a.columns[i]));
}

/// An entity that is placed comes behind the last row of the table for its components; where there
/// is none, one is added at the end.
pub proof fn law_entities_are_placed_at_the_end(t: Seq<Table>, e: Entity, ids: Seq<u32>)
    requires
        forall|i: int, j: int|
            0 <= i < j < t.len() ==> (#[trigger] t[i]).ids != (#[trigger] t[j]).ids,
    ensures
        forall|i: int|
            0 <= i < t.len() && (#[trigger] t[i]).ids == ids ==> tables_with(t, e, ids) == t.update(
                i,
                Table { ids, entities: t[i].entities.push(e) },
            ),
        (forall|i: int| 0 <= i < t.len() ==> (#[trigger] t[i]).ids != ids) ==> tables_with(t, e, ids)
            == t.push(Table { ids, entities: seq![e] }),
{
    let b = choose|b: int| is_table(t, ids, b);
    if exists|i: int| 0 <= i < t.len() && (#[trigger] t[i]).ids == ids {
        let i = choose|i: int| 0 <= i < t.len() && (#[trigger] t[i]).ids == ids;
        assert(is_table(t, ids, i));
        assert(is_table(t, ids, b));
        assert forall|k: int| 0 <= k < t.len() && (#[trigger] t[k]).ids == ids implies k == b by {
            if k < b {
                assert(t[k].ids != t[b].ids);
            } else if b < k {
                assert(t[b].ids != t[k].ids);
            }
        }
    } else {
        assert(is_table(t, ids, t.len() as int));
        assert(is_table(t, ids, b));
    }
}

/// An entity that is taken out is replaced by the last of its table; all other tables stay.
pub proof fn law_entities_are_taken_out_by_the_last(t: Seq<Table>, e: Entity, a: int, r: int)
    requires
        0 <= a < t.len(),
        0 <= r < t[a].entities.len(),
        t[a].entities[r] == e,
        forall|b: int, q: int|
            0 <= b < t.len() && 0 <= q < t[b].entities.len() && #[trigger] t[b].entities[q] == e
                ==> b == a && q == r,
    ensures
        tables_without(t, e) == t.update(
            a,
            Table {
                ids: t[a].ids,
                entities: t[a].entities.update(r, t[a].entities.last()).drop_last(),
            },
        ),
{
    assert(is_in(t, e, (a, r)));
    let at = choose|at: (int, int)| is_in(t, e, at);
    assert(is_in(t, e, at));
    assert(t[at.0].entities[at.1] == e);
}

/// An entity stays in its row where its components stay, and else goes behind the last row of the
/// table for its components.
pub proof fn law_entities_move_only_where_they_must(
    t: Seq<Table>,
    e: Entity,
    ids: Seq<u32>,
    a: int,
    r: int,
)
    requires
        0 <= a < t.len(),
        0 <= r < t[a].entities.len(),
        t[a].entities[r] == e,
        forall|b: int, q: int|
            0 <= b < t.len() && 0 <= q < t[b].entities.len() && #[trigger] t[b].entities[q] == e
                ==> b == a && q == r,
    ensures
        t[a].ids == ids ==> tables_moved(t, e, ids) == t,
        t[a].ids != ids ==> tables_moved(t, e, ids) == tables_with(tables_without(t, e), e, ids),
{
    assert(is_in(t, e, (a, r)));
    let at = choose|at: (int, int)| is_in(t, e, at);
    assert(is_in(t, e, at));
    assert(t[at.0].entities[at.1] == e);
}

proof fn lemma_lists_same(a: Seq<u32>, b: Seq<u32>)
    requires
        forall|i: int, j: int| 0 <= i < j < a.len() ==> #[trigger] a[i] < #[trigger] a[j],
        forall|i: int, j: int| 0 <= i < j < b.len() ==> #[trigger] b[i] < #[trigger] b[j],
        forall|c: u32| #[trigger] a.contains(c) <==> b.contains(c),
    ensures
        a == b,
    decreases a.len(),
{
    if a.len() == 0 {
        if b.len() > 0 {
            assert(b.contains(b[0]));
            assert(a.contains(b[0]));
        }
        assert(a =~= b);
    } else {
        assert(a.contains(a[a.len() - 1]));
        assert(b.contains(a[a.len() - 1]));
        let i = choose|i: int| 0 <= i < b.len() && b[i] == a[a.len() - 1];
        assert(b.contains(b[b.len() - 1]));
        assert(a.contains(b[b.len() - 1]));
        let j = choose|j: int| 0 <= j < a.len() && a[j] == b[b.len() - 1];
        assert(a.last() == b.last()) by {
            if i < b.len() - 1 && j < a.len() - 1 {
                assert(b[i] < b[b.len() - 1]);
                assert(a[j] < a[a.len() - 1]);
            }
        }
        let x = a.drop_last();
        let y = b.drop_last();
        assert forall|p: int, q: int| 0 <= p < q < x.len() implies #[trigger] x[p] < #[trigger] x[q] by {
            assert(a[p] < a[q]);
        }
        assert forall|p: int, q: int| 0 <= p < q < y.len() implies #[trigger] y[p] < #[trigger] y[q] by {
            assert(b[p] < b[q]);
        }
        assert forall|c: u32| #[trigger] x.contains(c) <==> y.contains(c) by {
            if x.contains(c) {
                let p = choose|p: int| 0 <= p < x.len() && x[p] == c;
                assert(a[p] == c);
                assert(a.contains(c));
                let q = choose|q: int| 0 <= q < b.len() && b[q] == c;
                assert(a[p] < a[a.len() - 1]);
                assert(y[q] == c);
            }
            if y.contains(c) {
                let q = choose|q: int| 0 <= q < y.len() && y[q] == c;
                assert(b[q] == c);
                assert(b.contains(c));
                assert(a.contains(c));
                let p = choose|p: int| 0 <= p < a.len() && a[p] == c;
                assert(b[q] < b[b.len() - 1]);
                assert(x[p] == c);
            }
        }
        lemma_lists_same(x, y);
        assert(a =~= x.push(a.last()));
        assert(b =~= y.push(b.last()));
    }
}

/// The components of an archetype are listed each once, in ascending order: there is one such list.
pub proof fn law_components_are_listed_in_order(ids: Seq<u32>, m: Map<u32, CellState>)
    requires
        forall|i: int, j: int| 0 <= i < j < ids.len() ==> #[trigger] ids[i] < #[trigger] ids[j],
        forall|c: u32| #[trigger] ids.contains(c) <==> m.contains_key(c),
    ensures
        component_list(m) == ids,
{
    assert(lists_components(ids, m));
    let other = component_list(m);
    assert(lists_components(other, m));
    lemma_lists_same(ids, other);
}

/// An arena holds everything that was stored, wastes less than the alignment between payloads, and
/// where it has to grow at least doubles.
pub proof fn law_arenas_make_room(s: ArenaState, value: Seq<u8>, align: nat)
    requires
        align > 0,
        s.bytes.len() <= s.capacity,
    ensures
        ({
            let t = after_store(s, value, align);
            &&& t.bytes.len() <= t.capacity
            &&& s.capacity <= t.capacity
            &&& value.len() > 0 ==> t.bytes.len() < s.bytes.len() + align + value.len()
            &&& value.len() == 0 ==> t.bytes == s.bytes
            &&& s.capacity > 0 && t.capacity > s.capacity ==> t.capacity >= 2 * s.capacity
            &&& t.align == if align > s.align {
                align
            } else {
                s.align
            }
        }),
{
    lemma_rounded(s.bytes.len(), align);
}

/// An entity settles where its components are kept; the dead settle nowhere.
pub proof fn law_entities_settle_with_their_components(t: Seq<Table>, w: WorldState, e: Entity)
    ensures
        settled(t, w, e) == if w.values.contains_key(e) {
            tables_moved(t, e, component_list(w.values[e]))
        } else {
            t
        },
{
}

/// Spawned bundles take their rows one after the other; despawned entities leave theirs from the
/// top of the stack.
pub proof fn law_rows_are_taken_and_left_in_turn(
    t: Seq<Table>,
    w: WorldState,
    es: Seq<Entity>,
    bundles: Seq<Seq<BundleState>>,
    n: nat,
    stack: Seq<Entity>,
    e: Entity,
)
    requires
        w.entities.generations.len() == w.entities.locations.len(),
    ensures
        tables_after_spawns(t, w, es, bundles, 0) == t,
        ({
            let before = after_spawn_all(w, es, bundles, n);
            let x = if es[n as int].index == u32::MAX && es[n as int].generation == u32::MAX {
                allocated(before.entities, 1)[0]
            } else {
                es[n as int]
            };
            tables_after_spawns(t, w, es, bundles, n + 1) == tables_with(
                tables_after_spawns(t, w, es, bundles, n),
                x,
                component_list(after_spawn_all(w, es, bundles, n + 1).values[x]),
            )
        }),
        tables_after_despawns(t, w, Seq::<Entity>::empty()) == t,
        !alive(w.entities, e) ==> tables_after_despawns(t, w, stack.push(e))
            == tables_after_despawns(t, w, stack),
        alive(w.entities, e) ==> tables_after_despawns(t, w, stack.push(e))
            == tables_after_despawns(
            tables_without(t, e),
            after_release(w, e),
            stack + cascade_children(w.relations, e, w.relations.kinds.len()),
        ),
{
    assert(stack.push(e).drop_last() =~= stack);
    assert(stack.push(e).last() == e);
}

} // verus!
