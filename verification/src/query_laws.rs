//! What holds of every query.

use vstd::prelude::*;
use crate::component::Tick;
use crate::entity::{Entity, location_of};
use crate::query::{
    QueryState, covers, entity_at, first_row, hits, hits_from, hits_in, law_candidates,
    law_hits_are_what_is_covered, matching_upto, rows_end, rows_from, taken_upto, takes_row, whole,
};
use crate::registry::InfoView;
use crate::shape::{Shape, law_rows_are_taken_by_their_components, suits, takes};
use crate::storage::{StoreState, at, store_wf};
use crate::world::{World, row_cells, row_of};

verus! {

/// Whether the match at `i` is `e`.
pub open spec fn matched_at(q: QueryState, e: Entity, i: int) -> bool {
    0 <= i < hits(q).len() && entity_at(q, hits(q)[i]) == e
}

/// An entity's components are those of its row.
pub proof fn lemma_row_of(s: StoreState, infos: Seq<InfoView>, place: int, row: int)
    requires
        store_wf(s, infos),
        0 <= place < s.archetypes.len(),
        0 <= row < s.archetypes[place].entities.len(),
    ensures
        location_of(s.entities, s.archetypes[place].entities[row]) == Some(at(place, row)),
        at(place, row).archetype_id.0 == place,
        at(place, row).row == row,
        row_of(s, s.archetypes[place].entities[row]) == row_cells(s.archetypes[place], row),
{
    let e = s.archetypes[place].entities[row];
    assert(location_of(s.entities, s.archetypes[place].entities[row]) == Some(at(place, row)));
    crate::storage::lemma_rows_fit(s, infos, place);
    assert(row_of(s, e) =~= row_cells(s.archetypes[place], row));
}

/// A query over a whole world covers an entity's row exactly where the shape takes the entity's
/// components, and what it hands out are values of these components.
pub proof fn law_query_goes_by_components(w: World, s: Shape, last_run: Tick, e: Entity)
    requires
        w.wf(),
        w@.values.contains_key(e),
    ensures
        location_of(w.store().entities, e) is Some,
        ({
            let loc = location_of(w.store().entities, e)->0;
            let q = whole(w, s, last_run);
            let place = loc.archetype_id.0 as usize;
            let row = loc.row as usize;
            &&& covers(q, place, row) <==> takes(
                w@.registry.infos,
                w@.values[e],
                last_run,
                s,
            )
            &&& entity_at(q, (place, row)) == e
            &&& row_cells(q.archetypes[place as int], row as int) == w@.values[e]
        }),
{
    w.lemma_store();
    let st = w.store();
    let infos = w@.registry.infos;
    let loc = location_of(st.entities, e)->0;
    let q = whole(w, s, last_run);
    let place = loc.archetype_id.0 as usize;
    let row = loc.row as usize;
    let a = st.archetypes[place as int];
    assert(place < st.archetypes.len() && row < a.entities.len() && a.entities[row as int] == e);
    lemma_row_of(st, infos, place as int, row as int);
    law_rows_are_taken_by_their_components(infos, a, row as int, last_run, s);
    law_candidates(infos, st.archetypes, s, st.archetypes.len(), place);
    crate::storage::lemma_rows_fit(st, infos, place as int);
}

/// A query over a whole world takes exactly the live entities whose components its shape takes.
pub proof fn law_query_takes_what_its_shape_takes(w: World, s: Shape, last_run: Tick, e: Entity)
    requires
        w.wf(),
    ensures
        (exists|i: int| matched_at(whole(w, s, last_run), e, i)) <==> w@.values.contains_key(e)
            && takes(w@.registry.infos, w@.values[e], last_run, s),
{
    w.lemma_store();
    let st = w.store();
    let infos = w@.registry.infos;
    let q = whole(w, s, last_run);
    if (exists|i: int| matched_at(q, e, i)) {
        let i = choose|i: int| matched_at(q, e, i);
        let (place, row) = hits(q)[i];
        assert(hits(q).contains((place, row)));
        law_hits_are_what_is_covered(q, place, row);
        law_candidates(infos, st.archetypes, s, st.archetypes.len(), place);
        crate::storage::lemma_rows_fit(st, infos, place as int);
        lemma_row_of(st, infos, place as int, row as int);
        assert(w@.values.contains_key(e));
        law_query_goes_by_components(w, s, last_run, e);
    }
    if w@.values.contains_key(e) && takes(infos, w@.values[e], last_run, s) {
        law_query_goes_by_components(w, s, last_run, e);
        let loc = location_of(st.entities, e)->0;
        let place = loc.archetype_id.0 as usize;
        let row = loc.row as usize;
        law_hits_are_what_is_covered(q, place, row);
        let i = choose|i: int| 0 <= i < hits(q).len() && hits(q)[i] == (place, row);
        assert(matched_at(q, e, i));
    }
}

proof fn lemma_rows_ascend(q: QueryState, place: usize, row: int, end: int, i: int, j: int)
    requires
        0 <= row,
        end <= usize::MAX,
        0 <= i < j < rows_from(q, place, row, end).len(),
    ensures
        rows_from(q, place, row, end)[i].0 == place,
        rows_from(q, place, row, end)[j].0 == place,
        row <= rows_from(q, place, row, end)[i].1 < rows_from(q, place, row, end)[j].1 < end,
    decreases end - row,
{
    lemma_rows_bounds(q, place, row, end, i);
    lemma_rows_bounds(q, place, row, end, j);
    if row < end {
        let tail = rows_from(q, place, row + 1, end);
        if takes_row(q, place, row as usize) {
            let all = rows_from(q, place, row, end);
            assert(all[j] == tail[j - 1]);
            lemma_rows_bounds(q, place, row + 1, end, j - 1);
            if i > 0 {
                assert(all[i] == tail[i - 1]);
                lemma_rows_ascend(q, place, row + 1, end, i - 1, j - 1);
            }
        } else {
            lemma_rows_ascend(q, place, row + 1, end, i, j);
        }
    }
}

proof fn lemma_rows_bounds(q: QueryState, place: usize, row: int, end: int, i: int)
    requires
        0 <= row,
        end <= usize::MAX,
        0 <= i < rows_from(q, place, row, end).len(),
    ensures
        rows_from(q, place, row, end)[i].0 == place,
        row <= rows_from(q, place, row, end)[i].1 < end,
    decreases end - row,
{
    if row < end {
        let tail = rows_from(q, place, row + 1, end);
        let all = rows_from(q, place, row, end);
        if takes_row(q, place, row as usize) {
            if i > 0 {
                assert(all[i] == tail[i - 1]);
                lemma_rows_bounds(q, place, row + 1, end, i - 1);
            }
        } else {
            lemma_rows_bounds(q, place, row + 1, end, i);
        }
    }
}

/// Whether one row comes before another: in an earlier archetype, or earlier in the same.
pub open spec fn before(a: (usize, usize), b: (usize, usize)) -> bool {
    a.0 < b.0 || (a.0 == b.0 && a.1 < b.1)
}

proof fn lemma_hits_places(q: QueryState, k: nat, i: int)
    requires
        0 <= i < hits_from(q, k).len(),
        k <= q.places.len(),
    ensures
        exists|m: int| k <= m < q.places.len() && #[trigger] q.places[m] == hits_from(q, k)[i].0,
    decreases q.places.len() - k,
{
    let here = q.places[k as int];
    let a = hits_in(q, here);
    let b = hits_from(q, k + 1);
    if i < a.len() {
        lemma_rows_bounds(q, here, first_row(q, here) as int, rows_end(q, here) as int, i);
        assert(hits_from(q, k)[i] == a[i]);
        assert(q.places[k as int] == a[i].0);
    } else {
        assert(hits_from(q, k)[i] == b[i - a.len()]);
        lemma_hits_places(q, k + 1, i - a.len());
        let m = choose|m: int|
            k + 1 <= m < q.places.len() && #[trigger] q.places[m] == b[i - a.len()].0;
        assert(k <= m && q.places[m] == hits_from(q, k)[i].0);
    }
}

/// A query whose archetypes ascend takes its rows in ascending order, and so each row once.
pub proof fn law_rows_come_in_order(q: QueryState, k: nat, i: int, j: int)
    requires
        k <= q.places.len(),
        0 <= i < j < hits_from(q, k).len(),
        forall|a: int, b: int|
            k <= a < b < q.places.len() ==> #[trigger] q.places[a] < #[trigger] q.places[b],
    ensures
        before(hits_from(q, k)[i], hits_from(q, k)[j]),
    decreases q.places.len() - k,
{
    let here = q.places[k as int];
    let a = hits_in(q, here);
    let b = hits_from(q, k + 1);
    let all = hits_from(q, k);
    let start = first_row(q, here) as int;
    let end = rows_end(q, here) as int;
    if j < a.len() {
        assert(all[i] == a[i] && all[j] == a[j]);
        lemma_rows_ascend(q, here, start, end, i, j);
    } else if i < a.len() {
        assert(all[i] == a[i] && all[j] == b[j - a.len()]);
        lemma_rows_bounds(q, here, start, end, i);
        lemma_hits_places(q, k + 1, j - a.len());
        let m = choose|m: int|
            k + 1 <= m < q.places.len() && #[trigger] q.places[m] == b[j - a.len()].0;
        assert(q.places[k as int] < q.places[m]);
    } else {
        assert(all[i] == b[i - a.len()] && all[j] == b[j - a.len()]);
        law_rows_come_in_order(q, k + 1, i - a.len(), j - a.len());
    }
}

/// A query over a whole world takes no entity twice.
pub proof fn law_query_takes_nothing_twice(w: World, s: Shape, last_run: Tick, i: int, j: int)
    requires
        w.wf(),
        0 <= i < j < hits(whole(w, s, last_run)).len(),
    ensures
        entity_at(whole(w, s, last_run), hits(whole(w, s, last_run))[i]) != entity_at(
            whole(w, s, last_run),
            hits(whole(w, s, last_run))[j],
        ),
{
    w.lemma_store();
    let st = w.store();
    let infos = w@.registry.infos;
    let q = whole(w, s, last_run);
    law_candidates(infos, st.archetypes, s, st.archetypes.len(), 0);
    law_rows_come_in_order(q, 0, i, j);
    let x = hits(q)[i];
    let y = hits(q)[j];
    assert(hits(q).contains(x) && hits(q).contains(y));
    law_hits_are_what_is_covered(q, x.0, x.1);
    law_hits_are_what_is_covered(q, y.0, y.1);
    law_candidates(infos, st.archetypes, s, st.archetypes.len(), x.0);
    law_candidates(infos, st.archetypes, s, st.archetypes.len(), y.0);
    crate::storage::lemma_rows_fit(st, infos, x.0 as int);
    crate::storage::lemma_rows_fit(st, infos, y.0 as int);
    lemma_row_of(st, infos, x.0 as int, x.1 as int);
    lemma_row_of(st, infos, y.0 as int, y.1 as int);
}

proof fn lemma_hits_push(q: QueryState, p: usize, k: nat)
    requires
        k <= q.places.len(),
    ensures
        hits_from(QueryState { places: q.places.push(p), ..q }, k) == hits_from(q, k) + hits_in(q, p),
    decreases q.places.len() - k,
{
    let t = QueryState { places: q.places.push(p), ..q };
    assert forall|x: usize| #[trigger] hits_in(t, x) == hits_in(q, x) by {
        lemma_hits_in_same(t, q, x);
    }
    if k < q.places.len() {
        lemma_hits_push(q, p, k + 1);
        assert(t.places[k as int] == q.places[k as int]);
        assert(hits_from(t, k) =~= hits_from(q, k) + hits_in(q, p));
    } else {
        assert(t.places[k as int] == p);
        assert(hits_from(t, k + 1) =~= Seq::empty());
        assert(hits_from(t, k) =~= hits_from(q, k) + hits_in(q, p));
    }
}

/// What is taken of an archetype does not depend on the list.
proof fn lemma_hits_in_same(t: QueryState, q: QueryState, x: usize)
    requires
        t == (QueryState { places: t.places, ..q }),
    ensures
        hits_in(t, x) == hits_in(q, x),
{
    lemma_rows_from_same(t, q, x, first_row(q, x) as int, rows_end(q, x) as int);
}

proof fn lemma_rows_from_same(t: QueryState, q: QueryState, x: usize, row: int, end: int)
    requires
        t == (QueryState { places: t.places, ..q }),
    ensures
        rows_from(t, x, row, end) == rows_from(q, x, row, end),
    decreases end - row,
{
    if row < end {
        lemma_rows_from_same(t, q, x, row + 1, end);
    }
}

proof fn lemma_empty_archetypes_add_nothing(q: QueryState, n: nat)
    requires
        n <= q.archetypes.len() <= usize::MAX,
        q.ranges.len() == 0,
    ensures
        hits(
            QueryState {
                places: matching_upto(q.infos, q.archetypes, q.shape, n),
                ..q
            },
        ) == hits(
            QueryState { places: taken_upto(q.infos, q.archetypes, q.shape, n), ..q },
        ),
    decreases n,
{
    let a = QueryState { places: matching_upto(q.infos, q.archetypes, q.shape, n), ..q };
    let b = QueryState { places: taken_upto(q.infos, q.archetypes, q.shape, n), ..q };
    if n == 0 {
        assert(a == b);
    } else {
        let m = (n - 1) as nat;
        lemma_empty_archetypes_add_nothing(q, m);
        let a0 = QueryState { places: matching_upto(q.infos, q.archetypes, q.shape, m), ..q };
        let b0 = QueryState { places: taken_upto(q.infos, q.archetypes, q.shape, m), ..q };
        let p = m as usize;
        lemma_hits_push(a0, p, 0);
        lemma_hits_push(b0, p, 0);
        lemma_hits_in_same(a0, q, p);
        lemma_hits_in_same(b0, q, p);
        if suits(q.infos, q.archetypes[m as int], q.shape) {
            if q.archetypes[m as int].entities.len() == 0 {
                assert(hits_in(q, p) =~= Seq::empty());
                assert(hits(a) =~= hits(a0));
            }
        }
    }
}

/// A query that lists archetypes without entities too takes the same rows in the same order.
pub proof fn law_cached_query_takes_the_same(w: World, s: Shape, last_run: Tick)
    requires
        w.wf(),
    ensures
        hits(
            QueryState {
                places: matching_upto(
                    w@.registry.infos,
                    w.store().archetypes,
                    s,
                    w.store().archetypes.len(),
                ),
                ..whole(w, s, last_run)
            },
        ) == hits(whole(w, s, last_run)),
{
    w.lemma_store();
    lemma_empty_archetypes_add_nothing(whole(w, s, last_run), w.store().archetypes.len());
}

/// A query whose archetypes ascend has no more matches than there are slots.
pub proof fn lemma_matches_fit(q: QueryState, st: StoreState, infos: Seq<InfoView>)
    requires
        store_wf(st, infos),
        q.archetypes == st.archetypes,
        forall|a: int| 0 <= a < q.places.len() ==> #[trigger] q.places[a] < st.archetypes.len(),
        forall|a: int, b: int|
            0 <= a < b < q.places.len() ==> #[trigger] q.places[a] < #[trigger] q.places[b],
    ensures
        hits(q).len() <= st.entities.generations.len() <= u32::MAX,
{
    let all = hits(q);
    let n = st.entities.generations.len();
    let idx = all.map_values(|h: (usize, usize)| entity_at(q, h).index as int);
    assert forall|i: int| 0 <= i < all.len() implies {
        let h = #[trigger] all[i];
        &&& h.0 < st.archetypes.len()
        &&& h.1 < st.archetypes[h.0 as int].entities.len()
    } by {
        let h = all[i];
        assert(all.contains(h));
        law_hits_are_what_is_covered(q, h.0, h.1);
        let k = choose|k: int| 0 <= k < q.places.len() && q.places[k] == h.0;
        assert(q.places[k] < st.archetypes.len());
        crate::storage::lemma_rows_fit(st, infos, h.0 as int);
    }
    assert forall|i: int| 0 <= i < idx.len() implies 0 <= #[trigger] idx[i] < n by {
        let h = all[i];
        lemma_row_of(st, infos, h.0 as int, h.1 as int);
    }
    assert forall|i: int, j: int|
        0 <= i < idx.len() && 0 <= j < idx.len() && i != j implies idx[i] != idx[j] by {
        let (a, b) = if i < j {
            (i, j)
        } else {
            (j, i)
        };
        law_rows_come_in_order(q, 0, a, b);
        let x = all[a];
        let y = all[b];
        lemma_row_of(st, infos, x.0 as int, x.1 as int);
        lemma_row_of(st, infos, y.0 as int, y.1 as int);
    }
    if all.len() > n {
        let head = idx.subrange(0, (n + 1) as int);
        crate::storage::lemma_pigeonhole(head, n);
    }
}

/// A query over a whole world has no more matches than a machine word counts.
pub proof fn law_matches_can_be_counted(w: World, s: Shape, last_run: Tick)
    requires
        w.wf(),
    ensures
        hits(whole(w, s, last_run)).len() <= u32::MAX,
{
    w.lemma_store();
    let st = w.store();
    law_candidates(w@.registry.infos, st.archetypes, s, st.archetypes.len(), 0);
    lemma_matches_fit(whole(w, s, last_run), st, w@.registry.infos);
}

} // verus!
