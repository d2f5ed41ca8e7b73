//! What queries over parts of the rows find, and what they hand out for stretches of rows.

use vstd::prelude::*;
use crate::archetype::{arch_wf, column_of, filled};
use crate::dense::{QueryChunk, is_chunk};
use crate::par_utils::RowRange;
use crate::query::{QueryState, first_row, hits, law_hits_are_what_is_covered, range_of, rows_end};
use crate::shape::data_access;
use crate::storage::cell_at;
use crate::world::piece;

verus! {

proof fn lemma_range_of(ranges: Seq<(usize, usize, usize)>, place: usize, from: nat, i: int)
    requires
        from <= i <= ranges.len(),
        i < ranges.len() ==> ranges[i].0 == place,
        forall|j: int| from <= j < i ==> (#[trigger] ranges[j]).0 != place,
    ensures
        range_of(ranges, place, from) == if i < ranges.len() {
            (ranges[i].1, ranges[i].2)
        } else {
            (0usize, usize::MAX)
        },
    decreases ranges.len() - from,
{
    if from < i {
        lemma_range_of(ranges, place, from + 1, i);
    }
}

/// A range narrows a query to the rows in it, in its archetype, and takes nothing from other
/// archetypes.
pub proof fn law_ranges_narrow_a_query(q: QueryState, place: usize, row: usize, i: int)
    requires
        0 <= i <= q.ranges.len(),
        i < q.ranges.len() ==> q.ranges[i].0 == place,
        forall|j: int| 0 <= j < i ==> (#[trigger] q.ranges[j]).0 != place,
        q.archetypes[place as int].entities.len() <= usize::MAX,
    ensures
        ({
            let every = QueryState { ranges: Seq::empty(), ..q };
            if i < q.ranges.len() {
                hits(q).contains((place, row)) <==> hits(every).contains((place, row))
                    && q.ranges[i].1 <= row < q.ranges[i].2
            } else {
                hits(q).contains((place, row)) <==> hits(every).contains((place, row))
            }
        }),
{
    let every = QueryState { ranges: Seq::empty(), ..q };
    law_hits_are_what_is_covered(q, place, row);
    law_hits_are_what_is_covered(every, place, row);
    lemma_range_of(q.ranges, place, 0, i);
    lemma_range_of(every.ranges, place, 0, 0);
}

/// A query without ranges looks at every row of every archetype on its list.
pub proof fn law_queries_without_ranges_look_at_every_row(q: QueryState, place: usize)
    requires
        q.ranges.len() == 0,
        q.archetypes[place as int].entities.len() <= usize::MAX,
    ensures
        first_row(q, place) == 0,
        rows_end(q, place) == q.archetypes[place as int].entities.len(),
{
    lemma_range_of(q.ranges, place, 0, 0);
}

/// A stretch of rows holds, for each component that is handed out, the values of its rows one
/// behind the other, beside the entities of the rows.
pub proof fn law_chunks_hold_the_values(
    q: QueryState,
    r: RowRange,
    chunk: QueryChunk<'_>,
    i: int,
    k: int,
)
    requires
        is_chunk(q, r, chunk),
        arch_wf(q.archetypes[r.0 as int]),
        filled(q.archetypes[r.0 as int]),
        r.1 <= r.2 <= q.archetypes[r.0 as int].entities.len(),
        0 <= i < data_access(q.infos, q.shape).len(),
        0 <= k < r.2 - r.1,
    ensures
        ({
            let a = q.archetypes[r.0 as int];
            let c = data_access(q.infos, q.shape)[i].0;
            &&& chunk.place == r.0
            &&& chunk.start == r.1
            &&& chunk.entities@.len() == r.2 - r.1
            &&& chunk.entities@[k] == a.entities[r.1 + k]
            &&& chunk.columns@[i] is Some <==> a.ids.contains(c)
            &&& a.ids.contains(c) ==> {
                let bytes = chunk.columns@[i]->0@;
                let size = a.columns[column_of(a, c)->0].item_size;
                &&& bytes.len() == (r.2 - r.1) * size
                &&& bytes.subrange(k * size, k * size + size) == cell_at(a, r.1 + k, c)->0.value
            }
        }),
{
    let a = q.archetypes[r.0 as int];
    let access = data_access(q.infos, q.shape);
    let c = access[i].0;
    let x = chunk.columns@[i];
    if a.ids.contains(c) {
        let j = column_of(a, c)->0;
        assert(a.columns[j].rows[r.1 + k] == piece(
            chunk.columns@[i]->0@,
            a.columns[j].item_size,
            (r.1 + k) - r.1,
        ));
    }
}

} // verus!
