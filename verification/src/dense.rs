//! Whole stretches of rows: matches handed out column by column, and in parts for several threads.

use vstd::prelude::*;
use crate::archetype::{Archetype, arch_wf, column_of, filled};
use crate::column::Column;
use crate::component::ComponentId;
use crate::entity::Entity;
use crate::inline::{RangeList, range_items};
use crate::par_utils::{
    RowRange, all_rows, chunks_of, compute_par_chunks, law_parts_cover_the_rows,
    law_pieces_cover_the_rows, leaves_of, lemma_all_rows_push, lemma_piece_bounds, ordered,
    par_split_run_ranges, part_rows, piece_count, pieces, ranges_of, row_count, rows_in,
};
use crate::query::{
    Query, QueryState, first_row, hits, hits_from, hits_in, rows_end, rows_from, takes_archetype,
    takes_row,
};
use crate::shape::{data_access, has_row_filter};
use crate::world::piece;

verus! {

/// Whether there are rows to look at in an archetype that a query takes.
pub open spec fn has_span(q: QueryState, place: usize) -> bool {
    takes_archetype(q, place) && first_row(q, place) < rows_end(q, place)
}

/// The rows to look at in the first `n` archetypes of a query's list, as ranges.
pub open spec fn spans_upto(q: QueryState, n: nat) -> Seq<RowRange>
    decreases n,
{
    if n == 0 {
        Seq::empty()
    } else {
        let head = spans_upto(q, (n - 1) as nat);
        let place = q.places[n - 1];
        if has_span(q, place) {
            head.push((place, first_row(q, place), rows_end(q, place)))
        } else {
            head
        }
    }
}

/// The rows that a query looks at, as ranges.
pub open spec fn spans(q: QueryState) -> Seq<RowRange> {
    spans_upto(q, q.places.len())
}

/// The rows among `rows` that a query takes.
pub open spec fn passing(q: QueryState, rows: Seq<(usize, int)>) -> Seq<(usize, usize)>
    decreases rows.len(),
{
    if rows.len() == 0 {
        Seq::empty()
    } else {
        let head = passing(q, rows.drop_last());
        let (place, row) = rows.last();
        if takes_row(q, place, row as usize) {
            head.push((place, row as usize))
        } else {
            head
        }
    }
}

proof fn lemma_passing_add(q: QueryState, a: Seq<(usize, int)>, b: Seq<(usize, int)>)
    ensures
        passing(q, a + b) == passing(q, a) + passing(q, b),
    decreases b.len(),
{
    if b.len() == 0 {
        assert(a + b =~= a);
        assert(passing(q, a) + passing(q, b) =~= passing(q, a));
    } else {
        lemma_passing_add(q, a, b.drop_last());
        assert((a + b).drop_last() =~= a + b.drop_last());
        assert((a + b).last() == b.last());
        assert(passing(q, a + b) =~= passing(q, a) + passing(q, b));
    }
}

proof fn lemma_passing_rows(q: QueryState, place: usize, row: usize, end: usize)
    requires
        row <= end,
    ensures
        passing(q, rows_in((place, row, end))) == rows_from(q, place, row as int, end as int),
    decreases end - row,
{
    let rows = rows_in((place, row, end));
    if row == end {
        assert(rows =~= Seq::empty());
    } else {
        let next = (row + 1) as usize;
        lemma_passing_rows(q, place, next, end);
        let first = seq![(place, row as int)];
        assert(rows =~= first + rows_in((place, next, end)));
        lemma_passing_add(q, first, rows_in((place, next, end)));
        assert(first.drop_last() =~= Seq::empty());
        assert(passing(q, first.drop_last()) =~= Seq::empty());
        assert(first.last() == (place, row as int));
        if takes_row(q, place, row) {
            assert(passing(q, first) =~= seq![(place, row)]);
        } else {
            assert(passing(q, first) =~= Seq::empty());
            assert(Seq::<(usize, usize)>::empty() + rows_from(q, place, row + 1, end as int)
                =~= rows_from(q, place, row + 1, end as int));
        }
    }
}

proof fn lemma_spans(q: QueryState, n: nat)
    requires
        n <= q.places.len(),
    ensures
        passing(q, all_rows(spans_upto(q, n))) + hits_from(q, n) == hits(q),
        ordered(spans_upto(q, n)),
    decreases n,
{
    if n == 0 {
        assert(all_rows(spans_upto(q, 0)) =~= Seq::empty());
        assert(passing(q, all_rows(spans_upto(q, 0))) + hits_from(q, 0) =~= hits(q));
    } else {
        let m = (n - 1) as nat;
        lemma_spans(q, m);
        let place = q.places[m as int];
        let head = spans_upto(q, m);
        let start = first_row(q, place);
        let end = rows_end(q, place);
        assert(hits_from(q, m) == hits_in(q, place) + hits_from(q, n));
        if has_span(q, place) {
            let r = (place, start, end);
            assert(spans_upto(q, n) == head.push(r));
            assert(head.push(r).drop_last() =~= head);
            assert(all_rows(head.push(r)) == all_rows(head) + rows_in(r));
            lemma_passing_add(q, all_rows(head), rows_in(r));
            lemma_passing_rows(q, place, start, end);
            assert(passing(q, all_rows(spans_upto(q, n))) + hits_from(q, n) =~= hits(q));
        } else {
            assert(hits_in(q, place) =~= Seq::empty());
            assert(passing(q, all_rows(spans_upto(q, n))) + hits_from(q, n) =~= hits(q));
        }
    }
}

/// The matches of a query are those rows of its ranges that it takes, in order.
pub proof fn law_ranges_hold_the_matches(q: QueryState)
    ensures
        passing(q, all_rows(spans(q))) == hits(q),
        ordered(spans(q)),
{
    lemma_spans(q, q.places.len());
    assert(hits_from(q, q.places.len()) =~= Seq::empty());
    assert(passing(q, all_rows(spans(q))) + hits_from(q, q.places.len()) =~= passing(
        q,
        all_rows(spans(q)),
    ));
}

/// Whether `bytes` are the values of a column from row `start` to before row `end`, one behind the
/// other.
pub open spec fn is_stretch(
    bytes: Seq<u8>,
    rows: Seq<Seq<u8>>,
    size: nat,
    start: int,
    end: int,
) -> bool {
    &&& bytes.len() == (end - start) * size
    &&& forall|r: int| start <= r < end ==> #[trigger] rows[r] == piece(bytes, size, r - start)
}

/// A stretch of rows of one archetype, column by column.
pub struct QueryChunk<'w> {
    /// The archetype.
    pub place: usize,
    /// The first row.
    pub start: usize,
    /// The entities of the rows.
    pub entities: &'w [Entity],
    /// For each component that the shape hands out, the values in the rows one behind the other,
    /// if the archetype has the component.
    pub columns: Vec<Option<&'w [u8]>>,
}

/// Whether `chunk` is what a query hands out for a range of rows.
pub open spec fn is_chunk(q: QueryState, r: RowRange, chunk: QueryChunk<'_>) -> bool {
    let a = q.archetypes[r.0 as int];
    let access = data_access(q.infos, q.shape);
    &&& chunk.place == r.0
    &&& chunk.start == r.1
    &&& chunk.entities@ == a.entities.subrange(r.1 as int, r.2 as int)
    &&& chunk.columns@.len() == access.len()
    &&& forall|i: int|
        0 <= i < access.len() ==> match (#[trigger] chunk.columns@[i], column_of(a, access[i].0)) {
            (Some(bytes), Some(c)) => is_stretch(
                bytes@,
                a.columns[c].rows,
                a.columns[c].item_size,
                r.1 as int,
                r.2 as int,
            ),
            (None, None) => true,
            _ => false,
        }
}

/// The values of a column from row `start` to before row `end`.
fn stretch<'a>(column: &'a Column, start: usize, end: usize) -> (bytes: &'a [u8])
    requires
        column.wf(),
        start <= end <= column@.rows.len(),
    ensures
        is_stretch(bytes@, column@.rows, column@.item_size, start as int, end as int),
{
    let data: &'a [u8] = column.data_ptr();
    let size: usize = column.item_size();
    let _n: usize = data.len();
    proof {
        column.lemma_wf();
        assert(start * size <= end * size <= column@.rows.len() * size) by (nonlinear_arith)
            requires
                start <= end <= column@.rows.len(),
        ;
        assert((end - start) * size == end * size - start * size) by (nonlinear_arith);
    }
    let bytes: &'a [u8] = vstd::slice::slice_subrange(data, start * size, end * size);
    proof {
        assert forall|r: int| start <= r < end implies #[trigger] column@.rows[r] == piece(
            bytes@,
            size as nat,
            r - start,
        ) by {
            assert(start * size + (r - start) * size == r * size) by (nonlinear_arith);
            assert(r * size + size <= end * size) by (nonlinear_arith)
                requires
                    r + 1 <= end,
            ;
            assert((r - start) * size >= 0) by (nonlinear_arith)
                requires
                    r >= start,
            ;
            assert(piece(bytes@, size as nat, r - start) =~= data@.subrange(
                r * size,
                r * size + size,
            ));
        }
    }
    bytes
}

impl<'w, 's> Query<'w, 's> {
    /// The rows that the query looks at, as ranges.
    pub fn spans(&self) -> (out: RangeList)
        requires
            self.wf(),
        ensures
            range_items(out) == spans(self@),
    {
        let ghost q = self@;
        let mut out: RangeList = RangeList::new();
        let places: &[usize] = self.listed();
        let mut i: usize = 0;
        while i < places.len()
            invariant
                i <= places@.len(),
                self.wf(),
                q == self@,
                places@ == q.places,
                range_items(out) == spans_upto(q, i as nat),
            decreases places.len() - i,
        {
            match self.span_at(i) {
                Some((start, end)) => {
                    out.push((places[i], start, end));
                },
                None => {},
            }
            i = i + 1;
        }
        out
    }

    /// What the query hands out for some rows of an archetype.
    pub fn chunk_at(&self, place: usize, start: usize, end: usize) -> (chunk: QueryChunk<'w>)
        requires
            self.wf(),
            place < self@.archetypes.len(),
            start <= end <= self@.archetypes[place as int].entities.len(),
        ensures
            is_chunk(self@, (place, start, end), chunk),
    {
        let arch: &'w Archetype = self.archetype(place);
        let ghost a = arch@;
        let access: Vec<(u32, bool)> = self.access();
        let mut columns: Vec<Option<&'w [u8]>> = Vec::new();
        let mut i: usize = 0;
        while i < access.len()
            invariant
                i <= access@.len(),
                arch.wf(),
                arch@ == a,
                arch_wf(a),
                filled(a),
                start <= end <= a.entities.len(),
                columns@.len() == i,
                forall|k: int|
                    0 <= k < i ==> match (
                        #[trigger] columns@[k],
                        column_of(a, access@[k].0),
                    ) {
                        (Some(bytes), Some(c)) => is_stretch(
                            bytes@,
                            a.columns[c].rows,
                            a.columns[c].item_size,
                            start as int,
                            end as int,
                        ),
                        (None, None) => true,
                        _ => false,
                    },
            decreases access.len() - i,
        {
            match arch.column_index(ComponentId(access[i].0)) {
                Some(c) => {
                    columns.push(Some(stretch(arch.column(c), start, end)));
                },
                None => {
                    columns.push(None);
                },
            }
            i = i + 1;
        }
        QueryChunk {
            place,
            start,
            entities: vstd::slice::slice_subrange(arch.entities(), start, end),
            columns,
        }
    }

    /// The matches column by column, one chunk for every archetype with rows to look at. A shape
    /// that looks at single rows has none.
    pub fn chunks(&self) -> (list: Vec<QueryChunk<'w>>)
        requires
            self.wf(),
            !has_row_filter(self@.shape),
        ensures
            list@.len() == spans(self@).len(),
            forall|i: int|
                0 <= i < list@.len() ==> is_chunk(self@, spans(self@)[i], #[trigger] list@[i]),
    {
        let out: RangeList = self.spans();
        let ranges: &[RowRange] = out.as_slice();
        let mut list: Vec<QueryChunk<'w>> = Vec::new();
        let mut i: usize = 0;
        while i < ranges.len()
            invariant
                i <= ranges@.len(),
                self.wf(),
                ranges@ == spans(self@),
                list@.len() == i,
                forall|k: int|
                    0 <= k < i ==> is_chunk(self@, spans(self@)[k], #[trigger] list@[k]),
            decreases ranges.len() - i,
        {
            let (place, start, end): RowRange = ranges[i];
            proof {
                self.lemma_wf();
                lemma_span_bounds(self@, self@.places.len(), i as int);
            }
            list.push(self.chunk_at(place, start, end));
            i = i + 1;
        }
        list
    }

    /// Cuts the rows to look at into parts of at most `threshold` rows each, in order.
    pub fn par_leaves(&self, threshold: usize) -> (leaves: Vec<RangeList>)
        requires
            self.wf(),
            threshold > 0,
            row_count(spans(self@)) <= usize::MAX,
        ensures
            ranges_of(leaves@) == leaves_of(spans(self@), threshold as nat),
            passing(self@, part_rows(ranges_of(leaves@))) == hits(self@),
            forall|i: int|
                0 <= i < leaves@.len() ==> row_count(range_items(#[trigger] leaves@[i]))
                    <= threshold,
    {
        let out: RangeList = self.spans();
        let mut leaves: Vec<RangeList> = Vec::new();
        proof {
            law_ranges_hold_the_matches(self@);
            law_parts_cover_the_rows(spans(self@), threshold as nat);
        }
        let ghost parts = leaves_of(spans(self@), threshold as nat);
        let ghost none = ranges_of(leaves@);
        par_split_run_ranges(out.as_slice(), threshold, &mut leaves);
        proof {
            assert(none + parts =~= parts);
            assert forall|i: int| 0 <= i < leaves@.len() implies row_count(
                range_items(#[trigger] leaves@[i]),
            ) <= threshold by {
                assert(parts[i] == range_items(leaves@[i]));
            }
        }
        leaves
    }

    /// The matches among some rows of an archetype that the query takes.
    pub fn rows_in_range(&self, place: usize, start: usize, end: usize) -> (list: Vec<
        (usize, usize),
    >)
        requires
            self.wf(),
            place < self@.archetypes.len(),
            takes_archetype(self@, place),
            start <= end <= self@.archetypes[place as int].entities.len(),
        ensures
            list@ == rows_from(self@, place, start as int, end as int),
    {
        let arch: &Archetype = self.archetype(place);
        let ghost q = self@;
        let mut list: Vec<(usize, usize)> = Vec::new();
        let mut row: usize = start;
        while row < end
            invariant
                start <= row <= end <= arch@.entities.len(),
                self.wf(),
                q == self@,
                arch.wf(),
                filled(arch@),
                place < q.archetypes.len(),
                arch@ == q.archetypes[place as int],
                takes_archetype(q, place),
                list@ + rows_from(q, place, row as int, end as int) =~= rows_from(
                    q,
                    place,
                    start as int,
                    end as int,
                ),
            decreases end - row,
        {
            if self.takes_row_of(arch, row, Ghost(place)) {
                list.push((place, row));
            }
            row = row + 1;
        }
        list
    }
}

proof fn lemma_span_bounds(q: QueryState, n: nat, i: int)
    requires
        n <= q.places.len(),
        forall|k: int| 0 <= k < q.places.len() ==> #[trigger] q.places[k] < q.archetypes.len(),
        0 <= i < spans_upto(q, n).len(),
    ensures
        spans_upto(q, n)[i].0 < q.archetypes.len(),
        takes_archetype(q, spans_upto(q, n)[i].0),
        spans_upto(q, n)[i].1 < spans_upto(q, n)[i].2,
        spans_upto(q, n)[i].2 <= q.archetypes[spans_upto(q, n)[i].0 as int].entities.len(),
    decreases n,
{
    let head = spans_upto(q, (n - 1) as nat);
    if i < head.len() {
        lemma_span_bounds(q, (n - 1) as nat, i);
    } else {
        assert(q.places[n - 1] < q.archetypes.len());
    }
}

/// Every range of a query lies in an archetype that the query takes.
pub proof fn law_ranges_lie_in_taken_archetypes(q: QueryState, i: int)
    requires
        forall|k: int| 0 <= k < q.places.len() ==> #[trigger] q.places[k] < q.archetypes.len(),
        0 <= i < spans(q).len(),
    ensures
        spans(q)[i].0 < q.archetypes.len(),
        takes_archetype(q, spans(q)[i].0),
        spans(q)[i].1 < spans(q)[i].2 <= q.archetypes[spans(q)[i].0 as int].entities.len(),
{
    lemma_span_bounds(q, q.places.len(), i);
}

/// A range moved by some rows.
pub open spec fn shifted(r: RowRange, by: usize) -> RowRange {
    (r.0, (r.1 + by) as usize, (r.2 + by) as usize)
}

/// Ranges moved by some rows.
pub open spec fn all_shifted(items: Seq<RowRange>, by: usize) -> Seq<RowRange> {
    items.map_values(|r: RowRange| shifted(r, by))
}

/// The rows to look at in the first `n` archetypes of a query's list, those of archetype `i` in
/// pieces of at most `sizes[i]` rows.
pub open spec fn pieces_upto(q: QueryState, sizes: Seq<usize>, n: nat) -> Seq<RowRange>
    decreases n,
{
    if n == 0 {
        Seq::empty()
    } else {
        let head = pieces_upto(q, sizes, (n - 1) as nat);
        let place = q.places[n - 1];
        if has_span(q, place) {
            let len = (rows_end(q, place) - first_row(q, place)) as usize;
            head + all_shifted(
                pieces(
                    place,
                    len,
                    sizes[n - 1],
                    piece_count(len as nat, sizes[n - 1] as nat),
                ),
                first_row(q, place),
            )
        } else {
            head
        }
    }
}

/// Rows moved by some rows.
spec fn rows_shifted(rows: Seq<(usize, int)>, by: int) -> Seq<(usize, int)> {
    rows.map_values(|x: (usize, int)| (x.0, x.1 + by))
}

proof fn lemma_rows_shifted(items: Seq<RowRange>, by: usize)
    requires
        ordered(items),
        forall|i: int| 0 <= i < items.len() ==> (#[trigger] items[i]).2 + by <= usize::MAX,
    ensures
        all_rows(all_shifted(items, by)) == rows_shifted(all_rows(items), by as int),
    decreases items.len(),
{
    let t = all_shifted(items, by);
    if items.len() == 0 {
        assert(all_rows(t) =~= rows_shifted(all_rows(items), by as int));
    } else {
        let head = items.drop_last();
        assert forall|i: int| 0 <= i < head.len() implies (#[trigger] head[i]).2 + by <= usize::MAX
            && head[i].1 <= head[i].2 by {
            assert(items[i] == head[i]);
        }
        lemma_rows_shifted(head, by);
        assert(t.drop_last() =~= all_shifted(head, by));
        let r = items.last();
        assert(items[items.len() - 1] == r);
        assert(t.last() == shifted(r, by));
        assert(rows_in(shifted(r, by)) =~= rows_shifted(rows_in(r), by as int));
        assert(all_rows(t) =~= rows_shifted(all_rows(items), by as int));
    }
}

proof fn lemma_all_rows_add(a: Seq<RowRange>, b: Seq<RowRange>)
    ensures
        all_rows(a + b) == all_rows(a) + all_rows(b),
    decreases b.len(),
{
    if b.len() == 0 {
        assert(a + b =~= a);
        assert(all_rows(a) + all_rows(b) =~= all_rows(a));
    } else {
        lemma_all_rows_add(a, b.drop_last());
        assert((a + b).drop_last() =~= a + b.drop_last());
        assert((a + b).last() == b.last());
        assert(all_rows(a + b) =~= all_rows(a) + all_rows(b));
    }
}

/// Cut into pieces the rows are the same, in the same order.
pub proof fn law_pieces_hold_the_rows(q: QueryState, sizes: Seq<usize>, n: nat)
    requires
        n <= q.places.len() == sizes.len(),
        forall|i: int| 0 <= i < sizes.len() ==> #[trigger] sizes[i] > 0,
    ensures
        all_rows(pieces_upto(q, sizes, n)) == all_rows(spans_upto(q, n)),
    decreases n,
{
    if n > 0 {
        law_pieces_hold_the_rows(q, sizes, (n - 1) as nat);
        let place = q.places[n - 1];
        let size = sizes[n - 1];
        if has_span(q, place) {
            let start = first_row(q, place);
            let end = rows_end(q, place);
            let len = (end - start) as usize;
            let total = piece_count(len as nat, size as nat);
            let list = pieces(place, len, size, total);
            law_pieces_cover_the_rows(place, len, size, total);
            assert forall|k: int| 0 <= k < list.len() implies (#[trigger] list[k]).1 <= list[k].2
                && list[k].2 + start <= usize::MAX by {
                lemma_piece_bounds(len as int, size as int, k);
            }
            lemma_rows_shifted(list, start);
            assert(rows_shifted(rows_in((place, 0, len)), start as int) =~= rows_in(
                (place, start, end),
            ));
            let head = pieces_upto(q, sizes, (n - 1) as nat);
            lemma_all_rows_add(head, all_shifted(list, start));
            lemma_all_rows_push(spans_upto(q, (n - 1) as nat), (place, start, end));
        }
    }
}

impl<'w, 's> Query<'w, 's> {
    /// Cuts the rows to look at into pieces, those of the archetype at `i` of the list into pieces
    /// of at most `sizes[i]` rows.
    pub fn par_chunks(&self, sizes: &[usize]) -> (out: RangeList)
        requires
            self.wf(),
            sizes@.len() == self@.places.len(),
            forall|i: int| 0 <= i < sizes@.len() ==> #[trigger] sizes@[i] > 0,
        ensures
            range_items(out) == pieces_upto(self@, sizes@, sizes@.len()),
            all_rows(range_items(out)) == all_rows(spans(self@)),
            passing(self@, all_rows(range_items(out))) == hits(self@),
    {
        let ghost q = self@;
        let mut out: RangeList = RangeList::new();
        let places: &[usize] = self.listed();
        let mut i: usize = 0;
        while i < places.len()
            invariant
                i <= places@.len() == sizes@.len(),
                self.wf(),
                q == self@,
                places@ == q.places,
                forall|k: int| 0 <= k < sizes@.len() ==> #[trigger] sizes@[k] > 0,
                range_items(out) == pieces_upto(q, sizes@, i as nat),
            decreases places.len() - i,
        {
            assert(sizes@[i as int] > 0);
            let place: usize = places[i];
            match self.span_at(i) {
                Some((start, end)) => {
                    let len: usize = end - start;
                    let one: [(usize, usize, usize); 1] = [(place, len, sizes[i])];
                    let ghost total = piece_count(len as nat, sizes@[i as int] as nat);
                    let ghost list = pieces(place, len, sizes@[i as int], total);
                    let ghost head = range_items(out);
                    proof {
                        assert(one@.len() == 1 && one@[0] == (place, len, sizes@[i as int]));
                        assert(chunks_of(one@, 0) =~= Seq::empty());
                        assert(chunks_of(one@, 1) == chunks_of(one@, 0) + list);
                        assert(chunks_of(one@, 1) =~= list);
                    }
                    let parts: RangeList = compute_par_chunks(&one);
                    let items: &[RowRange] = parts.as_slice();
                    let mut k: usize = 0;
                    assert(head + all_shifted(list, start).subrange(0, 0) =~= head);
                    while k < items.len()
                        invariant
                            k <= items@.len(),
                            items@ == list,
                            list == pieces(place, len, sizes@[i as int], total),
                            total == piece_count(len as nat, sizes@[i as int] as nat),
                            sizes@[i as int] > 0,
                            start + len <= usize::MAX,
                            range_items(out) == head + all_shifted(list, start).subrange(
                                0,
                                k as int,
                            ),
                        decreases items.len() - k,
                    {
                        proof {
                            lemma_piece_bounds(len as int, sizes@[i as int] as int, k as int);
                        }
                        let (_a, s, e): RowRange = items[k];
                        out.push((place, start + s, start + e));
                        k = k + 1;
                        assert(range_items(out) =~= head + all_shifted(list, start).subrange(
                            0,
                            k as int,
                        ));
                    }
                    assert(all_shifted(list, start).subrange(0, list.len() as int) =~= all_shifted(
                        list,
                        start,
                    ));
                },
                None => {},
            }
            i = i + 1;
        }
        proof {
            law_pieces_hold_the_rows(q, sizes@, sizes@.len());
            law_ranges_hold_the_matches(q);
        }
        out
    }
}

/// No piece is larger than what was asked for its archetype, and none is empty.
pub proof fn law_pieces_are_no_larger_than_asked_for(
    q: QueryState,
    sizes: Seq<usize>,
    n: nat,
    k: int,
)
    requires
        n <= q.places.len() == sizes.len(),
        forall|i: int| 0 <= i < sizes.len() ==> #[trigger] sizes[i] > 0,
        0 <= k < pieces_upto(q, sizes, n).len(),
    ensures
        pieces_upto(q, sizes, n)[k].1 < pieces_upto(q, sizes, n)[k].2,
        exists|i: int|
            0 <= i < n && pieces_upto(q, sizes, n)[k].0 == (#[trigger] q.places[i])
                && pieces_upto(q, sizes, n)[k].2 - pieces_upto(q, sizes, n)[k].1 <= sizes[i],
    decreases n,
{
    if n > 0 {
        let n1 = (n - 1) as nat;
        let place = q.places[n - 1];
        let size = sizes[n - 1];
        let head = pieces_upto(q, sizes, n1);
        let all = pieces_upto(q, sizes, n);
        if k < head.len() {
            law_pieces_are_no_larger_than_asked_for(q, sizes, n1, k);
            assert(all[k] == head[k]);
            let i = choose|i: int|
                0 <= i < n1 && head[k].0 == (#[trigger] q.places[i]) && head[k].2 - head[k].1
                    <= sizes[i];
            assert(0 <= i < n && all[k].0 == q.places[i]);
        } else {
            let start = first_row(q, place);
            let len = (rows_end(q, place) - start) as usize;
            let total = piece_count(len as nat, size as nat);
            let list = pieces(place, len, size, total);
            let j = k - head.len();
            assert(all == head + all_shifted(list, start));
            assert(all[k] == shifted(list[j], start));
            lemma_piece_bounds(len as int, size as int, j);
            assert(list[j].2 + start <= usize::MAX);
            assert(0 <= n - 1 < n && all[k].0 == q.places[n - 1]);
        }
    }
}

} // verus!
