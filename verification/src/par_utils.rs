//! Cutting rows into pieces for parallel iteration.

use vstd::prelude::*;
use crate::inline::{RangeList, range_items};

verus! {

/// A range of rows: archetype, first row, and the row behind the last.
pub type RowRange = (usize, usize, usize);

/// Whether ranges do not end before they start.
pub open spec fn ordered(items: Seq<RowRange>) -> bool {
    forall|i: int| 0 <= i < items.len() ==> (#[trigger] items[i]).1 <= items[i].2
}

/// Number of rows in ranges.
pub open spec fn row_count(items: Seq<RowRange>) -> nat
    decreases items.len(),
{
    if items.len() == 0 {
        0
    } else {
        (row_count(items.drop_last()) + items.last().2 - items.last().1) as nat
    }
}

/// The rows of one range, each with its archetype.
pub open spec fn rows_in(r: RowRange) -> Seq<(usize, int)> {
    Seq::new((r.2 - r.1) as nat, |k: int| (r.0, r.1 + k))
}

/// The rows of ranges, one after the other.
pub open spec fn all_rows(items: Seq<RowRange>) -> Seq<(usize, int)>
    decreases items.len(),
{
    if items.len() == 0 {
        Seq::empty()
    } else {
        all_rows(items.drop_last()) + rows_in(items.last())
    }
}

/// Number of pieces of at most `size` rows that `len` rows make.
pub open spec fn piece_count(len: nat, size: nat) -> nat {
    ((len + size - 1) as nat) / size
}

/// The piece `k` of the rows of an archetype.
pub open spec fn piece(arch: usize, len: usize, size: usize, k: int) -> RowRange {
    (
        arch,
        (k * size) as usize,
        if k * size + size <= len {
            (k * size + size) as usize
        } else {
            len
        },
    )
}

/// The first `n` pieces of the rows of an archetype.
pub open spec fn pieces(arch: usize, len: usize, size: usize, n: nat) -> Seq<RowRange> {
    Seq::new(n, |k: int| piece(arch, len, size, k))
}

/// The pieces of the first `n` archetypes: each is given as its number, its number of rows, and
/// the largest size of a piece.
pub open spec fn chunks_of(archetypes: Seq<(usize, usize, usize)>, n: nat) -> Seq<RowRange>
    decreases n,
{
    if n == 0 {
        Seq::empty()
    } else {
        let a = archetypes[n - 1];
        chunks_of(archetypes, (n - 1) as nat) + pieces(
            a.0,
            a.1,
            a.2,
            piece_count(a.1 as nat, a.2 as nat),
        )
    }
}

pub proof fn lemma_piece_bounds(len: int, size: int, k: int)
    requires
        0 <= len,
        0 < size,
        0 <= k < piece_count(len as nat, size as nat),
    ensures
        0 <= k * size < len,
{
    let m = len + size - 1;
    let q = m / size;
    vstd::arithmetic::div_mod::lemma_fundamental_div_mod(m, size);
    vstd::arithmetic::div_mod::lemma_mod_bound(m, size);
    assert(k * size <= (q - 1) * size) by (nonlinear_arith)
        requires
            k <= q - 1,
            size > 0,
    ;
    assert((q - 1) * size == size * q - size) by (nonlinear_arith);
    assert(0 <= k * size) by (nonlinear_arith)
        requires
            k >= 0,
            size > 0,
    ;
}

/// The pieces of the rows of archetypes: the list of `(archetype, first row, row behind the last)`
/// that covers every row once.
pub fn compute_par_chunks(archetypes: &[(usize, usize, usize)]) -> (out: RangeList)
    requires
        forall|i: int| 0 <= i < archetypes@.len() ==> (#[trigger] archetypes@[i]).2 > 0,
    ensures
        range_items(out) == chunks_of(archetypes@, archetypes@.len()),
{
    let mut out: RangeList = RangeList::new();
    let mut i: usize = 0;
    while i < archetypes.len()
        invariant
            i <= archetypes@.len(),
            forall|k: int| 0 <= k < archetypes@.len() ==> (#[trigger] archetypes@[k]).2 > 0,
            range_items(out) == chunks_of(archetypes@, i as nat),
        decreases archetypes.len() - i,
    {
        let (arch, len, size): (usize, usize, usize) = archetypes[i];
        assert(archetypes@[i as int].2 > 0);
        let ghost head = range_items(out);
        let ghost total = piece_count(len as nat, size as nat);
        let mut start: usize = 0;
        let ghost mut k: int = 0;
        proof {
            assert(head + pieces(arch, len, size, 0) =~= head);
            lemma_piece_total(len as int, size as int, 0);
        }
        while start < len
            invariant
                size > 0,
                0 <= k <= total,
                total == piece_count(len as nat, size as nat),
                start == (if k * size <= len {
                    k * size
                } else {
                    len as int
                }),
                k < total <==> k * size < len,
                range_items(out) == head + pieces(arch, len, size, k as nat),
            decreases len - start,
        {
            let left: usize = len - start;
            let end: usize = if size <= left {
                start + size
            } else {
                len
            };
            let ghost before = range_items(out);
            out.push((arch, start, end));
            proof {
                assert(k * size < len);
                assert(start == k * size);
                assert((arch, start, end) == piece(arch, len, size, k));
                assert((k + 1) * size == k * size + size) by (nonlinear_arith);
                assert(pieces(arch, len, size, (k + 1) as nat) =~= pieces(
                    arch,
                    len,
                    size,
                    k as nat,
                ).push(piece(arch, len, size, k)));
                assert(range_items(out) =~= head + pieces(arch, len, size, (k + 1) as nat));
                lemma_piece_total(len as int, size as int, k + 1);
                k = k + 1;
            }
            start = end;
        }
        assert(k == total);
        i = i + 1;
    }
    out
}

proof fn lemma_piece_total(len: int, size: int, k: int)
    requires
        0 <= len,
        0 < size,
        0 <= k,
    ensures
        k < piece_count(len as nat, size as nat) <==> k * size < len,
        0 <= k * size,
{
    let m = len + size - 1;
    let q = m / size;
    vstd::arithmetic::div_mod::lemma_fundamental_div_mod(m, size);
    vstd::arithmetic::div_mod::lemma_mod_bound(m, size);
    assert(0 <= k * size) by (nonlinear_arith)
        requires
            k >= 0,
            size > 0,
    ;
    if k < q {
        lemma_piece_bounds(len, size, k);
    } else {
        assert(k * size >= q * size) by (nonlinear_arith)
            requires
                k >= q,
                size > 0,
        ;
        assert(q * size == size * q) by (nonlinear_arith);
    }
}

pub proof fn lemma_all_rows_push(items: Seq<RowRange>, r: RowRange)
    ensures
        all_rows(items.push(r)) == all_rows(items) + rows_in(r),
        row_count(items.push(r)) == (row_count(items) + r.2 - r.1) as nat,
{
    assert(items.push(r).drop_last() =~= items);
}

proof fn lemma_row_count(items: Seq<RowRange>)
    requires
        ordered(items),
    ensures
        all_rows(items).len() == row_count(items),
    decreases items.len(),
{
    if items.len() > 0 {
        let head = items.drop_last();
        assert forall|i: int| 0 <= i < head.len() implies (#[trigger] head[i]).1 <= head[i].2 by {
            assert(items[i] == head[i]);
        }
        lemma_row_count(head);
        assert(items[items.len() - 1] == items.last());
    }
}

/// The pieces of an archetype's rows cover each row once, in order.
pub proof fn law_pieces_cover_the_rows(arch: usize, len: usize, size: usize, n: nat)
    requires
        size > 0,
        n <= piece_count(len as nat, size as nat),
    ensures
        all_rows(pieces(arch, len, size, n)) == rows_in(
            (
                arch,
                0,
                if n * size <= len {
                    (n * size) as usize
                } else {
                    len
                },
            ),
        ),
        n == piece_count(len as nat, size as nat) ==> all_rows(pieces(arch, len, size, n))
            == rows_in((arch, 0, len)),
    decreases n,
{
    lemma_piece_total(len as int, size as int, n as int);
    if n == 0 {
        assert(n * size == 0) by (nonlinear_arith)
            requires
                n == 0,
        ;
        assert(all_rows(pieces(arch, len, size, 0)) =~= rows_in((arch, 0, 0)));
    } else {
        let n1 = (n - 1) as nat;
        law_pieces_cover_the_rows(arch, len, size, n1);
        lemma_piece_total(len as int, size as int, n1 as int);
        let p = piece(arch, len, size, n1 as int);
        assert(pieces(arch, len, size, n) =~= pieces(arch, len, size, n1).push(p));
        lemma_all_rows_push(pieces(arch, len, size, n1), p);
        assert(n * size == n1 * size + size) by (nonlinear_arith)
            requires
                n == n1 + 1,
        ;
        let end = if n * size <= len {
            (n * size) as usize
        } else {
            len
        };
        assert(rows_in((arch, 0, (n1 * size) as usize)) + rows_in(p) =~= rows_in((arch, 0, end)));
    }
}

/// Number of rows in ranges.
pub fn combined_rows(items: &[RowRange]) -> (n: usize)
    requires
        ordered(items@),
        row_count(items@) <= usize::MAX,
    ensures
        n == row_count(items@),
{
    let mut n: usize = 0;
    let mut i: usize = 0;
    assert(items@.subrange(0, 0) =~= Seq::<RowRange>::empty());
    while i < items.len()
        invariant
            i <= items@.len(),
            ordered(items@),
            row_count(items@) <= usize::MAX,
            n == row_count(items@.subrange(0, i as int)),
        decreases items.len() - i,
    {
        proof {
            lemma_count_prefix(items@, (i + 1) as nat);
            assert(items@.subrange(0, i + 1) =~= items@.subrange(0, i as int).push(
                items@[i as int],
            ));
            lemma_all_rows_push(items@.subrange(0, i as int), items@[i as int]);
            assert(items@[i as int].1 <= items@[i as int].2);
        }
        let (arch, start, end): RowRange = items[i];
        n = n + (end - start);
        i = i + 1;
    }
    assert(items@.subrange(0, items@.len() as int) =~= items@);
    n
}

proof fn lemma_count_prefix(items: Seq<RowRange>, n: nat)
    requires
        n <= items.len(),
        ordered(items),
    ensures
        row_count(items.subrange(0, n as int)) <= row_count(items),
    decreases items.len(),
{
    if n == items.len() {
        assert(items.subrange(0, n as int) =~= items);
    } else {
        let head = items.drop_last();
        assert(items.subrange(0, n as int) =~= head.subrange(0, n as int));
        assert forall|i: int| 0 <= i < head.len() implies (#[trigger] head[i]).1 <= head[i].2 by {
            assert(items[i] == head[i]);
        }
        lemma_count_prefix(head, n);
        assert(items[items.len() - 1].1 <= items[items.len() - 1].2);
    }
}

/// Ranges cut behind their first `half` rows, as what is before and what is behind. The range in
/// the middle is cut; whole ranges stay whole, empty ones behind the cut.
pub open spec fn halved(items: Seq<RowRange>, half: nat) -> (Seq<RowRange>, Seq<RowRange>)
    decreases items.len(),
{
    if items.len() == 0 {
        (Seq::empty(), Seq::empty())
    } else {
        let (l, r) = halved(items.drop_last(), half);
        let (arch, start, end) = items.last();
        let left = half - row_count(l);
        if left <= 0 {
            (l, r.push(items.last()))
        } else if end - start <= left {
            (l.push(items.last()), r)
        } else {
            let mid = (start + left) as usize;
            (l.push((arch, start, mid)), r.push((arch, mid, end)))
        }
    }
}

/// The parts into which ranges are cut: one where no more than `threshold` rows are left, else
/// those of the two halves.
pub open spec fn leaves_of(items: Seq<RowRange>, threshold: nat) -> Seq<Seq<RowRange>>
    decreases row_count(items),
    when ordered(items) && threshold > 0
    via leaves_of_decreases
{
    let total = row_count(items);
    if total == 0 {
        Seq::empty()
    } else if total <= threshold {
        seq![items]
    } else {
        let (l, r) = halved(items, total / 2);
        leaves_of(l, threshold) + leaves_of(r, threshold)
    }
}

#[via_fn]
proof fn leaves_of_decreases(items: Seq<RowRange>, threshold: nat) {
    if row_count(items) > threshold {
        lemma_halved(items, row_count(items) / 2);
    }
}

/// The two parts hold the rows, and the first has as many as were asked for.
proof fn lemma_halved(items: Seq<RowRange>, half: nat)
    requires
        ordered(items),
        half <= row_count(items),
    ensures
        ordered(halved(items, half).0),
        ordered(halved(items, half).1),
        row_count(halved(items, half).0) == half,
        row_count(halved(items, half).1) == row_count(items) - half,
        all_rows(halved(items, half).0) + all_rows(halved(items, half).1) == all_rows(items),
{
    lemma_halved_part(items, half);
}

proof fn lemma_halved_part(items: Seq<RowRange>, half: nat)
    requires
        ordered(items),
    ensures
        ordered(halved(items, half).0),
        ordered(halved(items, half).1),
        row_count(halved(items, half).0) == if half <= row_count(items) {
            half
        } else {
            row_count(items)
        },
        row_count(halved(items, half).0) + row_count(halved(items, half).1) == row_count(items),
        row_count(halved(items, half).0) < half ==> halved(items, half).1.len() == 0,
        all_rows(halved(items, half).0) + all_rows(halved(items, half).1) == all_rows(items),
    decreases items.len(),
{
    if items.len() == 0 {
        assert(all_rows(halved(items, half).0) + all_rows(halved(items, half).1) =~= all_rows(items));
    } else {
        let head = items.drop_last();
        assert forall|i: int| 0 <= i < head.len() implies (#[trigger] head[i]).1 <= head[i].2 by {
            assert(items[i] == head[i]);
        }
        lemma_halved_part(head, half);
        let (l, rt) = halved(head, half);
        let r = items.last();
        assert(items[items.len() - 1] == r);
        let left = half - row_count(l);
        if left <= 0 {
            lemma_all_rows_push(rt, r);
            lemma_ordered_push(rt, r);
            assert(all_rows(l) + (all_rows(rt) + rows_in(r)) =~= (all_rows(l) + all_rows(rt))
                + rows_in(r));
        } else if r.2 - r.1 <= left {
            lemma_all_rows_push(l, r);
            lemma_ordered_push(l, r);
            assert(all_rows(rt) =~= Seq::<(usize, int)>::empty());
            assert((all_rows(l) + rows_in(r)) + all_rows(rt) =~= (all_rows(l) + all_rows(rt))
                + rows_in(r));
        } else {
            let mid = (r.1 + left) as usize;
            let a = (r.0, r.1, mid);
            let b = (r.0, mid, r.2);
            lemma_all_rows_push(l, a);
            lemma_all_rows_push(rt, b);
            lemma_ordered_push(l, a);
            lemma_ordered_push(rt, b);
            assert(all_rows(rt) =~= Seq::<(usize, int)>::empty());
            assert(rows_in(a) + rows_in(b) =~= rows_in(r));
            assert((all_rows(l) + rows_in(a)) + (all_rows(rt) + rows_in(b)) =~= (all_rows(l)
                + all_rows(rt)) + (rows_in(a) + rows_in(b)));
        }
    }
}

/// The rows of parts, one part after the other.
pub open spec fn part_rows(parts: Seq<Seq<RowRange>>) -> Seq<(usize, int)>
    decreases parts.len(),
{
    if parts.len() == 0 {
        Seq::empty()
    } else {
        part_rows(parts.drop_last()) + all_rows(parts.last())
    }
}

proof fn lemma_part_rows_added(a: Seq<Seq<RowRange>>, b: Seq<Seq<RowRange>>)
    ensures
        part_rows(a + b) == part_rows(a) + part_rows(b),
    decreases b.len(),
{
    if b.len() == 0 {
        assert(a + b =~= a);
        assert(part_rows(a) + part_rows(b) =~= part_rows(a));
    } else {
        lemma_part_rows_added(a, b.drop_last());
        assert((a + b).drop_last() =~= a + b.drop_last());
        assert(part_rows(a) + (part_rows(b.drop_last()) + all_rows(b.last())) =~= (part_rows(a)
            + part_rows(b.drop_last())) + all_rows(b.last()));
    }
}

/// The parts hold every row once, in order, and none has more rows than the threshold.
pub proof fn law_parts_cover_the_rows(items: Seq<RowRange>, threshold: nat)
    requires
        ordered(items),
        threshold > 0,
    ensures
        part_rows(leaves_of(items, threshold)) == all_rows(items),
        forall|i: int|
            0 <= i < leaves_of(items, threshold).len() ==> ordered(
                #[trigger] leaves_of(items, threshold)[i],
            ) && 0 < row_count(leaves_of(items, threshold)[i]) <= threshold,
    decreases row_count(items),
{
    let total = row_count(items);
    let parts = leaves_of(items, threshold);
    lemma_row_count(items);
    if total == 0 {
        assert(all_rows(items) =~= Seq::<(usize, int)>::empty());
    } else if total <= threshold {
        assert(parts.drop_last() =~= Seq::<Seq<RowRange>>::empty());
        assert(part_rows(parts.drop_last()) =~= Seq::<(usize, int)>::empty());
        assert(parts.last() == items);
        assert(part_rows(parts) =~= all_rows(items));
    } else {
        lemma_halved(items, total / 2);
        let (l, r) = halved(items, total / 2);
        law_parts_cover_the_rows(l, threshold);
        law_parts_cover_the_rows(r, threshold);
        let pl = leaves_of(l, threshold);
        let pr = leaves_of(r, threshold);
        lemma_part_rows_added(pl, pr);
        assert forall|i: int| 0 <= i < parts.len() implies ordered(#[trigger] parts[i]) && 0
            < row_count(parts[i]) <= threshold by {
            if i < pl.len() {
                assert(parts[i] == pl[i]);
            } else {
                assert(parts[i] == pr[i - pl.len()]);
            }
        }
    }
}

/// Cuts ranges into two halves of their rows. The range in the middle is cut.
pub fn split_half(items: &[RowRange]) -> (halves: (RangeList, RangeList))
    requires
        ordered(items@),
        row_count(items@) <= usize::MAX,
    ensures
        (range_items(halves.0), range_items(halves.1)) == halved(items@, row_count(items@) / 2),
{
    let total: usize = combined_rows(items);
    let half: usize = total / 2;
    let mut left: RangeList = RangeList::new();
    let mut right: RangeList = RangeList::new();
    let mut acc: usize = 0;
    let mut i: usize = 0;
    assert(items@.subrange(0, 0) =~= Seq::<RowRange>::empty());
    while i < items.len()
        invariant
            i <= items@.len(),
            ordered(items@),
            total == row_count(items@) <= usize::MAX,
            half == total / 2,
            acc == row_count(range_items(left)),
            acc <= half,
            (range_items(left), range_items(right)) == halved(
                items@.subrange(0, i as int),
                half as nat,
            ),
        decreases items.len() - i,
    {
        let (arch, start, end): RowRange = items[i];
        let ghost r = items@[i as int];
        let ghost l = range_items(left);
        proof {
            let prefix = items@.subrange(0, i as int);
            assert(r.1 <= r.2);
            assert(items@.subrange(0, i + 1) =~= prefix.push(r));
            assert(prefix.push(r).drop_last() =~= prefix);
        }
        let len: usize = end - start;
        if acc >= half {
            right.push((arch, start, end));
        } else if len <= half - acc {
            left.push((arch, start, end));
            acc = acc + len;
            proof {
                lemma_all_rows_push(l, r);
            }
        } else {
            let take: usize = half - acc;
            let mid: usize = start + take;
            left.push((arch, start, mid));
            right.push((arch, mid, end));
            acc = half;
            proof {
                lemma_all_rows_push(l, (arch, start, mid));
            }
        }
        i = i + 1;
    }
    assert(items@.subrange(0, items@.len() as int) =~= items@);
    (left, right)
}

proof fn lemma_ordered_push(items: Seq<RowRange>, r: RowRange)
    requires
        ordered(items),
        r.1 <= r.2,
    ensures
        ordered(items.push(r)),
{
    assert forall|i: int| 0 <= i < items.push(r).len() implies (#[trigger] items.push(r)[i]).1
        <= items.push(r)[i].2 by {
        if i < items.len() {
            assert(items.push(r)[i] == items[i]);
        }
    }
}

/// The ranges of parts.
pub open spec fn ranges_of(leaves: Seq<RangeList>) -> Seq<Seq<RowRange>> {
    leaves.map_values(|l: RangeList| range_items(l))
}

/// Cuts ranges in halves until no part has more than `threshold` rows, and appends the parts in
/// order: each is processed by itself.
pub fn par_split_run_ranges(items: &[RowRange], threshold: usize, leaves: &mut Vec<RangeList>)
    requires
        ordered(items@),
        row_count(items@) <= usize::MAX,
        threshold > 0,
    ensures
        ranges_of(final(leaves)@) == ranges_of(old(leaves)@) + leaves_of(items@, threshold as nat),
    decreases row_count(items@),
{
    let total: usize = combined_rows(items);
    let ghost parts = leaves_of(items@, threshold as nat);
    if total == 0 {
        assert(ranges_of(leaves@) + parts =~= ranges_of(leaves@));
        return ;
    }
    if total <= threshold {
        let leaf: RangeList = copied(items);
        leaves.push(leaf);
        assert(ranges_of(leaves@) =~= ranges_of(old(leaves)@) + parts);
        return ;
    }
    proof {
        lemma_halved(items@, row_count(items@) / 2);
    }
    let (left, right): (RangeList, RangeList) = split_half(items);
    par_split_run_ranges(left.as_slice(), threshold, leaves);
    par_split_run_ranges(right.as_slice(), threshold, leaves);
    proof {
        let l = leaves_of(range_items(left), threshold as nat);
        let r = leaves_of(range_items(right), threshold as nat);
        assert(ranges_of(leaves@) =~= ranges_of(old(leaves)@) + (l + r));
    }
}

fn copied(items: &[RowRange]) -> (out: RangeList)
    ensures
        range_items(out) == items@,
{
    let mut out: RangeList = RangeList::new();
    let mut i: usize = 0;
    while i < items.len()
        invariant
            i <= items@.len(),
            range_items(out) == items@.subrange(0, i as int),
        decreases items.len() - i,
    {
        out.push(items[i]);
        i = i + 1;
        assert(range_items(out) =~= items@.subrange(0, i as int));
    }
    assert(items@.subrange(0, items@.len() as int) =~= items@);
    out
}

/// The rows of archetypes, one archetype after the other.
pub open spec fn archetype_rows(archetypes: Seq<(usize, usize, usize)>) -> Seq<(usize, int)>
    decreases archetypes.len(),
{
    if archetypes.len() == 0 {
        Seq::empty()
    } else {
        let a = archetypes.last();
        archetype_rows(archetypes.drop_last()) + Seq::new(a.1 as nat, |k: int| (a.0, k))
    }
}

proof fn lemma_all_rows_joined(a: Seq<RowRange>, b: Seq<RowRange>)
    ensures
        all_rows(a + b) == all_rows(a) + all_rows(b),
    decreases b.len(),
{
    if b.len() == 0 {
        assert(a + b =~= a);
        assert(all_rows(a) + all_rows(b) =~= all_rows(a));
    } else {
        lemma_all_rows_joined(a, b.drop_last());
        assert((a + b).drop_last() =~= a + b.drop_last());
        assert(all_rows(a) + (all_rows(b.drop_last()) + rows_in(b.last())) =~= (all_rows(a)
            + all_rows(b.drop_last())) + rows_in(b.last()));
    }
}

/// The pieces of archetypes hold every row of every archetype once and in order, and no piece is
/// empty.
pub proof fn law_chunks_cover_every_archetype(archetypes: Seq<(usize, usize, usize)>, n: nat)
    requires
        n <= archetypes.len(),
        forall|i: int| 0 <= i < archetypes.len() ==> (#[trigger] archetypes[i]).2 > 0,
    ensures
        all_rows(chunks_of(archetypes, n)) == archetype_rows(archetypes.subrange(0, n as int)),
        forall|k: int|
            0 <= k < chunks_of(archetypes, n).len() ==> (#[trigger] chunks_of(archetypes, n)[k]).1
                < chunks_of(archetypes, n)[k].2,
    decreases n,
{
    let seen = archetypes.subrange(0, n as int);
    if n > 0 {
        let n1 = (n - 1) as nat;
        law_chunks_cover_every_archetype(archetypes, n1);
        let a = archetypes[n - 1];
        let total = piece_count(a.1 as nat, a.2 as nat);
        let head = chunks_of(archetypes, n1);
        let more = pieces(a.0, a.1, a.2, total);
        lemma_all_rows_joined(head, more);
        law_pieces_cover_the_rows(a.0, a.1, a.2, total);
        assert(seen.drop_last() =~= archetypes.subrange(0, n1 as int));
        assert(seen.last() == a);
        assert(rows_in((a.0, 0, a.1)) =~= Seq::new(a.1 as nat, |k: int| (a.0, k)));
        assert forall|k: int| 0 <= k < chunks_of(archetypes, n).len() implies (
        #[trigger] chunks_of(archetypes, n)[k]).1 < chunks_of(archetypes, n)[k].2 by {
            let all = chunks_of(archetypes, n);
            if k < head.len() {
                assert(all[k] == head[k]);
            } else {
                let j = k - head.len();
                assert(all[k] == more[j]);
                lemma_piece_bounds(a.1 as int, a.2 as int, j);
            }
        }
    }
}

/// The pieces of one archetype are as large as asked for, but for the last, which may be smaller.
pub proof fn law_pieces_are_full(arch: usize, len: usize, size: usize, k: int)
    requires
        size > 0,
        0 <= k < piece_count(len as nat, size as nat),
    ensures
        piece(arch, len, size, k).0 == arch,
        piece(arch, len, size, k).1 == k * size,
        piece(arch, len, size, k).2 - piece(arch, len, size, k).1 <= size,
        k + 1 < piece_count(len as nat, size as nat) ==> piece(arch, len, size, k).2 - piece(
            arch,
            len,
            size,
            k,
        ).1 == size,
{
    lemma_piece_bounds(len as int, size as int, k);
    if k + 1 < piece_count(len as nat, size as nat) {
        lemma_piece_bounds(len as int, size as int, k + 1);
        assert((k + 1) * size == k * size + size) by (nonlinear_arith);
    }
}

/// The two halves hold all rows in order, and the first has half of them, rounded down.
pub proof fn law_halves_hold_all_rows(items: Seq<RowRange>)
    requires
        ordered(items),
    ensures
        ({
            let (l, r) = halved(items, row_count(items) / 2);
            &&& all_rows(l) + all_rows(r) == all_rows(items)
            &&& all_rows(l).len() == all_rows(items).len() / 2
        }),
{
    let (l, r) = halved(items, row_count(items) / 2);
    lemma_halved(items, row_count(items) / 2);
    lemma_row_count(l);
    lemma_row_count(items);
}

/// Rows are counted as they are listed.
pub proof fn law_rows_are_counted(items: Seq<RowRange>)
    requires
        ordered(items),
    ensures
        row_count(items) == all_rows(items).len(),
{
    lemma_row_count(items);
}

/// No piece is larger than what was asked for its archetype.
pub proof fn law_chunks_are_no_larger_than_asked_for(
    archetypes: Seq<(usize, usize, usize)>,
    n: nat,
    k: int,
)
    requires
        n <= archetypes.len(),
        forall|i: int| 0 <= i < archetypes.len() ==> (#[trigger] archetypes[i]).2 > 0,
        0 <= k < chunks_of(archetypes, n).len(),
    ensures
        exists|i: int|
            0 <= i < n && chunks_of(archetypes, n)[k].0 == (#[trigger] archetypes[i]).0
                && chunks_of(archetypes, n)[k].2 - chunks_of(archetypes, n)[k].1 <= archetypes[i].2,
    decreases n,
{
    if n > 0 {
        let n1 = (n - 1) as nat;
        let a = archetypes[n - 1];
        let total = piece_count(a.1 as nat, a.2 as nat);
        let head = chunks_of(archetypes, n1);
        let more = pieces(a.0, a.1, a.2, total);
        let all = chunks_of(archetypes, n);
        assert(all == head + more);
        if k < head.len() {
            law_chunks_are_no_larger_than_asked_for(archetypes, n1, k);
            assert(all[k] == head[k]);
            let i = choose|i: int|
                0 <= i < n1 && head[k].0 == (#[trigger] archetypes[i]).0 && head[k].2 - head[k].1
                    <= archetypes[i].2;
            assert(0 <= i < n && all[k].0 == archetypes[i].0);
        } else {
            let j = k - head.len();
            assert(all[k] == more[j]);
            law_pieces_are_full(a.0, a.1, a.2, j);
            assert(0 <= n - 1 < n && all[k].0 == archetypes[n - 1].0);
        }
    }
}

} // verus!
