//! In which order relations are listed, and that each is.

use vstd::prelude::*;
use crate::entity::Entity;
use crate::pairs::{first_of, is_first};
use crate::relation_graph::{as_listed, kind_rows, lists_all_targets, rows_of, target_rows};
use crate::relation_index::{
    RelationPair, first_pair, keys_of, listed_before, lists_targets, pair_of, place_of,
};
use crate::relation_laws::{law_first_pair, lemma_place_of};

verus! {

/// Relations are listed by subject, then by kind, then by target: its slot, then its generation.
pub proof fn law_relations_are_listed_by_subject(i: u32, p: RelationPair, j: u32, q: RelationPair)
    ensures
        listed_before((i, p), (j, q)) <==> {
            ||| i < j
            ||| i == j && p.kind_idx < q.kind_idx
            ||| i == j && p.kind_idx == q.kind_idx && p.target.index < q.target.index
            ||| i == j && p.kind_idx == q.kind_idx && p.target.index == q.target.index
                && p.target.generation < q.target.generation
        },
        as_listed((i, p.kind_idx, p.target)) == (i, p),
{
}

/// The first target of a kind is the one in the lowest slot.
pub proof fn law_the_first_target_is_the_lowest(
    s: Set<RelationPair>,
    kind_idx: u32,
    p: RelationPair,
    q: RelationPair,
)
    requires
        first_pair(s, kind_idx) == Some(p),
        s.contains(q),
        q.kind_idx == kind_idx,
    ensures
        s.contains(p),
        p.kind_idx == kind_idx,
        p.target.index < q.target.index || (p.target.index == q.target.index && p.target.generation
            <= q.target.generation),
{
    law_first_pair(s, kind_idx);
    let keys = keys_of(s);
    let t = first_of(keys, kind_idx)->0;
    assert(is_first(keys, kind_idx, t));
    assert(pair_of(q.spec_sort_key()) == q);
    assert(keys.contains(q.spec_sort_key()));
}

/// The place of a subject among its siblings is where it stands.
pub proof fn law_places_are_counted_from_the_front(list: Seq<Entity>, i: int)
    requires
        list.no_duplicates(),
        0 <= i < list.len(),
    ensures
        place_of(list, list[i]) == i,
{
    assert(list.contains(list[i]));
    lemma_place_of(list, list[i]);
}

proof fn lemma_target_rows(
    m: Map<(u32, u32), Seq<Entity>>,
    kind_idx: u32,
    targets: Seq<u32>,
    row: (Entity, u32, u32),
)
    ensures
        target_rows(m, kind_idx, targets).contains(row) <==> row.1 == kind_idx && targets.contains(
            row.2,
        ) && m[(kind_idx, row.2)].contains(row.0),
    decreases targets.len(),
{
    let all = target_rows(m, kind_idx, targets);
    if targets.len() > 0 {
        let head = targets.drop_last();
        let t = targets.last();
        lemma_target_rows(m, kind_idx, head, row);
        let a = target_rows(m, kind_idx, head);
        let list = m[(kind_idx, t)];
        let b = rows_of(kind_idx, t, list);
        assert(all == a + b);
        assert(b.contains(row) <==> row.1 == kind_idx && row.2 == t && list.contains(row.0)) by {
            if b.contains(row) {
                let i = choose|i: int| 0 <= i < b.len() && b[i] == row;
                assert(list[i] == row.0);
            }
            if row.1 == kind_idx && row.2 == t && list.contains(row.0) {
                let i = choose|i: int| 0 <= i < list.len() && list[i] == row.0;
                assert(b[i] == row);
            }
        }
        assert(targets.contains(row.2) <==> head.contains(row.2) || row.2 == t) by {
            if head.contains(row.2) {
                let i = choose|i: int| 0 <= i < head.len() && head[i] == row.2;
                assert(targets[i] == row.2);
            }
            if row.2 == t {
                assert(targets[targets.len() - 1] == t);
            }
            if targets.contains(row.2) && row.2 != t {
                let i = choose|i: int| 0 <= i < targets.len() && targets[i] == row.2;
                assert(head[i] == row.2);
            }
        }
        lemma_joined_rows(a, b, row);
    }
}

proof fn lemma_joined_rows(
    a: Seq<(Entity, u32, u32)>,
    b: Seq<(Entity, u32, u32)>,
    row: (Entity, u32, u32),
)
    ensures
        (a + b).contains(row) <==> a.contains(row) || b.contains(row),
{
    let all = a + b;
    if a.contains(row) {
        let i = choose|i: int| 0 <= i < a.len() && a[i] == row;
        assert(all[i] == row);
    }
    if b.contains(row) {
        let i = choose|i: int| 0 <= i < b.len() && b[i] == row;
        assert(all[a.len() + i] == row);
    }
    if all.contains(row) {
        let i = choose|i: int| 0 <= i < all.len() && all[i] == row;
        if i < a.len() {
            assert(a[i] == row);
        } else {
            assert(b[i - a.len()] == row);
        }
    }
}

/// The listing by target holds every subject of every target of every kind, and nothing else.
pub proof fn law_every_subject_is_listed(
    m: Map<(u32, u32), Seq<Entity>>,
    kinds: nat,
    targets: Seq<Seq<u32>>,
    row: (Entity, u32, u32),
)
    requires
        lists_all_targets(m, kinds, targets),
        kinds <= u32::MAX,
    ensures
        kind_rows(m, targets).contains(row) <==> row.1 < kinds && m[(row.1, row.2)].contains(row.0),
    decreases kinds,
{
    if kinds > 0 {
        let head = targets.drop_last();
        let k1 = (kinds - 1) as nat;
        assert forall|k: int| 0 <= k < k1 implies lists_targets(m, k as u32, #[trigger] head[k]) by {
            assert(head[k] == targets[k]);
        }
        law_every_subject_is_listed(m, k1, head, row);
        let last = targets[kinds - 1];
        lemma_target_rows(m, k1 as u32, last, row);
        lemma_joined_rows(kind_rows(m, head), target_rows(m, k1 as u32, last), row);
        assert(lists_targets(m, k1 as u32, targets[kinds - 1]));
        if m[(row.1, row.2)].contains(row.0) {
            assert(m[(row.1, row.2)].len() > 0);
        }
    }
}

/// The listing by target goes kind by kind, and within a kind by the slots of the targets.
pub proof fn law_listing_goes_by_kind_and_target(
    m: Map<(u32, u32), Seq<Entity>>,
    kinds: nat,
    targets: Seq<Seq<u32>>,
    i: int,
    j: int,
)
    requires
        lists_all_targets(m, kinds, targets),
        kinds <= u32::MAX,
        0 <= i < j < kind_rows(m, targets).len(),
    ensures
        ({
            let a = kind_rows(m, targets)[i];
            let b = kind_rows(m, targets)[j];
            a.1 < b.1 || (a.1 == b.1 && a.2 <= b.2)
        }),
    decreases kinds,
{
    if kinds > 0 {
        let head = targets.drop_last();
        let k1 = (kinds - 1) as nat;
        assert forall|k: int| 0 <= k < k1 implies lists_targets(m, k as u32, #[trigger] head[k]) by {
            assert(head[k] == targets[k]);
        }
        let a = kind_rows(m, head);
        let last = targets[kinds - 1];
        assert(lists_targets(m, k1 as u32, targets[kinds - 1]));
        let b = target_rows(m, k1 as u32, last);
        let all = kind_rows(m, targets);
        assert(all == a + b);
        if j < a.len() {
            law_listing_goes_by_kind_and_target(m, k1, head, i, j);
            assert(all[i] == a[i] && all[j] == a[j]);
        } else if i < a.len() {
            assert(all[i] == a[i] && all[j] == b[j - a.len()]);
            assert(a.contains(a[i]) && b.contains(b[j - a.len()]));
            law_every_subject_is_listed(m, k1, head, a[i]);
            lemma_target_rows(m, k1 as u32, last, b[j - a.len()]);
        } else {
            assert(all[i] == b[i - a.len()] && all[j] == b[j - a.len()]);
            lemma_targets_ascend(m, k1 as u32, last, i - a.len(), j - a.len());
        }
    }
}

proof fn lemma_targets_ascend(
    m: Map<(u32, u32), Seq<Entity>>,
    kind_idx: u32,
    targets: Seq<u32>,
    i: int,
    j: int,
)
    requires
        forall|a: int, b: int|
            0 <= a < b < targets.len() ==> #[trigger] targets[a] < #[trigger] targets[b],
        0 <= i < j < target_rows(m, kind_idx, targets).len(),
    ensures
        ({
            let a = target_rows(m, kind_idx, targets)[i];
            let b = target_rows(m, kind_idx, targets)[j];
            a.1 == kind_idx && b.1 == kind_idx && a.2 <= b.2
        }),
    decreases targets.len(),
{
    let all = target_rows(m, kind_idx, targets);
    if targets.len() > 0 {
        let head = targets.drop_last();
        let t = targets.last();
        let a = target_rows(m, kind_idx, head);
        let b = rows_of(kind_idx, t, m[(kind_idx, t)]);
        assert(all == a + b);
        assert forall|x: int, y: int| 0 <= x < y < head.len() implies #[trigger] head[x]
            < #[trigger] head[y] by {
            assert(targets[x] < targets[y]);
        }
        if j < a.len() {
            lemma_targets_ascend(m, kind_idx, head, i, j);
            assert(all[i] == a[i] && all[j] == a[j]);
        } else if i < a.len() {
            assert(all[i] == a[i] && all[j] == b[j - a.len()]);
            assert(a.contains(a[i]));
            lemma_target_rows(m, kind_idx, head, a[i]);
            let x = choose|x: int| 0 <= x < head.len() && head[x] == a[i].2;
            assert(targets[x] < targets[targets.len() - 1]);
        } else {
            assert(all[i] == b[i - a.len()] && all[j] == b[j - a.len()]);
        }
    }
}

} // verus!
