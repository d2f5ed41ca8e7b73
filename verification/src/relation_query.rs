//! Queries over the subjects of relations.

use vstd::prelude::*;
use crate::component::Tick;
use crate::entity::{Entity, location_of};
use crate::query::{
    Query, QueryItem, QueryState, is_item, self_alias, takes_archetype, takes_row, whole,
};
use crate::relation_index::{joined, lists_targets};
use crate::relations::{RelationKind, kind_index};
use crate::shape::Shape;
use crate::storage::StoreState;
use crate::world::{World, subjects_of};

verus! {

/// Whether a query takes a live entity.
pub open spec fn takes_entity(q: QueryState, s: StoreState, e: Entity) -> bool {
    match location_of(s.entities, e) {
        Some(loc) => takes_archetype(q, loc.archetype_id.0 as usize) && takes_row(
            q,
            loc.archetype_id.0 as usize,
            loc.row as usize,
        ),
        None => false,
    }
}

/// Place and row of a live entity.
pub open spec fn hit_of(s: StoreState, e: Entity) -> (usize, usize) {
    let loc = location_of(s.entities, e)->0;
    (loc.archetype_id.0 as usize, loc.row as usize)
}

/// The rows of those of the first `n` subjects that a query takes.
pub open spec fn subject_rows(q: QueryState, s: StoreState, subjects: Seq<Entity>, n: nat) -> Seq<
    (usize, usize),
>
    decreases n,
{
    if n == 0 {
        Seq::empty()
    } else {
        let head = subject_rows(q, s, subjects, (n - 1) as nat);
        if takes_entity(q, s, subjects[n - 1]) {
            head.push(hit_of(s, subjects[n - 1]))
        } else {
            head
        }
    }
}

/// Whether one row does not come after another: by archetype, and then by row.
pub open spec fn not_after(a: (usize, usize), b: (usize, usize)) -> bool {
    a.0 < b.0 || (a.0 == b.0 && a.1 <= b.1)
}

/// Whether rows come in order.
pub open spec fn in_order(rows: Seq<(usize, usize)>) -> bool {
    forall|i: int, j: int|
        0 <= i < j < rows.len() ==> not_after(#[trigger] rows[i], #[trigger] rows[j])
}

/// Whether `rows` are those of the subjects that a query takes, one for each, by archetype and row.
pub open spec fn sorted_rows(
    rows: Seq<(usize, usize)>,
    q: QueryState,
    s: StoreState,
    subjects: Seq<Entity>,
) -> bool {
    in_order(rows) && rows.to_multiset() == subject_rows(
        q,
        s,
        subjects,
        subjects.len(),
    ).to_multiset()
}

/// Puts a row behind those that do not come after it.
fn insert_in_order(rows: &mut Vec<(usize, usize)>, row: (usize, usize))
    requires
        in_order(old(rows)@),
    ensures
        in_order(final(rows)@),
        final(rows)@.to_multiset() == old(rows)@.to_multiset().insert(row),
        forall|x: (usize, usize)| #[trigger]
            final(rows)@.contains(x) ==> x == row || old(rows)@.contains(x),
{
    let ghost before = rows@;
    let mut i: usize = rows.len();
    while i > 0 && !(rows[i - 1].0 < row.0 || (rows[i - 1].0 == row.0 && rows[i - 1].1 <= row.1))
        invariant
            i <= rows@.len(),
            rows@ == before,
            forall|k: int| i <= k < rows@.len() ==> !not_after(#[trigger] rows@[k], row),
        decreases i,
    {
        i = i - 1;
    }
    rows.insert(i, row);
    proof {
        vstd::seq_lib::to_multiset_insert(before, i as int, row);
        assert forall|a: int, b: int| 0 <= a < b < rows@.len() implies not_after(
            #[trigger] rows@[a],
            #[trigger] rows@[b],
        ) by {
            let x = if a < i {
                a
            } else {
                a - 1
            };
            let y = if b < i {
                b
            } else {
                b - 1
            };
            if a == i {
                assert(rows@[b] == before[y]);
                assert(!not_after(before[y], row));
            } else if b == i {
                assert(rows@[a] == before[x]);
                if x < i - 1 {
                    assert(not_after(before[x], before[i - 1]));
                }
            } else {
                assert(rows@[a] == before[x] && rows@[b] == before[y]);
                assert(not_after(before[x], before[y]));
            }
        }
        assert forall|x: (usize, usize)| #[trigger] rows@.contains(x) implies x == row
            || before.contains(x) by {
            let k = choose|k: int| 0 <= k < rows@.len() && rows@[k] == x;
            if k < i {
                assert(before[k] == x);
            } else if k > i {
                assert(before[k - 1] == x);
            }
        }
    }
}

/// Walks over subjects of relations, by archetype and row.
pub struct RelationIter<'w> {
    query: Query<'w, 'w>,
    rows: Vec<(usize, usize)>,
    cursor: usize,
}

impl<'w> RelationIter<'w> {
    /// The iterator's invariant.
    pub closed spec fn wf(&self) -> bool {
        &&& self.query.wf()
        &&& self.cursor <= self.rows@.len()
        &&& forall|i: int|
            0 <= i < self.rows@.len() ==> (#[trigger] self.rows@[i]).0 < self.query@.archetypes.len()
                && self.rows@[i].1 < self.query@.archetypes[self.rows@[i].0 as int].entities.len()
    }

    /// State of the query that hands out the items.
    pub closed spec fn state(&self) -> QueryState {
        self.query@
    }

    /// The rows that are still to come.
    pub closed spec fn remaining(&self) -> Seq<(usize, usize)> {
        self.rows@.subrange(self.cursor as int, self.rows@.len() as int)
    }

    /// The next subject.
    pub fn next(&mut self) -> (item: Option<QueryItem<'w>>)
        requires
            old(self).wf(),
        ensures
            final(self).wf(),
            final(self).state() == old(self).state(),
            old(self).remaining().len() == 0 ==> item is None && final(self).remaining().len() == 0,
            old(self).remaining().len() > 0 ==> {
                &&& item is Some
                &&& is_item(old(self).state(), old(self).remaining()[0], item->0)
                &&& final(self).remaining() == old(self).remaining().drop_first()
            },
    {
        if self.cursor >= self.rows.len() {
            return None;
        }
        let (place, row) = self.rows[self.cursor];
        self.cursor = self.cursor + 1;
        assert(self.remaining() =~= old(self).remaining().drop_first());
        Some(self.query.item_at(place, row))
    }
}

impl World {
    /// Walks over those of `subjects` that the shape takes, once for each time that they are
    /// listed.
    fn relation_iter_for_subjects<'w>(&'w self, shape: Shape, subjects: Vec<Entity>) -> (it:
        RelationIter<'w>)
        requires
            self.wf(),
            !self_alias(self@.registry.infos, shape),
        ensures
            it.wf(),
            it.state() == (QueryState {
                places: Seq::<usize>::empty(),
                ..whole(*self, shape, Tick(0))
            }),
            sorted_rows(it.remaining(), it.state(), self.store(), subjects@),
    {
        let query: Query<'w, 'w> = Query::from_sub_world(self, shape, Tick(0), &[], &[]);
        let ghost q = query@;
        let ghost s = self.store();
        proof {
            assert(q.places =~= Seq::<usize>::empty());
            assert(q.ranges =~= Seq::<(usize, usize, usize)>::empty());
            self.lemma_store();
            query.lemma_wf();
        }
        let mut rows: Vec<(usize, usize)> = Vec::new();
        let mut i: usize = 0;
        assert(rows@ =~= subject_rows(q, s, subjects@, 0));
        while i < subjects.len()
            invariant
                i <= subjects@.len(),
                self.wf(),
                s == self.store(),
                query.wf(),
                query@ == q,
                q.archetypes == s.archetypes,
                crate::storage::store_wf(s, self@.registry.infos),
                in_order(rows@),
                rows@.to_multiset() == subject_rows(q, s, subjects@, i as nat).to_multiset(),
                forall|x: (usize, usize)| #[trigger]
                    rows@.contains(x) ==> x.0 < q.archetypes.len() && x.1
                        < q.archetypes[x.0 as int].entities.len(),
            decreases subjects.len() - i,
        {
            if let Some(loc) = self.location(subjects[i]) {
                let place: usize = loc.archetype_id.0 as usize;
                let row: usize = loc.row as usize;
                if query.takes_place(place) && query.takes_row_at(place, row) {
                    proof {
                        vstd::seq_lib::to_multiset_build(
                            subject_rows(q, s, subjects@, i as nat),
                            (place, row),
                        );
                    }
                    insert_in_order(&mut rows, (place, row));
                }
            }
            i = i + 1;
        }
        let it = RelationIter { query, rows, cursor: 0 };
        assert(it.remaining() =~= rows@);
        assert forall|k: int| 0 <= k < rows@.len() implies (#[trigger] rows@[k]).0
            < q.archetypes.len() && rows@[k].1 < q.archetypes[rows@[k].0 as int].entities.len() by {
            assert(rows@.contains(rows@[k]));
        }
        it
    }

    /// Walks over the subjects that point at `target` and that the shape takes, by archetype and
    /// row.
    pub fn query_relation<'w, R: RelationKind>(&'w self, kind: R, target: Entity, shape: Shape)
        -> (it: RelationIter<'w>)
        requires
            self.wf(),
            !self_alias(self@.registry.infos, shape),
        ensures
            it.wf(),
            it.state() == (QueryState {
                places: Seq::<usize>::empty(),
                ..whole(*self, shape, Tick(0))
            }),
            sorted_rows(
                it.remaining(),
                it.state(),
                self.store(),
                subjects_of(self@, R::spec_kind_key(), target),
            ),
    {
        let subjects: Vec<Entity> = self.targets_of(kind, target);
        self.relation_iter_for_subjects(shape, subjects)
    }

    /// Walks over all subjects of a kind of relation that the shape takes, by archetype and row,
    /// once for each relation.
    pub fn query_wildcard<'w, R: RelationKind>(&'w self, kind: R, shape: Shape) -> (it:
        RelationIter<'w>)
        requires
            self.wf(),
            !self_alias(self@.registry.infos, shape),
        ensures
            it.wf(),
            it.state() == (QueryState {
                places: Seq::<usize>::empty(),
                ..whole(*self, shape, Tick(0))
            }),
            match kind_index(self@.relations.kinds, R::spec_kind_key()) {
                Some(kind_idx) => exists|targets: Seq<u32>|
                    #[trigger] lists_targets(
                        self@.relations.siblings,
                        kind_idx,
                        targets,
                    ) && sorted_rows(
                        it.remaining(),
                        it.state(),
                        self.store(),
                        joined(self@.relations.siblings, kind_idx, targets),
                    ),
                None => it.remaining().len() == 0,
            },
    {
        let subjects: Vec<Entity> = self.relation_graph().subjects_of_kind(kind);
        let it = self.relation_iter_for_subjects(shape, subjects);
        proof {
            if kind_index(self@.relations.kinds, R::spec_kind_key()) is None {
                vstd::seq_lib::to_multiset_len(it.remaining());
                vstd::seq_lib::to_multiset_len(
                    subject_rows(it.state(), self.store(), subjects@, 0),
                );
            }
        }
        it
    }
}

/// Whether a subject among the first `n` is the one with this row.
spec fn row_stands_for(q: QueryState, s: StoreState, subjects: Seq<Entity>, n: nat, x: (usize, usize))
    -> bool {
    exists|i: int|
        0 <= i < n && takes_entity(q, s, #[trigger] subjects[i]) && hit_of(s, subjects[i]) == x
}

proof fn lemma_subject_rows(
    q: QueryState,
    s: StoreState,
    subjects: Seq<Entity>,
    n: nat,
    x: (usize, usize),
)
    requires
        n <= subjects.len(),
    ensures
        subject_rows(q, s, subjects, n).contains(x) <==> row_stands_for(q, s, subjects, n, x),
    decreases n,
{
    if n > 0 {
        let m = (n - 1) as nat;
        lemma_subject_rows(q, s, subjects, m, x);
        let head = subject_rows(q, s, subjects, m);
        let all = subject_rows(q, s, subjects, n);
        let e = subjects[n - 1];
        if row_stands_for(q, s, subjects, m, x) {
            let i = choose|i: int|
                0 <= i < m && takes_entity(q, s, #[trigger] subjects[i]) && hit_of(s, subjects[i])
                    == x;
            assert(row_stands_for(q, s, subjects, n, x));
            assert(head.contains(x));
            let k = choose|k: int| 0 <= k < head.len() && head[k] == x;
            if takes_entity(q, s, e) {
                assert(all[k] == x);
            }
        }
        if takes_entity(q, s, e) {
            assert(all == head.push(hit_of(s, e)));
            assert(all[head.len() as int] == hit_of(s, e));
            if all.contains(x) && !head.contains(x) {
                let k = choose|k: int| 0 <= k < all.len() && all[k] == x;
                if k < head.len() {
                    assert(head[k] == x);
                }
                assert(subjects[n - 1] == e);
            }
        }
        if row_stands_for(q, s, subjects, n, x) && !row_stands_for(q, s, subjects, m, x) {
            let i = choose|i: int|
                0 <= i < n && takes_entity(q, s, #[trigger] subjects[i]) && hit_of(s, subjects[i])
                    == x;
            assert(i == n - 1);
        }
    }
}

/// A walk over subjects comes by exactly those rows whose entity is a subject that the shape takes.
pub proof fn law_walk_comes_by_the_subjects_taken(
    rows: Seq<(usize, usize)>,
    q: QueryState,
    s: StoreState,
    subjects: Seq<Entity>,
    x: (usize, usize),
)
    requires
        sorted_rows(rows, q, s, subjects),
    ensures
        rows.contains(x) <==> exists|i: int|
            0 <= i < subjects.len() && takes_entity(q, s, #[trigger] subjects[i]) && hit_of(
                s,
                subjects[i],
            ) == x,
{
    let all = subject_rows(q, s, subjects, subjects.len());
    lemma_subject_rows(q, s, subjects, subjects.len(), x);
    rows.to_multiset_ensures();
    all.to_multiset_ensures();
    assert(rows.contains(x) <==> rows.to_multiset().count(x) > 0);
    assert(all.contains(x) <==> all.to_multiset().count(x) > 0);
}

} // verus!
