//! Despawning along a kind of relation that does not cascade.

use vstd::prelude::*;
use crate::entity::{Entity, alive};
use crate::relations::{RelationKind, kind_index};
use crate::storage::Table;
use crate::world::{World, WorldState, after_despawns, subjects_of, tables_after_despawns};
use crate::world_laws::{formed, law_despawn_removes, shrunk};

verus! {

/// Whether no chain of subjects above `e` has more than `d` steps: relations of the kind do not run
/// in a circle there.
pub open spec fn ends_within(w: WorldState, key: u64, e: Entity, d: nat) -> bool
    decreases d,
{
    if d == 0 {
        subjects_of(w, key, e).len() == 0
    } else {
        forall|x: Entity| #[trigger]
            subjects_of(w, key, e).contains(x) ==> ends_within(w, key, x, (d - 1) as nat)
    }
}

/// The state after `e` was despawned with its subjects, theirs first, at most `d` steps deep.
pub open spec fn after_recursive(w: WorldState, key: u64, e: Entity, d: nat) -> WorldState
    decreases d, 0nat,
{
    if d == 0 {
        after_despawns(w, seq![e])
    } else {
        let list = subjects_of(w, key, e);
        after_despawns(after_recursives(w, key, list, list.len(), (d - 1) as nat), seq![e])
    }
}

/// The state after the first `n` of `list` were despawned with their subjects.
pub open spec fn after_recursives(
    w: WorldState,
    key: u64,
    list: Seq<Entity>,
    n: nat,
    d: nat,
) -> WorldState
    decreases d, n + 1,
{
    if n == 0 {
        w
    } else {
        after_recursive(
            after_recursives(w, key, list, (n - 1) as nat, d),
            key,
            list[n - 1],
            d,
        )
    }
}

/// The layout after `e` was despawned with its subjects.
pub open spec fn tables_after_recursive(
    t: Seq<Table>,
    w: WorldState,
    key: u64,
    e: Entity,
    d: nat,
) -> Seq<Table>
    decreases d, 0nat,
{
    if d == 0 {
        tables_after_despawns(t, w, seq![e])
    } else {
        let list = subjects_of(w, key, e);
        tables_after_despawns(
            tables_after_recursives(t, w, key, list, list.len(), (d - 1) as nat),
            after_recursives(w, key, list, list.len(), (d - 1) as nat),
            seq![e],
        )
    }
}

/// The layout after the first `n` of `list` were despawned with their subjects.
pub open spec fn tables_after_recursives(
    t: Seq<Table>,
    w: WorldState,
    key: u64,
    list: Seq<Entity>,
    n: nat,
    d: nat,
) -> Seq<Table>
    decreases d, n + 1,
{
    if n == 0 {
        t
    } else {
        tables_after_recursive(
            tables_after_recursives(t, w, key, list, (n - 1) as nat, d),
            after_recursives(w, key, list, (n - 1) as nat, d),
            key,
            list[n - 1],
            d,
        )
    }
}

pub(crate) proof fn lemma_subjects_shrunk(w: WorldState, t: WorldState, key: u64, e: Entity, x: Entity)
    requires
        shrunk(w, t),
        subjects_of(t, key, e).contains(x),
    ensures
        subjects_of(w, key, e).contains(x),
{
    let k = kind_index(w.relations.kinds, key)->0;
    assert(t.relations.siblings[(k, e.index)].contains(x));
}

pub(crate) proof fn lemma_ends_shrunk(w: WorldState, t: WorldState, key: u64, e: Entity, d: nat)
    requires
        shrunk(w, t),
        ends_within(w, key, e, d),
    ensures
        ends_within(t, key, e, d),
    decreases d,
{
    if d == 0 {
        if subjects_of(t, key, e).len() > 0 {
            let x = subjects_of(t, key, e)[0];
            assert(subjects_of(t, key, e).contains(x));
            lemma_subjects_shrunk(w, t, key, e, x);
            assert(subjects_of(w, key, e).len() > 0);
        }
    } else {
        assert forall|x: Entity| #[trigger] subjects_of(t, key, e).contains(x) implies ends_within(
            t,
            key,
            x,
            (d - 1) as nat,
        ) by {
            lemma_subjects_shrunk(w, t, key, e, x);
            lemma_ends_shrunk(w, t, key, x, (d - 1) as nat);
        }
    }
}

pub(crate) proof fn lemma_shrunk_twice(a: WorldState, b: WorldState, c: WorldState)
    requires
        shrunk(a, b),
        shrunk(b, c),
    ensures
        shrunk(a, c),
{
    assert forall|e: Entity| alive(c.entities, e) implies #[trigger] c.values.contains_key(e)
        == a.values.contains_key(e) && c.values[e] == a.values[e] by {
        assert(alive(b.entities, e));
        assert(b.values.contains_key(e) == a.values.contains_key(e));
    }
}

/// Despawning with subjects adds nothing and changes nothing that is left, and neither the entity
/// nor any of its subjects is left.
pub proof fn law_recursive_despawn_removes(w: WorldState, key: u64, e: Entity, d: nat)
    requires
        formed(w),
        ends_within(w, key, e, d),
    ensures
        formed(after_recursive(w, key, e, d)),
        shrunk(w, after_recursive(w, key, e, d)),
        !alive(after_recursive(w, key, e, d).entities, e),
        forall|x: Entity| #[trigger]
            subjects_of(w, key, e).contains(x) ==> !alive(
                after_recursive(w, key, e, d).entities,
                x,
            ),
    decreases d, 0nat,
{
    let t = after_recursive(w, key, e, d);
    if d == 0 {
        law_despawn_removes(w, seq![e]);
        assert(seq![e][0] == e);
        assert(subjects_of(w, key, e).len() == 0);
    } else {
        let list = subjects_of(w, key, e);
        assert forall|i: int| 0 <= i < list.len() implies ends_within(
            w,
            key,
            #[trigger] list[i],
            (d - 1) as nat,
        ) by {
            assert(list.contains(list[i]));
        }
        lemma_recursives(w, key, list, list.len(), (d - 1) as nat);
        let m = after_recursives(w, key, list, list.len(), (d - 1) as nat);
        law_despawn_removes(m, seq![e]);
        lemma_shrunk_twice(w, m, t);
        assert(seq![e][0] == e);
        assert forall|x: Entity| #[trigger] list.contains(x) implies !alive(t.entities, x) by {
            let i = choose|i: int| 0 <= i < list.len() && list[i] == x;
            assert(!alive(m.entities, list[i]));
        }
    }
}

pub(crate) proof fn lemma_recursives(w: WorldState, key: u64, list: Seq<Entity>, n: nat, d: nat)
    requires
        formed(w),
        n <= list.len(),
        forall|i: int| 0 <= i < list.len() ==> ends_within(w, key, #[trigger] list[i], d),
    ensures
        formed(after_recursives(w, key, list, n, d)),
        shrunk(w, after_recursives(w, key, list, n, d)),
        forall|i: int|
            0 <= i < n ==> !alive(
                after_recursives(w, key, list, n, d).entities,
                #[trigger] list[i],
            ),
    decreases d, n + 1,
{
    if n > 0 {
        lemma_recursives(w, key, list, (n - 1) as nat, d);
        let m = after_recursives(w, key, list, (n - 1) as nat, d);
        let t = after_recursives(w, key, list, n, d);
        assert(ends_within(w, key, list[n - 1], d));
        lemma_ends_shrunk(w, m, key, list[n - 1], d);
        law_recursive_despawn_removes(m, key, list[n - 1], d);
        lemma_shrunk_twice(w, m, t);
        assert forall|i: int| 0 <= i < n implies !alive(t.entities, #[trigger] list[i]) by {
            if i < n - 1 {
                assert(!alive(m.entities, list[i]));
            }
        }
    }
}

impl World {
    /// Whether no chain of subjects above `e` runs in a circle.
    pub open spec fn ends(&self, key: u64, e: Entity) -> bool {
        exists|d: nat| ends_within(self@, key, e, d)
    }

    /// Despawns an entity with its subjects by a kind of relation, theirs first. A kind that
    /// cascades takes its subjects along by itself.
    pub fn despawn_recursive<R: RelationKind>(&mut self, kind: R, e: Entity)
        requires
            old(self).wf(),
            R::spec_cascade() || old(self).ends(R::spec_kind_key(), e),
        ensures
            final(self).wf(),
            R::spec_cascade() ==> final(self)@ == after_despawns(old(self)@, seq![e])
                && final(self).layout() == tables_after_despawns(
                old(self).layout(),
                old(self)@,
                seq![e],
            ),
            !R::spec_cascade() ==> exists|d: nat|
                #[trigger] ends_within(old(self)@, R::spec_kind_key(), e, d) && final(self)@
                    == after_recursive(old(self)@, R::spec_kind_key(), e, d)
                    && final(self).layout() == tables_after_recursive(
                    old(self).layout(),
                    old(self)@,
                    R::spec_kind_key(),
                    e,
                    d,
                ),
            forall|n: nat| old(self).room(n) ==> #[trigger] final(self).room(n),
    {
        if R::cascade_delete_on_target_despawn() {
            let _done: bool = self.despawn(e);
        } else {
            let ghost d = choose|d: nat| ends_within(self@, R::spec_kind_key(), e, d);
            self.despawn_down(kind, e, Ghost(d));
        }
    }

    fn despawn_down<R: RelationKind>(&mut self, kind: R, e: Entity, Ghost(d): Ghost<nat>)
        requires
            old(self).wf(),
            ends_within(old(self)@, R::spec_kind_key(), e, d),
        ensures
            final(self).wf(),
            final(self)@ == after_recursive(old(self)@, R::spec_kind_key(), e, d),
            final(self).layout() == tables_after_recursive(
                old(self).layout(),
                old(self)@,
                R::spec_kind_key(),
                e,
                d,
            ),
            forall|n: nat| old(self).room(n) ==> #[trigger] final(self).room(n),
        decreases d,
    {
        let ghost key = R::spec_kind_key();
        let ghost w = self@;
        let list: Vec<Entity> = self.targets_of(kind, e);
        proof {
            self.lemma_wf();
        }
        let mut i: usize = 0;
        while i < list.len()
            invariant
                i <= list@.len(),
                key == R::spec_kind_key(),
                self.wf(),
                w == old(self)@,
                formed(w),
                list@ == subjects_of(w, key, e),
                ends_within(w, key, e, d),
                d == 0 ==> self@ == w && self.layout() == old(self).layout(),
                d > 0 ==> self@ == after_recursives(w, key, list@, i as nat, (d - 1) as nat)
                    && self.layout() == tables_after_recursives(
                    old(self).layout(),
                    w,
                    key,
                    list@,
                    i as nat,
                    (d - 1) as nat,
                ),
                forall|n: nat| old(self).room(n) ==> #[trigger] self.room(n),
            decreases list.len() - i,
        {
            let ghost before = *self;
            proof {
                assert(list@.contains(list@[i as int]));
                assert forall|k: int| 0 <= k < list@.len() implies ends_within(
                    w,
                    key,
                    #[trigger] list@[k],
                    (d - 1) as nat,
                ) by {
                    assert(list@.contains(list@[k]));
                }
                lemma_recursives(w, key, list@, i as nat, (d - 1) as nat);
                lemma_ends_shrunk(w, self@, key, list@[i as int], (d - 1) as nat);
            }
            self.despawn_down(kind, list[i], Ghost((d - 1) as nat));
            i = i + 1;
            proof {
                assert forall|n: nat| old(self).room(n) implies #[trigger] self.room(n) by {
                    assert(before.room(n));
                }
            }
        }
        let ghost before = *self;
        let _done: bool = self.despawn(e);
        proof {
            assert forall|n: nat| old(self).room(n) implies #[trigger] self.room(n) by {
                assert(before.room(n));
            }
        }
    }
}

} // verus!
