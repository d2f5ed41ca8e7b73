//! What holds of every world.

use vstd::prelude::*;
use crate::component::{Tick, newer};
use crate::entity::{AllocState, Entity, alive, is_current, lemma_located_update, located};
use crate::pairs::{ascending, precedes};
use crate::relation_graph::{
    GraphState, after_detach, cascade_children, consistent, current, law_detach,
    law_detach_adds_nothing,
    lemma_after_detach, lemma_cleared_members, lemma_drop_last_lists, listable, live_slot, target_cleared,
};
use crate::relation_index::{RelationPair, lists};
use crate::relation_laws::law_detach_keeps_consistency;
use crate::world::{WorldState, after_despawns, after_release, after_write};

verus! {

/// Whether relations and slots have the form that those of every world have.
pub open spec fn formed(w: WorldState) -> bool {
    &&& w.relations.kinds.len() <= u32::MAX
    &&& w.relations.pairs.dom() == Set::<u32>::full()
    &&& w.relations.siblings.dom() == Set::<(u32, u32)>::full()
    &&& w.entities.generations.len() == w.entities.locations.len()
}

/// Whether `t` is `w` with some entities gone: no entity, no relation and no value is new, and what
/// is left is as it was.
pub open spec fn shrunk(w: WorldState, t: WorldState) -> bool {
    &&& t.relations.kinds == w.relations.kinds
    &&& forall|e: Entity| #[trigger] alive(t.entities, e) ==> alive(w.entities, e)
    &&& forall|e: Entity|
        alive(t.entities, e) ==> #[trigger] t.values.contains_key(e) == w.values.contains_key(e)
            && t.values[e] == w.values[e]
    &&& forall|key: (u32, u32), x: Entity| #[trigger]
        t.relations.siblings[key].contains(x) ==> w.relations.siblings[key].contains(x)
    &&& forall|i: u32, p: RelationPair| #[trigger]
        t.relations.pairs[i].contains(p) ==> w.relations.pairs[i].contains(p)
    &&& t.registry == w.registry
    &&& t.tick == w.tick
    &&& t.anomalies == w.anomalies
    &&& t.events == w.events
    &&& t.resources == w.resources
}

pub(crate) proof fn lemma_release(w: WorldState, e: Entity)
    requires
        formed(w),
        alive(w.entities, e),
    ensures
        formed(after_release(w, e)),
        shrunk(w, after_release(w, e)),
        !alive(after_release(w, e).entities, e),
        forall|x: Entity|
            x != e ==> (#[trigger] alive(after_release(w, e).entities, x) <==> alive(w.entities, x)),
        forall|key: (u32, u32), x: Entity| #[trigger]
            w.relations.siblings[key].contains(x) && x != e && key.1 != e.index ==> after_release(
                w,
                e,
            ).relations.siblings[key].contains(x),
{
    law_detach_adds_nothing(w.relations, e);
    lemma_after_detach(w.relations, e);
    let t = after_release(w, e);
    let a = w.entities;
    let b = t.entities;
    assert(b.locations == a.locations.update(e.index as int, None));
    assert forall|x: Entity| x != e implies (#[trigger] alive(b, x) <==> alive(a, x)) by {
        if x.index == e.index {
            assert(!is_current(a, x));
            assert(b.locations[x.index as int] is None);
        }
    }
}

/// Despawning adds nothing and changes nothing that is left, and no entity that it was asked to
/// despawn is left.
pub proof fn law_despawn_removes(w: WorldState, stack: Seq<Entity>)
    requires
        formed(w),
    ensures
        formed(after_despawns(w, stack)),
        shrunk(w, after_despawns(w, stack)),
        forall|i: int|
            0 <= i < stack.len() ==> !alive(after_despawns(w, stack).entities, #[trigger] stack[i]),
    decreases located(w.entities.locations), stack.len(),
{
    if stack.len() > 0 {
        let e = stack.last();
        let rest = stack.drop_last();
        let t = after_despawns(w, stack);
        if alive(w.entities, e) && e.index < w.entities.locations.len() {
            lemma_located_update(w.entities.locations, e.index as int, None);
            let m = after_release(w, e);
            let more = rest + cascade_children(w.relations, e, w.relations.kinds.len());
            lemma_release(w, e);
            law_despawn_removes(m, more);
            assert forall|i: int| 0 <= i < stack.len() implies !alive(
                t.entities,
                #[trigger] stack[i],
            ) by {
                if i < rest.len() {
                    assert(more[i] == stack[i]);
                }
            }
        } else {
            law_despawn_removes(w, rest);
            assert forall|i: int| 0 <= i < stack.len() implies !alive(
                t.entities,
                #[trigger] stack[i],
            ) by {
                if i < rest.len() {
                    assert(rest[i] == stack[i]);
                } else {
                    assert(stack[i] == e);
                }
            }
        }
    }
}

/// Whether `x` goes with `e`: it is a subject of a relation to `e` whose kind cascades.
pub open spec fn goes_with(w: WorldState, x: Entity, e: Entity) -> bool {
    exists|k: u32|
        k < w.relations.kinds.len() && w.relations.kinds[k as int].cascade
            && #[trigger] w.relations.siblings[(k, e.index)].contains(x)
}

pub(crate) proof fn lemma_cascade_children(s: GraphState, e: Entity, n: nat, x: Entity)
    requires
        n <= s.kinds.len() <= u32::MAX,
    ensures
        cascade_children(s, e, n).contains(x) <==> exists|k: u32|
            k < n && s.kinds[k as int].cascade && #[trigger] s.siblings[(k, e.index)].contains(x),
    decreases n,
{
    if n > 0 {
        lemma_cascade_children(s, e, (n - 1) as nat, x);
        let head = cascade_children(s, e, (n - 1) as nat);
        let all = cascade_children(s, e, n);
        let k = (n - 1) as u32;
        let list = s.siblings[(k, e.index)];
        if s.kinds[n - 1].cascade {
            assert(all == head + list);
            if all.contains(x) {
                let i = choose|i: int| 0 <= i < all.len() && all[i] == x;
                if i < head.len() {
                    assert(head[i] == x);
                } else {
                    assert(list[i - head.len()] == x);
                    assert(s.siblings[(k, e.index)].contains(x));
                }
            }
            if head.contains(x) {
                let i = choose|i: int| 0 <= i < head.len() && head[i] == x;
                assert(all[i] == x);
            }
            if list.contains(x) {
                let i = choose|i: int| 0 <= i < list.len() && list[i] == x;
                assert(all[head.len() + i] == x);
            }
        }
    }
}

/// Whether `x` is below `e`: it goes with it, or with one that goes with it, and so on, in `n`
/// steps.
pub open spec fn below(w: WorldState, x: Entity, e: Entity, n: nat) -> bool
    decreases n,
{
    if n == 0 {
        x == e
    } else {
        exists|m: Entity| #[trigger] goes_with(w, x, m) && below(w, m, e, (n - 1) as nat)
    }
}

proof fn lemma_below_shrunk(w: WorldState, t: WorldState, x: Entity, e: Entity, n: nat)
    requires
        shrunk(w, t),
        below(t, x, e, n),
    ensures
        below(w, x, e, n),
    decreases n,
{
    if n > 0 {
        let m = choose|m: Entity| #[trigger] goes_with(t, x, m) && below(t, m, e, (n - 1) as nat);
        lemma_below_shrunk(w, t, m, e, (n - 1) as nat);
        let k = choose|k: u32|
            k < t.relations.kinds.len() && t.relations.kinds[k as int].cascade
                && #[trigger] t.relations.siblings[(k, m.index)].contains(x);
        assert(w.relations.siblings[(k, m.index)].contains(x));
        assert(goes_with(w, x, m));
    }
}

/// `x` is below a child of `e`, so it is below `e`.
proof fn lemma_below_child(w: WorldState, x: Entity, child: Entity, e: Entity, n: nat)
    requires
        goes_with(w, child, e),
        below(w, x, child, n),
    ensures
        below(w, x, e, n + 1),
    decreases n,
{
    if n == 0 {
        assert(below(w, e, e, 0));
    } else {
        let m = choose|m: Entity|
            #[trigger] goes_with(w, x, m) && below(w, m, child, (n - 1) as nat);
        lemma_below_child(w, m, child, e, (n - 1) as nat);
        assert(below(w, m, e, n));
    }
}

/// Whether `x` is below one of `stack`.
pub open spec fn below_one(w: WorldState, x: Entity, stack: Seq<Entity>) -> bool {
    exists|i: int, n: nat| 0 <= i < stack.len() && #[trigger] below(w, x, stack[i], n)
}

/// Despawning takes no entity but those it was asked to despawn and those below them.
pub proof fn law_despawn_takes_only_what_is_below(w: WorldState, stack: Seq<Entity>, x: Entity)
    requires
        formed(w),
        alive(w.entities, x),
        !alive(after_despawns(w, stack).entities, x),
    ensures
        below_one(w, x, stack),
    decreases located(w.entities.locations), stack.len(),
{
    if stack.len() > 0 {
        let e = stack.last();
        let rest = stack.drop_last();
        if alive(w.entities, e) && e.index < w.entities.locations.len() {
            lemma_located_update(w.entities.locations, e.index as int, None);
            let m = after_release(w, e);
            let kids = cascade_children(w.relations, e, w.relations.kinds.len());
            let more = rest + kids;
            lemma_release(w, e);
            if x == e {
                assert(stack[stack.len() - 1] == e);
                assert(below(w, x, stack[stack.len() - 1], 0));
            } else {
                law_despawn_takes_only_what_is_below(m, more, x);
                let (i, n) = choose|i: int, n: nat|
                    0 <= i < more.len() && #[trigger] below(m, x, more[i], n);
                lemma_below_shrunk(w, m, x, more[i], n);
                if i < rest.len() {
                    assert(more[i] == stack[i]);
                    assert(below(w, x, stack[i], n));
                } else {
                    let child = more[i];
                    assert(kids[i - rest.len()] == child);
                    assert(kids.contains(child));
                    lemma_cascade_children(w.relations, e, w.relations.kinds.len(), child);
                    assert(goes_with(w, child, e));
                    lemma_below_child(w, x, child, e, n);
                    assert(stack[stack.len() - 1] == e);
                    assert(below(w, x, stack[stack.len() - 1], n + 1));
                }
            }
        } else {
            law_despawn_takes_only_what_is_below(w, rest, x);
            let (i, n) = choose|i: int, n: nat|
                0 <= i < rest.len() && #[trigger] below(w, x, rest[i], n);
            assert(rest[i] == stack[i]);
            assert(below(w, x, stack[i], n));
        }
    }
}

/// What goes with a despawned entity is despawned too.
pub proof fn law_despawn_takes_what_goes_with_it(
    w: WorldState,
    stack: Seq<Entity>,
    e: Entity,
    x: Entity,
)
    requires
        formed(w),
        alive(w.entities, e),
        !alive(after_despawns(w, stack).entities, e),
        goes_with(w, x, e),
    ensures
        !alive(after_despawns(w, stack).entities, x),
    decreases located(w.entities.locations), stack.len(),
{
    if stack.len() > 0 {
        let y = stack.last();
        let rest = stack.drop_last();
        if alive(w.entities, y) && y.index < w.entities.locations.len() {
            lemma_located_update(w.entities.locations, y.index as int, None);
            let m = after_release(w, y);
            let kids = cascade_children(w.relations, y, w.relations.kinds.len());
            let more = rest + kids;
            lemma_release(w, y);
            law_despawn_removes(m, more);
            if y == e {
                lemma_cascade_children(w.relations, e, w.relations.kinds.len(), x);
                assert(kids.contains(x));
                let i = choose|i: int| 0 <= i < kids.len() && kids[i] == x;
                assert(more[rest.len() + i] == x);
            } else if x == y {
                assert(!alive(m.entities, y));
            } else {
                let k = choose|k: u32|
                    k < w.relations.kinds.len() && w.relations.kinds[k as int].cascade
                        && #[trigger] w.relations.siblings[(k, e.index)].contains(x);
                assert(y.index != e.index) by {
                    if y.index == e.index {
                        assert(is_current(w.entities, y) && is_current(w.entities, e));
                        assert(y == e);
                    }
                }
                assert(m.relations.siblings[(k, e.index)].contains(x));
                assert(goes_with(m, x, e));
                law_despawn_takes_what_goes_with_it(m, more, e, x);
            }
        } else {
            law_despawn_takes_what_goes_with_it(w, rest, e, x);
        }
    }
}

/// Whether every set of relations is finite, as those of every world are.
pub open spec fn finite_relations(w: WorldState) -> bool {
    forall|i: u32| listable(#[trigger] w.relations.pairs[i])
}

/// The items of `list` that are in `sub`.
spec fn picked(list: Seq<RelationPair>, sub: Set<RelationPair>) -> Seq<RelationPair>
    decreases list.len(),
{
    if list.len() == 0 {
        Seq::empty()
    } else {
        let head = picked(list.drop_last(), sub);
        if sub.contains(list.last()) {
            head.push(list.last())
        } else {
            head
        }
    }
}

proof fn lemma_picked(list: Seq<RelationPair>, set: Set<RelationPair>, sub: Set<RelationPair>)
    requires
        lists(list, set),
    ensures
        ascending(picked(list, sub).map_values(|p: RelationPair| p.spec_sort_key())),
        forall|p: RelationPair| #[trigger]
            picked(list, sub).contains(p) <==> list.contains(p) && sub.contains(p),
    decreases list.len(),
{
    if list.len() > 0 {
        let d = list.drop_last();
        let x = list.last();
        lemma_drop_last_lists(list, set);
        lemma_picked(d, set.remove(x), sub);
        let head = picked(d, sub);
        let all = picked(list, sub);
        let keys = list.map_values(|p: RelationPair| p.spec_sort_key());
        let kh = head.map_values(|p: RelationPair| p.spec_sort_key());
        let ka = all.map_values(|p: RelationPair| p.spec_sort_key());
        assert(list[list.len() - 1] == x);
        assert forall|p: RelationPair| #[trigger] all.contains(p) <==> list.contains(p)
            && sub.contains(p) by {
            if all.contains(p) {
                let i = choose|i: int| 0 <= i < all.len() && all[i] == p;
                if i < head.len() {
                    assert(head[i] == p);
                    assert(head.contains(p));
                    assert(d.contains(p));
                    let j = choose|j: int| 0 <= j < d.len() && d[j] == p;
                    assert(list[j] == p);
                } else {
                    assert(list[list.len() - 1] == p);
                }
            }
            if list.contains(p) && sub.contains(p) {
                let j = choose|j: int| 0 <= j < list.len() && list[j] == p;
                if j < d.len() {
                    assert(d[j] == p);
                    assert(d.contains(p));
                    assert(head.contains(p));
                    let i = choose|i: int| 0 <= i < head.len() && head[i] == p;
                    assert(all[i] == p);
                } else {
                    assert(all[head.len() as int] == p);
                }
            }
        }
        assert forall|i: int, j: int| 0 <= i < j < ka.len() implies precedes(
            #[trigger] ka[i],
            #[trigger] ka[j],
        ) by {
            if j < head.len() {
                assert(precedes(kh[i], kh[j]));
            } else {
                assert(head.contains(head[i]));
                assert(d.contains(head[i]));
                let k = choose|k: int| 0 <= k < d.len() && d[k] == head[i];
                assert(precedes(keys[k], keys[list.len() - 1]));
            }
        }
    }
}

/// Part of a finite set of relations is finite.
pub(crate) proof fn lemma_listable_part(set: Set<RelationPair>, sub: Set<RelationPair>)
    requires
        listable(set),
        forall|p: RelationPair| #[trigger] sub.contains(p) ==> set.contains(p),
    ensures
        listable(sub),
{
    let list = choose|list: Seq<RelationPair>| lists(list, set);
    lemma_picked(list, set, sub);
    let out = picked(list, sub);
    assert forall|p: RelationPair| #[trigger] out.contains(p) <==> sub.contains(p) by {
        if sub.contains(p) {
            assert(set.contains(p));
            assert(list.contains(p));
        }
    }
    assert(lists(out, sub));
}

/// Despawning keeps what subjects and targets know of relations in agreement: no relation of a
/// despawned entity is left on either side.
pub proof fn law_despawn_keeps_relations_consistent(w: WorldState, stack: Seq<Entity>)
    requires
        formed(w),
        finite_relations(w),
        consistent(w.relations, w.entities),
    ensures
        finite_relations(after_despawns(w, stack)),
        consistent(after_despawns(w, stack).relations, after_despawns(w, stack).entities),
    decreases located(w.entities.locations), stack.len(),
{
    if stack.len() > 0 {
        let e = stack.last();
        let rest = stack.drop_last();
        if alive(w.entities, e) && e.index < w.entities.locations.len() {
            lemma_located_update(w.entities.locations, e.index as int, None);
            let m = after_release(w, e);
            let more = rest + cascade_children(w.relations, e, w.relations.kinds.len());
            lemma_release(w, e);
            law_detach_adds_nothing(w.relations, e);
            let g = w.relations;
            let h = target_cleared(g, e, g.kinds.len());
            assert forall|p: RelationPair| #[trigger] h.pairs[e.index].contains(
                p,
            ) implies g.pairs[e.index].contains(p) by {
                lemma_cleared_members(g, e, g.kinds.len(), e.index, p);
            }
            assert(listable(g.pairs[e.index]));
            lemma_listable_part(g.pairs[e.index], h.pairs[e.index]);
            law_detach(g, w.entities, e);
            let d = after_detach(g, e);
            law_detach_keeps_consistency(g, w.entities, e, d);
            assert(m.relations.pairs == d.pairs && m.relations.siblings == d.siblings);
            assert forall|i: u32| listable(#[trigger] m.relations.pairs[i]) by {
                assert(listable(g.pairs[i]));
                assert forall|p: RelationPair| #[trigger] m.relations.pairs[i].contains(
                    p,
                ) implies g.pairs[i].contains(p) by {
                }
                lemma_listable_part(g.pairs[i], m.relations.pairs[i]);
            }
            law_despawn_keeps_relations_consistent(m, more);
        } else {
            law_despawn_keeps_relations_consistent(w, rest);
        }
    }
}

/// A write counts as a change exactly for those who ran before it, and it does not count as an
/// addition.
pub proof fn law_writes_are_changes(
    w: WorldState,
    e: Entity,
    id: u32,
    value: Seq<u8>,
    last_run: Tick,
)
    ensures
        newer(after_write(w, e, id, value, w.tick).values[e][id].changed, last_run) == newer(
            w.tick,
            last_run,
        ),
        after_write(w, e, id, value, w.tick).values[e][id].added == w.values[e][id].added,
        after_write(w, e, id, value, w.tick).values[e][id].value == value,
        forall|x: Entity|
            x != e ==> #[trigger] after_write(w, e, id, value, w.tick).values[x] == w.values[x],
{
}

/// A slot without a live entity takes part in no relation, so who gets the slot next inherits none.
pub proof fn law_empty_slots_have_no_relations(s: GraphState, entities: AllocState, i: u32, kind: u32)
    requires
        consistent(s, entities),
        !live_slot(entities, i),
    ensures
        s.pairs[i] == Set::<RelationPair>::empty(),
        s.siblings[(kind, i)].len() == 0,
{
    assert forall|p: RelationPair| !#[trigger] s.pairs[i].contains(p) by {
    }
    assert(s.pairs[i] =~= Set::<RelationPair>::empty());
    let list = s.siblings[(kind, i)];
    if list.len() > 0 {
        let e = list[0];
        assert(list.contains(e));
        let p = RelationPair { kind_idx: kind, target: current(entities, i) };
        assert(s.pairs[e.index].contains(p));
        assert(alive(entities, p.target));
    }
}

} // verus!
