//! What despawning leaves: the living keep their relations among each other, and whoever goes with
//! an entity goes, and nobody else.

use vstd::prelude::*;
use crate::entity::{AllocState, Entity, alive, lemma_located_update, located};
use crate::relation_graph::{
    after_detach, cascade_children, consistent, current, law_detach, law_detach_adds_nothing,
    lemma_cleared_members, listable, live_slot, target_cleared,
};
use crate::relation_index::{RelationPair, dropped};
use crate::relation_laws::{law_detach_keeps_consistency, law_drop_keeps_order};
use crate::relations::{distinct_keys, lemma_kind_index};
use crate::subtree::{
    after_recursive, after_recursives, ends_within, law_recursive_despawn_removes,
    lemma_ends_shrunk, lemma_recursives, lemma_shrunk_twice,
};
use crate::world::{WorldState, after_despawns, after_release, subjects_of};
use crate::world_laws::{
    below, finite_relations, formed, goes_with, law_despawn_keeps_relations_consistent,
    law_despawn_removes, law_despawn_takes_only_what_is_below, law_despawn_takes_what_goes_with_it,
    law_empty_slots_have_no_relations, lemma_listable_part, lemma_release, shrunk,
};

verus! {

/// Those of a list that are alive, in order.
pub open spec fn living(list: Seq<Entity>, entities: AllocState) -> Seq<Entity> {
    list.filter(|x: Entity| alive(entities, x))
}

proof fn lemma_living_all(list: Seq<Entity>, entities: AllocState)
    requires
        forall|i: int| 0 <= i < list.len() ==> alive(entities, #[trigger] list[i]),
    ensures
        living(list, entities) == list,
    decreases list.len(),
{
    reveal(Seq::filter);
    if list.len() > 0 {
        let d = list.drop_last();
        assert forall|i: int| 0 <= i < d.len() implies alive(entities, #[trigger] d[i]) by {
            assert(d[i] == list[i]);
        }
        lemma_living_all(d, entities);
        assert(alive(entities, list[list.len() - 1]));
        assert(list =~= d.push(list.last()));
    }
}

proof fn lemma_living_without(list: Seq<Entity>, e: Entity, entities: AllocState)
    requires
        !alive(entities, e),
    ensures
        living(list.filter(|x: Entity| x != e), entities) == living(list, entities),
    decreases list.len(),
{
    reveal(Seq::filter);
    let f = |x: Entity| x != e;
    if list.len() > 0 {
        let d = list.drop_last();
        let last = list.last();
        lemma_living_without(d, e, entities);
        let g = d.filter(f);
        if last != e {
            assert(list.filter(f) == g.push(last));
            assert(g.push(last).drop_last() =~= g);
            assert(g.push(last).last() == last);
        } else {
            assert(list.filter(f) == g);
        }
    }
}

/// What the release of one live entity does to the relations.
proof fn lemma_released(w: WorldState, e: Entity)
    requires
        formed(w),
        finite_relations(w),
        consistent(w.relations, w.entities),
        alive(w.entities, e),
    ensures
        ({
            let m = after_release(w, e);
            &&& formed(m)
            &&& finite_relations(m)
            &&& consistent(m.relations, m.entities)
            &&& shrunk(w, m)
            &&& !live_slot(m.entities, e.index)
            &&& !alive(m.entities, e)
            &&& forall|x: Entity| x != e ==> (#[trigger] alive(m.entities, x) <==> alive(w.entities, x))
            &&& forall|i: u32, p: RelationPair| #[trigger]
                m.relations.pairs[i].contains(p) <==> w.relations.pairs[i].contains(p) && i != e.index
                    && p.target != e
            &&& forall|key: (u32, u32)|
                (#[trigger] m.relations.siblings[key]) == if key.1 == e.index {
                    Seq::<Entity>::empty()
                } else {
                    w.relations.siblings[key].filter(|x: Entity| x != e)
                }
        }),
{
    let m = after_release(w, e);
    let g = w.relations;
    lemma_release(w, e);
    law_detach_adds_nothing(g, e);
    let h = target_cleared(g, e, g.kinds.len());
    assert forall|p: RelationPair| #[trigger] h.pairs[e.index].contains(
        p,
    ) implies g.pairs[e.index].contains(p) by {
        lemma_cleared_members(g, e, g.kinds.len(), e.index, p);
    }
    assert(listable(g.pairs[e.index]));
    lemma_listable_part(g.pairs[e.index], h.pairs[e.index]);
    law_detach(g, w.entities, e);
    let d = after_detach(g, e);
    law_detach_keeps_consistency(g, w.entities, e, d);
    assert(m.relations.pairs == d.pairs && m.relations.siblings == d.siblings);
    assert(m.relations.kinds == d.kinds);
    assert forall|i: u32| listable(#[trigger] m.relations.pairs[i]) by {
        assert(listable(g.pairs[i]));
        assert forall|p: RelationPair| #[trigger] m.relations.pairs[i].contains(
            p,
        ) implies g.pairs[i].contains(p) by {
        }
        lemma_listable_part(g.pairs[i], m.relations.pairs[i]);
    }
    assert forall|i: u32, p: RelationPair| #[trigger]
        m.relations.pairs[i].contains(p) <==> w.relations.pairs[i].contains(p) && i != e.index
            && p.target != e by {
        let all = d.pairs[i];
    }
    assert forall|key: (u32, u32)|
        (#[trigger] m.relations.siblings[key]) == if key.1 == e.index {
            Seq::<Entity>::empty()
        } else {
            w.relations.siblings[key].filter(|x: Entity| x != e)
        } by {
        assert(g.siblings[key].no_duplicates());
        law_drop_keeps_order(g.siblings[key], e);
        assert(d.siblings[key] == if key.1 == e.index {
            Seq::<Entity>::empty()
        } else {
            dropped(g.siblings[key], e)
        });
    }
}

/// A slot that is live in what is left was live before.
proof fn lemma_live_before(w: WorldState, t: WorldState, i: u32)
    requires
        formed(t),
        formed(w),
        shrunk(w, t),
        live_slot(t.entities, i),
    ensures
        live_slot(w.entities, i),
{
    let x = current(t.entities, i);
    assert(alive(t.entities, x));
    assert(alive(w.entities, x));
}

/// The living keep their relations among each other, and their order among their siblings: after a
/// despawn exactly those relations are left whose two entities are.
pub proof fn law_the_living_keep_their_relations(w: WorldState, stack: Seq<Entity>)
    requires
        formed(w),
        finite_relations(w),
        consistent(w.relations, w.entities),
    ensures
        ({
            let t = after_despawns(w, stack);
            &&& forall|i: u32, p: RelationPair| #[trigger]
                t.relations.pairs[i].contains(p) <==> w.relations.pairs[i].contains(p) && live_slot(
                    t.entities,
                    i,
                ) && alive(t.entities, p.target)
            &&& forall|key: (u32, u32)|
                (#[trigger] t.relations.siblings[key]) == if live_slot(t.entities, key.1) {
                    living(w.relations.siblings[key], t.entities)
                } else {
                    Seq::<Entity>::empty()
                }
        }),
    decreases located(w.entities.locations), stack.len(),
{
    let t = after_despawns(w, stack);
    law_despawn_removes(w, stack);
    if stack.len() == 0 {
        assert forall|key: (u32, u32)|
            (#[trigger] t.relations.siblings[key]) == if live_slot(t.entities, key.1) {
                living(w.relations.siblings[key], t.entities)
            } else {
                Seq::<Entity>::empty()
            } by {
            let list = w.relations.siblings[key];
            if live_slot(t.entities, key.1) {
                assert forall|i: int| 0 <= i < list.len() implies alive(
                    w.entities,
                    #[trigger] list[i],
                ) by {
                    assert(list.contains(list[i]));
                }
                lemma_living_all(list, w.entities);
            } else {
                law_empty_slots_have_no_relations(w.relations, w.entities, key.1, key.0);
                assert(list =~= Seq::<Entity>::empty());
            }
        }
    } else {
        let e = stack.last();
        let rest = stack.drop_last();
        if alive(w.entities, e) && e.index < w.entities.locations.len() {
            lemma_located_update(w.entities.locations, e.index as int, None);
            let m = after_release(w, e);
            let more = rest + cascade_children(w.relations, e, w.relations.kinds.len());
            lemma_released(w, e);
            law_the_living_keep_their_relations(m, more);
            law_despawn_removes(m, more);
            assert(t == after_despawns(m, more));
            assert(!alive(t.entities, e));
            assert(!live_slot(t.entities, e.index)) by {
                if live_slot(t.entities, e.index) {
                    lemma_live_before(m, t, e.index);
                }
            }
            assert forall|i: u32, p: RelationPair| #[trigger]
                t.relations.pairs[i].contains(p) <==> w.relations.pairs[i].contains(p) && live_slot(
                    t.entities,
                    i,
                ) && alive(t.entities, p.target) by {
                assert(m.relations.pairs[i].contains(p) <==> w.relations.pairs[i].contains(p) && i
                    != e.index && p.target != e);
            }
            assert forall|key: (u32, u32)|
                (#[trigger] t.relations.siblings[key]) == if live_slot(t.entities, key.1) {
                    living(w.relations.siblings[key], t.entities)
                } else {
                    Seq::<Entity>::empty()
                } by {
                if live_slot(t.entities, key.1) {
                    assert(m.relations.siblings[key] == w.relations.siblings[key].filter(
                        |x: Entity| x != e,
                    ));
                    lemma_living_without(w.relations.siblings[key], e, t.entities);
                }
            }
        } else {
            law_the_living_keep_their_relations(w, rest);
        }
    }
}

/// Whether `y` is led to from `x` by a relation of the kind, or goes with it.
pub open spec fn linked(w: WorldState, k: u32, y: Entity, x: Entity) -> bool {
    w.relations.siblings[(k, x.index)].contains(y) || goes_with(w, y, x)
}

/// Whether steps of the kind, or of kinds that cascade, lead from `e` to `x`.
pub open spec fn led_to(w: WorldState, k: u32, x: Entity, e: Entity, n: nat) -> bool
    decreases n,
{
    if n == 0 {
        x == e
    } else {
        exists|m: Entity| #[trigger] linked(w, k, x, m) && led_to(w, k, m, e, (n - 1) as nat)
    }
}

proof fn lemma_below_is_led_to(w: WorldState, k: u32, x: Entity, e: Entity, n: nat)
    requires
        below(w, x, e, n),
    ensures
        led_to(w, k, x, e, n),
    decreases n,
{
    if n > 0 {
        let m = choose|m: Entity| #[trigger] goes_with(w, x, m) && below(w, m, e, (n - 1) as nat);
        lemma_below_is_led_to(w, k, m, e, (n - 1) as nat);
        assert(linked(w, k, x, m));
    }
}

proof fn lemma_led_shrunk(w: WorldState, t: WorldState, k: u32, x: Entity, e: Entity, n: nat)
    requires
        shrunk(w, t),
        led_to(t, k, x, e, n),
    ensures
        led_to(w, k, x, e, n),
    decreases n,
{
    if n > 0 {
        let m = choose|m: Entity| #[trigger] linked(t, k, x, m) && led_to(
            t,
            k,
            m,
            e,
            (n - 1) as nat,
        );
        lemma_led_shrunk(w, t, k, m, e, (n - 1) as nat);
        if goes_with(t, x, m) {
            let j = choose|j: u32|
                j < t.relations.kinds.len() && t.relations.kinds[j as int].cascade
                    && #[trigger] t.relations.siblings[(j, m.index)].contains(x);
            assert(w.relations.siblings[(j, m.index)].contains(x));
            assert(goes_with(w, x, m));
        }
        assert(linked(w, k, x, m));
    }
}

proof fn lemma_led_further(w: WorldState, k: u32, x: Entity, child: Entity, e: Entity, n: nat)
    requires
        linked(w, k, child, e),
        led_to(w, k, x, child, n),
    ensures
        led_to(w, k, x, e, n + 1),
    decreases n,
{
    if n == 0 {
        assert(led_to(w, k, e, e, 0));
    } else {
        let m = choose|m: Entity| #[trigger] linked(w, k, x, m) && led_to(
            w,
            k,
            m,
            child,
            (n - 1) as nat,
        );
        lemma_led_further(w, k, m, child, e, (n - 1) as nat);
        assert(led_to(w, k, m, e, n));
    }
}

/// Despawning with subjects takes nobody to whom no chain of subjects leads.
pub proof fn law_recursive_despawn_takes_only_the_tree(
    w: WorldState,
    k: u32,
    e: Entity,
    d: nat,
    x: Entity,
)
    requires
        formed(w),
        distinct_keys(w.relations.kinds),
        k < w.relations.kinds.len(),
        ends_within(w, w.relations.kinds[k as int].key, e, d),
        alive(w.entities, x),
        !alive(after_recursive(w, w.relations.kinds[k as int].key, e, d).entities, x),
    ensures
        exists|n: nat| #[trigger] led_to(w, k, x, e, n),
    decreases d, 0nat,
{
    let key = w.relations.kinds[k as int].key;
    lemma_kind_index(w.relations.kinds, k as int);
    let one = seq![e];
    if d == 0 {
        law_despawn_takes_only_what_is_below(w, one, x);
        let (i, n) = choose|i: int, n: nat| 0 <= i < one.len() && #[trigger] below(w, x, one[i], n);
        lemma_below_is_led_to(w, k, x, e, n);
    } else {
        let list = subjects_of(w, key, e);
        assert forall|i: int| 0 <= i < list.len() implies ends_within(
            w,
            key,
            #[trigger] list[i],
            (d - 1) as nat,
        ) by {
            assert(list.contains(list[i]));
        }
        lemma_recursives(w, key, list, list.len(), (d - 1) as nat);
        let m = after_recursives(w, key, list, list.len(), (d - 1) as nat);
        if alive(m.entities, x) {
            law_despawn_takes_only_what_is_below(m, one, x);
            let (i, n) = choose|i: int, n: nat|
                0 <= i < one.len() && #[trigger] below(m, x, one[i], n);
            lemma_below_is_led_to(m, k, x, e, n);
            lemma_led_shrunk(w, m, k, x, e, n);
        } else {
            let (i, n) = lemma_only_trees(w, k, list, list.len(), (d - 1) as nat, x);
            assert(list.contains(list[i]));
            assert(linked(w, k, list[i], e));
            lemma_led_further(w, k, x, list[i], e, n);
        }
    }
}

proof fn lemma_only_trees(
    w: WorldState,
    k: u32,
    list: Seq<Entity>,
    n: nat,
    d: nat,
    x: Entity,
) -> (r: (int, nat))
    requires
        formed(w),
        distinct_keys(w.relations.kinds),
        k < w.relations.kinds.len(),
        n <= list.len(),
        forall|i: int|
            0 <= i < list.len() ==> ends_within(
                w,
                w.relations.kinds[k as int].key,
                #[trigger] list[i],
                d,
            ),
        alive(w.entities, x),
        !alive(after_recursives(w, w.relations.kinds[k as int].key, list, n, d).entities, x),
    ensures
        0 <= r.0 < n,
        led_to(w, k, x, list[r.0], r.1),
    decreases d, n + 1,
{
    let key = w.relations.kinds[k as int].key;
    if n == 0 {
        (0, 0)
    } else {
        let n1 = (n - 1) as nat;
        let m = after_recursives(w, key, list, n1, d);
        lemma_recursives(w, key, list, n1, d);
        if alive(m.entities, x) {
            assert(ends_within(w, key, list[n - 1], d));
            lemma_ends_shrunk(w, m, key, list[n - 1], d);
            law_recursive_despawn_takes_only_the_tree(m, k, list[n - 1], d, x);
            let s = choose|s: nat| #[trigger] led_to(m, k, x, list[n - 1], s);
            lemma_led_shrunk(w, m, k, x, list[n - 1], s);
            (n - 1, s)
        } else {
            lemma_only_trees(w, k, list, n1, d, x)
        }
    }
}

/// Whether with each entity that is gone its subjects of a kind are gone.
pub open spec fn trees_gone(w: WorldState, t: WorldState, k: u32) -> bool {
    forall|x: Entity, y: Entity|
        alive(w.entities, x) && !alive(t.entities, x) && #[trigger] w.relations.siblings[(
            k,
            x.index,
        )].contains(y) ==> !alive(t.entities, y)
}

/// What is kept from state to state on the way.
spec fn on_the_way(w: WorldState, t: WorldState, k: u32) -> bool {
    &&& formed(t)
    &&& finite_relations(t)
    &&& consistent(t.relations, t.entities)
    &&& shrunk(w, t)
    &&& trees_gone(w, t, k)
    &&& forall|x: Entity, y: Entity|
        alive(t.entities, x) && alive(t.entities, y) && #[trigger] w.relations.siblings[(
            k,
            x.index,
        )].contains(y) ==> t.relations.siblings[(k, x.index)].contains(y)
}

proof fn lemma_way_joined(a: WorldState, b: WorldState, c: WorldState, k: u32)
    requires
        on_the_way(a, b, k),
        on_the_way(b, c, k),
    ensures
        on_the_way(a, c, k),
{
    lemma_shrunk_twice(a, b, c);
    assert forall|x: Entity, y: Entity|
        alive(a.entities, x) && !alive(c.entities, x) && #[trigger] a.relations.siblings[(
            k,
            x.index,
        )].contains(y) implies !alive(c.entities, y) by {
        if alive(c.entities, y) {
            assert(alive(b.entities, y));
            if alive(b.entities, x) {
                assert(b.relations.siblings[(k, x.index)].contains(y));
            }
        }
    }
    assert forall|x: Entity, y: Entity|
        alive(c.entities, x) && alive(c.entities, y) && #[trigger] a.relations.siblings[(
            k,
            x.index,
        )].contains(y) implies c.relations.siblings[(k, x.index)].contains(y) by {
        assert(alive(b.entities, x) && alive(b.entities, y));
        assert(b.relations.siblings[(k, x.index)].contains(y));
    }
}

proof fn lemma_in_living(list: Seq<Entity>, entities: AllocState, y: Entity)
    requires
        list.contains(y),
        alive(entities, y),
    ensures
        living(list, entities).contains(y),
    decreases list.len(),
{
    reveal(Seq::filter);
    let d = list.drop_last();
    let i = choose|i: int| 0 <= i < list.len() && list[i] == y;
    let f = living(d, entities);
    if i < d.len() {
        assert(d[i] == y);
        lemma_in_living(d, entities, y);
        let j = choose|j: int| 0 <= j < f.len() && f[j] == y;
        if alive(entities, list.last()) {
            assert(living(list, entities) == f.push(list.last()));
            assert(f.push(list.last())[j] == y);
        }
    } else {
        assert(living(list, entities) == f.push(y));
        assert(f.push(y)[f.len() as int] == y);
    }
}

/// One despawn on the way: of an entity without living subjects of the kind, or where the kind
/// cascades.
proof fn lemma_despawn_on_the_way(w: WorldState, k: u32, e: Entity)
    requires
        formed(w),
        finite_relations(w),
        consistent(w.relations, w.entities),
        k < w.relations.kinds.len(),
        forall|i: int|
            0 <= i < w.relations.kinds.len() && (#[trigger] w.relations.kinds[i]).cascade ==> i == k,
        w.relations.kinds[k as int].cascade || !alive(w.entities, e) || w.relations.siblings[(
            k,
            e.index,
        )].len() == 0,
    ensures
        on_the_way(w, after_despawns(w, seq![e]), k),
{
    let one = seq![e];
    let t = after_despawns(w, one);
    law_despawn_removes(w, one);
    law_despawn_keeps_relations_consistent(w, one);
    law_the_living_keep_their_relations(w, one);
    assert forall|x: Entity, y: Entity|
        alive(w.entities, x) && !alive(t.entities, x) && #[trigger] w.relations.siblings[(
            k,
            x.index,
        )].contains(y) implies !alive(t.entities, y) by {
        if w.relations.kinds[k as int].cascade {
            assert(goes_with(w, y, x));
            law_despawn_takes_what_goes_with_it(w, one, x, y);
        } else {
            law_despawn_takes_only_what_is_below(w, one, x);
            let (i, n) = choose|i: int, n: nat|
                0 <= i < one.len() && #[trigger] below(w, x, one[i], n);
            if n > 0 {
                let m = choose|m: Entity| #[trigger] goes_with(w, x, m) && below(
                    w,
                    m,
                    one[i],
                    (n - 1) as nat,
                );
                let j = choose|j: u32|
                    j < w.relations.kinds.len() && w.relations.kinds[j as int].cascade
                        && #[trigger] w.relations.siblings[(j, m.index)].contains(x);
                assert(w.relations.kinds[j as int].cascade);
            }
            assert(x == e);
        }
    }
    assert forall|x: Entity, y: Entity|
        alive(t.entities, x) && alive(t.entities, y) && #[trigger] w.relations.siblings[(
            k,
            x.index,
        )].contains(y) implies t.relations.siblings[(k, x.index)].contains(y) by {
        assert(live_slot(t.entities, x.index));
        lemma_in_living(w.relations.siblings[(k, x.index)], t.entities, y);
    }
}

/// Despawning with subjects takes the whole tree: with each entity that goes, all its subjects of
/// the kind go, theirs, and so on. For graphs in which no other kind cascades.
pub proof fn law_recursive_despawn_takes_the_whole_tree(w: WorldState, k: u32, e: Entity, d: nat)
    requires
        formed(w),
        finite_relations(w),
        consistent(w.relations, w.entities),
        distinct_keys(w.relations.kinds),
        k < w.relations.kinds.len(),
        forall|i: int|
            0 <= i < w.relations.kinds.len() && (#[trigger] w.relations.kinds[i]).cascade ==> i == k,
        ends_within(w, w.relations.kinds[k as int].key, e, d),
    ensures
        trees_gone(w, after_recursive(w, w.relations.kinds[k as int].key, e, d), k),
        !alive(after_recursive(w, w.relations.kinds[k as int].key, e, d).entities, e),
{
    lemma_tree(w, k, e, d);
    law_recursive_despawn_removes(w, w.relations.kinds[k as int].key, e, d);
}

proof fn lemma_tree(w: WorldState, k: u32, e: Entity, d: nat)
    requires
        formed(w),
        finite_relations(w),
        consistent(w.relations, w.entities),
        distinct_keys(w.relations.kinds),
        k < w.relations.kinds.len(),
        forall|i: int|
            0 <= i < w.relations.kinds.len() && (#[trigger] w.relations.kinds[i]).cascade ==> i == k,
        ends_within(w, w.relations.kinds[k as int].key, e, d),
    ensures
        on_the_way(w, after_recursive(w, w.relations.kinds[k as int].key, e, d), k),
    decreases d, 0nat,
{
    let key = w.relations.kinds[k as int].key;
    lemma_kind_index(w.relations.kinds, k as int);
    if d == 0 {
        lemma_despawn_on_the_way(w, k, e);
    } else {
        let list = subjects_of(w, key, e);
        assert forall|i: int| 0 <= i < list.len() implies ends_within(
            w,
            key,
            #[trigger] list[i],
            (d - 1) as nat,
        ) by {
            assert(list.contains(list[i]));
        }
        lemma_trees(w, k, list, list.len(), (d - 1) as nat);
        lemma_recursives(w, key, list, list.len(), (d - 1) as nat);
        let m = after_recursives(w, key, list, list.len(), (d - 1) as nat);
        if alive(m.entities, e) {
            assert(alive(w.entities, e));
            let left = m.relations.siblings[(k, e.index)];
            if left.len() > 0 {
                let y = left[0];
                assert(left.contains(y));
                assert(list.contains(y));
                let i = choose|i: int| 0 <= i < list.len() && list[i] == y;
                assert(!alive(m.entities, list[i]));
                assert(alive(m.entities, y));
            }
        }
        lemma_despawn_on_the_way(m, k, e);
        lemma_way_joined(w, m, after_recursive(w, key, e, d), k);
    }
}

proof fn lemma_trees(w: WorldState, k: u32, list: Seq<Entity>, n: nat, d: nat)
    requires
        formed(w),
        finite_relations(w),
        consistent(w.relations, w.entities),
        distinct_keys(w.relations.kinds),
        k < w.relations.kinds.len(),
        forall|i: int|
            0 <= i < w.relations.kinds.len() && (#[trigger] w.relations.kinds[i]).cascade ==> i == k,
        n <= list.len(),
        forall|i: int|
            0 <= i < list.len() ==> ends_within(
                w,
                w.relations.kinds[k as int].key,
                #[trigger] list[i],
                d,
            ),
    ensures
        on_the_way(w, after_recursives(w, w.relations.kinds[k as int].key, list, n, d), k),
    decreases d, n + 1,
{
    let key = w.relations.kinds[k as int].key;
    if n > 0 {
        let n1 = (n - 1) as nat;
        lemma_trees(w, k, list, n1, d);
        let m = after_recursives(w, key, list, n1, d);
        assert(ends_within(w, key, list[n - 1], d));
        lemma_ends_shrunk(w, m, key, list[n - 1], d);
        lemma_tree(m, k, list[n - 1], d);
        lemma_way_joined(w, m, after_recursives(w, key, list, n, d), k);
    }
}

/// Entities are despawned from the top of the stack; who goes with one is put on top of those that
/// are left, and the dead are passed over.
pub proof fn law_despawning_goes_from_the_top(w: WorldState, stack: Seq<Entity>, e: Entity)
    requires
        formed(w),
    ensures
        after_despawns(w, Seq::<Entity>::empty()) == w,
        !alive(w.entities, e) ==> after_despawns(w, stack.push(e)) == after_despawns(w, stack),
        alive(w.entities, e) ==> after_despawns(w, stack.push(e)) == after_despawns(
            after_release(w, e),
            stack + cascade_children(w.relations, e, w.relations.kinds.len()),
        ),
{
    assert(stack.push(e).drop_last() =~= stack);
    assert(stack.push(e).last() == e);
}

} // verus!
