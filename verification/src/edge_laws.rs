//! What each operation on the relation graph does to the relations: what comes, what goes, and that
//! all else stays.

use vstd::prelude::*;
use crate::entity::{
    AllocState, Entity, EntityLocation, after_allocate, after_draw, after_flush, after_set_location,
    alive, is_current, state_wf,
};
use crate::relation_graph::{
    GraphState, Refusal, after_add, after_detach, cascade_children, consistent, current,
    edge_removed, is_ancestor, is_path, leads, listable, live_slot, law_detach, refusal_of, related,
    sibling_moved, steps_to, target_cleared, walk_blocks,
};
use crate::relation_index::{RelationPair, dropped, first_pair, has_pair_of_kind};
use crate::relation_laws::{
    law_add_keeps_consistency, law_drop_keeps_order, law_edge_removed_keeps_consistency,
    law_exclusive_kinds_have_one_target, law_first_pair, law_move_keeps_consistency, lemma_place_of,
    one_target,
};
use crate::relations::{
    ChildOf, HookEvent, KindInfo, RelationKind, Likes, Owns, distinct_keys, index_with_kind, kind_index,
    lemma_kind_index, with_kind,
};
use crate::world::{WorldState, subjects_of, target_in};

verus! {

/// What the operations of a world keep of its relations: the indexes are total and agree with each
/// other and with the live entities, and exclusive kinds have one target.
pub open spec fn graph_ok(s: GraphState, entities: AllocState) -> bool {
    &&& consistent(s, entities)
    &&& one_target(s)
    &&& s.kinds.len() <= u32::MAX
    &&& distinct_keys(s.kinds)
    &&& s.pairs.dom() == Set::<u32>::full()
    &&& s.siblings.dom() == Set::<(u32, u32)>::full()
}

/// An entity that is not among its siblings leaves them as they are.
proof fn lemma_filter_all(s: Seq<Entity>, e: Entity)
    requires
        !s.contains(e),
    ensures
        s.filter(|x: Entity| x != e) == s,
    decreases s.len(),
{
    reveal(Seq::filter);
    if s.len() > 0 {
        let d = s.drop_last();
        assert forall|x: Entity| d.contains(x) implies s.contains(x) by {
            let i = choose|i: int| 0 <= i < d.len() && d[i] == x;
            assert(s[i] == x);
        }
        lemma_filter_all(d, e);
        assert(s.contains(s.last()));
        assert(s =~= d.push(s.last()));
    }
}

/// Removing a relation takes that relation and no other. The subject leaves the list of its
/// target, where the others keep their order; all other lists stay.
pub proof fn law_removing_takes_one_relation(
    s: GraphState,
    entities: AllocState,
    subject: Entity,
    pair: RelationPair,
)
    requires
        graph_ok(s, entities),
        alive(entities, subject),
    ensures
        ({
            let t = edge_removed(s, subject, pair);
            let there = s.pairs[subject.index].contains(pair);
            &&& t.kinds == s.kinds
            &&& forall|i: u32, p: RelationPair| #[trigger]
                t.pairs[i].contains(p) <==> s.pairs[i].contains(p) && !(i == subject.index && p
                    == pair)
            &&& forall|key: (u32, u32)|
                (#[trigger] t.siblings[key]) == if there && key == (
                    pair.kind_idx,
                    pair.target.index,
                ) {
                    s.siblings[key].filter(|x: Entity| x != subject)
                } else {
                    s.siblings[key]
                }
            &&& t.hooks == if there && s.kinds[pair.kind_idx as int].on_remove is Some {
                s.hooks.push(
                    HookEvent::RelationRemoved {
                        kind_idx: pair.kind_idx,
                        subject,
                        target: pair.target,
                    },
                )
            } else {
                s.hooks
            }
        }),
{
    let key = (pair.kind_idx, pair.target.index);
    if s.pairs[subject.index].contains(pair) {
        assert(s.siblings[key].no_duplicates());
        law_drop_keeps_order(s.siblings[key], subject);
    }
}

/// Adding a relation that is not turned down brings that relation and no other. Where the kind is
/// exclusive, the target that the subject had goes; nothing else does.
pub proof fn law_adding_brings_one_relation(
    s: GraphState,
    entities: AllocState,
    subject: Entity,
    kind_idx: u32,
    target: Entity,
    position: Option<usize>,
)
    requires
        graph_ok(s, entities),
        kind_idx < s.kinds.len(),
        refusal_of(s, entities, subject, kind_idx, target) is None,
    ensures
        ({
            let t = after_add(s, entities, subject, kind_idx, target, position);
            &&& t.kinds == s.kinds
            &&& forall|i: u32, p: RelationPair| #[trigger]
                t.pairs[i].contains(p) <==> {
                    ||| i == subject.index && p.kind_idx == kind_idx && p.target == target
                    ||| s.pairs[i].contains(p) && !(i == subject.index && p.kind_idx == kind_idx
                        && s.kinds[kind_idx as int].exclusive)
                }
        }),
{
    let pair = RelationPair { kind_idx, target };
    let t = after_add(s, entities, subject, kind_idx, target, position);
    let set = s.pairs[subject.index];
    law_first_pair(set, kind_idx);
    assert forall|i: u32, p: RelationPair| #[trigger] t.pairs[i].contains(p) <==> {
        ||| i == subject.index && p.kind_idx == kind_idx && p.target == target
        ||| s.pairs[i].contains(p) && !(i == subject.index && p.kind_idx == kind_idx
            && s.kinds[kind_idx as int].exclusive)
    } by {
        if i == subject.index && p.kind_idx == kind_idx && s.kinds[kind_idx as int].exclusive {
            if set.contains(p) {
                assert(has_pair_of_kind(set, kind_idx));
                let old = first_pair(set, kind_idx)->0;
                assert(set.contains(old) && old.kind_idx == kind_idx);
                assert(s.pairs[i].contains(p) && s.pairs[i].contains(old));
                assert(p == old);
                if old.target == target {
                    assert(p == pair);
                }
            } else if p == pair {
                if let Some(old) = first_pair(set, kind_idx) {
                    if old.target == target {
                        assert(old == pair);
                    }
                }
            }
        }
    }
}

/// A relation that is added puts its subject among the subjects of its target: at the end, or at
/// the place that was asked for, the others in their order. Where the kind is exclusive, the
/// subject leaves every other list of the kind. A subject that was there already stays where it is,
/// and all other lists stay.
pub proof fn law_adding_orders_siblings(
    s: GraphState,
    entities: AllocState,
    subject: Entity,
    kind_idx: u32,
    target: Entity,
    position: Option<usize>,
    key: (u32, u32),
)
    requires
        graph_ok(s, entities),
        kind_idx < s.kinds.len(),
        refusal_of(s, entities, subject, kind_idx, target) is None,
    ensures
        ({
            let t = after_add(s, entities, subject, kind_idx, target, position);
            let list = s.siblings[key];
            if key == (kind_idx, target.index) {
                if list.contains(subject) {
                    t.siblings[key] == list
                } else {
                    t.siblings[key] == list.insert(
                        match position {
                            Some(i) if i < list.len() => i as int,
                            _ => list.len() as int,
                        },
                        subject,
                    )
                }
            } else if key.0 == kind_idx && s.kinds[kind_idx as int].exclusive {
                t.siblings[key] == list.filter(|x: Entity| x != subject)
            } else {
                t.siblings[key] == list
            }
        }),
{
    let pair = RelationPair { kind_idx, target };
    let t = after_add(s, entities, subject, kind_idx, target, position);
    let set = s.pairs[subject.index];
    let here = (kind_idx, target.index);
    let list = s.siblings[key];
    law_first_pair(set, kind_idx);
    assert(current(entities, target.index) == target);
    assert(current(entities, subject.index) == subject);
    assert(s.siblings[here].contains(subject) <==> set.contains(pair));
    assert(s.siblings[here].push(subject) =~= s.siblings[here].insert(
        s.siblings[here].len() as int,
        subject,
    ));
    if s.kinds[kind_idx as int].exclusive {
        if let Some(old) = first_pair(set, kind_idx) {
            let there = (kind_idx, old.target.index);
            assert(set.contains(old));
            assert(current(entities, old.target.index) == old.target);
            assert(s.siblings[there].no_duplicates());
            law_drop_keeps_order(s.siblings[there], subject);
            if old.target != target {
                assert(there != here);
                assert(!set.contains(pair)) by {
                    if set.contains(pair) {
                        assert(s.pairs[subject.index].contains(pair)
                            && s.pairs[subject.index].contains(old));
                    }
                }
            }
        }
        if key.0 == kind_idx && key != here && list.contains(subject) {
            let p = RelationPair { kind_idx, target: current(entities, key.1) };
            assert(set.contains(p));
            let old = first_pair(set, kind_idx)->0;
            assert(s.pairs[subject.index].contains(p) && s.pairs[subject.index].contains(old));
            assert(p == old);
        }
    }
    if !list.contains(subject) {
        lemma_filter_all(list, subject);
    }
}

/// Adding a relation tells those who asked: first of the target that goes, then of the one that
/// comes.
pub proof fn law_adding_tells_who_asked(
    s: GraphState,
    entities: AllocState,
    subject: Entity,
    kind_idx: u32,
    target: Entity,
    position: Option<usize>,
)
    requires
        graph_ok(s, entities),
        kind_idx < s.kinds.len(),
        refusal_of(s, entities, subject, kind_idx, target) is None,
        !s.pairs[subject.index].contains(RelationPair { kind_idx, target }),
    ensures
        ({
            let t = after_add(s, entities, subject, kind_idx, target, position);
            let k = s.kinds[kind_idx as int];
            let added = if k.on_add is Some {
                seq![HookEvent::RelationAdded { kind_idx, subject, target }]
            } else {
                Seq::empty()
            };
            &&& (!k.exclusive || forall|p: RelationPair| #[trigger]
                s.pairs[subject.index].contains(p) ==> p.kind_idx != kind_idx) ==> t.hooks
                == s.hooks + added
            &&& forall|old: Entity|
                k.exclusive && #[trigger] s.pairs[subject.index].contains(
                    RelationPair { kind_idx, target: old },
                ) ==> t.hooks == s.hooks + (if k.on_remove is Some {
                    seq![HookEvent::RelationRemoved { kind_idx, subject, target: old }]
                } else {
                    Seq::empty()
                }) + added
        }),
{
    let t = after_add(s, entities, subject, kind_idx, target, position);
    let set = s.pairs[subject.index];
    let k = s.kinds[kind_idx as int];
    law_first_pair(set, kind_idx);
    let none = Seq::<HookEvent>::empty();
    let added = if k.on_add is Some {
        seq![HookEvent::RelationAdded { kind_idx, subject, target }]
    } else {
        none
    };
    if !k.exclusive || forall|p: RelationPair| #[trigger]
        s.pairs[subject.index].contains(p) ==> p.kind_idx != kind_idx {
        assert(first_pair(set, kind_idx) is None || !k.exclusive);
        assert(t.hooks =~= s.hooks + added);
    }
    assert forall|old: Entity|
        k.exclusive && #[trigger] s.pairs[subject.index].contains(
            RelationPair { kind_idx, target: old },
        ) implies t.hooks == s.hooks + (if k.on_remove is Some {
        seq![HookEvent::RelationRemoved { kind_idx, subject, target: old }]
    } else {
        none
    }) + added by {
        let p = RelationPair { kind_idx, target: old };
        assert(has_pair_of_kind(set, kind_idx));
        let f = first_pair(set, kind_idx)->0;
        assert(set.contains(f) && f.kind_idx == kind_idx);
        assert(s.pairs[subject.index].contains(p) && s.pairs[subject.index].contains(f));
        assert(p == f);
        assert(old != target);
        assert(t.hooks =~= s.hooks + (if k.on_remove is Some {
            seq![HookEvent::RelationRemoved { kind_idx, subject, target: old }]
        } else {
            none
        }) + added);
    }
}

/// A relation is turned down for being of the dead or of an entity with itself. Any other is turned
/// down only in a hierarchy, and only where the subject is a target itself.
pub proof fn law_relations_are_turned_down_for_a_reason(
    s: GraphState,
    entities: AllocState,
    subject: Entity,
    kind_idx: u32,
    target: Entity,
)
    requires
        kind_idx < s.kinds.len(),
    ensures
        ({
            let r = refusal_of(s, entities, subject, kind_idx, target);
            let k = s.kinds[kind_idx as int];
            &&& r == Some(Refusal::Dead) <==> !alive(entities, subject) || !alive(entities, target)
            &&& r == Some(Refusal::Itself) <==> alive(entities, subject) && alive(entities, target)
                && subject.index == target.index
            &&& r == Some(Refusal::Cycle) ==> k.exclusive || k.cascade
            &&& r == Some(Refusal::Cycle) ==> exists|kind: u32|
                (#[trigger] s.siblings[(kind, subject.index)]).len() > 0
        }),
{
}

/// Whether the entity with one index has a relation of the kind to the one with another.
pub open spec fn has_step(s: GraphState, kind_idx: u32, from: u32, to: u32) -> bool {
    exists|t: Entity|
        t.index == to && #[trigger] s.pairs[from].contains(RelationPair { kind_idx, target: t })
}

/// Whether each index of a chain has a relation of the kind to the next.
pub open spec fn is_chain(s: GraphState, kind_idx: u32, chain: Seq<u32>) -> bool {
    forall|i: int, j: int|
        0 <= i && j == i + 1 && j < chain.len() ==> has_step(
            s,
            kind_idx,
            #[trigger] chain[i],
            #[trigger] chain[j],
        )
}

proof fn lemma_step(s: GraphState, kind_idx: u32, from: u32, to: u32)
    ensures
        has_step(s, kind_idx, from, to) == steps_to(s.pairs, kind_idx, from, to),
{
    if has_step(s, kind_idx, from, to) {
        let t = choose|t: Entity|
            t.index == to && #[trigger] s.pairs[from].contains(RelationPair { kind_idx, target: t });
        let p = RelationPair { kind_idx, target: t };
        assert(s.pairs[from].contains(p));
    }
    if steps_to(s.pairs, kind_idx, from, to) {
        let p = choose|p: RelationPair| #[trigger]
            s.pairs[from].contains(p) && p.kind_idx == kind_idx && p.target.index == to;
        assert(p == RelationPair { kind_idx, target: p.target });
        assert(s.pairs[from].contains(RelationPair { kind_idx, target: p.target }));
    }
}

proof fn lemma_chain(s: GraphState, kind_idx: u32, chain: Seq<u32>)
    ensures
        is_chain(s, kind_idx, chain) == is_path(s.pairs, kind_idx, chain),
{
    assert forall|i: int, j: int| 0 <= i && j == i + 1 && j < chain.len() implies has_step(
        s,
        kind_idx,
        #[trigger] chain[i],
        #[trigger] chain[j],
    ) == steps_to(s.pairs, kind_idx, chain[i], chain[j]) by {
        lemma_step(s, kind_idx, chain[i], chain[j]);
    }
}

/// In a hierarchy a relation that would close a cycle is turned down: where a chain of relations
/// leads from the target up to the subject.
pub proof fn law_cycles_are_turned_down(
    s: GraphState,
    entities: AllocState,
    subject: Entity,
    kind_idx: u32,
    target: Entity,
    chain: Seq<u32>,
)
    requires
        graph_ok(s, entities),
        kind_idx < s.kinds.len(),
        s.kinds[kind_idx as int].exclusive || s.kinds[kind_idx as int].cascade,
        chain.len() >= 2,
        chain[0] == target.index,
        chain.last() == subject.index,
        is_chain(s, kind_idx, chain),
    ensures
        refusal_of(s, entities, subject, kind_idx, target) is Some,
        forall|position: Option<usize>|
            #[trigger] after_add(s, entities, subject, kind_idx, target, position) == s,
{
    lemma_chain(s, kind_idx, chain);
    let n = (chain.len() - 1) as nat;
    assert(leads(s.pairs, kind_idx, target.index, subject.index, n, chain));
    assert(is_ancestor(s.pairs, kind_idx, target.index, subject.index, n));
    let last = chain[chain.len() - 2];
    assert(has_step(s, kind_idx, last, chain[chain.len() - 1]));
    let t = choose|t: Entity|
        t.index == subject.index && #[trigger] s.pairs[last].contains(
            RelationPair { kind_idx, target: t },
        );
    let p = RelationPair { kind_idx, target: t };
    assert(s.pairs[last].contains(p));
    assert(s.siblings[(p.kind_idx, p.target.index)].contains(current(entities, last)));
    assert(s.siblings[(kind_idx, subject.index)].len() > 0);
    let left = crate::relations::MAX_ANCESTOR_WALK as nat;
    if n > left + 1 {
        let cut = chain.subrange(0, left as int + 2);
        assert forall|i: int, j: int| 0 <= i && j == i + 1 && j < cut.len() implies has_step(
            s,
            kind_idx,
            #[trigger] cut[i],
            #[trigger] cut[j],
        ) by {
            assert(has_step(s, kind_idx, chain[i], chain[j]));
        }
        lemma_chain(s, kind_idx, cut);
        assert(leads(s.pairs, kind_idx, target.index, cut.last(), left + 1, cut));
        assert(is_ancestor(s.pairs, kind_idx, target.index, cut.last(), left + 1));
    }
    assert(walk_blocks(s.pairs, kind_idx, target.index, subject.index, left));
}

/// In a hierarchy a relation between two live entities is taken on where no chain leads from the
/// target up to the subject and none is longer than a million relations.
pub proof fn law_other_relations_are_taken_on(
    s: GraphState,
    entities: AllocState,
    subject: Entity,
    kind_idx: u32,
    target: Entity,
)
    requires
        alive(entities, subject),
        alive(entities, target),
        subject.index != target.index,
        forall|chain: Seq<u32>|
            chain.len() >= 2 && chain[0] == target.index && #[trigger] is_chain(s, kind_idx, chain)
                ==> chain.last() != subject.index && chain.len() <= 1_000_001,
    ensures
        refusal_of(s, entities, subject, kind_idx, target) is None,
{
    let left = crate::relations::MAX_ANCESTOR_WALK as nat;
    if walk_blocks(s.pairs, kind_idx, target.index, subject.index, left) {
        if exists|n: nat|
            0 < n <= left + 1 && #[trigger] is_ancestor(
                s.pairs,
                kind_idx,
                target.index,
                subject.index,
                n,
            ) {
            let n = choose|n: nat|
                0 < n <= left + 1 && #[trigger] is_ancestor(
                    s.pairs,
                    kind_idx,
                    target.index,
                    subject.index,
                    n,
                );
            let chain = choose|path: Seq<u32>|
                leads(s.pairs, kind_idx, target.index, subject.index, n, path);
            lemma_chain(s, kind_idx, chain);
            assert(is_chain(s, kind_idx, chain));
        } else {
            let i = choose|i: u32| #[trigger]
                is_ancestor(s.pairs, kind_idx, target.index, i, left + 1);
            let steps: nat = left + 1;
            let chain = choose|path: Seq<u32>|
                leads(s.pairs, kind_idx, target.index, i, steps, path);
            lemma_chain(s, kind_idx, chain);
            assert(is_chain(s, kind_idx, chain));
        }
    }
}

/// Moving a subject among its siblings puts it where it was asked for, or at the end, and keeps the
/// order of the others. No relation comes or goes, and nobody is told.
pub proof fn law_moving_orders_siblings(
    s: GraphState,
    kind_idx: u32,
    target: u32,
    subject: Entity,
    index: nat,
)
    requires
        s.siblings.dom() == Set::<(u32, u32)>::full(),
        s.siblings[(kind_idx, target)].no_duplicates(),
        s.siblings[(kind_idx, target)].contains(subject),
    ensures
        ({
            let t = sibling_moved(s, kind_idx, target, subject, index);
            let before = s.siblings[(kind_idx, target)];
            let after = t.siblings[(kind_idx, target)];
            let at = if index < before.len() {
                index as int
            } else {
                before.len() - 1
            };
            &&& after == before.filter(|x: Entity| x != subject).insert(at, subject)
            &&& after.len() == before.len()
            &&& after[at] == subject
            &&& forall|key: (u32, u32)|
                key != (kind_idx, target) ==> #[trigger] t.siblings[key] == s.siblings[key]
            &&& t.pairs == s.pairs
            &&& t.kinds == s.kinds
            &&& t.hooks == s.hooks
        }),
{
    let before = s.siblings[(kind_idx, target)];
    law_drop_keeps_order(before, subject);
    lemma_place_of(before, subject);
    assert(dropped(before, subject).len() == before.len() - 1);
}

/// The subjects of an entity are the live entities that are related to it, each once.
pub proof fn law_subjects_are_who_is_related(w: WorldState, kind_idx: u32, parent: Entity, x: Entity)
    requires
        graph_ok(w.relations, w.entities),
        kind_idx < w.relations.kinds.len(),
        alive(w.entities, parent),
    ensures
        ({
            let list = subjects_of(w, w.relations.kinds[kind_idx as int].key, parent);
            &&& list.no_duplicates()
            &&& list.contains(x) <==> alive(w.entities, x)
                && w.relations.pairs[x.index].contains(RelationPair { kind_idx, target: parent })
        }),
{
    lemma_kind_index(w.relations.kinds, kind_idx as int);
    let key = (kind_idx, parent.index);
    assert(w.relations.siblings[key].no_duplicates());
    assert(current(w.entities, parent.index) == parent);
    if alive(w.entities, x) {
        assert(current(w.entities, x.index) == x);
    }
    let p = RelationPair { kind_idx, target: parent };
    if w.relations.siblings[key].contains(x) {
        assert(w.relations.pairs[x.index].contains(p));
    }
    if alive(w.entities, x) && w.relations.pairs[x.index].contains(p) {
        assert(w.relations.siblings[(p.kind_idx, p.target.index)].contains(
            current(w.entities, x.index),
        ));
    }
}

/// The dead, and those of a kind that nobody registered, have no subjects and no targets.
pub proof fn law_the_dead_are_related_to_nobody(w: WorldState, key: u64, e: Entity)
    requires
        !alive(w.entities, e) || forall|i: int|
            0 <= i < w.relations.kinds.len() ==> (#[trigger] w.relations.kinds[i]).key != key,
    ensures
        subjects_of(w, key, e).len() == 0,
        target_in(w, e, key) is None,
{
}

/// The target of a live entity is one to which it is related, and there is one where it is related
/// to anybody.
pub proof fn law_target_is_who_it_is_related_to(w: WorldState, kind_idx: u32, e: Entity)
    requires
        graph_ok(w.relations, w.entities),
        kind_idx < w.relations.kinds.len(),
        alive(w.entities, e),
    ensures
        ({
            let found = target_in(w, e, w.relations.kinds[kind_idx as int].key);
            let set = w.relations.pairs[e.index];
            &&& found matches Some(t) ==> set.contains(RelationPair { kind_idx, target: t })
            &&& forall|t: Entity| #[trigger]
                set.contains(RelationPair { kind_idx, target: t }) ==> found is Some
            &&& w.relations.kinds[kind_idx as int].exclusive ==> forall|t: Entity| #[trigger]
                set.contains(RelationPair { kind_idx, target: t }) ==> found == Some(t)
        }),
{
    lemma_kind_index(w.relations.kinds, kind_idx as int);
    let set = w.relations.pairs[e.index];
    law_first_pair(set, kind_idx);
    if let Some(p) = first_pair(set, kind_idx) {
        assert(p == RelationPair { kind_idx, target: p.target });
    }
    assert forall|t: Entity| #[trigger]
        set.contains(RelationPair { kind_idx, target: t }) implies first_pair(
        set,
        kind_idx,
    ) is Some && (w.relations.kinds[kind_idx as int].exclusive ==> first_pair(set, kind_idx)->0.target
        == t) by {
        let p = RelationPair { kind_idx, target: t };
        assert(has_pair_of_kind(set, kind_idx));
        let f = first_pair(set, kind_idx)->0;
        assert(w.relations.pairs[e.index].contains(p) && w.relations.pairs[e.index].contains(f));
    }
}

/// Two live entities are related where the subject has the relation.
pub proof fn law_related_entities_have_the_relation(
    s: GraphState,
    entities: AllocState,
    subject: Entity,
    kind_idx: u32,
    target: Entity,
)
    requires
        consistent(s, entities),
    ensures
        related(s, entities, subject, kind_idx, target) <==> is_current(entities, subject)
            && s.pairs[subject.index].contains(RelationPair { kind_idx, target }),
{
    let p = RelationPair { kind_idx, target };
    if s.pairs[subject.index].contains(p) {
        assert(live_slot(entities, subject.index));
        assert(alive(entities, p.target));
    }
}

/// Who goes with an entity are its subjects of the kinds that cascade.
pub proof fn law_who_goes_with_an_entity(s: GraphState, e: Entity, n: nat, x: Entity)
    requires
        n <= s.kinds.len() <= u32::MAX,
    ensures
        cascade_children(s, e, n).contains(x) <==> exists|k: u32|
            k < n && s.kinds[k as int].cascade && #[trigger] s.siblings[(k, e.index)].contains(x),
    decreases n,
{
    if n > 0 {
        law_who_goes_with_an_entity(s, e, (n - 1) as nat, x);
        let head = cascade_children(s, e, (n - 1) as nat);
        let k = (n - 1) as u32;
        let more = s.siblings[(k, e.index)];
        let all = cascade_children(s, e, n);
        if s.kinds[n - 1].cascade {
            assert(all == head + more);
            if head.contains(x) {
                let i = choose|i: int| 0 <= i < head.len() && head[i] == x;
                assert(all[i] == x);
            }
            if more.contains(x) {
                let i = choose|i: int| 0 <= i < more.len() && more[i] == x;
                assert(all[head.len() + i] == x);
            }
            if all.contains(x) {
                let i = choose|i: int| 0 <= i < all.len() && all[i] == x;
                if i < head.len() {
                    assert(head[i] == x);
                } else {
                    assert(more[i - head.len()] == x);
                }
            }
        }
        if (exists|j: u32|
            j < n && s.kinds[j as int].cascade && #[trigger] s.siblings[(j, e.index)].contains(x)) {
            let j = choose|j: u32|
                j < n && s.kinds[j as int].cascade && #[trigger] s.siblings[(j, e.index)].contains(
                    x,
                );
            if j < n - 1 {
                assert(j < (n - 1) as nat && s.siblings[(j, e.index)].contains(x));
            } else {
                assert(j == k);
            }
        }
    }
}

/// Clearing a live entity takes the relations that it is part of, as subject or as target, and no
/// others; its siblings keep their order.
pub proof fn law_clearing_takes_what_an_entity_is_part_of(
    s: GraphState,
    entities: AllocState,
    e: Entity,
)
    requires
        graph_ok(s, entities),
        alive(entities, e),
        listable(target_cleared(s, e, s.kinds.len()).pairs[e.index]),
    ensures
        ({
            let t = after_detach(s, e);
            &&& t.kinds == s.kinds
            &&& forall|i: u32, p: RelationPair| #[trigger]
                t.pairs[i].contains(p) <==> s.pairs[i].contains(p) && i != e.index && p.target != e
            &&& forall|key: (u32, u32)|
                (#[trigger] t.siblings[key]) == if key.1 == e.index {
                    Seq::<Entity>::empty()
                } else {
                    s.siblings[key].filter(|x: Entity| x != e)
                }
        }),
{
    law_detach(s, entities, e);
    let t = after_detach(s, e);
    assert forall|i: u32, p: RelationPair| #[trigger] t.pairs[i].contains(p) <==> s.pairs[i].contains(
        p,
    ) && i != e.index && p.target != e by {
        let all = t.pairs[i];
    }
    assert forall|key: (u32, u32)|
        (#[trigger] t.siblings[key]) == if key.1 == e.index {
            Seq::<Entity>::empty()
        } else {
            s.siblings[key].filter(|x: Entity| x != e)
        } by {
        assert(s.siblings[key].no_duplicates());
        law_drop_keeps_order(s.siblings[key], e);
    }
}

/// A kind that is registered has an index, under which it is found by its key; the kinds before it
/// keep theirs.
pub proof fn law_registered_kinds_are_found(kinds: Seq<KindInfo>, k: KindInfo)
    requires
        distinct_keys(kinds),
        kinds.len() < u32::MAX,
    ensures
        ({
            let all = with_kind(kinds, k);
            let i = index_with_kind(kinds, k);
            &&& i < all.len()
            &&& all[i as int].key == k.key
            &&& kind_index(all, k.key) == Some(i)
            &&& distinct_keys(all)
            &&& kinds.len() <= all.len() <= kinds.len() + 1
            &&& forall|j: int| 0 <= j < kinds.len() ==> #[trigger] all[j] == kinds[j]
            &&& i == kinds.len() ==> all[i as int] == k
            &&& all.len() == kinds.len() + 1 ==> i == kinds.len()
        }),
{
    let all = with_kind(kinds, k);
    if let Some(i) = kind_index(kinds, k.key) {
        let j = choose|j: int| 0 <= j < kinds.len() && (#[trigger] kinds[j]).key == k.key;
        lemma_kind_index(kinds, j);
    } else {
        assert forall|i: int, j: int| 0 <= i < j < all.len() implies (#[trigger] all[i]).key != (
        #[trigger] all[j]).key by {
            if j == kinds.len() {
                assert(kinds[i].key != k.key);
            }
        }
        lemma_kind_index(all, kinds.len() as int);
    }
}

/// The kinds at hand are told apart by their keys; children go with their parent, of which they
/// have one, and owned or liked entities stay.
pub proof fn law_kinds_at_hand()
    ensures
        ChildOf::spec_kind_key() != Owns::spec_kind_key(),
        Owns::spec_kind_key() != Likes::spec_kind_key(),
        Likes::spec_kind_key() != ChildOf::spec_kind_key(),
        ChildOf::spec_exclusive() && ChildOf::spec_cascade(),
        !Owns::spec_exclusive() && !Owns::spec_cascade(),
        !Likes::spec_exclusive() && !Likes::spec_cascade(),
{
}

/// A graph without relations is in order, whoever is alive.
pub proof fn law_empty_graphs_are_in_order(s: GraphState, entities: AllocState)
    requires
        s.kinds.len() == 0,
        s.pairs.dom() == Set::<u32>::full(),
        s.siblings.dom() == Set::<(u32, u32)>::full(),
        forall|i: u32| (#[trigger] s.pairs[i]) == Set::<RelationPair>::empty(),
        forall|key: (u32, u32)| (#[trigger] s.siblings[key]).len() == 0,
    ensures
        graph_ok(s, entities),
{
    assert forall|key: (u32, u32), e: Entity| #[trigger] s.siblings[key].contains(e) implies false by {
        assert(s.siblings[key].len() == 0);
    }
}

/// Adding, removing and moving relations keep a graph in order.
pub proof fn law_changes_keep_graphs_in_order(
    s: GraphState,
    entities: AllocState,
    subject: Entity,
    kind_idx: u32,
    target: Entity,
    position: Option<usize>,
    index: nat,
)
    requires
        graph_ok(s, entities),
        kind_idx < s.kinds.len(),
        index <= usize::MAX,
    ensures
        graph_ok(after_add(s, entities, subject, kind_idx, target, position), entities),
        alive(entities, subject) ==> graph_ok(
            edge_removed(s, subject, RelationPair { kind_idx, target }),
            entities,
        ),
        graph_ok(sibling_moved(s, kind_idx, target.index, subject, index), entities),
{
    law_add_keeps_consistency(s, entities, subject, kind_idx, target, position);
    law_exclusive_kinds_have_one_target(s, entities, subject, kind_idx, target, position);
    let pair = RelationPair { kind_idx, target };
    if alive(entities, subject) {
        law_edge_removed_keeps_consistency(s, entities, subject, pair);
        let t = edge_removed(s, subject, pair);
        assert(t.pairs.dom() =~= Set::<u32>::full());
        assert(t.siblings.dom() =~= Set::<(u32, u32)>::full());
        assert forall|i: u32, p: RelationPair, q: RelationPair|
            #![trigger t.pairs[i].contains(p), t.pairs[i].contains(q)]
            t.pairs[i].contains(p) && t.pairs[i].contains(q) && p.kind_idx == q.kind_idx
                && crate::relation_graph::is_exclusive(t, p.kind_idx) implies p == q by {
            assert(s.pairs[i].contains(p) && s.pairs[i].contains(q));
        }
    }
    law_move_keeps_consistency(s, entities, kind_idx, target.index, subject, index);
    let m = sibling_moved(s, kind_idx, target.index, subject, index);
    assert(m.siblings.dom() =~= Set::<(u32, u32)>::full());
    assert forall|i: u32, p: RelationPair, q: RelationPair|
        #![trigger m.pairs[i].contains(p), m.pairs[i].contains(q)]
        m.pairs[i].contains(p) && m.pairs[i].contains(q) && p.kind_idx == q.kind_idx
            && crate::relation_graph::is_exclusive(m, p.kind_idx) implies p == q by {
        assert(s.pairs[i].contains(p) && s.pairs[i].contains(q));
    }
}

/// Entities that are issued or come to life leave a graph in order: nobody is related to them.
pub proof fn law_new_entities_keep_graphs_in_order(
    s: GraphState,
    entities: AllocState,
    n: nat,
    e: Entity,
    loc: EntityLocation,
)
    requires
        graph_ok(s, entities),
        state_wf(entities),
        loc.archetype_id.0 < u32::MAX || loc.row < u32::MAX,
    ensures
        graph_ok(s, after_draw(entities, n)),
        graph_ok(s, after_allocate(entities, n)),
        graph_ok(s, after_flush(entities)),
        graph_ok(s, after_set_location(entities, e, loc)),
{
    lemma_graph_kept(s, entities, after_draw(entities, n));
    lemma_graph_kept(s, entities, after_allocate(entities, n));
    lemma_graph_kept(s, entities, after_flush(entities));
    lemma_graph_kept(s, entities, after_set_location(entities, e, loc));
}

proof fn lemma_graph_kept(s: GraphState, a: AllocState, b: AllocState)
    requires
        graph_ok(s, a),
        state_wf(a),
        a.generations.len() <= b.generations.len(),
        a.locations.len() <= b.locations.len(),
        forall|i: int| 0 <= i < a.generations.len() ==> #[trigger] b.generations[i] == a.generations[i],
        forall|i: int|
            0 <= i < a.locations.len() && a.locations[i] is Some ==> #[trigger] b.locations[i] is Some,
    ensures
        graph_ok(s, b),
{
    assert forall|i: u32, p: RelationPair| #[trigger] s.pairs[i].contains(p) implies {
        &&& live_slot(b, i)
        &&& alive(b, p.target)
        &&& p.target.index != i
        &&& p.kind_idx < s.kinds.len()
        &&& s.siblings[(p.kind_idx, p.target.index)].contains(current(b, i))
    } by {
        assert(live_slot(a, i));
        assert(alive(a, p.target));
        assert(b.locations[i as int] is Some);
        assert(b.locations[p.target.index as int] is Some);
        assert(current(b, i) == current(a, i));
    }
    assert forall|key: (u32, u32), e: Entity| #[trigger] s.siblings[key].contains(e) implies alive(
        b,
        e,
    ) && s.pairs[e.index].contains(
        RelationPair { kind_idx: key.0, target: current(b, key.1) },
    ) by {
        assert(alive(a, e));
        let p = RelationPair { kind_idx: key.0, target: current(a, key.1) };
        assert(s.pairs[e.index].contains(p));
        assert(alive(a, p.target));
        assert(b.generations[key.1 as int] == a.generations[key.1 as int]);
        assert(b.locations[e.index as int] is Some);
        assert(b.generations[e.index as int] == a.generations[e.index as int]);
    }
}

} // verus!
