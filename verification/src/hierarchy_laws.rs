//! What commands do to the relations of a world.

use vstd::prelude::*;
use crate::commands::{CommandState, after_command, after_orphaned};
use crate::edge_laws::{
    graph_ok, law_adding_brings_one_relation, law_adding_orders_siblings,
    law_registered_kinds_are_found, law_removing_takes_one_relation,
    law_target_is_who_it_is_related_to,
};
use crate::entity::{AllocState, Entity, alive};
use crate::relation_graph::{GraphState, after_add, current, live_slot, refusal_of, with_registered};
use crate::relation_index::{RelationPair, dropped, place_of};
use crate::relation_laws::{law_add_keeps_consistency, law_exclusive_kinds_have_one_target};
use crate::relations::{
    ChildOf, HookEvent, KindInfo, RelationKind, index_with_kind, kind_index, lemma_kind_index, with_kind,
};
use crate::world::{WorldState, after_add_relations, after_remove_relation, subjects_of, target_in};

verus! {

/// Whether an index is that of the relation between child and parent.
pub open spec fn is_child_kind(kinds: Seq<KindInfo>, k: u32) -> bool {
    k < kinds.len() && kinds[k as int].key == ChildOf::spec_kind_key()
}

/// Whether all but the relations is as it was.
pub open spec fn only_relations_differ(w: WorldState, t: WorldState) -> bool {
    t == WorldState { relations: t.relations, ..w }
}

/// What is told of children that lose their parent, in order.
pub open spec fn orphan_hooks(kind: KindInfo, k: u32, children: Seq<Entity>, parent: Entity) -> Seq<
    HookEvent,
> {
    if kind.on_remove is Some {
        children.map_values(
            |c: Entity| HookEvent::RelationRemoved { kind_idx: k, subject: c, target: parent },
        )
    } else {
        Seq::empty()
    }
}

proof fn lemma_orphaned(w: WorldState, k: u32, parent: Entity, children: Seq<Entity>, n: nat)
    requires
        graph_ok(w.relations, w.entities),
        is_child_kind(w.relations.kinds, k),
        alive(w.entities, parent),
        children == w.relations.siblings[(k, parent.index)],
        n <= children.len(),
    ensures
        ({
            let t = after_orphaned(w, children, parent, n);
            let pair = RelationPair { kind_idx: k, target: parent };
            &&& only_relations_differ(w, t)
            &&& t.relations.kinds == w.relations.kinds
            &&& t.relations.pairs.dom() == Set::<u32>::full()
            &&& t.relations.siblings.dom() == Set::<(u32, u32)>::full()
            &&& t.relations.siblings == w.relations.siblings.insert(
                (k, parent.index),
                children.subrange(n as int, children.len() as int),
            )
            &&& forall|i: u32, p: RelationPair| #[trigger]
                t.relations.pairs[i].contains(p) <==> w.relations.pairs[i].contains(p) && !(p == pair
                    && exists|j: int| 0 <= j < n && (#[trigger] children[j]).index == i)
            &&& t.relations.hooks == w.relations.hooks + orphan_hooks(
                w.relations.kinds[k as int],
                k,
                children.subrange(0, n as int),
                parent,
            )
        }),
    decreases n,
{
    let key = (k, parent.index);
    let pair = RelationPair { kind_idx: k, target: parent };
    let info = w.relations.kinds[k as int];
    let t = after_orphaned(w, children, parent, n);
    if n == 0 {
        assert(children.subrange(0, children.len() as int) =~= children);
        assert(t.relations.siblings =~= w.relations.siblings.insert(
            key,
            children.subrange(0, children.len() as int),
        ));
        assert(orphan_hooks(info, k, children.subrange(0, 0), parent) =~= Seq::<HookEvent>::empty());
        assert(t.relations.hooks =~= w.relations.hooks + Seq::<HookEvent>::empty());
    } else {
        let n1 = (n - 1) as nat;
        lemma_orphaned(w, k, parent, children, n1);
        let m = after_orphaned(w, children, parent, n1);
        let c = children[n - 1];
        lemma_kind_index(w.relations.kinds, k as int);
        assert(t == after_remove_relation(m, c, ChildOf::spec_kind_key(), parent));
        assert(children.contains(c));
        assert(current(w.entities, parent.index) == parent);
        assert(alive(w.entities, c) && w.relations.pairs[c.index].contains(pair));
        assert(children.no_duplicates());
        assert forall|j: int| 0 <= j < children.len() && j != n - 1 implies (
        #[trigger] children[j]).index != c.index by {
            assert(children.contains(children[j]));
            assert(alive(w.entities, children[j]));
        }
        assert(m.relations.pairs[c.index].contains(pair));
        let left = children.subrange(n1 as int, children.len() as int);
        assert(left[0] == c);
        assert(left.contains(c));
        assert(place_of(left, c) == 0);
        assert(dropped(left, c) =~= children.subrange(n as int, children.len() as int));
        assert(m.relations.siblings[key] == left);
        assert(t.relations.siblings =~= w.relations.siblings.insert(
            key,
            children.subrange(n as int, children.len() as int),
        ));
        assert(t.relations.pairs.dom() =~= Set::<u32>::full());
        assert(t.relations.siblings.dom() =~= Set::<(u32, u32)>::full());
        assert forall|i: u32, p: RelationPair| #[trigger]
            t.relations.pairs[i].contains(p) <==> w.relations.pairs[i].contains(p) && !(p == pair
                && exists|j: int| 0 <= j < n && (#[trigger] children[j]).index == i) by {
            assert(t.relations.pairs[i].contains(p) <==> m.relations.pairs[i].contains(p) && !(i
                == c.index && p == pair));
            if exists|j: int| 0 <= j < n1 && (#[trigger] children[j]).index == i {
                let j = choose|j: int| 0 <= j < n1 && (#[trigger] children[j]).index == i;
                assert(0 <= j < n && children[j].index == i);
            }
            if i == c.index {
                assert(0 <= n - 1 < n && children[n - 1].index == i);
            }
        }
        assert(children.subrange(0, n as int) =~= children.subrange(0, n1 as int).push(c));
        assert(t.relations.hooks =~= w.relations.hooks + orphan_hooks(
            info,
            k,
            children.subrange(0, n as int),
            parent,
        ));
    }
}

/// Clearing the children of an entity leaves it without any: every relation of a child to it goes,
/// and every other relation stays. Those who asked are told of each child, in order.
pub proof fn law_cleared_parents_have_no_children(w: WorldState, parent: Entity)
    requires
        graph_ok(w.relations, w.entities),
    ensures
        ({
            let t = after_command(w, CommandState::ClearChildren { parent });
            &&& only_relations_differ(w, t)
            &&& t.relations.kinds == w.relations.kinds
            &&& forall|i: u32, p: RelationPair| #[trigger]
                t.relations.pairs[i].contains(p) <==> w.relations.pairs[i].contains(p) && !(p.target
                    == parent && is_child_kind(w.relations.kinds, p.kind_idx))
            &&& forall|key: (u32, u32)|
                (#[trigger] t.relations.siblings[key]) == if alive(w.entities, parent) && key.1
                    == parent.index && is_child_kind(w.relations.kinds, key.0) {
                    Seq::<Entity>::empty()
                } else {
                    w.relations.siblings[key]
                }
            &&& subjects_of(t, ChildOf::spec_kind_key(), parent).len() == 0
            &&& forall|k: u32|
                alive(w.entities, parent) && #[trigger] is_child_kind(w.relations.kinds, k)
                    ==> t.relations.hooks == w.relations.hooks + orphan_hooks(
                    w.relations.kinds[k as int],
                    k,
                    w.relations.siblings[(k, parent.index)],
                    parent,
                )
        }),
{
    let t = after_command(w, CommandState::ClearChildren { parent });
    let kinds = w.relations.kinds;
    let key = ChildOf::spec_kind_key();
    assert forall|k: u32| is_child_kind(kinds, k) implies kind_index(kinds, key) == Some(k) by {
        lemma_kind_index(kinds, k as int);
    }
    if let Some(k) = kind_index(kinds, key) {
        let j = choose|j: int| 0 <= j < kinds.len() && (#[trigger] kinds[j]).key == key;
        lemma_kind_index(kinds, j);
        assert(is_child_kind(kinds, k));
        if alive(w.entities, parent) {
            let children = w.relations.siblings[(k, parent.index)];
            lemma_orphaned(w, k, parent, children, children.len());
            assert(children.subrange(children.len() as int, children.len() as int) =~= Seq::<
                Entity,
            >::empty());
            assert(children.subrange(0, children.len() as int) =~= children);
            let pair = RelationPair { kind_idx: k, target: parent };
            assert forall|i: u32, p: RelationPair| #[trigger]
                t.relations.pairs[i].contains(p) <==> w.relations.pairs[i].contains(p)
                    && !(p.target == parent && is_child_kind(kinds, p.kind_idx)) by {
                if w.relations.pairs[i].contains(p) && p.target == parent && is_child_kind(
                    kinds,
                    p.kind_idx,
                ) {
                    assert(p == pair);
                    assert(children.contains(current(w.entities, i)));
                    let j = choose|j: int|
                        0 <= j < children.len() && children[j] == current(w.entities, i);
                    assert(children[j].index == i);
                }
            }
        }
    }
}

/// An entity that is taken from its parent has none; every other relation stays.
pub proof fn law_removed_parents_are_gone(w: WorldState, entity: Entity)
    requires
        graph_ok(w.relations, w.entities),
        alive(w.entities, entity),
        forall|k: u32| #[trigger]
            is_child_kind(w.relations.kinds, k) ==> w.relations.kinds[k as int].exclusive,
    ensures
        ({
            let t = after_command(w, CommandState::RemoveParent { entity });
            &&& only_relations_differ(w, t)
            &&& t.relations.kinds == w.relations.kinds
            &&& forall|i: u32, p: RelationPair| #[trigger]
                t.relations.pairs[i].contains(p) <==> w.relations.pairs[i].contains(p) && !(i
                    == entity.index && is_child_kind(w.relations.kinds, p.kind_idx))
            &&& forall|key: (u32, u32)|
                !is_child_kind(w.relations.kinds, key.0) ==> #[trigger] t.relations.siblings[key]
                    == w.relations.siblings[key]
        }),
{
    let t = after_command(w, CommandState::RemoveParent { entity });
    let kinds = w.relations.kinds;
    let key = ChildOf::spec_kind_key();
    assert forall|k: u32| is_child_kind(kinds, k) implies kind_index(kinds, key) == Some(k) by {
        lemma_kind_index(kinds, k as int);
    }
    if let Some(k) = kind_index(kinds, key) {
        let j = choose|j: int| 0 <= j < kinds.len() && (#[trigger] kinds[j]).key == key;
        lemma_kind_index(kinds, j);
        assert(is_child_kind(kinds, k));
        law_target_is_who_it_is_related_to(w, k, entity);
        if let Some(parent) = target_in(w, entity, key) {
            let pair = RelationPair { kind_idx: k, target: parent };
            law_removing_takes_one_relation(w.relations, w.entities, entity, pair);
            assert forall|i: u32, p: RelationPair| #[trigger]
                t.relations.pairs[i].contains(p) <==> w.relations.pairs[i].contains(p) && !(i
                    == entity.index && is_child_kind(kinds, p.kind_idx)) by {
                if i == entity.index && w.relations.pairs[i].contains(p) && is_child_kind(
                    kinds,
                    p.kind_idx,
                ) {
                    assert(p == RelationPair { kind_idx: k, target: p.target });
                    assert(w.relations.pairs[entity.index].contains(
                        RelationPair { kind_idx: k, target: p.target },
                    ));
                }
            }
        } else {
            assert forall|p: RelationPair| #[trigger]
                w.relations.pairs[entity.index].contains(p) implies !is_child_kind(
                kinds,
                p.kind_idx,
            ) by {
                if is_child_kind(kinds, p.kind_idx) {
                    assert(p == RelationPair { kind_idx: k, target: p.target });
                    assert(w.relations.pairs[entity.index].contains(
                        RelationPair { kind_idx: k, target: p.target },
                    ));
                }
            }
        }
    }
}

/// Registering a kind keeps the graph in order.
proof fn lemma_registered_ok(s: GraphState, entities: AllocState, kind: KindInfo)
    requires
        graph_ok(s, entities),
        s.kinds.len() < u32::MAX,
    ensures
        graph_ok(with_registered(s, kind), entities),
{
    law_registered_kinds_are_found(s.kinds, kind);
    let g = with_registered(s, kind);
    assert forall|i: u32, p: RelationPair, q: RelationPair|
        #![trigger g.pairs[i].contains(p), g.pairs[i].contains(q)]
        g.pairs[i].contains(p) && g.pairs[i].contains(q) && p.kind_idx == q.kind_idx
            && crate::relation_graph::is_exclusive(g, p.kind_idx) implies p == q by {
        assert(s.pairs[i].contains(p) && s.pairs[i].contains(q));
        assert(g.kinds[p.kind_idx as int] == s.kinds[p.kind_idx as int]);
    }
    assert forall|i: u32, p: RelationPair| #[trigger] g.pairs[i].contains(p) implies {
        &&& live_slot(entities, i)
        &&& alive(entities, p.target)
        &&& p.target.index != i
        &&& p.kind_idx < g.kinds.len()
        &&& g.siblings[(p.kind_idx, p.target.index)].contains(current(entities, i))
    } by {
        assert(s.pairs[i].contains(p));
    }
    assert forall|key: (u32, u32)| (#[trigger] g.siblings[key]).no_duplicates() by {
        assert(s.siblings[key].no_duplicates());
    }
}

/// Whether a relation of a kind between two entities is taken on whatever the hierarchy: the
/// entities are alive and not the same, and the kind is no hierarchy or the subject nobody's target.
pub open spec fn is_free(w: WorldState, subject: Entity, kind: KindInfo, target: Entity) -> bool {
    &&& alive(w.entities, subject)
    &&& alive(w.entities, target)
    &&& subject.index != target.index
    &&& !kind.exclusive && !kind.cascade || forall|k: u32|
        (#[trigger] w.relations.siblings[(k, subject.index)]).len() == 0
}

/// Adding a relation relates the subject to the target, at the end of the target's subjects. Where
/// the kind is exclusive the subject's old target goes. Every other relation stays.
pub proof fn law_added_relations_are_there(
    w: WorldState,
    subject: Entity,
    kind: KindInfo,
    target: Entity,
    k: u32,
)
    requires
        graph_ok(w.relations, w.entities),
        w.relations.kinds.len() < u32::MAX,
        k < with_kind(w.relations.kinds, kind).len(),
        with_kind(w.relations.kinds, kind)[k as int].key == kind.key,
        is_free(w, subject, with_kind(w.relations.kinds, kind)[k as int], target),
    ensures
        ({
            let t = after_command(w, CommandState::AddRelation { subject, kind, target });
            let exclusive = t.relations.kinds[k as int].exclusive;
            &&& only_relations_differ(w, t)
            &&& forall|i: u32, p: RelationPair| #[trigger]
                t.relations.pairs[i].contains(p) <==> {
                    ||| i == subject.index && p.kind_idx == k && p.target == target
                    ||| w.relations.pairs[i].contains(p) && !(i == subject.index && p.kind_idx == k
                        && exclusive)
                }
            &&& !w.relations.siblings[(k, target.index)].contains(subject)
                ==> t.relations.siblings[(k, target.index)] == w.relations.siblings[(
                k,
                target.index,
            )].push(subject)
            &&& w.relations.siblings[(k, target.index)].contains(subject)
                ==> t.relations.siblings[(k, target.index)] == w.relations.siblings[(
                k,
                target.index,
            )]
            &&& graph_ok(t.relations, t.entities)
        }),
{
    let s = with_registered(w.relations, kind);
    lemma_registered_ok(w.relations, w.entities, kind);
    law_registered_kinds_are_found(w.relations.kinds, kind);
    lemma_kind_index(s.kinds, k as int);
    assert(index_with_kind(w.relations.kinds, kind) == k);
    assert(refusal_of(s, w.entities, subject, k, target) is None);
    law_adding_brings_one_relation(s, w.entities, subject, k, target, None);
    law_adding_orders_siblings(s, w.entities, subject, k, target, None, (k, target.index));
    let list = w.relations.siblings[(k, target.index)];
    assert(list.insert(list.len() as int, subject) =~= list.push(subject));
    law_add_keeps_consistency(s, w.entities, subject, k, target, None);
    law_exclusive_kinds_have_one_target(s, w.entities, subject, k, target, None);
}

/// A relation of the dead, or of an entity with itself, is not added: no relation comes or goes.
pub proof fn law_refused_commands_add_nothing(
    w: WorldState,
    subject: Entity,
    kind: KindInfo,
    target: Entity,
)
    requires
        !alive(w.entities, subject) || !alive(w.entities, target) || subject.index == target.index,
    ensures
        ({
            let t = after_command(w, CommandState::AddRelation { subject, kind, target });
            &&& only_relations_differ(w, t)
            &&& t.relations.pairs == w.relations.pairs
            &&& t.relations.siblings == w.relations.siblings
            &&& t.relations.hooks == w.relations.hooks
        }),
{
}

/// Removing a relation of a live entity takes that relation, and every other stays.
pub proof fn law_removed_relations_are_gone(
    w: WorldState,
    subject: Entity,
    k: u32,
    target: Entity,
)
    requires
        graph_ok(w.relations, w.entities),
        alive(w.entities, subject),
        k < w.relations.kinds.len(),
    ensures
        ({
            let key = w.relations.kinds[k as int].key;
            let t = after_command(w, CommandState::RemoveRelation { subject, key, target });
            &&& only_relations_differ(w, t)
            &&& t.relations.kinds == w.relations.kinds
            &&& forall|i: u32, p: RelationPair| #[trigger]
                t.relations.pairs[i].contains(p) <==> w.relations.pairs[i].contains(p) && !(i
                    == subject.index && p.kind_idx == k && p.target == target)
        }),
{
    lemma_kind_index(w.relations.kinds, k as int);
    law_removing_takes_one_relation(
        w.relations,
        w.entities,
        subject,
        RelationPair { kind_idx: k, target },
    );
}

/// What adding relations of several subjects to one target keeps.
proof fn lemma_batch(
    w: WorldState,
    subjects: Seq<Entity>,
    kind: KindInfo,
    target: Entity,
    k: u32,
    n: nat,
)
    requires
        graph_ok(w.relations, w.entities),
        w.relations.kinds.len() < u32::MAX,
        k < with_kind(w.relations.kinds, kind).len(),
        with_kind(w.relations.kinds, kind)[k as int].key == kind.key,
        n <= subjects.len(),
        forall|j: int|
            0 <= j < subjects.len() ==> is_free(
                w,
                #[trigger] subjects[j],
                with_kind(w.relations.kinds, kind)[k as int],
                target,
            ),
    ensures
        ({
            let t = after_add_relations(w, subjects, kind, target, n);
            &&& only_relations_differ(w, t)
            &&& graph_ok(t.relations, t.entities)
            &&& t.relations.kinds == with_kind(w.relations.kinds, kind)
            &&& forall|i: u32, p: RelationPair| #[trigger]
                t.relations.pairs[i].contains(p) <==> {
                    ||| p.kind_idx == k && p.target == target && exists|j: int|
                        0 <= j < n && (#[trigger] subjects[j]).index == i
                    ||| w.relations.pairs[i].contains(p) && !(p.kind_idx == k
                        && t.relations.kinds[k as int].exclusive && exists|j: int|
                        0 <= j < n && (#[trigger] subjects[j]).index == i)
                }
            &&& forall|j: int, x: u32|
                0 <= j < subjects.len() && (w.relations.siblings[(x, (
                #[trigger] subjects[j]).index)].len() == 0) ==> (#[trigger] t.relations.siblings[(
                    x,
                    subjects[j].index,
                )]).len() == 0
        }),
    decreases n,
{
    let t = after_add_relations(w, subjects, kind, target, n);
    let all = with_kind(w.relations.kinds, kind);
    lemma_registered_ok(w.relations, w.entities, kind);
    law_registered_kinds_are_found(w.relations.kinds, kind);
    if n > 0 {
        let n1 = (n - 1) as nat;
        lemma_batch(w, subjects, kind, target, k, n1);
        let m = after_add_relations(w, subjects, kind, target, n1);
        let c = subjects[n - 1];
        assert(with_kind(m.relations.kinds, kind) == all) by {
            lemma_kind_index(all, k as int);
        }
        let s = with_registered(m.relations, kind);
        assert(s.kinds == m.relations.kinds);
        lemma_kind_index(s.kinds, k as int);
        assert(index_with_kind(m.relations.kinds, kind) == k);
        assert(is_free(w, c, all[k as int], target));
        if all[k as int].exclusive || all[k as int].cascade {
            assert forall|x: u32| (#[trigger] m.relations.siblings[(x, c.index)]).len() == 0 by {
                assert(w.relations.siblings[(x, subjects[n - 1].index)].len() == 0);
            }
        }
        assert(refusal_of(s, m.entities, c, k, target) is None);
        law_adding_brings_one_relation(s, m.entities, c, k, target, None);
        law_add_keeps_consistency(s, m.entities, c, k, target, None);
        law_exclusive_kinds_have_one_target(s, m.entities, c, k, target, None);
        assert(t.relations == after_add(s, m.entities, c, k, target, None));
        assert forall|j: int, x: u32|
            0 <= j < subjects.len() && (w.relations.siblings[(x, (
            #[trigger] subjects[j]).index)].len() == 0) implies (#[trigger] t.relations.siblings[(
            x,
            subjects[j].index,
        )]).len() == 0 by {
            let key = (x, subjects[j].index);
            assert(m.relations.siblings[key].len() == 0);
            assert(is_free(w, subjects[j], all[k as int], target));
            law_adding_orders_siblings(s, m.entities, c, k, target, None, key);
            assert(m.relations.siblings[key] =~= Seq::<Entity>::empty());
            reveal(Seq::filter);
        }
        assert forall|i: u32, p: RelationPair| #[trigger] t.relations.pairs[i].contains(p) <==> {
            ||| p.kind_idx == k && p.target == target && exists|j: int|
                0 <= j < n && (#[trigger] subjects[j]).index == i
            ||| w.relations.pairs[i].contains(p) && !(p.kind_idx == k
                && t.relations.kinds[k as int].exclusive && exists|j: int|
                0 <= j < n && (#[trigger] subjects[j]).index == i)
        } by {
            let was = exists|j: int| 0 <= j < n1 && (#[trigger] subjects[j]).index == i;
            let is = exists|j: int| 0 <= j < n && (#[trigger] subjects[j]).index == i;
            assert(is == (was || c.index == i)) by {
                if was {
                    let j = choose|j: int| 0 <= j < n1 && (#[trigger] subjects[j]).index == i;
                    assert(0 <= j < n && subjects[j].index == i);
                }
                if c.index == i {
                    assert(0 <= n - 1 < n && subjects[n - 1].index == i);
                }
                if is && c.index != i {
                    let j = choose|j: int| 0 <= j < n && (#[trigger] subjects[j]).index == i;
                    assert(0 <= j < n1 && subjects[j].index == i);
                }
            }
            assert(s.pairs[i].contains(p) <==> m.relations.pairs[i].contains(p));
        }
    }
}

/// A batch of relations relates every subject to the target; where the kind is exclusive their old
/// targets go. Every other relation stays.
pub proof fn law_batches_relate_every_subject(
    w: WorldState,
    subjects: Seq<Entity>,
    kind: KindInfo,
    target: Entity,
    k: u32,
)
    requires
        graph_ok(w.relations, w.entities),
        w.relations.kinds.len() < u32::MAX,
        k < with_kind(w.relations.kinds, kind).len(),
        with_kind(w.relations.kinds, kind)[k as int].key == kind.key,
        forall|j: int|
            0 <= j < subjects.len() ==> is_free(
                w,
                #[trigger] subjects[j],
                with_kind(w.relations.kinds, kind)[k as int],
                target,
            ),
    ensures
        ({
            let t = after_command(w, CommandState::AddRelations { subjects, kind, target });
            let among = |i: u32|
                exists|j: int| 0 <= j < subjects.len() && (#[trigger] subjects[j]).index == i;
            &&& only_relations_differ(w, t)
            &&& forall|i: u32, p: RelationPair| #[trigger]
                t.relations.pairs[i].contains(p) <==> {
                    ||| p.kind_idx == k && p.target == target && among(i)
                    ||| w.relations.pairs[i].contains(p) && !(p.kind_idx == k
                        && t.relations.kinds[k as int].exclusive && among(i))
                }
        }),
{
    lemma_batch(w, subjects, kind, target, k, subjects.len());
}

} // verus!
