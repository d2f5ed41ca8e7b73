//! What operations leave to be done: values that are to be disposed of, and hooks that are due.

use vstd::prelude::*;
use crate::entity::{AllocState, Entity, alive};
use crate::relation_graph::{
    GraphState, after_detach, consistent, law_detach, listable, listing, lost_target, subject_hooks,
    target_cleared, target_hooks,
};
use crate::relation_index::{RelationPair, lists};
use crate::relations::HookEvent;
use crate::registry_laws::law_hooks_tell_of_what_appears;
use crate::requirements::{
    DiscardState, all_written, discards_of_all, hooks_of_all, removed_hooks, removed_values,
    wants_added,
};
use crate::storage::CellState;
use crate::world::{
    PartState, WorldState, after_drops, after_inserts, after_release, after_remove, after_spawn_at,
};

verus! {

/// Writing components of a live entity adds, to what was due, a hook for each component that
/// appears and that someone wants to know of, and nothing else.
pub proof fn law_inserting_makes_hooks_due(
    w: WorldState,
    e: Entity,
    parts: Seq<PartState>,
    h: HookEvent,
)
    requires
        w.values.contains_key(e),
    ensures
        ({
            let t = after_inserts(w, e, parts);
            let due = t.relations.hooks.subrange(
                w.relations.hooks.len() as int,
                t.relations.hooks.len() as int,
            );
            &&& w.relations.hooks.len() <= t.relations.hooks.len()
            &&& t.relations.hooks.subrange(0, w.relations.hooks.len() as int) == w.relations.hooks
            &&& due.contains(h) <==> {
                &&& h is ComponentAdded
                &&& h->ComponentAdded_entity == e
                &&& !w.values[e].contains_key(h->ComponentAdded_component)
                &&& t.values[e].contains_key(h->ComponentAdded_component)
                &&& wants_added(w.registry, h->ComponentAdded_component)
            }
            &&& due.no_duplicates()
        }),
{
    let t = after_inserts(w, e, parts);
    let m = w.values[e];
    let all = all_written(w.registry, m, parts, w.tick, parts.len());
    law_hooks_tell_of_what_appears(w.registry, e, m, all, all.len(), h);
    let more = hooks_of_all(w.registry, e, m, parts, w.tick);
    let n = w.relations.hooks.len() as int;
    assert(t.relations.hooks == w.relations.hooks + more);
    assert(t.relations.hooks.subrange(n, t.relations.hooks.len() as int) =~= more);
    assert(t.relations.hooks.subrange(0, n) =~= w.relations.hooks);
}

/// An entity that comes to life makes hooks due for those of its components that someone wants to
/// know of.
pub proof fn law_spawning_makes_hooks_due(
    w: WorldState,
    e: Entity,
    parts: Seq<PartState>,
    h: HookEvent,
)
    ensures
        ({
            let t = after_spawn_at(w, e, parts);
            let due = t.relations.hooks.subrange(
                w.relations.hooks.len() as int,
                t.relations.hooks.len() as int,
            );
            &&& w.relations.hooks.len() <= t.relations.hooks.len()
            &&& t.relations.hooks.subrange(0, w.relations.hooks.len() as int) == w.relations.hooks
            &&& due.contains(h) <==> {
                &&& h is ComponentAdded
                &&& h->ComponentAdded_entity == e
                &&& t.values[e].contains_key(h->ComponentAdded_component)
                &&& wants_added(w.registry, h->ComponentAdded_component)
            }
        }),
{
    let t = after_spawn_at(w, e, parts);
    let m = Map::<u32, CellState>::empty();
    let all = all_written(w.registry, m, parts, w.tick, parts.len());
    law_hooks_tell_of_what_appears(w.registry, e, m, all, all.len(), h);
    let more = hooks_of_all(w.registry, e, m, parts, w.tick);
    let n = w.relations.hooks.len() as int;
    assert(t.relations.hooks == w.relations.hooks + more);
    assert(t.relations.hooks.subrange(n, t.relations.hooks.len() as int) =~= more);
    assert(t.relations.hooks.subrange(0, n) =~= w.relations.hooks);
}

/// Values that are overwritten are handed back, behind those that were before: for a live entity
/// all that the write replaces, for the dead each value itself.
pub proof fn law_writing_hands_back_what_it_replaces(
    w: WorldState,
    e: Entity,
    part: PartState,
)
    requires
        part.id < w.registry.infos.len(),
        w.values.contains_key(e) ==> w.values[e].contains_key(part.id),
    ensures
        ({
            let t = after_inserts(w, e, seq![part]);
            let info = w.registry.infos[part.id as int];
            let gone = if w.values.contains_key(e) {
                w.values[e][part.id].value
            } else {
                part.value
            };
            t.discarded == if info.needs_drop {
                w.discarded.push(DiscardState { key: info.key, value: gone })
            } else {
                w.discarded
            }
        }),
{
    let parts = seq![part];
    let t = after_inserts(w, e, parts);
    let info = w.registry.infos[part.id as int];
    let none = Seq::<DiscardState>::empty();
    if w.values.contains_key(e) {
        let m = w.values[e];
        reveal_with_fuel(all_written, 2);
        reveal_with_fuel(crate::requirements::overwritten, 2);
        assert(all_written(w.registry, m, parts, w.tick, 0) =~= Seq::<PartState>::empty());
        assert(crate::world::puts(m, Seq::<PartState>::empty(), 0) == m);
        assert(all_written(w.registry, m, parts, w.tick, 1) =~= parts);
        assert(crate::world::puts(m, parts, 0) == m);
        let more = discards_of_all(w.registry, m, parts, w.tick);
        if info.needs_drop {
            assert(more =~= seq![DiscardState { key: info.key, value: m[part.id].value }]);
            assert(w.discarded + more =~= w.discarded.push(
                DiscardState { key: info.key, value: m[part.id].value },
            ));
        } else {
            assert(more =~= none);
            assert(w.discarded + more =~= w.discarded);
        }
    } else {
        reveal_with_fuel(after_drops, 2);
        if info.needs_drop {
            assert(w.discarded + seq![DiscardState { key: info.key, value: part.value }]
                =~= w.discarded.push(DiscardState { key: info.key, value: part.value }));
        } else {
            assert(w.discarded + none =~= w.discarded);
        }
    }
}

/// A component that is removed hands back its value, where its type needs disposal.
pub proof fn law_removing_hands_back_the_value(w: WorldState, e: Entity, id: u32)
    requires
        id < w.registry.infos.len(),
    ensures
        after_remove(w, e, id).discarded == if w.values.contains_key(e)
            && w.values[e].contains_key(id) && w.registry.infos[id as int].needs_drop {
            w.discarded.push(
                DiscardState {
                    key: w.registry.infos[id as int].key,
                    value: w.values[e][id].value,
                },
            )
        } else {
            w.discarded
        },
{
    if w.values.contains_key(e) && w.values[e].contains_key(id) {
        let d = DiscardState {
            key: w.registry.infos[id as int].key,
            value: w.values[e][id].value,
        };
        assert(w.discarded + seq![d] =~= w.discarded.push(d));
        assert(w.discarded + Seq::<DiscardState>::empty() =~= w.discarded);
    }
}

/// All that a write replaces is handed back, and nothing that was to be disposed of is lost, for an
/// entity that is there as for one that comes to life.
pub proof fn law_discarded_values_are_kept(w: WorldState, e: Entity, parts: Seq<PartState>)
    ensures
        w.values.contains_key(e) ==> after_inserts(w, e, parts).discarded == w.discarded
            + discards_of_all(w.registry, w.values[e], parts, w.tick),
        after_spawn_at(w, e, parts).discarded == w.discarded + discards_of_all(
            w.registry,
            Map::empty(),
            parts,
            w.tick,
        ),
{
}

/// An entity that is released loses its components and hands back their values; hooks are due for
/// its relations first and for its components then.
pub proof fn law_releasing_hands_back_and_tells(w: WorldState, e: Entity)
    requires
        w.values.contains_key(e),
    ensures
        ({
            let t = after_release(w, e);
            &&& t.values == w.values.remove(e)
            &&& t.discarded == w.discarded + removed_values(
                w.registry,
                w.values[e],
                w.registry.infos.len(),
            )
            &&& t.relations.hooks == after_detach(w.relations, e).hooks + removed_hooks(
                w.registry,
                e,
                w.values[e],
                w.registry.infos.len(),
            )
            &&& t.registry == w.registry
            &&& t.tick == w.tick
            &&& t.events == w.events
            &&& t.resources == w.resources
        }),
{
}

proof fn lemma_target_hooks(s: GraphState, e: Entity, n: nat, h: HookEvent)
    requires
        n <= s.kinds.len() <= u32::MAX,
    ensures
        target_hooks(s, e, n).contains(h) <==> {
            &&& h is RelationRemoved
            &&& h->RelationRemoved_target == e
            &&& h->RelationRemoved_kind_idx < n
            &&& s.kinds[h->RelationRemoved_kind_idx as int].on_remove is Some
            &&& s.siblings[(h->RelationRemoved_kind_idx, e.index)].contains(
                h->RelationRemoved_subject,
            )
        },
    decreases n,
{
    if n > 0 {
        let n1 = (n - 1) as nat;
        lemma_target_hooks(s, e, n1, h);
        let k = n1 as u32;
        let head = target_hooks(s, e, n1);
        let list = s.siblings[(k, e.index)];
        let more = lost_target(s.kinds[n - 1], k, list, e);
        let all = target_hooks(s, e, n);
        assert(all == head + more);
        assert(more.contains(h) <==> {
            &&& h is RelationRemoved
            &&& h->RelationRemoved_target == e
            &&& h->RelationRemoved_kind_idx == k
            &&& s.kinds[n - 1].on_remove is Some
            &&& list.contains(h->RelationRemoved_subject)
        }) by {
            if more.contains(h) {
                let i = choose|i: int| 0 <= i < more.len() && more[i] == h;
                assert(list[i] == h->RelationRemoved_subject);
            }
            if h is RelationRemoved && list.contains(h->RelationRemoved_subject) {
                let i = choose|i: int| 0 <= i < list.len() && list[i] == h->RelationRemoved_subject;
                if s.kinds[n - 1].on_remove is Some {
                    assert(more[i] == (HookEvent::RelationRemoved {
                        kind_idx: k,
                        subject: list[i],
                        target: e,
                    }));
                }
            }
        }
        lemma_joined(head, more, h);
    }
}

proof fn lemma_joined(a: Seq<HookEvent>, b: Seq<HookEvent>, h: HookEvent)
    ensures
        (a + b).contains(h) <==> a.contains(h) || b.contains(h),
{
    let all = a + b;
    if a.contains(h) {
        let i = choose|i: int| 0 <= i < a.len() && a[i] == h;
        assert(all[i] == h);
    }
    if b.contains(h) {
        let i = choose|i: int| 0 <= i < b.len() && b[i] == h;
        assert(all[a.len() + i] == h);
    }
    if all.contains(h) {
        let i = choose|i: int| 0 <= i < all.len() && all[i] == h;
        if i < a.len() {
            assert(a[i] == h);
        } else {
            assert(b[i - a.len()] == h);
        }
    }
}

proof fn lemma_subject_hooks(s: GraphState, e: Entity, list: Seq<RelationPair>, h: HookEvent)
    ensures
        subject_hooks(s, e, list).contains(h) <==> {
            &&& h is RelationRemoved
            &&& h->RelationRemoved_subject == e
            &&& h->RelationRemoved_kind_idx < s.kinds.len()
            &&& s.kinds[h->RelationRemoved_kind_idx as int].on_remove is Some
            &&& list.contains(
                RelationPair {
                    kind_idx: h->RelationRemoved_kind_idx,
                    target: h->RelationRemoved_target,
                },
            )
        },
    decreases list.len(),
{
    let all = subject_hooks(s, e, list);
    if list.len() > 0 {
        let d = list.drop_last();
        let p = list.last();
        lemma_subject_hooks(s, e, d, h);
        let head = subject_hooks(s, e, d);
        let q = RelationPair {
            kind_idx: h->RelationRemoved_kind_idx,
            target: h->RelationRemoved_target,
        };
        assert(list.contains(q) <==> d.contains(q) || q == p) by {
            if d.contains(q) {
                let i = choose|i: int| 0 <= i < d.len() && d[i] == q;
                assert(list[i] == q);
            }
            if q == p {
                assert(list[list.len() - 1] == p);
            }
            if list.contains(q) && q != p {
                let i = choose|i: int| 0 <= i < list.len() && list[i] == q;
                assert(d[i] == q);
            }
        }
        if p.kind_idx < s.kinds.len() && s.kinds[p.kind_idx as int].on_remove is Some {
            let x = HookEvent::RelationRemoved { kind_idx: p.kind_idx, subject: e, target: p.target };
            assert(all == head.push(x));
            assert(head.push(x) =~= head + seq![x]);
            lemma_joined(head, seq![x], h);
            assert(seq![x].contains(h) <==> h == x) by {
                assert(seq![x][0] == x);
            }
        }
    }
}

/// Clearing an entity makes a hook due for each relation that it was part of, as subject or as
/// target, where the kind has one, and for no other.
pub proof fn law_clearing_tells_of_each_relation(
    s: GraphState,
    entities: AllocState,
    e: Entity,
    h: HookEvent,
)
    requires
        s.kinds.len() <= u32::MAX,
        s.siblings.dom() == Set::<(u32, u32)>::full(),
        s.pairs.dom() == Set::<u32>::full(),
        consistent(s, entities),
        alive(entities, e),
        listable(target_cleared(s, e, s.kinds.len()).pairs[e.index]),
        listable(s.pairs[e.index]),
    ensures
        ({
            let t = after_detach(s, e);
            let due = t.hooks.subrange(s.hooks.len() as int, t.hooks.len() as int);
            &&& s.hooks.len() <= t.hooks.len()
            &&& t.hooks.subrange(0, s.hooks.len() as int) == s.hooks
            &&& due.contains(h) <==> {
                &&& h is RelationRemoved
                &&& h->RelationRemoved_kind_idx < s.kinds.len()
                &&& s.kinds[h->RelationRemoved_kind_idx as int].on_remove is Some
                &&& (h->RelationRemoved_target == e && s.siblings[(
                    h->RelationRemoved_kind_idx,
                    e.index,
                )].contains(h->RelationRemoved_subject)) || (h->RelationRemoved_subject == e
                    && s.pairs[e.index].contains(
                    RelationPair {
                        kind_idx: h->RelationRemoved_kind_idx,
                        target: h->RelationRemoved_target,
                    },
                ))
            }
        }),
{
    law_detach(s, entities, e);
    let t = after_detach(s, e);
    let list = listing(s.pairs[e.index]);
    assert(lists(list, s.pairs[e.index]));
    let a = target_hooks(s, e, s.kinds.len());
    let b = subject_hooks(s, e, list);
    assert(t.hooks == s.hooks + a + b);
    assert(t.hooks.subrange(s.hooks.len() as int, t.hooks.len() as int) =~= a + b);
    assert(t.hooks.subrange(0, s.hooks.len() as int) =~= s.hooks);
    lemma_target_hooks(s, e, s.kinds.len(), h);
    lemma_subject_hooks(s, e, list, h);
    lemma_joined(a, b, h);
    if h is RelationRemoved {
        let q = RelationPair {
            kind_idx: h->RelationRemoved_kind_idx,
            target: h->RelationRemoved_target,
        };
        assert(list.contains(q) <==> s.pairs[e.index].contains(q));
    }
}

} // verus!
