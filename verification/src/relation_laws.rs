//! What holds of the relation graph across operations: the two indexes agree, exclusive kinds
//! have one target, hierarchies have no cycle, and sibling order is kept.

use vstd::prelude::*;
use crate::entity::{AllocState, Entity, after_free, alive};
use crate::pairs::{Triple, first_of, is_first};
use crate::relation_graph::{
    GraphState, after_add, closes_cycle, consistent, current, detached, edge_added, edge_removed,
    hierarchical, is_ancestor, is_exclusive, is_path, kind_rows, leads, lists_all_targets,
    live_slot, not_at, rows_of, sibling_moved, steps_to, target_rows, walk_blocks, with_sibling,
};
use crate::relation_index::{
    RelationPair, dropped, first_pair, has_pair_of_kind, is_target, keys_of, lists_targets, pair_of,
    place_of,
};
use crate::relations::MAX_ANCESTOR_WALK;

verus! {

pub proof fn lemma_place_of(s: Seq<Entity>, e: Entity)
    requires
        s.contains(e),
    ensures
        0 <= place_of(s, e) < s.len(),
        s[place_of(s, e)] == e,
    decreases s.len(),
{
    if s[0] != e {
        let i = choose|i: int| 0 <= i < s.len() && s[i] == e;
        assert(s.drop_first()[i - 1] == e);
        lemma_place_of(s.drop_first(), e);
    }
}

/// Taking a subject out of a list of distinct subjects takes out nothing else and keeps the order
/// of the rest.
pub proof fn law_drop_keeps_order(s: Seq<Entity>, e: Entity)
    requires
        s.no_duplicates(),
    ensures
        dropped(s, e) == s.filter(|x: Entity| x != e),
        dropped(s, e).no_duplicates(),
        !dropped(s, e).contains(e),
        forall|x: Entity| x != e ==> (#[trigger] dropped(s, e).contains(x) <==> s.contains(x)),
    decreases s.len(),
{
    reveal(Seq::filter);
    let f = |x: Entity| x != e;
    if s.contains(e) {
        lemma_place_of(s, e);
        let p = place_of(s, e);
        let d = dropped(s, e);
        assert forall|x: Entity| x != e implies (#[trigger] d.contains(x) <==> s.contains(x)) by {
            if s.contains(x) {
                let i = choose|i: int| 0 <= i < s.len() && s[i] == x;
                assert(d[if i < p { i } else { i - 1 }] == x);
            }
            if d.contains(x) {
                let i = choose|i: int| 0 <= i < d.len() && d[i] == x;
                assert(s[if i < p { i } else { i + 1 }] == x);
            }
        }
        assert(!d.contains(e)) by {
            if d.contains(e) {
                let i = choose|i: int| 0 <= i < d.len() && d[i] == e;
                assert(s[if i < p { i } else { i + 1 }] == e);
            }
        }
        assert forall|i: int, j: int| 0 <= i < d.len() && 0 <= j < d.len() && i != j implies d[i]
            != d[j] by {
            let a = if i < p { i } else { i + 1 };
            let b = if j < p { j } else { j + 1 };
            assert(s[a] != s[b]);
        }
        lemma_filter_without(s, e, p);
    } else {
        lemma_filter_all(s, e);
    }
}

proof fn lemma_filter_all(s: Seq<Entity>, e: Entity)
    requires
        !s.contains(e),
    ensures
        s.filter(|x: Entity| x != e) =~= s,
    decreases s.len(),
{
    reveal(Seq::filter);
    if s.len() > 0 {
        assert(!s.drop_last().contains(e)) by {
            if s.drop_last().contains(e) {
                let i = choose|i: int| 0 <= i < s.drop_last().len() && s.drop_last()[i] == e;
                assert(s[i] == e);
            }
        }
        lemma_filter_all(s.drop_last(), e);
        assert(s[s.len() - 1] != e);
        assert(s.drop_last().push(s.last()) =~= s);
    }
}

proof fn lemma_filter_without(s: Seq<Entity>, e: Entity, p: int)
    requires
        s.no_duplicates(),
        0 <= p < s.len(),
        s[p] == e,
    ensures
        s.filter(|x: Entity| x != e) =~= s.remove(p),
    decreases s.len(),
{
    reveal(Seq::filter);
    let f = |x: Entity| x != e;
    if p == s.len() - 1 {
        assert(!s.drop_last().contains(e)) by {
            if s.drop_last().contains(e) {
                let i = choose|i: int| 0 <= i < s.drop_last().len() && s.drop_last()[i] == e;
                assert(s[i] == e);
            }
        }
        lemma_filter_all(s.drop_last(), e);
        assert(s.remove(p) =~= s.drop_last());
    } else {
        assert(s.drop_last().no_duplicates());
        lemma_filter_without(s.drop_last(), e, p);
        assert(s[s.len() - 1] != e);
        assert(s.remove(p) =~= s.drop_last().remove(p).push(s.last()));
    }
}

proof fn lemma_with_sibling(s: Seq<Entity>, e: Entity, position: Option<usize>)
    requires
        s.no_duplicates(),
        !s.contains(e),
    ensures
        with_sibling(s, e, position).no_duplicates(),
        with_sibling(s, e, position).contains(e),
        forall|x: Entity|
            x != e ==> (#[trigger] with_sibling(s, e, position).contains(x) <==> s.contains(x)),
{
    let p = match position {
        None => s.len() as int,
        Some(i) => if i <= s.len() {
            i as int
        } else {
            s.len() as int
        },
    };
    let t = with_sibling(s, e, position);
    assert(t =~= s.insert(p, e));
    assert(t[p] == e);
    assert forall|x: Entity| x != e implies (#[trigger] t.contains(x) <==> s.contains(x)) by {
        if s.contains(x) {
            let i = choose|i: int| 0 <= i < s.len() && s[i] == x;
            assert(t[if i < p { i } else { i + 1 }] == x);
        }
        if t.contains(x) {
            let i = choose|i: int| 0 <= i < t.len() && t[i] == x;
            assert(s[if i < p { i } else { i - 1 }] == x);
        }
    }
    assert forall|i: int, j: int| 0 <= i < t.len() && 0 <= j < t.len() && i != j implies t[i]
        != t[j] by {
        let a = if i < p { i } else { i - 1 };
        let b = if j < p { j } else { j - 1 };
        if i != p {
            assert(s.contains(s[a]));
        }
        if j != p {
            assert(s.contains(s[b]));
        }
    }
}

/// Adding a relation between two live entities keeps the indexes in agreement.
pub proof fn law_edge_added_keeps_consistency(
    s: GraphState,
    entities: AllocState,
    subject: Entity,
    pair: RelationPair,
    position: Option<usize>,
)
    requires
        consistent(s, entities),
        s.pairs.dom() == Set::<u32>::full(),
        s.siblings.dom() == Set::<(u32, u32)>::full(),
        alive(entities, subject),
        alive(entities, pair.target),
        subject.index != pair.target.index,
        pair.kind_idx < s.kinds.len(),
    ensures
        consistent(edge_added(s, subject, pair, position), entities),
{
    let t = edge_added(s, subject, pair, position);
    if !s.pairs[subject.index].contains(pair) {
        let key = (pair.kind_idx, pair.target.index);
        assert(pair.target == current(entities, pair.target.index));
        assert(subject == current(entities, subject.index));
        assert(!s.siblings[key].contains(subject));
        lemma_with_sibling(s.siblings[key], subject, position);
        assert forall|i: u32, p: RelationPair| #[trigger] t.pairs[i].contains(p) implies {
            &&& live_slot(entities, i)
            &&& alive(entities, p.target)
            &&& p.target.index != i
            &&& p.kind_idx < t.kinds.len()
            &&& t.siblings[(p.kind_idx, p.target.index)].contains(current(entities, i))
        } by {
            if !(i == subject.index && p == pair) {
                assert(s.pairs[i].contains(p));
                assert(s.siblings[(p.kind_idx, p.target.index)].contains(current(entities, i)));
            }
        }
        assert forall|k: (u32, u32), e: Entity| #[trigger] t.siblings[k].contains(
            e,
        ) implies alive(entities, e) && t.pairs[e.index].contains(
            RelationPair { kind_idx: k.0, target: current(entities, k.1) },
        ) by {
            if k == key && e == subject {
            } else {
                assert(s.siblings[k].contains(e));
            }
        }
        assert forall|k: (u32, u32)| (#[trigger] t.siblings[k]).no_duplicates() by {
            assert(s.siblings[k].no_duplicates());
        }
    }
}

/// Removing a relation of a live subject keeps the indexes in agreement.
pub proof fn law_edge_removed_keeps_consistency(
    s: GraphState,
    entities: AllocState,
    subject: Entity,
    pair: RelationPair,
)
    requires
        consistent(s, entities),
        s.pairs.dom() == Set::<u32>::full(),
        s.siblings.dom() == Set::<(u32, u32)>::full(),
        alive(entities, subject),
    ensures
        consistent(edge_removed(s, subject, pair), entities),
{
    let t = edge_removed(s, subject, pair);
    if s.pairs[subject.index].contains(pair) {
        let key = (pair.kind_idx, pair.target.index);
        assert(subject == current(entities, subject.index));
        assert(pair.target == current(entities, pair.target.index));
        assert(s.siblings[key].no_duplicates());
        law_drop_keeps_order(s.siblings[key], subject);
        assert forall|i: u32, p: RelationPair| #[trigger] t.pairs[i].contains(p) implies {
            &&& live_slot(entities, i)
            &&& alive(entities, p.target)
            &&& p.target.index != i
            &&& p.kind_idx < t.kinds.len()
            &&& t.siblings[(p.kind_idx, p.target.index)].contains(current(entities, i))
        } by {
            assert(s.pairs[i].contains(p));
            assert(s.siblings[(p.kind_idx, p.target.index)].contains(current(entities, i)));
            if (p.kind_idx, p.target.index) == key {
                assert(p.target == current(entities, p.target.index));
                assert(p == pair);
                assert(current(entities, i) != subject);
            }
        }
        assert forall|k: (u32, u32), e: Entity| #[trigger] t.siblings[k].contains(
            e,
        ) implies alive(entities, e) && t.pairs[e.index].contains(
            RelationPair { kind_idx: k.0, target: current(entities, k.1) },
        ) by {
            assert(s.siblings[k].contains(e));
            if k == key {
                assert(e != subject);
                assert(e == current(entities, e.index));
            }
        }
        assert forall|k: (u32, u32)| (#[trigger] t.siblings[k]).no_duplicates() by {
            assert(s.siblings[k].no_duplicates());
        }
    }
}

/// Whatever becomes of a request to relate two entities, the indexes agree afterwards.
pub proof fn law_add_keeps_consistency(
    s: GraphState,
    entities: AllocState,
    subject: Entity,
    kind_idx: u32,
    target: Entity,
    position: Option<usize>,
)
    requires
        consistent(s, entities),
        s.pairs.dom() == Set::<u32>::full(),
        s.siblings.dom() == Set::<(u32, u32)>::full(),
        kind_idx < s.kinds.len(),
    ensures
        consistent(after_add(s, entities, subject, kind_idx, target, position), entities),
        after_add(s, entities, subject, kind_idx, target, position).pairs.dom() == Set::<
            u32,
        >::full(),
        after_add(s, entities, subject, kind_idx, target, position).siblings.dom() == Set::<
            (u32, u32),
        >::full(),
{
    let t = after_add(s, entities, subject, kind_idx, target, position);
    let pair = RelationPair { kind_idx, target };
    if alive(entities, subject) && alive(entities, target) && subject.index != target.index {
        law_edge_added_keeps_consistency(s, entities, subject, pair, position);
        if let Some(old) = first_pair(s.pairs[subject.index], kind_idx) {
            law_edge_removed_keeps_consistency(s, entities, subject, old);
            let m = edge_removed(s, subject, old);
            assert(m.pairs.dom() =~= Set::<u32>::full());
            assert(m.siblings.dom() =~= Set::<(u32, u32)>::full());
            law_edge_added_keeps_consistency(m, entities, subject, pair, position);
        }
    }
    assert(t.pairs.dom() =~= Set::<u32>::full());
    assert(t.siblings.dom() =~= Set::<(u32, u32)>::full());
}

/// Moving a subject among its siblings keeps the indexes in agreement and the set of siblings as
/// it was.
pub proof fn law_move_keeps_consistency(
    s: GraphState,
    entities: AllocState,
    kind_idx: u32,
    target: u32,
    subject: Entity,
    index: nat,
)
    requires
        consistent(s, entities),
        s.siblings.dom() == Set::<(u32, u32)>::full(),
        index <= usize::MAX,
    ensures
        consistent(sibling_moved(s, kind_idx, target, subject, index), entities),
        forall|x: Entity| #[trigger]
            sibling_moved(s, kind_idx, target, subject, index).siblings[(
                kind_idx,
                target,
            )].contains(x) <==> s.siblings[(kind_idx, target)].contains(x),
{
    let key = (kind_idx, target);
    let t = sibling_moved(s, kind_idx, target, subject, index);
    if s.siblings[key].contains(subject) {
        assert(s.siblings[key].no_duplicates());
        law_drop_keeps_order(s.siblings[key], subject);
        lemma_with_sibling(
            dropped(s.siblings[key], subject),
            subject,
            Some(index as usize),
        );
        assert(t.siblings[key] == with_sibling(
            dropped(s.siblings[key], subject),
            subject,
            Some(index as usize),
        ));
        assert forall|x: Entity| #[trigger] t.siblings[key].contains(x) <==> s.siblings[key].contains(
            x,
        ) by {}
        assert forall|i: u32, p: RelationPair| #[trigger] t.pairs[i].contains(p) implies {
            &&& live_slot(entities, i)
            &&& alive(entities, p.target)
            &&& p.target.index != i
            &&& p.kind_idx < t.kinds.len()
            &&& t.siblings[(p.kind_idx, p.target.index)].contains(current(entities, i))
        } by {
            assert(s.pairs[i].contains(p));
            assert(s.siblings[(p.kind_idx, p.target.index)].contains(current(entities, i)));
        }
        assert forall|k: (u32, u32), e: Entity| #[trigger] t.siblings[k].contains(
            e,
        ) implies alive(entities, e) && t.pairs[e.index].contains(
            RelationPair { kind_idx: k.0, target: current(entities, k.1) },
        ) by {
            assert(s.siblings[k].contains(e));
        }
        assert forall|k: (u32, u32)| (#[trigger] t.siblings[k]).no_duplicates() by {
            assert(s.siblings[k].no_duplicates());
        }
    }
}

/// No relation outlives its ends: once the relations of a live entity are cleared and it is
/// freed, the indexes agree and hold nothing of it.
pub proof fn law_detach_keeps_consistency(
    s: GraphState,
    entities: AllocState,
    e: Entity,
    t: GraphState,
)
    requires
        consistent(s, entities),
        alive(entities, e),
        entities.generations.len() == entities.locations.len(),
        detached(s, e, t),
    ensures
        consistent(t, after_free(entities, e)),
        forall|i: u32, p: RelationPair| #[trigger]
            t.pairs[i].contains(p) ==> i != e.index && p.target.index != e.index,
        forall|key: (u32, u32), x: Entity| #[trigger]
            t.siblings[key].contains(x) ==> key.1 != e.index && x.index != e.index,
{
    let after = after_free(entities, e);
    assert(e == current(entities, e.index));
    assert forall|i: u32, p: RelationPair| #[trigger] t.pairs[i].contains(p) implies {
        &&& i != e.index
        &&& p.target.index != e.index
        &&& live_slot(after, i)
        &&& alive(after, p.target)
        &&& p.target.index != i
        &&& p.kind_idx < t.kinds.len()
        &&& t.siblings[(p.kind_idx, p.target.index)].contains(current(after, i))
    } by {
        assert(i != e.index);
        assert(not_at(s.pairs[i], e).contains(p));
        assert(s.pairs[i].contains(p));
        let key = (p.kind_idx, p.target.index);
        assert(s.siblings[key].contains(current(entities, i)));
        assert(s.siblings[key].no_duplicates());
        law_drop_keeps_order(s.siblings[key], e);
        assert(p.target == current(entities, p.target.index));
        assert(p.target.index != e.index);
        assert(t.siblings[key] == dropped(s.siblings[key], e));
    }
    assert forall|key: (u32, u32), x: Entity| #[trigger] t.siblings[key].contains(x) implies {
        &&& key.1 != e.index
        &&& x.index != e.index
        &&& alive(after, x)
        &&& t.pairs[x.index].contains(
            RelationPair { kind_idx: key.0, target: current(after, key.1) },
        )
    } by {
        assert(t.siblings[key] == if key.1 == e.index {
            Seq::<Entity>::empty()
        } else {
            dropped(s.siblings[key], e)
        });
        assert(key.1 != e.index);
        assert(s.siblings[key].no_duplicates());
        law_drop_keeps_order(s.siblings[key], e);
        assert(x != e);
        assert(s.siblings[key].contains(x));
        assert(x == current(entities, x.index));
        let p = RelationPair { kind_idx: key.0, target: current(entities, key.1) };
        assert(s.pairs[x.index].contains(p));
        assert(p.target == current(entities, p.target.index));
        assert(not_at(s.pairs[x.index], e).contains(p));
    }
    assert forall|k: (u32, u32)| (#[trigger] t.siblings[k]).no_duplicates() by {
        assert(s.siblings[k].no_duplicates());
        law_drop_keeps_order(s.siblings[k], e);
    }
}

proof fn lemma_least_exists(s: Set<Triple>, kind: u32, t: Triple)
    requires
        s.contains(t),
        t.0 == kind,
    ensures
        exists|u: Triple| is_first(s, kind, u),
    decreases t.1, t.2,
{
    if !is_first(s, kind, t) {
        let u = choose|u: Triple| #[trigger]
            s.contains(u) && u.0 == kind && crate::pairs::precedes(u, t);
        lemma_least_exists(s, kind, u);
    }
}

/// The first relation of a kind is one of them, and there is one unless there is none.
pub proof fn law_first_pair(s: Set<RelationPair>, kind_idx: u32)
    ensures
        first_pair(s, kind_idx) is Some <==> has_pair_of_kind(s, kind_idx),
        first_pair(s, kind_idx) matches Some(p) ==> s.contains(p) && p.kind_idx == kind_idx,
{
    let keys = keys_of(s);
    if has_pair_of_kind(s, kind_idx) {
        let p = choose|p: RelationPair| #[trigger] s.contains(p) && p.kind_idx == kind_idx;
        assert(pair_of(p.spec_sort_key()) == p);
        assert(keys.contains(p.spec_sort_key()));
        lemma_least_exists(keys, kind_idx, p.spec_sort_key());
    }
    if let Some(t) = first_of(keys, kind_idx) {
        assert(exists|u: Triple| is_first(keys, kind_idx, u));
        let u = choose|u: Triple| is_first(keys, kind_idx, u);
        assert(is_first(keys, kind_idx, u));
        assert(t == u);
        assert(s.contains(pair_of(u)));
    }
}

/// Whether every subject has at most one target of each exclusive kind.
pub open spec fn one_target(s: GraphState) -> bool {
    forall|i: u32, p: RelationPair, q: RelationPair|
        #![trigger s.pairs[i].contains(p), s.pairs[i].contains(q)]
        s.pairs[i].contains(p) && s.pairs[i].contains(q) && p.kind_idx == q.kind_idx
            && is_exclusive(s, p.kind_idx) ==> p == q
}

/// Adding relations keeps exclusive kinds exclusive: a new target replaces the old one.
pub proof fn law_exclusive_kinds_have_one_target(
    s: GraphState,
    entities: AllocState,
    subject: Entity,
    kind_idx: u32,
    target: Entity,
    position: Option<usize>,
)
    requires
        one_target(s),
        s.pairs.dom() == Set::<u32>::full(),
    ensures
        one_target(after_add(s, entities, subject, kind_idx, target, position)),
{
    let t = after_add(s, entities, subject, kind_idx, target, position);
    law_first_pair(s.pairs[subject.index], kind_idx);
    let pair = RelationPair { kind_idx, target };
    assert forall|i: u32, p: RelationPair, q: RelationPair|
        #![trigger t.pairs[i].contains(p), t.pairs[i].contains(q)]
        t.pairs[i].contains(p) && t.pairs[i].contains(q) && p.kind_idx == q.kind_idx
            && is_exclusive(t, p.kind_idx) implies p == q by {
        if i != subject.index {
            assert(s.pairs[i].contains(p) && s.pairs[i].contains(q));
        } else {
            if p != pair {
                assert(s.pairs[i].contains(p));
            }
            if q != pair {
                assert(s.pairs[i].contains(q));
            }
            if p != q && kind_idx == p.kind_idx {
                let other = if p == pair { q } else { p };
                assert(s.pairs[i].contains(other));
                let old = first_pair(s.pairs[subject.index], kind_idx)->0;
                assert(s.pairs[i].contains(old));
            }
        }
    }
}

/// Whether no entity is its own ancestor along a kind.
pub open spec fn acyclic(pairs: Map<u32, Set<RelationPair>>, kind_idx: u32) -> bool {
    forall|i: u32, n: nat| n > 0 ==> !#[trigger] is_ancestor(pairs, kind_idx, i, i, n)
}

/// The first place from 1 on where `path` comes back to where it starts.
proof fn lemma_first_return(path: Seq<u32>, last: int) -> (m: int)
    requires
        0 < last < path.len(),
        path[last] == path[0],
    ensures
        0 < m <= last,
        path[m] == path[0],
        forall|k: int| 0 < k < m ==> #[trigger] path[k] != path[0],
    decreases last,
{
    if exists|k: int| 0 < k < last && #[trigger] path[k] == path[0] {
        let k = choose|k: int| 0 < k < last && #[trigger] path[k] == path[0];
        lemma_first_return(path, k)
    } else {
        last
    }
}

/// The cycle that starts at place `k` of a cycle.
proof fn lemma_turned(
    pairs: Map<u32, Set<RelationPair>>,
    kind_idx: u32,
    path: Seq<u32>,
    k: int,
) -> (turned: Seq<u32>)
    requires
        path.len() > 1,
        path[0] == path.last(),
        is_path(pairs, kind_idx, path),
        0 <= k < path.len() - 1,
    ensures
        turned.len() == path.len(),
        turned[0] == path[k],
        turned.last() == path[k],
        is_path(pairs, kind_idx, turned),
{
    let len = path.len() as int;
    let turned = path.subrange(k, len) + path.subrange(1, k + 1);
    assert forall|i: int, j: int| 0 <= i && j == i + 1 && j < turned.len() implies steps_to(
        pairs,
        kind_idx,
        #[trigger] turned[i],
        #[trigger] turned[j],
    ) by {
        if j < len - k {
            assert(steps_to(pairs, kind_idx, path[i + k], path[j + k]));
        } else if i == len - k - 1 {
            assert(turned[i] == path[len - 1]);
            assert(turned[j] == path[1]);
            assert(steps_to(pairs, kind_idx, path[0], path[1]));
        } else {
            let a = i - (len - k) + 1;
            assert(turned[i] == path[a]);
            assert(turned[j] == path[a + 1]);
            assert(steps_to(pairs, kind_idx, path[a], path[a + 1]));
        }
    }
    turned
}

/// Adding a relation never makes an entity its own ancestor where the kind is exclusive or
/// cascades: a hierarchy without cycles stays without cycles.
pub proof fn law_hierarchies_stay_acyclic(
    s: GraphState,
    entities: AllocState,
    subject: Entity,
    kind_idx: u32,
    target: Entity,
    position: Option<usize>,
)
    requires
        consistent(s, entities),
        s.pairs.dom() == Set::<u32>::full(),
        hierarchical(s, kind_idx),
        acyclic(s.pairs, kind_idx),
    ensures
        acyclic(
            after_add(s, entities, subject, kind_idx, target, position).pairs,
            kind_idx,
        ),
{
    let t = after_add(s, entities, subject, kind_idx, target, position);
    let pair = RelationPair { kind_idx, target };
    let a = subject.index;
    if t != s {
        assert forall|x: u32, p: RelationPair| #[trigger] t.pairs[x].contains(p) implies s.pairs[x].contains(
            p,
        ) || (x == a && p == pair) by {}
        assert forall|x: u32, y: u32| #[trigger] steps_to(t.pairs, kind_idx, x, y) implies steps_to(
            s.pairs,
            kind_idx,
            x,
            y,
        ) || (x == a && y == target.index) by {
            let p = choose|p: RelationPair| #[trigger]
                t.pairs[x].contains(p) && p.kind_idx == kind_idx && p.target.index == y;
            assert(s.pairs[x].contains(p) || (x == a && p == pair));
        }
        assert forall|i: u32, n: nat| n > 0 implies !#[trigger] is_ancestor(
            t.pairs,
            kind_idx,
            i,
            i,
            n,
        ) by {
            if is_ancestor(t.pairs, kind_idx, i, i, n) {
                let path = choose|path: Seq<u32>| leads(t.pairs, kind_idx, i, i, n, path);
                if forall|k: int| 0 <= k < path.len() - 1 ==> path[k] != a {
                    assert forall|k: int, l: int|
                        0 <= k && l == k + 1 && l < path.len() implies steps_to(
                        s.pairs,
                        kind_idx,
                        #[trigger] path[k],
                        #[trigger] path[l],
                    ) by {
                        assert(steps_to(t.pairs, kind_idx, path[k], path[l]));
                    }
                    assert(leads(s.pairs, kind_idx, i, i, n, path));
                    assert(is_ancestor(s.pairs, kind_idx, i, i, n));
                } else {
                    let k = choose|k: int| 0 <= k < path.len() - 1 && path[k] == a;
                    let turned = lemma_turned(t.pairs, kind_idx, path, k);
                    let m = lemma_first_return(turned, turned.len() - 1);
                    assert(steps_to(t.pairs, kind_idx, turned[0], turned[1]));
                    assert forall|k: int, l: int|
                        0 < k && l == k + 1 && l <= m implies #[trigger] steps_to(
                        s.pairs,
                        kind_idx,
                        turned[k],
                        turned[l],
                    ) by {
                        assert(steps_to(t.pairs, kind_idx, turned[k], turned[l]));
                        assert(turned[k] != turned[0]);
                    }
                    if steps_to(s.pairs, kind_idx, turned[0], turned[1]) {
                        let round = turned.subrange(0, m + 1);
                        assert forall|k: int, l: int|
                            0 <= k && l == k + 1 && l < round.len() implies steps_to(
                            s.pairs,
                            kind_idx,
                            #[trigger] round[k],
                            #[trigger] round[l],
                        ) by {
                            assert(round[k] == turned[k] && round[l] == turned[l]);
                            if k > 0 {
                                assert(steps_to(s.pairs, kind_idx, turned[k], turned[l]));
                            }
                        }
                        assert(leads(s.pairs, kind_idx, a, a, m as nat, round));
                        assert(is_ancestor(s.pairs, kind_idx, a, a, m as nat));
                    } else {
                        assert(turned[1] == target.index);
                        let up = turned.subrange(1, m + 1);
                        assert forall|k: int, l: int|
                            0 <= k && l == k + 1 && l < up.len() implies steps_to(
                            s.pairs,
                            kind_idx,
                            #[trigger] up[k],
                            #[trigger] up[l],
                        ) by {
                            assert(up[k] == turned[k + 1] && up[l] == turned[l + 1]);
                            assert(steps_to(s.pairs, kind_idx, turned[k + 1], turned[l + 1]));
                        }
                        assert(m > 1);
                        let r = (m - 1) as nat;
                        assert(leads(s.pairs, kind_idx, target.index, a, r, up));
                        assert(is_ancestor(s.pairs, kind_idx, target.index, a, r));
                        let most = MAX_ANCESTOR_WALK as nat + 1;
                        if r > most {
                            let cut = up.subrange(0, most as int + 1);
                            assert forall|k: int, l: int|
                                0 <= k && l == k + 1 && l < cut.len() implies steps_to(
                                s.pairs,
                                kind_idx,
                                #[trigger] cut[k],
                                #[trigger] cut[l],
                            ) by {
                                assert(cut[k] == up[k] && cut[l] == up[l]);
                                assert(steps_to(s.pairs, kind_idx, up[k], up[l]));
                            }
                            assert(leads(
                                s.pairs,
                                kind_idx,
                                target.index,
                                cut.last(),
                                most,
                                cut,
                            ));
                            assert(is_ancestor(
                                s.pairs,
                                kind_idx,
                                target.index,
                                cut.last(),
                                most,
                            ));
                        }
                        assert(walk_blocks(
                            s.pairs,
                            kind_idx,
                            target.index,
                            a,
                            MAX_ANCESTOR_WALK as nat,
                        ));
                        let x = turned[m - 1];
                        assert(steps_to(s.pairs, kind_idx, turned[m - 1], turned[m]));
                        let p = choose|p: RelationPair| #[trigger]
                            s.pairs[x].contains(p) && p.kind_idx == kind_idx && p.target.index == a;
                        assert(s.siblings[(p.kind_idx, a)].contains(current(entities, x)));
                        assert(s.siblings[(p.kind_idx, a)].len() > 0);
                        assert(is_target(s.siblings, a));
                        assert(closes_cycle(s, subject, kind_idx, target));
                    }
                }
            }
        }
    }
}

/// The subjects that `rows` lists for a kind and target, in order.
pub open spec fn subjects_in(rows: Seq<(Entity, u32, u32)>, kind_idx: u32, target: u32) -> Seq<
    Entity,
>
    decreases rows.len(),
{
    if rows.len() == 0 {
        Seq::empty()
    } else {
        let head = subjects_in(rows.drop_last(), kind_idx, target);
        if rows.last().1 == kind_idx && rows.last().2 == target {
            head.push(rows.last().0)
        } else {
            head
        }
    }
}

proof fn lemma_subjects_in_concat(
    a: Seq<(Entity, u32, u32)>,
    b: Seq<(Entity, u32, u32)>,
    kind_idx: u32,
    target: u32,
)
    ensures
        subjects_in(a + b, kind_idx, target) == subjects_in(a, kind_idx, target) + subjects_in(
            b,
            kind_idx,
            target,
        ),
    decreases b.len(),
{
    if b.len() == 0 {
        assert(a + b =~= a);
        assert(subjects_in(a, kind_idx, target) + Seq::<Entity>::empty() =~= subjects_in(
            a,
            kind_idx,
            target,
        ));
    } else {
        assert((a + b).drop_last() =~= a + b.drop_last());
        lemma_subjects_in_concat(a, b.drop_last(), kind_idx, target);
        assert(subjects_in(a + b, kind_idx, target) =~= subjects_in(a, kind_idx, target)
            + subjects_in(b, kind_idx, target));
    }
}

proof fn lemma_subjects_in_rows(
    subjects: Seq<Entity>,
    k: u32,
    t: u32,
    kind_idx: u32,
    target: u32,
)
    ensures
        subjects_in(rows_of(k, t, subjects), kind_idx, target) == if k == kind_idx && t == target {
            subjects
        } else {
            Seq::empty()
        },
    decreases subjects.len(),
{
    if subjects.len() > 0 {
        lemma_subjects_in_rows(subjects.drop_last(), k, t, kind_idx, target);
        assert(rows_of(k, t, subjects).drop_last() =~= rows_of(k, t, subjects.drop_last()));
        assert(subjects.drop_last().push(subjects.last()) =~= subjects);
    } else {
        assert(subjects =~= Seq::<Entity>::empty());
    }
}

proof fn lemma_subjects_in_targets(
    m: Map<(u32, u32), Seq<Entity>>,
    k: u32,
    targets: Seq<u32>,
    kind_idx: u32,
    target: u32,
)
    requires
        forall|a: int, b: int|
            0 <= a < b < targets.len() ==> #[trigger] targets[a] < #[trigger] targets[b],
    ensures
        subjects_in(target_rows(m, k, targets), kind_idx, target) == if k == kind_idx
            && targets.contains(target) {
            m[(k, target)]
        } else {
            Seq::empty()
        },
    decreases targets.len(),
{
    if targets.len() > 0 {
        let head = targets.drop_last();
        let last = targets.last();
        assert forall|a: int, b: int| 0 <= a < b < head.len() implies #[trigger] head[a]
            < #[trigger] head[b] by {
            assert(targets[a] < targets[b]);
        }
        lemma_subjects_in_targets(m, k, head, kind_idx, target);
        lemma_subjects_in_rows(m[(k, last)], k, last, kind_idx, target);
        lemma_subjects_in_concat(
            target_rows(m, k, head),
            rows_of(k, last, m[(k, last)]),
            kind_idx,
            target,
        );
        if targets.contains(target) {
            let i = choose|i: int| 0 <= i < targets.len() && targets[i] == target;
            if i < head.len() {
                assert(head[i] == target);
                assert(targets[i] < targets[targets.len() - 1]);
            }
        }
        if head.contains(target) {
            let i = choose|i: int| 0 <= i < head.len() && head[i] == target;
            assert(targets[i] == target);
            assert(targets[i] < targets[targets.len() - 1]);
        }
        if last == target {
            assert(targets[targets.len() - 1] == target);
        }
        assert(Seq::<Entity>::empty() + m[(k, target)] =~= m[(k, target)]);
        assert(m[(k, target)] + Seq::<Entity>::empty() =~= m[(k, target)]);
        assert(Seq::<Entity>::empty() + Seq::<Entity>::empty() =~= Seq::<Entity>::empty());
    }
}

/// A target-major listing carries sibling order: for every kind and target it names the subjects
/// in exactly their order, so adding the rows one after the other to an empty graph restores
/// every sibling list.
pub proof fn law_listing_restores_sibling_order(
    m: Map<(u32, u32), Seq<Entity>>,
    kinds: nat,
    targets: Seq<Seq<u32>>,
    kind_idx: u32,
    target: u32,
)
    requires
        lists_all_targets(m, kinds, targets),
        kinds <= u32::MAX,
    ensures
        kind_idx < kinds ==> subjects_in(kind_rows(m, targets), kind_idx, target) == m[(
            kind_idx,
            target,
        )],
        kind_idx >= kinds ==> subjects_in(kind_rows(m, targets), kind_idx, target).len() == 0,
    decreases kinds,
{
    if kinds > 0 {
        let head = targets.drop_last();
        let k = (kinds - 1) as u32;
        assert forall|i: int| 0 <= i < kinds - 1 implies lists_targets(
            m,
            i as u32,
            #[trigger] head[i],
        ) by {
            assert(head[i] == targets[i]);
        }
        law_listing_restores_sibling_order(m, (kinds - 1) as nat, head, kind_idx, target);
        assert(lists_targets(m, k, targets[kinds - 1]));
        lemma_subjects_in_targets(m, k, targets.last(), kind_idx, target);
        lemma_subjects_in_concat(
            kind_rows(m, head),
            target_rows(m, k, targets.last()),
            kind_idx,
            target,
        );
        assert(Seq::<Entity>::empty() + m[(kind_idx, target)] =~= m[(kind_idx, target)]);
        assert(m[(kind_idx, target)] + Seq::<Entity>::empty() =~= m[(kind_idx, target)]);
        if kind_idx == k {
            assert(subjects_in(kind_rows(m, head), kind_idx, target) =~= Seq::<Entity>::empty());
            if !targets.last().contains(target) {
                assert(m[(k, target)] =~= Seq::<Entity>::empty());
            }
        }
    }
}

} // verus!
