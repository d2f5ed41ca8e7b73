//! What holds of every dynamic query.

use vstd::prelude::*;
use crate::archetype::ArchState;
use crate::dyn_query::{
    DynState, TermsState, dyn_entity, dyn_hits, dyn_hits_from, dyn_rows_from, dyn_state,
    RelationFilter, TermUse, first_repeated, lemma_suited, no_terms, places_ok, relations_hold,
    suited_upto, terms_suit, with_named, with_relation_term, with_term,
};
use crate::component::{INVALID_ID, Tick};
use crate::entity::{Entity, alive, location_of};
use crate::query::{QueryState, hits_from, rows_from};
use crate::query_laws::{before, lemma_matches_fit, lemma_row_of};
use crate::registry::{InfoView, first_full, infos_wf};
use crate::relation_graph::has_relation_to;
use crate::relation_index::{RelationPair, has_pair_of_kind};
use crate::relations::{KindInfo, lemma_kind_index};
use crate::shape::Shape;
use crate::storage::{CellState, cell_at};
use crate::world::{World, WorldState, row_cells};

verus! {

/// Whether components are as the terms ask for.
pub open spec fn terms_take(t: TermsState, m: Map<u32, CellState>) -> bool {
    &&& forall|i: int| 0 <= i < t.reads.len() ==> m.contains_key(#[trigger] t.reads[i])
    &&& forall|i: int| 0 <= i < t.writes.len() ==> m.contains_key(#[trigger] t.writes[i])
    &&& forall|i: int| 0 <= i < t.withs.len() ==> m.contains_key(#[trigger] t.withs[i])
    &&& forall|i: int| 0 <= i < t.excludes.len() ==> !m.contains_key(#[trigger] t.excludes[i])
}

/// Terms take an archetype by its components.
proof fn lemma_terms(t: TermsState, a: ArchState, row: int)
    ensures
        terms_suit(t, a) == terms_take(t, row_cells(a, row)),
{
    let m = row_cells(a, row);
    assert forall|c: u32| #[trigger] m.contains_key(c) <==> a.ids.contains(c) by {
        assert(cell_at(a, row, c) is Some <==> a.ids.contains(c));
    }
    if terms_take(t, m) {
        assert forall|i: int| 0 <= i < t.reads.len() implies a.ids.contains(
            #[trigger] t.reads[i],
        ) by {
            assert(m.contains_key(t.reads[i]));
        }
        assert forall|i: int| 0 <= i < t.writes.len() implies a.ids.contains(
            #[trigger] t.writes[i],
        ) by {
            assert(m.contains_key(t.writes[i]));
        }
        assert forall|i: int| 0 <= i < t.withs.len() implies a.ids.contains(
            #[trigger] t.withs[i],
        ) by {
            assert(m.contains_key(t.withs[i]));
        }
        assert forall|i: int| 0 <= i < t.excludes.len() implies !a.ids.contains(
            #[trigger] t.excludes[i],
        ) by {
            assert(!m.contains_key(t.excludes[i]));
        }
    }
}

pub(crate) proof fn lemma_suited_has(t: TermsState, archetypes: Seq<ArchState>, n: nat, p: usize)
    requires
        n <= archetypes.len() <= usize::MAX,
    ensures
        suited_upto(t, archetypes, n).contains(p) <==> p < n && terms_suit(
            t,
            archetypes[p as int],
        ),
    decreases n,
{
    if n > 0 {
        lemma_suited_has(t, archetypes, (n - 1) as nat, p);
        let head = suited_upto(t, archetypes, (n - 1) as nat);
        let all = suited_upto(t, archetypes, n);
        if terms_suit(t, archetypes[n - 1]) {
            assert(all[head.len() as int] == (n - 1) as usize);
            if head.contains(p) {
                let k = choose|k: int| 0 <= k < head.len() && head[k] == p;
                assert(all[k] == p);
            }
        }
    }
}

proof fn lemma_dyn_rows(q: DynState, place: usize, row: int, p: usize, r: usize)
    requires
        0 <= row,
        q.archetypes[place as int].entities.len() <= usize::MAX,
    ensures
        dyn_rows_from(q, place, row).contains((p, r)) <==> p == place && row <= r
            < q.archetypes[place as int].entities.len() && relations_hold(
            q.world,
            q.relations,
            q.archetypes[place as int].entities[r as int],
        ),
    decreases q.archetypes[place as int].entities.len() - row,
{
    let es = q.archetypes[place as int].entities;
    if row < es.len() {
        lemma_dyn_rows(q, place, row + 1, p, r);
        let tail = dyn_rows_from(q, place, row + 1);
        let all = dyn_rows_from(q, place, row);
        if relations_hold(q.world, q.relations, es[row]) {
            assert(all == seq![(place, row as usize)] + tail);
            assert(all[0] == (place, row as usize));
            if tail.contains((p, r)) {
                let i = choose|i: int| 0 <= i < tail.len() && tail[i] == (p, r);
                assert(all[i + 1] == (p, r));
            }
            if all.contains((p, r)) {
                let i = choose|i: int| 0 <= i < all.len() && all[i] == (p, r);
                if i > 0 {
                    assert(tail[i - 1] == (p, r));
                }
            }
        }
    }
}

proof fn lemma_dyn_hits(q: DynState, k: nat, p: usize, r: usize)
    requires
        forall|i: int|
            0 <= i < q.places.len() ==> q.archetypes[(#[trigger] q.places[i]) as int].entities.len()
                <= usize::MAX,
    ensures
        dyn_hits_from(q, k).contains((p, r)) <==> (exists|i: int|
            k <= i < q.places.len() && #[trigger] q.places[i] == p) && r
            < q.archetypes[p as int].entities.len() && relations_hold(
            q.world,
            q.relations,
            q.archetypes[p as int].entities[r as int],
        ),
    decreases q.places.len() - k,
{
    if k < q.places.len() {
        lemma_dyn_hits(q, k + 1, p, r);
        let here = q.places[k as int];
        let a = dyn_rows_from(q, here, 0);
        let b = dyn_hits_from(q, k + 1);
        let all = dyn_hits_from(q, k);
        assert(all == a + b);
        assert(q.archetypes[q.places[k as int] as int].entities.len() <= usize::MAX);
        lemma_dyn_rows(q, here, 0, p, r);
        if a.contains((p, r)) {
            let i = choose|i: int| 0 <= i < a.len() && a[i] == (p, r);
            assert(all[i] == (p, r));
            assert(q.places[k as int] == p);
        }
        if b.contains((p, r)) {
            let i = choose|i: int| 0 <= i < b.len() && b[i] == (p, r);
            assert(all[i + a.len()] == (p, r));
        }
        if all.contains((p, r)) {
            let i = choose|i: int| 0 <= i < all.len() && all[i] == (p, r);
            if i < a.len() {
                assert(a[i] == (p, r));
            } else {
                assert(b[i - a.len()] == (p, r));
            }
        }
        if (exists|i: int| k <= i < q.places.len() && #[trigger] q.places[i] == p) {
            let i = choose|i: int| k <= i < q.places.len() && #[trigger] q.places[i] == p;
            if i > k {
                assert(k + 1 <= i && q.places[i] == p);
            }
        }
    }
}

/// Whether the match at `i` is `e`.
pub open spec fn dyn_matched_at(q: DynState, e: Entity, i: int) -> bool {
    0 <= i < dyn_hits(q).len() && dyn_entity(q, dyn_hits(q)[i]) == e
}

/// A dynamic query takes exactly the live entities whose components and relations are as its terms
/// ask for.
pub proof fn law_dyn_query_takes_what_is_asked_for(w: World, t: TermsState, e: Entity)
    requires
        w.wf(),
        t.unknown is None,
        !t.impossible,
    ensures
        (exists|i: int| dyn_matched_at(dyn_state(w, t), e, i)) <==> w@.values.contains_key(e)
            && terms_take(t, w@.values[e]) && relations_hold(w@, t.relations, e),
{
    w.lemma_store();
    let st = w.store();
    let infos = w@.registry.infos;
    let q = dyn_state(w, t);
    let n = st.archetypes.len();
    assert forall|i: int| 0 <= i < q.places.len() implies q.archetypes[(
    #[trigger] q.places[i]) as int].entities.len() <= usize::MAX by {
        assert(q.places.contains(q.places[i]));
        lemma_suited_has(t, st.archetypes, n, q.places[i]);
        crate::storage::lemma_rows_fit(st, infos, q.places[i] as int);
    }
    if (exists|i: int| dyn_matched_at(q, e, i)) {
        let i = choose|i: int| dyn_matched_at(q, e, i);
        let (p, r) = dyn_hits(q)[i];
        assert(dyn_hits(q).contains((p, r)));
        lemma_dyn_hits(q, 0, p, r);
        let k = choose|k: int| 0 <= k < q.places.len() && #[trigger] q.places[k] == p;
        assert(q.places.contains(p));
        lemma_suited_has(t, st.archetypes, n, p);
        lemma_row_of(st, infos, p as int, r as int);
        lemma_terms(t, st.archetypes[p as int], r as int);
    }
    if w@.values.contains_key(e) && terms_take(t, w@.values[e]) && relations_hold(
        w@,
        t.relations,
        e,
    ) {
        let loc = location_of(st.entities, e)->0;
        let p = loc.archetype_id.0 as usize;
        let r = loc.row as usize;
        assert(p < n && r < st.archetypes[p as int].entities.len());
        assert(st.archetypes[p as int].entities[r as int] == e);
        lemma_row_of(st, infos, p as int, r as int);
        lemma_terms(t, st.archetypes[p as int], r as int);
        lemma_suited_has(t, st.archetypes, n, p);
        let k = choose|k: int| 0 <= k < q.places.len() && q.places[k] == p;
        assert(0 <= k && q.places[k] == p);
        lemma_dyn_hits(q, 0, p, r);
        let i = choose|i: int| 0 <= i < dyn_hits(q).len() && dyn_hits(q)[i] == (p, r);
        assert(dyn_matched_at(q, e, i));
    }
}

/// Whether an entity has a relation of a kind, to one target or to any.
pub open spec fn is_related(w: WorldState, e: Entity, kind_idx: u32, target: Option<Entity>) -> bool {
    exists|t: Entity|
        (target is None || target == Some(t)) && #[trigger] w.relations.pairs[e.index].contains(
            RelationPair { kind_idx, target: t },
        )
}

/// Every relation term counts: an entity that a dynamic query takes is related as each of its
/// terms says, wherever the term stands, and is not where the term asks for absence. And an entity
/// that has the components is taken where all terms are met.
pub proof fn law_dyn_query_heeds_every_relation(w: World, t: TermsState, e: Entity)
    requires
        w.wf(),
        t.unknown is None,
        !t.impossible,
    ensures
        (exists|i: int| dyn_matched_at(dyn_state(w, t), e, i)) <==> {
            &&& w@.values.contains_key(e)
            &&& forall|c: u32|
                t.reads.contains(c) || t.writes.contains(c) || t.withs.contains(c)
                    ==> #[trigger] w@.values[e].contains_key(c)
            &&& forall|c: u32| t.excludes.contains(c) ==> !#[trigger] w@.values[e].contains_key(c)
            &&& forall|i: int|
                0 <= i < t.relations.len() ==> is_related(
                    w@,
                    e,
                    (#[trigger] t.relations[i]).kind_idx,
                    t.relations[i].target,
                ) == !t.relations[i].negate
        },
{
    law_dyn_query_takes_what_is_asked_for(w, t, e);
    let m = w@.values[e];
    if w@.values.contains_key(e) {
        w.lemma_wf();
        assert forall|i: int| 0 <= i < t.relations.len() implies has_relation_to(
            w@.relations,
            w@.entities,
            e,
            (#[trigger] t.relations[i]).kind_idx,
            t.relations[i].target,
        ) == is_related(w@, e, t.relations[i].kind_idx, t.relations[i].target) by {
            lemma_is_related(w@, e, t.relations[i].kind_idx, t.relations[i].target);
        }
        if terms_take(t, m) {
            assert forall|c: u32|
                t.reads.contains(c) || t.writes.contains(c) || t.withs.contains(
                    c,
                ) implies #[trigger] m.contains_key(c) by {
                if t.reads.contains(c) {
                    let i = choose|i: int| 0 <= i < t.reads.len() && t.reads[i] == c;
                    assert(m.contains_key(t.reads[i]));
                } else if t.writes.contains(c) {
                    let i = choose|i: int| 0 <= i < t.writes.len() && t.writes[i] == c;
                    assert(m.contains_key(t.writes[i]));
                } else {
                    let i = choose|i: int| 0 <= i < t.withs.len() && t.withs[i] == c;
                    assert(m.contains_key(t.withs[i]));
                }
            }
            assert forall|c: u32| t.excludes.contains(c) implies !#[trigger] m.contains_key(c) by {
                let i = choose|i: int| 0 <= i < t.excludes.len() && t.excludes[i] == c;
                assert(!m.contains_key(t.excludes[i]));
            }
        } else if forall|c: u32|
            t.reads.contains(c) || t.writes.contains(c) || t.withs.contains(c)
                ==> #[trigger] m.contains_key(c) {
            assert forall|i: int| 0 <= i < t.reads.len() implies m.contains_key(
                #[trigger] t.reads[i],
            ) by {
                assert(t.reads.contains(t.reads[i]));
            }
            assert forall|i: int| 0 <= i < t.writes.len() implies m.contains_key(
                #[trigger] t.writes[i],
            ) by {
                assert(t.writes.contains(t.writes[i]));
            }
            assert forall|i: int| 0 <= i < t.withs.len() implies m.contains_key(
                #[trigger] t.withs[i],
            ) by {
                assert(t.withs.contains(t.withs[i]));
            }
            let i = choose|i: int|
                0 <= i < t.excludes.len() && m.contains_key(#[trigger] t.excludes[i]);
            assert(t.excludes.contains(t.excludes[i]));
        }
    }
}

proof fn lemma_is_related(w: WorldState, e: Entity, kind_idx: u32, target: Option<Entity>)
    requires
        alive(w.entities, e),
    ensures
        has_relation_to(w.relations, w.entities, e, kind_idx, target) == is_related(
            w,
            e,
            kind_idx,
            target,
        ),
{
    let pairs = w.relations.pairs[e.index];
    match target {
        Some(t) => {
            if pairs.contains(RelationPair { kind_idx, target: t }) {
                assert(target == Some(t));
            }
        },
        None => {
            if has_pair_of_kind(pairs, kind_idx) {
                let p = choose|p: RelationPair| #[trigger] pairs.contains(p) && p.kind_idx
                    == kind_idx;
                assert(p == RelationPair { kind_idx, target: p.target });
                assert(pairs.contains(RelationPair { kind_idx, target: p.target }));
            }
            if is_related(w, e, kind_idx, target) {
                let t = choose|t: Entity|
                    (target is None || target == Some(t))
                        && #[trigger] w.relations.pairs[e.index].contains(
                        RelationPair { kind_idx, target: t },
                    );
                assert(pairs.contains(RelationPair { kind_idx, target: t }));
            }
        },
    }
}

/// One more relation term takes exactly those taken before that also meet it.
pub proof fn law_one_more_relation_narrows(
    w: World,
    t: TermsState,
    kind: KindInfo,
    target: Option<Entity>,
    negate: bool,
    e: Entity,
)
    requires
        w.wf(),
        t.unknown is None,
        !t.impossible,
        w@.relations.kinds.contains(kind),
    ensures
        ({
            let more = with_relation_term(t, w@.relations.kinds, kind.key, target, negate);
            (exists|i: int| dyn_matched_at(dyn_state(w, more), e, i)) <==> (exists|i: int|
                dyn_matched_at(dyn_state(w, t), e, i)) && is_related(
                w@,
                e,
                w@.relations.kinds.index_of(kind) as u32,
                target,
            ) == !negate
        }),
{
    w.lemma_wf();
    let kinds = w@.relations.kinds;
    let more = with_relation_term(t, kinds, kind.key, target, negate);
    let k = kinds.index_of(kind);
    assert(0 <= k < kinds.len() && kinds[k] == kind);
    lemma_kind_index(kinds, k);
    let r = RelationFilter { kind_idx: k as u32, target, negate };
    assert(more.relations == t.relations.push(r));
    law_dyn_query_heeds_every_relation(w, t, e);
    law_dyn_query_heeds_every_relation(w, more, e);
    if (exists|i: int| dyn_matched_at(dyn_state(w, more), e, i)) {
        assert forall|i: int| 0 <= i < t.relations.len() implies is_related(
            w@,
            e,
            (#[trigger] t.relations[i]).kind_idx,
            t.relations[i].target,
        ) == !t.relations[i].negate by {
            assert(more.relations[i] == t.relations[i]);
        }
        assert(more.relations[t.relations.len() as int] == r);
    }
}

/// Whether a dynamic query with the given terms yields an entity.
pub open spec fn dyn_finds(w: World, t: TermsState, e: Entity) -> bool {
    exists|i: int| dyn_matched_at(dyn_state(w, t), e, i)
}

/// A query without terms finds every live entity.
pub proof fn law_no_terms_find_everyone(w: World, e: Entity)
    requires
        w.wf(),
    ensures
        dyn_finds(w, no_terms(), e) <==> w@.values.contains_key(e),
{
    law_dyn_query_heeds_every_relation(w, no_terms(), e);
}

proof fn lemma_pushed(s: Seq<u32>, id: u32, c: u32)
    ensures
        s.push(id).contains(c) <==> s.contains(c) || c == id,
{
    if s.contains(c) {
        let i = choose|i: int| 0 <= i < s.len() && s[i] == c;
        assert(s.push(id)[i] == c);
    }
    if c == id {
        assert(s.push(id)[s.len() as int] == c);
    }
}

/// One more component term takes exactly those taken before that have the component, or that lack
/// it where it is excluded. What is asked for is remembered in the order of asking.
pub proof fn law_one_more_component_narrows(
    w: World,
    t: TermsState,
    to: TermUse,
    id: u32,
    e: Entity,
)
    requires
        w.wf(),
        t.unknown is None,
        !t.impossible,
    ensures
        ({
            let more = with_term(t, to, id);
            &&& dyn_finds(w, more, e) <==> dyn_finds(w, t, e) && (w@.values[e].contains_key(id)
                <==> !(to is Exclude))
            &&& more.reads == if to is Read {
                t.reads.push(id)
            } else {
                t.reads
            }
            &&& more.writes == if to is Write {
                t.writes.push(id)
            } else {
                t.writes
            }
            &&& more.unknown == t.unknown
            &&& more.impossible == t.impossible
            &&& more.relations == t.relations
        }),
{
    let more = with_term(t, to, id);
    law_dyn_query_heeds_every_relation(w, t, e);
    law_dyn_query_heeds_every_relation(w, more, e);
    let m = w@.values[e];
    assert forall|c: u32|
        (more.reads.contains(c) || more.writes.contains(c) || more.withs.contains(c)) <==> (
        t.reads.contains(c) || t.writes.contains(c) || t.withs.contains(c) || (c == id && !(
        to is Exclude))) by {
        lemma_pushed(t.reads, id, c);
        lemma_pushed(t.writes, id, c);
        lemma_pushed(t.withs, id, c);
    }
    assert forall|c: u32| #[trigger]
        more.excludes.contains(c) <==> t.excludes.contains(c) || (c == id && to is Exclude) by {
        lemma_pushed(t.excludes, id, c);
    }
    if dyn_finds(w, more, e) {
        assert forall|c: u32|
            t.reads.contains(c) || t.writes.contains(c) || t.withs.contains(
                c,
            ) implies #[trigger] m.contains_key(c) by {
            assert(more.reads.contains(c) || more.writes.contains(c) || more.withs.contains(c));
        }
        assert forall|c: u32| t.excludes.contains(c) implies !#[trigger] m.contains_key(c) by {
            assert(more.excludes.contains(c));
        }
        if to is Exclude {
            assert(more.excludes.contains(id));
        } else {
            assert(more.reads.contains(id) || more.writes.contains(id) || more.withs.contains(id));
        }
    }
    if dyn_finds(w, t, e) && (m.contains_key(id) <==> !(to is Exclude)) {
        assert forall|c: u32|
            more.reads.contains(c) || more.writes.contains(c) || more.withs.contains(
                c,
            ) implies #[trigger] m.contains_key(c) by {
        }
        assert forall|c: u32| more.excludes.contains(c) implies !#[trigger] m.contains_key(c) by {
        }
    }
}

/// A name stands for the type with that full name, of several for the one that was registered
/// first. A name that no type has is remembered, the first one where there are several.
pub proof fn law_names_stand_for_types(
    t: TermsState,
    to: TermUse,
    infos: Seq<InfoView>,
    name: Seq<char>,
)
    requires
        infos_wf(infos),
    ensures
        forall|i: int|
            0 <= i < infos.len() && (#[trigger] infos[i]).name == name && (forall|j: int|
                0 <= j < i ==> (#[trigger] infos[j]).name != name) ==> with_named(t, to, infos, name)
                == with_term(t, to, i as u32),
        (forall|i: int| 0 <= i < infos.len() ==> (#[trigger] infos[i]).name != name) ==> {
            let u = with_named(t, to, infos, name);
            &&& u == TermsState { unknown: u.unknown, ..t }
            &&& u.unknown == if t.unknown is Some {
                t.unknown
            } else {
                Some(name)
            }
        },
{
    lemma_first_full(infos, name, 0);
    assert forall|i: int|
        0 <= i < infos.len() && (#[trigger] infos[i]).name == name && (forall|j: int|
            0 <= j < i ==> (#[trigger] infos[j]).name != name) implies with_named(
        t,
        to,
        infos,
        name,
    ) == with_term(t, to, i as u32) by {
        let f = first_full(infos, name, 0);
        assert(f <= i);
        if f < i {
            assert(infos[f as int].name != name);
        }
    }
}

proof fn lemma_first_full(infos: Seq<InfoView>, name: Seq<char>, from: nat)
    requires
        from <= infos.len(),
    ensures
        from <= first_full(infos, name, from) <= infos.len(),
        first_full(infos, name, from) < infos.len() ==> infos[first_full(
            infos,
            name,
            from,
        ) as int].name == name,
        forall|j: int|
            from <= j < first_full(infos, name, from) ==> (#[trigger] infos[j]).name != name,
    decreases infos.len() - from,
{
    if from < infos.len() && infos[from as int].name != name {
        lemma_first_full(infos, name, from + 1);
    }
}

/// A relation of a kind that nobody registered is one that nobody has: who asks for it finds
/// nothing, who asks for its absence loses nothing.
pub proof fn law_nobody_has_an_unknown_relation(
    w: World,
    t: TermsState,
    key: u64,
    target: Option<Entity>,
    negate: bool,
    e: Entity,
)
    requires
        forall|i: int|
            0 <= i < w@.relations.kinds.len() ==> (#[trigger] w@.relations.kinds[i]).key != key,
    ensures
        dyn_finds(w, with_relation_term(t, w@.relations.kinds, key, target, negate), e) <==> negate
            && dyn_finds(w, t, e),
{
    let more = with_relation_term(t, w@.relations.kinds, key, target, negate);
    if !negate {
        assert(dyn_hits(dyn_state(w, more)).len() == 0);
    }
}

/// A write that is refused as repeated is repeated: the component stands again further on.
pub proof fn law_refused_writes_are_repeated(writes: Seq<u32>, k: nat)
    requires
        k <= writes.len(),
        first_repeated(writes, k) < writes.len(),
    ensures
        ({
            let i = first_repeated(writes, k) as int;
            &&& k <= i
            &&& writes[i] != INVALID_ID
            &&& exists|j: int| i < j < writes.len() && #[trigger] writes[j] == writes[i]
        }),
    decreases writes.len() - k,
{
    let rest = writes.subrange(k as int + 1, writes.len() as int);
    if writes[k as int] != INVALID_ID && rest.contains(writes[k as int]) {
        let j = choose|j: int| 0 <= j < rest.len() && rest[j] == writes[k as int];
        assert(writes[j + k + 1] == writes[k as int]);
    } else {
        law_refused_writes_are_repeated(writes, k + 1);
    }
}

/// A query that asks for a relation of a kind that is not registered, or by a name that no type
/// has, takes nothing.
pub proof fn law_impossible_queries_take_nothing(w: World, t: TermsState)
    requires
        t.unknown is Some || t.impossible,
    ensures
        dyn_hits(dyn_state(w, t)).len() == 0,
{
}

proof fn lemma_first_repeated(writes: Seq<u32>, k: nat, i: int, j: int)
    requires
        k <= i < j < writes.len(),
        writes[i] == writes[j],
        writes[i] != INVALID_ID,
    ensures
        first_repeated(writes, k) < writes.len(),
    decreases writes.len() - k,
{
    if k < i {
        lemma_first_repeated(writes, k + 1, i, j);
    } else {
        assert(writes.subrange(i + 1, writes.len() as int)[j - i - 1] == writes[j]);
    }
}

/// No component is handed out twice for writing: a query that can be built writes each registered
/// component once.
pub proof fn law_writes_do_not_alias(writes: Seq<u32>, i: int, j: int)
    requires
        first_repeated(writes, 0) == writes.len(),
        0 <= i < j < writes.len(),
        writes[i] != INVALID_ID,
    ensures
        writes[i] != writes[j],
{
    if writes[i] == writes[j] {
        lemma_first_repeated(writes, 0, i, j);
    }
}

/// The query over the same archetypes that takes every row.
spec fn every_row(q: DynState) -> QueryState {
    QueryState {
        infos: q.world.registry.infos,
        archetypes: q.archetypes,
        shape: Shape::Unit,
        last_run: Tick(0),
        places: q.places,
        ranges: Seq::empty(),
    }
}

proof fn lemma_fewer_rows(q: DynState, place: usize, row: int)
    requires
        0 <= row,
        q.archetypes[place as int].entities.len() <= usize::MAX,
    ensures
        dyn_rows_from(q, place, row).len() <= rows_from(
            every_row(q),
            place,
            row,
            q.archetypes[place as int].entities.len() as int,
        ).len(),
    decreases q.archetypes[place as int].entities.len() - row,
{
    if row < q.archetypes[place as int].entities.len() {
        lemma_fewer_rows(q, place, row + 1);
    }
}

proof fn lemma_fewer_hits(q: DynState, k: nat)
    requires
        forall|i: int|
            0 <= i < q.places.len() ==> q.archetypes[(#[trigger] q.places[i]) as int].entities.len()
                <= usize::MAX,
    ensures
        dyn_hits_from(q, k).len() <= hits_from(every_row(q), k).len(),
    decreases q.places.len() - k,
{
    if k < q.places.len() {
        lemma_fewer_hits(q, k + 1);
        let here = q.places[k as int];
        assert(q.archetypes[q.places[k as int] as int].entities.len() <= usize::MAX);
        lemma_fewer_rows(q, here, 0);
    }
}

/// A dynamic query has no more matches than a machine word counts.
pub proof fn law_dyn_matches_can_be_counted(q: DynState, w: World)
    requires
        w.wf(),
        q.archetypes == w.store().archetypes,
        places_ok(q.places, q.archetypes.len()),
    ensures
        dyn_hits(q).len() <= u32::MAX,
{
    w.lemma_store();
    let st = w.store();
    assert forall|i: int| 0 <= i < q.places.len() implies q.archetypes[(
    #[trigger] q.places[i]) as int].entities.len() <= usize::MAX by {
        crate::storage::lemma_rows_fit(st, w@.registry.infos, q.places[i] as int);
    }
    lemma_fewer_hits(q, 0);
    lemma_matches_fit(every_row(q), st, w@.registry.infos);
}

proof fn lemma_dyn_rows_ascend(q: DynState, place: usize, row: int, i: int, j: int)
    requires
        0 <= row,
        0 <= i < dyn_rows_from(q, place, row).len(),
        q.archetypes[place as int].entities.len() <= usize::MAX,
    ensures
        dyn_rows_from(q, place, row)[i].0 == place,
        row <= dyn_rows_from(q, place, row)[i].1 < q.archetypes[place as int].entities.len(),
        i < j < dyn_rows_from(q, place, row).len() ==> dyn_rows_from(q, place, row)[i].1
            < dyn_rows_from(q, place, row)[j].1,
    decreases q.archetypes[place as int].entities.len() - row,
{
    let es = q.archetypes[place as int].entities;
    if row < es.len() {
        let tail = dyn_rows_from(q, place, row + 1);
        let all = dyn_rows_from(q, place, row);
        if relations_hold(q.world, q.relations, es[row]) {
            assert(all == seq![(place, row as usize)] + tail);
            if i > 0 {
                assert(all[i] == tail[i - 1]);
                lemma_dyn_rows_ascend(q, place, row + 1, i - 1, j - 1);
                if j < all.len() && i < j {
                    assert(all[j] == tail[j - 1]);
                }
            } else if i < j < all.len() {
                assert(all[j] == tail[j - 1]);
                lemma_dyn_rows_ascend(q, place, row + 1, j - 1, j);
            }
        } else {
            lemma_dyn_rows_ascend(q, place, row + 1, i, j);
        }
    }
}

/// The rows that a dynamic query takes come archetype by archetype, and in each in order.
pub proof fn law_dyn_rows_come_in_order(q: DynState, k: nat, i: int, j: int)
    requires
        k <= q.places.len(),
        0 <= i < j < dyn_hits_from(q, k).len(),
        places_ok(q.places, q.archetypes.len()),
        forall|n: int|
            0 <= n < q.places.len() ==> q.archetypes[(#[trigger] q.places[n]) as int].entities.len()
                <= usize::MAX,
    ensures
        before(dyn_hits_from(q, k)[i], dyn_hits_from(q, k)[j]),
    decreases q.places.len() - k,
{
    let here = q.places[k as int];
    let a = dyn_rows_from(q, here, 0);
    let b = dyn_hits_from(q, k + 1);
    let all = dyn_hits_from(q, k);
    assert(all == a + b);
    assert(q.archetypes[q.places[k as int] as int].entities.len() <= usize::MAX);
    if j < a.len() {
        assert(all[i] == a[i] && all[j] == a[j]);
        lemma_dyn_rows_ascend(q, here, 0, i, j);
        lemma_dyn_rows_ascend(q, here, 0, j, j);
    } else if i < a.len() {
        assert(all[i] == a[i] && all[j] == b[j - a.len()]);
        lemma_dyn_rows_ascend(q, here, 0, i, i);
        let (p, r) = b[j - a.len()];
        assert(b.contains((p, r)));
        lemma_dyn_hits(q, k + 1, p, r);
        let m = choose|m: int| k + 1 <= m < q.places.len() && #[trigger] q.places[m] == p;
        assert(q.places[k as int] < q.places[m]);
    } else {
        assert(all[i] == b[i - a.len()] && all[j] == b[j - a.len()]);
        law_dyn_rows_come_in_order(q, k + 1, i - a.len(), j - a.len());
    }
}

/// A dynamic query takes no entity twice.
pub proof fn law_dyn_query_takes_nothing_twice(w: World, t: TermsState, i: int, j: int)
    requires
        w.wf(),
        0 <= i < j < dyn_hits(dyn_state(w, t)).len(),
    ensures
        dyn_entity(dyn_state(w, t), dyn_hits(dyn_state(w, t))[i]) != dyn_entity(
            dyn_state(w, t),
            dyn_hits(dyn_state(w, t))[j],
        ),
{
    w.lemma_store();
    let st = w.store();
    let infos = w@.registry.infos;
    let q = dyn_state(w, t);
    lemma_suited(t, st.archetypes, st.archetypes.len());
    assert(places_ok(q.places, q.archetypes.len()));
    assert forall|n: int| 0 <= n < q.places.len() implies q.archetypes[(
    #[trigger] q.places[n]) as int].entities.len() <= usize::MAX by {
        crate::storage::lemma_rows_fit(st, infos, q.places[n] as int);
    }
    law_dyn_rows_come_in_order(q, 0, i, j);
    let x = dyn_hits(q)[i];
    let y = dyn_hits(q)[j];
    assert(dyn_hits(q).contains(x) && dyn_hits(q).contains(y));
    lemma_dyn_hits(q, 0, x.0, x.1);
    lemma_dyn_hits(q, 0, y.0, y.1);
    lemma_row_of(st, infos, x.0 as int, x.1 as int);
    lemma_row_of(st, infos, y.0 as int, y.1 as int);
}

/// Asking for one entity answers exactly where iterating yields it, and with the same row.
pub proof fn law_get_answers_what_iterating_yields(q: DynState, w: World, e: Entity)
    requires
        w.wf(),
        q.world == w@,
        q.archetypes == w.store().archetypes,
        places_ok(q.places, q.archetypes.len()),
    ensures
        match location_of(w.store().entities, e) {
            Some(loc) => {
                let hit = (loc.archetype_id.0 as usize, loc.row as usize);
                &&& dyn_hits(q).contains(hit) <==> q.places.contains(hit.0) && relations_hold(
                    q.world,
                    q.relations,
                    e,
                )
                &&& forall|i: int| #[trigger] dyn_matched_at(q, e, i) ==> dyn_hits(q)[i] == hit
                &&& dyn_hits(q).contains(hit) ==> exists|i: int| dyn_matched_at(q, e, i)
            },
            None => forall|i: int| !#[trigger] dyn_matched_at(q, e, i),
        },
{
    w.lemma_store();
    let st = w.store();
    let infos = w@.registry.infos;
    assert forall|n: int| 0 <= n < q.places.len() implies q.archetypes[(
    #[trigger] q.places[n]) as int].entities.len() <= usize::MAX by {
        crate::storage::lemma_rows_fit(st, infos, q.places[n] as int);
    }
    assert forall|i: int| #[trigger] dyn_matched_at(q, e, i) implies location_of(st.entities, e)
        matches Some(loc) && dyn_hits(q)[i] == (loc.archetype_id.0 as usize, loc.row as usize) by {
        let (p, r) = dyn_hits(q)[i];
        assert(dyn_hits(q).contains((p, r)));
        lemma_dyn_hits(q, 0, p, r);
        lemma_row_of(st, infos, p as int, r as int);
    }
    if let Some(loc) = location_of(st.entities, e) {
        let p = loc.archetype_id.0 as usize;
        let r = loc.row as usize;
        assert(p < st.archetypes.len() && r < st.archetypes[p as int].entities.len());
        assert(st.archetypes[p as int].entities[r as int] == e);
        lemma_dyn_hits(q, 0, p, r);
        if q.places.contains(p) {
            let k = choose|k: int| 0 <= k < q.places.len() && q.places[k] == p;
            assert(0 <= k && q.places[k] == p);
        }
        if dyn_hits(q).contains((p, r)) {
            let i = choose|i: int| 0 <= i < dyn_hits(q).len() && dyn_hits(q)[i] == (p, r);
            assert(dyn_matched_at(q, e, i));
        }
    }
}

} // verus!
