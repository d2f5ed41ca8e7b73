//! What writing, removing, spawning and despawning do to the components of entities: what is there
//! afterwards, with which value, and that all else stays.

use vstd::prelude::*;
use crate::component::{INVALID_ID, Tick};
use crate::entity::{Entity, after_allocate, allocated};
use crate::registry::{
    ComponentDesc, RegistryState, after_register, agrees, desc_count, id_of, infos_agree, infos_wf,
    lemma_after_register, lemma_id_of, lemma_register_requires, requirements, requires_wf,
};
use crate::requirements::{
    all_known, all_written, distinct_ids, filled, lemma_filled, lemma_known_part, lemma_puts_dom,
    lemma_puts_joined, lemma_untouched, listed, most_types, puts_all, with_missing, with_required,
};
use crate::storage::CellState;
use crate::world::{
    BundleState, PartState, WorldState, after_drops, after_insert, after_registers, after_remove,
    after_spawn_one, after_spawn_reserved, after_writes, bundle_cost, bundle_fits, bundle_parts,
    lemma_after_registers, next_tick, piece, puts,
};

verus! {

/// Whether some component that appears requires `c` with this value as the default.
pub open spec fn comes_along(
    r: RegistryState,
    before: Map<u32, CellState>,
    after: Map<u32, CellState>,
    c: u32,
    value: Seq<u8>,
) -> bool {
    exists|d: u32|
        !before.contains_key(d) && #[trigger] after.contains_key(d) && requirements(r, d).contains(
            (c, value),
        )
}

/// Whether the part at `i` was added for one before it that requires it.
spec fn has_source(r: RegistryState, parts: Seq<PartState>, i: int, tick: Tick) -> bool {
    parts[i].tick == tick && exists|k: int|
        0 <= k < i && requirements(r, (#[trigger] parts[k]).id).contains(
            (parts[i].id, parts[i].value),
        )
}

proof fn lemma_missing_sources(
    present: Set<u32>,
    parts: Seq<PartState>,
    reqs: Seq<(u32, Seq<u8>)>,
    tick: Tick,
    n: nat,
)
    requires
        n <= reqs.len(),
    ensures
        ({
            let t = with_missing(present, parts, reqs, tick, n);
            &&& parts.len() <= t.len()
            &&& forall|i: int| 0 <= i < parts.len() ==> #[trigger] t[i] == parts[i]
            &&& forall|i: int|
                parts.len() <= i < t.len() ==> (#[trigger] t[i]).tick == tick && reqs.contains(
                    (t[i].id, t[i].value),
                )
        }),
    decreases n,
{
    if n > 0 {
        lemma_missing_sources(present, parts, reqs, tick, (n - 1) as nat);
        let head = with_missing(present, parts, reqs, tick, (n - 1) as nat);
        let t = with_missing(present, parts, reqs, tick, n);
        assert(reqs.contains(reqs[n - 1]));
        assert forall|i: int| 0 <= i < parts.len() implies #[trigger] t[i] == parts[i] by {
            assert(head[i] == parts[i]);
        }
        assert forall|i: int| parts.len() <= i < t.len() implies (#[trigger] t[i]).tick == tick
            && reqs.contains((t[i].id, t[i].value)) by {
            if i < head.len() {
                assert(t[i] == head[i]);
            } else {
                assert((t[i].id, t[i].value) == reqs[n - 1]);
            }
        }
    }
}

proof fn lemma_filled_sources(
    r: RegistryState,
    present: Set<u32>,
    parts: Seq<PartState>,
    tick: Tick,
    n: nat,
)
    ensures
        ({
            let t = filled(r, present, parts, tick, n);
            &&& parts.len() <= t.len()
            &&& forall|i: int| 0 <= i < parts.len() ==> #[trigger] t[i] == parts[i]
            &&& forall|i: int| parts.len() <= i < t.len() ==> #[trigger] has_source(r, t, i, tick)
        }),
    decreases n,
{
    if n > 0 {
        lemma_filled_sources(r, present, parts, tick, (n - 1) as nat);
        let head = filled(r, present, parts, tick, (n - 1) as nat);
        let t = filled(r, present, parts, tick, n);
        if n - 1 < head.len() {
            let own = requirements(r, head[n - 1].id);
            lemma_missing_sources(present, head, own, tick, own.len());
            assert forall|i: int| 0 <= i < parts.len() implies #[trigger] t[i] == parts[i] by {
                assert(head[i] == parts[i]);
                assert(t[i] == head[i]);
            }
            assert forall|i: int| parts.len() <= i < t.len() implies #[trigger] has_source(
                r,
                t,
                i,
                tick,
            ) by {
                if i < head.len() {
                    assert(has_source(r, head, i, tick));
                    let k = choose|k: int|
                        0 <= k < i && requirements(r, (#[trigger] head[k]).id).contains(
                            (head[i].id, head[i].value),
                        );
                    assert(t[k] == head[k] && t[i] == head[i]);
                } else {
                    assert(t[n - 1] == head[n - 1]);
                    let x = t[i];
                    assert(own.contains((t[i].id, t[i].value)));
                    assert(requirements(r, t[n - 1].id).contains((t[i].id, t[i].value)));
                }
            }
        }
    }
}

/// A component that is listed once and was not there is as it is listed.
proof fn lemma_new_cell(m: Map<u32, CellState>, parts: Seq<PartState>, n: nat, k: int)
    requires
        0 <= k < n <= parts.len(),
        distinct_ids(parts),
        !m.contains_key(parts[k].id),
    ensures
        puts(m, parts, n).contains_key(parts[k].id),
        puts(m, parts, n)[parts[k].id] == (CellState {
            value: parts[k].value,
            changed: parts[k].tick,
            added: parts[k].tick,
        }),
    decreases n,
{
    let id = parts[k].id;
    if k == n - 1 {
        assert forall|j: int| 0 <= j < n - 1 implies (#[trigger] parts[j]).id != id by {}
        lemma_untouched(m, parts, (n - 1) as nat, id);
    } else {
        lemma_new_cell(m, parts, (n - 1) as nat, k);
        assert(parts[n - 1].id != id);
    }
}

/// What writing one part after the other does to component `c`.
proof fn lemma_written(
    r: RegistryState,
    m: Map<u32, CellState>,
    parts: Seq<PartState>,
    tick: Tick,
    n: nat,
    c: u32,
)
    requires
        requires_wf(r),
        n <= parts.len(),
        all_known(parts, r.infos),
    ensures
        ({
            let all = all_written(r, m, parts, tick, n);
            let t = puts(m, all, all.len());
            let given = exists|i: int| 0 <= i < n && (#[trigger] parts[i]).id == c;
            &&& m.contains_key(c) ==> t.contains_key(c) && t[c].added == m[c].added
            &&& m.contains_key(c) && !given ==> t[c] == m[c]
            &&& !m.contains_key(c) && !given && t.contains_key(c) ==> {
                &&& t[c].changed == tick
                &&& t[c].added == tick
                &&& comes_along(r, m, t, c, t[c].value)
            }
            &&& !m.contains_key(c) && t.contains_key(c) && (forall|i: int|
                0 <= i < n ==> (#[trigger] parts[i]).tick == tick) ==> t[c].added == tick
        }),
    decreases n,
{
    let all = all_written(r, m, parts, tick, n);
    let t = puts(m, all, all.len());
    if n > 0 {
        let n1 = (n - 1) as nat;
        lemma_written(r, m, parts, tick, n1, c);
        let head = all_written(r, m, parts, tick, n1);
        let m1 = puts(m, head, head.len());
        let p = parts[n - 1];
        let one = seq![p];
        let more = with_required(r, m1, p, tick);
        lemma_puts_joined(m, head, more, more.len());
        assert(t == puts(m1, more, more.len()));
        lemma_filled(r, m1.dom(), one, tick, most_types());
        lemma_filled_sources(r, m1.dom(), one, tick, most_types());
        assert(more[0] == p);
        let given1 = exists|i: int| 0 <= i < n1 && (#[trigger] parts[i]).id == c;
        let given = exists|i: int| 0 <= i < n && (#[trigger] parts[i]).id == c;
        if given1 {
            let i = choose|i: int| 0 <= i < n1 && (#[trigger] parts[i]).id == c;
            assert(0 <= i < n && parts[i].id == c);
        }
        if given && !given1 {
            let i = choose|i: int| 0 <= i < n && (#[trigger] parts[i]).id == c;
            assert(i == n - 1);
        }
        lemma_puts_dom(m, head, head.len(), c);
        assert forall|d: u32| m1.contains_key(d) implies #[trigger] t.contains_key(d) by {
            lemma_puts_dom(m1, more, more.len(), d);
        }
        assert forall|d: u32| m.contains_key(d) implies #[trigger] m1.contains_key(d) by {
            lemma_puts_dom(m, head, head.len(), d);
        }
        if p.id == c {
            assert(0 <= n - 1 < n && parts[n - 1].id == c);
            assert forall|k: int| 1 <= k < more.len() implies (#[trigger] more[k]).id != c by {
                assert(more[0].id != more[k].id);
            }
            lemma_added_stays(m1, more, more.len());
        } else if listed(more, c) {
            let k = choose|k: int| 0 <= k < more.len() && (#[trigger] more[k]).id == c;
            assert(k > 0);
            assert(!m1.contains_key(p.id)) by {
                if m1.contains_key(p.id) {
                    assert(more.len() == 1);
                }
            }
            assert(!m1.dom().contains(more[k].id));
            lemma_new_cell(m1, more, more.len(), k);
            assert(has_source(r, more, k, tick));
            let j = choose|j: int|
                0 <= j < k && requirements(r, (#[trigger] more[j]).id).contains(
                    (more[k].id, more[k].value),
                );
            let d = more[j].id;
            lemma_puts_dom(m1, more, more.len(), d);
            assert(t.contains_key(d));
            assert(!m1.contains_key(d)) by {
                if j > 0 {
                    assert(!m1.dom().contains(more[j].id));
                }
            }
            assert(!m.contains_key(d) && t.contains_key(d) && requirements(r, d).contains(
                (c, t[c].value),
            ));
            assert(comes_along(r, m, t, c, t[c].value));
            assert(!given1) by {
                if given1 {
                    lemma_given_is_there(r, m, parts, tick, n1, c);
                }
            }
        } else {
            lemma_untouched(m1, more, more.len(), c);
            if !m.contains_key(c) && !given && t.contains_key(c) {
                assert(comes_along(r, m, m1, c, m1[c].value));
                let d = choose|d: u32|
                    !m.contains_key(d) && #[trigger] m1.contains_key(d) && requirements(
                        r,
                        d,
                    ).contains((c, m1[c].value));
                assert(t.contains_key(d));
            }
        }
    }
}

proof fn lemma_given_is_there(
    r: RegistryState,
    m: Map<u32, CellState>,
    parts: Seq<PartState>,
    tick: Tick,
    n: nat,
    c: u32,
)
    requires
        requires_wf(r),
        n <= parts.len(),
        all_known(parts, r.infos),
        exists|i: int| 0 <= i < n && (#[trigger] parts[i]).id == c,
    ensures
        ({
            let all = all_written(r, m, parts, tick, n);
            puts(m, all, all.len()).contains_key(c)
        }),
    decreases n,
{
    let n1 = (n - 1) as nat;
    let head = all_written(r, m, parts, tick, n1);
    let m1 = puts(m, head, head.len());
    let p = parts[n - 1];
    let more = with_required(r, m1, p, tick);
    lemma_puts_joined(m, head, more, more.len());
    lemma_filled(r, m1.dom(), seq![p], tick, most_types());
    assert(more[0] == p);
    lemma_puts_dom(m1, more, more.len(), c);
    if p.id != c {
        let i = choose|i: int| 0 <= i < n && (#[trigger] parts[i]).id == c;
        assert(0 <= i < n1 && parts[i].id == c);
        lemma_given_is_there(r, m, parts, tick, n1, c);
    } else {
        assert(0 <= 0 < more.len() && more[0].id == c);
    }
}

proof fn lemma_added_stays(m: Map<u32, CellState>, parts: Seq<PartState>, n: nat)
    requires
        0 < n <= parts.len(),
        forall|k: int| 1 <= k < n ==> (#[trigger] parts[k]).id != parts[0].id,
    ensures
        puts(m, parts, n).contains_key(parts[0].id),
        puts(m, parts, n)[parts[0].id].added == if m.contains_key(parts[0].id) {
            m[parts[0].id].added
        } else {
            parts[0].tick
        },
    decreases n,
{
    if n == 1 {
        assert(puts(m, parts, 0) == m);
        assert(puts(m, parts, 1) == crate::world::put(m, parts[0]));
    } else {
        lemma_added_stays(m, parts, (n - 1) as nat);
        assert(parts[n - 1].id != parts[0].id);
    }
}

/// Writing parts leaves every other component that was there as it was. What was not there and was
/// not given appears only where a component that appears requires it, and then with the default.
pub proof fn law_writing_keeps_the_rest(
    r: RegistryState,
    m: Map<u32, CellState>,
    parts: Seq<PartState>,
    tick: Tick,
    c: u32,
)
    requires
        requires_wf(r),
        all_known(parts, r.infos),
        forall|i: int| 0 <= i < parts.len() ==> (#[trigger] parts[i]).id != c,
    ensures
        ({
            let t = puts_all(r, m, parts, tick);
            &&& m.contains_key(c) ==> t.contains_key(c) && t[c] == m[c]
            &&& !m.contains_key(c) && t.contains_key(c) ==> {
                &&& t[c].changed == tick
                &&& t[c].added == tick
                &&& comes_along(r, m, t, c, t[c].value)
            }
        }),
{
    lemma_written(r, m, parts, tick, parts.len(), c);
}

/// A component that is written counts as changed and, unless it was there, as added; its tick of
/// being added stays where it was there.
pub proof fn law_writing_keeps_when_it_was_added(
    r: RegistryState,
    m: Map<u32, CellState>,
    parts: Seq<PartState>,
    tick: Tick,
    c: u32,
)
    requires
        requires_wf(r),
        all_known(parts, r.infos),
        forall|i: int| 0 <= i < parts.len() ==> (#[trigger] parts[i]).tick == tick,
        puts_all(r, m, parts, tick).contains_key(c),
    ensures
        puts_all(r, m, parts, tick)[c].added == if m.contains_key(c) {
            m[c].added
        } else {
            tick
        },
{
    lemma_written(r, m, parts, tick, parts.len(), c);
}

/// Whether all but the components and what follows from them is as it was: entities, tick,
/// resources, events and anomalies.
pub open spec fn only_values_differ(w: WorldState, t: WorldState) -> bool {
    &&& t.entities == w.entities
    &&& t.tick == w.tick
    &&& t.mode == w.mode
    &&& t.counts == w.counts
    &&& t.anomalies == w.anomalies
    &&& t.events == w.events
    &&& t.resources == w.resources
    &&& t.relations.kinds == w.relations.kinds
    &&& t.relations.pairs == w.relations.pairs
    &&& t.relations.siblings == w.relations.siblings
}

/// Inserting a component of a live entity gives it the value, changed now. The other components
/// that it has stay; where the component was there, none appears; otherwise those appear that
/// what appears requires, with their defaults. Nothing changes for other entities.
pub proof fn law_inserting_writes_the_component(
    sizes: Map<u64, usize>,
    w: WorldState,
    e: Entity,
    desc: ComponentDesc,
    value: Seq<u8>,
    id: u32,
    c: u32,
)
    requires
        infos_wf(w.registry.infos),
        requires_wf(w.registry),
        infos_agree(sizes, w.registry.infos),
        agrees(sizes, desc),
        w.registry.infos.len() + desc_count(desc) <= INVALID_ID,
        w.values.contains_key(e),
        id < after_insert(w, e, desc, value).registry.infos.len(),
        after_insert(w, e, desc, value).registry.infos[id as int].key == desc.key,
    ensures
        ({
            let t = after_insert(w, e, desc, value);
            let was = w.values[e];
            let now = t.values[e];
            &&& now.contains_key(id)
            &&& now[id].value == value
            &&& now[id].changed == w.tick
            &&& now[id].added == if was.contains_key(id) {
                was[id].added
            } else {
                w.tick
            }
            &&& c != id && was.contains_key(c) ==> now.contains_key(c) && now[c] == was[c]
            &&& c != id && !was.contains_key(c) && now.contains_key(c) ==> {
                &&& !was.contains_key(id)
                &&& now[c].changed == w.tick
                &&& now[c].added == w.tick
                &&& comes_along(t.registry, was, now, c, now[c].value)
            }
            &&& t.values.dom() == w.values.dom()
            &&& forall|x: Entity| x != e ==> #[trigger] t.values[x] == w.values[x]
            &&& only_values_differ(w, t)
        }),
{
    let t = after_insert(w, e, desc, value);
    let r = after_register(w.registry, desc);
    lemma_after_register(w.registry, desc);
    lemma_register_requires(sizes, w.registry, desc);
    lemma_id_of(r.infos, id as int);
    let p = PartState { id, value, tick: w.tick };
    let parts = seq![p];
    let was = w.values[e];
    let now = puts_all(r, was, parts, w.tick);
    assert(t.registry == r);
    assert(t.values[e] == now);
    assert(parts[0] == p);
    assert(all_known(parts, r.infos));
    crate::requirements::law_given_values_win(r, was, parts, w.tick, 1, 0);
    law_writing_keeps_when_it_was_added(r, was, parts, w.tick, id);
    if c != id {
        law_writing_keeps_the_rest(r, was, parts, w.tick, c);
        if was.contains_key(id) && !was.contains_key(c) {
            reveal_with_fuel(all_written, 2);
            let none = Seq::<PartState>::empty();
            assert(puts(was, none, 0) == was);
            assert(all_written(r, was, parts, w.tick, 1) =~= parts);
            lemma_puts_dom(was, parts, 1, c);
        }
    }
    assert(t.values.dom() =~= w.values.dom());
}

/// Inserting into a dead entity changes no component of any entity; it is an anomaly, which is
/// counted and kept.
pub proof fn law_inserting_into_the_dead_is_an_anomaly(
    w: WorldState,
    e: Entity,
    desc: ComponentDesc,
    value: Seq<u8>,
)
    requires
        !w.values.contains_key(e),
    ensures
        ({
            let t = after_insert(w, e, desc, value);
            &&& t.values == w.values
            &&& t.entities == w.entities
            &&& t.relations == w.relations
            &&& t.tick == w.tick
            &&& t.anomalies.len() == w.anomalies.len() + 1
            &&& t.anomalies.drop_last() == w.anomalies
            &&& t.anomalies.last().entity == Some(e)
        }),
{
    reveal_with_fuel(after_drops, 2);
    let t = after_insert(w, e, desc, value);
    assert(t.anomalies.drop_last() =~= w.anomalies);
}

/// Removing a component takes that component of that entity, and nothing else.
pub proof fn law_removing_takes_the_component(w: WorldState, e: Entity, id: u32, x: Entity, c: u32)
    ensures
        ({
            let t = after_remove(w, e, id);
            &&& t.values.dom() == w.values.dom()
            &&& w.values.contains_key(x) ==> (t.values[x].contains_key(c)
                <==> w.values[x].contains_key(c) && !(x == e && c == id))
            &&& w.values.contains_key(x) && w.values[x].contains_key(c) && !(x == e && c == id)
                ==> t.values[x][c] == w.values[x][c]
            &&& t.registry == w.registry
            &&& only_values_differ(w, t)
        }),
{
    let t = after_remove(w, e, id);
    assert(t.values.dom() =~= w.values.dom());
}

/// A spawned entity has each component of its bundle, with the value that the bundle gives last,
/// added and changed now. What else it has came along with these. Nothing changes for other
/// entities.
pub proof fn law_spawning_gives_the_bundle(
    sizes: Map<u64, usize>,
    w: WorldState,
    e: Entity,
    bundle: Seq<BundleState>,
    i: int,
    id: u32,
    c: u32,
)
    requires
        infos_wf(w.registry.infos),
        requires_wf(w.registry),
        infos_agree(sizes, w.registry.infos),
        bundle_fits(sizes, bundle),
        w.registry.infos.len() + bundle_cost(bundle, bundle.len()) <= INVALID_ID,
        0 <= i < bundle.len(),
        forall|j: int| i < j < bundle.len() ==> (#[trigger] bundle[j]).desc.key != bundle[i].desc.key,
        id < after_spawn_reserved(w, e, bundle).registry.infos.len(),
        after_spawn_reserved(w, e, bundle).registry.infos[id as int].key == bundle[i].desc.key,
    ensures
        ({
            let t = after_spawn_reserved(w, e, bundle);
            let now = t.values[e];
            &&& t.values.contains_key(e)
            &&& now.contains_key(id)
            &&& now[id] == CellState { value: bundle[i].value, changed: w.tick, added: w.tick }
            &&& now.contains_key(c) && (forall|j: int|
                0 <= j < bundle.len() ==> t.registry.infos[c as int].key != (
                #[trigger] bundle[j]).desc.key) ==> now[c].changed == w.tick && now[c].added
                == w.tick && comes_along(t.registry, Map::empty(), now, c, now[c].value)
            &&& forall|x: Entity|
                x != e ==> (#[trigger] t.values.contains_key(x) <==> w.values.contains_key(x))
            &&& forall|x: Entity| x != e ==> #[trigger] t.values[x] == w.values[x]
            &&& t.tick == w.tick
            &&& t.resources == w.resources
            &&& t.events == w.events
            &&& t.anomalies == w.anomalies
        }),
{
    let t = after_spawn_reserved(w, e, bundle);
    let r = after_registers(w.registry, bundle, bundle.len());
    lemma_bundle(sizes, w.registry, bundle);
    let parts = bundle_parts(r.infos, bundle, w.tick);
    let none = Map::<u32, CellState>::empty();
    assert(t.registry == r);
    assert(t.values[e] == puts_all(r, none, parts, w.tick));
    assert forall|j: int| 0 <= j < parts.len() implies (#[trigger] parts[j]).id < r.infos.len()
        && r.infos[parts[j].id as int].key == bundle[j].desc.key by {
        assert(id_of(r.infos, bundle[j].desc.key) is Some);
        lemma_known_part(r.infos, bundle[j].desc.key);
    }
    assert(all_known(parts, r.infos));
    lemma_id_of(r.infos, id as int);
    assert(parts[i].id == id);
    assert forall|j: int| i < j < parts.len() implies (#[trigger] parts[j]).id != parts[i].id by {
        assert(bundle[j].desc.key != bundle[i].desc.key);
    }
    crate::requirements::law_given_values_win(r, none, parts, w.tick, parts.len(), i);
    law_writing_keeps_when_it_was_added(r, none, parts, w.tick, id);
    let now = t.values[e];
    if now.contains_key(c) && (forall|j: int|
        0 <= j < bundle.len() ==> t.registry.infos[c as int].key != (
        #[trigger] bundle[j]).desc.key) {
        assert forall|j: int| 0 <= j < parts.len() implies (#[trigger] parts[j]).id != c by {
            assert(t.registry.infos[c as int].key != bundle[j].desc.key);
        }
        law_writing_keeps_the_rest(r, none, parts, w.tick, c);
    }
}

/// What registering the types of a bundle comes to.
proof fn lemma_bundle(sizes: Map<u64, usize>, r: RegistryState, bundle: Seq<BundleState>)
    requires
        infos_wf(r.infos),
        requires_wf(r),
        infos_agree(sizes, r.infos),
        bundle_fits(sizes, bundle),
        r.infos.len() + bundle_cost(bundle, bundle.len()) <= INVALID_ID,
    ensures
        ({
            let t = after_registers(r, bundle, bundle.len());
            &&& infos_wf(t.infos)
            &&& requires_wf(t)
            &&& forall|j: int|
                0 <= j < bundle.len() ==> id_of(t.infos, (#[trigger] bundle[j]).desc.key) is Some
        }),
{
    lemma_after_registers(sizes, r, bundle, bundle.len());
    crate::requirements::lemma_registers_requires(sizes, r, bundle, bundle.len());
}

/// A bundle without a reserved entity is spawned as the next one that is issued.
pub proof fn law_spawning_issues_an_entity(w: WorldState, e: Entity, bundle: Seq<BundleState>)
    ensures
        e.is_placeholder() ==> after_spawn_one(w, e, bundle) == after_spawn_reserved(
            WorldState { entities: after_allocate(w.entities, 1), ..w },
            allocated(w.entities, 1)[0],
            bundle,
        ),
        !e.is_placeholder() ==> after_spawn_one(w, e, bundle) == after_spawn_reserved(w, e, bundle),
{
}

/// Writing pieces of data gives each row its piece and leaves all other rows and components, where
/// no row is named twice.
pub proof fn law_rows_get_their_pieces(
    w: WorldState,
    rows: Seq<Entity>,
    id: u32,
    size: nat,
    data: Seq<u8>,
    tick: Tick,
    n: nat,
)
    requires
        n <= rows.len(),
        rows.no_duplicates(),
        data.len() == rows.len() * size,
        forall|i: int| 0 <= i < rows.len() ==> w.values.contains_key(#[trigger] rows[i]),
    ensures
        ({
            let t = after_writes(w, rows, id, size, data, tick, n);
            &&& t.values.dom() == w.values.dom()
            &&& forall|i: int|
                0 <= i < n ==> {
                    let cell = t.values[#[trigger] rows[i]][id];
                    &&& cell.value == data.subrange(i * size, (i + 1) * size)
                    &&& cell.changed == tick
                    &&& cell.added == w.values[rows[i]][id].added
                }
            &&& forall|i: int, c: u32|
                0 <= i < n && c != id ==> #[trigger] t.values[rows[i]][c] == w.values[rows[i]][c]
            &&& forall|x: Entity|
                (forall|i: int| 0 <= i < n ==> rows[i] != x) ==> #[trigger] t.values[x]
                    == w.values[x]
            &&& t == WorldState { values: t.values, ..w }
        }),
    decreases n,
{
    if n > 0 {
        let n1 = (n - 1) as nat;
        law_rows_get_their_pieces(w, rows, id, size, data, tick, n1);
        let m = after_writes(w, rows, id, size, data, tick, n1);
        let t = after_writes(w, rows, id, size, data, tick, n);
        let e = rows[n - 1];
        assert((n - 1) * size + size == n * size) by (nonlinear_arith)
            requires
                n > 0,
        ;
        assert(forall|i: int| 0 <= i < n1 ==> rows[i] != e);
        assert(m.values[e] == w.values[e]);
        assert(t.values.dom() =~= w.values.dom());
        assert forall|x: Entity| (forall|i: int| 0 <= i < n ==> rows[i] != x) implies #[trigger] t.values[x]
            == w.values[x] by {
            assert(rows[n - 1] != x);
            assert(forall|i: int| 0 <= i < n1 ==> rows[i] != x);
            assert(m.values[x] == w.values[x]);
        }
        assert forall|i: int, c: u32| 0 <= i < n && c != id implies #[trigger] t.values[rows[i]][c]
            == w.values[rows[i]][c] by {
            if i < n1 {
                assert(m.values[rows[i]][c] == w.values[rows[i]][c]);
            }
        }
        assert forall|i: int| 0 <= i < n implies {
            let cell = t.values[#[trigger] rows[i]][id];
            &&& cell.value == data.subrange(i * size, (i + 1) * size)
            &&& cell.changed == tick
            &&& cell.added == w.values[rows[i]][id].added
        } by {
            if i < n1 {
                assert(rows[i] != e);
                assert(t.values[rows[i]] == m.values[rows[i]]);
            } else {
                assert(i == n - 1);
                assert(piece(data, size, n - 1) == data.subrange((n - 1) * size, (n * size) as int));
            }
        }
    }
}

/// Ticks go on one by one, around the wrap.
pub proof fn law_ticks_go_on(t: Tick)
    ensures
        next_tick(t) == crate::component::ticks_after(t, 1),
{
    if t.0 == u32::MAX {
        assert((t.0 + 1) % 0x1_0000_0000 == 0);
    } else {
        assert((t.0 + 1) % 0x1_0000_0000 == t.0 + 1);
    }
}

/// A default counts as the component that appears gives it: of what it requires, the first entry
/// for a missing component is the one that counts, before anything that comes along later.
pub proof fn law_first_default_counts(
    r: RegistryState,
    m: Map<u32, CellState>,
    p: PartState,
    tick: Tick,
    k: int,
)
    requires
        requires_wf(r),
        p.id < r.infos.len(),
        !m.contains_key(p.id),
        0 <= k < requirements(r, p.id).len(),
        requirements(r, p.id)[k].0 != p.id,
        !m.contains_key(requirements(r, p.id)[k].0),
        forall|j: int|
            0 <= j < k ==> (#[trigger] requirements(r, p.id)[j]).0 != requirements(r, p.id)[k].0,
    ensures
        ({
            let (c, value) = requirements(r, p.id)[k];
            let t = puts_all(r, m, seq![p], tick);
            &&& t.contains_key(c)
            &&& t[c] == CellState { value, changed: tick, added: tick }
        }),
{
    let one = seq![p];
    let none = Seq::<PartState>::empty();
    let reqs = requirements(r, p.id);
    let (c, value) = reqs[k];
    let more = with_required(r, m, p, tick);
    reveal_with_fuel(all_written, 2);
    assert(all_written(r, m, one, tick, 0) == none);
    assert(puts(m, none, 0) == m);
    assert(all_written(r, m, one, tick, 1) =~= more);
    assert(more == filled(r, m.dom(), one, tick, most_types()));
    lemma_filled(r, m.dom(), one, tick, most_types());
    let first = filled(r, m.dom(), one, tick, 1);
    assert(filled(r, m.dom(), one, tick, 0) == one);
    assert(one[0] == p);
    assert(first == with_missing(m.dom(), one, reqs, tick, reqs.len()));
    let at = lemma_missing_at(m.dom(), one, reqs, tick, reqs.len(), k);
    lemma_filled_prefix(r, m.dom(), one, tick, 1, most_types());
    assert(more[at] == first[at]);
    assert(more[at] == (PartState { id: c, value, tick }));
    lemma_new_cell(m, more, more.len(), at);
}

proof fn lemma_missing_at(
    present: Set<u32>,
    parts: Seq<PartState>,
    reqs: Seq<(u32, Seq<u8>)>,
    tick: Tick,
    n: nat,
    k: int,
) -> (at: int)
    requires
        n <= reqs.len(),
        0 <= k < n,
        !present.contains(reqs[k].0),
        forall|i: int| 0 <= i < parts.len() ==> (#[trigger] parts[i]).id != reqs[k].0,
        forall|j: int| 0 <= j < k ==> (#[trigger] reqs[j]).0 != reqs[k].0,
    ensures
        0 <= at < with_missing(present, parts, reqs, tick, n).len(),
        with_missing(present, parts, reqs, tick, n)[at] == (PartState {
            id: reqs[k].0,
            value: reqs[k].1,
            tick,
        }),
    decreases n,
{
    let head = with_missing(present, parts, reqs, tick, (n - 1) as nat);
    if k == n - 1 {
        lemma_missing_sources(present, parts, reqs, tick, (n - 1) as nat);
        lemma_missing_lacks(present, parts, reqs, tick, (n - 1) as nat, reqs[k].0);
        assert(!listed(head, reqs[k].0));
        head.len() as int
    } else {
        let at = lemma_missing_at(present, parts, reqs, tick, (n - 1) as nat, k);
        assert(with_missing(present, parts, reqs, tick, n)[at] == head[at]);
        at
    }
}

proof fn lemma_missing_lacks(
    present: Set<u32>,
    parts: Seq<PartState>,
    reqs: Seq<(u32, Seq<u8>)>,
    tick: Tick,
    n: nat,
    c: u32,
)
    requires
        n <= reqs.len(),
        forall|i: int| 0 <= i < parts.len() ==> (#[trigger] parts[i]).id != c,
        forall|j: int| 0 <= j < n ==> (#[trigger] reqs[j]).0 != c,
    ensures
        !listed(with_missing(present, parts, reqs, tick, n), c),
    decreases n,
{
    if n > 0 {
        lemma_missing_lacks(present, parts, reqs, tick, (n - 1) as nat, c);
        let head = with_missing(present, parts, reqs, tick, (n - 1) as nat);
        let t = with_missing(present, parts, reqs, tick, n);
        assert(reqs[n - 1].0 != c);
        assert forall|i: int| 0 <= i < t.len() implies (#[trigger] t[i]).id != c by {
            if i < head.len() {
                assert(t[i] == head[i]);
            }
        }
    }
}

proof fn lemma_filled_prefix(
    r: RegistryState,
    present: Set<u32>,
    parts: Seq<PartState>,
    tick: Tick,
    a: nat,
    b: nat,
)
    requires
        a <= b,
    ensures
        ({
            let s = filled(r, present, parts, tick, a);
            let t = filled(r, present, parts, tick, b);
            &&& s.len() <= t.len()
            &&& forall|i: int| 0 <= i < s.len() ==> #[trigger] t[i] == s[i]
        }),
    decreases b,
{
    if a < b {
        lemma_filled_prefix(r, present, parts, tick, a, (b - 1) as nat);
        let s = filled(r, present, parts, tick, a);
        let head = filled(r, present, parts, tick, (b - 1) as nat);
        let t = filled(r, present, parts, tick, b);
        if b - 1 < head.len() {
            let own = requirements(r, head[b - 1].id);
            lemma_missing_sources(present, head, own, tick, own.len());
        }
        assert forall|i: int| 0 <= i < s.len() implies #[trigger] t[i] == s[i] by {
            assert(head[i] == s[i]);
            assert(t[i] == head[i]);
        }
    }
}

} // verus!
