//! What the registry knows after a type was registered, and who is told when components come and
//! go.

use vstd::prelude::*;
use crate::component::{ComponentId, INVALID_ID};
use crate::entity::Entity;
use crate::registry::{
    ComponentDesc, ComponentHooks, ComponentSerdeFns, FLAG_ON_ADD, FLAG_ON_REMOVE, FLAG_REQUIRES,
    FLAG_TRACK_REMOVED, InfoView, Named, RegistryState, after_register, after_requires, agrees,
    desc_count, first_full, first_short, flag_of, id_of, infos_agree, infos_wf,
    lemma_after_register, lemma_id_of, named, new_info, requirements, requires_count, serializable,
    suits_types, with_flag, with_map_entities, with_requirement, with_serde,
};
use crate::relations::HookEvent;
use crate::requirements::{added_hooks, lemma_puts_dom, removed_hooks, wants_added, wants_removed};
use crate::storage::CellState;
use crate::text::last_segment;
use crate::world::{
    BundleState, PartState, WorldState, after_registers, after_remove, puts, with_hook_flags,
};

verus! {

/// A type that is registered gets the next number, under which the registry knows what it was told;
/// every type that was registered stays as it was. Registering it again changes nothing.
pub proof fn law_registered_types_are_known(s: RegistryState, d: ComponentDesc, i: int)
    requires
        infos_wf(s.infos),
        s.infos.len() + desc_count(d) <= INVALID_ID,
        0 <= i < s.infos.len(),
    ensures
        ({
            let t = after_register(s, d);
            let n = s.infos.len() as int;
            &&& t.infos[i] == s.infos[i]
            &&& (forall|j: int| 0 <= j < n ==> (#[trigger] s.infos[j]).key != d.key) ==> {
                &&& n < t.infos.len()
                &&& t.infos[n].id == n
                &&& t.infos[n].key == d.key
                &&& t.infos[n].name == d.name@
                &&& t.infos[n].size == d.size
                &&& t.infos[n].align == d.align
                &&& t.infos[n].needs_drop == d.needs_drop
                &&& t.infos[n].serde is None
                &&& t.infos[n].map_entities is None
            }
            &&& s.infos[i].key == d.key ==> t == s
        }),
{
    lemma_after_register(s, d);
    if s.infos[i].key == d.key {
        lemma_id_of(s.infos, i);
    }
}

proof fn lemma_own_requirements(s: RegistryState, id: u32, d: ComponentDesc, n: nat)
    requires
        infos_wf(s.infos),
        id < s.infos.len(),
        n <= d.requires@.len(),
        s.infos.len() + requires_count(d, n) <= INVALID_ID,
    ensures
        ({
            let t = after_requires(s, id, d, n);
            let before = requirements(s, id);
            let now = requirements(t, id);
            &&& infos_wf(t.infos)
            &&& id < t.infos.len()
            &&& s.infos.len() <= t.infos.len() <= s.infos.len() + requires_count(d, n)
            &&& now.len() == before.len() + n
            &&& forall|k: int|
                0 <= k < n ==> (#[trigger] now[before.len() + k]).1 == d.requires@[k].default@
                    && now[before.len() + k].0 < t.infos.len() && t.infos[now[before.len()
                    + k].0 as int].key == d.requires@[k].component.key
        }),
    decreases n,
{
    if n > 0 {
        let n1 = (n - 1) as nat;
        lemma_own_requirements(s, id, d, n1);
        let t = after_requires(s, id, d, n1);
        let r = d.requires@[n - 1];
        lemma_after_register(t, r.component);
        let u = after_register(t, r.component);
        let v = after_requires(s, id, d, n);
        let c = id_of(u.infos, r.component.key)->0;
        let j = choose|j: int| 0 <= j < u.infos.len() && (#[trigger] u.infos[j]).key == r.component.key;
        lemma_id_of(u.infos, j);
        assert(requirements(u, id) == requirements(t, id));
        let before = requirements(s, id);
        let now = requirements(v, id);
        assert(now == requirements(t, id).push((c, r.default@)));
        assert forall|k: int| 0 <= k < n implies (#[trigger] now[before.len() + k]).1
            == d.requires@[k].default@ && now[before.len() + k].0 < v.infos.len()
            && v.infos[now[before.len() + k].0 as int].key == d.requires@[k].component.key by {
            if k < n1 {
                let old = requirements(t, id)[before.len() + k];
                assert(now[before.len() + k] == old);
                assert(u.infos[old.0 as int] == t.infos[old.0 as int]);
            }
        }
    }
}

/// A type that is registered requires what its description says, in that order and with those
/// defaults.
pub proof fn law_described_requirements_are_kept(s: RegistryState, d: ComponentDesc, k: int)
    requires
        infos_wf(s.infos),
        s.infos.len() + desc_count(d) <= INVALID_ID,
        forall|j: int| 0 <= j < s.infos.len() ==> (#[trigger] s.infos[j]).key != d.key,
        requirements(s, s.infos.len() as u32).len() == 0,
        0 <= k < d.requires@.len(),
    ensures
        ({
            let t = after_register(s, d);
            let list = requirements(t, s.infos.len() as u32);
            &&& list.len() == d.requires@.len()
            &&& list[k].1 == d.requires@[k].default@
            &&& list[k].0 < t.infos.len()
            &&& t.infos[list[k].0 as int].key == d.requires@[k].component.key
        }),
{
    let id = s.infos.len() as u32;
    let t = RegistryState { infos: s.infos.push(new_info(id, d)), ..s };
    assert forall|i: int, j: int| 0 <= i < j < t.infos.len() implies (#[trigger] t.infos[i]).key != (
    #[trigger] t.infos[j]).key by {
        if j == s.infos.len() {
            assert(s.infos[i].key != d.key);
        }
    }
    lemma_own_requirements(t, id, d, d.requires@.len());
    let list = requirements(after_register(s, d), id);
    assert(requirements(t, id) == requirements(s, id));
    assert(list[requirements(t, id).len() + k] == list[k]);
}

/// A flag that is set is set for that type and for no other; other flags stay.
pub proof fn law_flags_are_set_alone(s: RegistryState, id: u32, flag: u8, x: u32)
    ensures
        flag_of(with_flag(s, id, flag), x) == if x == id {
            flag_of(s, x) | flag
        } else {
            flag_of(s, x)
        },
        with_flag(s, id, flag).infos == s.infos,
        with_flag(s, id, flag).requires == s.requires,
        with_flag(s, id, flag).any_flags,
{
    let z = 0u8;
    assert(z | flag == flag) by (bit_vector)
        requires
            z == 0,
    ;
}

proof fn lemma_bits(f: u8)
    ensures
        (f | FLAG_ON_ADD) & FLAG_ON_ADD != 0,
        (f | FLAG_ON_ADD) & FLAG_ON_REMOVE == f & FLAG_ON_REMOVE,
        (f | FLAG_ON_ADD) & FLAG_TRACK_REMOVED == f & FLAG_TRACK_REMOVED,
        (f | FLAG_ON_REMOVE) & FLAG_ON_ADD == f & FLAG_ON_ADD,
        (f | FLAG_ON_REMOVE) & FLAG_ON_REMOVE != 0,
        (f | FLAG_ON_REMOVE) & FLAG_TRACK_REMOVED == f & FLAG_TRACK_REMOVED,
        (f | FLAG_TRACK_REMOVED) & FLAG_ON_ADD == f & FLAG_ON_ADD,
        (f | FLAG_TRACK_REMOVED) & FLAG_ON_REMOVE == f & FLAG_ON_REMOVE,
        (f | FLAG_TRACK_REMOVED) & FLAG_TRACK_REMOVED != 0,
        (f | FLAG_REQUIRES) & FLAG_ON_ADD == f & FLAG_ON_ADD,
        (f | FLAG_REQUIRES) & FLAG_ON_REMOVE == f & FLAG_ON_REMOVE,
        (f | FLAG_REQUIRES) & FLAG_TRACK_REMOVED == f & FLAG_TRACK_REMOVED,
{
    assert((f | 1) & 1 != 0 && (f | 1) & 2 == f & 2 && (f | 1) & 4 == f & 4 && (f | 2) & 1 == f & 1
        && (f | 2) & 2 != 0 && (f | 2) & 4 == f & 4 && (f | 4) & 1 == f & 1 && (f | 4) & 2 == f & 2
        && (f | 4) & 4 != 0 && (f | 8) & 1 == f & 1 && (f | 8) & 2 == f & 2 && (f | 8) & 4 == f & 4)
        by (bit_vector);
}

/// Who sets hooks on a type is told of what they are for, and nobody is told of other types for it.
pub proof fn law_hooks_tell_of_what_they_are_for(
    r: RegistryState,
    id: u32,
    hooks: ComponentHooks,
    x: u32,
)
    ensures
        ({
            let t = with_hook_flags(r, id, hooks);
            &&& wants_added(t, x) <==> wants_added(r, x) || (x == id && hooks.on_add is Some)
            &&& wants_removed(t, x) <==> wants_removed(r, x) || (x == id && (
            hooks.on_remove is Some || hooks.emit_removed is Some))
            &&& t.infos == r.infos
            &&& t.requires == r.requires
        }),
{
    let a = if hooks.on_add is Some {
        with_flag(r, id, FLAG_ON_ADD)
    } else {
        r
    };
    let b = if hooks.on_remove is Some {
        with_flag(a, id, FLAG_ON_REMOVE)
    } else {
        a
    };
    law_flags_are_set_alone(r, id, FLAG_ON_ADD, x);
    law_flags_are_set_alone(a, id, FLAG_ON_REMOVE, x);
    law_flags_are_set_alone(b, id, FLAG_TRACK_REMOVED, x);
    lemma_bits(flag_of(r, x));
    lemma_bits(flag_of(a, x));
    lemma_bits(flag_of(b, x));
}

/// Declaring a requirement tells nobody anything.
pub proof fn law_requirements_tell_nobody(s: RegistryState, id: u32, q: (u32, Seq<u8>), x: u32)
    ensures
        wants_added(with_requirement(s, id, q), x) == wants_added(s, x),
        wants_removed(with_requirement(s, id, q), x) == wants_removed(s, x),
        requirements(with_requirement(s, id, q), x) == if x == id {
            requirements(s, x).push(q)
        } else {
            requirements(s, x)
        },
{
    let t = RegistryState { requires: s.requires.insert(id as u64, requirements(s, id).push(q)), ..s };
    law_flags_are_set_alone(t, id, FLAG_REQUIRES, x);
    lemma_bits(flag_of(s, x));
}

/// The hooks after a write are one for each component that appears and that someone wants to know
/// of, and none for others.
pub proof fn law_hooks_tell_of_what_appears(
    r: RegistryState,
    e: Entity,
    m: Map<u32, CellState>,
    parts: Seq<PartState>,
    n: nat,
    h: HookEvent,
)
    requires
        n <= parts.len(),
    ensures
        added_hooks(r, e, m, parts, n).contains(h) <==> {
            &&& h is ComponentAdded
            &&& h->ComponentAdded_entity == e
            &&& !m.contains_key(h->ComponentAdded_component)
            &&& puts(m, parts, n).contains_key(h->ComponentAdded_component)
            &&& wants_added(r, h->ComponentAdded_component)
        },
        added_hooks(r, e, m, parts, n).no_duplicates(),
    decreases n,
{
    if n > 0 {
        let n1 = (n - 1) as nat;
        law_hooks_tell_of_what_appears(r, e, m, parts, n1, h);
        let head = added_hooks(r, e, m, parts, n1);
        let all = added_hooks(r, e, m, parts, n);
        let id = parts[n - 1].id;
        let before = puts(m, parts, n1);
        lemma_puts_dom(m, parts, n1, id);
        if h is ComponentAdded {
            lemma_puts_dom(m, parts, n1, h->ComponentAdded_component);
        }
        if !before.contains_key(id) && wants_added(r, id) {
            let x = HookEvent::ComponentAdded { component: id, entity: e };
            assert(all == head.push(x));
            law_hooks_tell_of_what_appears(r, e, m, parts, n1, x);
            assert(!head.contains(x));
            assert(all.contains(h) <==> head.contains(h) || h == x) by {
                if head.contains(h) {
                    let i = choose|i: int| 0 <= i < head.len() && head[i] == h;
                    assert(all[i] == h);
                }
                if h == x {
                    assert(all[head.len() as int] == x);
                }
            }
            assert forall|i: int, j: int|
                0 <= i < all.len() && 0 <= j < all.len() && i != j implies all[i] != all[j] by {
                if i < head.len() && j < head.len() {
                    assert(head[i] != head[j]);
                } else if i < head.len() {
                    assert(head.contains(head[i]));
                } else {
                    assert(head.contains(head[j]));
                }
            }
        }
    }
}

/// The hooks after an entity lost its components are one for each of these that someone wants to
/// know of, by the number of the type.
pub proof fn law_hooks_tell_of_what_goes(
    r: RegistryState,
    e: Entity,
    m: Map<u32, CellState>,
    n: nat,
    h: HookEvent,
)
    requires
        n <= u32::MAX,
    ensures
        removed_hooks(r, e, m, n).contains(h) <==> {
            &&& h is ComponentRemoved
            &&& h->ComponentRemoved_entity == e
            &&& h->ComponentRemoved_component < n
            &&& m.contains_key(h->ComponentRemoved_component)
            &&& wants_removed(r, h->ComponentRemoved_component)
        },
        removed_hooks(r, e, m, n).no_duplicates(),
    decreases n,
{
    if n > 0 {
        let n1 = (n - 1) as nat;
        law_hooks_tell_of_what_goes(r, e, m, n1, h);
        let head = removed_hooks(r, e, m, n1);
        let all = removed_hooks(r, e, m, n);
        let id = n1 as u32;
        if m.contains_key(id) && wants_removed(r, id) {
            let x = HookEvent::ComponentRemoved { component: id, entity: e };
            assert(all == head.push(x));
            law_hooks_tell_of_what_goes(r, e, m, n1, x);
            assert(!head.contains(x));
            assert(all.contains(h) <==> head.contains(h) || h == x) by {
                if head.contains(h) {
                    let i = choose|i: int| 0 <= i < head.len() && head[i] == h;
                    assert(all[i] == h);
                }
                if h == x {
                    assert(all[head.len() as int] == x);
                }
            }
            assert forall|i: int, j: int|
                0 <= i < all.len() && 0 <= j < all.len() && i != j implies all[i] != all[j] by {
                if i < head.len() && j < head.len() {
                    assert(head[i] != head[j]);
                } else if i < head.len() {
                    assert(head.contains(head[i]));
                } else {
                    assert(head.contains(head[j]));
                }
            }
        }
    }
}

/// Removing a component tells those who want to know, where the entity had it, and nobody else.
pub proof fn law_removing_tells_who_asked(w: WorldState, e: Entity, id: u32)
    ensures
        after_remove(w, e, id).relations.hooks == if w.values.contains_key(e)
            && w.values[e].contains_key(id) && wants_removed(w.registry, id) {
            w.relations.hooks.push(HookEvent::ComponentRemoved { component: id, entity: e })
        } else {
            w.relations.hooks
        },
{
    assert(w.relations.hooks + seq![HookEvent::ComponentRemoved { component: id, entity: e }]
        =~= w.relations.hooks.push(HookEvent::ComponentRemoved { component: id, entity: e }));
}

/// Functions that are set for a type are set for that type, and nothing else is known otherwise.
pub proof fn law_functions_are_set_alone(
    s: RegistryState,
    id: u32,
    fns: ComponentSerdeFns,
    f: u64,
    i: int,
)
    requires
        id < s.infos.len(),
        0 <= i < s.infos.len(),
    ensures
        with_serde(s, id, fns).infos[i] == if i == id {
            InfoView { serde: Some(fns), ..s.infos[i] }
        } else {
            s.infos[i]
        },
        with_serde(s, id, fns).infos.len() == s.infos.len(),
        with_map_entities(s, id, f).infos[i] == if i == id {
            InfoView { map_entities: Some(f), ..s.infos[i] }
        } else {
            s.infos[i]
        },
        with_map_entities(s, id, f).any_map_entities,
{
}

/// The types that are serialized are listed each once, by number.
pub proof fn law_serialized_types_are_listed(infos: Seq<InfoView>, n: nat, i: int)
    requires
        infos_wf(infos),
        n <= infos.len(),
        0 <= i < infos.len(),
    ensures
        serializable(infos, n).contains(ComponentId(i as u32)) <==> i < n && infos[i].serde is Some,
        forall|a: int, b: int|
            0 <= a < b < serializable(infos, n).len() ==> (#[trigger] serializable(infos, n)[a]).0 < (
            #[trigger] serializable(infos, n)[b]).0,
        forall|a: int|
            0 <= a < serializable(infos, n).len() ==> (#[trigger] serializable(infos, n)[a]).0 < n,
    decreases n,
{
    if n > 0 {
        law_serialized_types_are_listed(infos, (n - 1) as nat, i);
        let head = serializable(infos, (n - 1) as nat);
        let all = serializable(infos, n);
        let c = ComponentId(i as u32);
        assert(infos[n - 1].id == n - 1);
        if infos[n - 1].serde is Some {
            assert(all == head.push(ComponentId(infos[n - 1].id)));
            if head.contains(c) {
                let k = choose|k: int| 0 <= k < head.len() && head[k] == c;
                assert(all[k] == c);
            }
            if i == n - 1 {
                assert(all[head.len() as int] == c);
            }
            if all.contains(c) && i != n - 1 {
                let k = choose|k: int| 0 <= k < all.len() && all[k] == c;
                assert(head[k] == c);
            }
        }
    }
}

proof fn lemma_first_full(infos: Seq<InfoView>, name: Seq<char>, from: nat)
    requires
        from <= infos.len(),
    ensures
        from <= first_full(infos, name, from) <= infos.len(),
        first_full(infos, name, from) < infos.len() ==> infos[first_full(
            infos,
            name,
            from,
        ) as int].name == name,
        forall|j: int|
            from <= j < first_full(infos, name, from) ==> (#[trigger] infos[j]).name != name,
    decreases infos.len() - from,
{
    if from < infos.len() && infos[from as int].name != name {
        lemma_first_full(infos, name, from + 1);
    }
}

proof fn lemma_first_short(infos: Seq<InfoView>, name: Seq<char>, from: nat)
    requires
        from <= infos.len(),
    ensures
        from <= first_short(infos, name, from) <= infos.len(),
        first_short(infos, name, from) < infos.len() ==> last_segment(
            infos[first_short(infos, name, from) as int].name,
        ) == name,
        forall|j: int|
            from <= j < first_short(infos, name, from) ==> last_segment((#[trigger] infos[j]).name)
                != name,
    decreases infos.len() - from,
{
    if from < infos.len() && last_segment(infos[from as int].name) != name {
        lemma_first_short(infos, name, from + 1);
    }
}

/// A full name stands for the first type of that name, whatever other names end in. A last segment
/// stands for the only type that ends in it; it is ambiguous where two do, and unknown where none
/// does.
pub proof fn law_names_stand_for_registered_types(infos: Seq<InfoView>, name: Seq<char>)
    ensures
        match named(infos, name) {
            Named::One(i) => {
                &&& 0 <= i < infos.len()
                &&& infos[i].name == name || last_segment(infos[i].name) == name
                &&& infos[i].name == name ==> forall|j: int|
                    0 <= j < i ==> (#[trigger] infos[j]).name != name
                &&& infos[i].name != name ==> forall|j: int|
                    0 <= j < infos.len() ==> (#[trigger] infos[j]).name != name && (j == i
                        || last_segment(infos[j].name) != name)
            },
            Named::Two(i, j) => {
                &&& 0 <= i < j < infos.len()
                &&& last_segment(infos[i].name) == name
                &&& last_segment(infos[j].name) == name
                &&& forall|k: int| 0 <= k < infos.len() ==> (#[trigger] infos[k]).name != name
                &&& forall|k: int|
                    0 <= k < j && k != i ==> last_segment((#[trigger] infos[k]).name) != name
            },
            Named::Zero => forall|k: int|
                0 <= k < infos.len() ==> (#[trigger] infos[k]).name != name && last_segment(
                    infos[k].name,
                ) != name,
        },
{
    lemma_first_full(infos, name, 0);
    lemma_first_short(infos, name, 0);
    let first = first_short(infos, name, 0);
    if first < infos.len() {
        lemma_first_short(infos, name, first + 1);
    }
}

/// A description that can be registered has the size that its type is known with.
pub proof fn law_sizes_do_not_change(infos: Seq<InfoView>, d: ComponentDesc, i: int)
    requires
        infos_wf(infos),
        0 <= i < infos.len(),
        infos[i].key == d.key,
    ensures
        suits_types(infos, d) ==> infos[i].size == d.size,
        d.requires@.len() == 0 && infos[i].size == d.size ==> suits_types(infos, d),
{
    if suits_types(infos, d) {
        let sizes = choose|sizes: Map<u64, usize>| #[trigger]
            infos_agree(sizes, infos) && agrees(sizes, d);
        assert(sizes.contains_key(infos[i].key));
    }
    if d.requires@.len() == 0 && infos[i].size == d.size {
        let sizes = Map::<u64, usize>::new(
            |k: u64| id_of(infos, k) is Some,
            |k: u64| infos[id_of(infos, k)->0 as int].size,
        );
        assert forall|j: int| 0 <= j < infos.len() implies sizes.contains_key(
            (#[trigger] infos[j]).key,
        ) && sizes[infos[j].key] == infos[j].size by {
            lemma_id_of(infos, j);
        }
        lemma_id_of(infos, i);
        assert(infos_agree(sizes, infos));
        assert(agrees(sizes, d));
    }
}

/// Hooks come in the order in which components are written.
pub proof fn law_hooks_come_in_the_order_of_writing(
    r: RegistryState,
    e: Entity,
    m: Map<u32, CellState>,
    parts: Seq<PartState>,
    n: nat,
)
    requires
        n < parts.len(),
    ensures
        added_hooks(r, e, m, parts, 0).len() == 0,
        added_hooks(r, e, m, parts, n + 1) == if !puts(m, parts, n).contains_key(parts[n as int].id)
            && wants_added(r, parts[n as int].id) {
            added_hooks(r, e, m, parts, n).push(
                HookEvent::ComponentAdded { component: parts[n as int].id, entity: e },
            )
        } else {
            added_hooks(r, e, m, parts, n)
        },
{
}

/// The types of a bundle are registered in the order of its parts, and what a type requires in the
/// order of its description, each before the next.
pub proof fn law_types_are_registered_in_turn(
    r: RegistryState,
    bundle: Seq<BundleState>,
    n: nat,
    id: u32,
    d: ComponentDesc,
    k: nat,
)
    requires
        k < d.requires@.len(),
    ensures
        after_registers(r, bundle, 0) == r,
        after_registers(r, bundle, n + 1) == after_register(
            after_registers(r, bundle, n),
            bundle[n as int].desc,
        ),
        after_requires(r, id, d, 0) == r,
        ({
            let q = d.requires@[k as int];
            let t = after_register(after_requires(r, id, d, k), q.component);
            after_requires(r, id, d, k + 1) == with_requirement(
                t,
                id,
                (id_of(t.infos, q.component.key)->0, q.default@),
            )
        }),
{
}

} // verus!
