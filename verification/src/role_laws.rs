//! What queries find: by the roles of component types, by alternatives and conjunctions, and by
//! when components changed.

use vstd::prelude::*;
use crate::component::{
    INVALID_ID, Tick, law_newer_is_after_the_run, law_newer_orders_ticks, newer, ticks_after,
};
use crate::entity::{Entity, location_of};
use crate::query::{
    QueryState, aliased, entity_at, hits, item_values, law_candidates, self_alias, whole,
};
use crate::query_laws::{
    law_query_takes_what_its_shape_takes, law_rows_come_in_order, lemma_row_of, matched_at,
};
use crate::relation_index::{joined, lists_targets};
use crate::relation_query::{
    hit_of, law_walk_comes_by_the_subjects_taken, sorted_rows, takes_entity,
};
use crate::registry::{InfoView, infos_wf, lemma_id_of};
use crate::access::{law_merge_is_union, with_keys};
use crate::shape::{
    Role, Shape, access_keys, access_keys_upto, access_upto, all_take, any_takes, data_access,
    is_read_only, law_rows_are_taken_by_their_components, lemma_part_smaller, parts, read_only_upto,
    resolved, takes,
};
use crate::storage::CellState;
use crate::world::{World, after_write};

verus! {

/// Whether a query for a shape over a whole world yields an entity.
pub open spec fn finds(w: World, s: Shape, last_run: Tick, e: Entity) -> bool {
    exists|i: int| matched_at(whole(w, s, last_run), e, i)
}

/// Whether a tick comes after a run, by no more than half the range of ticks around the wrap.
pub open spec fn is_since(t: Tick, last_run: Tick) -> bool {
    exists|d: int| 1 <= d <= i32::MAX && t == #[trigger] ticks_after(last_run, d)
}

proof fn lemma_since(t: Tick, last_run: Tick)
    ensures
        newer(t, last_run) == is_since(t, last_run),
{
    let d = if t.0 >= last_run.0 {
        t.0 - last_run.0
    } else {
        t.0 - last_run.0 + 0x1_0000_0000
    };
    if t.0 >= last_run.0 {
        assert((last_run.0 + d) % 0x1_0000_0000 == t.0);
    } else {
        assert((last_run.0 + d) % 0x1_0000_0000 == t.0);
    }
    assert(ticks_after(last_run, d) == t);
    law_newer_is_after_the_run(last_run, d);
    if is_since(t, last_run) {
        let x = choose|x: int| 1 <= x <= i32::MAX && t == #[trigger] ticks_after(last_run, x);
        law_newer_is_after_the_run(last_run, x);
    }
}

/// A query for one component type finds, by its role: who has the component; who lacks it; everyone
/// where the component is optional; who has it and whose component changed, or was added, since
/// the last run. It finds live entities only.
pub proof fn law_roles_say_who_is_found(w: World, id: u32, last_run: Tick, e: Entity)
    requires
        w.wf(),
        id < w@.registry.infos.len(),
    ensures
        ({
            let key = w@.registry.infos[id as int].key;
            let live = w@.values.contains_key(e);
            let there = live && w@.values[e].contains_key(id);
            &&& finds(w, Shape::Component(Role::Read, key), last_run, e) <==> there
            &&& finds(w, Shape::Component(Role::Write, key), last_run, e) <==> there
            &&& finds(w, Shape::Component(Role::With, key), last_run, e) <==> there
            &&& finds(w, Shape::Component(Role::Without, key), last_run, e) <==> live && !there
            &&& finds(w, Shape::Component(Role::Maybe, key), last_run, e) <==> live
            &&& finds(w, Shape::Component(Role::MaybeWrite, key), last_run, e) <==> live
            &&& finds(w, Shape::Component(Role::Changed, key), last_run, e) <==> there && is_since(
                w@.values[e][id].changed,
                last_run,
            )
            &&& finds(w, Shape::Component(Role::Added, key), last_run, e) <==> there && is_since(
                w@.values[e][id].added,
                last_run,
            )
            &&& finds(w, Shape::Entity, last_run, e) <==> live
            &&& finds(w, Shape::Unit, last_run, e) <==> live
        }),
{
    w.lemma_wf();
    let infos = w@.registry.infos;
    let key = infos[id as int].key;
    lemma_id_of(infos, id as int);
    assert(resolved(infos, key) == id);
    law_query_takes_what_its_shape_takes(w, Shape::Component(Role::Read, key), last_run, e);
    law_query_takes_what_its_shape_takes(w, Shape::Component(Role::Write, key), last_run, e);
    law_query_takes_what_its_shape_takes(w, Shape::Component(Role::With, key), last_run, e);
    law_query_takes_what_its_shape_takes(w, Shape::Component(Role::Without, key), last_run, e);
    law_query_takes_what_its_shape_takes(w, Shape::Component(Role::Maybe, key), last_run, e);
    law_query_takes_what_its_shape_takes(w, Shape::Component(Role::MaybeWrite, key), last_run, e);
    law_query_takes_what_its_shape_takes(w, Shape::Component(Role::Changed, key), last_run, e);
    law_query_takes_what_its_shape_takes(w, Shape::Component(Role::Added, key), last_run, e);
    law_query_takes_what_its_shape_takes(w, Shape::Entity, last_run, e);
    law_query_takes_what_its_shape_takes(w, Shape::Unit, last_run, e);
    if w@.values.contains_key(e) && w@.values[e].contains_key(id) {
        lemma_since(w@.values[e][id].changed, last_run);
        lemma_since(w@.values[e][id].added, last_run);
    }
}

/// A component type that is not registered is one that nobody has.
pub proof fn law_nobody_has_an_unknown_type(w: World, role: Role, key: u64, last_run: Tick, e: Entity)
    requires
        w.wf(),
        forall|i: int|
            0 <= i < w@.registry.infos.len() ==> (#[trigger] w@.registry.infos[i]).key != key,
    ensures
        finds(w, Shape::Component(role, key), last_run, e) <==> w@.values.contains_key(e) && (role
            == Role::Without || role == Role::Maybe || role == Role::MaybeWrite),
{
    w.lemma_wf();
    law_query_takes_what_its_shape_takes(w, Shape::Component(role, key), last_run, e);
    if w@.values.contains_key(e) && w@.values[e].contains_key(INVALID_ID) {
        w.lemma_components_known(e, INVALID_ID);
    }
}

proof fn lemma_any(infos: Seq<InfoView>, m: Map<u32, CellState>, last_run: Tick, s: Shape, n: nat)
    requires
        n <= parts(s).len(),
    ensures
        any_takes(infos, m, last_run, s, n) <==> exists|i: int|
            0 <= i < n && takes(infos, m, last_run, #[trigger] parts(s)[i]),
    decreases n,
{
    if n > 0 {
        lemma_any(infos, m, last_run, s, (n - 1) as nat);
        if takes(infos, m, last_run, parts(s)[n - 1]) {
            assert(0 <= n - 1 < n && takes(infos, m, last_run, parts(s)[n - 1]));
        }
    }
}

proof fn lemma_all(infos: Seq<InfoView>, m: Map<u32, CellState>, last_run: Tick, s: Shape, n: nat)
    requires
        n <= parts(s).len(),
    ensures
        all_take(infos, m, last_run, s, n) <==> forall|i: int|
            0 <= i < n ==> takes(infos, m, last_run, #[trigger] parts(s)[i]),
    decreases n,
{
    if n > 0 {
        lemma_all(infos, m, last_run, s, (n - 1) as nat);
    }
}

/// A disjunction finds whom one of its branches finds, wherever the branch stands.
pub proof fn law_alternatives_find_what_either_finds(
    w: World,
    branches: Vec<Shape>,
    last_run: Tick,
    e: Entity,
)
    requires
        w.wf(),
    ensures
        finds(w, Shape::Or(branches), last_run, e) <==> exists|i: int|
            0 <= i < branches@.len() && finds(w, #[trigger] branches@[i], last_run, e),
{
    let s = Shape::Or(branches);
    let infos = w@.registry.infos;
    law_query_takes_what_its_shape_takes(w, s, last_run, e);
    lemma_any(infos, w@.values[e], last_run, s, branches@.len());
    assert forall|i: int| 0 <= i < branches@.len() implies (finds(
        w,
        #[trigger] branches@[i],
        last_run,
        e,
    ) <==> w@.values.contains_key(e) && takes(infos, w@.values[e], last_run, parts(s)[i])) by {
        law_query_takes_what_its_shape_takes(w, branches@[i], last_run, e);
    }
    if finds(w, s, last_run, e) {
        let i = choose|i: int|
            0 <= i < branches@.len() && takes(
                infos,
                w@.values[e],
                last_run,
                #[trigger] parts(s)[i],
            );
        assert(finds(w, branches@[i], last_run, e));
    }
    if (exists|i: int| 0 <= i < branches@.len() && finds(w, #[trigger] branches@[i], last_run, e)) {
        let i = choose|i: int|
            0 <= i < branches@.len() && finds(w, #[trigger] branches@[i], last_run, e);
        assert(takes(infos, w@.values[e], last_run, parts(s)[i]));
    }
}

/// A shape of several parts finds the live entities that every part finds.
pub proof fn law_conjunctions_find_what_all_find(
    w: World,
    all: Vec<Shape>,
    last_run: Tick,
    e: Entity,
)
    requires
        w.wf(),
    ensures
        finds(w, Shape::All(all), last_run, e) <==> w@.values.contains_key(e) && forall|i: int|
            0 <= i < all@.len() ==> finds(w, #[trigger] all@[i], last_run, e),
{
    let s = Shape::All(all);
    let infos = w@.registry.infos;
    law_query_takes_what_its_shape_takes(w, s, last_run, e);
    lemma_all(infos, w@.values[e], last_run, s, all@.len());
    assert forall|i: int| 0 <= i < all@.len() implies (finds(w, #[trigger] all@[i], last_run, e)
        <==> w@.values.contains_key(e) && takes(infos, w@.values[e], last_run, parts(s)[i])) by {
        law_query_takes_what_its_shape_takes(w, all@[i], last_run, e);
    }
    if finds(w, s, last_run, e) {
        assert forall|i: int| 0 <= i < all@.len() implies finds(
            w,
            #[trigger] all@[i],
            last_run,
            e,
        ) by {
            assert(takes(infos, w@.values[e], last_run, parts(s)[i]));
        }
    }
    if w@.values.contains_key(e) && (forall|i: int|
        0 <= i < all@.len() ==> finds(w, #[trigger] all@[i], last_run, e)) {
        assert forall|i: int| 0 <= i < all@.len() implies takes(
            infos,
            w@.values[e],
            last_run,
            #[trigger] parts(s)[i],
        ) by {
            assert(finds(w, all@[i], last_run, e));
        }
    }
}

/// A write is seen by every run before it: once a component was written, a query for changes finds
/// the entity exactly where the last run came before the tick of the write, by no more than half
/// the range of ticks. The write is no addition.
pub proof fn law_writes_are_seen_by_runs_before(
    w: World,
    t: World,
    e: Entity,
    id: u32,
    value: Seq<u8>,
    last_run: Tick,
)
    requires
        w.wf(),
        t.wf(),
        id < w@.registry.infos.len(),
        w@.values.contains_key(e),
        w@.values[e].contains_key(id),
        t@ == after_write(w@, e, id, value, w@.tick),
    ensures
        ({
            let key = w@.registry.infos[id as int].key;
            let changed = Shape::Component(Role::Changed, key);
            let added = Shape::Component(Role::Added, key);
            &&& finds(t, changed, last_run, e) <==> is_since(w@.tick, last_run)
            &&& finds(t, added, last_run, e) <==> finds(w, added, last_run, e)
            &&& forall|x: Entity|
                x != e ==> (#[trigger] finds(t, changed, last_run, x) <==> finds(
                    w,
                    changed,
                    last_run,
                    x,
                ))
        }),
{
    let key = w@.registry.infos[id as int].key;
    let changed = Shape::Component(Role::Changed, key);
    law_roles_say_who_is_found(w, id, last_run, e);
    law_roles_say_who_is_found(t, id, last_run, e);
    assert forall|x: Entity| x != e implies (#[trigger] finds(t, changed, last_run, x) <==> finds(
        w,
        changed,
        last_run,
        x,
    )) by {
        law_roles_say_who_is_found(w, id, last_run, x);
        law_roles_say_who_is_found(t, id, last_run, x);
    }
}

/// What a query hands out for one component type is the value of the component, and nothing for an
/// optional one that is missing. Filters hand out nothing.
pub proof fn law_items_hold_the_values(infos: Seq<InfoView>, m: Map<u32, CellState>, id: u32)
    requires
        infos_wf(infos),
        id < infos.len(),
    ensures
        ({
            let key = infos[id as int].key;
            let value = if m.contains_key(id) {
                Some(m[id].value)
            } else {
                None
            };
            let none = Seq::<Option<Seq<u8>>>::empty();
            &&& item_values(infos, m, Shape::Component(Role::Read, key)) == seq![value]
            &&& item_values(infos, m, Shape::Component(Role::Write, key)) == seq![value]
            &&& item_values(infos, m, Shape::Component(Role::Maybe, key)) == seq![value]
            &&& item_values(infos, m, Shape::Component(Role::MaybeWrite, key)) == seq![value]
            &&& item_values(infos, m, Shape::Component(Role::With, key)) == none
            &&& item_values(infos, m, Shape::Component(Role::Without, key)) == none
            &&& item_values(infos, m, Shape::Component(Role::Changed, key)) == none
            &&& item_values(infos, m, Shape::Component(Role::Added, key)) == none
            &&& item_values(infos, m, Shape::Entity) == none
            &&& item_values(infos, m, Shape::Unit) == none
        }),
{
    let key = infos[id as int].key;
    lemma_id_of(infos, id as int);
    let value = if m.contains_key(id) {
        Some(m[id].value)
    } else {
        None
    };
    assert(item_values(infos, m, Shape::Component(Role::Read, key)) =~= seq![value]);
    assert(item_values(infos, m, Shape::Component(Role::Write, key)) =~= seq![value]);
    assert(item_values(infos, m, Shape::Component(Role::Maybe, key)) =~= seq![value]);
    assert(item_values(infos, m, Shape::Component(Role::MaybeWrite, key)) =~= seq![value]);
    let none = Seq::<Option<Seq<u8>>>::empty();
    assert(item_values(infos, m, Shape::Component(Role::With, key)) =~= none);
    assert(item_values(infos, m, Shape::Component(Role::Without, key)) =~= none);
    assert(item_values(infos, m, Shape::Component(Role::Changed, key)) =~= none);
    assert(item_values(infos, m, Shape::Component(Role::Added, key)) =~= none);
    assert(item_values(infos, m, Shape::Entity) =~= none);
    assert(item_values(infos, m, Shape::Unit) =~= none);
}

/// The values of several shapes, one after the other.
pub open spec fn values_in_turn(infos: Seq<InfoView>, m: Map<u32, CellState>, all: Seq<Shape>) -> Seq<
    Option<Seq<u8>>,
>
    decreases all.len(),
{
    if all.len() == 0 {
        Seq::empty()
    } else {
        values_in_turn(infos, m, all.drop_last()) + item_values(infos, m, all.last())
    }
}

/// A shape of several parts hands out what its parts do, in their order; a disjunction hands out
/// nothing.
pub proof fn law_parts_hand_out_their_values_in_turn(
    infos: Seq<InfoView>,
    m: Map<u32, CellState>,
    all: Vec<Shape>,
)
    ensures
        item_values(infos, m, Shape::All(all)) == values_in_turn(infos, m, all@),
        item_values(infos, m, Shape::Or(all)) == Seq::<Option<Seq<u8>>>::empty(),
{
    let s = Shape::All(all);
    lemma_values_upto(infos, m, s, all@.len());
    assert(all@.subrange(0, all@.len() as int) =~= all@);
    assert(item_values(infos, m, Shape::Or(all)) =~= Seq::<Option<Seq<u8>>>::empty());
}

proof fn lemma_values_upto(infos: Seq<InfoView>, m: Map<u32, CellState>, s: Shape, n: nat)
    requires
        n <= parts(s).len(),
    ensures
        access_upto(infos, s, n).map_values(
            |x: (u32, bool)|
                if m.contains_key(x.0) {
                    Some(m[x.0].value)
                } else {
                    None
                },
        ) == values_in_turn(infos, m, parts(s).subrange(0, n as int)),
    decreases n,
{
    let f = |x: (u32, bool)|
        if m.contains_key(x.0) {
            Some(m[x.0].value)
        } else {
            None
        };
    let all = parts(s).subrange(0, n as int);
    if n == 0 {
        assert(access_upto(infos, s, 0).map_values(f) =~= values_in_turn(infos, m, all));
    } else {
        let n1 = (n - 1) as nat;
        lemma_values_upto(infos, m, s, n1);
        assert(all.drop_last() =~= parts(s).subrange(0, n1 as int));
        assert(all.last() == parts(s)[n - 1]);
        let head = access_upto(infos, s, n1);
        let more = data_access(infos, parts(s)[n - 1]);
        assert((head + more).map_values(f) =~= head.map_values(f) + more.map_values(f));
    }
}

/// The access that a shape declares is that of its components: what is excluded is not accessed,
/// what is written is declared as written, everything else as read.
pub proof fn law_components_declare_their_access(role: Role, key: u64, k: u64)
    ensures
        ({
            let (reads, writes) = access_keys(Shape::Component(role, key));
            &&& writes.contains(k) <==> k == key && (role == Role::Write || role
                == Role::MaybeWrite)
            &&& reads.contains(k) <==> k == key && role != Role::Write && role != Role::MaybeWrite
                && role != Role::Without
        }),
{
    let (reads, writes) = access_keys(Shape::Component(role, key));
    if reads.len() > 0 {
        assert(reads[0] == key);
    }
    if writes.len() > 0 {
        assert(writes[0] == key);
    }
}

proof fn lemma_access_upto(s: Shape, n: nat, k: u64)
    requires
        n <= parts(s).len(),
    ensures
        access_keys_upto(s, n).0.contains(k) <==> exists|i: int|
            0 <= i < n && access_keys(#[trigger] parts(s)[i]).0.contains(k),
        access_keys_upto(s, n).1.contains(k) <==> exists|i: int|
            0 <= i < n && access_keys(#[trigger] parts(s)[i]).1.contains(k),
    decreases n,
{
    if n > 0 {
        let n1 = (n - 1) as nat;
        lemma_access_upto(s, n1, k);
        let (reads, writes) = access_keys_upto(s, n1);
        let (more_reads, more_writes) = access_keys(parts(s)[n - 1]);
        law_merge_is_union(reads, more_reads, more_reads.len(), k);
        law_merge_is_union(writes, more_writes, more_writes.len(), k);
        assert(more_reads.subrange(0, more_reads.len() as int) =~= more_reads);
        assert(more_writes.subrange(0, more_writes.len() as int) =~= more_writes);
        if more_reads.contains(k) {
            assert(0 <= n - 1 < n && access_keys(parts(s)[n - 1]).0.contains(k));
        }
        if more_writes.contains(k) {
            assert(0 <= n - 1 < n && access_keys(parts(s)[n - 1]).1.contains(k));
        }
        if reads.contains(k) {
            let i = choose|i: int| 0 <= i < n1 && access_keys(#[trigger] parts(s)[i]).0.contains(k);
            assert(0 <= i < n && access_keys(parts(s)[i]).0.contains(k));
        }
        if writes.contains(k) {
            let i = choose|i: int| 0 <= i < n1 && access_keys(#[trigger] parts(s)[i]).1.contains(k);
            assert(0 <= i < n && access_keys(parts(s)[i]).1.contains(k));
        }
    }
}

/// A shape of several parts or branches declares the access of each of them, and no other.
pub proof fn law_shapes_declare_the_access_of_their_parts(all: Vec<Shape>, k: u64)
    ensures
        access_keys(Shape::All(all)).0.contains(k) <==> exists|i: int|
            0 <= i < all@.len() && access_keys(#[trigger] all@[i]).0.contains(k),
        access_keys(Shape::All(all)).1.contains(k) <==> exists|i: int|
            0 <= i < all@.len() && access_keys(#[trigger] all@[i]).1.contains(k),
        access_keys(Shape::Or(all)).0.contains(k) <==> exists|i: int|
            0 <= i < all@.len() && access_keys(#[trigger] all@[i]).0.contains(k),
        access_keys(Shape::Or(all)).1.contains(k) <==> exists|i: int|
            0 <= i < all@.len() && access_keys(#[trigger] all@[i]).1.contains(k),
{
    lemma_access_upto(Shape::All(all), all@.len(), k);
    lemma_access_upto(Shape::Or(all), all@.len(), k);
}

/// A shape is for reading exactly where it declares no writes.
pub proof fn law_read_only_shapes_declare_no_writes(s: Shape)
    ensures
        is_read_only(s) <==> access_keys(s).1.len() == 0,
    decreases s, parts(s).len() + 1,
{
    match s {
        Shape::Or(v) => lemma_read_only_upto(s, v@.len()),
        Shape::All(v) => lemma_read_only_upto(s, v@.len()),
        _ => {},
    }
}

proof fn lemma_read_only_upto(s: Shape, n: nat)
    requires
        n <= parts(s).len(),
    ensures
        read_only_upto(s, n) <==> access_keys_upto(s, n).1.len() == 0,
    decreases s, n,
{
    if n > 0 {
        let n1 = (n - 1) as nat;
        lemma_read_only_upto(s, n1);
        lemma_part_smaller(s, n - 1);
        law_read_only_shapes_declare_no_writes(parts(s)[n - 1]);
        let writes = access_keys_upto(s, n1).1;
        let more = access_keys(parts(s)[n - 1]).1;
        law_merge_is_union(writes, more, more.len(), 0);
        if more.len() > 0 {
            law_merge_is_union(writes, more, more.len(), more[0]);
            assert(more.subrange(0, more.len() as int)[0] == more[0]);
            let all = with_keys(writes, more, more.len());
            assert(more.subrange(0, more.len() as int).contains(more[0]));
            assert(all.contains(more[0]));
        }
    }
}

/// Whether a part hands out a component, for writing where `write` says so.
pub open spec fn hands_out(s: Shape, key: u64, write: bool) -> bool {
    ||| !write && (s == Shape::Component(Role::Read, key) || s == Shape::Component(
        Role::Maybe,
        key,
    ))
    ||| write && (s == Shape::Component(Role::Write, key) || s == Shape::Component(
        Role::MaybeWrite,
        key,
    ))
}

/// Two parts that hand out one registered component, one of them for writing, alias it.
pub proof fn law_one_component_twice_is_aliased(
    infos: Seq<InfoView>,
    all: Vec<Shape>,
    i: int,
    j: int,
    id: u32,
    first: bool,
    second: bool,
)
    requires
        infos_wf(infos),
        id < infos.len(),
        0 <= i < j < all@.len(),
        hands_out(all@[i], infos[id as int].key, first),
        hands_out(all@[j], infos[id as int].key, second),
        first || second,
    ensures
        self_alias(infos, Shape::All(all)),
{
    let s = Shape::All(all);
    let n = all@.len();
    lemma_id_of(infos, id as int);
    let a = access_upto(infos, s, i as nat).len() as int;
    let b = access_upto(infos, s, j as nat).len() as int;
    lemma_access_grows(infos, s, (i + 1) as nat, n);
    lemma_access_grows(infos, s, (j + 1) as nat, n);
    lemma_access_grows(infos, s, (i + 1) as nat, j as nat);
    let access = access_upto(infos, s, n);
    assert(data_access(infos, all@[i]) == seq![(id, first)]);
    assert(data_access(infos, all@[j]) == seq![(id, second)]);
    assert(access_upto(infos, s, (i + 1) as nat)[a] == (id, first));
    assert(access_upto(infos, s, (j + 1) as nat)[b] == (id, second));
    assert(access[a] == (id, first));
    assert(access[b] == (id, second));
    assert(a < b);
    assert(aliased(data_access(infos, s), a, b));
}

proof fn lemma_access_grows(infos: Seq<InfoView>, s: Shape, m: nat, n: nat)
    requires
        m <= n <= parts(s).len(),
    ensures
        access_upto(infos, s, m).len() <= access_upto(infos, s, n).len(),
        forall|k: int|
            0 <= k < access_upto(infos, s, m).len() ==> #[trigger] access_upto(infos, s, n)[k]
                == access_upto(infos, s, m)[k],
    decreases n,
{
    if m < n {
        lemma_access_grows(infos, s, m, (n - 1) as nat);
        let head = access_upto(infos, s, (n - 1) as nat);
        assert forall|k: int| 0 <= k < access_upto(infos, s, m).len() implies #[trigger] access_upto(
            infos,
            s,
            n,
        )[k] == access_upto(infos, s, m)[k] by {
            assert(head[k] == access_upto(infos, s, m)[k]);
        }
    }
}

/// A shape that hands nothing out for writing aliases nothing.
pub proof fn law_readers_alias_nothing(infos: Seq<InfoView>, s: Shape)
    requires
        is_read_only(s),
    ensures
        !self_alias(infos, s),
{
    lemma_no_writes(infos, s);
}

proof fn lemma_no_writes(infos: Seq<InfoView>, s: Shape)
    requires
        is_read_only(s),
    ensures
        forall|k: int|
            0 <= k < data_access(infos, s).len() ==> !(#[trigger] data_access(infos, s)[k]).1,
    decreases s, parts(s).len() + 1,
{
    match s {
        Shape::All(v) => {
            lemma_no_writes_upto(infos, s, v@.len());
            assert(data_access(infos, s) == access_upto(infos, s, v@.len()));
        },
        _ => {},
    }
}

proof fn lemma_no_writes_upto(infos: Seq<InfoView>, s: Shape, n: nat)
    requires
        n <= parts(s).len(),
        read_only_upto(s, n),
    ensures
        forall|k: int|
            0 <= k < access_upto(infos, s, n).len() ==> !(#[trigger] access_upto(infos, s, n)[k]).1,
    decreases s, n,
{
    if n > 0 {
        lemma_no_writes_upto(infos, s, (n - 1) as nat);
        lemma_part_smaller(s, n - 1);
        lemma_no_writes(infos, parts(s)[n - 1]);
        let head = access_upto(infos, s, (n - 1) as nat);
        let more = data_access(infos, parts(s)[n - 1]);
        assert forall|k: int| 0 <= k < access_upto(infos, s, n).len() implies !(
        #[trigger] access_upto(infos, s, n)[k]).1 by {
            if k < head.len() {
                assert(access_upto(infos, s, n)[k] == head[k]);
            } else {
                assert(access_upto(infos, s, n)[k] == more[k - head.len()]);
            }
        }
    }
}

/// What a query finds comes by archetype, in the order in which archetypes came up, and within an
/// archetype by row; no row comes twice.
pub proof fn law_rows_come_by_archetype_and_row(w: World, s: Shape, last_run: Tick, i: int, j: int)
    requires
        w.wf(),
        0 <= i < j < hits(whole(w, s, last_run)).len(),
    ensures
        ({
            let a = hits(whole(w, s, last_run))[i];
            let b = hits(whole(w, s, last_run))[j];
            a.0 < b.0 || (a.0 == b.0 && a.1 < b.1)
        }),
{
    w.lemma_store();
    let st = w.store();
    law_candidates(w@.registry.infos, st.archetypes, s, st.archetypes.len(), 0);
    law_rows_come_in_order(whole(w, s, last_run), 0, i, j);
}

/// A walk over subjects comes by exactly the subjects that the query finds, by archetype and row.
pub proof fn law_walks_come_by_the_subjects_found(
    w: World,
    shape: Shape,
    rows: Seq<(usize, usize)>,
    subjects: Seq<Entity>,
    e: Entity,
)
    requires
        w.wf(),
        sorted_rows(
            rows,
            QueryState { places: Seq::<usize>::empty(), ..whole(w, shape, Tick(0)) },
            w.store(),
            subjects,
        ),
    ensures
        (exists|i: int|
            0 <= i < rows.len() && entity_at(whole(w, shape, Tick(0)), #[trigger] rows[i]) == e)
            <==> subjects.contains(e) && finds(w, shape, Tick(0), e),
        forall|i: int, j: int|
            0 <= i < j < rows.len() ==> (#[trigger] rows[i]).0 < (#[trigger] rows[j]).0 || (
            rows[i].0 == rows[j].0 && rows[i].1 <= rows[j].1),
{
    w.lemma_store();
    let st = w.store();
    let infos = w@.registry.infos;
    let q = QueryState { places: Seq::<usize>::empty(), ..whole(w, shape, Tick(0)) };
    assert forall|x: Entity| #[trigger] location_of(st.entities, x) is Some implies {
        &&& entity_at(q, hit_of(st, x)) == x
        &&& takes_entity(q, st, x) <==> finds(w, shape, Tick(0), x)
    } by {
        let loc = location_of(st.entities, x)->0;
        let place = loc.archetype_id.0 as int;
        let row = loc.row as int;
        let a = st.archetypes[place];
        assert(place < st.archetypes.len() && row < a.entities.len() && a.entities[row] == x);
        lemma_row_of(st, infos, place, row);
        law_rows_are_taken_by_their_components(infos, a, row, Tick(0), shape);
        law_query_takes_what_its_shape_takes(w, shape, Tick(0), x);
        assert(w@.values.contains_key(x));
    }
    law_query_takes_what_its_shape_takes(w, shape, Tick(0), e);
    if (exists|i: int|
        0 <= i < rows.len() && entity_at(whole(w, shape, Tick(0)), #[trigger] rows[i]) == e) {
        let i = choose|i: int|
            0 <= i < rows.len() && entity_at(whole(w, shape, Tick(0)), #[trigger] rows[i]) == e;
        assert(rows.contains(rows[i]));
        law_walk_comes_by_the_subjects_taken(rows, q, st, subjects, rows[i]);
        let k = choose|k: int|
            0 <= k < subjects.len() && takes_entity(q, st, #[trigger] subjects[k]) && hit_of(
                st,
                subjects[k],
            ) == rows[i];
        assert(location_of(st.entities, subjects[k]) is Some);
        assert(subjects[k] == e);
    }
    if subjects.contains(e) && finds(w, shape, Tick(0), e) {
        assert(w@.values.contains_key(e));
        assert(location_of(st.entities, e) is Some);
        let k = choose|k: int| 0 <= k < subjects.len() && subjects[k] == e;
        assert(takes_entity(q, st, subjects[k]));
        law_walk_comes_by_the_subjects_taken(rows, q, st, subjects, hit_of(st, e));
        let i = choose|i: int| 0 <= i < rows.len() && rows[i] == hit_of(st, e);
        assert(entity_at(whole(w, shape, Tick(0)), rows[i]) == e);
    }
}

proof fn lemma_joined(
    m: Map<(u32, u32), Seq<Entity>>,
    kind_idx: u32,
    targets: Seq<u32>,
    e: Entity,
)
    ensures
        joined(m, kind_idx, targets).contains(e) <==> exists|i: int|
            0 <= i < targets.len() && m[(kind_idx, #[trigger] targets[i])].contains(e),
    decreases targets.len(),
{
    if targets.len() > 0 {
        let head = targets.drop_last();
        lemma_joined(m, kind_idx, head, e);
        let a = joined(m, kind_idx, head);
        let b = m[(kind_idx, targets.last())];
        let all = joined(m, kind_idx, targets);
        assert(all == a + b);
        if a.contains(e) {
            let k = choose|k: int| 0 <= k < a.len() && a[k] == e;
            assert(all[k] == e);
            let i = choose|i: int|
                0 <= i < head.len() && m[(kind_idx, #[trigger] head[i])].contains(e);
            assert(targets[i] == head[i]);
            assert(m[(kind_idx, targets[i])].contains(e));
        }
        if b.contains(e) {
            let k = choose|k: int| 0 <= k < b.len() && b[k] == e;
            assert(all[a.len() + k] == e);
            assert(m[(kind_idx, targets[targets.len() - 1])].contains(e));
        }
        if all.contains(e) {
            let k = choose|k: int| 0 <= k < all.len() && all[k] == e;
            if k < a.len() {
                assert(a[k] == e);
            } else {
                assert(b[k - a.len()] == e);
            }
        }
        if (exists|i: int|
            0 <= i < targets.len() && m[(kind_idx, #[trigger] targets[i])].contains(e)) {
            let i = choose|i: int|
                0 <= i < targets.len() && m[(kind_idx, #[trigger] targets[i])].contains(e);
            if i < head.len() {
                assert(head[i] == targets[i]);
                assert(m[(kind_idx, head[i])].contains(e));
            }
        }
    }
}

/// The subjects of all targets of a kind are those of each target, and no others.
pub proof fn law_all_targets_are_walked(
    m: Map<(u32, u32), Seq<Entity>>,
    kind_idx: u32,
    targets: Seq<u32>,
    e: Entity,
)
    requires
        lists_targets(m, kind_idx, targets),
    ensures
        joined(m, kind_idx, targets).contains(e) <==> exists|t: u32| #[trigger]
            m[(kind_idx, t)].contains(e),
{
    lemma_joined(m, kind_idx, targets, e);
    if (exists|t: u32| #[trigger] m[(kind_idx, t)].contains(e)) {
        let t = choose|t: u32| #[trigger] m[(kind_idx, t)].contains(e);
        assert(m[(kind_idx, t)].len() > 0);
        assert(targets.contains(t));
        let i = choose|i: int| 0 <= i < targets.len() && targets[i] == t;
        assert(m[(kind_idx, targets[i])].contains(e));
    }
}

/// What changed after the last run is found, and what changed before it is not: for a component that
/// was written at one tick and a run at another, no more than half the range of ticks apart.
pub proof fn law_changes_after_the_last_run_are_found(
    w: World,
    id: u32,
    last_run: Tick,
    e: Entity,
)
    requires
        w.wf(),
        id < w@.registry.infos.len(),
        w@.values.contains_key(e),
        w@.values[e].contains_key(id),
    ensures
        ({
            let key = w@.registry.infos[id as int].key;
            let changed = w@.values[e][id].changed.0;
            let added = w@.values[e][id].added.0;
            let run = last_run.0;
            &&& run < changed <= run + i32::MAX ==> finds(
                w,
                Shape::Component(Role::Changed, key),
                last_run,
                e,
            )
            &&& changed <= run <= changed + i32::MAX ==> !finds(
                w,
                Shape::Component(Role::Changed, key),
                last_run,
                e,
            )
            &&& run < added <= run + i32::MAX ==> finds(
                w,
                Shape::Component(Role::Added, key),
                last_run,
                e,
            )
            &&& added <= run <= added + i32::MAX ==> !finds(
                w,
                Shape::Component(Role::Added, key),
                last_run,
                e,
            )
        }),
{
    law_roles_say_who_is_found(w, id, last_run, e);
    let changed = w@.values[e][id].changed;
    let added = w@.values[e][id].added;
    lemma_since(changed, last_run);
    lemma_since(added, last_run);
    law_newer_orders_ticks(last_run, changed);
    law_newer_orders_ticks(last_run, added);
    law_newer_orders_ticks(changed, last_run);
    law_newer_orders_ticks(added, last_run);
}

} // verus!
