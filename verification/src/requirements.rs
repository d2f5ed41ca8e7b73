//! What comes along with a component: the components that it requires, and the hooks that are due
//! when components come and go.

use vstd::prelude::*;
use crate::component::{ComponentId, INVALID_ID, Tick};
use crate::column::bytes_of;
use crate::entity::{Entity, allocated};
use crate::registry::{
    ComponentDesc, FLAG_ON_ADD, FLAG_ON_REMOVE, FLAG_TRACK_REMOVED, InfoView, RegistryState,
    Requirement, after_register, agrees, desc_count, extends, flag_of, id_of, infos_agree, infos_wf,
    lemma_after_register, lemma_id_of, lemma_register_requires,
    requirement_ok, requirements,
    requires_wf,
};
use crate::relations::HookEvent;
use crate::storage::CellState;
use crate::world::{
    BundleState, PartState, RawPart, World, WorldState, after_insert, after_registers,
    after_spawn_bundle, after_spawn_reserved, bundle_cost, bundle_fits, bundle_parts,
    lemma_after_registers, part_states, put, puts, states_fit,
};

verus! {

/// Whether a component is among parts.
pub open spec fn listed(parts: Seq<PartState>, id: u32) -> bool {
    exists|i: int| 0 <= i < parts.len() && (#[trigger] parts[i]).id == id
}

/// The parts with the first `n` of some requirements added, each unless it is listed or present.
pub open spec fn with_missing(
    present: Set<u32>,
    parts: Seq<PartState>,
    reqs: Seq<(u32, Seq<u8>)>,
    tick: Tick,
    n: nat,
) -> Seq<PartState>
    decreases n,
{
    if n == 0 {
        parts
    } else {
        let head = with_missing(present, parts, reqs, tick, (n - 1) as nat);
        let (id, value) = reqs[n - 1];
        if present.contains(id) || listed(head, id) {
            head
        } else {
            head.push(PartState { id, value, tick })
        }
    }
}

/// The parts with what the first `n` of them require, those included that are added on the way.
pub open spec fn filled(
    r: RegistryState,
    present: Set<u32>,
    parts: Seq<PartState>,
    tick: Tick,
    n: nat,
) -> Seq<PartState>
    decreases n,
{
    if n == 0 {
        parts
    } else {
        let head = filled(r, present, parts, tick, (n - 1) as nat);
        if n - 1 < head.len() {
            let reqs = requirements(r, head[n - 1].id);
            with_missing(present, head, reqs, tick, reqs.len())
        } else {
            head
        }
    }
}

/// More than there can be component types.
pub open spec fn most_types() -> nat {
    0x1_0000_0000
}

/// A part and what comes along with it where it is new: what it requires and is missing, with the
/// default, then what that requires, and so on.
pub open spec fn with_required(
    r: RegistryState,
    m: Map<u32, CellState>,
    p: PartState,
    tick: Tick,
) -> Seq<PartState> {
    if m.contains_key(p.id) {
        seq![p]
    } else {
        filled(r, m.dom(), seq![p], tick, most_types())
    }
}

/// Everything that is written where the first `n` of `parts` are: each of them, followed by what
/// comes along.
pub open spec fn all_written(
    r: RegistryState,
    m: Map<u32, CellState>,
    parts: Seq<PartState>,
    tick: Tick,
    n: nat,
) -> Seq<PartState>
    decreases n,
{
    if n == 0 {
        Seq::empty()
    } else {
        let head = all_written(r, m, parts, tick, (n - 1) as nat);
        head + with_required(r, puts(m, head, head.len()), parts[n - 1], tick)
    }
}

/// The components once `parts` and what comes along were written.
pub open spec fn puts_all(
    r: RegistryState,
    m: Map<u32, CellState>,
    parts: Seq<PartState>,
    tick: Tick,
) -> Map<u32, CellState> {
    let all = all_written(r, m, parts, tick, parts.len());
    puts(m, all, all.len())
}

/// Whether someone wants to know when a component appears.
pub open spec fn wants_added(r: RegistryState, id: u32) -> bool {
    flag_of(r, id) & FLAG_ON_ADD != 0
}

/// Whether someone wants to know when a component goes.
pub open spec fn wants_removed(r: RegistryState, id: u32) -> bool {
    flag_of(r, id) & FLAG_ON_REMOVE != 0 || flag_of(r, id) & FLAG_TRACK_REMOVED != 0
}

/// The hooks that are due once the first `n` of `parts` were written: one for each component that
/// appears.
pub open spec fn added_hooks(
    r: RegistryState,
    e: Entity,
    m: Map<u32, CellState>,
    parts: Seq<PartState>,
    n: nat,
) -> Seq<HookEvent>
    decreases n,
{
    if n == 0 {
        Seq::empty()
    } else {
        let head = added_hooks(r, e, m, parts, (n - 1) as nat);
        let id = parts[n - 1].id;
        if !puts(m, parts, (n - 1) as nat).contains_key(id) && wants_added(r, id) {
            head.push(HookEvent::ComponentAdded { component: id, entity: e })
        } else {
            head
        }
    }
}

/// The hooks that are due once `parts` and what comes along were written.
pub open spec fn hooks_of_all(
    r: RegistryState,
    e: Entity,
    m: Map<u32, CellState>,
    parts: Seq<PartState>,
    tick: Tick,
) -> Seq<HookEvent> {
    let all = all_written(r, m, parts, tick, parts.len());
    added_hooks(r, e, m, all, all.len())
}

/// The hooks that are due once an entity lost those of its components that are among the first `n`
/// types.
pub open spec fn removed_hooks(
    r: RegistryState,
    e: Entity,
    m: Map<u32, CellState>,
    n: nat,
) -> Seq<HookEvent>
    decreases n,
{
    if n == 0 {
        Seq::empty()
    } else {
        let head = removed_hooks(r, e, m, (n - 1) as nat);
        let id = (n - 1) as u32;
        if m.contains_key(id) && wants_removed(r, id) {
            head.push(HookEvent::ComponentRemoved { component: id, entity: e })
        } else {
            head
        }
    }
}

/// A value that the world no longer keeps, to be disposed of. Its type is known by its key.
pub struct Discarded {
    pub key: u64,
    pub value: Vec<u8>,
}

/// The contents of a [`Discarded`].
pub struct DiscardState {
    pub key: u64,
    pub value: Seq<u8>,
}

impl View for Discarded {
    type V = DiscardState;

    open spec fn view(&self) -> DiscardState {
        DiscardState { key: self.key, value: self.value@ }
    }
}

/// The contents of discarded values.
pub open spec fn discard_states(list: Seq<Discarded>) -> Seq<DiscardState> {
    list.map_values(|d: Discarded| d@)
}

/// What is to be disposed of where a value of a component goes: the value, if its type asks for
/// that.
pub open spec fn discard_of(r: RegistryState, id: u32, value: Seq<u8>) -> Seq<DiscardState> {
    if id < r.infos.len() && r.infos[id as int].needs_drop {
        seq![DiscardState { key: r.infos[id as int].key, value }]
    } else {
        Seq::empty()
    }
}

/// What is to be disposed of once the first `n` of `parts` were written: the values that were
/// overwritten.
pub open spec fn overwritten(
    r: RegistryState,
    m: Map<u32, CellState>,
    parts: Seq<PartState>,
    n: nat,
) -> Seq<DiscardState>
    decreases n,
{
    if n == 0 {
        Seq::empty()
    } else {
        let before = puts(m, parts, (n - 1) as nat);
        let id = parts[n - 1].id;
        overwritten(r, m, parts, (n - 1) as nat) + if before.contains_key(id) {
            discard_of(r, id, before[id].value)
        } else {
            Seq::empty()
        }
    }
}

/// What is to be disposed of once `parts` and what comes along were written.
pub open spec fn discards_of_all(
    r: RegistryState,
    m: Map<u32, CellState>,
    parts: Seq<PartState>,
    tick: Tick,
) -> Seq<DiscardState> {
    let all = all_written(r, m, parts, tick, parts.len());
    overwritten(r, m, all, all.len())
}

/// What is to be disposed of once an entity lost those of its components that are among the first
/// `n` types.
pub open spec fn removed_values(r: RegistryState, m: Map<u32, CellState>, n: nat) -> Seq<
    DiscardState,
>
    decreases n,
{
    if n == 0 {
        Seq::empty()
    } else {
        let id = (n - 1) as u32;
        removed_values(r, m, (n - 1) as nat) + if m.contains_key(id) {
            discard_of(r, id, m[id].value)
        } else {
            Seq::empty()
        }
    }
}

/// Components are there once they are written, and nothing goes.
pub proof fn lemma_puts_dom(m: Map<u32, CellState>, parts: Seq<PartState>, n: nat, id: u32)
    requires
        n <= parts.len(),
    ensures
        puts(m, parts, n).contains_key(id) <==> m.contains_key(id) || exists|i: int|
            0 <= i < n && (#[trigger] parts[i]).id == id,
    decreases n,
{
    if n > 0 {
        lemma_puts_dom(m, parts, (n - 1) as nat, id);
        if parts[n - 1].id == id {
            assert(0 <= n - 1 < n && parts[n - 1].id == id);
        }
    }
}

/// Writing two lists is writing the one and then the other.
pub proof fn lemma_puts_joined(m: Map<u32, CellState>, a: Seq<PartState>, b: Seq<PartState>, n: nat)
    requires
        n <= b.len(),
    ensures
        puts(m, a + b, a.len() + n) == puts(puts(m, a, a.len()), b, n),
    decreases n,
{
    if n == 0 {
        lemma_puts_same(m, a, a + b, a.len());
    } else {
        lemma_puts_joined(m, a, b, (n - 1) as nat);
        assert((a + b)[a.len() + n - 1] == b[n - 1]);
    }
}

proof fn lemma_puts_same(m: Map<u32, CellState>, a: Seq<PartState>, b: Seq<PartState>, n: nat)
    requires
        n <= a.len() <= b.len(),
        forall|i: int| 0 <= i < n ==> #[trigger] b[i] == a[i],
    ensures
        puts(m, a, n) == puts(m, b, n),
    decreases n,
{
    if n > 0 {
        lemma_puts_same(m, a, b, (n - 1) as nat);
        assert(b[n - 1] == a[n - 1]);
    }
}

proof fn lemma_added_same(
    r: RegistryState,
    e: Entity,
    m: Map<u32, CellState>,
    a: Seq<PartState>,
    b: Seq<PartState>,
    n: nat,
)
    requires
        n <= a.len() <= b.len(),
        forall|i: int| 0 <= i < n ==> #[trigger] b[i] == a[i],
    ensures
        added_hooks(r, e, m, a, n) == added_hooks(r, e, m, b, n),
    decreases n,
{
    if n > 0 {
        lemma_added_same(r, e, m, a, b, (n - 1) as nat);
        lemma_puts_same(m, a, b, (n - 1) as nat);
        assert(b[n - 1] == a[n - 1]);
    }
}

/// The hooks of two lists are those of the one and then those of the other.
proof fn lemma_added_joined(
    r: RegistryState,
    e: Entity,
    m: Map<u32, CellState>,
    a: Seq<PartState>,
    b: Seq<PartState>,
    n: nat,
)
    requires
        n <= b.len(),
    ensures
        added_hooks(r, e, m, a + b, a.len() + n) == added_hooks(r, e, m, a, a.len()) + added_hooks(
            r,
            e,
            puts(m, a, a.len()),
            b,
            n,
        ),
    decreases n,
{
    if n == 0 {
        lemma_added_same(r, e, m, a, a + b, a.len());
        assert(added_hooks(r, e, m, a, a.len()) + Seq::<HookEvent>::empty() =~= added_hooks(
            r,
            e,
            m,
            a,
            a.len(),
        ));
    } else {
        lemma_added_joined(r, e, m, a, b, (n - 1) as nat);
        lemma_puts_joined(m, a, b, (n - 1) as nat);
        assert((a + b)[a.len() + n - 1] == b[n - 1]);
        assert(added_hooks(r, e, m, a + b, a.len() + n) =~= added_hooks(r, e, m, a, a.len())
            + added_hooks(r, e, puts(m, a, a.len()), b, n));
    }
}

proof fn lemma_overwritten_same(
    r: RegistryState,
    m: Map<u32, CellState>,
    a: Seq<PartState>,
    b: Seq<PartState>,
    n: nat,
)
    requires
        n <= a.len() <= b.len(),
        forall|i: int| 0 <= i < n ==> #[trigger] b[i] == a[i],
    ensures
        overwritten(r, m, a, n) == overwritten(r, m, b, n),
    decreases n,
{
    if n > 0 {
        lemma_overwritten_same(r, m, a, b, (n - 1) as nat);
        lemma_puts_same(m, a, b, (n - 1) as nat);
        assert(b[n - 1] == a[n - 1]);
    }
}

/// What two lists overwrite is what the one does and then what the other does.
proof fn lemma_overwritten_joined(
    r: RegistryState,
    m: Map<u32, CellState>,
    a: Seq<PartState>,
    b: Seq<PartState>,
    n: nat,
)
    requires
        n <= b.len(),
    ensures
        overwritten(r, m, a + b, a.len() + n) == overwritten(r, m, a, a.len()) + overwritten(
            r,
            puts(m, a, a.len()),
            b,
            n,
        ),
    decreases n,
{
    let left = overwritten(r, m, a, a.len());
    if n == 0 {
        lemma_overwritten_same(r, m, a, a + b, a.len());
        assert(left + Seq::<DiscardState>::empty() =~= left);
    } else {
        lemma_overwritten_joined(r, m, a, b, (n - 1) as nat);
        lemma_puts_joined(m, a, b, (n - 1) as nat);
        assert((a + b)[a.len() + n - 1] == b[n - 1]);
        assert(overwritten(r, m, a + b, a.len() + n) =~= left + overwritten(
            r,
            puts(m, a, a.len()),
            b,
            n,
        ));
    }
}

proof fn lemma_overwritten_kept(
    r: RegistryState,
    t: RegistryState,
    m: Map<u32, CellState>,
    parts: Seq<PartState>,
    n: nat,
)
    requires
        extends(r, t),
        n <= parts.len(),
        all_known(parts, r.infos),
    ensures
        overwritten(t, m, parts, n) == overwritten(r, m, parts, n),
    decreases n,
{
    if n > 0 {
        lemma_overwritten_kept(r, t, m, parts, (n - 1) as nat);
        assert(parts[n - 1].id < r.infos.len());
        assert(t.infos[parts[n - 1].id as int] == r.infos[parts[n - 1].id as int]);
    }
}

/// Whether all parts are of registered types.
pub open spec fn all_known(parts: Seq<PartState>, infos: Seq<InfoView>) -> bool {
    forall|i: int| 0 <= i < parts.len() ==> (#[trigger] parts[i]).id < infos.len()
}

/// Whether no component is listed twice.
pub open spec fn distinct_ids(parts: Seq<PartState>) -> bool {
    forall|i: int, j: int|
        0 <= i < j < parts.len() ==> (#[trigger] parts[i]).id != (#[trigger] parts[j]).id
}

/// What `with_missing` keeps and adds.
pub(crate) proof fn lemma_with_missing(
    infos: Seq<InfoView>,
    present: Set<u32>,
    parts: Seq<PartState>,
    reqs: Seq<(u32, Seq<u8>)>,
    tick: Tick,
    n: nat,
)
    requires
        n <= reqs.len(),
        distinct_ids(parts),
        all_known(parts, infos),
        forall|k: int| 0 <= k < reqs.len() ==> requirement_ok(infos, #[trigger] reqs[k]),
    ensures
        ({
            let t = with_missing(present, parts, reqs, tick, n);
            &&& parts.len() <= t.len()
            &&& forall|i: int| 0 <= i < parts.len() ==> #[trigger] t[i] == parts[i]
            &&& distinct_ids(t)
            &&& all_known(t, infos)
            &&& states_fit(parts, infos) ==> states_fit(t, infos)
            &&& forall|k: int|
                0 <= k < n ==> present.contains((#[trigger] reqs[k]).0) || listed(t, reqs[k].0)
            &&& forall|i: int| parts.len() <= i < t.len() ==> !present.contains((#[trigger] t[i]).id)
        }),
    decreases n,
{
    if n > 0 {
        lemma_with_missing(infos, present, parts, reqs, tick, (n - 1) as nat);
        let head = with_missing(present, parts, reqs, tick, (n - 1) as nat);
        let t = with_missing(present, parts, reqs, tick, n);
        let (id, value) = reqs[n - 1];
        assert(requirement_ok(infos, reqs[n - 1]));
        if present.contains(id) || listed(head, id) {
            assert(t == head);
        } else {
            assert forall|i: int, j: int| 0 <= i < j < t.len() implies (#[trigger] t[i]).id != (
            #[trigger] t[j]).id by {
                assert(t[i] == head[i]);
                if j < head.len() {
                    assert(t[j] == head[j]);
                } else {
                    assert(head[i].id != id);
                }
            }
            assert(t[head.len() as int].id == id);
            assert forall|k: int| 0 <= k < n implies present.contains((#[trigger] reqs[k]).0)
                || listed(t, reqs[k].0) by {
                if k < n - 1 {
                    if listed(head, reqs[k].0) {
                        let i = choose|i: int|
                            0 <= i < head.len() && (#[trigger] head[i]).id == reqs[k].0;
                        assert(t[i] == head[i]);
                    }
                } else {
                    assert(listed(t, id));
                }
            }
            assert forall|i: int| 0 <= i < t.len() implies (#[trigger] t[i]).id < infos.len() by {
                if i < head.len() {
                    assert(t[i] == head[i]);
                }
            }
            if states_fit(parts, infos) {
                assert forall|i: int| 0 <= i < t.len() implies (#[trigger] t[i]).id < infos.len()
                    && t[i].value.len() == infos[t[i].id as int].size by {
                    if i < head.len() {
                        assert(t[i] == head[i]);
                    }
                }
            }
        }
    }
}

/// What `filled` keeps and adds: everything that the first `n` require is there.
pub(crate) proof fn lemma_filled(
    r: RegistryState,
    present: Set<u32>,
    parts: Seq<PartState>,
    tick: Tick,
    n: nat,
)
    requires
        requires_wf(r),
        distinct_ids(parts),
        all_known(parts, r.infos),
    ensures
        ({
            let t = filled(r, present, parts, tick, n);
            &&& parts.len() <= t.len()
            &&& forall|i: int| 0 <= i < parts.len() ==> #[trigger] t[i] == parts[i]
            &&& distinct_ids(t)
            &&& all_known(t, r.infos)
            &&& states_fit(parts, r.infos) ==> states_fit(t, r.infos)
            &&& forall|i: int, k: int|
                0 <= i < n && i < t.len() && 0 <= k < requirements(r, t[i].id).len()
                    ==> present.contains((#[trigger] requirements(r, t[i].id)[k]).0) || listed(
                    t,
                    requirements(r, t[i].id)[k].0,
                )
            &&& forall|i: int| parts.len() <= i < t.len() ==> !present.contains((#[trigger] t[i]).id)
        }),
    decreases n,
{
    if n > 0 {
        lemma_filled(r, present, parts, tick, (n - 1) as nat);
        let head = filled(r, present, parts, tick, (n - 1) as nat);
        let t = filled(r, present, parts, tick, n);
        if n - 1 < head.len() {
            let own = requirements(r, head[n - 1].id);
            assert forall|k: int| 0 <= k < own.len() implies requirement_ok(
                r.infos,
                #[trigger] own[k],
            ) by {
                assert(requirement_ok(r.infos, requirements(r, head[n - 1].id)[k]));
            }
            lemma_with_missing(r.infos, present, head, own, tick, own.len());
            assert forall|i: int, k: int|
                0 <= i < n && i < t.len() && 0 <= k < requirements(r, t[i].id).len() implies
                present.contains((#[trigger] requirements(r, t[i].id)[k]).0) || listed(
                t,
                requirements(r, t[i].id)[k].0,
            ) by {
                assert(t[i] == head[i]);
                let id = requirements(r, t[i].id)[k].0;
                if i < n - 1 {
                    assert(requirements(r, head[i].id)[k].0 == id);
                    if listed(head, id) {
                        let j = choose|j: int| 0 <= j < head.len() && (#[trigger] head[j]).id == id;
                        assert(t[j] == head[j]);
                    }
                } else {
                    assert(own[k].0 == id);
                }
            }
            assert forall|i: int| 0 <= i < parts.len() implies #[trigger] t[i] == parts[i] by {
                assert(head[i] == parts[i]);
            }
            assert forall|i: int| parts.len() <= i < t.len() implies !present.contains(
                (#[trigger] t[i]).id,
            ) by {
                if i < head.len() {
                    assert(t[i] == head[i]);
                }
            }
        }
    }
}

/// Once all have been looked at, nothing is added any more.
proof fn lemma_filled_ends(
    r: RegistryState,
    present: Set<u32>,
    parts: Seq<PartState>,
    tick: Tick,
    k: nat,
    n: nat,
)
    requires
        k <= n,
        k >= filled(r, present, parts, tick, k).len(),
    ensures
        filled(r, present, parts, tick, n) == filled(r, present, parts, tick, k),
    decreases n,
{
    if k < n {
        lemma_filled_ends(r, present, parts, tick, k, (n - 1) as nat);
    }
}

/// Distinct components of registered types are no more than there are types.
proof fn lemma_few(parts: Seq<PartState>, infos: Seq<InfoView>)
    requires
        distinct_ids(parts),
        all_known(parts, infos),
    ensures
        parts.len() <= infos.len(),
{
    let ids = parts.map_values(|p: PartState| p.id as int);
    assert(ids.no_duplicates()) by {
        assert forall|i: int, j: int| 0 <= i < ids.len() && 0 <= j < ids.len() && i != j implies ids[i]
            != ids[j] by {
            if i < j {
                assert(parts[i].id != parts[j].id);
            } else {
                assert(parts[j].id != parts[i].id);
            }
        }
    }
    ids.unique_seq_to_set();
    let all = vstd::set_lib::set_int_range(0, infos.len() as int);
    vstd::set_lib::lemma_int_range(0, infos.len() as int);
    assert forall|x: int| ids.to_set().contains(x) implies all.contains(x) by {
        let i = choose|i: int| 0 <= i < ids.len() && ids[i] == x;
        assert(parts[i].id < infos.len());
    }
    vstd::set_lib::lemma_len_subset(ids.to_set(), all);
}

/// What comes along with registered types does not depend on types that are registered later.
proof fn lemma_filled_kept(
    r: RegistryState,
    t: RegistryState,
    present: Set<u32>,
    parts: Seq<PartState>,
    tick: Tick,
    n: nat,
)
    requires
        extends(r, t),
        requires_wf(r),
        distinct_ids(parts),
        all_known(parts, r.infos),
    ensures
        filled(t, present, parts, tick, n) == filled(r, present, parts, tick, n),
    decreases n,
{
    if n > 0 {
        lemma_filled_kept(r, t, present, parts, tick, (n - 1) as nat);
        lemma_filled(r, present, parts, tick, (n - 1) as nat);
        let head = filled(r, present, parts, tick, (n - 1) as nat);
        if n - 1 < head.len() {
            assert(head[n - 1].id < r.infos.len());
            assert(requirements(t, head[n - 1].id) == requirements(r, head[n - 1].id));
        }
    }
}

/// What `all_written` holds: parts of registered types, with their sizes.
pub proof fn lemma_all_written(
    r: RegistryState,
    m: Map<u32, CellState>,
    parts: Seq<PartState>,
    tick: Tick,
    n: nat,
)
    requires
        requires_wf(r),
        n <= parts.len(),
        all_known(parts, r.infos),
    ensures
        all_known(all_written(r, m, parts, tick, n), r.infos),
        states_fit(parts, r.infos) ==> states_fit(all_written(r, m, parts, tick, n), r.infos),
    decreases n,
{
    if n > 0 {
        lemma_all_written(r, m, parts, tick, (n - 1) as nat);
        let head = all_written(r, m, parts, tick, (n - 1) as nat);
        let p = parts[n - 1];
        let m1 = puts(m, head, head.len());
        let more = with_required(r, m1, p, tick);
        let t = all_written(r, m, parts, tick, n);
        lemma_filled(r, m1.dom(), seq![p], tick, most_types());
        assert(states_fit(parts, r.infos) ==> states_fit(seq![p], r.infos));
        assert forall|i: int| 0 <= i < t.len() implies (#[trigger] t[i]).id < r.infos.len() by {
            if i < head.len() {
                assert(t[i] == head[i]);
            } else {
                assert(t[i] == more[i - head.len()]);
            }
        }
        if states_fit(parts, r.infos) {
            assert forall|i: int| 0 <= i < t.len() implies (#[trigger] t[i]).id < r.infos.len()
                && t[i].value.len() == r.infos[t[i].id as int].size by {
                if i < head.len() {
                    assert(t[i] == head[i]);
                } else {
                    assert(t[i] == more[i - head.len()]);
                }
            }
        }
    }
}

proof fn lemma_all_written_kept(
    r: RegistryState,
    t: RegistryState,
    m: Map<u32, CellState>,
    parts: Seq<PartState>,
    longer: Seq<PartState>,
    tick: Tick,
    n: nat,
)
    requires
        extends(r, t),
        requires_wf(r),
        n <= parts.len() <= longer.len(),
        all_known(parts, r.infos),
        forall|i: int| 0 <= i < parts.len() ==> #[trigger] longer[i] == parts[i],
    ensures
        all_written(t, m, longer, tick, n) == all_written(r, m, parts, tick, n),
    decreases n,
{
    if n > 0 {
        lemma_all_written_kept(r, t, m, parts, longer, tick, (n - 1) as nat);
        let head = all_written(r, m, parts, tick, (n - 1) as nat);
        assert(longer[n - 1] == parts[n - 1]);
        lemma_filled_kept(
            r,
            t,
            puts(m, head, head.len()).dom(),
            seq![parts[n - 1]],
            tick,
            most_types(),
        );
    }
}

proof fn lemma_added_kept(
    r: RegistryState,
    t: RegistryState,
    e: Entity,
    m: Map<u32, CellState>,
    parts: Seq<PartState>,
    n: nat,
)
    requires
        extends(r, t),
        n <= parts.len(),
        all_known(parts, r.infos),
    ensures
        added_hooks(t, e, m, parts, n) == added_hooks(r, e, m, parts, n),
    decreases n,
{
    if n > 0 {
        lemma_added_kept(r, t, e, m, parts, (n - 1) as nat);
        assert(parts[n - 1].id < r.infos.len());
        assert(flag_of(t, parts[n - 1].id) == flag_of(r, parts[n - 1].id));
    }
}

/// Writing one more part, when more types may be registered, goes on from where the others left.
pub proof fn lemma_one_more(
    r: RegistryState,
    t: RegistryState,
    e: Entity,
    m: Map<u32, CellState>,
    parts: Seq<PartState>,
    p: PartState,
    tick: Tick,
)
    requires
        extends(r, t),
        requires_wf(r),
        requires_wf(t),
        all_known(parts, r.infos),
        p.id < t.infos.len(),
    ensures
        puts_all(t, m, parts.push(p), tick) == puts_all(
            t,
            puts_all(r, m, parts, tick),
            seq![p],
            tick,
        ),
        hooks_of_all(t, e, m, parts.push(p), tick) == hooks_of_all(r, e, m, parts, tick)
            + hooks_of_all(t, e, puts_all(r, m, parts, tick), seq![p], tick),
        discards_of_all(t, m, parts.push(p), tick) == discards_of_all(r, m, parts, tick)
            + discards_of_all(t, puts_all(r, m, parts, tick), seq![p], tick),
{
    let longer = parts.push(p);
    let n = parts.len();
    let head = all_written(r, m, parts, tick, n);
    let m1 = puts(m, head, head.len());
    let more = with_required(t, m1, p, tick);
    lemma_all_written_kept(r, t, m, parts, longer, tick, n);
    lemma_all_written(r, m, parts, tick, n);
    assert(longer[n as int] == p);
    assert(all_written(t, m, longer, tick, longer.len()) == head + more);
    reveal_with_fuel(all_written, 2);
    assert(puts(m1, Seq::<PartState>::empty(), 0) == m1);
    assert(seq![p][0] == p);
    assert(all_written(t, m1, seq![p], tick, 1) =~= more);
    lemma_puts_joined(m, head, more, more.len());
    lemma_added_joined(t, e, m, head, more, more.len());
    lemma_added_kept(r, t, e, m, head, head.len());
    lemma_overwritten_joined(t, m, head, more, more.len());
    lemma_overwritten_kept(r, t, m, head, head.len());
}

/// Writing nothing changes nothing.
pub proof fn lemma_none(
    r: RegistryState,
    e: Entity,
    m: Map<u32, CellState>,
    tick: Tick,
)
    ensures
        puts_all(r, m, Seq::<PartState>::empty(), tick) == m,
        hooks_of_all(r, e, m, Seq::<PartState>::empty(), tick) == Seq::<HookEvent>::empty(),
        discards_of_all(r, m, Seq::<PartState>::empty(), tick) == Seq::<DiscardState>::empty(),
{
}

/// Whether everything that component `id` requires is there.
pub open spec fn has_required(r: RegistryState, m: Map<u32, CellState>, id: u32) -> bool {
    forall|k: int|
        0 <= k < requirements(r, id).len() ==> m.contains_key((#[trigger] requirements(r, id)[k]).0)
}

/// Whether every component has what it requires.
pub open spec fn all_have_required(r: RegistryState, m: Map<u32, CellState>) -> bool {
    forall|id: u32| #[trigger] m.contains_key(id) ==> has_required(r, m, id)
}

proof fn lemma_written_has_required(
    r: RegistryState,
    m: Map<u32, CellState>,
    parts: Seq<PartState>,
    tick: Tick,
    n: nat,
)
    requires
        requires_wf(r),
        r.infos.len() <= u32::MAX,
        n <= parts.len(),
        all_known(parts, r.infos),
    ensures
        ({
            let all = all_written(r, m, parts, tick, n);
            let t = puts(m, all, all.len());
            &&& forall|id: u32| m.contains_key(id) ==> #[trigger] t.contains_key(id)
            &&& forall|id: u32|
                !m.contains_key(id) && #[trigger] t.contains_key(id) ==> has_required(r, t, id)
            &&& forall|i: int| 0 <= i < n ==> t.contains_key((#[trigger] parts[i]).id)
        }),
    decreases n,
{
    if n > 0 {
        let n1 = (n - 1) as nat;
        lemma_written_has_required(r, m, parts, tick, n1);
        let head = all_written(r, m, parts, tick, n1);
        let m1 = puts(m, head, head.len());
        let p = parts[n - 1];
        let one = seq![p];
        let more = with_required(r, m1, p, tick);
        let all = all_written(r, m, parts, tick, n);
        let t = puts(m, all, all.len());
        lemma_puts_joined(m, head, more, more.len());
        assert(t == puts(m1, more, more.len()));
        assert forall|id: u32| m1.contains_key(id) implies #[trigger] t.contains_key(id) by {
            lemma_puts_dom(m1, more, more.len(), id);
        }
        lemma_filled(r, m1.dom(), one, tick, most_types());
        assert(more[0] == p);
        lemma_puts_dom(m1, more, more.len(), p.id);
        assert(t.contains_key(p.id));
        assert forall|i: int| 0 <= i < n implies t.contains_key((#[trigger] parts[i]).id) by {
            if i < n - 1 {
                assert(m1.contains_key(parts[i].id));
            }
        }
        assert forall|id: u32| !m.contains_key(id) && #[trigger] t.contains_key(
            id,
        ) implies has_required(r, t, id) by {
            assert forall|k: int| 0 <= k < requirements(r, id).len() implies t.contains_key(
                (#[trigger] requirements(r, id)[k]).0,
            ) by {
                let want = requirements(r, id)[k].0;
                lemma_puts_dom(m1, more, more.len(), id);
                lemma_puts_dom(m1, more, more.len(), want);
                if m1.contains_key(id) {
                    assert(has_required(r, m1, id));
                    assert(m1.contains_key(requirements(r, id)[k].0));
                } else {
                    let i = choose|i: int| 0 <= i < more.len() && (#[trigger] more[i]).id == id;
                    if m1.contains_key(p.id) {
                        assert(more.len() == 1);
                        assert(i == 0);
                    } else {
                        lemma_few(more, r.infos);
                        assert(i < most_types());
                        assert(requirements(r, more[i].id)[k].0 == want);
                        assert(m1.dom().contains(want) || listed(more, want));
                    }
                }
            }
        }
    }
}

/// Once parts are written, every component that appeared has everything that it requires, and so
/// has every component where that was so before.
pub proof fn law_required_components_come_along(
    r: RegistryState,
    m: Map<u32, CellState>,
    parts: Seq<PartState>,
    tick: Tick,
    id: u32,
)
    requires
        requires_wf(r),
        r.infos.len() <= u32::MAX,
        all_known(parts, r.infos),
    ensures
        !m.contains_key(id) && puts_all(r, m, parts, tick).contains_key(id) ==> has_required(
            r,
            puts_all(r, m, parts, tick),
            id,
        ),
        listed(parts, id) ==> puts_all(r, m, parts, tick).contains_key(id),
        all_have_required(r, m) ==> all_have_required(r, puts_all(r, m, parts, tick)),
{
    lemma_written_has_required(r, m, parts, tick, parts.len());
    let t = puts_all(r, m, parts, tick);
    if all_have_required(r, m) {
        assert forall|x: u32| #[trigger] t.contains_key(x) implies has_required(r, t, x) by {
            if m.contains_key(x) {
                assert(has_required(r, m, x));
                assert forall|k: int| 0 <= k < requirements(r, x).len() implies t.contains_key(
                    (#[trigger] requirements(r, x)[k]).0,
                ) by {
                    assert(m.contains_key(requirements(r, x)[k].0));
                }
            }
        }
    }
}

/// A value that was given wins over the default: where a component is given, it has the value that
/// was given last, whatever requires it.
pub proof fn law_given_values_win(
    r: RegistryState,
    m: Map<u32, CellState>,
    parts: Seq<PartState>,
    tick: Tick,
    n: nat,
    i: int,
)
    requires
        requires_wf(r),
        n <= parts.len(),
        all_known(parts, r.infos),
        0 <= i < n,
        forall|j: int| i < j < n ==> (#[trigger] parts[j]).id != parts[i].id,
    ensures
        ({
            let all = all_written(r, m, parts, tick, n);
            let t = puts(m, all, all.len());
            t.contains_key(parts[i].id) && t[parts[i].id].value == parts[i].value
                && t[parts[i].id].changed == parts[i].tick
        }),
    decreases n,
{
    let n1 = (n - 1) as nat;
    let head = all_written(r, m, parts, tick, n1);
    let m1 = puts(m, head, head.len());
    let p = parts[n - 1];
    let more = with_required(r, m1, p, tick);
    let id = parts[i].id;
    lemma_puts_joined(m, head, more, more.len());
    lemma_filled(r, m1.dom(), seq![p], tick, most_types());
    assert(more[0] == p);
    if i < n - 1 {
        law_given_values_win(r, m, parts, tick, n1, i);
        assert(p.id != id);
        assert forall|k: int| 0 <= k < more.len() implies (#[trigger] more[k]).id != id by {
            if k > 0 {
                assert(!m1.dom().contains(more[k].id));
            }
        }
        lemma_untouched(m1, more, more.len(), id);
    } else {
        assert forall|k: int| 1 <= k < more.len() implies (#[trigger] more[k]).id != id by {
            assert(more[0].id != more[k].id);
        }
        lemma_first_stays(m1, more, more.len());
    }
}

pub(crate) proof fn lemma_untouched(m: Map<u32, CellState>, parts: Seq<PartState>, n: nat, id: u32)
    requires
        n <= parts.len(),
        forall|k: int| 0 <= k < n ==> (#[trigger] parts[k]).id != id,
    ensures
        puts(m, parts, n).contains_key(id) <==> m.contains_key(id),
        m.contains_key(id) ==> puts(m, parts, n)[id] == m[id],
    decreases n,
{
    if n > 0 {
        lemma_untouched(m, parts, (n - 1) as nat, id);
        assert(parts[n - 1].id != id);
    }
}

pub(crate) proof fn lemma_first_stays(m: Map<u32, CellState>, parts: Seq<PartState>, n: nat)
    requires
        0 < n <= parts.len(),
        forall|k: int| 1 <= k < n ==> (#[trigger] parts[k]).id != parts[0].id,
    ensures
        puts(m, parts, n).contains_key(parts[0].id),
        puts(m, parts, n)[parts[0].id].value == parts[0].value,
        puts(m, parts, n)[parts[0].id].changed == parts[0].tick,
    decreases n,
{
    if n == 1 {
        assert(puts(m, parts, 0) == m);
        assert(puts(m, parts, 1) == put(m, parts[0]));
    } else {
        lemma_first_stays(m, parts, (n - 1) as nat);
        assert(parts[n - 1].id != parts[0].id);
    }
}

/// Writing one part: it is there, nothing goes, and what was there stays as it was but for the
/// part itself.
pub proof fn lemma_put_one(
    r: RegistryState,
    m: Map<u32, CellState>,
    p: PartState,
    tick: Tick,
    id: u32,
)
    requires
        requires_wf(r),
        p.id < r.infos.len(),
    ensures
        puts_all(r, m, seq![p], tick).contains_key(p.id),
        m.contains_key(id) ==> puts_all(r, m, seq![p], tick).contains_key(id),
        m.contains_key(id) && id != p.id ==> puts_all(r, m, seq![p], tick)[id] == m[id],
{
    let one = seq![p];
    let none = Seq::<PartState>::empty();
    let more = with_required(r, m, p, tick);
    reveal_with_fuel(all_written, 2);
    assert(all_written(r, m, one, tick, 0) == none);
    assert(puts(m, none, 0) == m);
    assert(one[0] == p);
    assert(all_written(r, m, one, tick, 1) =~= more);
    lemma_filled(r, m.dom(), one, tick, most_types());
    assert(more[0] == p);
    lemma_puts_dom(m, more, more.len(), p.id);
    lemma_puts_dom(m, more, more.len(), id);
    if m.contains_key(id) && id != p.id {
        assert forall|k: int| 0 <= k < more.len() implies (#[trigger] more[k]).id != id by {
            if k > 0 {
                assert(!m.dom().contains(more[k].id));
            }
        }
        lemma_untouched(m, more, more.len(), id);
    }
}

pub(crate) proof fn lemma_known_part(infos: Seq<InfoView>, key: u64)
    requires
        infos_wf(infos),
        id_of(infos, key) is Some,
    ensures
        id_of(infos, key)->0 < infos.len(),
        infos[id_of(infos, key)->0 as int].key == key,
{
    let i = choose|i: int| 0 <= i < infos.len() && (#[trigger] infos[i]).key == key;
    assert(0 <= i < infos.len() && infos[i].key == key);
    lemma_id_of(infos, i);
}

/// A component that is inserted is there with everything that it requires, and so is every other
/// component that appears. Where nothing lacked what it requires, nothing does afterwards.
pub proof fn law_inserted_components_bring_what_they_require(
    sizes: Map<u64, usize>,
    w: WorldState,
    e: Entity,
    desc: ComponentDesc,
    value: Seq<u8>,
    id: u32,
)
    requires
        infos_wf(w.registry.infos),
        requires_wf(w.registry),
        infos_agree(sizes, w.registry.infos),
        agrees(sizes, desc),
        w.registry.infos.len() + desc_count(desc) <= INVALID_ID,
        w.values.contains_key(e),
    ensures
        ({
            let t = after_insert(w, e, desc, value);
            let b = id_of(t.registry.infos, desc.key)->0;
            &&& t.values[e].contains_key(b)
            &&& !w.values[e].contains_key(id) && t.values[e].contains_key(id) ==> has_required(
                t.registry,
                t.values[e],
                id,
            )
            &&& all_have_required(t.registry, w.values[e]) ==> all_have_required(
                t.registry,
                t.values[e],
            )
        }),
{
    let r = after_register(w.registry, desc);
    lemma_after_register(w.registry, desc);
    lemma_register_requires(sizes, w.registry, desc);
    lemma_known_part(r.infos, desc.key);
    let b = id_of(r.infos, desc.key)->0;
    let parts = seq![PartState { id: b, value, tick: w.tick }];
    assert(parts[0].id == b);
    assert(listed(parts, b));
    law_required_components_come_along(r, w.values[e], parts, w.tick, id);
    law_required_components_come_along(r, w.values[e], parts, w.tick, b);
}

pub(crate) proof fn lemma_registers_requires(
    sizes: Map<u64, usize>,
    r: RegistryState,
    bundle: Seq<BundleState>,
    n: nat,
)
    requires
        n <= bundle.len(),
        infos_wf(r.infos),
        requires_wf(r),
        infos_agree(sizes, r.infos),
        bundle_fits(sizes, bundle),
        r.infos.len() + bundle_cost(bundle, n) <= INVALID_ID,
    ensures
        requires_wf(after_registers(r, bundle, n)),
    decreases n,
{
    if n > 0 {
        let n1 = (n - 1) as nat;
        lemma_registers_requires(sizes, r, bundle, n1);
        lemma_after_registers(sizes, r, bundle, n1);
        assert(agrees(sizes, bundle[n - 1].desc));
        lemma_register_requires(sizes, after_registers(r, bundle, n1), bundle[n - 1].desc);
    }
}

/// A spawned entity has every component of its bundle, and every component of it has everything
/// that it requires.
pub proof fn law_spawned_entities_have_what_is_required(
    sizes: Map<u64, usize>,
    w: WorldState,
    e: Entity,
    bundle: Seq<BundleState>,
    i: int,
)
    requires
        infos_wf(w.registry.infos),
        requires_wf(w.registry),
        infos_agree(sizes, w.registry.infos),
        bundle_fits(sizes, bundle),
        w.registry.infos.len() + bundle_cost(bundle, bundle.len()) <= INVALID_ID,
    ensures
        ({
            let t = after_spawn_reserved(w, e, bundle);
            &&& all_have_required(t.registry, t.values[e])
            &&& 0 <= i < bundle.len() ==> t.values[e].contains_key(
                id_of(t.registry.infos, bundle[i].desc.key)->0,
            )
        }),
        ({
            let t = after_spawn_bundle(w, bundle);
            let x = allocated(w.entities, 1)[0];
            &&& all_have_required(t.registry, t.values[x])
            &&& 0 <= i < bundle.len() ==> t.values[x].contains_key(
                id_of(t.registry.infos, bundle[i].desc.key)->0,
            )
        }),
{
    let r = after_registers(w.registry, bundle, bundle.len());
    lemma_after_registers(sizes, w.registry, bundle, bundle.len());
    lemma_registers_requires(sizes, w.registry, bundle, bundle.len());
    let parts = bundle_parts(r.infos, bundle, w.tick);
    assert forall|k: int| 0 <= k < parts.len() implies (#[trigger] parts[k]).id < r.infos.len() by {
        assert(id_of(r.infos, bundle[k].desc.key) is Some);
        lemma_known_part(r.infos, bundle[k].desc.key);
    }
    let none = Map::<u32, CellState>::empty();
    assert(all_have_required(r, none));
    let id = id_of(r.infos, bundle[i].desc.key)->0;
    law_required_components_come_along(r, none, parts, w.tick, id);
    if 0 <= i < bundle.len() {
        assert(parts[i].id == id);
        assert(listed(parts, id));
    }
}

/// The components of an entity; none where it is not alive.
pub open spec fn components_of(
    values: Map<Entity, Map<u32, CellState>>,
    e: Entity,
) -> Map<u32, CellState> {
    if values.contains_key(e) {
        values[e]
    } else {
        Map::empty()
    }
}

/// Whether a component is among parts.
fn is_listed(parts: &Vec<RawPart>, id: ComponentId) -> (b: bool)
    ensures
        b == listed(part_states(parts@), id.0),
{
    let ghost states = part_states(parts@);
    let mut i: usize = 0;
    while i < parts.len()
        invariant
            i <= parts@.len(),
            states == part_states(parts@),
            forall|k: int| 0 <= k < i ==> (#[trigger] states[k]).id != id.0,
        decreases parts.len() - i,
    {
        assert(states[i as int] == parts@[i as int]@);
        if parts[i].id.0 == id.0 {
            return true;
        }
        i = i + 1;
    }
    false
}

/// Whether an entity has a component, or gets it by `parts`.
fn is_there(world: &World, e: Entity, parts: &Vec<RawPart>, id: ComponentId) -> (b: bool)
    requires
        world.wf(),
    ensures
        b == puts(
            components_of(world@.values, e),
            part_states(parts@),
            parts@.len(),
        ).contains_key(id.0),
{
    proof {
        lemma_puts_dom(
            components_of(world@.values, e),
            part_states(parts@),
            parts@.len(),
            id.0,
        );
    }
    world.get(e, id).is_some() || is_listed(parts, id)
}

/// A new part with what comes along with it. `parts` is what is written before.
fn required_with(world: &World, e: Entity, parts: &Vec<RawPart>, p: RawPart) -> (more: Vec<RawPart>)
    requires
        world.wf(),
        states_fit(seq![p@], world@.registry.infos),
        !puts(
            components_of(world@.values, e),
            part_states(parts@),
            parts@.len(),
        ).contains_key(p.id.0),
    ensures
        part_states(more@) == with_required(
            world@.registry,
            puts(components_of(world@.values, e), part_states(parts@), parts@.len()),
            p@,
            world@.tick,
        ),
{
    let ghost r = world@.registry;
    let ghost m1 = puts(components_of(world@.values, e), part_states(parts@), parts@.len());
    let ghost one = seq![p@];
    let tick: Tick = world.current_tick();
    let mut more: Vec<RawPart> = Vec::new();
    more.push(p);
    proof {
        world.lemma_wf();
        assert(part_states(more@) =~= one);
        assert(one[0].id < r.infos.len());
    }
    let mut k: usize = 0;
    while k < more.len()
        invariant
            world.wf(),
            r == world@.registry,
            requires_wf(r),
            r.infos.len() <= crate::component::INVALID_ID,
            tick == world@.tick,
            m1 == puts(components_of(world@.values, e), part_states(parts@), parts@.len()),
            distinct_ids(one),
            all_known(one, r.infos),
            k <= more@.len(),
            part_states(more@) == filled(r, m1.dom(), one, tick, k as nat),
            k <= r.infos.len(),
        decreases r.infos.len() - k,
    {
        let ghost base = part_states(more@);
        proof {
            lemma_filled(r, m1.dom(), one, tick, k as nat);
            lemma_few(base, r.infos);
            assert(base[k as int] == more@[k as int]@);
        }
        let id: ComponentId = more[k].id;
        let ghost reqs = requirements(r, id.0);
        if let Some(list) = world.registry().requirements_of(id) {
            let mut j: usize = 0;
            while j < list.len()
                invariant
                    world.wf(),
                    r == world@.registry,
                    tick == world@.tick,
                    m1 == puts(
                        components_of(world@.values, e),
                        part_states(parts@),
                        parts@.len(),
                    ),
                    j <= list@.len() == reqs.len(),
                    reqs == list@.map_values(|q: Requirement| q@),
                    base.len() <= more@.len(),
                    part_states(more@) == with_missing(m1.dom(), base, reqs, tick, j as nat),
                decreases list.len() - j,
            {
                let ghost before = part_states(more@);
                let required: ComponentId = list[j].component;
                assert(reqs[j as int] == list@[j as int]@);
                if !is_there(world, e, parts, required) && !is_listed(&more, required) {
                    more.push(
                        RawPart {
                            id: required,
                            value: bytes_of(list[j].default.as_slice()),
                            tick,
                        },
                    );
                    assert(part_states(more@) =~= before.push(
                        PartState { id: reqs[j as int].0, value: reqs[j as int].1, tick },
                    ));
                }
                j = j + 1;
            }
        }
        k = k + 1;
    }
    proof {
        lemma_filled_ends(r, m1.dom(), one, tick, k as nat, most_types());
    }
    more
}

/// Everything that is written to an entity where `parts` are.
pub fn written_with(world: &World, e: Entity, parts: &Vec<RawPart>) -> (full: Vec<RawPart>)
    requires
        world.wf(),
        states_fit(part_states(parts@), world@.registry.infos),
    ensures
        part_states(full@) == all_written(
            world@.registry,
            components_of(world@.values, e),
            part_states(parts@),
            world@.tick,
            parts@.len(),
        ),
        states_fit(part_states(full@), world@.registry.infos),
{
    let ghost r = world@.registry;
    let ghost m = components_of(world@.values, e);
    let ghost states = part_states(parts@);
    let mut full: Vec<RawPart> = Vec::new();
    let mut i: usize = 0;
    assert(part_states(full@) =~= Seq::<PartState>::empty());
    while i < parts.len()
        invariant
            world.wf(),
            i <= parts@.len(),
            r == world@.registry,
            m == components_of(world@.values, e),
            states == part_states(parts@),
            states_fit(states, r.infos),
            part_states(full@) == all_written(r, m, states, world@.tick, i as nat),
        decreases parts.len() - i,
    {
        let ghost head = part_states(full@);
        assert(states[i as int] == parts@[i as int]@);
        let p: RawPart = RawPart {
            id: parts[i].id,
            value: bytes_of(parts[i].value.as_slice()),
            tick: parts[i].tick,
        };
        assert(p@ == states[i as int]);
        if is_there(world, e, &full, p.id) {
            full.push(p);
            assert(part_states(full@) =~= head + seq![states[i as int]]);
        } else {
            let mut more: Vec<RawPart> = required_with(world, e, &full, p);
            let ghost added = part_states(more@);
            full.append(&mut more);
            assert(part_states(full@) =~= head + added);
        }
        i = i + 1;
    }
    proof {
        world.lemma_wf();
        lemma_all_written(r, m, states, world@.tick, states.len());
    }
    full
}

/// The hooks that are due once `parts` were written to an entity.
pub fn hooks_for(world: &World, e: Entity, parts: &Vec<RawPart>) -> (due: Vec<HookEvent>)
    requires
        world.wf(),
    ensures
        due@ == added_hooks(
            world@.registry,
            e,
            components_of(world@.values, e),
            part_states(parts@),
            parts@.len(),
        ),
{
    let ghost r = world@.registry;
    let ghost m = components_of(world@.values, e);
    let ghost states = part_states(parts@);
    let mut due: Vec<HookEvent> = Vec::new();
    let any: bool = world.registry().any_flags();
    proof {
        world.lemma_wf();
        if !any {
            lemma_no_hooks(r, e, m, states, states.len());
        }
    }
    if !any {
        assert(due@ =~= Seq::<HookEvent>::empty());
        return due;
    }
    let mut seen: Vec<RawPart> = Vec::new();
    let mut i: usize = 0;
    assert(part_states(seen@) =~= states.subrange(0, 0));
    assert(due@ =~= Seq::<HookEvent>::empty());
    while i < parts.len()
        invariant
            world.wf(),
            i <= parts@.len(),
            r == world@.registry,
            m == components_of(world@.values, e),
            states == part_states(parts@),
            seen@.len() == i,
            part_states(seen@) == states.subrange(0, i as int),
            due@ == added_hooks(r, e, m, states, i as nat),
        decreases parts.len() - i,
    {
        let id: ComponentId = parts[i].id;
        proof {
            assert(states[i as int] == parts@[i as int]@);
            lemma_puts_same(m, states.subrange(0, i as int), states, i as nat);
        }
        if !is_there(world, e, &seen, id) && world.registry().flags(id) & FLAG_ON_ADD != 0 {
            due.push(HookEvent::ComponentAdded { component: id.0, entity: e });
        }
        let ghost before = part_states(seen@);
        seen.push(
            RawPart { id, value: bytes_of(parts[i].value.as_slice()), tick: parts[i].tick },
        );
        i = i + 1;
        assert(part_states(seen@) =~= before.push(states[i - 1]));
        assert(part_states(seen@) =~= states.subrange(0, i as int));
    }
    due
}

proof fn lemma_no_hooks(
    r: RegistryState,
    e: Entity,
    m: Map<u32, CellState>,
    parts: Seq<PartState>,
    n: nat,
)
    requires
        forall|id: u32| #[trigger] flag_of(r, id) == 0,
    ensures
        added_hooks(r, e, m, parts, n) == Seq::<HookEvent>::empty(),
    decreases n,
{
    if n > 0 {
        lemma_no_hooks(r, e, m, parts, (n - 1) as nat);
        assert(flag_of(r, parts[n - 1].id) == 0);
        assert(0u8 & FLAG_ON_ADD == 0) by (bit_vector);
    }
}

proof fn lemma_no_removed_hooks(r: RegistryState, e: Entity, m: Map<u32, CellState>, n: nat)
    requires
        forall|id: u32| #[trigger] flag_of(r, id) == 0,
    ensures
        removed_hooks(r, e, m, n) == Seq::<HookEvent>::empty(),
    decreases n,
{
    if n > 0 {
        lemma_no_removed_hooks(r, e, m, (n - 1) as nat);
        assert(flag_of(r, (n - 1) as u32) == 0);
        assert(0u8 & FLAG_ON_REMOVE == 0) by (bit_vector);
        assert(0u8 & FLAG_TRACK_REMOVED == 0) by (bit_vector);
    }
}

/// Notes a value that goes, if its type asks for that.
fn note_discard(world: &World, list: &mut Vec<Discarded>, id: ComponentId, value: Vec<u8>)
    requires
        world.wf(),
    ensures
        discard_states(final(list)@) == discard_states(old(list)@) + discard_of(
            world@.registry,
            id.0,
            value@,
        ),
{
    let ghost bytes = value@;
    if let Some(info) = world.registry().get_info(id) {
        if info.needs_drop {
            list.push(Discarded { key: info.key, value });
        }
    }
    assert(discard_states(list@) =~= discard_states(old(list)@) + discard_of(
        world@.registry,
        id.0,
        bytes,
    ));
}

/// What is to be disposed of where a value of a component goes.
pub fn discard_for(world: &World, id: ComponentId, value: &[u8]) -> (list: Vec<Discarded>)
    requires
        world.wf(),
    ensures
        discard_states(list@) == discard_of(world@.registry, id.0, value@),
{
    let mut list: Vec<Discarded> = Vec::new();
    assert(discard_states(list@) =~= Seq::<DiscardState>::empty());
    note_discard(world, &mut list, id, bytes_of(value));
    assert(Seq::<DiscardState>::empty() + discard_of(world@.registry, id.0, value@)
        =~= discard_of(world@.registry, id.0, value@));
    list
}

/// The value of a component once the first `n` of `parts` were written to an entity.
fn value_after(world: &World, e: Entity, parts: &Vec<RawPart>, n: usize, id: ComponentId) -> (value:
    Option<Vec<u8>>)
    requires
        world.wf(),
        n <= parts@.len(),
    ensures
        ({
            let t = puts(components_of(world@.values, e), part_states(parts@), n as nat);
            &&& value is Some <==> t.contains_key(id.0)
            &&& value matches Some(v) ==> v@ == t[id.0].value
        }),
{
    let ghost m = components_of(world@.values, e);
    let ghost states = part_states(parts@);
    let ghost t = puts(m, states, n as nat);
    let mut i: usize = n;
    while i > 0
        invariant
            world.wf(),
            i <= n <= parts@.len(),
            m == components_of(world@.values, e),
            states == part_states(parts@),
            t == puts(m, states, n as nat),
            t.contains_key(id.0) <==> puts(m, states, i as nat).contains_key(id.0),
            t.contains_key(id.0) ==> t[id.0].value == puts(m, states, i as nat)[id.0].value,
        decreases i,
    {
        assert(states[i - 1] == parts@[i - 1]@);
        if parts[i - 1].id.0 == id.0 {
            return Some(bytes_of(parts[i - 1].value.as_slice()));
        }
        i = i - 1;
    }
    match world.get(e, id) {
        Some(value) => Some(bytes_of(value)),
        None => None,
    }
}

/// What is to be disposed of once `parts` were written to an entity.
pub fn discards_for(world: &World, e: Entity, parts: &Vec<RawPart>) -> (list: Vec<Discarded>)
    requires
        world.wf(),
    ensures
        discard_states(list@) == overwritten(
            world@.registry,
            components_of(world@.values, e),
            part_states(parts@),
            parts@.len(),
        ),
{
    let ghost r = world@.registry;
    let ghost m = components_of(world@.values, e);
    let ghost states = part_states(parts@);
    let mut list: Vec<Discarded> = Vec::new();
    let mut i: usize = 0;
    assert(discard_states(list@) =~= Seq::<DiscardState>::empty());
    while i < parts.len()
        invariant
            world.wf(),
            i <= parts@.len(),
            r == world@.registry,
            m == components_of(world@.values, e),
            states == part_states(parts@),
            discard_states(list@) == overwritten(r, m, states, i as nat),
        decreases parts.len() - i,
    {
        let id: ComponentId = parts[i].id;
        let ghost before = discard_states(list@);
        assert(states[i as int] == parts@[i as int]@);
        assert(before + Seq::<DiscardState>::empty() =~= before);
        let needed: bool = match world.registry().get_info(id) {
            Some(info) => info.needs_drop,
            None => false,
        };
        if needed {
            if let Some(value) = value_after(world, e, parts, i, id) {
                note_discard(world, &mut list, id, value);
            }
        }
        i = i + 1;
    }
    list
}

/// What is to be disposed of once an entity lost all of its components.
pub fn removed_values_of(world: &World, e: Entity) -> (list: Vec<Discarded>)
    requires
        world.wf(),
    ensures
        discard_states(list@) == removed_values(
            world@.registry,
            components_of(world@.values, e),
            world@.registry.infos.len(),
        ),
{
    let ghost r = world@.registry;
    let ghost m = components_of(world@.values, e);
    let total: usize = world.registry().len();
    let mut list: Vec<Discarded> = Vec::new();
    let mut i: usize = 0;
    proof {
        world.lemma_wf();
    }
    assert(discard_states(list@) =~= Seq::<DiscardState>::empty());
    while i < total
        invariant
            world.wf(),
            i <= total == r.infos.len() <= crate::component::INVALID_ID,
            r == world@.registry,
            m == components_of(world@.values, e),
            discard_states(list@) == removed_values(r, m, i as nat),
        decreases total - i,
    {
        let id: ComponentId = ComponentId(i as u32);
        let ghost before = discard_states(list@);
        assert(before + Seq::<DiscardState>::empty() =~= before);
        let needed: bool = match world.registry().get_info(id) {
            Some(info) => info.needs_drop,
            None => false,
        };
        if needed {
            if let Some(value) = world.get(e, id) {
                note_discard(world, &mut list, id, bytes_of(value));
            }
        }
        i = i + 1;
    }
    list
}

/// Whether someone wants to know when a component goes.
pub fn removal_is_wanted(world: &World, id: ComponentId) -> (b: bool)
    requires
        world.wf(),
    ensures
        b == wants_removed(world@.registry, id.0),
{
    let flags: u8 = world.registry().flags(id);
    flags & FLAG_ON_REMOVE != 0 || flags & FLAG_TRACK_REMOVED != 0
}

/// The hooks that are due once an entity lost all of its components.
pub fn removal_hooks_for(world: &World, e: Entity) -> (due: Vec<HookEvent>)
    requires
        world.wf(),
    ensures
        due@ == removed_hooks(
            world@.registry,
            e,
            components_of(world@.values, e),
            world@.registry.infos.len(),
        ),
{
    let ghost r = world@.registry;
    let ghost m = components_of(world@.values, e);
    let mut due: Vec<HookEvent> = Vec::new();
    let any: bool = world.registry().any_flags();
    let total: usize = world.registry().len();
    proof {
        world.lemma_wf();
        if !any {
            lemma_no_removed_hooks(r, e, m, r.infos.len());
        }
    }
    assert(due@ =~= Seq::<HookEvent>::empty());
    if !any {
        return due;
    }
    let mut i: usize = 0;
    while i < total
        invariant
            world.wf(),
            i <= total == r.infos.len() <= crate::component::INVALID_ID,
            r == world@.registry,
            m == components_of(world@.values, e),
            due@ == removed_hooks(r, e, m, i as nat),
        decreases total - i,
    {
        let id: ComponentId = ComponentId(i as u32);
        if world.get(e, id).is_some() && removal_is_wanted(world, id) {
            due.push(HookEvent::ComponentRemoved { component: id.0, entity: e });
        }
        i = i + 1;
    }
    due
}

} // verus!
