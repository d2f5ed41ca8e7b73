//! What holds of values that are to be disposed of: each goes once.

use vstd::prelude::*;
use crate::component::Tick;
use crate::registry::{RegistryState, infos_wf};
use crate::requirements::{
    DiscardState, all_known, all_written, discard_of, discards_of_all, lemma_all_written,
    overwritten, puts_all, removed_values,
};
use crate::storage::CellState;
use crate::world::{PartState, puts};

verus! {

/// The values of a component among the first `n` of `parts`, in order.
pub open spec fn given(parts: Seq<PartState>, id: u32, n: nat) -> Seq<Seq<u8>>
    decreases n,
{
    if n == 0 {
        Seq::empty()
    } else {
        let head = given(parts, id, (n - 1) as nat);
        if parts[n - 1].id == id {
            head.push(parts[n - 1].value)
        } else {
            head
        }
    }
}

/// The values of the type with the given key among discarded ones, in order.
pub open spec fn handed_back(list: Seq<DiscardState>, key: u64) -> Seq<Seq<u8>>
    decreases list.len(),
{
    if list.len() == 0 {
        Seq::empty()
    } else {
        let head = handed_back(list.drop_last(), key);
        if list.last().key == key {
            head.push(list.last().value)
        } else {
            head
        }
    }
}

/// The value of a component, if it is there.
pub open spec fn kept(m: Map<u32, CellState>, id: u32) -> Seq<Seq<u8>> {
    if m.contains_key(id) {
        seq![m[id].value]
    } else {
        Seq::empty()
    }
}

proof fn lemma_handed_back(list: Seq<DiscardState>, r: RegistryState, id: u32, value: Seq<u8>, of: u32)
    requires
        infos_wf(r.infos),
        id < r.infos.len(),
        of < r.infos.len(),
        r.infos[of as int].needs_drop,
    ensures
        handed_back(list + discard_of(r, id, value), r.infos[of as int].key) == if id == of {
            handed_back(list, r.infos[of as int].key).push(value)
        } else {
            handed_back(list, r.infos[of as int].key)
        },
{
    let more = discard_of(r, id, value);
    if id < of {
        assert(r.infos[id as int].key != r.infos[of as int].key);
    } else if of < id {
        assert(r.infos[of as int].key != r.infos[id as int].key);
    }
    if r.infos[id as int].needs_drop {
        assert((list + more).drop_last() =~= list);
        assert((list + more).last() == more[0]);
    } else {
        assert(list + more =~= list);
    }
}

/// Writing loses no value and hands none back twice: what a component was and what it was given, in
/// order, is what is handed back and then what it is.
pub proof fn law_writing_disposes_of_each_value_once(
    r: RegistryState,
    m: Map<u32, CellState>,
    parts: Seq<PartState>,
    n: nat,
    id: u32,
)
    requires
        infos_wf(r.infos),
        n <= parts.len(),
        all_known(parts, r.infos),
        id < r.infos.len(),
        r.infos[id as int].needs_drop,
    ensures
        kept(m, id) + given(parts, id, n) == handed_back(
            overwritten(r, m, parts, n),
            r.infos[id as int].key,
        ) + kept(puts(m, parts, n), id),
    decreases n,
{
    let key = r.infos[id as int].key;
    if n == 0 {
        assert(kept(m, id) + given(parts, id, 0) =~= handed_back(overwritten(r, m, parts, 0), key)
            + kept(puts(m, parts, 0), id));
    } else {
        let n1 = (n - 1) as nat;
        law_writing_disposes_of_each_value_once(r, m, parts, n1, id);
        let before = puts(m, parts, n1);
        let head = overwritten(r, m, parts, n1);
        let p = parts[n - 1];
        assert(p.id < r.infos.len());
        if before.contains_key(p.id) {
            lemma_handed_back(head, r, p.id, before[p.id].value, id);
        } else {
            assert(head + Seq::<DiscardState>::empty() =~= head);
        }
        let left = kept(m, id) + given(parts, id, n);
        let right = handed_back(overwritten(r, m, parts, n), key) + kept(puts(m, parts, n), id);
        let was = kept(m, id) + given(parts, id, n1);
        if p.id == id {
            assert(left =~= was.push(p.value));
            assert(kept(puts(m, parts, n), id) == seq![p.value]);
            assert(right =~= was.push(p.value));
        } else {
            assert(kept(puts(m, parts, n), id) == kept(before, id));
            assert(left == was);
            assert(right == was);
        }
    }
}

/// The same where what is required comes along.
pub proof fn law_inserting_disposes_of_each_value_once(
    r: RegistryState,
    m: Map<u32, CellState>,
    parts: Seq<PartState>,
    tick: Tick,
    id: u32,
)
    requires
        infos_wf(r.infos),
        crate::registry::requires_wf(r),
        all_known(parts, r.infos),
        id < r.infos.len(),
        r.infos[id as int].needs_drop,
    ensures
        ({
            let all = all_written(r, m, parts, tick, parts.len());
            kept(m, id) + given(all, id, all.len()) == handed_back(
                discards_of_all(r, m, parts, tick),
                r.infos[id as int].key,
            ) + kept(puts_all(r, m, parts, tick), id)
        }),
{
    let all = all_written(r, m, parts, tick, parts.len());
    lemma_all_written(r, m, parts, tick, parts.len());
    law_writing_disposes_of_each_value_once(r, m, all, all.len(), id);
}

/// An entity that goes hands each of its values back once.
pub proof fn law_despawning_disposes_of_each_value_once(
    r: RegistryState,
    m: Map<u32, CellState>,
    n: nat,
    id: u32,
)
    requires
        infos_wf(r.infos),
        n <= r.infos.len(),
        id < r.infos.len(),
        r.infos[id as int].needs_drop,
    ensures
        handed_back(removed_values(r, m, n), r.infos[id as int].key) == if id < n {
            kept(m, id)
        } else {
            Seq::<Seq<u8>>::empty()
        },
    decreases n,
{
    if n > 0 {
        let n1 = (n - 1) as nat;
        law_despawning_disposes_of_each_value_once(r, m, n1, id);
        let head = removed_values(r, m, n1);
        let x = n1 as u32;
        let key = r.infos[id as int].key;
        if m.contains_key(x) {
            lemma_handed_back(head, r, x, m[x].value, id);
        } else {
            assert(head + Seq::<DiscardState>::empty() =~= head);
        }
        assert(handed_back(removed_values(r, m, n), key) =~= if id < n {
            kept(m, id)
        } else {
            Seq::<Seq<u8>>::empty()
        });
    }
}

} // verus!
