//! What holds of entity ids across operations: no slot is issued twice, stale handles stay dead,
//! and batches do what single steps do.

use vstd::prelude::*;
use crate::entity::{
    AllocState, Entity, EntityLocation, after_allocate, after_draw, after_flush, after_free,
    after_pop, after_set_location, alive, allocated, can_allocate, can_draw, drawn, from_free, grow,
    is_current, is_idle, popped, real_indices, reused, state_wf, undrawn,
};

verus! {

/// Whether no index of `a` is an index of `b`.
pub open spec fn disjoint(a: Seq<u32>, b: Seq<u32>) -> bool {
    forall|i: int, j: int|
        0 <= i < a.len() && 0 <= j < b.len() ==> #[trigger] a[i] != #[trigger] b[j]
}

/// Whether slot `index` has no location.
pub open spec fn unlocated(s: AllocState, index: u32) -> bool {
    index < s.locations.len() ==> s.locations[index as int] is None
}

/// Whether no slot of `a` has a location.
pub open spec fn all_unlocated(s: AllocState, a: Seq<u32>) -> bool {
    forall|i: int| 0 <= i < a.len() ==> unlocated(s, #[trigger] a[i])
}

/// The pool is sound: no slot is in it twice, none of its slots is in use, and the lease offers
/// the current generations.
pub open spec fn pool_sound(s: AllocState) -> bool {
    &&& s.free_list.no_duplicates()
    &&& s.abandoned.no_duplicates()
    &&& undrawn(s).no_duplicates()
    &&& disjoint(s.free_list, s.abandoned)
    &&& disjoint(s.free_list, undrawn(s))
    &&& disjoint(s.abandoned, undrawn(s))
    &&& all_unlocated(s, s.free_list)
    &&& all_unlocated(s, s.abandoned)
    &&& all_unlocated(s, undrawn(s))
    &&& forall|i: int|
        0 <= i < s.unconsumed ==> (#[trigger] s.lease[i]).1 == s.generations[s.lease[i].0 as int]
}

/// Whether slot `index` was issued and is not in the pool.
pub open spec fn held(s: AllocState, index: u32) -> bool {
    &&& index < s.high_water
    &&& !s.free_list.contains(index)
    &&& !s.abandoned.contains(index)
    &&& !undrawn(s).contains(index)
}

/// Whether `es` are handles of distinct slots that were not held before and are held after.
pub open spec fn newly_issued(before: AllocState, es: Seq<Entity>, after: AllocState) -> bool {
    &&& forall|i: int, j: int|
        0 <= i < j < es.len() ==> (#[trigger] es[i]).index != (#[trigger] es[j]).index
    &&& forall|i: int|
        0 <= i < es.len() ==> !held(before, (#[trigger] es[i]).index) && held(after, es[i].index)
            && unlocated(after, es[i].index)
}

proof fn lemma_undrawn_after_draw(s: AllocState, n: nat)
    requires
        s.unconsumed <= s.lease.len(),
    ensures
        undrawn(after_draw(s, n)) =~= undrawn(s).subrange(0, s.unconsumed - reused(s, n)),
        forall|i: int| 0 <= i < s.unconsumed ==> undrawn(s)[i] == (#[trigger] s.lease[i]).0,
{
}

/// A reservation hands out each slot once: the ids drawn are distinct, none of them was held
/// before, all of them are held afterwards, and the pool stays sound.
pub proof fn law_draw_issues_each_slot_once(s: AllocState, n: nat)
    requires
        state_wf(s),
        pool_sound(s),
        can_draw(s, n),
    ensures
        state_wf(after_draw(s, n)),
        pool_sound(after_draw(s, n)),
        newly_issued(s, drawn(s, n), after_draw(s, n)),
{
    let t = after_draw(s, n);
    let es = drawn(s, n);
    lemma_undrawn_after_draw(s, n);
    assert forall|i: int| 0 <= i < t.abandoned.len() implies #[trigger] t.abandoned[i]
        < t.high_water by {
        assert(s.abandoned[i] < s.high_water);
    }
    assert forall|i: int, j: int| 0 <= i < j < es.len() implies (#[trigger] es[i]).index != (
    #[trigger] es[j]).index by {
        let r = reused(s, n);
        if i < r {
            assert(undrawn(s)[s.unconsumed - 1 - i] == s.lease[s.unconsumed - 1 - i].0);
            assert(s.lease[s.unconsumed - 1 - i].0 < s.generations.len());
            if j < r {
                assert(undrawn(s)[s.unconsumed - 1 - j] == s.lease[s.unconsumed - 1 - j].0);
            }
        }
    }
    assert forall|i: int| 0 <= i < es.len() implies !held(s, (#[trigger] es[i]).index) && held(
        t,
        es[i].index,
    ) && unlocated(t, es[i].index) by {
        let r = reused(s, n);
        let index = es[i].index;
        if i < r {
            let p = s.unconsumed - 1 - i;
            assert(undrawn(s)[p] == s.lease[p].0);
            assert(undrawn(s).contains(index));
            assert(s.lease[p].0 < s.generations.len());
            assert(unlocated(s, undrawn(s)[p]));
            if undrawn(t).contains(index) {
                let q = choose|q: int| 0 <= q < undrawn(t).len() && undrawn(t)[q] == index;
                assert(undrawn(s)[q] == index);
            }
            if s.free_list.contains(index) {
                let q = choose|q: int| 0 <= q < s.free_list.len() && s.free_list[q] == index;
                assert(s.free_list[q] != undrawn(s)[p]);
            }
            if s.abandoned.contains(index) {
                let q = choose|q: int| 0 <= q < s.abandoned.len() && s.abandoned[q] == index;
                assert(s.abandoned[q] != undrawn(s)[p]);
            }
        } else {
            assert(index == s.high_water + i - r);
            if undrawn(t).contains(index) {
                let q = choose|q: int| 0 <= q < undrawn(t).len() && undrawn(t)[q] == index;
                assert(undrawn(s)[q] == s.lease[q].0);
            }
            if s.free_list.contains(index) {
                let q = choose|q: int| 0 <= q < s.free_list.len() && s.free_list[q] == index;
                assert(s.free_list[q] < s.generations.len());
            }
            if s.abandoned.contains(index) {
                let q = choose|q: int| 0 <= q < s.abandoned.len() && s.abandoned[q] == index;
                assert(s.abandoned[q] < s.high_water);
            }
        }
    }
    assert forall|i: int, j: int|
        0 <= i < s.free_list.len() && 0 <= j < undrawn(t).len() implies #[trigger] s.free_list[i]
        != #[trigger] undrawn(t)[j] by {
        assert(undrawn(s)[j] == undrawn(t)[j]);
    }
    assert forall|i: int, j: int|
        0 <= i < s.abandoned.len() && 0 <= j < undrawn(t).len() implies #[trigger] s.abandoned[i]
        != #[trigger] undrawn(t)[j] by {
        assert(undrawn(s)[j] == undrawn(t)[j]);
    }
    assert forall|i: int| 0 <= i < undrawn(t).len() implies unlocated(t, #[trigger] undrawn(t)[i])
        by {
        assert(undrawn(s)[i] == undrawn(t)[i]);
        assert(unlocated(s, undrawn(s)[i]));
    }
    assert forall|i: int, j: int|
        0 <= i < undrawn(t).len() && 0 <= j < undrawn(t).len() && i != j implies undrawn(t)[i]
        != undrawn(t)[j] by {
        assert(undrawn(s)[i] == undrawn(t)[i]);
        assert(undrawn(s)[j] == undrawn(t)[j]);
    }
    assert(forall|i: int|
        0 <= i < s.free_list.len() ==> unlocated(s, #[trigger] s.free_list[i]) ==> unlocated(
            t,
            s.free_list[i],
        ));
}

proof fn lemma_grow(s: AllocState, n: nat)
    requires
        state_wf(s),
        n <= s.high_water,
    ensures
        state_wf(grow(s, n)),
        grow(s, n).generations.len() == if s.generations.len() >= n { s.generations.len() } else { n },
        forall|i: int|
            0 <= i < s.generations.len() ==> grow(s, n).generations[i] == s.generations[i],
        forall|i: u32| unlocated(s, i) ==> unlocated(grow(s, n), i),
        pool_sound(s) ==> pool_sound(grow(s, n)),
{
    let g = grow(s, n);
    assert(undrawn(g) == undrawn(s));
    assert forall|i: u32| unlocated(s, i) implies unlocated(g, i) by {}
    if pool_sound(s) {
        assert forall|i: int| 0 <= i < s.free_list.len() implies unlocated(
            g,
            #[trigger] s.free_list[i],
        ) by {
            assert(unlocated(s, s.free_list[i]));
        }
        assert forall|i: int| 0 <= i < s.abandoned.len() implies unlocated(
            g,
            #[trigger] s.abandoned[i],
        ) by {
            assert(unlocated(s, s.abandoned[i]));
        }
        assert forall|i: int| 0 <= i < undrawn(s).len() implies unlocated(
            g,
            #[trigger] undrawn(s)[i],
        ) by {
            assert(unlocated(s, undrawn(s)[i]));
        }
        assert forall|i: int| 0 <= i < s.unconsumed implies (#[trigger] g.lease[i]).1
            == g.generations[g.lease[i].0 as int] by {
            assert(s.lease[i].1 == s.generations[s.lease[i].0 as int]);
        }
    }
}

proof fn lemma_pop_issues_each_slot_once(s: AllocState, n: nat)
    requires
        state_wf(s),
        pool_sound(s),
    ensures
        state_wf(after_pop(s, n)),
        pool_sound(after_pop(s, n)),
        newly_issued(s, popped(s, n), after_pop(s, n)),
        forall|i: int|
            0 <= i < popped(s, n).len() ==> is_current(after_pop(s, n), #[trigger] popped(s, n)[i]),
{
    let t = after_pop(s, n);
    let es = popped(s, n);
    let len = s.free_list.len();
    assert(undrawn(t) == undrawn(s));
    assert forall|i: int| 0 <= i < t.free_list.len() implies unlocated(t, #[trigger] t.free_list[i])
        by {
        assert(t.free_list[i] == s.free_list[i]);
        assert(unlocated(s, s.free_list[i]));
    }
    assert forall|i: int| 0 <= i < s.abandoned.len() implies unlocated(t, #[trigger] t.abandoned[i])
        by {
        assert(unlocated(s, s.abandoned[i]));
    }
    assert forall|i: int| 0 <= i < undrawn(s).len() implies unlocated(t, #[trigger] undrawn(t)[i])
        by {
        assert(unlocated(s, undrawn(s)[i]));
    }
    assert forall|i: int| 0 <= i < es.len() implies !held(s, (#[trigger] es[i]).index) && held(
        t,
        es[i].index,
    ) && unlocated(t, es[i].index) && is_current(t, es[i]) by {
        let index = es[i].index;
        assert(s.free_list[len - 1 - i] == index);
        assert(s.free_list.contains(index));
        assert(unlocated(s, s.free_list[len - 1 - i]));
        if t.free_list.contains(index) {
            let q = choose|q: int| 0 <= q < t.free_list.len() && t.free_list[q] == index;
            assert(s.free_list[q] == index);
        }
        if s.abandoned.contains(index) {
            let q = choose|q: int| 0 <= q < s.abandoned.len() && s.abandoned[q] == index;
            assert(s.free_list[len - 1 - i] != s.abandoned[q]);
        }
        if undrawn(s).contains(index) {
            let q = choose|q: int| 0 <= q < undrawn(s).len() && undrawn(s)[q] == index;
            assert(s.free_list[len - 1 - i] != undrawn(s)[q]);
        }
    }
    assert forall|i: int, j: int| 0 <= i < j < es.len() implies (#[trigger] es[i]).index != (
    #[trigger] es[j]).index by {
        assert(s.free_list[len - 1 - i] != s.free_list[len - 1 - j]);
    }
}

/// Direct allocation hands out each slot once, and every handle it yields is the current one of
/// an unlocated slot: a handle that comes back is never that of a live entity.
pub proof fn law_allocate_issues_each_slot_once(s: AllocState, n: nat)
    requires
        state_wf(s),
        pool_sound(s),
        can_allocate(s, n),
    ensures
        state_wf(after_allocate(s, n)),
        pool_sound(after_allocate(s, n)),
        newly_issued(s, allocated(s, n), after_allocate(s, n)),
        forall|i: int|
            0 <= i < allocated(s, n).len() ==> is_current(
                after_allocate(s, n),
                #[trigger] allocated(s, n)[i],
            ),
{
    let p = after_pop(s, n);
    let m = (n - from_free(s, n)) as nat;
    let d = after_draw(p, m);
    let t = after_allocate(s, n);
    let es = allocated(s, n);
    lemma_pop_issues_each_slot_once(s, n);
    law_draw_issues_each_slot_once(p, m);
    lemma_grow(d, d.high_water);
    lemma_undrawn_after_draw(p, m);
    assert(undrawn(t) == undrawn(d));
    let k = from_free(s, n);
    assert forall|i: int| 0 <= i < es.len() implies !held(s, (#[trigger] es[i]).index) && held(
        t,
        es[i].index,
    ) && unlocated(t, es[i].index) && is_current(t, es[i]) by {
        if i < k {
            let e = popped(s, n)[i];
            assert(es[i] == e);
            assert(held(p, e.index));
            if undrawn(d).contains(e.index) {
                let q = choose|q: int| 0 <= q < undrawn(d).len() && undrawn(d)[q] == e.index;
                assert(undrawn(p)[q] == e.index);
            }
            assert(unlocated(p, e.index));
            assert(unlocated(d, e.index));
        } else {
            let e = drawn(p, m)[i - k];
            assert(es[i] == e);
            assert(!held(p, e.index));
            assert(held(d, e.index));
            if held(s, e.index) {
                assert(!p.free_list.contains(e.index)) by {
                    if p.free_list.contains(e.index) {
                        let q = choose|q: int|
                            0 <= q < p.free_list.len() && p.free_list[q] == e.index;
                        assert(s.free_list[q] == e.index);
                    }
                }
                assert(undrawn(p) == undrawn(s));
            }
            assert(unlocated(d, e.index));
            if i - k < reused(p, m) {
                let q = p.unconsumed - 1 - (i - k);
                assert(p.lease[q].1 == p.generations[p.lease[q].0 as int]);
                assert(p.lease[q].0 < p.generations.len());
            } else {
                assert(t.high_water > s.high_water);
                assert(e.index >= s.generations.len());
            }
        }
    }
    assert forall|i: int, j: int| 0 <= i < j < es.len() implies (#[trigger] es[i]).index != (
    #[trigger] es[j]).index by {
        if i < k && j >= k {
            assert(held(p, popped(s, n)[i].index));
            assert(!held(p, drawn(p, m)[j - k].index));
        } else if j < k {
            assert(es[i] == popped(s, n)[i] && es[j] == popped(s, n)[j]);
        } else {
            assert(es[i] == drawn(p, m)[i - k] && es[j] == drawn(p, m)[j - k]);
        }
    }
}

/// Freeing the current handle of a held slot keeps the pool sound. The slot goes back to the pool
/// unless its generations are used up, and the handle is dead.
pub proof fn law_free_keeps_pool_sound(s: AllocState, e: Entity)
    requires
        state_wf(s),
        pool_sound(s),
        is_current(s, e),
        held(s, e.index),
    ensures
        state_wf(after_free(s, e)),
        pool_sound(after_free(s, e)),
        !alive(after_free(s, e), e),
        held(after_free(s, e), e.index) <==> e.generation == u32::MAX - 1,
{
    let t = after_free(s, e);
    assert(undrawn(t) == undrawn(s));
    assert forall|i: int| 0 <= i < t.free_list.len() implies unlocated(t, #[trigger] t.free_list[i])
        && t.free_list[i] < t.generations.len() by {
        if i < s.free_list.len() {
            assert(t.free_list[i] == s.free_list[i]);
            assert(unlocated(s, s.free_list[i]));
        }
    }
    assert forall|i: int| 0 <= i < s.abandoned.len() implies unlocated(t, #[trigger] t.abandoned[i])
        by {
        assert(unlocated(s, s.abandoned[i]));
    }
    assert forall|i: int| 0 <= i < undrawn(s).len() implies unlocated(t, #[trigger] undrawn(t)[i])
        by {
        assert(unlocated(s, undrawn(s)[i]));
    }
    assert forall|i: int| 0 <= i < t.unconsumed implies (#[trigger] t.lease[i]).1
        == t.generations[t.lease[i].0 as int] by {
        assert(undrawn(s)[i] == s.lease[i].0);
        assert(undrawn(s).contains(s.lease[i].0));
    }
    assert forall|i: int, j: int|
        0 <= i < t.free_list.len() && 0 <= j < t.abandoned.len() implies #[trigger] t.free_list[i]
        != #[trigger] t.abandoned[j] by {
        if i == s.free_list.len() {
            assert(s.abandoned.contains(t.abandoned[j]));
        }
    }
    assert forall|i: int, j: int|
        0 <= i < t.free_list.len() && 0 <= j < undrawn(t).len() implies #[trigger] t.free_list[i]
        != #[trigger] undrawn(t)[j] by {
        if i == s.free_list.len() {
            assert(undrawn(s).contains(undrawn(t)[j]));
        }
    }
    assert forall|i: int, j: int|
        0 <= i < t.free_list.len() && 0 <= j < t.free_list.len() && i != j implies t.free_list[i]
        != t.free_list[j] by {
        if i < s.free_list.len() {
            assert(s.free_list.contains(s.free_list[i]));
        }
        if j < s.free_list.len() {
            assert(s.free_list.contains(s.free_list[j]));
        }
    }
    if e.generation != u32::MAX - 1 {
        assert(t.free_list[s.free_list.len() as int] == e.index);
        assert(t.free_list.contains(e.index));
    } else {
        assert(t.free_list == s.free_list);
    }
}

/// A flush keeps the pool sound, gives every issued index a record, and offers exactly what was
/// free, abandoned or undrawn.
pub proof fn law_flush_keeps_pool_sound(s: AllocState)
    requires
        state_wf(s),
        pool_sound(s),
    ensures
        state_wf(after_flush(s)),
        pool_sound(after_flush(s)),
        after_flush(s).generations.len() == s.high_water,
        forall|index: u32| held(after_flush(s), index) <==> held(s, index),
{
    let g = grow(s, s.high_water);
    let t = after_flush(s);
    lemma_grow(s, s.high_water);
    if !is_idle(s) {
        let pool = s.free_list + s.abandoned + undrawn(s);
        let a = s.free_list.len() as int;
        let b = a + s.abandoned.len();
        assert(undrawn(t) =~= pool);
        assert forall|i: int| 0 <= i < pool.len() implies #[trigger] pool[i] < g.generations.len()
            && unlocated(t, pool[i]) by {
            if i < a {
                assert(pool[i] == s.free_list[i]);
                assert(unlocated(s, s.free_list[i]));
            } else if i < b {
                assert(pool[i] == s.abandoned[i - a]);
                assert(unlocated(s, s.abandoned[i - a]));
            } else {
                assert(pool[i] == undrawn(s)[i - b]);
                assert(unlocated(s, undrawn(s)[i - b]));
                assert(s.lease[i - b].0 < s.generations.len());
            }
            assert(unlocated(g, pool[i]));
        }
        assert forall|i: int, j: int|
            0 <= i < pool.len() && 0 <= j < pool.len() && i != j implies pool[i] != pool[j] by {
            let x = pool[i];
            let y = pool[j];
            assert(i < a ==> x == s.free_list[i]);
            assert(a <= i < b ==> x == s.abandoned[i - a]);
            assert(b <= i ==> x == undrawn(s)[i - b]);
            assert(j < a ==> y == s.free_list[j]);
            assert(a <= j < b ==> y == s.abandoned[j - a]);
            assert(b <= j ==> y == undrawn(s)[j - b]);
        }
        assert forall|index: u32| held(t, index) <==> held(s, index) by {
            if s.free_list.contains(index) {
                let q = choose|q: int| 0 <= q < s.free_list.len() && s.free_list[q] == index;
                assert(pool[q] == index);
            }
            if s.abandoned.contains(index) {
                let q = choose|q: int| 0 <= q < s.abandoned.len() && s.abandoned[q] == index;
                assert(pool[a + q] == index);
            }
            if undrawn(s).contains(index) {
                let q = choose|q: int| 0 <= q < undrawn(s).len() && undrawn(s)[q] == index;
                assert(pool[b + q] == index);
            }
            if undrawn(t).contains(index) {
                let q = choose|q: int| 0 <= q < pool.len() && pool[q] == index;
                assert(q < a ==> s.free_list[q] == index);
                assert(a <= q < b ==> s.abandoned[q - a] == index);
                assert(b <= q ==> undrawn(s)[q - b] == index);
            }
        }
        assert forall|i: int| 0 <= i < t.lease.len() implies (#[trigger] t.lease[i]).0
            < t.generations.len() by {
            assert(t.lease[i].0 == pool[i]);
        }
    } else {
        assert(undrawn(g) == undrawn(s));
    }
}

/// An idle flush changes nothing: a second flush right after a first leaves the allocator as it
/// is, and the lease is not published again.
pub proof fn law_flush_is_idempotent(s: AllocState)
    requires
        state_wf(s),
    ensures
        after_flush(after_flush(s)) == after_flush(s),
{
    let t = after_flush(s);
    let g = grow(s, s.high_water);
    if !is_idle(s) {
        assert(t.unconsumed == t.lease.len());
    }
    assert(t.generations.len() >= t.high_water);
}

/// Writing the location of a held slot keeps the pool sound and every other slot as it was.
pub proof fn law_set_location_keeps_pool_sound(s: AllocState, e: Entity, loc: EntityLocation)
    requires
        state_wf(s),
        pool_sound(s),
        held(s, e.index),
    ensures
        state_wf(after_set_location(s, e, loc)),
        pool_sound(after_set_location(s, e, loc)),
        forall|index: u32| held(after_set_location(s, e, loc), index) <==> held(s, index),
        forall|f: Entity|
            f.index != e.index ==> (alive(after_set_location(s, e, loc), f) <==> alive(s, f)),
{
    let t = after_set_location(s, e, loc);
    assert(undrawn(t) == undrawn(s));
    assert forall|i: int| 0 <= i < s.free_list.len() implies unlocated(t, #[trigger] t.free_list[i])
        by {
        assert(unlocated(s, s.free_list[i]));
        assert(s.free_list.contains(s.free_list[i]));
    }
    assert forall|i: int| 0 <= i < s.abandoned.len() implies unlocated(t, #[trigger] t.abandoned[i])
        by {
        assert(unlocated(s, s.abandoned[i]));
        assert(s.abandoned.contains(s.abandoned[i]));
    }
    assert forall|i: int| 0 <= i < undrawn(s).len() implies unlocated(t, #[trigger] undrawn(t)[i])
        by {
        assert(unlocated(s, undrawn(s)[i]));
        assert(undrawn(s).contains(undrawn(s)[i]));
    }
}

/// Drawing `m + n` ids at once is drawing `m` and then `n`.
pub proof fn law_draw_in_parts(s: AllocState, m: nat, n: nat)
    requires
        state_wf(s),
        can_draw(s, m + n),
    ensures
        can_draw(s, m),
        can_draw(after_draw(s, m), n),
        drawn(s, m + n) == drawn(s, m) + drawn(after_draw(s, m), n),
        after_draw(s, m + n) == after_draw(after_draw(s, m), n),
{
    assert(drawn(s, m + n) =~= drawn(s, m) + drawn(after_draw(s, m), n));
}

/// Allocating `m + n` entities at once is allocating `m` and then `n`: a batch does what single
/// allocations do.
pub proof fn law_allocate_in_parts(s: AllocState, m: nat, n: nat)
    requires
        state_wf(s),
        can_allocate(s, m + n),
    ensures
        can_allocate(s, m),
        can_allocate(after_allocate(s, m), n),
        allocated(s, m + n) == allocated(s, m) + allocated(after_allocate(s, m), n),
        after_allocate(s, m + n) == after_allocate(after_allocate(s, m), n),
{
    let t = after_allocate(s, m);
    let u = after_allocate(s, m + n);
    let v = after_allocate(t, n);
    assert forall|i: int| 0 <= i < s.free_list.len() implies #[trigger] t.generations[s.free_list[i] as int]
        == s.generations[s.free_list[i] as int] by {
        assert(s.free_list[i] < s.generations.len());
    }
    assert(t.free_list =~= s.free_list.subrange(0, s.free_list.len() - from_free(s, m)));
    assert(t.lease == s.lease);
    assert(allocated(s, m + n) =~= allocated(s, m) + allocated(t, n));
    assert(u.free_list =~= v.free_list);
    assert(u.generations =~= v.generations);
    assert(u.locations =~= v.locations);
}

/// Whether the slot of `e` has moved on from the generation that `e` was issued for.
pub open spec fn is_stale(s: AllocState, e: Entity) -> bool {
    e.index < s.generations.len() && e.generation < s.generations[e.index as int]
}

/// A stale handle is dead and stays stale under every operation: a freed entity never comes
/// alive again. The one exception is freeing a handle whose generation is the largest number,
/// which the allocator never issues.
pub proof fn law_stale_handles_stay_dead(
    s: AllocState,
    e: Entity,
    f: Entity,
    loc: EntityLocation,
    n: nat,
)
    requires
        state_wf(s),
        is_stale(s, e),
        f.generation < u32::MAX,
    ensures
        !alive(s, e),
        is_stale(after_draw(s, n), e),
        is_stale(after_allocate(s, n), e),
        is_stale(after_flush(s), e),
        is_stale(after_set_location(s, e, loc), e),
        is_stale(after_set_location(s, f, loc), e),
        is_stale(after_free(s, f), e),
{
}

/// Freeing an entity makes its handle stale.
pub proof fn law_free_makes_stale(s: AllocState, e: Entity)
    requires
        is_current(s, e),
        e.generation < u32::MAX,
    ensures
        is_stale(after_free(s, e), e),
{
}

/// Reserved ids that are given up and flushed are offered again: the index space does not grow
/// by them.
pub proof fn law_abandoned_ids_are_reused(s: AllocState, es: Seq<Entity>, index: u32)
    requires
        state_wf(s),
        real_indices(es).contains(index),
        forall|i: int|
            0 <= i < es.len() ==> (#[trigger] es[i]).is_placeholder() || es[i].index
                < s.high_water,
    ensures
        ({
            let t = after_flush(
                AllocState { abandoned: s.abandoned + real_indices(es), ..s },
            );
            undrawn(t).contains(index) && t.high_water == s.high_water
        }),
{
    let a = AllocState { abandoned: s.abandoned + real_indices(es), ..s };
    let t = after_flush(a);
    let pool = a.free_list + a.abandoned + undrawn(a);
    let q = choose|q: int| 0 <= q < real_indices(es).len() && real_indices(es)[q] == index;
    let p = a.free_list.len() + s.abandoned.len() + q;
    assert(pool[p] == index);
    assert(undrawn(t) =~= pool);
}

/// Whether `e` was issued, is the current handle of its slot or will be once the slot has a
/// record, and is not alive yet.
pub open spec fn awaits(s: AllocState, e: Entity) -> bool {
    &&& held(s, e.index)
    &&& unlocated(s, e.index)
    &&& e.generation == if e.index < s.generations.len() {
        s.generations[e.index as int]
    } else {
        0
    }
}

/// Reserved ids wait for their entity: they become current handles at the next flush.
pub proof fn law_reserved_ids_wait(s: AllocState, n: nat, i: int)
    requires
        state_wf(s),
        pool_sound(s),
        can_draw(s, n),
        0 <= i < n,
    ensures
        awaits(after_draw(s, n), drawn(s, n)[i]),
        is_current(after_flush(after_draw(s, n)), drawn(s, n)[i]),
{
    law_draw_issues_each_slot_once(s, n);
    let e = drawn(s, n)[i];
    assert(held(after_draw(s, n), e.index));
    if i < reused(s, n) {
        let slot = s.lease[s.unconsumed - 1 - i];
        assert(slot.1 == s.generations[slot.0 as int]);
    }
}

/// An id that waits goes on waiting through a flush, and then is current.
pub proof fn law_flush_keeps_waiting(s: AllocState, e: Entity)
    requires
        state_wf(s),
        pool_sound(s),
        awaits(s, e),
    ensures
        awaits(after_flush(s), e),
        is_current(after_flush(s), e),
{
    law_flush_keeps_pool_sound(s);
    assert(held(after_flush(s), e.index));
    lemma_grow(s, s.high_water);
}

proof fn lemma_prefix_lacks(a: Seq<u32>, k: int, i: u32)
    requires
        0 <= k <= a.len(),
        !a.contains(i),
    ensures
        !a.subrange(0, k).contains(i),
{
    if a.subrange(0, k).contains(i) {
        let q = choose|q: int| 0 <= q < k && a.subrange(0, k)[q] == i;
        assert(a[q] == i);
    }
}

/// A held slot stays held while others are drawn, allocated, located or freed; an id that waits
/// goes on waiting.
pub proof fn law_held_stays_held(s: AllocState, n: nat, e: Entity)
    requires
        state_wf(s),
        held(s, e.index),
    ensures
        held(after_draw(s, n), e.index),
        held(after_allocate(s, n), e.index),
        awaits(s, e) ==> awaits(after_draw(s, n), e) && awaits(after_allocate(s, n), e),
        is_current(s, e) ==> is_current(after_draw(s, n), e) && is_current(
            after_allocate(s, n),
            e,
        ),
{
    let i = e.index;
    let p = after_pop(s, n);
    let m = (n - from_free(s, n)) as nat;
    let d = after_draw(p, m);
    lemma_undrawn_after_draw(s, n);
    lemma_undrawn_after_draw(p, m);
    assert(undrawn(p) =~= undrawn(s));
    lemma_prefix_lacks(undrawn(s), s.unconsumed - reused(s, n), i);
    lemma_prefix_lacks(undrawn(s), p.unconsumed - reused(p, m), i);
    assert(undrawn(after_draw(s, n)) == undrawn(s).subrange(0, s.unconsumed - reused(s, n)));
    assert(undrawn(d) == undrawn(s).subrange(0, p.unconsumed - reused(p, m)));
    assert(!p.free_list.contains(i)) by {
        if p.free_list.contains(i) {
            let q = choose|q: int| 0 <= q < p.free_list.len() && p.free_list[q] == i;
            assert(s.free_list[q] == i);
        }
    }
    let g = grow(d, d.high_water);
    assert(undrawn(g) =~= undrawn(d));
}

/// An id that waits goes on waiting while another slot is located or freed.
pub proof fn law_waiting_is_undisturbed(s: AllocState, e: Entity, f: Entity, loc: EntityLocation)
    requires
        state_wf(s),
        awaits(s, e),
        f.index != e.index,
    ensures
        awaits(after_set_location(s, f, loc), e),
        awaits(after_free(s, f), e),
        is_current(s, e) ==> is_current(after_set_location(s, f, loc), e) && is_current(
            after_free(s, f),
            e,
        ),
{
    let t = after_free(s, f);
    let u = after_set_location(s, f, loc);
    assert(undrawn(t) =~= undrawn(s));
    assert(undrawn(u) =~= undrawn(s));
    if t.free_list.contains(e.index) {
        let q = choose|q: int| 0 <= q < t.free_list.len() && t.free_list[q] == e.index;
        if q < s.free_list.len() {
            assert(s.free_list[q] == e.index);
        }
    }
}

/// Whether ids wait for their entities, each once; placeholders do not count.
pub open spec fn all_wait(s: AllocState, es: Seq<Entity>) -> bool {
    &&& forall|i: int| 0 <= i < es.len() ==> (#[trigger] es[i]).is_placeholder() || awaits(s, es[i])
    &&& forall|i: int, j: int|
        0 <= i < j < es.len() && !es[i].is_placeholder() && !es[j].is_placeholder() ==> (
        #[trigger] es[i]).index != (#[trigger] es[j]).index
}

proof fn lemma_real_indices(s: AllocState, es: Seq<Entity>)
    requires
        all_wait(s, es),
    ensures
        real_indices(es).no_duplicates(),
        forall|i: int|
            0 <= i < real_indices(es).len() ==> exists|k: int|
                0 <= k < es.len() && !(#[trigger] es[k]).is_placeholder() && es[k].index
                    == #[trigger] real_indices(es)[i],
    decreases es.len(),
{
    if es.len() > 0 {
        let head = es.drop_last();
        assert forall|i: int| 0 <= i < head.len() implies (#[trigger] head[i]).is_placeholder()
            || awaits(s, head[i]) by {
            assert(es[i] == head[i]);
        }
        assert forall|i: int, j: int|
            0 <= i < j < head.len() && !head[i].is_placeholder()
                && !head[j].is_placeholder() implies (#[trigger] head[i]).index != (
        #[trigger] head[j]).index by {
            assert(es[i] == head[i] && es[j] == head[j]);
        }
        lemma_real_indices(s, head);
        let r = real_indices(es);
        let h = real_indices(head);
        assert forall|i: int| 0 <= i < r.len() implies exists|k: int|
            0 <= k < es.len() && !(#[trigger] es[k]).is_placeholder() && es[k].index
                == #[trigger] r[i] by {
            if i < h.len() {
                assert(r[i] == h[i]);
                let k = choose|k: int|
                    0 <= k < head.len() && !(#[trigger] head[k]).is_placeholder() && head[k].index
                        == h[i];
                assert(es[k] == head[k]);
            } else {
                assert(es[es.len() - 1] == es.last());
            }
        }
        if !es.last().is_placeholder() {
            assert forall|i: int| 0 <= i < h.len() implies h[i] != es.last().index by {
                let k = choose|k: int|
                    0 <= k < head.len() && !(#[trigger] head[k]).is_placeholder() && head[k].index
                        == h[i];
                assert(es[k] == head[k]);
                assert(es[k].index != es[es.len() - 1].index);
            }
        }
    }
}

/// Giving up ids that wait keeps the pool sound.
pub proof fn law_abandon_keeps_pool_sound(s: AllocState, es: Seq<Entity>)
    requires
        state_wf(s),
        pool_sound(s),
        all_wait(s, es),
    ensures
        pool_sound(AllocState { abandoned: s.abandoned + real_indices(es), ..s }),
{
    lemma_real_indices(s, es);
    let r = real_indices(es);
    let t = AllocState { abandoned: s.abandoned + r, ..s };
    assert(undrawn(t) =~= undrawn(s));
    assert forall|i: int| 0 <= i < r.len() implies held(s, #[trigger] r[i]) && unlocated(
        s,
        r[i],
    ) by {
        let k = choose|k: int|
            0 <= k < es.len() && !(#[trigger] es[k]).is_placeholder() && es[k].index == r[i];
        assert(awaits(s, es[k]));
    }
    assert forall|i: int, j: int|
        0 <= i < t.abandoned.len() && 0 <= j < t.abandoned.len() && i != j implies t.abandoned[i]
        != t.abandoned[j] by {
        let n = s.abandoned.len();
        if i < n && j >= n {
            assert(held(s, r[j - n]));
            assert(s.abandoned.contains(s.abandoned[i]));
        }
        if j < n && i >= n {
            assert(held(s, r[i - n]));
            assert(s.abandoned.contains(s.abandoned[j]));
        }
    }
    assert forall|i: int, j: int|
        0 <= i < s.free_list.len() && 0 <= j < t.abandoned.len() implies #[trigger] s.free_list[i]
        != #[trigger] t.abandoned[j] by {
        if j >= s.abandoned.len() {
            assert(held(s, r[j - s.abandoned.len()]));
            assert(s.free_list.contains(s.free_list[i]));
        }
    }
    assert forall|i: int, j: int|
        0 <= i < t.abandoned.len() && 0 <= j < undrawn(s).len() implies #[trigger] t.abandoned[i]
        != #[trigger] undrawn(s)[j] by {
        if i >= s.abandoned.len() {
            assert(held(s, r[i - s.abandoned.len()]));
            assert(undrawn(s).contains(undrawn(s)[j]));
        }
    }
    assert forall|i: int| 0 <= i < t.abandoned.len() implies unlocated(t, #[trigger] t.abandoned[i]) by {
        if i < s.abandoned.len() {
            assert(unlocated(s, s.abandoned[i]));
        } else {
            assert(unlocated(s, r[i - s.abandoned.len()]));
        }
    }
    assert(all_unlocated(t, s.free_list)) by {
        assert(all_unlocated(s, s.free_list));
    }
    assert(all_unlocated(t, undrawn(s))) by {
        assert(all_unlocated(s, undrawn(s)));
    }
}

/// Putting ids that wait back on the free list keeps the pool sound.
pub proof fn law_reclaim_keeps_pool_sound(s: AllocState, es: Seq<Entity>)
    requires
        state_wf(s),
        pool_sound(s),
        all_wait(s, es),
        forall|i: int| 0 <= i < es.len() ==> (#[trigger] es[i]).index < s.generations.len(),
    ensures
        pool_sound(
            AllocState { free_list: s.free_list + es.map_values(|e: Entity| e.index), ..s },
        ),
{
    let r = es.map_values(|e: Entity| e.index);
    let n = s.free_list.len();
    let t = AllocState { free_list: s.free_list + r, ..s };
    assert(undrawn(t) =~= undrawn(s));
    assert forall|i: int| 0 <= i < r.len() implies held(s, #[trigger] r[i]) && unlocated(
        s,
        r[i],
    ) by {
        assert(es[i].index < s.generations.len());
        assert(awaits(s, es[i]));
    }
    assert forall|i: int, j: int| 0 <= i < j < t.free_list.len() implies t.free_list[i]
        != t.free_list[j] by {
        if j < n {
            assert(s.free_list[i] != s.free_list[j]);
        } else if i < n {
            assert(held(s, r[j - n]));
            assert(s.free_list.contains(s.free_list[i]));
        } else {
            assert(es[i - n].index < s.generations.len());
            assert(es[j - n].index < s.generations.len());
            assert(es[i - n].index != es[j - n].index);
        }
    }
    assert forall|i: int, j: int|
        0 <= i < t.free_list.len() && 0 <= j < t.free_list.len() && i != j implies t.free_list[i]
        != t.free_list[j] by {
        if j < i {
            assert(t.free_list[j] != t.free_list[i]);
        }
    }
    assert forall|i: int, j: int|
        0 <= i < t.free_list.len() && 0 <= j < s.abandoned.len() implies #[trigger] t.free_list[i]
        != #[trigger] s.abandoned[j] by {
        if i >= n {
            assert(held(s, r[i - n]));
            assert(s.abandoned.contains(s.abandoned[j]));
        } else {
            assert(s.free_list[i] != s.abandoned[j]);
        }
    }
    assert forall|i: int, j: int|
        0 <= i < t.free_list.len() && 0 <= j < undrawn(s).len() implies #[trigger] t.free_list[i]
        != #[trigger] undrawn(s)[j] by {
        if i >= n {
            assert(held(s, r[i - n]));
            assert(undrawn(s).contains(undrawn(s)[j]));
        } else {
            assert(s.free_list[i] != undrawn(s)[j]);
        }
    }
    assert forall|i: int| 0 <= i < t.free_list.len() implies unlocated(t, #[trigger] t.free_list[i]) by {
        if i < n {
            assert(unlocated(s, s.free_list[i]));
        } else {
            assert(unlocated(s, r[i - n]));
        }
    }
    assert(all_unlocated(t, s.abandoned)) by {
        assert(all_unlocated(s, s.abandoned));
    }
    assert(all_unlocated(t, undrawn(s))) by {
        assert(all_unlocated(s, undrawn(s)));
    }
}

} // verus!
