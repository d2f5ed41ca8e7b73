//! The event queues of a world, one per event type.

use vstd::prelude::*;
use rustc_hash::FxHashMap;
use crate::events::{Events, EventsState, after_update, fits};
use crate::fx::{map_get, map_get_mut, map_insert, map_keys, map_new};

verus! {

/// Event queues by type. Types are known by their keys.
pub struct EventRegistry<T> {
    queues: FxHashMap<u64, Events<T>>,
}

impl<T> View for EventRegistry<T> {
    type V = Map<u64, EventsState<T>>;

    closed spec fn view(&self) -> Map<u64, EventsState<T>> {
        contents(self.queues@)
    }
}

/// The contents of queues.
pub open spec fn contents<T>(m: Map<u64, Events<T>>) -> Map<u64, EventsState<T>> {
    m.map_values(|q: Events<T>| q@)
}

/// A queue of which nothing was sent and nobody reads.
pub open spec fn fresh_queue<T>() -> EventsState<T> {
    EventsState {
        events: Seq::<T>::empty(),
        pending: Seq::<T>::empty(),
        sync_pending: Seq::<T>::empty(),
        cursors: Seq::empty(),
        next_id: 0,
        free: Seq::empty(),
    }
}

/// The queues with one for a type, unless it has one.
pub open spec fn with_queue<T>(m: Map<u64, EventsState<T>>, key: u64) -> Map<u64, EventsState<T>> {
    if m.contains_key(key) {
        m
    } else {
        m.insert(key, fresh_queue::<T>())
    }
}

/// The queues after the first `n` of `keys` were updated; types without a queue are passed over.
pub open spec fn after_flushes<T>(m: Map<u64, EventsState<T>>, keys: Seq<u64>, n: nat) -> Map<
    u64,
    EventsState<T>,
>
    decreases n,
{
    if n == 0 {
        m
    } else {
        let p = after_flushes(m, keys, (n - 1) as nat);
        let key = keys[n - 1];
        if p.contains_key(key) {
            p.insert(key, after_update(p[key]))
        } else {
            p
        }
    }
}

/// Whether updating the first `n` of `keys` one after the other stays within what a queue can
/// hold.
pub open spec fn flushes_fit<T>(m: Map<u64, EventsState<T>>, keys: Seq<u64>, n: nat) -> bool
    decreases n,
{
    n == 0 || (flushes_fit(m, keys, (n - 1) as nat) && {
        let p = after_flushes(m, keys, (n - 1) as nat);
        p.contains_key(keys[n - 1]) ==> fits(p[keys[n - 1]])
    })
}

impl<T> EventRegistry<T> {
    /// The registry's invariant: every queue is in order.
    pub closed spec fn wf(&self) -> bool {
        forall|k: u64| #[trigger] self.queues@.contains_key(k) ==> self.queues@[k].wf()
    }

    /// No queues.
    pub fn new() -> (r: EventRegistry<T>)
        ensures
            r.wf(),
            (r@ == Map::<u64, EventsState<T>>::empty()),
    {
        let r = EventRegistry { queues: map_new() };
        assert(r@ =~= Map::<u64, EventsState<T>>::empty());
        r
    }

    /// Registers an event type, unless it is registered.
    pub fn register(&mut self, key: u64)
        requires
            old(self).wf(),
        ensures
            final(self).wf(),
            final(self)@ == with_queue(old(self)@, key),
    {
        if map_get(&self.queues, key).is_none() {
            let ghost before = self.queues@;
            let none: Option<Events<T>> = map_insert(&mut self.queues, key, Events::new());
            proof {
                assert(self@ =~= with_queue(old(self)@, key));
                assert forall|k: u64| #[trigger] self.queues@.contains_key(k) implies self.queues@[k].wf() by {
                    if k != key {
                        assert(before.contains_key(k));
                    }
                }
            }
        }
    }

    /// The queue of a registered type.
    pub fn get(&self, key: u64) -> (q: &Events<T>)
        requires
            self.wf(),
            self@.contains_key(key),
        ensures
            q.wf(),
            q@ == self@[key],
    {
        map_get(&self.queues, key).unwrap()
    }

    /// The queue of a registered type for change.
    pub fn get_mut(&mut self, key: u64) -> (q: &mut Events<T>)
        requires
            old(self).wf(),
            old(self)@.contains_key(key),
        ensures
            q.wf(),
            q@ == old(self)@[key],
            final(q).wf() ==> final(self).wf(),
            final(self)@ == old(self)@.insert(key, final(q)@),
    {
        proof {
            self.lemma_insert(key);
        }
        map_get_mut(&mut self.queues, key).unwrap()
    }

    proof fn lemma_insert(&self, key: u64)
        requires
            self.wf(),
        ensures
            forall|q: Events<T>| #[trigger]
                contents(self.queues@.insert(key, q)) == self@.insert(key, q@),
            forall|q: Events<T>|
                #![trigger self.queues@.insert(key, q)]
                q.wf() ==> forall|k: u64| #[trigger]
                    self.queues@.insert(key, q).contains_key(k) ==> self.queues@.insert(
                        key,
                        q,
                    )[k].wf(),
    {
        assert forall|q: Events<T>| #[trigger]
            contents(self.queues@.insert(key, q)) == self@.insert(key, q@) by {
            assert(contents(self.queues@.insert(key, q)) =~= self@.insert(key, q@));
        }
        assert forall|q: Events<T>|
            #![trigger self.queues@.insert(key, q)]
            q.wf() implies forall|k: u64| #[trigger]
            self.queues@.insert(key, q).contains_key(k) ==> self.queues@.insert(
                key,
                q,
            )[k].wf() by {
            assert forall|k: u64| #[trigger]
                self.queues@.insert(key, q).contains_key(k) implies self.queues@.insert(
                key,
                q,
            )[k].wf() by {
                if k != key {
                    assert(self.queues@.contains_key(k));
                }
            }
        }
    }

    /// The queue of a type for change; the type is registered if it was not.
    pub fn get_or_register_mut(&mut self, key: u64) -> (q: &mut Events<T>)
        requires
            old(self).wf(),
        ensures
            q.wf(),
            q@ == with_queue(old(self)@, key)[key],
            final(q).wf() ==> final(self).wf(),
            final(self)@ == with_queue(old(self)@, key).insert(key, final(q)@),
    {
        self.register(key);
        self.get_mut(key)
    }

    /// Reserves room in the queue of a type, if it has one.
    pub fn reserve_by_type(&mut self, key: u64, capacity: usize)
        requires
            old(self).wf(),
        ensures
            final(self).wf(),
            final(self)@ == old(self)@,
    {
        if map_get(&self.queues, key).is_some() {
            let ghost before = self@;
            let q: &mut Events<T> = self.get_mut(key);
            q.reserve(capacity);
            assert(before.insert(key, before[key]) =~= before);
        }
    }

    /// Updates the queue of a type, if it has one.
    fn update_one(&mut self, key: u64)
        requires
            old(self).wf(),
            old(self)@.contains_key(key) ==> fits(old(self)@[key]),
        ensures
            final(self).wf(),
            final(self)@ == if old(self)@.contains_key(key) {
                old(self)@.insert(key, after_update(old(self)@[key]))
            } else {
                old(self)@
            },
    {
        if map_get(&self.queues, key).is_some() {
            let q: &mut Events<T> = self.get_mut(key);
            q.update();
        }
    }

    /// Updates the queues of the given types, one after the other.
    pub fn flush_by_type_id(&mut self, keys: &[u64])
        requires
            old(self).wf(),
            flushes_fit(old(self)@, keys@, keys@.len()),
        ensures
            final(self).wf(),
            final(self)@ == after_flushes(old(self)@, keys@, keys@.len()),
    {
        let mut i: usize = 0;
        while i < keys.len()
            invariant
                i <= keys@.len(),
                self.wf(),
                flushes_fit(old(self)@, keys@, keys@.len()),
                self@ == after_flushes(old(self)@, keys@, i as nat),
            decreases keys.len() - i,
        {
            proof {
                lemma_flushes_fit(old(self)@, keys@, (i + 1) as nat, keys@.len());
            }
            self.update_one(keys[i]);
            i = i + 1;
        }
    }

    /// Updates every queue once.
    pub fn update_all(&mut self)
        requires
            old(self).wf(),
            forall|k: u64| #[trigger] old(self)@.contains_key(k) ==> fits(old(self)@[k]),
        ensures
            final(self).wf(),
            final(self)@ == old(self)@.map_values(|q: EventsState<T>| after_update(q)),
    {
        let keys: Vec<u64> = map_keys(&self.queues);
        let ghost first = self@;
        let mut i: usize = 0;
        while i < keys.len()
            invariant
                i <= keys@.len(),
                self.wf(),
                keys@.no_duplicates(),
                forall|k: u64| #[trigger] keys@.contains(k) <==> first.contains_key(k),
                forall|k: u64| #[trigger] first.contains_key(k) ==> fits(first[k]),
                self@.dom() == first.dom(),
                forall|k: int|
                    0 <= k < keys@.len() ==> self@[#[trigger] keys@[k]] == (if k < i {
                        after_update(first[keys@[k]])
                    } else {
                        first[keys@[k]]
                    }),
            decreases keys.len() - i,
        {
            let key: u64 = keys[i];
            let ghost before = self@;
            assert(keys@.contains(key));
            assert(before[keys@[i as int]] == first[key]);
            self.update_one(key);
            i = i + 1;
            proof {
                assert(self@.dom() =~= first.dom());
                assert forall|k: int| 0 <= k < keys@.len() implies self@[#[trigger] keys@[k]] == (
                if k < i {
                    after_update(first[keys@[k]])
                } else {
                    first[keys@[k]]
                }) by {
                    if k != i - 1 {
                        assert(keys@[k] != keys@[i - 1]);
                        assert(self@[keys@[k]] == before[keys@[k]]);
                    }
                }
            }
        }
        proof {
            let want = first.map_values(|q: EventsState<T>| after_update(q));
            assert forall|k: u64| #[trigger] first.contains_key(k) implies self@[k] == want[k] by {
                assert(keys@.contains(k));
                let j = choose|j: int| 0 <= j < keys@.len() && keys@[j] == k;
                assert(self@[keys@[j]] == after_update(first[keys@[j]]));
            }
            assert(self@ =~= want);
        }
    }

    /// Updates every queue once, where no scheduler does so.
    pub fn flush_all(&mut self)
        requires
            old(self).wf(),
            forall|k: u64| #[trigger] old(self)@.contains_key(k) ==> fits(old(self)@[k]),
        ensures
            final(self).wf(),
            final(self)@ == old(self)@.map_values(|q: EventsState<T>| after_update(q)),
    {
        self.update_all();
    }
}

proof fn lemma_flushes_fit<T>(m: Map<u64, EventsState<T>>, keys: Seq<u64>, m1: nat, n: nat)
    requires
        m1 <= n,
        flushes_fit(m, keys, n),
    ensures
        flushes_fit(m, keys, m1),
    decreases n,
{
    if m1 < n {
        lemma_flushes_fit(m, keys, m1, (n - 1) as nat);
    }
}

impl<T> Default for EventRegistry<T> {
    fn default() -> (r: EventRegistry<T>)
        ensures
            r.wf(),
            (r@ == Map::<u64, EventsState<T>>::empty()),
    {
        EventRegistry::new()
    }
}

/// A type that is registered has a queue: the one it had, or one of which nothing was sent and
/// nobody reads. The queues of other types stay.
pub proof fn law_registered_types_have_queues<T>(
    m: Map<u64, EventsState<T>>,
    key: u64,
    other: u64,
)
    ensures
        ({
            let t = with_queue(m, key);
            &&& t.contains_key(key)
            &&& m.contains_key(key) ==> t[key] == m[key]
            &&& !m.contains_key(key) ==> t[key].events.len() == 0 && t[key].pending.len() == 0
                && t[key].sync_pending.len() == 0 && t[key].cursors.len() == 0
            &&& other != key ==> (t.contains_key(other) <==> m.contains_key(other)) && t[other]
                == m[other]
        }),
{
}

/// Updating some types updates the queue of each that is named and has one, as often as it is
/// named, and no other queue.
pub proof fn law_only_named_queues_are_updated<T>(
    m: Map<u64, EventsState<T>>,
    keys: Seq<u64>,
    n: nat,
    key: u64,
)
    requires
        n <= keys.len(),
    ensures
        after_flushes(m, keys, n).dom() == m.dom(),
        !keys.subrange(0, n as int).contains(key) ==> after_flushes(m, keys, n)[key] == m[key],
        m.contains_key(key) && keys.no_duplicates() && keys.subrange(0, n as int).contains(key)
            ==> after_flushes(m, keys, n)[key] == after_update(m[key]),
    decreases n,
{
    let seen = keys.subrange(0, n as int);
    if n > 0 {
        let n1 = (n - 1) as nat;
        law_only_named_queues_are_updated(m, keys, n1, key);
        let before = keys.subrange(0, n1 as int);
        assert(seen =~= before.push(keys[n - 1]));
        assert(after_flushes(m, keys, n).dom() =~= m.dom());
        if before.contains(key) {
            let i = choose|i: int| 0 <= i < before.len() && before[i] == key;
            assert(seen[i] == key);
        }
        if keys[n - 1] == key {
            assert(seen[n - 1] == key);
            if keys.no_duplicates() && before.contains(key) {
                let i = choose|i: int| 0 <= i < before.len() && before[i] == key;
                assert(keys[i] == keys[n - 1]);
            }
        }
        if seen.contains(key) && keys[n - 1] != key {
            let i = choose|i: int| 0 <= i < seen.len() && seen[i] == key;
            assert(before[i] == key);
        }
    } else {
        assert(seen =~= Seq::<u64>::empty());
    }
}

} // verus!
