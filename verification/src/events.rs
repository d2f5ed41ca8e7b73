//! Event queues with one cursor per reader: what is sent becomes readable at the next update, and
//! no reader loses an event that it has not read.

use vstd::prelude::*;
use vstd::string::StringExecFns;
use crate::entity::{Entity, entity_text};

verus! {

/// Handle of a reader.
#[derive(Debug, Clone, Copy, PartialEq, Eq, Hash, Structural)]
pub struct EventCursor(pub u32);

/// State of a queue.
pub struct EventsState<T> {
    /// Events that readers can see.
    pub events: Seq<T>,
    /// Events sent since the last update.
    pub pending: Seq<T>,
    /// Events sent from parallel systems since the last merge.
    pub sync_pending: Seq<T>,
    /// Position of each reader in `events`; `None` where the reader was removed.
    pub cursors: Seq<Option<u32>>,
    /// Id of the next reader that is not given a freed one.
    pub next_id: u32,
    /// Ids of removed readers, to be given out again, last one first.
    pub free: Seq<u32>,
}

/// Number of readers that have not read all of `len` events.
pub open spec fn lagging(cursors: Seq<Option<u32>>, len: nat) -> nat
    decreases cursors.len(),
{
    if cursors.len() == 0 {
        0
    } else {
        lagging(cursors.drop_last(), len) + if lags(cursors.last(), len) { 1nat } else { 0nat }
    }
}

/// Whether a cursor is that of a reader with something to read.
pub open spec fn lags(cursor: Option<u32>, len: nat) -> bool {
    cursor is Some && cursor->0 < len
}

proof fn lemma_lagging_bound(c: Seq<Option<u32>>, len: nat)
    ensures
        lagging(c, len) <= c.len(),
    decreases c.len(),
{
    if c.len() > 0 {
        lemma_lagging_bound(c.drop_last(), len);
    }
}

proof fn lemma_lagging_push(c: Seq<Option<u32>>, x: Option<u32>, len: nat)
    ensures
        lagging(c.push(x), len) == lagging(c, len) + if lags(x, len) { 1nat } else { 0nat },
{
    assert(c.push(x).drop_last() =~= c);
}

proof fn lemma_lagging_update(c: Seq<Option<u32>>, i: int, x: Option<u32>, len: nat)
    requires
        0 <= i < c.len(),
    ensures
        lagging(c.update(i, x), len) == lagging(c, len) + (if lags(x, len) { 1int } else { 0 }) - (
        if lags(c[i], len) { 1int } else { 0 }),
        lags(c[i], len) ==> lagging(c, len) > 0,
    decreases c.len(),
{
    if i == c.len() - 1 {
        assert(c.update(i, x).drop_last() =~= c.drop_last());
    } else {
        assert(c.update(i, x).drop_last() =~= c.drop_last().update(i, x));
        lemma_lagging_update(c.drop_last(), i, x, len);
    }
}

/// A queue has no lagging reader exactly when each reader has read everything.
proof fn lemma_lagging_zero(c: Seq<Option<u32>>, len: nat)
    ensures
        lagging(c, len) == 0 <==> forall|i: int| 0 <= i < c.len() ==> !lags(#[trigger] c[i], len),
    decreases c.len(),
{
    if c.len() > 0 {
        lemma_lagging_zero(c.drop_last(), len);
        assert forall|i: int| 0 <= i < c.len() - 1 implies c.drop_last()[i] == #[trigger] c[i] by {}
        if lagging(c, len) == 0 {
            assert forall|i: int| 0 <= i < c.len() implies !lags(#[trigger] c[i], len) by {
                if i < c.len() - 1 {
                    assert(!lags(c.drop_last()[i], len));
                }
            }
        } else if forall|i: int| 0 <= i < c.len() ==> !lags(#[trigger] c[i], len) {
            assert forall|i: int| 0 <= i < c.drop_last().len() implies !lags(
                #[trigger] c.drop_last()[i],
                len,
            ) by {
                assert(!lags(c[i], len));
            }
            assert(!lags(c[c.len() - 1], len));
        }
    }
}

/// Position of reader `id`, if it is registered.
pub open spec fn position<T>(s: EventsState<T>, id: EventCursor) -> Option<u32> {
    if id.0 < s.cursors.len() {
        s.cursors[id.0 as int]
    } else {
        None
    }
}

/// What reader `id` has not read.
pub open spec fn unread<T>(s: EventsState<T>, id: EventCursor) -> Seq<T> {
    match position(s, id) {
        Some(p) => if p < s.events.len() {
            s.events.subrange(p as int, s.events.len() as int)
        } else {
            Seq::empty()
        },
        None => Seq::empty(),
    }
}

/// Where a read by `id` starts: at its position, or at the front for an unregistered reader.
pub open spec fn read_start<T>(s: EventsState<T>, id: EventCursor) -> nat {
    match position(s, id) {
        Some(p) => if p < s.events.len() {
            p as nat
        } else {
            s.events.len()
        },
        None => 0,
    }
}

/// The state with reader `id` at `pos`; unchanged for an unregistered reader.
pub open spec fn moved<T>(s: EventsState<T>, id: EventCursor, pos: nat) -> EventsState<T> {
    if position(s, id) is Some {
        EventsState { cursors: s.cursors.update(id.0 as int, Some(pos as u32)), ..s }
    } else {
        s
    }
}

/// The state after reader `id` read everything.
pub open spec fn after_read<T>(s: EventsState<T>, id: EventCursor) -> EventsState<T> {
    moved(s, id, s.events.len())
}

/// How many events a read of at most `max` yields from `start` on.
pub open spec fn readable<T>(s: EventsState<T>, start: nat, max: nat) -> nat {
    if start + max <= s.events.len() {
        max
    } else {
        (s.events.len() - start) as nat
    }
}

/// The state after `pending` took over what parallel systems sent.
pub open spec fn after_merge<T>(s: EventsState<T>) -> EventsState<T> {
    EventsState { pending: s.pending + s.sync_pending, sync_pending: Seq::<T>::empty(), ..s }
}

/// Every registered reader back at the front.
pub open spec fn rewound(cursors: Seq<Option<u32>>) -> Seq<Option<u32>> {
    cursors.map_values(
        |c: Option<u32>|
            if c is Some {
                Some(0u32)
            } else {
                None
            },
    )
}

/// The state after an update. Where every reader has read everything, the new events replace the
/// old; otherwise they follow them.
pub open spec fn after_update<T>(s: EventsState<T>) -> EventsState<T> {
    let m = after_merge(s);
    if m.events.len() == 0 && m.pending.len() == 0 {
        m
    } else if lagging(m.cursors, m.events.len()) == 0 {
        EventsState {
            events: m.pending,
            pending: Seq::<T>::empty(),
            cursors: rewound(m.cursors),
            ..m
        }
    } else {
        EventsState { events: m.events + m.pending, pending: Seq::<T>::empty(), ..m }
    }
}

/// Cursor slots without the vacant ones at the end that no freed id stands for.
pub open spec fn trimmed(cursors: Seq<Option<u32>>, free: Seq<u32>) -> Seq<Option<u32>>
    decreases cursors.len(),
{
    if cursors.len() > 0 && cursors.last() is None && !free.contains(
        (cursors.len() - 1) as u32,
    ) {
        trimmed(cursors.drop_last(), free)
    } else {
        cursors
    }
}

/// The state after reader `id` was removed; unchanged where no such reader is registered.
pub open spec fn after_remove<T>(s: EventsState<T>, id: EventCursor) -> EventsState<T> {
    if position(s, id) is Some {
        let free = s.free.push(id.0);
        EventsState {
            cursors: trimmed(s.cursors.update(id.0 as int, None), free),
            free,
            ..s
        }
    } else {
        s
    }
}

/// Id that the next reader gets.
pub open spec fn next_reader<T>(s: EventsState<T>) -> EventCursor {
    if s.free.len() > 0 {
        EventCursor(s.free.last())
    } else {
        EventCursor(s.next_id)
    }
}

/// Cursor slots up to slot `n`, the missing ones vacant.
pub open spec fn padded(cursors: Seq<Option<u32>>, n: nat) -> Seq<Option<u32>> {
    if cursors.len() < n {
        cursors + Seq::new((n - cursors.len()) as nat, |i: int| None)
    } else {
        cursors
    }
}

/// The state after a reader was added. A freed id has its slot; a new one gets the slot of its
/// number.
pub open spec fn after_add<T>(s: EventsState<T>) -> EventsState<T> {
    if s.free.len() > 0 {
        EventsState {
            free: s.free.drop_last(),
            cursors: s.cursors.update(s.free.last() as int, Some(0)),
            ..s
        }
    } else {
        EventsState {
            next_id: (s.next_id + 1) as u32,
            cursors: padded(s.cursors, s.next_id as nat).push(Some(0)),
            ..s
        }
    }
}

/// Number of registered readers.
pub open spec fn registered(cursors: Seq<Option<u32>>) -> nat
    decreases cursors.len(),
{
    if cursors.len() == 0 {
        0
    } else {
        registered(cursors.drop_last()) + if cursors.last() is Some { 1nat } else { 0nat }
    }
}

/// An event queue.
pub struct Events<T> {
    events: Vec<T>,
    pending: Vec<T>,
    sync_pending: Vec<T>,
    cursors: Vec<Option<u32>>,
    next_cursor_id: u32,
    free_list: Vec<EventCursor>,
    lagging_count: u32,
}

impl<T> View for Events<T> {
    type V = EventsState<T>;

    closed spec fn view(&self) -> EventsState<T> {
        EventsState {
            events: self.events@,
            pending: self.pending@,
            sync_pending: self.sync_pending@,
            cursors: self.cursors@,
            next_id: self.next_cursor_id,
            free: self.free_list@.map_values(|c: EventCursor| c.0),
        }
    }
}

/// What holds of the state of every queue: positions stay inside the buffer, sizes fit 32 bits,
/// and the freed ids are distinct, each with a vacant slot.
pub open spec fn events_wf<T>(s: EventsState<T>) -> bool {
    &&& s.events.len() <= u32::MAX
    &&& s.cursors.len() <= s.next_id
    &&& forall|i: int|
        0 <= i < s.cursors.len() && #[trigger] s.cursors[i] is Some ==> s.cursors[i]->0
            <= s.events.len()
    &&& s.free.no_duplicates()
    &&& forall|i: int|
        0 <= i < s.free.len() ==> #[trigger] s.free[i] < s.cursors.len()
            && s.cursors[s.free[i] as int] is None
}

/// Whether everything that was sent fits one buffer of 32-bit positions.
pub open spec fn fits<T>(s: EventsState<T>) -> bool {
    s.events.len() + s.pending.len() + s.sync_pending.len() <= u32::MAX
}

proof fn lemma_trimmed(cursors: Seq<Option<u32>>, free: Seq<u32>, len: nat)
    ensures
        trimmed(cursors, free).len() <= cursors.len(),
        trimmed(cursors, free) =~= cursors.subrange(0, trimmed(cursors, free).len() as int),
        forall|i: int|
            trimmed(cursors, free).len() <= i < cursors.len() ==> #[trigger] cursors[i] is None,
        lagging(trimmed(cursors, free), len) == lagging(cursors, len),
        forall|i: int|
            0 <= i < free.len() && #[trigger] free[i] < cursors.len() ==> free[i] < trimmed(
                cursors,
                free,
            ).len(),
    decreases cursors.len(),
{
    if cursors.len() > 0 && cursors.last() is None && !free.contains(
        (cursors.len() - 1) as u32,
    ) {
        lemma_trimmed(cursors.drop_last(), free, len);
        let t = trimmed(cursors, free);
        assert forall|i: int| t.len() <= i < cursors.len() implies #[trigger] cursors[i] is None by {
            if i < cursors.len() - 1 {
                assert(cursors.drop_last()[i] is None);
            }
        }
        assert forall|i: int| 0 <= i < free.len() && #[trigger] free[i] < cursors.len() implies free[i]
            < t.len() by {
            if free[i] == cursors.len() - 1 {
                assert(free.contains((cursors.len() - 1) as u32));
            }
        }
    } else {
        assert(cursors.subrange(0, cursors.len() as int) =~= cursors);
    }
}

impl<T> Events<T> {
    /// The queue's invariant.
    pub closed spec fn wf(&self) -> bool {
        &&& events_wf(self@)
        &&& self.lagging_count == lagging(self@.cursors, self@.events.len())
    }

    /// The invariant, as it shows in the state.
    pub proof fn lemma_wf(&self)
        requires
            self.wf(),
        ensures
            events_wf(self@),
    {
    }

    /// A queue without events and readers.
    pub fn new() -> (q: Events<T>)
        ensures
            q.wf(),
            q@ == (EventsState {
                events: Seq::<T>::empty(),
                pending: Seq::<T>::empty(),
                sync_pending: Seq::<T>::empty(),
                cursors: Seq::empty(),
                next_id: 0,
                free: Seq::empty(),
            }),
    {
        let q = Events {
            events: Vec::new(),
            pending: Vec::with_capacity(256),
            sync_pending: Vec::new(),
            cursors: Vec::new(),
            next_cursor_id: 0,
            free_list: Vec::new(),
            lagging_count: 0,
        };
        assert(q@.free =~= Seq::<u32>::empty());
        q
    }

    /// Sends one event; readers see it after the next update.
    pub fn send(&mut self, event: T)
        requires
            old(self).wf(),
        ensures
            final(self).wf(),
            final(self)@ == (EventsState { pending: old(self)@.pending.push(event), ..old(self)@ }),
    {
        self.pending.push(event);
    }

    /// Sends a batch of events.
    pub fn send_batch(&mut self, events: Vec<T>)
        requires
            old(self).wf(),
        ensures
            final(self).wf(),
            final(self)@ == (EventsState {
                pending: old(self)@.pending + events@,
                ..old(self)@
            }),
    {
        let mut batch = events;
        self.pending.append(&mut batch);
    }

    /// Sends one event from a parallel system: it waits apart from the others until it is merged.
    pub fn send_sync(&mut self, event: T)
        requires
            old(self).wf(),
        ensures
            final(self).wf(),
            final(self)@ == (EventsState {
                sync_pending: old(self)@.sync_pending.push(event),
                ..old(self)@
            }),
    {
        self.sync_pending.push(event);
    }

    /// Sends a batch of events from a parallel system.
    pub fn send_batch_sync(&mut self, events: Vec<T>)
        requires
            old(self).wf(),
        ensures
            final(self).wf(),
            final(self)@ == (EventsState {
                sync_pending: old(self)@.sync_pending + events@,
                ..old(self)@
            }),
    {
        let mut batch = events;
        self.sync_pending.append(&mut batch);
    }

    /// Merges what parallel systems sent behind what was sent directly.
    pub fn flush_sync(&mut self)
        requires
            old(self).wf(),
        ensures
            final(self).wf(),
            final(self)@ == after_merge(old(self)@),
    {
        self.pending.append(&mut self.sync_pending);
        assert(self.sync_pending@ =~= Seq::<T>::empty());
    }

    /// Registers a reader at the front of the buffer.
    pub fn add_reader(&mut self) -> (cursor: EventCursor)
        requires
            old(self).wf(),
            old(self)@.free.len() > 0 || old(self)@.next_id < u32::MAX,
        ensures
            final(self).wf(),
            cursor == next_reader(old(self)@),
            final(self)@ == after_add(old(self)@),
    {
        let ghost len = self@.events.len();
        let ghost before = self@;
        proof {
            lemma_lagging_bound(self@.cursors, len);
        }
        if self.free_list.len() > 0 {
            let last: usize = self.free_list.len() - 1;
            let cursor: EventCursor = self.free_list[last];
            assert(before.free[last as int] == cursor.0);
            self.free_list.truncate(last);
            let idx: usize = cursor.0 as usize;
            proof {
                lemma_lagging_update(before.cursors, idx as int, Some(0), len);
                lemma_lagging_bound(before.cursors.update(idx as int, Some(0)), len);
            }
            self.cursors.set(idx, Some(0));
            if self.events.len() > 0 {
                self.lagging_count = self.lagging_count + 1;
            }
            proof {
                assert(self@.free =~= before.free.drop_last());
                assert forall|i: int| 0 <= i < self@.free.len() implies #[trigger] self@.free[i]
                    < self@.cursors.len() && self@.cursors[self@.free[i] as int] is None by {
                    assert(self@.free[i] == before.free[i]);
                    assert(before.free[i] != before.free[last as int]);
                }
            }
            return cursor;
        }
        let id: u32 = self.next_cursor_id;
        while self.cursors.len() < id as usize
            invariant
                self@ == (EventsState { cursors: self@.cursors, ..before }),
                before.cursors.len() <= self@.cursors.len() <= id,
                padded(self@.cursors, id as nat) == padded(before.cursors, id as nat),
                self.lagging_count == lagging(self@.cursors, len),
                forall|i: int|
                    0 <= i < self@.cursors.len() && #[trigger] self@.cursors[i] is Some
                        ==> self@.cursors[i]->0 <= len,
            decreases id - self.cursors.len(),
        {
            let ghost c = self@.cursors;
            self.cursors.push(None);
            proof {
                lemma_lagging_push(c, None, len);
                assert(padded(self@.cursors, id as nat) =~= padded(c, id as nat));
            }
        }
        proof {
            lemma_lagging_push(self@.cursors, Some(0), len);
            lemma_lagging_bound(self@.cursors, len);
        }
        self.next_cursor_id = id + 1;
        self.cursors.push(Some(0));
        if self.events.len() > 0 {
            self.lagging_count = self.lagging_count + 1;
        }
        EventCursor(id)
    }

    /// Whether a freed id stands for slot `idx`.
    fn is_freed(&self, idx: usize) -> (b: bool)
        requires
            idx <= u32::MAX,
        ensures
            b == self@.free.contains(idx as u32),
    {
        let mut i: usize = 0;
        while i < self.free_list.len()
            invariant
                i <= self.free_list@.len(),
                idx <= u32::MAX,
                forall|k: int| 0 <= k < i ==> #[trigger] self@.free[k] != idx as u32,
            decreases self.free_list.len() - i,
        {
            assert(self@.free[i as int] == self.free_list@[i as int].0);
            if self.free_list[i].0 as usize == idx {
                return true;
            }
            i = i + 1;
        }
        false
    }

    /// Removes a reader: what it has not read no longer holds the buffer back.
    pub fn remove_reader(&mut self, reader_id: EventCursor)
        requires
            old(self).wf(),
        ensures
            final(self).wf(),
            final(self)@ == after_remove(old(self)@, reader_id),
    {
        let idx: usize = reader_id.0 as usize;
        let ghost len = self@.events.len();
        let ghost before = self@;
        if idx >= self.cursors.len() {
            return;
        }
        match self.cursors[idx] {
            None => return,
            Some(pos) => {
                proof {
                    lemma_lagging_update(before.cursors, idx as int, None, len);
                }
                if (pos as usize) < self.events.len() {
                    self.lagging_count = self.lagging_count.saturating_sub(1);
                }
            },
        }
        self.cursors.set(idx, None);
        self.free_list.push(reader_id);
        assert(self@.free =~= before.free.push(reader_id.0));
        let ghost t = self@;
        proof {
            lemma_trimmed(t.cursors, t.free, len);
        }
        while self.cursors.len() > 0 && self.cursors[self.cursors.len() - 1].is_none()
            invariant_except_break
                self@ == (EventsState { cursors: self@.cursors, ..t }),
                self.lagging_count == lagging(t.cursors, t.events.len()),
                trimmed(self@.cursors, t.free) == trimmed(t.cursors, t.free),
                self@.cursors.len() <= t.cursors.len() <= u32::MAX,
            ensures
                self@ == (EventsState { cursors: trimmed(t.cursors, t.free), ..t }),
                self.lagging_count == lagging(t.cursors, t.events.len()),
            decreases self.cursors.len(),
        {
            let last: usize = self.cursors.len() - 1;
            assert(self@.cursors.last() is None);
            if self.is_freed(last) {
                break;
            }
            self.cursors.truncate(last);
        }
        proof {
            assert forall|i: int|
                0 <= i < self@.cursors.len() && #[trigger] self@.cursors[i] is Some implies self@.cursors[i]->0
                <= self@.events.len() by {
                assert(self@.cursors[i] == t.cursors[i]);
                assert(t.cursors[i] == before.cursors[i]);
            }
            assert forall|i: int| 0 <= i < self@.free.len() implies #[trigger] self@.free[i]
                < self@.cursors.len() && self@.cursors[self@.free[i] as int] is None by {
                assert(t.free[i] < t.cursors.len()) by {
                    if i < before.free.len() {
                        assert(before.free[i] < before.cursors.len());
                    }
                }
            }
            assert forall|i: int, j: int|
                0 <= i < self@.free.len() && 0 <= j < self@.free.len() && i != j implies self@.free[i]
                != self@.free[j] by {
                if i < before.free.len() && j < before.free.len() {
                    assert(before.free[i] != before.free[j]);
                } else if i < before.free.len() {
                    assert(before.cursors[before.free[i] as int] is None);
                } else {
                    assert(before.cursors[before.free[j] as int] is None);
                }
            }
        }
    }

    /// Number of registered readers.
    pub fn reader_count(&self) -> (n: usize)
        ensures
            n == registered(self@.cursors),
    {
        let mut n: usize = 0;
        let mut i: usize = 0;
        assert(self@.cursors.subrange(0, 0) =~= Seq::<Option<u32>>::empty());
        while i < self.cursors.len()
            invariant
                i <= self.cursors@.len(),
                n <= i,
                n == registered(self@.cursors.subrange(0, i as int)),
            decreases self.cursors.len() - i,
        {
            if self.cursors[i].is_some() {
                n = n + 1;
            }
            i = i + 1;
            assert(self@.cursors.subrange(0, i as int).drop_last() =~= self@.cursors.subrange(
                0,
                i - 1,
            ));
        }
        assert(self@.cursors.subrange(0, self.cursors@.len() as int) =~= self@.cursors);
        n
    }

    /// Makes room for `additional` events in the write buffer.
    pub fn reserve(&mut self, additional: usize)
        requires
            old(self).wf(),
        ensures
            final(self).wf(),
            final(self)@ == old(self)@,
    {
        self.pending.reserve(additional);
    }

    /// Puts every registered reader back to the front.
    fn rewind_all(&mut self)
        requires
            old(self)@.cursors.len() <= u32::MAX,
        ensures
            final(self)@ == (EventsState { cursors: rewound(old(self)@.cursors), ..old(self)@ }),
            final(self).lagging_count == old(self).lagging_count,
    {
        let mut i: usize = 0;
        while i < self.cursors.len()
            invariant
                i <= self.cursors@.len(),
                self.cursors@.len() == old(self)@.cursors.len(),
                self.lagging_count == old(self).lagging_count,
                self@ == (EventsState { cursors: self@.cursors, ..old(self)@ }),
                forall|k: int|
                    0 <= k < i ==> #[trigger] self@.cursors[k] == rewound(old(self)@.cursors)[k],
                forall|k: int|
                    i <= k < self@.cursors.len() ==> #[trigger] self@.cursors[k] == old(self)@.cursors[k],
            decreases self.cursors.len() - i,
        {
            if self.cursors[i].is_some() {
                self.cursors.set(i, Some(0));
            }
            i = i + 1;
        }
        assert(self@.cursors =~= rewound(old(self)@.cursors));
    }

    /// Counts the readers that have something to read.
    fn count_lagging(&self) -> (n: u32)
        requires
            self@.cursors.len() <= u32::MAX,
            self@.events.len() <= u32::MAX,
        ensures
            n == lagging(self@.cursors, self@.events.len()),
    {
        let len: u32 = self.events.len() as u32;
        let mut n: u32 = 0;
        let mut i: usize = 0;
        assert(self@.cursors.subrange(0, 0) =~= Seq::<Option<u32>>::empty());
        while i < self.cursors.len()
            invariant
                i <= self.cursors@.len() <= u32::MAX,
                len == self@.events.len(),
                n <= i,
                n == lagging(self@.cursors.subrange(0, i as int), len as nat),
            decreases self.cursors.len() - i,
        {
            if let Some(pos) = self.cursors[i] {
                if pos < len {
                    n = n + 1;
                }
            }
            i = i + 1;
            assert(self@.cursors.subrange(0, i as int).drop_last() =~= self@.cursors.subrange(
                0,
                i - 1,
            ));
        }
        assert(self@.cursors.subrange(0, self.cursors@.len() as int) =~= self@.cursors);
        n
    }

    /// Makes what was sent readable. The old events go where every reader has read them; else the
    /// new ones are appended.
    pub fn update(&mut self)
        requires
            old(self).wf(),
            fits(old(self)@),
        ensures
            final(self).wf(),
            final(self)@ == after_update(old(self)@),
    {
        self.flush_sync();
        if self.events.len() == 0 && self.pending.len() == 0 {
            return;
        }
        let ghost m = self@;
        if self.lagging_count == 0 {
            self.rewind_all();
            let mut fresh: Vec<T> = Vec::new();
            fresh.append(&mut self.pending);
            self.events = fresh;
            assert(self@.events =~= m.pending);
            assert(self@.pending =~= Seq::<T>::empty());
        } else {
            self.events.append(&mut self.pending);
            assert(self@.pending =~= Seq::<T>::empty());
        }
        self.lagging_count = self.count_lagging();
        proof {
            let s = self@;
            assert forall|i: int|
                0 <= i < s.cursors.len() && #[trigger] s.cursors[i] is Some implies s.cursors[i]->0
                <= s.events.len() by {
                assert(m.cursors[i] is Some);
            }
        }
    }

    /// What the reader has not read; its cursor stays.
    pub fn iter(&self, reader_id: &EventCursor) -> (out: &[T])
        requires
            self.wf(),
        ensures
            out@ == unread(self@, *reader_id),
    {
        let idx: usize = reader_id.0 as usize;
        let len: usize = self.events.len();
        if idx < self.cursors.len() {
            if let Some(pos) = self.cursors[idx] {
                if (pos as usize) < len {
                    return vstd::slice::slice_subrange(self.events.as_slice(), pos as usize, len);
                }
            }
        }
        vstd::slice::slice_subrange(self.events.as_slice(), len, len)
    }

    /// Puts a registered reader at `pos`.
    fn move_reader(&mut self, reader_id: &EventCursor, pos: u32)
        requires
            old(self).wf(),
            pos <= old(self)@.events.len(),
        ensures
            final(self).wf(),
            final(self)@ == moved(old(self)@, *reader_id, pos as nat),
    {
        let idx: usize = reader_id.0 as usize;
        let len: u32 = self.events.len() as u32;
        if idx < self.cursors.len() {
            if let Some(old_pos) = self.cursors[idx] {
                proof {
                    lemma_lagging_update(self@.cursors, idx as int, Some(pos), len as nat);
                    lemma_lagging_bound(self@.cursors.update(idx as int, Some(pos)), len as nat);
                }
                if old_pos < len && pos >= len {
                    self.lagging_count = self.lagging_count.saturating_sub(1);
                } else if old_pos >= len && pos < len {
                    self.lagging_count = self.lagging_count + 1;
                }
                self.cursors.set(idx, Some(pos));
            }
        }
    }

    /// Puts the reader at the end of the buffer.
    pub fn advance_reader_mut(&mut self, reader_id: &EventCursor)
        requires
            old(self).wf(),
        ensures
            final(self).wf(),
            final(self)@ == after_read(old(self)@, *reader_id),
    {
        let len: u32 = self.events.len() as u32;
        self.move_reader(reader_id, len);
    }

    /// Moves the reader on by `count` events, at most to the end of the buffer.
    pub fn advance_reader_by(&mut self, reader_id: &EventCursor, count: usize)
        requires
            old(self).wf(),
        ensures
            final(self).wf(),
            final(self)@ == match position(old(self)@, *reader_id) {
                Some(p) => moved(
                    old(self)@,
                    *reader_id,
                    p as nat + readable(old(self)@, p as nat, count as nat),
                ),
                None => old(self)@,
            },
    {
        let idx: usize = reader_id.0 as usize;
        if idx < self.cursors.len() {
            if let Some(old_pos) = self.cursors[idx] {
                let len: usize = self.events.len();
                let left: usize = len - old_pos as usize;
                let step: usize = if count <= left { count } else { left };
                self.move_reader(reader_id, (old_pos as usize + step) as u32);
            }
        }
    }

    /// Where a read by the reader starts.
    fn start_of(&self, reader_id: &EventCursor) -> (start: usize)
        requires
            self.wf(),
        ensures
            start == read_start(self@, *reader_id),
    {
        let idx: usize = reader_id.0 as usize;
        if idx < self.cursors.len() {
            if let Some(pos) = self.cursors[idx] {
                return pos as usize;
            }
        }
        0
    }

    /// Reads everything that the reader has not read. The cursor goes to the end of the buffer,
    /// however much of the guard is looked at; [`EventReadGuard::peek`] takes that back.
    pub fn read<'q>(&'q mut self, reader_id: &EventCursor) -> (guard: EventReadGuard<'q, T>)
        requires
            old(self).wf(),
        ensures
            guard.wf(),
            guard.reader_id == *reader_id,
            guard.start == read_start(old(self)@, *reader_id),
            guard.queue@ == after_read(old(self)@, *reader_id),
            *final(self) == *final(guard.queue),
    {
        let start: usize = self.start_of(reader_id);
        self.advance_reader_mut(reader_id);
        EventReadGuard { queue: self, reader_id: *reader_id, start }
    }

    /// Reads at most `max_count` events; the cursor moves on by exactly the number read.
    pub fn read_partial<'q>(
        &'q mut self,
        reader_id: &EventCursor,
        max_count: usize,
    ) -> (guard: PartialReadGuard<'q, T>)
        requires
            old(self).wf(),
        ensures
            guard.wf(),
            guard.start == read_start(old(self)@, *reader_id),
            guard.count == readable(old(self)@, guard.start as nat, max_count as nat),
            guard.queue@ == moved(old(self)@, *reader_id, (guard.start + guard.count) as nat),
            final(self)@ == guard.queue@,
            final(self).wf(),
    {
        let start: usize = self.start_of(reader_id);
        let left: usize = self.events.len() - start;
        let count: usize = if max_count <= left { max_count } else { left };
        self.advance_reader_by(reader_id, count);
        PartialReadGuard { queue: self, start, count }
    }

    /// Number of events in both buffers.
    pub fn len(&self) -> (n: usize)
        requires
            self.wf(),
            self@.events.len() + self@.pending.len() <= usize::MAX,
        ensures
            n == self@.events.len() + self@.pending.len(),
    {
        self.events.len() + self.pending.len()
    }

    /// Number of events that readers can see.
    pub fn len_readable(&self) -> (n: usize)
        ensures
            n == self@.events.len(),
    {
        self.events.len()
    }

    /// Number of events in the write buffer.
    pub fn len_pending(&self) -> (n: usize)
        ensures
            n == self@.pending.len(),
    {
        self.pending.len()
    }

    /// Whether both buffers are empty.
    pub fn is_empty(&self) -> (b: bool)
        ensures
            b == (self@.events.len() == 0 && self@.pending.len() == 0),
    {
        self.events.len() == 0 && self.pending.len() == 0
    }

    /// Empties all buffers, forgets the freed ids, and puts every reader back to the front.
    pub fn clear(&mut self)
        requires
            old(self).wf(),
        ensures
            final(self).wf(),
            final(self)@ == (EventsState {
                events: Seq::<T>::empty(),
                pending: Seq::<T>::empty(),
                sync_pending: Seq::<T>::empty(),
                cursors: rewound(old(self)@.cursors),
                free: Seq::empty(),
                ..old(self)@
            }),
    {
        self.rewind_all();
        self.events = Vec::new();
        self.pending = Vec::new();
        self.sync_pending = Vec::new();
        self.free_list = Vec::new();
        self.lagging_count = 0;
        proof {
            lemma_lagging_zero(self@.cursors, 0);
            assert(self@.free =~= Seq::<u32>::empty());
        }
    }
}

impl<T> Default for Events<T> {
    fn default() -> (q: Events<T>)
        ensures
            q.wf(),
            q@ == (EventsState {
                events: Seq::<T>::empty(),
                pending: Seq::<T>::empty(),
                sync_pending: Seq::<T>::empty(),
                cursors: Seq::empty(),
                next_id: 0,
                free: Seq::empty(),
            }),
    {
        Events::new()
    }
}

/// What a reader had not read. The reader's cursor is at the end of the buffer.
pub struct EventReadGuard<'q, T> {
    pub queue: &'q mut Events<T>,
    pub reader_id: EventCursor,
    pub start: usize,
}

impl<'q, T> EventReadGuard<'q, T> {
    /// The guard's invariant: it starts inside the buffer, and its reader is at the end.
    pub open spec fn wf(&self) -> bool {
        &&& self.queue.wf()
        &&& self.start <= self.queue@.events.len()
        &&& position(self.queue@, self.reader_id) is Some ==> position(
            self.queue@,
            self.reader_id,
        )->0 == self.queue@.events.len()
    }

    /// The events read.
    pub open spec fn items(&self) -> Seq<T> {
        self.queue@.events.subrange(self.start as int, self.queue@.events.len() as int)
    }

    /// The events read.
    pub fn as_slice(&self) -> (out: &[T])
        requires
            self.wf(),
        ensures
            out@ == self.items(),
    {
        let len: usize = self.queue.events.len();
        vstd::slice::slice_subrange(self.queue.events.as_slice(), self.start, len)
    }

    /// Number of events read.
    pub fn len(&self) -> (n: usize)
        requires
            self.wf(),
        ensures
            n == self.items().len(),
    {
        self.queue.events.len() - self.start
    }

    /// Whether there was nothing to read.
    pub fn is_empty(&self) -> (b: bool)
        requires
            self.wf(),
        ensures
            b == (self.items().len() == 0),
    {
        self.queue.events.len() == self.start
    }

    /// Looks without reading: the reader's cursor goes back to where the read started.
    pub fn peek(self) -> (guard: PeekGuard<'q, T>)
        requires
            self.wf(),
        ensures
            guard.queue.wf(),
            guard.start == self.start,
            guard.start <= guard.queue@.events.len(),
            guard.queue@ == moved(old(self.queue)@, self.reader_id, self.start as nat),
            *final(self.queue) == *guard.queue,
    {
        let EventReadGuard { queue, reader_id, start } = self;
        queue.move_reader(&reader_id, start as u32);
        PeekGuard { queue, start }
    }

    /// The events read, one after the other.
    pub fn into_iter(self) -> (it: EventIterator<'q, T>)
        requires
            self.wf(),
        ensures
            it.wf(),
            it.left() == self.items(),
            *final(self.queue) == *old(self.queue),
    {
        let EventReadGuard { queue, reader_id, start } = self;
        let len: usize = queue.events.len();
        EventIterator {
            items: vstd::slice::slice_subrange(queue.events.as_slice(), start, len),
            front: 0,
            back: len - start,
        }
    }
}

/// Walks the events of a read from either end.
pub struct EventIterator<'q, T> {
    pub items: &'q [T],
    pub front: usize,
    pub back: usize,
}

impl<'q, T> EventIterator<'q, T> {
    /// The iterator's invariant.
    pub open spec fn wf(&self) -> bool {
        self.front <= self.back <= self.items@.len()
    }

    /// What is left to yield.
    pub open spec fn left(&self) -> Seq<T> {
        self.items@.subrange(self.front as int, self.back as int)
    }

    /// The next event from the front.
    pub fn next(&mut self) -> (item: Option<&'q T>)
        requires
            old(self).wf(),
        ensures
            final(self).wf(),
            old(self).left().len() == 0 ==> item is None && final(self).left() == old(self).left(),
            old(self).left().len() > 0 ==> item == Some(&old(self).left()[0]) && final(self).left()
                == old(self).left().drop_first(),
    {
        if self.front < self.back {
            let item: &'q T = &self.items[self.front];
            self.front = self.front + 1;
            assert(self.left() =~= old(self).left().drop_first());
            Some(item)
        } else {
            None
        }
    }

    /// The next event from the back.
    pub fn next_back(&mut self) -> (item: Option<&'q T>)
        requires
            old(self).wf(),
        ensures
            final(self).wf(),
            old(self).left().len() == 0 ==> item is None && final(self).left() == old(self).left(),
            old(self).left().len() > 0 ==> item == Some(&old(self).left().last()) && final(self).left() == old(self).left().drop_last(),
    {
        if self.front < self.back {
            self.back = self.back - 1;
            assert(self.left() =~= old(self).left().drop_last());
            Some(&self.items[self.back])
        } else {
            None
        }
    }

    /// Number of events left.
    pub fn len(&self) -> (n: usize)
        requires
            self.wf(),
        ensures
            n == self.left().len(),
    {
        self.back - self.front
    }
}

/// A batch of what a reader had not read. The reader's cursor is behind the batch.
pub struct PartialReadGuard<'q, T> {
    pub queue: &'q Events<T>,
    pub start: usize,
    pub count: usize,
}

impl<'q, T> PartialReadGuard<'q, T> {
    /// The guard's invariant.
    pub open spec fn wf(&self) -> bool {
        self.start + self.count <= self.queue@.events.len() <= u32::MAX
    }

    /// The events read.
    pub open spec fn items(&self) -> Seq<T> {
        self.queue@.events.subrange(self.start as int, self.start + self.count)
    }

    /// The events read.
    pub fn as_slice(&self) -> (out: &'q [T])
        requires
            self.wf(),
        ensures
            out@ == self.items(),
    {
        vstd::slice::slice_subrange(
            self.queue.events.as_slice(),
            self.start,
            self.start + self.count,
        )
    }

    /// Number of events read.
    pub fn len(&self) -> (n: usize)
        ensures
            n == self.count,
    {
        self.count
    }

    /// Whether there was nothing to read.
    pub fn is_empty(&self) -> (b: bool)
        ensures
            b == (self.count == 0),
    {
        self.count == 0
    }
}

/// What a reader has not read, with its cursor where it was.
pub struct PeekGuard<'q, T> {
    pub queue: &'q Events<T>,
    pub start: usize,
}

impl<'q, T> PeekGuard<'q, T> {
    /// The events looked at.
    pub fn as_slice(&self) -> (out: &'q [T])
        requires
            self.start <= self.queue@.events.len(),
        ensures
            out@ == self.queue@.events.subrange(
                self.start as int,
                self.queue@.events.len() as int,
            ),
    {
        let len: usize = self.queue.events.len();
        vstd::slice::slice_subrange(self.queue.events.as_slice(), self.start, len)
    }
}

/// An event addressed to one entity.
#[derive(Debug, Clone)]
pub struct EntityEvent<T> {
    pub target: Entity,
    pub data: T,
}

impl<T> EntityEvent<T> {
    /// An event for `target`.
    pub fn new(target: Entity, data: T) -> (e: EntityEvent<T>)
        ensures
            e.target == target,
            e.data == data,
    {
        EntityEvent { target, data }
    }
}

/// The event that an entity lost a component.
#[derive(Clone, Copy, PartialEq, Eq, Debug, Structural)]
pub struct Removed {
    pub entity: Entity,
}

impl Removed {
    /// The event for `entity`.
    pub fn new(entity: Entity) -> (r: Removed)
        ensures
            r.entity == entity,
    {
        Removed { entity }
    }

    /// The event as text, with the name of the component type.
    pub fn text(&self, component: &str) -> (t: String)
        ensures
            t@ == "Removed<"@ + component@ + ">("@ + entity_text(self.entity) + ")"@,
    {
        let mut t: String = "Removed<".to_owned();
        t.append(component);
        t.append(">(");
        let entity: String = self.entity.text();
        t.append(entity.as_str());
        t.append(")");
        t
    }
}

} // verus!
