//! What holds of event queues across operations: nothing is lost, nothing comes twice, and
//! readers do not disturb each other.

use vstd::prelude::*;
use crate::events::{
    EventCursor, EventsState, after_add, after_merge, after_read, after_remove, after_update,
    events_wf, lagging, lags, moved, next_reader, padded, position, read_start, readable,
    registered, rewound, trimmed, unread,
};

verus! {

proof fn lemma_caught_up(c: Seq<Option<u32>>, len: nat, i: int)
    requires
        lagging(c, len) == 0,
        0 <= i < c.len(),
    ensures
        !lags(c[i], len),
    decreases c.len(),
{
    if i < c.len() - 1 {
        lemma_caught_up(c.drop_last(), len, i);
    }
}

proof fn lemma_trimmed_keeps(cursors: Seq<Option<u32>>, free: Seq<u32>, i: int)
    requires
        0 <= i < cursors.len(),
        cursors[i] is Some,
    ensures
        i < trimmed(cursors, free).len(),
        trimmed(cursors, free)[i] == cursors[i],
    decreases cursors.len(),
{
    if cursors.last() is None && !free.contains((cursors.len() - 1) as u32) {
        lemma_trimmed_keeps(cursors.drop_last(), free, i);
    }
}

proof fn lemma_trimmed_is_prefix(cursors: Seq<Option<u32>>, free: Seq<u32>)
    ensures
        trimmed(cursors, free).len() <= cursors.len(),
        forall|i: int|
            0 <= i < trimmed(cursors, free).len() ==> #[trigger] trimmed(cursors, free)[i]
                == cursors[i],
    decreases cursors.len(),
{
    if cursors.len() > 0 && cursors.last() is None && !free.contains(
        (cursors.len() - 1) as u32,
    ) {
        lemma_trimmed_is_prefix(cursors.drop_last(), free);
    }
}

/// An update loses nothing: afterwards a registered reader has before it what it had not read,
/// and then everything that was sent, in order.
pub proof fn law_update_loses_nothing<T>(s: EventsState<T>, id: EventCursor)
    requires
        events_wf(s),
        position(s, id) is Some,
    ensures
        position(after_update(s), id) is Some,
        unread(after_update(s), id) == unread(s, id) + s.pending + s.sync_pending,
{
    let m = after_merge(s);
    let t = after_update(s);
    let sent = s.pending + s.sync_pending;
    assert(s.cursors[id.0 as int] is Some);
    let p = position(s, id)->0;
    if m.events.len() == 0 && m.pending.len() == 0 {
        assert(unread(t, id) =~= unread(s, id) + s.pending + s.sync_pending);
    } else if lagging(m.cursors, m.events.len()) == 0 {
        lemma_caught_up(m.cursors, m.events.len(), id.0 as int);
        assert(rewound(m.cursors)[id.0 as int] == Some(0u32));
        assert(unread(s, id) =~= Seq::<T>::empty());
        assert(unread(t, id) =~= unread(s, id) + s.pending + s.sync_pending);
    } else {
        assert(unread(t, id) =~= unread(s, id) + s.pending + s.sync_pending);
    }
}

proof fn lemma_all_caught_up(c: Seq<Option<u32>>, len: nat)
    requires
        forall|i: int| 0 <= i < c.len() && #[trigger] c[i] is Some ==> c[i]->0 >= len,
    ensures
        lagging(c, len) == 0,
    decreases c.len(),
{
    if c.len() > 0 {
        let d = c.drop_last();
        assert forall|i: int| 0 <= i < d.len() && #[trigger] d[i] is Some implies d[i]->0 >= len by {
            assert(c[i] is Some);
        }
        lemma_all_caught_up(d, len);
        assert(!lags(c[c.len() - 1], len));
    }
}

/// The buffer goes with its last reader: where no registered reader has anything before it, be it
/// that there is none, the buffer after an update is what was sent since the last one.
pub proof fn law_update_forgets_what_was_read<T>(s: EventsState<T>)
    requires
        forall|i: int|
            0 <= i < s.cursors.len() && #[trigger] s.cursors[i] is Some ==> s.cursors[i]->0
                >= s.events.len(),
    ensures
        after_update(s).events == s.pending + s.sync_pending,
{
    lemma_all_caught_up(s.cursors, s.events.len());
    assert(Seq::<T>::empty() + Seq::<T>::empty() =~= Seq::<T>::empty());
    if s.events.len() == 0 && (s.pending + s.sync_pending).len() == 0 {
        assert(s.events =~= s.pending + s.sync_pending);
    }
}

/// The buffer stays for a reader that has not read it all: then what was sent follows it, and no
/// reader moves.
pub proof fn law_update_keeps_what_is_unread<T>(s: EventsState<T>, i: int)
    requires
        0 <= i < s.cursors.len(),
        s.cursors[i] is Some,
        s.cursors[i]->0 < s.events.len(),
    ensures
        after_update(s).events == s.events + s.pending + s.sync_pending,
        after_update(s).cursors == s.cursors,
{
    if lagging(s.cursors, s.events.len()) == 0 {
        lemma_caught_up(s.cursors, s.events.len(), i);
    }
    assert(s.events + (s.pending + s.sync_pending) =~= s.events + s.pending + s.sync_pending);
}

/// An update leaves nothing waiting, and the same readers registered: none comes, none goes, and
/// the ids to be given out stay.
pub proof fn law_update_keeps_the_readers<T>(s: EventsState<T>)
    ensures
        after_update(s).pending.len() == 0,
        after_update(s).sync_pending.len() == 0,
        after_update(s).cursors.len() == s.cursors.len(),
        after_update(s).next_id == s.next_id,
        after_update(s).free == s.free,
        forall|i: int|
            0 <= i < s.cursors.len() ==> ((#[trigger] after_update(s).cursors[i]) is Some
                <==> s.cursors[i] is Some),
{
}

/// What a reader has before it is what is in the buffer behind the events it has read.
pub proof fn law_unread_is_the_end_of_the_buffer<T>(s: EventsState<T>, id: EventCursor)
    requires
        events_wf(s),
        id.0 < s.cursors.len(),
        s.cursors[id.0 as int] is Some,
    ensures
        ({
            let read = s.cursors[id.0 as int]->0;
            &&& unread(s, id).len() == s.events.len() - read
            &&& forall|k: int|
                0 <= k < unread(s, id).len() ==> #[trigger] unread(s, id)[k] == s.events[read + k]
            &&& read_start(s, id) == read
        }),
{
}

/// Reading everything leaves nothing unread for the reader and changes nothing for the others.
pub proof fn law_read_takes_all<T>(s: EventsState<T>, id: EventCursor, other: EventCursor)
    requires
        events_wf(s),
        other != id,
    ensures
        unread(after_read(s, id), id).len() == 0,
        unread(after_read(s, id), other) == unread(s, other),
        position(s, id) is Some ==> s.events.subrange(
            read_start(s, id) as int,
            s.events.len() as int,
        ) == unread(s, id),
{
    if position(s, id) is Some {
        assert(s.cursors[id.0 as int] is Some);
        assert(s.events.subrange(read_start(s, id) as int, s.events.len() as int) =~= unread(
            s,
            id,
        ));
    }
}

/// Reading a batch takes the batch and leaves the rest.
pub proof fn law_read_partial_takes_a_prefix<T>(s: EventsState<T>, id: EventCursor, max: nat)
    requires
        events_wf(s),
        position(s, id) is Some,
    ensures
        ({
            let start = read_start(s, id);
            let n = readable(s, start, max);
            &&& n <= max
            &&& s.events.subrange(start as int, (start + n) as int) + unread(moved(s, id, start + n), id)
                == unread(s, id)
        }),
{
    let start = read_start(s, id);
    let n = readable(s, start, max);
    assert(s.cursors[id.0 as int] is Some);
    assert(s.events.subrange(start as int, (start + n) as int) + unread(moved(s, id, start + n), id)
        =~= unread(s, id));
}

/// Taking a read back leaves the queue as it was.
pub proof fn law_peek_undoes_read<T>(s: EventsState<T>, id: EventCursor)
    requires
        events_wf(s),
    ensures
        moved(after_read(s, id), id, read_start(s, id)) == s,
{
    if position(s, id) is Some {
        assert(s.cursors[id.0 as int] is Some);
        assert(moved(after_read(s, id), id, read_start(s, id)).cursors =~= s.cursors);
    }
}

/// Removing a reader changes nothing for the others.
pub proof fn law_remove_keeps_other_readers<T>(
    s: EventsState<T>,
    id: EventCursor,
    other: EventCursor,
)
    requires
        events_wf(s),
        other != id,
    ensures
        position(after_remove(s, id), other) == position(s, other),
        unread(after_remove(s, id), other) == unread(s, other),
        position(after_remove(s, id), id) is None,
{
    if position(s, id) is Some {
        let c = s.cursors.update(id.0 as int, None);
        let f = s.free.push(id.0);
        assert(after_remove(s, id).cursors == trimmed(c, f));
        lemma_trimmed_is_prefix(c, f);
        if position(s, other) is Some {
            lemma_trimmed_keeps(c, f, other.0 as int);
        }
    }
}

/// Removing a reader a second time changes nothing.
pub proof fn law_removed_stays_removed<T>(s: EventsState<T>, id: EventCursor)
    requires
        events_wf(s),
    ensures
        after_remove(after_remove(s, id), id) == after_remove(s, id),
{
    let other = EventCursor(if id.0 == 0 { 1 } else { 0 });
    law_remove_keeps_other_readers(s, id, other);
}

/// A reader that is added gets an id that no other reader has, and sees the whole buffer; the
/// others keep what they had.
pub proof fn law_added_reader_sees_the_buffer<T>(s: EventsState<T>, other: EventCursor)
    requires
        events_wf(s),
        s.free.len() > 0 || s.next_id < u32::MAX,
        other != next_reader(s),
    ensures
        position(s, next_reader(s)) is None,
        position(after_add(s), next_reader(s)) == Some(0u32),
        unread(after_add(s), next_reader(s)) == s.events,
        position(after_add(s), other) == position(s, other),
        unread(after_add(s), other) == unread(s, other),
        events_wf(after_add(s)),
{
    let t = after_add(s);
    if s.free.len() > 0 {
        assert(s.free[s.free.len() - 1] < s.cursors.len());
        assert forall|i: int| 0 <= i < t.free.len() implies #[trigger] t.free[i] < t.cursors.len()
            && t.cursors[t.free[i] as int] is None by {
            assert(t.free[i] == s.free[i]);
            assert(s.free[i] != s.free[s.free.len() - 1]);
        }
    } else {
        assert(padded(s.cursors, s.next_id as nat).len() == s.next_id);
        assert forall|i: int| 0 <= i < t.cursors.len() && #[trigger] t.cursors[i] is Some implies t.cursors[i]->0
            <= t.events.len() by {
            if i < s.cursors.len() {
                assert(t.cursors[i] == s.cursors[i]);
            }
        }
    }
    assert(unread(t, next_reader(s)) =~= s.events);
}

/// A reader that is added reads everything that is sent after it was added: after the next update
/// it has before it what was in the buffer, and then what was sent.
pub proof fn law_added_reader_gets_what_is_sent<T>(s: EventsState<T>)
    requires
        events_wf(s),
        s.free.len() > 0 || s.next_id < u32::MAX,
    ensures
        unread(after_update(after_add(s)), next_reader(s)) == s.events + s.pending + s.sync_pending,
{
    let other = EventCursor(if next_reader(s).0 == 0 { 1 } else { 0 });
    law_added_reader_sees_the_buffer(s, other);
    law_update_loses_nothing(after_add(s), next_reader(s));
}

/// One frame: `batch` is sent, then the queue is updated.
pub open spec fn frame<T>(s: EventsState<T>, batch: Seq<T>) -> EventsState<T> {
    after_update(EventsState { pending: s.pending + batch, ..s })
}

/// Several frames, one after the other.
pub open spec fn frames<T>(s: EventsState<T>, batches: Seq<Seq<T>>) -> EventsState<T>
    decreases batches.len(),
{
    if batches.len() == 0 {
        s
    } else {
        frame(frames(s, batches.drop_last()), batches.last())
    }
}

/// Everything sent over several frames, in order.
pub open spec fn sent<T>(batches: Seq<Seq<T>>) -> Seq<T>
    decreases batches.len(),
{
    if batches.len() == 0 {
        Seq::empty()
    } else {
        sent(batches.drop_last()) + batches.last()
    }
}

proof fn lemma_update_keeps_wf<T>(s: EventsState<T>)
    requires
        events_wf(s),
        s.events.len() + s.pending.len() + s.sync_pending.len() <= u32::MAX,
    ensures
        events_wf(after_update(s)),
        after_update(s).pending.len() == 0,
        after_update(s).sync_pending.len() == 0,
        after_update(s).events.len() <= s.events.len() + s.pending.len() + s.sync_pending.len(),
{
    let t = after_update(s);
    assert forall|i: int| 0 <= i < t.free.len() implies #[trigger] t.free[i] < t.cursors.len()
        && t.cursors[t.free[i] as int] is None by {
        assert(s.free[i] < s.cursors.len());
    }
    assert forall|i: int|
        0 <= i < t.cursors.len() && #[trigger] t.cursors[i] is Some implies t.cursors[i]->0
        <= t.events.len() by {
        assert(s.cursors[i] is Some);
    }
}

/// No loss over any number of frames: a reader that stays behind while events are sent and
/// updated finds every one of them, once and in order, when it reads.
pub proof fn law_no_loss_over_frames<T>(
    s: EventsState<T>,
    batches: Seq<Seq<T>>,
    id: EventCursor,
)
    requires
        events_wf(s),
        position(s, id) is Some,
        s.pending.len() == 0,
        s.sync_pending.len() == 0,
        s.events.len() + sent(batches).len() <= u32::MAX,
    ensures
        position(frames(s, batches), id) is Some,
        unread(frames(s, batches), id) == unread(s, id) + sent(batches),
        events_wf(frames(s, batches)),
        frames(s, batches).pending.len() == 0,
        frames(s, batches).sync_pending.len() == 0,
        frames(s, batches).events.len() <= s.events.len() + sent(batches).len(),
    decreases batches.len(),
{
    if batches.len() == 0 {
        assert(unread(s, id) + sent(batches) =~= unread(s, id));
    } else {
        let head = batches.drop_last();
        law_no_loss_over_frames(s, head, id);
        let f = frames(s, head);
        let g = EventsState { pending: f.pending + batches.last(), ..f };
        assert(events_wf(g));
        law_update_loses_nothing(g, id);
        lemma_update_keeps_wf(g);
        assert(unread(g, id) =~= unread(f, id));
        assert(unread(frames(s, batches), id) =~= unread(s, id) + sent(batches));
    }
}

/// Events of parallel systems follow those that wait already, in order.
pub proof fn law_merged_events_follow<T>(s: EventsState<T>)
    ensures
        after_merge(s).pending == s.pending + s.sync_pending,
        after_merge(s).sync_pending.len() == 0,
        after_merge(s).events == s.events,
        after_merge(s).cursors == s.cursors,
{
}

/// A read of a batch takes as many events as asked for, or all that are left where these are fewer.
pub proof fn law_batches_are_as_large_as_asked_for<T>(s: EventsState<T>, id: EventCursor, max: nat)
    requires
        events_wf(s),
        position(s, id) is Some,
    ensures
        readable(s, read_start(s, id), max) == if max <= unread(s, id).len() {
            max
        } else {
            unread(s, id).len()
        },
{
    assert(s.cursors[id.0 as int] is Some);
}

/// Who is not registered has nothing before them.
pub proof fn law_strangers_read_nothing<T>(s: EventsState<T>, id: EventCursor)
    requires
        id.0 >= s.cursors.len() || s.cursors[id.0 as int] is None,
    ensures
        unread(s, id).len() == 0,
        moved(s, id, 0) == s,
        after_read(s, id) == s,
        after_remove(s, id) == s,
{
}

/// Moving a reader puts it there, moves no other, and leaves all events.
pub proof fn law_readers_move_alone<T>(s: EventsState<T>, id: EventCursor, pos: nat)
    requires
        id.0 < s.cursors.len(),
        s.cursors[id.0 as int] is Some,
        pos <= u32::MAX,
    ensures
        moved(s, id, pos).cursors == s.cursors.update(id.0 as int, Some(pos as u32)),
        moved(s, id, pos).events == s.events,
        moved(s, id, pos).pending == s.pending,
        moved(s, id, pos).sync_pending == s.sync_pending,
{
}

proof fn lemma_registered_update(c: Seq<Option<u32>>, i: int, x: Option<u32>)
    requires
        0 <= i < c.len(),
    ensures
        registered(c.update(i, x)) == registered(c) + (if x is Some { 1int } else { 0 }) - (
        if c[i] is Some { 1int } else { 0 }),
    decreases c.len(),
{
    if i == c.len() - 1 {
        assert(c.update(i, x).drop_last() =~= c.drop_last());
    } else {
        assert(c.update(i, x).drop_last() =~= c.drop_last().update(i, x));
        lemma_registered_update(c.drop_last(), i, x);
    }
}

proof fn lemma_registered_padded(c: Seq<Option<u32>>, n: nat)
    requires
        c.len() <= n,
    ensures
        registered(padded(c, n)) == registered(c),
    decreases n,
{
    if c.len() < n {
        lemma_registered_padded(c, (n - 1) as nat);
        let p = padded(c, n);
        assert(p.drop_last() =~= padded(c, (n - 1) as nat));
        assert(p.last() is None);
    }
}

proof fn lemma_registered_trimmed(c: Seq<Option<u32>>, free: Seq<u32>)
    ensures
        registered(trimmed(c, free)) == registered(c),
    decreases c.len(),
{
    if c.len() > 0 && c.last() is None && !free.contains((c.len() - 1) as u32) {
        lemma_registered_trimmed(c.drop_last(), free);
    }
}

/// Each reader that comes is one more, each that goes one less, and an update changes nothing about
/// their number.
pub proof fn law_readers_are_counted<T>(s: EventsState<T>, id: EventCursor)
    requires
        events_wf(s),
        s.free.len() > 0 || s.next_id < u32::MAX,
    ensures
        registered(after_add(s).cursors) == registered(s.cursors) + 1,
        position(s, id) is Some ==> registered(after_remove(s, id).cursors) == registered(s.cursors)
            - 1,
        registered(after_update(s).cursors) == registered(s.cursors),
{
    if s.free.len() > 0 {
        let i = s.free[s.free.len() - 1];
        assert(i < s.cursors.len() && s.cursors[i as int] is None);
        lemma_registered_update(s.cursors, i as int, Some(0));
    } else {
        let p = padded(s.cursors, s.next_id as nat);
        lemma_registered_padded(s.cursors, s.next_id as nat);
        assert(p.push(Some(0u32)).drop_last() =~= p);
    }
    if position(s, id) is Some {
        let c = s.cursors.update(id.0 as int, None);
        lemma_registered_update(s.cursors, id.0 as int, None);
        lemma_registered_trimmed(c, s.free.push(id.0));
    }
    lemma_registered_rewound(s.cursors);
}

proof fn lemma_registered_rewound(c: Seq<Option<u32>>)
    ensures
        registered(rewound(c)) == registered(c),
    decreases c.len(),
{
    if c.len() > 0 {
        lemma_registered_rewound(c.drop_last());
        assert(rewound(c).drop_last() =~= rewound(c.drop_last()));
    }
}

/// The id of the reader that went last is the next to be given out; where none is free, ids are
/// given out one after the other.
pub proof fn law_ids_of_readers_come_back<T>(s: EventsState<T>, id: EventCursor)
    requires
        events_wf(s),
    ensures
        position(s, id) is Some ==> next_reader(after_remove(s, id)) == id,
        s.free.len() == 0 ==> next_reader(s).0 == s.next_id,
        s.free.len() == 0 && s.next_id < u32::MAX ==> after_add(s).next_id == s.next_id + 1,
        s.free.len() > 0 ==> after_add(s).next_id == s.next_id,
{
    if position(s, id) is Some {
        assert(after_remove(s, id).free == s.free.push(id.0));
    }
}

/// Readers that are sent back to the front stay registered, and nobody else becomes so.
pub proof fn law_rewinding_keeps_the_readers(c: Seq<Option<u32>>, i: int)
    requires
        0 <= i < c.len(),
    ensures
        rewound(c).len() == c.len(),
        rewound(c)[i] == if c[i] is Some {
            Some(0u32)
        } else {
            None
        },
{
}

/// Without readers only the last frame stays: whatever was sent before is forgotten, so that a reader
/// that is added then has before it what was sent in the last frame, and nothing older.
pub proof fn law_without_readers_only_the_last_frame_stays<T>(
    s: EventsState<T>,
    batches: Seq<Seq<T>>,
)
    requires
        s.pending.len() == 0,
        s.sync_pending.len() == 0,
        forall|i: int| 0 <= i < s.cursors.len() ==> (#[trigger] s.cursors[i]) is None,
        batches.len() > 0,
    ensures
        frames(s, batches).events == batches.last(),
        frames(s, batches).pending.len() == 0,
        frames(s, batches).sync_pending.len() == 0,
        forall|i: int|
            0 <= i < frames(s, batches).cursors.len() ==> (#[trigger] frames(
                s,
                batches,
            ).cursors[i]) is None,
    decreases batches.len(),
{
    let head = batches.drop_last();
    let f = frames(s, head);
    if head.len() > 0 {
        law_without_readers_only_the_last_frame_stays(s, head);
    }
    let g = EventsState { pending: f.pending + batches.last(), ..f };
    assert(frames(s, batches) == after_update(g));
    law_update_forgets_what_was_read(g);
    law_update_keeps_the_readers(g);
    assert(f.pending =~= Seq::<T>::empty());
    assert(g.sync_pending =~= Seq::<T>::empty());
    assert(g.pending + g.sync_pending =~= batches.last());
}

} // verus!
