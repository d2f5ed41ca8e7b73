//! Events that are delivered after a number of ticks.

use vstd::prelude::*;
use crate::component::ahead;
use crate::events::{Events, EventsState};

verus! {

/// An event that waits for its tick. Ticks wrap around. The sequence number tells apart events of
/// one tick.
pub struct DelayedEvent<T> {
    /// The tick of delivery.
    pub deliver_at: u32,
    /// The tick of sending.
    pub sent: u32,
    pub sequence: u64,
    pub event: T,
}

/// Waiting events.
pub struct DelayedQueue<T> {
    /// Waiting events, in the order in which they were sent.
    items: Vec<DelayedEvent<T>>,
    sequence: u64,
}

/// The tick `delay` ticks after `tick`; ticks wrap around.
pub open spec fn tick_after(tick: u32, delay: u32) -> u32 {
    if tick + delay > u32::MAX {
        (tick + delay - 0x1_0000_0000) as u32
    } else {
        (tick + delay) as u32
    }
}

/// Whether an event has still to wait at tick `now`: its tick has not come. Where the ticks wrap
/// around between sending and delivery, they have to do so first.
pub open spec fn waits<T>(e: DelayedEvent<T>, now: u32) -> bool {
    if e.deliver_at >= e.sent {
        now < e.deliver_at
    } else {
        now < e.deliver_at || now >= e.sent
    }
}

/// Whether `a` is delivered before `b`: what was due first comes first, and among one tick what was
/// sent first.
pub open spec fn before<T>(a: DelayedEvent<T>, b: DelayedEvent<T>) -> bool {
    a.deliver_at < b.deliver_at || (a.deliver_at == b.deliver_at && a.sequence < b.sequence)
}

/// Whether `s` is in the order of sending.
pub open spec fn in_sending_order<T>(s: Seq<DelayedEvent<T>>) -> bool {
    forall|i: int, j: int|
        0 <= i < j < s.len() ==> (#[trigger] s[i]).sequence < (#[trigger] s[j]).sequence
}

/// The events with `e` before the first one that was due no earlier.
pub open spec fn placed<T>(d: Seq<DelayedEvent<T>>, e: DelayedEvent<T>) -> Seq<DelayedEvent<T>>
    decreases d.len(),
{
    if d.len() == 0 || d[0].deliver_at >= e.deliver_at {
        seq![e] + d
    } else {
        seq![d[0]] + placed(d.drop_first(), e)
    }
}

/// The events of `s` that are due at tick `now`, in the order of delivery.
pub open spec fn due<T>(s: Seq<DelayedEvent<T>>, now: u32) -> Seq<DelayedEvent<T>>
    decreases s.len(),
{
    if s.len() == 0 {
        s
    } else if waits(s[0], now) {
        due(s.drop_first(), now)
    } else {
        placed(due(s.drop_first(), now), s[0])
    }
}

/// The events of `s` that have still to wait at tick `now`.
pub open spec fn waiting<T>(s: Seq<DelayedEvent<T>>, now: u32) -> Seq<DelayedEvent<T>>
    decreases s.len(),
{
    if s.len() == 0 {
        s
    } else if waits(s[0], now) {
        seq![s[0]] + waiting(s.drop_first(), now)
    } else {
        waiting(s.drop_first(), now)
    }
}

proof fn lemma_prepended<T>(x: DelayedEvent<T>, d: Seq<DelayedEvent<T>>, e: DelayedEvent<T>)
    ensures
        (seq![x] + d).contains(e) <==> e == x || d.contains(e),
{
    let t = seq![x] + d;
    assert(t[0] == x);
    if d.contains(e) {
        let i = choose|i: int| 0 <= i < d.len() && d[i] == e;
        assert(t[i + 1] == e);
    }
    if t.contains(e) && e != x {
        let i = choose|i: int| 0 <= i < t.len() && t[i] == e;
        assert(d[i - 1] == e);
    }
}

proof fn lemma_first<T>(s: Seq<DelayedEvent<T>>, e: DelayedEvent<T>)
    requires
        s.len() > 0,
    ensures
        s.contains(e) <==> e == s[0] || s.drop_first().contains(e),
{
    assert(s =~= seq![s[0]] + s.drop_first());
    lemma_prepended(s[0], s.drop_first(), e);
}

proof fn lemma_placed<T>(d: Seq<DelayedEvent<T>>, e: DelayedEvent<T>, x: DelayedEvent<T>)
    ensures
        placed(d, e).len() == d.len() + 1,
        placed(d, e).contains(x) <==> x == e || d.contains(x),
    decreases d.len(),
{
    if d.len() == 0 || d[0].deliver_at >= e.deliver_at {
        lemma_prepended(e, d, x);
    } else {
        lemma_placed(d.drop_first(), e, x);
        lemma_prepended(d[0], placed(d.drop_first(), e), x);
        lemma_first(d, x);
    }
}

/// Whether `s` is in delivery order.
pub open spec fn in_delivery_order<T>(s: Seq<DelayedEvent<T>>) -> bool {
    forall|i: int, j: int| 0 <= i < j < s.len() ==> before(#[trigger] s[i], #[trigger] s[j])
}

proof fn lemma_placed_in_order<T>(d: Seq<DelayedEvent<T>>, e: DelayedEvent<T>)
    requires
        in_delivery_order(d),
        forall|i: int| 0 <= i < d.len() ==> e.sequence < (#[trigger] d[i]).sequence,
    ensures
        in_delivery_order(placed(d, e)),
    decreases d.len(),
{
    let t = placed(d, e);
    if d.len() == 0 || d[0].deliver_at >= e.deliver_at {
        assert forall|i: int, j: int| 0 <= i < j < t.len() implies before(
            #[trigger] t[i],
            #[trigger] t[j],
        ) by {
            assert(t[j] == d[j - 1]);
            if i > 0 {
                assert(t[i] == d[i - 1]);
            } else if j > 1 {
                assert(before(d[0], d[j - 1]));
            }
        }
    } else {
        let rest = d.drop_first();
        assert forall|i: int| 0 <= i < rest.len() implies e.sequence < (
        #[trigger] rest[i]).sequence by {
            assert(rest[i] == d[i + 1]);
        }
        assert forall|i: int, j: int| 0 <= i < j < rest.len() implies before(
            #[trigger] rest[i],
            #[trigger] rest[j],
        ) by {
            assert(rest[i] == d[i + 1] && rest[j] == d[j + 1]);
        }
        lemma_placed_in_order(rest, e);
        let u = placed(rest, e);
        assert forall|i: int, j: int| 0 <= i < j < t.len() implies before(
            #[trigger] t[i],
            #[trigger] t[j],
        ) by {
            assert(t[j] == u[j - 1]);
            if i > 0 {
                assert(t[i] == u[i - 1]);
            } else {
                lemma_placed(rest, e, u[j - 1]);
                assert(u.contains(u[j - 1]));
                if u[j - 1] != e {
                    let k = choose|k: int| 0 <= k < rest.len() && rest[k] == u[j - 1];
                    assert(before(d[0], d[k + 1]));
                }
            }
        }
    }
}

proof fn lemma_sending_order_tail<T>(s: Seq<DelayedEvent<T>>)
    requires
        in_sending_order(s),
        s.len() > 0,
    ensures
        in_sending_order(s.drop_first()),
        forall|i: int|
            0 <= i < s.drop_first().len() ==> s[0].sequence < (
            #[trigger] s.drop_first()[i]).sequence,
{
    let t = s.drop_first();
    assert forall|i: int, j: int| 0 <= i < j < t.len() implies (#[trigger] t[i]).sequence < (
    #[trigger] t[j]).sequence by {
        assert(t[i] == s[i + 1] && t[j] == s[j + 1]);
    }
    assert forall|i: int| 0 <= i < t.len() implies s[0].sequence < (#[trigger] t[i]).sequence by {
        assert(t[i] == s[i + 1]);
    }
}

/// Exactly the events that need not wait are delivered, each once, and exactly the others stay.
pub proof fn law_due_is_everything_due<T>(s: Seq<DelayedEvent<T>>, now: u32, e: DelayedEvent<T>)
    ensures
        due(s, now).contains(e) <==> s.contains(e) && !waits(e, now),
        waiting(s, now).contains(e) <==> s.contains(e) && waits(e, now),
        due(s, now).len() + waiting(s, now).len() == s.len(),
    decreases s.len(),
{
    if s.len() > 0 {
        let rest = s.drop_first();
        law_due_is_everything_due(rest, now, e);
        lemma_first(s, e);
        lemma_prepended(s[0], waiting(rest, now), e);
        lemma_placed(due(rest, now), s[0], e);
    }
}

/// What was due first is delivered first, and events of one tick come in the order in which they
/// were sent.
pub proof fn law_same_tick_is_first_in_first_out<T>(s: Seq<DelayedEvent<T>>, now: u32)
    requires
        in_sending_order(s),
    ensures
        in_delivery_order(due(s, now)),
    decreases s.len(),
{
    if s.len() > 0 {
        let rest = s.drop_first();
        lemma_sending_order_tail(s);
        law_same_tick_is_first_in_first_out(rest, now);
        if !waits(s[0], now) {
            let d = due(rest, now);
            assert forall|i: int| 0 <= i < d.len() implies s[0].sequence < (
            #[trigger] d[i]).sequence by {
                law_due_is_everything_due(rest, now, d[i]);
                assert(d.contains(d[i]));
                let k = choose|k: int| 0 <= k < rest.len() && rest[k] == d[i];
                assert(s[0].sequence < rest[k].sequence);
            }
            lemma_placed_in_order(d, s[0]);
        }
    }
}

/// Where the ticks do not wrap around between sending and delivery, an event is due at its tick and
/// at every later one.
pub proof fn law_events_are_due_from_their_tick_on<T>(e: DelayedEvent<T>, delay: u32, now: u32)
    requires
        e.sent + delay <= u32::MAX,
        e.deliver_at == tick_after(e.sent, delay),
    ensures
        waits(e, now) <==> now < e.sent + delay,
{
}

/// An event waits through its whole delay, whether or not the ticks wrap around meanwhile, and is
/// due from then on: until the ticks wrap around, or, where they did so before its tick, until they
/// come to the tick of sending again.
pub proof fn law_events_wait_their_delay<T>(e: DelayedEvent<T>, delay: u32, now: u32)
    requires
        e.deliver_at == tick_after(e.sent, delay),
    ensures
        ahead(now, e.sent) < delay ==> waits(e, now),
        ahead(now, e.sent) >= delay && (e.deliver_at < e.sent || e.sent <= now) ==> !waits(e, now),
{
}

/// An event is to be delivered as many ticks after it was sent as it was delayed by, around the
/// wrap.
pub proof fn law_delays_are_counted_in_ticks(tick: u32, delay: u32)
    ensures
        tick_after(tick, delay) as int == (tick + delay) % 0x1_0000_0000,
{
    if tick + delay <= u32::MAX {
        assert((tick + delay) % 0x1_0000_0000 == tick + delay);
    } else {
        assert((tick + delay) % 0x1_0000_0000 == tick + delay - 0x1_0000_0000);
    }
}

/// Events that are delivered come by the tick of their delivery, those of one tick in the order in
/// which they were sent; those that wait stay in the order in which they were sent.
pub proof fn law_delivery_goes_by_tick<T>(s: Seq<DelayedEvent<T>>, now: u32, i: int, j: int)
    requires
        forall|a: int, b: int|
            0 <= a < b < s.len() ==> (#[trigger] s[a]).sequence < (#[trigger] s[b]).sequence,
        0 <= i < j,
    ensures
        j < due(s, now).len() ==> due(s, now)[i].deliver_at <= due(s, now)[j].deliver_at,
        j < due(s, now).len() && due(s, now)[i].deliver_at == due(s, now)[j].deliver_at ==> due(
            s,
            now,
        )[i].sequence < due(s, now)[j].sequence,
        j < waiting(s, now).len() ==> waiting(s, now)[i].sequence < waiting(s, now)[j].sequence,
{
    law_same_tick_is_first_in_first_out(s, now);
    lemma_waiting_in_order(s, now);
    if j < due(s, now).len() {
        assert(before(due(s, now)[i], due(s, now)[j]));
    }
}

proof fn lemma_waiting_in_order<T>(s: Seq<DelayedEvent<T>>, now: u32)
    requires
        in_sending_order(s),
    ensures
        in_sending_order(waiting(s, now)),
    decreases s.len(),
{
    if s.len() > 0 {
        let rest = s.drop_first();
        lemma_sending_order_tail(s);
        lemma_waiting_in_order(rest, now);
        if waits(s[0], now) {
            let w = waiting(rest, now);
            let t = seq![s[0]] + w;
            assert forall|i: int, j: int| 0 <= i < j < t.len() implies (#[trigger] t[i]).sequence
                < (#[trigger] t[j]).sequence by {
                assert(t[j] == w[j - 1]);
                if i > 0 {
                    assert(t[i] == w[i - 1]);
                } else {
                    law_due_is_everything_due(rest, now, w[j - 1]);
                    assert(w.contains(w[j - 1]));
                    let k = choose|k: int| 0 <= k < rest.len() && rest[k] == w[j - 1];
                    assert(s[0].sequence < rest[k].sequence);
                }
            }
        }
    }
}

/// Whether the event has still to wait.
fn has_to_wait<T>(e: &DelayedEvent<T>, now: u32) -> (b: bool)
    ensures
        b == waits(*e, now),
{
    now < e.deliver_at || (e.deliver_at < e.sent && now >= e.sent)
}

/// Puts a due event at its place. `ready` holds the due events, the first to be delivered last.
fn place<T>(ready: &mut Vec<DelayedEvent<T>>, e: DelayedEvent<T>)
    ensures
        final(ready)@.reverse() == placed(old(ready)@.reverse(), e),
{
    let ghost d = ready@.reverse();
    let mut q: usize = ready.len();
    assert(d.subrange(0, d.len() as int) =~= d);
    assert(d.subrange(0, 0) + placed(d, e) =~= placed(d, e));
    while q > 0 && ready[q - 1].deliver_at < e.deliver_at
        invariant
            q <= ready@.len(),
            ready@ == old(ready)@,
            d == ready@.reverse(),
            placed(d, e) == d.subrange(0, ready@.len() - q) + placed(
                d.subrange(ready@.len() - q, d.len() as int),
                e,
            ),
        decreases q,
    {
        proof {
            let i = ready@.len() - q;
            assert(d[i] == ready@[q - 1]);
            let left = d.subrange(i, d.len() as int);
            assert(left[0] == d[i]);
            assert(left.drop_first() =~= d.subrange(i + 1, d.len() as int));
            assert(d.subrange(0, i) + (seq![d[i]] + placed(left.drop_first(), e))
                =~= d.subrange(0, i + 1) + placed(left.drop_first(), e));
        }
        q = q - 1;
    }
    proof {
        let i = ready@.len() - q;
        let left = d.subrange(i, d.len() as int);
        if q > 0 {
            assert(d[i] == ready@[q - 1]);
            assert(left[0] == d[i]);
        }
        assert(placed(left, e) == seq![e] + left);
    }
    ready.insert(q, e);
    proof {
        let i = d.len() - q;
        assert(ready@.reverse() =~= d.subrange(0, i) + (seq![e] + d.subrange(i, d.len() as int)));
    }
}

impl<T> View for DelayedQueue<T> {
    type V = Seq<DelayedEvent<T>>;

    /// The waiting events in the order in which they were sent.
    closed spec fn view(&self) -> Seq<DelayedEvent<T>> {
        self.items@
    }
}

impl<T> DelayedQueue<T> {
    /// Number of the next event.
    pub closed spec fn next_sequence(&self) -> u64 {
        self.sequence
    }

    /// The queue's invariant: events are numbered in the order of sending, and every number was
    /// given out.
    pub open spec fn wf(&self) -> bool {
        &&& in_sending_order(self@)
        &&& forall|i: int|
            0 <= i < self@.len() ==> (#[trigger] self@[i]).sequence < self.next_sequence()
    }

    /// A queue in which nothing waits.
    pub fn new() -> (q: DelayedQueue<T>)
        ensures
            q.wf(),
            q@.len() == 0,
            q.next_sequence() == 0,
    {
        DelayedQueue { items: Vec::new(), sequence: 0 }
    }

    /// Sends `event`, to be delivered `delay` ticks after `current_tick`.
    pub fn send_delayed(&mut self, event: T, delay: u32, current_tick: u32)
        requires
            old(self).wf(),
            old(self).next_sequence() < u64::MAX,
        ensures
            final(self).wf(),
            final(self).next_sequence() == old(self).next_sequence() + 1,
            final(self)@ == old(self)@.push(
                DelayedEvent {
                    deliver_at: tick_after(current_tick, delay),
                    sent: current_tick,
                    sequence: old(self).next_sequence(),
                    event,
                },
            ),
    {
        let deliver_at: u32 = current_tick.wrapping_add(delay);
        let sequence: u64 = self.sequence;
        self.sequence = sequence + 1;
        self.items.push(DelayedEvent { deliver_at, sent: current_tick, sequence, event });
    }

    /// Moves every event that is due at `current_tick` to `target_queue`, in delivery order.
    pub fn flush_delayed(&mut self, current_tick: u32, target_queue: &mut Events<T>)
        requires
            old(self).wf(),
            old(target_queue).wf(),
        ensures
            final(self).wf(),
            final(target_queue).wf(),
            final(self).next_sequence() == old(self).next_sequence(),
            final(self)@ == waiting(old(self)@, current_tick),
            final(target_queue)@ == (EventsState {
                pending: old(target_queue)@.pending + due(old(self)@, current_tick).map_values(
                    |e: DelayedEvent<T>| e.event,
                ),
                ..old(target_queue)@
            }),
    {
        let ghost s = self@;
        let mut kept: Vec<DelayedEvent<T>> = Vec::new();
        let mut ready: Vec<DelayedEvent<T>> = Vec::new();
        proof {
            assert(s.subrange(s.len() as int, s.len() as int) =~= Seq::<DelayedEvent<T>>::empty());
            assert(s.subrange(0, s.len() as int) =~= s);
            assert(kept@.reverse() =~= Seq::<DelayedEvent<T>>::empty());
            assert(ready@.reverse() =~= Seq::<DelayedEvent<T>>::empty());
        }
        while self.items.len() > 0
            invariant
                self.sequence == old(self).sequence,
                self.items@.len() <= s.len(),
                self.items@ == s.subrange(0, self.items@.len() as int),
                kept@.reverse() == waiting(
                    s.subrange(self.items@.len() as int, s.len() as int),
                    current_tick,
                ),
                ready@.reverse() == due(
                    s.subrange(self.items@.len() as int, s.len() as int),
                    current_tick,
                ),
            decreases self.items.len(),
        {
            let ghost n = self.items@.len() as int;
            if let Some(e) = self.items.pop() {
                proof {
                    let t = s.subrange(n - 1, s.len() as int);
                    assert(t[0] == s[n - 1]);
                    assert(e == s[n - 1]);
                    assert(t.drop_first() =~= s.subrange(n, s.len() as int));
                    assert(self.items@ =~= s.subrange(0, n - 1));
                }
                if has_to_wait(&e, current_tick) {
                    let ghost k = kept@;
                    kept.push(e);
                    assert(kept@.reverse() =~= seq![e] + k.reverse());
                } else {
                    place(&mut ready, e);
                }
            }
        }
        assert(s.subrange(0, s.len() as int) =~= s);
        let ghost w = kept@.reverse();
        while kept.len() > 0
            invariant
                self.sequence == old(self).sequence,
                self.items@ + kept@.reverse() == w,
            decreases kept.len(),
        {
            let ghost k = kept@;
            let ghost items = self.items@;
            if let Some(e) = kept.pop() {
                self.items.push(e);
                assert(self.items@ + kept@.reverse() =~= items + k.reverse());
            }
        }
        assert(self.items@ =~= w);
        let ghost d = ready@.reverse();
        let ghost mut n: int = 0;
        proof {
            assert(d.subrange(0, d.len() as int) =~= d);
            assert(old(target_queue)@.pending + d.subrange(0, 0).map_values(
                |e: DelayedEvent<T>| e.event,
            ) =~= old(target_queue)@.pending);
        }
        while ready.len() > 0
            invariant
                0 <= n == d.len() - ready@.len(),
                ready@.reverse() == d.subrange(n, d.len() as int),
                target_queue.wf(),
                target_queue@ == (EventsState {
                    pending: old(target_queue)@.pending + d.subrange(0, n).map_values(
                        |e: DelayedEvent<T>| e.event,
                    ),
                    ..old(target_queue)@
                }),
            decreases ready.len(),
        {
            let ghost r = ready@;
            if let Some(e) = ready.pop() {
                target_queue.send(e.event);
                proof {
                    assert(r.reverse()[0] == e);
                    assert(d[n] == e);
                    n = n + 1;
                    assert(ready@.reverse() =~= r.reverse().drop_first());
                    assert(ready@.reverse() =~= d.subrange(n, d.len() as int));
                    assert(target_queue@.pending =~= old(target_queue)@.pending + d.subrange(
                        0,
                        n,
                    ).map_values(|e: DelayedEvent<T>| e.event));
                }
            }
        }
        proof {
            assert(d.subrange(0, d.len() as int) =~= d);
            lemma_waiting_in_order(s, current_tick);
            assert forall|i: int| 0 <= i < self@.len() implies (#[trigger] self@[i]).sequence
                < self.next_sequence() by {
                law_due_is_everything_due(s, current_tick, self@[i]);
                assert(self@.contains(self@[i]));
                let k = choose|k: int| 0 <= k < s.len() && s[k] == self@[i];
                assert(s[k].sequence < self.next_sequence());
            }
        }
    }

    /// Number of waiting events.
    pub fn len(&self) -> (n: usize)
        ensures
            n == self@.len(),
    {
        self.items.len()
    }

    /// Whether nothing waits.
    pub fn is_empty(&self) -> (b: bool)
        ensures
            b == (self@.len() == 0),
    {
        self.items.len() == 0
    }

    /// Drops every waiting event and starts numbering anew.
    pub fn clear(&mut self)
        ensures
            final(self).wf(),
            final(self)@.len() == 0,
            final(self).next_sequence() == 0,
    {
        self.items = Vec::new();
        self.sequence = 0;
    }

    /// Makes room for `additional` events.
    pub fn reserve(&mut self, additional: usize)
        ensures
            final(self)@ == old(self)@,
            final(self).next_sequence() == old(self).next_sequence(),
            old(self).wf() ==> final(self).wf(),
    {
        self.items.reserve(additional);
    }
}

impl<T> Default for DelayedQueue<T> {
    fn default() -> (q: DelayedQueue<T>)
        ensures
            q.wf(),
            q@.len() == 0,
            q.next_sequence() == 0,
    {
        DelayedQueue::new()
    }
}

} // verus!
