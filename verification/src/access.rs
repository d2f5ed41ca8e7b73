//! Declared access of systems to components, resources and events, and which systems may run at
//! the same time.
//!
//! The rules are those of borrowing: two readers go together, a writer goes with nobody.

use vstd::prelude::*;
use std::collections::HashSet;

verus! {

broadcast use vstd::std_specs::hash::group_hash_axioms;

/// From this many keys on, a set is used to find repetitions.
const DEDUP_SET_THRESHOLD: usize = 8;

/// What a system declares of its access. Types are known by their keys.
pub struct AccessDescriptor {
    pub reads: Vec<u64>,
    pub writes: Vec<u64>,
    /// Event types that are read, with their names.
    pub reads_event: Vec<(u64, &'static str)>,
    /// Event types that are written, with their names.
    pub writes_event: Vec<(u64, &'static str)>,
    /// Whether the system iterates in parallel itself.
    pub uses_par_for_each: bool,
    /// Whether the system needs all entities at once.
    pub needs_whole_world: bool,
    /// Whether the system has state of its own.
    pub stateful: bool,
    /// Whether the system changes a resource.
    pub writes_resource: bool,
    /// Whether the system queues commands.
    pub uses_commands: bool,
    /// Room to reserve in event buffers before the system runs.
    pub event_reserves: Vec<(u64, usize)>,
}

/// The keys with `k` added, unless it is there.
pub open spec fn with_key(s: Seq<u64>, k: u64) -> Seq<u64> {
    if s.contains(k) {
        s
    } else {
        s.push(k)
    }
}

/// The keys with the first `n` of `t` added, each unless it is there.
pub open spec fn with_keys(s: Seq<u64>, t: Seq<u64>, n: nat) -> Seq<u64>
    decreases n,
{
    if n == 0 {
        s
    } else {
        with_key(with_keys(s, t, (n - 1) as nat), t[n - 1])
    }
}

/// The keys of named events.
pub open spec fn event_keys(s: Seq<(u64, &'static str)>) -> Seq<u64> {
    s.map_values(|e: (u64, &'static str)| e.0)
}

/// The events with `e` added, unless its key is there.
pub open spec fn with_event(s: Seq<(u64, &'static str)>, e: (u64, &'static str)) -> Seq<
    (u64, &'static str),
> {
    if event_keys(s).contains(e.0) {
        s
    } else {
        s.push(e)
    }
}

/// The events with the first `n` of `t` added, each unless its key is there.
pub open spec fn with_events(
    s: Seq<(u64, &'static str)>,
    t: Seq<(u64, &'static str)>,
    n: nat,
) -> Seq<(u64, &'static str)>
    decreases n,
{
    if n == 0 {
        s
    } else {
        with_event(with_events(s, t, (n - 1) as nat), t[n - 1])
    }
}

/// Place of the first reservation for a key, from `from` on; the number of reservations where
/// there is none.
pub open spec fn reserve_place(s: Seq<(u64, usize)>, key: u64, from: nat) -> nat
    decreases s.len() - from,
{
    if from >= s.len() {
        s.len()
    } else if s[from as int].0 == key {
        from
    } else {
        reserve_place(s, key, from + 1)
    }
}

/// The reservations with one more: the larger one counts where there is one for the key.
pub open spec fn with_reserve(s: Seq<(u64, usize)>, r: (u64, usize)) -> Seq<(u64, usize)> {
    let i = reserve_place(s, r.0, 0);
    if i < s.len() {
        s.update(
            i as int,
            (
                s[i as int].0,
                if s[i as int].1 >= r.1 {
                    s[i as int].1
                } else {
                    r.1
                },
            ),
        )
    } else {
        s.push(r)
    }
}

/// The reservations with the first `n` of `t` added.
pub open spec fn with_reserves(s: Seq<(u64, usize)>, t: Seq<(u64, usize)>, n: nat) -> Seq<
    (u64, usize),
>
    decreases n,
{
    if n == 0 {
        s
    } else {
        with_reserve(with_reserves(s, t, (n - 1) as nat), t[n - 1])
    }
}

/// Whether two key lists share a key.
pub open spec fn share(a: Seq<u64>, b: Seq<u64>) -> bool {
    exists|i: int| 0 <= i < a.len() && b.contains(#[trigger] a[i])
}

/// Whether a writer meets a reader or writer.
pub open spec fn conflict(
    reads: Seq<u64>,
    writes: Seq<u64>,
    other_reads: Seq<u64>,
    other_writes: Seq<u64>,
) -> bool {
    share(writes, other_reads) || share(writes, other_writes) || share(other_writes, reads) || share(
        other_writes,
        writes,
    )
}

/// Whether two descriptors conflict: by their components and resources, or by their events.
pub open spec fn descriptors_conflict(a: AccessDescriptor, b: AccessDescriptor) -> bool {
    conflict(a.reads@, a.writes@, b.reads@, b.writes@) || conflict(
        event_keys(a.reads_event@),
        event_keys(a.writes_event@),
        event_keys(b.reads_event@),
        event_keys(b.writes_event@),
    )
}

/// What `merged` holds is the access of both `a` and `b`.
pub open spec fn is_merged(
    a: AccessDescriptor,
    b: AccessDescriptor,
    merged: AccessDescriptor,
) -> bool {
    &&& merged.reads@ == with_keys(a.reads@, b.reads@, b.reads@.len())
    &&& merged.writes@ == with_keys(a.writes@, b.writes@, b.writes@.len())
    &&& merged.reads_event@ == with_events(a.reads_event@, b.reads_event@, b.reads_event@.len())
    &&& merged.writes_event@ == with_events(a.writes_event@, b.writes_event@, b.writes_event@.len())
    &&& merged.uses_par_for_each == (a.uses_par_for_each || b.uses_par_for_each)
    &&& merged.needs_whole_world == (a.needs_whole_world || b.needs_whole_world)
    &&& merged.stateful == (a.stateful || b.stateful)
    &&& merged.writes_resource == (a.writes_resource || b.writes_resource)
    &&& merged.uses_commands == (a.uses_commands || b.uses_commands)
    &&& merged.event_reserves@ == with_reserves(
        a.event_reserves@,
        b.event_reserves@,
        b.event_reserves@.len(),
    )
}

impl Clone for AccessDescriptor {
    fn clone(&self) -> (d: AccessDescriptor)
        ensures
            d.reads@ == self.reads@,
            d.writes@ == self.writes@,
            d.reads_event@ == self.reads_event@,
            d.writes_event@ == self.writes_event@,
            d.uses_par_for_each == self.uses_par_for_each,
            d.needs_whole_world == self.needs_whole_world,
            d.stateful == self.stateful,
            d.writes_resource == self.writes_resource,
            d.uses_commands == self.uses_commands,
            d.event_reserves@ == self.event_reserves@,
    {
        AccessDescriptor {
            reads: copied_keys(self.reads.as_slice()),
            writes: copied_keys(self.writes.as_slice()),
            reads_event: copied_events(self.reads_event.as_slice()),
            writes_event: copied_events(self.writes_event.as_slice()),
            uses_par_for_each: self.uses_par_for_each,
            needs_whole_world: self.needs_whole_world,
            stateful: self.stateful,
            writes_resource: self.writes_resource,
            uses_commands: self.uses_commands,
            event_reserves: copied_reserves(self.event_reserves.as_slice()),
        }
    }
}

impl AccessDescriptor {
    /// No access.
    pub fn new() -> (d: AccessDescriptor)
        ensures
            d.reads@.len() == 0,
            d.writes@.len() == 0,
            d.reads_event@.len() == 0,
            d.writes_event@.len() == 0,
            d.event_reserves@.len() == 0,
            !d.uses_par_for_each,
            !d.needs_whole_world,
            !d.stateful,
            !d.writes_resource,
            !d.uses_commands,
    {
        AccessDescriptor {
            reads: Vec::new(),
            writes: Vec::new(),
            reads_event: Vec::new(),
            writes_event: Vec::new(),
            uses_par_for_each: false,
            needs_whole_world: false,
            stateful: false,
            writes_resource: false,
            uses_commands: false,
            event_reserves: Vec::new(),
        }
    }

    /// Adds reading of a type.
    pub fn read(self, key: u64) -> (d: AccessDescriptor)
        ensures
            d.reads@ == with_key(self.reads@, key),
            d == (AccessDescriptor { reads: d.reads, ..self }),
    {
        let mut d = self;
        push_new(&mut d.reads, key);
        d
    }

    /// Adds writing of a type.
    pub fn write(self, key: u64) -> (d: AccessDescriptor)
        ensures
            d.writes@ == with_key(self.writes@, key),
            d == (AccessDescriptor { writes: d.writes, ..self }),
    {
        let mut d = self;
        push_new(&mut d.writes, key);
        d
    }

    /// Adds reading of an event type.
    pub fn read_event(self, key: u64, name: &'static str) -> (d: AccessDescriptor)
        ensures
            d.reads_event@ == with_event(self.reads_event@, (key, name)),
            d == (AccessDescriptor { reads_event: d.reads_event, ..self }),
    {
        let mut d = self;
        push_new_event(&mut d.reads_event, (key, name));
        d
    }

    /// Adds writing of an event type.
    pub fn write_event(self, key: u64, name: &'static str) -> (d: AccessDescriptor)
        ensures
            d.writes_event@ == with_event(self.writes_event@, (key, name)),
            d == (AccessDescriptor { writes_event: d.writes_event, ..self }),
    {
        let mut d = self;
        push_new_event(&mut d.writes_event, (key, name));
        d
    }

    /// Marks that the system iterates in parallel itself.
    pub fn par_for_each_used(self) -> (d: AccessDescriptor)
        ensures
            d == (AccessDescriptor { uses_par_for_each: true, ..self }),
    {
        let mut d = self;
        d.uses_par_for_each = true;
        d
    }

    /// Marks that the system needs all entities at once.
    pub fn whole_world(self) -> (d: AccessDescriptor)
        ensures
            d == (AccessDescriptor { needs_whole_world: true, ..self }),
    {
        let mut d = self;
        d.needs_whole_world = true;
        d
    }

    /// Marks that the system changes a resource.
    pub fn resource_write(self) -> (d: AccessDescriptor)
        ensures
            d == (AccessDescriptor { writes_resource: true, ..self }),
    {
        let mut d = self;
        d.writes_resource = true;
        d
    }

    /// Marks that the system queues commands.
    pub fn commands_used(self) -> (d: AccessDescriptor)
        ensures
            d == (AccessDescriptor { uses_commands: true, ..self }),
    {
        let mut d = self;
        d.uses_commands = true;
        d
    }

    /// Adds a reservation of room in an event buffer.
    pub fn event_reserve(self, key: u64, capacity: usize) -> (d: AccessDescriptor)
        ensures
            d.event_reserves@ == self.event_reserves@.push((key, capacity)),
            d == (AccessDescriptor { event_reserves: d.event_reserves, ..self }),
    {
        let mut d = self;
        d.event_reserves.push((key, capacity));
        d
    }

    /// The access of both.
    pub fn merge(self, other: &AccessDescriptor) -> (d: AccessDescriptor)
        ensures
            is_merged(self, *other, d),
    {
        let mut d = self;
        dedup_push(&mut d.reads, other.reads.as_slice());
        dedup_push(&mut d.writes, other.writes.as_slice());
        dedup_push_event(&mut d.reads_event, other.reads_event.as_slice());
        dedup_push_event(&mut d.writes_event, other.writes_event.as_slice());
        d.uses_par_for_each = d.uses_par_for_each || other.uses_par_for_each;
        d.needs_whole_world = d.needs_whole_world || other.needs_whole_world;
        d.stateful = d.stateful || other.stateful;
        d.writes_resource = d.writes_resource || other.writes_resource;
        d.uses_commands = d.uses_commands || other.uses_commands;
        merge_reserves(&mut d.event_reserves, other.event_reserves.as_slice());
        d
    }

    /// Whether the two must not run at the same time.
    pub fn conflicts_with(&self, other: &AccessDescriptor) -> (b: bool)
        ensures
            b == descriptors_conflict(*self, *other),
    {
        shares(self.writes.as_slice(), other.reads.as_slice()) || shares(
            self.writes.as_slice(),
            other.writes.as_slice(),
        ) || shares(other.writes.as_slice(), self.reads.as_slice()) || shares(
            other.writes.as_slice(),
            self.writes.as_slice(),
        ) || shares_event(self.writes_event.as_slice(), other.reads_event.as_slice())
            || shares_event(self.writes_event.as_slice(), other.writes_event.as_slice())
            || shares_event(other.writes_event.as_slice(), self.reads_event.as_slice())
            || shares_event(other.writes_event.as_slice(), self.writes_event.as_slice())
    }

    /// Whether no component and no event is accessed.
    pub fn is_empty(&self) -> (b: bool)
        ensures
            b == (self.reads@.len() == 0 && self.writes@.len() == 0 && self.reads_event@.len() == 0
                && self.writes_event@.len() == 0),
    {
        self.reads.len() == 0 && self.writes.len() == 0 && self.reads_event.len() == 0
            && self.writes_event.len() == 0
    }
}

impl Default for AccessDescriptor {
    fn default() -> (d: AccessDescriptor)
        ensures
            d.reads@.len() == 0,
            d.writes@.len() == 0,
            d.reads_event@.len() == 0,
            d.writes_event@.len() == 0,
            d.event_reserves@.len() == 0,
            !d.uses_par_for_each,
            !d.needs_whole_world,
            !d.stateful,
            !d.writes_resource,
            !d.uses_commands,
    {
        AccessDescriptor::new()
    }
}

/// Whether a key is among `items`.
fn holds(items: &[u64], key: u64) -> (b: bool)
    ensures
        b == items@.contains(key),
{
    let mut i: usize = 0;
    while i < items.len()
        invariant
            i <= items@.len(),
            forall|k: int| 0 <= k < i ==> items@[k] != key,
        decreases items.len() - i,
    {
        if items[i] == key {
            assert(items@[i as int] == key);
            return true;
        }
        i = i + 1;
    }
    false
}

/// Whether an event with the key is among `items`.
fn holds_event(items: &[(u64, &'static str)], key: u64) -> (b: bool)
    ensures
        b == event_keys(items@).contains(key),
{
    let ghost keys = event_keys(items@);
    let mut i: usize = 0;
    while i < items.len()
        invariant
            i <= items@.len(),
            keys == event_keys(items@),
            forall|k: int| 0 <= k < i ==> keys[k] != key,
        decreases items.len() - i,
    {
        if items[i].0 == key {
            assert(keys[i as int] == key);
            return true;
        }
        i = i + 1;
    }
    false
}

fn push_new(items: &mut Vec<u64>, key: u64)
    ensures
        final(items)@ == with_key(old(items)@, key),
{
    if !holds(items.as_slice(), key) {
        items.push(key);
    }
}

fn push_new_event(items: &mut Vec<(u64, &'static str)>, e: (u64, &'static str))
    ensures
        final(items)@ == with_event(old(items)@, e),
{
    if !holds_event(items.as_slice(), e.0) {
        items.push(e);
    }
}

/// Whether a key of `a` is among `b`.
fn shares(a: &[u64], b: &[u64]) -> (r: bool)
    ensures
        r == share(a@, b@),
{
    let mut i: usize = 0;
    while i < a.len()
        invariant
            i <= a@.len(),
            forall|k: int| 0 <= k < i ==> !b@.contains(#[trigger] a@[k]),
        decreases a.len() - i,
    {
        if holds(b, a[i]) {
            assert(b@.contains(a@[i as int]));
            return true;
        }
        i = i + 1;
    }
    false
}

/// Whether the key of an event of `a` is among those of `b`.
fn shares_event(a: &[(u64, &'static str)], b: &[(u64, &'static str)]) -> (r: bool)
    ensures
        r == share(event_keys(a@), event_keys(b@)),
{
    let ghost keys = event_keys(a@);
    let mut i: usize = 0;
    while i < a.len()
        invariant
            i <= a@.len(),
            keys == event_keys(a@),
            forall|k: int| 0 <= k < i ==> !event_keys(b@).contains(#[trigger] keys[k]),
        decreases a.len() - i,
    {
        if holds_event(b, a[i].0) {
            assert(event_keys(b@).contains(keys[i as int]));
            return true;
        }
        i = i + 1;
    }
    false
}

fn copied_keys(items: &[u64]) -> (v: Vec<u64>)
    ensures
        v@ == items@,
{
    let mut v: Vec<u64> = Vec::new();
    let mut i: usize = 0;
    while i < items.len()
        invariant
            i <= items@.len(),
            v@ == items@.subrange(0, i as int),
        decreases items.len() - i,
    {
        v.push(items[i]);
        i = i + 1;
        assert(items@.subrange(0, i as int) =~= items@.subrange(0, i - 1).push(items@[i - 1]));
    }
    assert(items@.subrange(0, items@.len() as int) =~= items@);
    v
}

fn copied_events(items: &[(u64, &'static str)]) -> (v: Vec<(u64, &'static str)>)
    ensures
        v@ == items@,
{
    let mut v: Vec<(u64, &'static str)> = Vec::new();
    let mut i: usize = 0;
    while i < items.len()
        invariant
            i <= items@.len(),
            v@ == items@.subrange(0, i as int),
        decreases items.len() - i,
    {
        v.push(items[i]);
        i = i + 1;
        assert(items@.subrange(0, i as int) =~= items@.subrange(0, i - 1).push(items@[i - 1]));
    }
    assert(items@.subrange(0, items@.len() as int) =~= items@);
    v
}

fn copied_reserves(items: &[(u64, usize)]) -> (v: Vec<(u64, usize)>)
    ensures
        v@ == items@,
{
    let mut v: Vec<(u64, usize)> = Vec::new();
    let mut i: usize = 0;
    while i < items.len()
        invariant
            i <= items@.len(),
            v@ == items@.subrange(0, i as int),
        decreases items.len() - i,
    {
        v.push(items[i]);
        i = i + 1;
        assert(items@.subrange(0, i as int) =~= items@.subrange(0, i - 1).push(items@[i - 1]));
    }
    assert(items@.subrange(0, items@.len() as int) =~= items@);
    v
}

/// Appends the items that are not there yet: a few by looking through the list, many with a set.
fn dedup_push(vec: &mut Vec<u64>, items: &[u64])
    ensures
        final(vec)@ == with_keys(old(vec)@, items@, items@.len()),
{
    let small: bool = vec.len() < DEDUP_SET_THRESHOLD && items.len() < DEDUP_SET_THRESHOLD
        && vec.len() + items.len() < DEDUP_SET_THRESHOLD;
    if small {
        let mut i: usize = 0;
        while i < items.len()
            invariant
                i <= items@.len(),
                vec@ == with_keys(old(vec)@, items@, i as nat),
            decreases items.len() - i,
        {
            push_new(vec, items[i]);
            i = i + 1;
        }
        return ;
    }
    let mut set: HashSet<u64> = HashSet::new();
    let mut k: usize = 0;
    while k < vec.len()
        invariant
            k <= vec@.len(),
            vec@ == old(vec)@,
            forall|x: u64| #[trigger] set@.contains(x) <==> vec@.subrange(0, k as int).contains(x),
        decreases vec.len() - k,
    {
        let x: u64 = vec[k];
        let ghost before = set@;
        let fresh: bool = set.insert(x);
        k = k + 1;
        proof {
            let head = vec@.subrange(0, k - 1);
            let tail = vec@.subrange(0, k as int);
            assert(tail =~= head.push(x));
            assert forall|y: u64| #[trigger] set@.contains(y) <==> tail.contains(y) by {
                lemma_push_contains(head, x, y);
            }
        }
    }
    assert(vec@.subrange(0, vec@.len() as int) =~= vec@);
    let mut i: usize = 0;
    while i < items.len()
        invariant
            i <= items@.len(),
            vec@ == with_keys(old(vec)@, items@, i as nat),
            forall|x: u64| #[trigger] set@.contains(x) <==> vec@.contains(x),
        decreases items.len() - i,
    {
        let x: u64 = items[i];
        let ghost before = vec@;
        if set.insert(x) {
            vec.push(x);
            proof {
                assert forall|y: u64| #[trigger] set@.contains(y) <==> vec@.contains(y) by {
                    lemma_push_contains(before, x, y);
                }
            }
        }
        i = i + 1;
    }
}

/// Appends the events whose keys are not there yet.
fn dedup_push_event(vec: &mut Vec<(u64, &'static str)>, items: &[(u64, &'static str)])
    ensures
        final(vec)@ == with_events(old(vec)@, items@, items@.len()),
{
    let small: bool = vec.len() < DEDUP_SET_THRESHOLD && items.len() < DEDUP_SET_THRESHOLD
        && vec.len() + items.len() < DEDUP_SET_THRESHOLD;
    if small {
        let mut i: usize = 0;
        while i < items.len()
            invariant
                i <= items@.len(),
                vec@ == with_events(old(vec)@, items@, i as nat),
            decreases items.len() - i,
        {
            push_new_event(vec, items[i]);
            i = i + 1;
        }
        return ;
    }
    let mut set: HashSet<u64> = HashSet::new();
    let mut k: usize = 0;
    while k < vec.len()
        invariant
            k <= vec@.len(),
            vec@ == old(vec)@,
            forall|x: u64| #[trigger]
                set@.contains(x) <==> event_keys(vec@).subrange(0, k as int).contains(x),
        decreases vec.len() - k,
    {
        let x: u64 = vec[k].0;
        let fresh: bool = set.insert(x);
        k = k + 1;
        proof {
            let head = event_keys(vec@).subrange(0, k - 1);
            let tail = event_keys(vec@).subrange(0, k as int);
            assert(tail =~= head.push(x));
            assert forall|y: u64| #[trigger] set@.contains(y) <==> tail.contains(y) by {
                lemma_push_contains(head, x, y);
            }
        }
    }
    assert(event_keys(vec@).subrange(0, vec@.len() as int) =~= event_keys(vec@));
    let mut i: usize = 0;
    while i < items.len()
        invariant
            i <= items@.len(),
            vec@ == with_events(old(vec)@, items@, i as nat),
            forall|x: u64| #[trigger] set@.contains(x) <==> event_keys(vec@).contains(x),
        decreases items.len() - i,
    {
        let e: (u64, &'static str) = items[i];
        let ghost before = vec@;
        if set.insert(e.0) {
            vec.push(e);
            proof {
                assert(event_keys(vec@) =~= event_keys(before).push(e.0));
                assert forall|y: u64| #[trigger]
                    set@.contains(y) <==> event_keys(vec@).contains(y) by {
                    lemma_push_contains(event_keys(before), e.0, y);
                }
            }
        }
        i = i + 1;
    }
}

fn merge_reserves(vec: &mut Vec<(u64, usize)>, items: &[(u64, usize)])
    ensures
        final(vec)@ == with_reserves(old(vec)@, items@, items@.len()),
{
    let mut i: usize = 0;
    while i < items.len()
        invariant
            i <= items@.len(),
            vec@ == with_reserves(old(vec)@, items@, i as nat),
        decreases items.len() - i,
    {
        let r: (u64, usize) = items[i];
        let mut k: usize = 0;
        while k < vec.len() && vec[k].0 != r.0
            invariant
                k <= vec@.len(),
                reserve_place(vec@, r.0, 0) == reserve_place(vec@, r.0, k as nat),
            decreases vec.len() - k,
        {
            k = k + 1;
        }
        if k < vec.len() {
            let old_cap: usize = vec[k].1;
            if old_cap < r.1 {
                let key: u64 = vec[k].0;
                vec.set(k, (key, r.1));
            } else {
                assert(vec@.update(k as int, (vec@[k as int].0, old_cap)) =~= vec@);
            }
        } else {
            vec.push(r);
        }
        i = i + 1;
    }
}

proof fn lemma_push_contains(s: Seq<u64>, x: u64, y: u64)
    ensures
        s.push(x).contains(y) <==> s.contains(y) || y == x,
{
    if s.contains(y) {
        let i = choose|i: int| 0 <= i < s.len() && s[i] == y;
        assert(s.push(x)[i] == y);
    }
    if y == x {
        assert(s.push(x)[s.len() as int] == y);
    }
}

/// Merged keys are the keys of both, and none is repeated that was not before.
pub proof fn law_merge_is_union(s: Seq<u64>, t: Seq<u64>, n: nat, k: u64)
    requires
        n <= t.len(),
    ensures
        with_keys(s, t, n).contains(k) <==> s.contains(k) || t.subrange(0, n as int).contains(k),
        s.no_duplicates() ==> with_keys(s, t, n).no_duplicates(),
        s.len() <= with_keys(s, t, n).len(),
        with_keys(s, t, n).subrange(0, s.len() as int) == s,
    decreases n,
{
    if n == 0 {
        assert(t.subrange(0, 0) =~= Seq::<u64>::empty());
        assert(s.subrange(0, s.len() as int) =~= s);
    } else {
        let n1 = (n - 1) as nat;
        law_merge_is_union(s, t, n1, k);
        let m = with_keys(s, t, n1);
        let u = with_keys(s, t, n);
        assert(t.subrange(0, n as int) =~= t.subrange(0, n1 as int).push(t[n - 1]));
        lemma_push_contains(t.subrange(0, n1 as int), t[n - 1], k);
        lemma_push_contains(m, t[n - 1], k);
        if s.no_duplicates() && !m.contains(t[n - 1]) {
            assert forall|i: int, j: int|
                0 <= i < u.len() && 0 <= j < u.len() && i != j implies u[i] != u[j] by {
                if i < m.len() && j < m.len() {
                    assert(m[i] != m[j]);
                } else if i < m.len() {
                    assert(m.contains(m[i]));
                } else {
                    assert(m.contains(m[j]));
                }
            }
        }
        assert(u.subrange(0, s.len() as int) =~= s) by {
            assert forall|i: int| 0 <= i < s.len() implies u[i] == s[i] by {
                assert(m.subrange(0, s.len() as int)[i] == s[i]);
            }
        }
    }
}

/// Merging what is there already changes nothing.
pub proof fn law_merge_is_idempotent(s: Seq<u64>, t: Seq<u64>, n: nat)
    requires
        n <= t.len(),
        forall|i: int| 0 <= i < t.len() ==> s.contains(#[trigger] t[i]),
    ensures
        with_keys(s, t, n) == s,
    decreases n,
{
    if n > 0 {
        law_merge_is_idempotent(s, t, (n - 1) as nat);
        assert(s.contains(t[n - 1]));
    }
}

proof fn lemma_share_symmetric(a: Seq<u64>, b: Seq<u64>)
    ensures
        share(a, b) ==> share(b, a),
{
    if share(a, b) {
        let i = choose|i: int| 0 <= i < a.len() && b.contains(#[trigger] a[i]);
        let j = choose|j: int| 0 <= j < b.len() && b[j] == a[i];
        assert(a.contains(b[j]));
    }
}

proof fn lemma_conflict_symmetric(
    reads: Seq<u64>,
    writes: Seq<u64>,
    other_reads: Seq<u64>,
    other_writes: Seq<u64>,
)
    ensures
        conflict(reads, writes, other_reads, other_writes) == conflict(
            other_reads,
            other_writes,
            reads,
            writes,
        ),
{
    lemma_share_symmetric(writes, other_writes);
    lemma_share_symmetric(other_writes, writes);
}

/// Conflicts are mutual.
pub proof fn law_conflicts_are_mutual(a: AccessDescriptor, b: AccessDescriptor)
    ensures
        descriptors_conflict(a, b) == descriptors_conflict(b, a),
{
    lemma_conflict_symmetric(a.reads@, a.writes@, b.reads@, b.writes@);
    lemma_conflict_symmetric(
        event_keys(a.reads_event@),
        event_keys(a.writes_event@),
        event_keys(b.reads_event@),
        event_keys(b.writes_event@),
    );
}

/// Readers never conflict, whether of components or of events.
pub proof fn law_readers_go_together(a: AccessDescriptor, b: AccessDescriptor)
    requires
        a.writes@.len() == 0,
        a.writes_event@.len() == 0,
        b.writes@.len() == 0,
        b.writes_event@.len() == 0,
    ensures
        !descriptors_conflict(a, b),
{
}

/// A writer of a component, resource or event conflicts with everything that reads or writes it.
pub proof fn law_writers_go_alone(a: AccessDescriptor, b: AccessDescriptor, key: u64)
    requires
        ({
            ||| a.writes@.contains(key) && (b.reads@.contains(key) || b.writes@.contains(key))
            ||| event_keys(a.writes_event@).contains(key) && (event_keys(b.reads_event@).contains(
                key,
            ) || event_keys(b.writes_event@).contains(key))
        }),
    ensures
        descriptors_conflict(a, b),
        descriptors_conflict(b, a),
{
    let w = if a.writes@.contains(key) && (b.reads@.contains(key) || b.writes@.contains(key)) {
        a.writes@
    } else {
        event_keys(a.writes_event@)
    };
    let i = choose|i: int| 0 <= i < w.len() && w[i] == key;
    assert(b.reads@.contains(w[i]) || b.writes@.contains(w[i]) || event_keys(
        b.reads_event@,
    ).contains(w[i]) || event_keys(b.writes_event@).contains(w[i]));
    law_conflicts_are_mutual(a, b);
}

/// Systems that share nothing do not conflict: where what either writes is neither read nor
/// written by the other, among components and resources as among events, they may run together.
pub proof fn law_disjoint_access_goes_together(a: AccessDescriptor, b: AccessDescriptor)
    requires
        forall|k: u64| #[trigger]
            a.writes@.contains(k) ==> !b.reads@.contains(k) && !b.writes@.contains(k),
        forall|k: u64| #[trigger]
            b.writes@.contains(k) ==> !a.reads@.contains(k) && !a.writes@.contains(k),
        forall|i: int, j: int|
            0 <= i < a.writes_event@.len() && 0 <= j < b.reads_event@.len()
                ==> #[trigger] a.writes_event@[i].0 != #[trigger] b.reads_event@[j].0,
        forall|i: int, j: int|
            0 <= i < a.writes_event@.len() && 0 <= j < b.writes_event@.len()
                ==> #[trigger] a.writes_event@[i].0 != #[trigger] b.writes_event@[j].0,
        forall|i: int, j: int|
            0 <= i < b.writes_event@.len() && 0 <= j < a.reads_event@.len()
                ==> #[trigger] b.writes_event@[i].0 != #[trigger] a.reads_event@[j].0,
    ensures
        !descriptors_conflict(a, b),
        !descriptors_conflict(b, a),
{
    law_conflicts_are_mutual(a, b);
    assert forall|i: int| 0 <= i < a.writes@.len() implies !b.reads@.contains(#[trigger] a.writes@[i])
        && !b.writes@.contains(a.writes@[i]) by {
        assert(a.writes@.contains(a.writes@[i]));
    }
    assert forall|i: int| 0 <= i < b.writes@.len() implies !a.reads@.contains(#[trigger] b.writes@[i])
        && !a.writes@.contains(b.writes@[i]) by {
        assert(b.writes@.contains(b.writes@[i]));
    }
    let aw = event_keys(a.writes_event@);
    let bw = event_keys(b.writes_event@);
    let ar = event_keys(a.reads_event@);
    let br = event_keys(b.reads_event@);
    assert forall|i: int| 0 <= i < aw.len() implies !br.contains(#[trigger] aw[i]) && !bw.contains(
        aw[i],
    ) by {
        assert(aw[i] == a.writes_event@[i].0);
        if br.contains(aw[i]) {
            let j = choose|j: int| 0 <= j < br.len() && br[j] == aw[i];
            assert(b.reads_event@[j].0 == a.writes_event@[i].0);
        }
        if bw.contains(aw[i]) {
            let j = choose|j: int| 0 <= j < bw.len() && bw[j] == aw[i];
            assert(b.writes_event@[j].0 == a.writes_event@[i].0);
        }
    }
    assert forall|i: int| 0 <= i < bw.len() implies !ar.contains(#[trigger] bw[i]) && !aw.contains(
        bw[i],
    ) by {
        assert(bw[i] == b.writes_event@[i].0);
        if ar.contains(bw[i]) {
            let j = choose|j: int| 0 <= j < ar.len() && ar[j] == bw[i];
            assert(a.reads_event@[j].0 == b.writes_event@[i].0);
        }
        if aw.contains(bw[i]) {
            let j = choose|j: int| 0 <= j < aw.len() && aw[j] == bw[i];
            assert(a.writes_event@[j].0 == b.writes_event@[i].0);
        }
    }
}

/// A conflict has a reason: some component, resource or event is written by one and read or
/// written by the other. And where there is such a reason, there is a conflict.
pub proof fn law_conflicts_have_a_reason(a: AccessDescriptor, b: AccessDescriptor)
    ensures
        descriptors_conflict(a, b) <==> {
            ||| exists|i: int, j: int|
                0 <= i < a.writes@.len() && 0 <= j < b.reads@.len() && #[trigger] a.writes@[i]
                    == #[trigger] b.reads@[j]
            ||| exists|i: int, j: int|
                0 <= i < a.writes@.len() && 0 <= j < b.writes@.len() && #[trigger] a.writes@[i]
                    == #[trigger] b.writes@[j]
            ||| exists|i: int, j: int|
                0 <= i < b.writes@.len() && 0 <= j < a.reads@.len() && #[trigger] b.writes@[i]
                    == #[trigger] a.reads@[j]
            ||| exists|i: int, j: int|
                0 <= i < a.writes_event@.len() && 0 <= j < b.reads_event@.len()
                    && #[trigger] a.writes_event@[i].0 == #[trigger] b.reads_event@[j].0
            ||| exists|i: int, j: int|
                0 <= i < a.writes_event@.len() && 0 <= j < b.writes_event@.len()
                    && #[trigger] a.writes_event@[i].0 == #[trigger] b.writes_event@[j].0
            ||| exists|i: int, j: int|
                0 <= i < b.writes_event@.len() && 0 <= j < a.reads_event@.len()
                    && #[trigger] b.writes_event@[i].0 == #[trigger] a.reads_event@[j].0
        },
{
    lemma_share(a.writes@, b.reads@);
    lemma_share(a.writes@, b.writes@);
    lemma_share(b.writes@, a.reads@);
    lemma_share_symmetric(b.writes@, a.writes@);
    lemma_share_symmetric(a.writes@, b.writes@);
    let aw = event_keys(a.writes_event@);
    let bw = event_keys(b.writes_event@);
    let ar = event_keys(a.reads_event@);
    let br = event_keys(b.reads_event@);
    lemma_share_events(a.writes_event@, b.reads_event@);
    lemma_share_events(a.writes_event@, b.writes_event@);
    lemma_share_events(b.writes_event@, a.reads_event@);
    lemma_share_symmetric(bw, aw);
    lemma_share_symmetric(aw, bw);
}

proof fn lemma_share(a: Seq<u64>, b: Seq<u64>)
    ensures
        share(a, b) <==> exists|i: int, j: int|
            0 <= i < a.len() && 0 <= j < b.len() && #[trigger] a[i] == #[trigger] b[j],
{
    if share(a, b) {
        let i = choose|i: int| 0 <= i < a.len() && b.contains(#[trigger] a[i]);
        let j = choose|j: int| 0 <= j < b.len() && b[j] == a[i];
        assert(a[i] == b[j]);
    }
}

proof fn lemma_share_events(a: Seq<(u64, &'static str)>, b: Seq<(u64, &'static str)>)
    ensures
        share(event_keys(a), event_keys(b)) <==> exists|i: int, j: int|
            0 <= i < a.len() && 0 <= j < b.len() && #[trigger] a[i].0 == #[trigger] b[j].0,
{
    let x = event_keys(a);
    let y = event_keys(b);
    lemma_share(x, y);
    if share(x, y) {
        let (i, j) = choose|i: int, j: int|
            0 <= i < x.len() && 0 <= j < y.len() && #[trigger] x[i] == #[trigger] y[j];
        assert(a[i].0 == b[j].0);
    }
    if (exists|i: int, j: int|
        0 <= i < a.len() && 0 <= j < b.len() && #[trigger] a[i].0 == #[trigger] b[j].0) {
        let (i, j) = choose|i: int, j: int|
            0 <= i < a.len() && 0 <= j < b.len() && #[trigger] a[i].0 == #[trigger] b[j].0;
        assert(x[i] == y[j]);
    }
}

/// The keys of merged events are the merged keys.
proof fn lemma_event_keys_merged(s: Seq<(u64, &'static str)>, t: Seq<(u64, &'static str)>, n: nat)
    requires
        n <= t.len(),
    ensures
        event_keys(with_events(s, t, n)) == with_keys(event_keys(s), event_keys(t), n),
    decreases n,
{
    if n > 0 {
        lemma_event_keys_merged(s, t, (n - 1) as nat);
        let m = with_events(s, t, (n - 1) as nat);
        assert(event_keys(m.push(t[n - 1])) =~= event_keys(m).push(t[n - 1].0));
        assert(event_keys(t)[n - 1] == t[n - 1].0);
    }
}

proof fn lemma_share_merged(a: Seq<u64>, b: Seq<u64>, c: Seq<u64>)
    ensures
        share(a, with_keys(b, c, c.len())) <==> share(a, b) || share(a, c),
{
    let m = with_keys(b, c, c.len());
    assert(c.subrange(0, c.len() as int) =~= c);
    if share(a, m) {
        let i = choose|i: int| 0 <= i < a.len() && m.contains(#[trigger] a[i]);
        law_merge_is_union(b, c, c.len(), a[i]);
        assert(b.contains(a[i]) || c.contains(a[i]));
    }
    if share(a, b) {
        let i = choose|i: int| 0 <= i < a.len() && b.contains(#[trigger] a[i]);
        law_merge_is_union(b, c, c.len(), a[i]);
        assert(m.contains(a[i]));
    }
    if share(a, c) {
        let i = choose|i: int| 0 <= i < a.len() && c.contains(#[trigger] a[i]);
        law_merge_is_union(b, c, c.len(), a[i]);
        assert(m.contains(a[i]));
    }
}

proof fn lemma_conflict_merged(
    reads: Seq<u64>,
    writes: Seq<u64>,
    r1: Seq<u64>,
    w1: Seq<u64>,
    r2: Seq<u64>,
    w2: Seq<u64>,
)
    ensures
        conflict(
            reads,
            writes,
            with_keys(r1, r2, r2.len()),
            with_keys(w1, w2, w2.len()),
        ) == (conflict(reads, writes, r1, w1) || conflict(reads, writes, r2, w2)),
{
    let r = with_keys(r1, r2, r2.len());
    let w = with_keys(w1, w2, w2.len());
    lemma_share_merged(writes, r1, r2);
    lemma_share_merged(writes, w1, w2);
    lemma_share_merged(reads, w1, w2);
    lemma_share_symmetric(reads, w);
    lemma_share_symmetric(w, reads);
    lemma_share_symmetric(reads, w1);
    lemma_share_symmetric(w1, reads);
    lemma_share_symmetric(reads, w2);
    lemma_share_symmetric(w2, reads);
    lemma_share_symmetric(writes, w);
    lemma_share_symmetric(w, writes);
    lemma_share_symmetric(writes, w1);
    lemma_share_symmetric(w1, writes);
    lemma_share_symmetric(writes, w2);
    lemma_share_symmetric(w2, writes);
}

/// Merged access conflicts with what either part conflicts with, and with nothing else.
pub proof fn law_merged_access_conflicts_with_both(
    d: AccessDescriptor,
    a: AccessDescriptor,
    b: AccessDescriptor,
    merged: AccessDescriptor,
)
    requires
        is_merged(a, b, merged),
    ensures
        descriptors_conflict(d, merged) == (descriptors_conflict(d, a) || descriptors_conflict(
            d,
            b,
        )),
{
    lemma_conflict_merged(d.reads@, d.writes@, a.reads@, a.writes@, b.reads@, b.writes@);
    lemma_event_keys_merged(a.reads_event@, b.reads_event@, b.reads_event@.len());
    lemma_event_keys_merged(a.writes_event@, b.writes_event@, b.writes_event@.len());
    lemma_conflict_merged(
        event_keys(d.reads_event@),
        event_keys(d.writes_event@),
        event_keys(a.reads_event@),
        event_keys(a.writes_event@),
        event_keys(b.reads_event@),
        event_keys(b.writes_event@),
    );
}

/// A key that is declared is there, once, behind those that were there before; all others stay.
pub proof fn law_declared_keys_are_there(s: Seq<u64>, key: u64, k: u64)
    ensures
        with_key(s, key).contains(k) <==> s.contains(k) || k == key,
        s.contains(key) ==> with_key(s, key) == s,
        !s.contains(key) ==> with_key(s, key) == s.push(key),
{
    lemma_push_contains(s, key, k);
}

/// The same of events, which are told apart by their keys.
pub proof fn law_declared_events_are_there(
    s: Seq<(u64, &'static str)>,
    e: (u64, &'static str),
    k: u64,
)
    ensures
        (exists|i: int| 0 <= i < with_event(s, e).len() && (#[trigger] with_event(s, e)[i]).0 == k)
            <==> k == e.0 || exists|i: int| 0 <= i < s.len() && (#[trigger] s[i]).0 == k,
        (exists|i: int| 0 <= i < s.len() && (#[trigger] s[i]).0 == e.0) ==> with_event(s, e) == s,
        (forall|i: int| 0 <= i < s.len() ==> (#[trigger] s[i]).0 != e.0) ==> with_event(s, e)
            == s.push(e),
{
    let t = with_event(s, e);
    let keys = event_keys(s);
    if (exists|i: int| 0 <= i < s.len() && (#[trigger] s[i]).0 == e.0) {
        let i = choose|i: int| 0 <= i < s.len() && (#[trigger] s[i]).0 == e.0;
        assert(keys[i] == e.0);
        assert(keys.contains(e.0));
    } else if keys.contains(e.0) {
        let i = choose|i: int| 0 <= i < keys.len() && keys[i] == e.0;
        assert(s[i].0 == e.0);
    }
    if (exists|i: int| 0 <= i < s.len() && (#[trigger] s[i]).0 == k) {
        let i = choose|i: int| 0 <= i < s.len() && (#[trigger] s[i]).0 == k;
        assert(t[i] == s[i]);
        assert(0 <= i < t.len() && t[i].0 == k);
    }
    if k == e.0 {
        if keys.contains(k) {
            let i = choose|i: int| 0 <= i < keys.len() && keys[i] == k;
            assert(t[i].0 == k);
        } else {
            assert(t[s.len() as int].0 == k);
        }
    }
    if (exists|i: int| 0 <= i < t.len() && (#[trigger] t[i]).0 == k) {
        let i = choose|i: int| 0 <= i < t.len() && (#[trigger] t[i]).0 == k;
        if i < s.len() {
            assert(t[i] == s[i]);
            assert(0 <= i < s.len() && s[i].0 == k);
        }
    }
}

/// The largest room that is reserved for events of a type.
pub open spec fn room_for(s: Seq<(u64, usize)>, key: u64) -> usize
    decreases s.len(),
{
    if s.len() == 0 {
        0
    } else {
        let head = room_for(s.drop_last(), key);
        if s.last().0 == key && s.last().1 > head {
            s.last().1
        } else {
            head
        }
    }
}

proof fn lemma_room_update(s: Seq<(u64, usize)>, i: int, c: usize, key: u64)
    requires
        0 <= i < s.len(),
        c >= s[i].1,
    ensures
        room_for(s.update(i, (s[i].0, c)), key) == if s[i].0 == key && c > room_for(s, key) {
            c
        } else {
            room_for(s, key)
        },
    decreases s.len(),
{
    let t = s.update(i, (s[i].0, c));
    if i == s.len() - 1 {
        assert(t.drop_last() =~= s.drop_last());
    } else {
        assert(t.drop_last() =~= s.drop_last().update(i, (s[i].0, c)));
        lemma_room_update(s.drop_last(), i, c, key);
    }
}

proof fn lemma_reserve_place(s: Seq<(u64, usize)>, key: u64, from: nat)
    requires
        from <= s.len(),
    ensures
        from <= reserve_place(s, key, from) <= s.len(),
        reserve_place(s, key, from) < s.len() ==> s[reserve_place(s, key, from) as int].0 == key,
    decreases s.len() - from,
{
    if from < s.len() && s[from as int].0 != key {
        lemma_reserve_place(s, key, from + 1);
    }
}

proof fn lemma_room_below(s: Seq<(u64, usize)>, i: int)
    requires
        0 <= i < s.len(),
    ensures
        s[i].1 <= room_for(s, s[i].0),
    decreases s.len(),
{
    if i < s.len() - 1 {
        lemma_room_below(s.drop_last(), i);
    }
}

/// The room that merged reservations keep for a type is the larger of the two.
pub proof fn law_merged_reservations_keep_the_larger(
    s: Seq<(u64, usize)>,
    t: Seq<(u64, usize)>,
    n: nat,
    key: u64,
)
    requires
        n <= t.len(),
    ensures
        room_for(with_reserves(s, t, n), key) == if room_for(s, key) >= room_for(
            t.subrange(0, n as int),
            key,
        ) {
            room_for(s, key)
        } else {
            room_for(t.subrange(0, n as int), key)
        },
    decreases n,
{
    let seen = t.subrange(0, n as int);
    if n > 0 {
        let n1 = (n - 1) as nat;
        law_merged_reservations_keep_the_larger(s, t, n1, key);
        assert(seen.drop_last() =~= t.subrange(0, n1 as int));
        let m = with_reserves(s, t, n1);
        let r = t[n - 1];
        lemma_reserve_place(m, r.0, 0);
        let i = reserve_place(m, r.0, 0);
        if i < m.len() {
            let c = if m[i as int].1 >= r.1 {
                m[i as int].1
            } else {
                r.1
            };
            lemma_room_update(m, i as int, c, key);
            lemma_room_below(m, i as int);
        } else {
            assert(m.push(r).drop_last() =~= m);
        }
    }
}

/// Merged access is the access of both: each component, resource and event that either reads or
/// writes, and whatever else either says of itself.
pub proof fn law_merged_access_is_that_of_both(
    a: AccessDescriptor,
    b: AccessDescriptor,
    merged: AccessDescriptor,
    k: u64,
)
    requires
        is_merged(a, b, merged),
    ensures
        merged.reads@.contains(k) <==> a.reads@.contains(k) || b.reads@.contains(k),
        merged.writes@.contains(k) <==> a.writes@.contains(k) || b.writes@.contains(k),
        event_keys(merged.reads_event@).contains(k) <==> event_keys(a.reads_event@).contains(k)
            || event_keys(b.reads_event@).contains(k),
        event_keys(merged.writes_event@).contains(k) <==> event_keys(a.writes_event@).contains(k)
            || event_keys(b.writes_event@).contains(k),
        merged.uses_par_for_each <==> a.uses_par_for_each || b.uses_par_for_each,
        merged.needs_whole_world <==> a.needs_whole_world || b.needs_whole_world,
        merged.stateful <==> a.stateful || b.stateful,
        merged.writes_resource <==> a.writes_resource || b.writes_resource,
        merged.uses_commands <==> a.uses_commands || b.uses_commands,
        room_for(merged.event_reserves@, k) >= room_for(a.event_reserves@, k),
        room_for(merged.event_reserves@, k) >= room_for(b.event_reserves@, k),
        room_for(merged.event_reserves@, k) == room_for(a.event_reserves@, k) || room_for(
            merged.event_reserves@,
            k,
        ) == room_for(b.event_reserves@, k),
{
    assert(b.reads@.subrange(0, b.reads@.len() as int) =~= b.reads@);
    assert(b.writes@.subrange(0, b.writes@.len() as int) =~= b.writes@);
    law_merge_is_union(a.reads@, b.reads@, b.reads@.len(), k);
    law_merge_is_union(a.writes@, b.writes@, b.writes@.len(), k);
    let ar = event_keys(a.reads_event@);
    let br = event_keys(b.reads_event@);
    let aw = event_keys(a.writes_event@);
    let bw = event_keys(b.writes_event@);
    lemma_event_keys_merged(a.reads_event@, b.reads_event@, b.reads_event@.len());
    lemma_event_keys_merged(a.writes_event@, b.writes_event@, b.writes_event@.len());
    assert(br.subrange(0, br.len() as int) =~= br);
    assert(bw.subrange(0, bw.len() as int) =~= bw);
    law_merge_is_union(ar, br, br.len(), k);
    law_merge_is_union(aw, bw, bw.len(), k);
    let t = b.event_reserves@;
    assert(t.subrange(0, t.len() as int) =~= t);
    law_merged_reservations_keep_the_larger(a.event_reserves@, t, t.len(), k);
}

/// The keys of events are those with which they were declared.
pub proof fn law_events_go_by_their_keys(s: Seq<(u64, &'static str)>, i: int)
    requires
        0 <= i < s.len(),
    ensures
        event_keys(s).len() == s.len(),
        event_keys(s)[i] == s[i].0,
{
}

/// What is merged follows in its order, each key where it is not there yet.
pub proof fn law_merged_keys_follow_in_order(
    s: Seq<u64>,
    t: Seq<u64>,
    a: Seq<(u64, &'static str)>,
    b: Seq<(u64, &'static str)>,
    n: nat,
)
    ensures
        with_keys(s, t, 0) == s,
        with_keys(s, t, n + 1) == with_key(with_keys(s, t, n), t[n as int]),
        with_events(a, b, 0) == a,
        with_events(a, b, n + 1) == with_event(with_events(a, b, n), b[n as int]),
{
}

} // verus!
