//! Entities: generational indices, their locations, and the reservation of ids ahead of time.

use vstd::prelude::*;
use vstd::string::StringExecFns;
use crate::archetype::ArchetypeId;
use crate::entity_laws::{
    all_wait, held, law_abandon_keeps_pool_sound, law_allocate_issues_each_slot_once,
    law_draw_issues_each_slot_once, law_flush_keeps_pool_sound, law_free_keeps_pool_sound,
    law_reclaim_keeps_pool_sound, law_set_location_keeps_pool_sound, newly_issued, pool_sound,
};
use crate::text::{decimal, push_decimal};

verus! {

/// An entity handle: a slot index and the generation of the slot that it was issued for.
#[derive(Clone, Copy, PartialEq, Eq, Hash, Debug, Structural)]
pub struct Entity {
    pub index: u32,
    pub generation: u32,
}

/// A handle as text.
pub open spec fn entity_text(e: Entity) -> Seq<char> {
    "Entity("@ + decimal(e.index as nat) + "v"@ + decimal(e.generation as nat) + ")"@
}

impl Entity {
    /// The handle as text.
    pub fn text(self) -> (t: String)
        ensures
            t@ == entity_text(self),
    {
        let mut t: String = "Entity(".to_owned();
        push_decimal(&mut t, self.index);
        t.append("v");
        push_decimal(&mut t, self.generation);
        t.append(")");
        t
    }

    /// Whether this is the handle that never matches a real entity.
    pub open spec fn is_placeholder(self) -> bool {
        self.index == u32::MAX && self.generation == u32::MAX
    }

    /// The handle that never matches a real entity.
    pub fn placeholder() -> (e: Entity)
        ensures
            e.is_placeholder(),
    {
        Entity { index: u32::MAX, generation: u32::MAX }
    }

    /// An entity built from its two parts.
    pub fn from_raw_parts(index: u32, generation: u32) -> (e: Entity)
        ensures
            e.index == index,
            e.generation == generation,
    {
        Entity { index, generation }
    }

    /// The slot of the entity.
    pub fn index(self) -> (i: u32)
        ensures
            i == self.index,
    {
        self.index
    }

    /// The generation of the slot that the handle was issued for.
    pub fn generation(self) -> (g: u32)
        ensures
            g == self.generation,
    {
        self.generation
    }
}

/// Where an entity's components are stored.
#[derive(Clone, Copy, PartialEq, Eq, Debug, Structural)]
pub struct EntityLocation {
    pub archetype_id: ArchetypeId,
    pub row: u32,
}

/// Encoding of "no location": the one pair of archetype and row that cannot be stored.
const NO_LOCATION: u64 = 0xFFFF_FFFF_FFFF_FFFF;

/// What a slot remembers of a location that is written to it. The pair of the largest archetype
/// id and the largest row stands for "no location".
pub open spec fn stored(loc: EntityLocation) -> Option<EntityLocation> {
    if loc.archetype_id.0 == u32::MAX && loc.row == u32::MAX {
        None
    } else {
        Some(loc)
    }
}

/// One slot: its current generation, and the location packed into a word (row in the low half,
/// archetype in the high half).
struct EntityRecord {
    generation: u32,
    encoded_location: u64,
}

spec fn decode(word: u64) -> Option<EntityLocation> {
    if word == NO_LOCATION {
        None
    } else {
        Some(
            EntityLocation {
                archetype_id: ArchetypeId((word >> 32u64) as u32),
                row: (word & 0xFFFF_FFFF) as u32,
            },
        )
    }
}

impl EntityRecord {
    spec fn spec_location(&self) -> Option<EntityLocation> {
        decode(self.encoded_location)
    }

    fn location(&self) -> (loc: Option<EntityLocation>)
        ensures
            loc == self.spec_location(),
    {
        if self.encoded_location == NO_LOCATION {
            None
        } else {
            let row: u32 = (self.encoded_location & 0xFFFF_FFFF) as u32;
            let archetype_id: u32 = (self.encoded_location >> 32u64) as u32;
            Some(EntityLocation { archetype_id: ArchetypeId(archetype_id), row })
        }
    }

    fn set_location(&mut self, loc: EntityLocation)
        ensures
            final(self).generation == old(self).generation,
            final(self).spec_location() == stored(loc),
    {
        let row: u32 = loc.row;
        let arch: u32 = loc.archetype_id.0;
        let word: u64 = (row as u64) | ((arch as u64) << 32u64);
        self.encoded_location = word;
        proof {
            assert((word & 0xFFFF_FFFF) as u32 == row && (word >> 32u64) as u32 == arch && (word
                == 0xFFFF_FFFF_FFFF_FFFFu64 <==> row == 0xFFFF_FFFFu32 && arch == 0xFFFF_FFFFu32))
                by (bit_vector)
                requires
                    word == (row as u64) | ((arch as u64) << 32u64),
            ;
        }
    }

    fn clear_location(&mut self)
        ensures
            final(self).generation == old(self).generation,
            final(self).spec_location() is None,
    {
        self.encoded_location = NO_LOCATION;
    }

    fn has_location(&self) -> (b: bool)
        ensures
            b == self.spec_location() is Some,
    {
        self.encoded_location != NO_LOCATION
    }
}

/// Number of slots that have a location.
pub open spec fn located(locations: Seq<Option<EntityLocation>>) -> nat
    decreases locations.len(),
{
    if locations.len() == 0 {
        0
    } else {
        located(locations.drop_last()) + if locations.last() is Some { 1nat } else { 0nat }
    }
}

proof fn lemma_located_push_none(s: Seq<Option<EntityLocation>>)
    ensures
        located(s.push(None)) == located(s),
{
    assert(s.push(None).drop_last() =~= s);
}

proof fn lemma_located_bound(s: Seq<Option<EntityLocation>>)
    ensures
        located(s) <= s.len(),
    decreases s.len(),
{
    if s.len() > 0 {
        lemma_located_bound(s.drop_last());
    }
}

/// Writing one location changes the number of located slots by that slot.
pub proof fn lemma_located_update(s: Seq<Option<EntityLocation>>, i: int, loc: Option<EntityLocation>)
    requires
        0 <= i < s.len(),
    ensures
        located(s.update(i, loc)) == located(s) + (if loc is Some { 1int } else { 0 }) - (
        if s[i] is Some { 1int } else { 0 }),
    decreases s.len(),
{
    if i == s.len() - 1 {
        assert(s.update(i, loc).drop_last() =~= s.drop_last());
    } else {
        assert(s.update(i, loc).drop_last() =~= s.drop_last().update(i, loc));
        lemma_located_update(s.drop_last(), i, loc);
    }
}

/// The state of an allocator.
///
/// A slot that is free is in one of two places: on the free list, from which direct allocation
/// takes it at once, or among the first `unconsumed` entries of the lease, from which
/// reservations draw (last entry first). Slots that were never used start at `high_water`.
pub struct AllocState {
    /// Current generation of each slot that has a record.
    pub generations: Seq<u32>,
    /// Location of each slot that has a record.
    pub locations: Seq<Option<EntityLocation>>,
    /// Slots freed since the last flush.
    pub free_list: Seq<u32>,
    /// Slots offered to reservations, with the generation each was offered under.
    pub lease: Seq<(u32, u32)>,
    /// Number of lease entries that have not been drawn.
    pub unconsumed: nat,
    /// First index that was never issued.
    pub high_water: nat,
    /// Reserved slots that were given up and return to the pool at the next flush.
    pub abandoned: Seq<u32>,
    /// Number of leases published so far, modulo the word size.
    pub leases_published: u64,
}

/// Records for every slot below `n`: missing ones start at generation zero, without location.
pub open spec fn grow(s: AllocState, n: nat) -> AllocState {
    if s.generations.len() >= n {
        s
    } else {
        AllocState {
            generations: s.generations + Seq::new((n - s.generations.len()) as nat, |i: int| 0u32),
            locations: s.locations + Seq::new(
                (n - s.locations.len()) as nat,
                |i: int| None::<EntityLocation>,
            ),
            ..s
        }
    }
}

/// How many of `n` ids the lease can supply.
pub open spec fn reused(s: AllocState, n: nat) -> nat {
    if n <= s.unconsumed {
        n
    } else {
        s.unconsumed
    }
}

/// The `n` ids that a reservation draws: lease entries from the last undrawn one down, then
/// fresh indices of generation zero.
pub open spec fn drawn(s: AllocState, n: nat) -> Seq<Entity> {
    Seq::new(
        n,
        |k: int|
            if k < reused(s, n) {
                let slot = s.lease[s.unconsumed - 1 - k];
                Entity { index: slot.0, generation: slot.1 }
            } else {
                Entity { index: (s.high_water + k - reused(s, n)) as u32, generation: 0 }
            },
    )
}

/// The state after `n` ids were drawn by reservation.
pub open spec fn after_draw(s: AllocState, n: nat) -> AllocState {
    AllocState {
        unconsumed: (s.unconsumed - reused(s, n)) as nat,
        high_water: (s.high_water + n - reused(s, n)) as nat,
        ..s
    }
}

/// Whether `n` more ids can be drawn before the index space is used up.
pub open spec fn can_draw(s: AllocState, n: nat) -> bool {
    s.high_water + n - reused(s, n) <= u32::MAX
}

/// Ids that direct allocation of `n` entities takes off the free list: the last ones first.
pub open spec fn popped(s: AllocState, n: nat) -> Seq<Entity> {
    Seq::new(
        from_free(s, n),
        |k: int|
            {
                let index = s.free_list[s.free_list.len() - 1 - k];
                Entity { index, generation: s.generations[index as int] }
            },
    )
}

/// How many of `n` directly allocated entities come off the free list.
pub open spec fn from_free(s: AllocState, n: nat) -> nat {
    if n <= s.free_list.len() {
        n
    } else {
        s.free_list.len()
    }
}

/// The state after `from_free(s, n)` slots were taken off the free list.
pub open spec fn after_pop(s: AllocState, n: nat) -> AllocState {
    AllocState {
        free_list: s.free_list.subrange(0, s.free_list.len() - from_free(s, n)),
        ..s
    }
}

/// The `n` entities that direct allocation yields: free slots first, then as a reservation.
pub open spec fn allocated(s: AllocState, n: nat) -> Seq<Entity> {
    popped(s, n) + drawn(after_pop(s, n), (n - from_free(s, n)) as nat)
}

/// The state after direct allocation of `n` entities: every fresh index has a record.
pub open spec fn after_allocate(s: AllocState, n: nat) -> AllocState {
    let t = after_draw(after_pop(s, n), (n - from_free(s, n)) as nat);
    if t.high_water > s.high_water {
        grow(t, t.high_water)
    } else {
        t
    }
}

/// Whether `n` more entities can be allocated before the index space is used up.
pub open spec fn can_allocate(s: AllocState, n: nat) -> bool {
    can_draw(s, (n - from_free(s, n)) as nat)
}

/// Whether `e` is the current handle of a slot with a record.
pub open spec fn is_current(s: AllocState, e: Entity) -> bool {
    e.index < s.generations.len() && s.generations[e.index as int] == e.generation
}

/// Whether `e` is the current handle of a located slot.
pub open spec fn alive(s: AllocState, e: Entity) -> bool {
    is_current(s, e) && s.locations[e.index as int] is Some
}

/// Location of `e`, if `e` is alive.
pub open spec fn location_of(s: AllocState, e: Entity) -> Option<EntityLocation> {
    if is_current(s, e) {
        s.locations[e.index as int]
    } else {
        None
    }
}

/// The generation that follows `g`.
pub open spec fn next_generation(g: u32) -> u32 {
    if g == u32::MAX {
        0
    } else {
        (g + 1) as u32
    }
}

/// The state after `e` was freed: the slot moves on by one generation and loses its location; it
/// returns to the free list unless its generations are used up.
pub open spec fn after_free(s: AllocState, e: Entity) -> AllocState {
    if is_current(s, e) {
        let g = next_generation(e.generation);
        AllocState {
            generations: s.generations.update(e.index as int, g),
            locations: s.locations.update(e.index as int, None),
            free_list: if g == u32::MAX {
                s.free_list
            } else {
                s.free_list.push(e.index)
            },
            ..s
        }
    } else {
        s
    }
}

/// The state after `loc` was written for `e`.
pub open spec fn after_set_location(s: AllocState, e: Entity, loc: EntityLocation) -> AllocState {
    if is_current(s, e) {
        AllocState { locations: s.locations.update(e.index as int, stored(loc)), ..s }
    } else {
        s
    }
}

/// The state after the location of `e` was forgotten; the handle stays current.
pub open spec fn after_clear_location(s: AllocState, e: Entity) -> AllocState {
    if is_current(s, e) {
        AllocState { locations: s.locations.update(e.index as int, None), ..s }
    } else {
        s
    }
}

/// The state after consecutive rows of one archetype were written for `es`.
pub open spec fn after_set_locations(
    s: AllocState,
    es: Seq<Entity>,
    archetype_id: ArchetypeId,
    start_row: int,
) -> AllocState
    decreases es.len(),
{
    if es.len() == 0 {
        s
    } else {
        after_set_location(
            after_set_locations(s, es.drop_last(), archetype_id, start_row),
            es.last(),
            EntityLocation { archetype_id, row: (start_row + es.len() - 1) as u32 },
        )
    }
}

/// Indices that the lease still offers, first entry first.
pub open spec fn undrawn(s: AllocState) -> Seq<u32> {
    s.lease.subrange(0, s.unconsumed as int).map_values(|slot: (u32, u32)| slot.0)
}

/// The count of published leases that follows `n`.
pub open spec fn next_epoch(n: u64) -> u64 {
    if n == u64::MAX {
        0
    } else {
        (n + 1) as u64
    }
}

/// Whether a flush has nothing to reconcile but missing records.
pub open spec fn is_idle(s: AllocState) -> bool {
    s.free_list.len() == 0 && s.abandoned.len() == 0 && s.unconsumed == s.lease.len()
}

/// The state after a flush: every issued index has a record; what is free or abandoned is
/// offered under one new lease with the current generations. When nothing was freed, abandoned
/// or drawn, the lease stays.
pub open spec fn after_flush(s: AllocState) -> AllocState {
    let g = grow(s, s.high_water);
    if is_idle(s) {
        g
    } else {
        let pool = s.free_list + s.abandoned + undrawn(s);
        AllocState {
            free_list: Seq::empty(),
            abandoned: Seq::empty(),
            lease: pool.map_values(|i: u32| (i, g.generations[i as int])),
            unconsumed: pool.len(),
            leases_published: next_epoch(s.leases_published),
            ..g
        }
    }
}

/// Indices of the entities of `es` that are not placeholders, in order.
pub open spec fn real_indices(es: Seq<Entity>) -> Seq<u32>
    decreases es.len(),
{
    if es.len() == 0 {
        Seq::empty()
    } else if es.last().is_placeholder() {
        real_indices(es.drop_last())
    } else {
        real_indices(es.drop_last()).push(es.last().index)
    }
}

/// Hands out entity handles and keeps the location of each live entity.
pub struct EntityAllocator {
    high_water: u32,
    lease: Vec<(u32, u32)>,
    unconsumed: usize,
    leases_published: u64,
    records: Vec<EntityRecord>,
    free_list: Vec<u32>,
    live: u32,
    abandoned: Vec<u32>,
}

impl View for EntityAllocator {
    type V = AllocState;

    closed spec fn view(&self) -> AllocState {
        AllocState {
            generations: self.records@.map_values(|r: EntityRecord| r.generation),
            locations: self.records@.map_values(|r: EntityRecord| r.spec_location()),
            free_list: self.free_list@,
            lease: self.lease@,
            unconsumed: self.unconsumed as nat,
            high_water: self.high_water as nat,
            abandoned: self.abandoned@,
            leases_published: self.leases_published,
        }
    }
}

/// Whether every index of `s` is below `n`.
pub open spec fn all_below(s: Seq<u32>, n: nat) -> bool {
    forall|i: int| 0 <= i < s.len() ==> #[trigger] s[i] < n
}

/// What holds of the state of every allocator: records cover no index that was not issued, and
/// every index in the pool was issued.
pub open spec fn state_wf(s: AllocState) -> bool {
    &&& s.generations.len() == s.locations.len()
    &&& s.generations.len() <= s.high_water <= u32::MAX
    &&& s.unconsumed <= s.lease.len()
    &&& all_below(s.free_list, s.generations.len())
    &&& forall|i: int|
        0 <= i < s.lease.len() ==> (#[trigger] s.lease[i]).0 < s.generations.len()
    &&& all_below(s.abandoned, s.high_water)
}

impl EntityAllocator {
    /// The allocator's invariant.
    pub closed spec fn wf(&self) -> bool {
        &&& state_wf(self@)
        &&& self.live == located(self@.locations)
    }

    /// The invariant, as it shows in the state.
    pub proof fn lemma_wf(&self)
        requires
            self.wf(),
        ensures
            state_wf(self@),
    {
    }

    /// An allocator that has issued nothing.
    pub fn new() -> (a: EntityAllocator)
        ensures
            a.wf(),
            a@ == (AllocState {
                generations: Seq::empty(),
                locations: Seq::empty(),
                free_list: Seq::empty(),
                lease: Seq::empty(),
                unconsumed: 0,
                high_water: 0,
                abandoned: Seq::empty(),
                leases_published: 0,
            }),
            pool_sound(a@),
    {
        let a = EntityAllocator {
            high_water: 0,
            lease: Vec::new(),
            unconsumed: 0,
            leases_published: 0,
            records: Vec::new(),
            free_list: Vec::new(),
            live: 0,
            abandoned: Vec::new(),
        };
        assert(a@.generations =~= Seq::<u32>::empty());
        assert(a@.locations =~= Seq::<Option<EntityLocation>>::empty());
        assert(undrawn(a@) =~= Seq::<u32>::empty());
        a
    }

    /// Grows the records so that every slot below `n` has one.
    fn grow_records(&mut self, n: usize)
        requires
            old(self).wf(),
            n <= old(self)@.high_water,
        ensures
            final(self).wf(),
            final(self)@ == grow(old(self)@, n as nat),
    {
        while self.records.len() < n
            invariant
                self.wf(),
                old(self).wf(),
                n <= old(self)@.high_water,
                self@ == grow(
                    old(self)@,
                    if self@.generations.len() <= n {
                        self@.generations.len()
                    } else {
                        old(self)@.generations.len()
                    },
                ),
                old(self)@.generations.len() <= self@.generations.len(),
                self@.generations.len() <= n || self@.generations.len()
                    == old(self)@.generations.len(),
                self.records@.len() == self@.generations.len(),
            decreases n - self.records.len(),
        {
            let ghost before = self@;
            self.records.push(EntityRecord { generation: 0, encoded_location: NO_LOCATION });
            proof {
                assert(self@.generations =~= before.generations.push(0));
                assert(self@.locations =~= before.locations.push(None));
                lemma_located_push_none(before.locations);
                let g = grow(old(self)@, self@.generations.len());
                assert(self@.generations =~= g.generations);
                assert(self@.locations =~= g.locations);
            }
        }
        proof {
            let g = grow(old(self)@, n as nat);
            assert(self@.generations =~= g.generations);
            assert(self@.locations =~= g.locations);
        }
    }

    /// Draws `n` ids the way reservations do: lease entries first, then fresh indices.
    fn draw(&mut self, n: usize, out: &mut Vec<Entity>)
        requires
            old(self).wf(),
            can_draw(old(self)@, n as nat),
        ensures
            final(self).wf(),
            final(self)@ == after_draw(old(self)@, n as nat),
            final(out)@ == old(out)@ + drawn(old(self)@, n as nat),
    {
        let reuse: usize = if n <= self.unconsumed { n } else { self.unconsumed };
        let mut k: usize = 0;
        while k < reuse
            invariant
                k <= reuse <= n,
                reuse == reused(self@, n as nat),
                *self == *old(self),
                self.wf(),
                out@ == old(out)@ + drawn(self@, n as nat).subrange(0, k as int),
            decreases reuse - k,
        {
            let slot: (u32, u32) = self.lease[self.unconsumed - 1 - k];
            out.push(Entity { index: slot.0, generation: slot.1 });
            k = k + 1;
            assert(out@ =~= old(out)@ + drawn(self@, n as nat).subrange(0, k as int));
        }
        let fresh: usize = n - reuse;
        let start: u32 = self.high_water;
        let mut j: usize = 0;
        while j < fresh
            invariant
                j <= fresh,
                fresh + reuse == n,
                start + fresh <= u32::MAX,
                start == self.high_water,
                reuse == reused(self@, n as nat),
                *self == *old(self),
                self.wf(),
                out@ == old(out)@ + drawn(self@, n as nat).subrange(0, reuse + j),
            decreases fresh - j,
        {
            out.push(Entity { index: start + j as u32, generation: 0 });
            j = j + 1;
            assert(out@ =~= old(out)@ + drawn(self@, n as nat).subrange(0, reuse + j));
        }
        assert(drawn(self@, n as nat).subrange(0, n as int) =~= drawn(self@, n as nat));
        self.unconsumed = self.unconsumed - reuse;
        self.high_water = start + fresh as u32;
        proof {
            assert(self@.generations =~= old(self)@.generations);
            assert(self@.locations =~= old(self)@.locations);
        }
    }

    /// Reserves `size` ids as a block of its own and returns a reserver that hands them out in
    /// order.
    pub fn reserve_block(&mut self, size: u32) -> (r: EntityReserver)
        requires
            old(self).wf(),
            can_draw(old(self)@, size as nat),
        ensures
            final(self).wf(),
            final(self)@ == after_draw(old(self)@, size as nat),
            pool_sound(old(self)@) ==> pool_sound(final(self)@),
            r.wf(),
            r@ == Some(
                BlockState { ids: drawn(old(self)@, size as nat), next: 0, overflowed: false },
            ),
    {
        let mut ids: Vec<Entity> = Vec::new();
        self.draw(size as usize, &mut ids);
        assert(ids@ =~= drawn(old(self)@, size as nat));
        proof {
            if pool_sound(old(self)@) {
                law_draw_issues_each_slot_once(old(self)@, size as nat);
            }
        }
        self.reserver().with_ids(ids)
    }

    /// A reserver without a block.
    pub fn reserver(&self) -> (r: EntityReserver)
        ensures
            r.wf(),
            r@ is None,
    {
        EntityReserver { block: None }
    }

    /// Returns reserved ids that were never materialised to the pool. Their generations stay.
    pub fn reclaim_block_tail(&mut self, unused: &[Entity])
        requires
            old(self).wf(),
            forall|i: int|
                0 <= i < unused@.len() ==> (#[trigger] unused@[i]).index < old(
                    self,
                )@.generations.len(),
        ensures
            final(self).wf(),
            final(self)@ == (AllocState {
                free_list: old(self)@.free_list + unused@.map_values(|e: Entity| e.index),
                ..old(self)@
            }),
            pool_sound(old(self)@) && all_wait(old(self)@, unused@) ==> pool_sound(final(self)@),
    {
        let mut i: usize = 0;
        while i < unused.len()
            invariant
                i <= unused@.len(),
                forall|k: int|
                    0 <= k < unused@.len() ==> (#[trigger] unused@[k]).index < old(
                        self,
                    )@.generations.len(),
                old(self).wf(),
                self.wf(),
                self@ == (AllocState {
                    free_list: old(self)@.free_list + unused@.map_values(
                        |e: Entity| e.index,
                    ).subrange(0, i as int),
                    ..old(self)@
                }),
            decreases unused.len() - i,
        {
            let ghost before = self@;
            self.free_list.push(unused[i].index);
            i = i + 1;
            proof {
                assert(self@.free_list =~= before.free_list.push(unused@[i - 1].index));
                assert(self@.free_list =~= old(self)@.free_list + unused@.map_values(
                    |e: Entity| e.index,
                ).subrange(0, i as int));
            }
        }
        assert(unused@.map_values(|e: Entity| e.index).subrange(0, unused@.len() as int)
            =~= unused@.map_values(|e: Entity| e.index));
        proof {
            if pool_sound(old(self)@) && all_wait(old(self)@, unused@) {
                law_reclaim_keeps_pool_sound(old(self)@, unused@);
            }
        }
    }

    /// Offers everything on the free list under a new lease.
    fn refresh_lease(&mut self)
        requires
            old(self).wf(),
        ensures
            final(self).wf(),
            final(self)@ == (AllocState {
                free_list: Seq::empty(),
                lease: old(self)@.free_list.map_values(
                    |i: u32| (i, old(self)@.generations[i as int]),
                ),
                unconsumed: old(self)@.free_list.len(),
                leases_published: next_epoch(old(self)@.leases_published),
                ..old(self)@
            }),
    {
        let mut free: Vec<(u32, u32)> = Vec::new();
        let mut i: usize = 0;
        while i < self.free_list.len()
            invariant
                i <= self.free_list@.len(),
                self.wf(),
                *self == *old(self),
                free@ == self@.free_list.map_values(
                    |j: u32| (j, self@.generations[j as int]),
                ).subrange(0, i as int),
            decreases self.free_list.len() - i,
        {
            let index: u32 = self.free_list[i];
            assert(self@.free_list[i as int] == index);
            assert(self@.generations[index as int] == self.records@[index as int].generation);
            free.push((index, self.records[index as usize].generation));
            i = i + 1;
            assert(free@ =~= self@.free_list.map_values(
                |j: u32| (j, self@.generations[j as int]),
            ).subrange(0, i as int));
        }
        assert(free@ =~= self@.free_list.map_values(|j: u32| (j, self@.generations[j as int])));
        self.unconsumed = free.len();
        self.lease = free;
        self.leases_published = self.leases_published.wrapping_add(1);
        self.free_list = Vec::new();
        proof {
            assert(self@.generations =~= old(self)@.generations);
            assert(self@.locations =~= old(self)@.locations);
            assert(self@.free_list =~= Seq::<u32>::empty());
        }
    }

    /// Reconciles reservations: gives every issued index a record, and offers everything that is
    /// free for reuse under a new lease. Does nothing more where nothing was freed, abandoned or
    /// drawn.
    pub fn flush(&mut self)
        requires
            old(self).wf(),
        ensures
            final(self).wf(),
            final(self)@ == after_flush(old(self)@),
            pool_sound(old(self)@) ==> pool_sound(final(self)@),
    {
        proof {
            if pool_sound(self@) {
                law_flush_keeps_pool_sound(self@);
            }
        }
        self.grow_records(self.high_water as usize);
        let ghost grown = self@;
        let mut i: usize = 0;
        while i < self.abandoned.len()
            invariant
                i <= self.abandoned@.len(),
                self.wf(),
                state_wf(grown),
                grown.high_water == grown.generations.len(),
                self@ == (AllocState {
                    free_list: grown.free_list + grown.abandoned.subrange(0, i as int),
                    ..grown
                }),
            decreases self.abandoned.len() - i,
        {
            let ghost before = self@;
            self.free_list.push(self.abandoned[i]);
            i = i + 1;
            proof {
                assert(self@.free_list =~= before.free_list.push(grown.abandoned[i - 1]));
                assert(self@.free_list =~= grown.free_list + grown.abandoned.subrange(0, i as int));
            }
        }
        self.abandoned = Vec::new();
        let ghost drained = self@;
        proof {
            assert(drained.generations =~= grown.generations);
            assert(drained.locations =~= grown.locations);
            assert(grown.abandoned.subrange(0, grown.abandoned.len() as int) =~= grown.abandoned);
            assert(drained.free_list =~= grown.free_list + grown.abandoned);
            assert(drained.abandoned =~= Seq::<u32>::empty());
        }
        if self.free_list.len() == 0 && self.unconsumed == self.lease.len() {
            proof {
                assert(grown.abandoned =~= Seq::<u32>::empty());
                assert(grown.free_list =~= Seq::<u32>::empty());
                assert(drained == grown);
            }
            return;
        }
        let mut k: usize = 0;
        while k < self.unconsumed
            invariant
                k <= self.unconsumed,
                self.wf(),
                state_wf(drained),
                drained.unconsumed <= drained.lease.len(),
                self@ == (AllocState {
                    free_list: drained.free_list + undrawn(drained).subrange(0, k as int),
                    ..drained
                }),
            decreases self.unconsumed - k,
        {
            let ghost before = self@;
            self.free_list.push(self.lease[k].0);
            k = k + 1;
            proof {
                assert(self@.free_list =~= before.free_list.push(drained.lease[k - 1].0));
                assert(self@.free_list =~= drained.free_list + undrawn(drained).subrange(
                    0,
                    k as int,
                ));
            }
        }
        proof {
            assert(undrawn(drained).subrange(0, drained.unconsumed as int) =~= undrawn(drained));
            assert(self@.free_list =~= old(self)@.free_list + old(self)@.abandoned + undrawn(
                old(self)@,
            ));
        }
        self.refresh_lease();
        proof {
            let want = after_flush(old(self)@);
            assert(self@.lease =~= want.lease);
        }
    }

    /// Allocates one entity: a freed slot if there is one, else a lease entry or a fresh index.
    pub fn allocate(&mut self) -> (e: Entity)
        requires
            old(self).wf(),
            can_allocate(old(self)@, 1),
        ensures
            final(self).wf(),
            final(self)@ == after_allocate(old(self)@, 1),
            pool_sound(old(self)@) ==> pool_sound(final(self)@) && newly_issued(
                old(self)@,
                seq![e],
                final(self)@,
            ),
            seq![e] == allocated(old(self)@, 1),
    {
        let mut out: Vec<Entity> = self.allocate_batch(1);
        let ghost all = allocated(old(self)@, 1);
        let e = out[0];
        assert(seq![e] =~= all);
        e
    }

    /// Allocates `count` entities in one pass.
    pub fn allocate_batch(&mut self, count: usize) -> (entities: Vec<Entity>)
        requires
            old(self).wf(),
            can_allocate(old(self)@, count as nat),
        ensures
            final(self).wf(),
            final(self)@ == after_allocate(old(self)@, count as nat),
            pool_sound(old(self)@) ==> pool_sound(final(self)@) && newly_issued(
                old(self)@,
                entities@,
                final(self)@,
            ),
            entities@ == allocated(old(self)@, count as nat),
    {
        let mut entities: Vec<Entity> = Vec::new();
        let taken: usize = if count <= self.free_list.len() {
            count
        } else {
            self.free_list.len()
        };
        let mut i: usize = 0;
        assert(self@.free_list.subrange(0, self@.free_list.len() as int) =~= self@.free_list);
        while i < taken
            invariant
                i <= taken,
                taken == from_free(old(self)@, count as nat),
                taken <= old(self)@.free_list.len(),
                old(self).wf(),
                self.wf(),
                self@ == (AllocState {
                    free_list: old(self)@.free_list.subrange(
                        0,
                        old(self)@.free_list.len() - i,
                    ),
                    ..old(self)@
                }),
                entities@ == popped(old(self)@, count as nat).subrange(0, i as int),
            decreases taken - i,
        {
            let last: usize = self.free_list.len() - 1;
            let index: u32 = self.free_list[last];
            assert(self@.free_list[last as int] == index);
            let generation: u32 = self.records[index as usize].generation;
            assert(generation == self@.generations[index as int]);
            let ghost before = self@;
            self.free_list.truncate(last);
            entities.push(Entity { index, generation });
            i = i + 1;
            proof {
                assert(self@.free_list =~= old(self)@.free_list.subrange(
                    0,
                    old(self)@.free_list.len() - i,
                ));
                assert(entities@ =~= popped(old(self)@, count as nat).subrange(0, i as int));
            }
        }
        assert(entities@ =~= popped(old(self)@, count as nat));
        assert(self@ == after_pop(old(self)@, count as nat));
        let remaining: usize = count - taken;
        let before_draw: u32 = self.high_water;
        self.draw(remaining, &mut entities);
        if self.high_water > before_draw {
            self.grow_records(self.high_water as usize);
        }
        proof {
            if pool_sound(old(self)@) {
                law_allocate_issues_each_slot_once(old(self)@, count as nat);
            }
        }
        entities
    }

    /// Writes consecutive rows of one archetype as the locations of `entities`.
    pub fn set_locations_batch(
        &mut self,
        entities: &[Entity],
        archetype_id: ArchetypeId,
        start_row: u32,
    )
        requires
            old(self).wf(),
            forall|i: int|
                0 <= i < entities@.len() ==> is_current(old(self)@, #[trigger] entities@[i]),
            start_row + entities@.len() <= u32::MAX + 1,
        ensures
            final(self).wf(),
            final(self)@ == after_set_locations(
                old(self)@,
                entities@,
                archetype_id,
                start_row as int,
            ),
            pool_sound(old(self)@) && (forall|i: int|
                0 <= i < entities@.len() ==> held(old(self)@, (#[trigger] entities@[i]).index))
                ==> pool_sound(final(self)@),
    {
        let ghost sound = pool_sound(self@) && forall|i: int|
            0 <= i < entities@.len() ==> held(self@, (#[trigger] entities@[i]).index);
        let mut i: usize = 0;
        assert(entities@.subrange(0, 0) =~= Seq::<Entity>::empty());
        while i < entities.len()
            invariant
                i <= entities@.len(),
                start_row + entities@.len() <= u32::MAX + 1,
                self.wf(),
                self@ == after_set_locations(
                    old(self)@,
                    entities@.subrange(0, i as int),
                    archetype_id,
                    start_row as int,
                ),
                sound ==> pool_sound(self@) && forall|k: int|
                    0 <= k < entities@.len() ==> held(self@, (#[trigger] entities@[k]).index),
            decreases entities.len() - i,
        {
            let row: u32 = start_row + i as u32;
            proof {
                if sound {
                    law_set_location_keeps_pool_sound(
                        self@,
                        entities@[i as int],
                        EntityLocation { archetype_id, row },
                    );
                }
            }
            self.set_location(entities[i], EntityLocation { archetype_id, row });
            i = i + 1;
            proof {
                let part = entities@.subrange(0, i as int);
                assert(part.drop_last() =~= entities@.subrange(0, i - 1));
            }
        }
        assert(entities@.subrange(0, entities@.len() as int) =~= entities@);
    }

    /// Frees `entity`: false where the handle is not the current one of its slot.
    pub fn free(&mut self, entity: Entity) -> (freed: bool)
        requires
            old(self).wf(),
        ensures
            final(self).wf(),
            freed == is_current(old(self)@, entity),
            final(self)@ == after_free(old(self)@, entity),
            pool_sound(old(self)@) && (freed ==> held(old(self)@, entity.index)) ==> pool_sound(
                final(self)@,
            ),
    {
        proof {
            if pool_sound(self@) && is_current(self@, entity) && held(self@, entity.index) {
                law_free_keeps_pool_sound(self@, entity);
            }
        }
        let i: usize = entity.index as usize;
        if i >= self.records.len() {
            return false;
        }
        assert(self@.generations[i as int] == self.records@[i as int].generation);
        assert(self@.locations[i as int] == self.records@[i as int].spec_location());
        if self.records[i].generation != entity.generation {
            return false;
        }
        let was_live: bool = self.records[i].has_location();
        let generation: u32 = entity.generation.wrapping_add(1);
        proof {
            lemma_located_update(self@.locations, i as int, None);
            lemma_located_bound(self@.locations);
        }
        self.records.set(i, EntityRecord { generation, encoded_location: NO_LOCATION });
        proof {
            assert(self@.generations =~= old(self)@.generations.update(i as int, generation));
            assert(self@.locations =~= old(self)@.locations.update(i as int, None));
        }
        if was_live {
            self.live = self.live - 1;
        }
        if generation != u32::MAX {
            self.free_list.push(entity.index);
        }
        proof {
            assert(self@.generations =~= old(self)@.generations.update(i as int, generation));
            assert(self@.locations =~= old(self)@.locations.update(i as int, None));
        }
        true
    }

    /// Whether `entity` is the current handle of a located slot.
    pub fn is_alive(&self, entity: Entity) -> (b: bool)
        requires
            self.wf(),
        ensures
            b == alive(self@, entity),
    {
        let i: usize = entity.index as usize;
        if i < self.records.len() {
            assert(self@.generations[i as int] == self.records@[i as int].generation);
            assert(self@.locations[i as int] == self.records@[i as int].spec_location());
            self.records[i].generation == entity.generation && self.records[i].has_location()
        } else {
            false
        }
    }

    /// Location of `entity`, if it is alive.
    pub fn get_location(&self, entity: Entity) -> (loc: Option<EntityLocation>)
        requires
            self.wf(),
        ensures
            loc == location_of(self@, entity),
    {
        let i: usize = entity.index as usize;
        if i < self.records.len() {
            assert(self@.generations[i as int] == self.records@[i as int].generation);
            assert(self@.locations[i as int] == self.records@[i as int].spec_location());
            if self.records[i].generation == entity.generation {
                self.records[i].location()
            } else {
                None
            }
        } else {
            None
        }
    }

    /// Writes the location of `entity`; nothing happens for a handle that is not current.
    pub fn set_location(&mut self, entity: Entity, location: EntityLocation)
        requires
            old(self).wf(),
        ensures
            final(self).wf(),
            final(self)@ == after_set_location(old(self)@, entity, location),
            pool_sound(old(self)@) && (is_current(old(self)@, entity) ==> held(
                old(self)@,
                entity.index,
            )) ==> pool_sound(final(self)@),
    {
        proof {
            if pool_sound(self@) && is_current(self@, entity) && held(self@, entity.index) {
                law_set_location_keeps_pool_sound(self@, entity, location);
            }
        }
        let i: usize = entity.index as usize;
        if i < self.records.len() {
            assert(self@.generations[i as int] == self.records@[i as int].generation);
            assert(self@.locations[i as int] == self.records@[i as int].spec_location());
            if self.records[i].generation == entity.generation {
                let had: bool = self.records[i].has_location();
                proof {
                    lemma_located_update(self@.locations, i as int, stored(location));
                    lemma_located_bound(self@.locations);
                    lemma_located_bound(self@.locations.update(i as int, stored(location)));
                }
                let mut record = EntityRecord { generation: entity.generation, encoded_location: 0 };
                record.set_location(location);
                let now: bool = record.has_location();
                self.records.set(i, record);
                proof {
                    assert(self@.generations =~= old(self)@.generations);
                    assert(self@.locations =~= old(self)@.locations.update(
                        i as int,
                        stored(location),
                    ));
                }
                if now && !had {
                    self.live = self.live + 1;
                } else if had && !now {
                    self.live = self.live - 1;
                }
                proof {
                    assert(self@.generations =~= old(self)@.generations);
                    assert(self@.locations =~= old(self)@.locations.update(
                        i as int,
                        stored(location),
                    ));
                }
            }
        }
    }

    /// Forgets the location of `entity`; nothing happens for a handle that is not current.
    pub(crate) fn clear_location(&mut self, entity: Entity)
        requires
            old(self).wf(),
        ensures
            final(self).wf(),
            final(self)@ == after_clear_location(old(self)@, entity),
    {
        let i: usize = entity.index as usize;
        if i < self.records.len() {
            assert(self@.generations[i as int] == self.records@[i as int].generation);
            assert(self@.locations[i as int] == self.records@[i as int].spec_location());
            if self.records[i].generation == entity.generation {
                let had: bool = self.records[i].has_location();
                proof {
                    lemma_located_update(self@.locations, i as int, None);
                    lemma_located_bound(self@.locations);
                }
                let mut record = EntityRecord { generation: entity.generation, encoded_location: 0 };
                record.clear_location();
                self.records.set(i, record);
                if had {
                    self.live = self.live - 1;
                }
                proof {
                    assert(self@.generations =~= old(self)@.generations);
                    assert(self@.locations =~= old(self)@.locations.update(i as int, None));
                }
            }
        }
    }

    /// Number of located entities.
    pub fn len(&self) -> (n: usize)
        requires
            self.wf(),
        ensures
            n == located(self@.locations),
    {
        self.live as usize
    }

    /// Whether no entity is located.
    pub fn is_empty(&self) -> (b: bool)
        requires
            self.wf(),
        ensures
            b == (located(self@.locations) == 0),
    {
        self.live == 0
    }

    /// The live entity in slot `index`, if there is one.
    pub fn get_by_index(&self, index: u32) -> (e: Option<Entity>)
        requires
            self.wf(),
        ensures
            e == if index < self@.generations.len() && self@.locations[index as int] is Some {
                Some(Entity { index, generation: self@.generations[index as int] })
            } else {
                None::<Entity>
            },
    {
        let i: usize = index as usize;
        if i < self.records.len() {
            assert(self@.generations[i as int] == self.records@[i as int].generation);
            assert(self@.locations[i as int] == self.records@[i as int].spec_location());
            if self.records[i].has_location() {
                Some(Entity { index, generation: self.records[i].generation })
            } else {
                None
            }
        } else {
            None
        }
    }

    /// First index that was never issued.
    pub fn high_water(&self) -> (n: u32)
        requires
            self.wf(),
        ensures
            n == self@.high_water,
    {
        self.high_water
    }

    /// Number of slots that have a record.
    pub fn record_count(&self) -> (n: usize)
        requires
            self.wf(),
        ensures
            n == self@.generations.len(),
    {
        self.records.len()
    }

    /// Number of slots freed since the last flush.
    pub fn free_count(&self) -> (n: usize)
        ensures
            n == self@.free_list.len(),
    {
        self.free_list.len()
    }

    /// Number of slots in the current lease.
    pub fn lease_len(&self) -> (n: usize)
        ensures
            n == self@.lease.len(),
    {
        self.lease.len()
    }

    /// Gives a slot a generation, as where slots are taken over from elsewhere.
    pub fn set_generation(&mut self, index: u32, generation: u32)
        requires
            old(self).wf(),
            index < old(self)@.generations.len(),
        ensures
            final(self).wf(),
            final(self)@ == (AllocState {
                generations: old(self)@.generations.update(index as int, generation),
                ..old(self)@
            }),
    {
        let i: usize = index as usize;
        let encoded_location: u64 = self.records[i].encoded_location;
        self.records.set(i, EntityRecord { generation, encoded_location });
        assert(self@.generations =~= old(self)@.generations.update(index as int, generation));
        assert(self@.locations =~= old(self)@.locations);
    }

    /// Which lease is current: the count of leases published so far.
    pub fn lease_epoch(&self) -> (n: u64)
        ensures
            n == self@.leases_published,
    {
        self.leases_published
    }
}

impl Default for EntityAllocator {
    fn default() -> (a: EntityAllocator)
        ensures
            a.wf(),
            a@ == (AllocState {
                generations: Seq::empty(),
                locations: Seq::empty(),
                free_list: Seq::empty(),
                lease: Seq::empty(),
                unconsumed: 0,
                high_water: 0,
                abandoned: Seq::empty(),
                leases_published: 0,
            }),
            pool_sound(a@),
    {
        EntityAllocator::new()
    }
}

/// The private block of a reserver: ids in the order in which they are handed out.
pub struct BlockState {
    pub ids: Seq<Entity>,
    /// Position of the next id to hand out.
    pub next: nat,
    /// Whether a reservation had to go past the block.
    pub overflowed: bool,
}

struct BlockCursor {
    ids: Vec<Entity>,
    next: u32,
    overflowed: bool,
}

/// Hands out entity ids ahead of the entities themselves, optionally from a private block.
pub struct EntityReserver {
    block: Option<BlockCursor>,
}

impl View for EntityReserver {
    type V = Option<BlockState>;

    closed spec fn view(&self) -> Option<BlockState> {
        match self.block {
            Some(b) => Some(
                BlockState { ids: b.ids@, next: b.next as nat, overflowed: b.overflowed },
            ),
            None => None,
        }
    }
}

/// Successor of a block position: positions are 32 bits wide.
pub open spec fn next_position(n: nat) -> nat {
    if n >= u32::MAX {
        0
    } else {
        n + 1
    }
}

/// Whether one reservation is served by the block.
pub open spec fn block_serves(b: Option<BlockState>, n: nat) -> bool {
    b is Some && b->0.next + n <= b->0.ids.len()
}

impl EntityReserver {
    /// The reserver's invariant: a block's size and position fit 32 bits.
    pub open spec fn wf(&self) -> bool {
        self@ matches Some(b) ==> b.ids.len() <= u32::MAX && b.next <= u32::MAX
    }

    /// Reserves one id: the block's next one, else as the allocator's shared pool yields it.
    pub fn reserve(&mut self, alloc: &mut EntityAllocator) -> (e: Entity)
        requires
            old(self).wf(),
            old(alloc).wf(),
            block_serves(old(self)@, 1) || can_draw(old(alloc)@, 1),
        ensures
            final(self).wf(),
            final(alloc).wf(),
            match old(self)@ {
                Some(b) => final(self)@ == Some(
                    BlockState {
                        next: next_position(b.next),
                        overflowed: b.overflowed || b.next >= b.ids.len(),
                        ..b
                    },
                ),
                None => final(self)@ is None,
            },
            block_serves(old(self)@, 1) ==> e == old(self)@->0.ids[old(self)@->0.next as int]
                && final(alloc)@ == old(alloc)@,
            !block_serves(old(self)@, 1) ==> seq![e] == drawn(old(alloc)@, 1) && final(alloc)@
                == after_draw(old(alloc)@, 1),
            pool_sound(old(alloc)@) ==> pool_sound(final(alloc)@),
    {
        proof {
            if pool_sound(alloc@) && can_draw(alloc@, 1) {
                law_draw_issues_each_slot_once(alloc@, 1);
            }
        }
        let ghost before = self@;
        if let Some(block) = &mut self.block {
            let i: u32 = block.next;
            block.next = i.wrapping_add(1);
            if (i as usize) < block.ids.len() {
                return block.ids[i as usize];
            }
            block.overflowed = true;
        }
        let mut out: Vec<Entity> = Vec::new();
        alloc.draw(1, &mut out);
        let e = out[0];
        assert(seq![e] =~= drawn(old(alloc)@, 1));
        e
    }

    /// A reserver that hands out `ids` in order before it uses the shared pool.
    pub(crate) fn with_ids(&self, ids: Vec<Entity>) -> (r: EntityReserver)
        requires
            ids@.len() <= u32::MAX,
        ensures
            r.wf(),
            r@ == Some(BlockState { ids: ids@, next: 0, overflowed: false }),
    {
        EntityReserver { block: Some(BlockCursor { ids, next: 0, overflowed: false }) }
    }

    /// Whether a reservation had to go past the block.
    pub fn block_overflowed(&self) -> (b: bool)
        ensures
            b == (self@ is Some && self@->0.overflowed),
    {
        match &self.block {
            Some(b) => b.overflowed,
            None => false,
        }
    }

    /// Gives up reserved ids: they return to the pool at the next flush.
    pub fn abandon(&self, alloc: &mut EntityAllocator, entities: &[Entity])
        requires
            old(alloc).wf(),
            forall|i: int|
                0 <= i < entities@.len() ==> (#[trigger] entities@[i]).is_placeholder()
                    || entities@[i].index < old(alloc)@.high_water,
        ensures
            final(alloc).wf(),
            final(alloc)@ == (AllocState {
                abandoned: old(alloc)@.abandoned + real_indices(entities@),
                ..old(alloc)@
            }),
            pool_sound(old(alloc)@) && all_wait(old(alloc)@, entities@) ==> pool_sound(
                final(alloc)@,
            ),
    {
        proof {
            if pool_sound(alloc@) && all_wait(alloc@, entities@) {
                law_abandon_keeps_pool_sound(alloc@, entities@);
            }
        }
        let mut i: usize = 0;
        assert(entities@.subrange(0, 0) =~= Seq::<Entity>::empty());
        assert(old(alloc)@.abandoned + Seq::<u32>::empty() =~= old(alloc)@.abandoned);
        while i < entities.len()
            invariant
                i <= entities@.len(),
                old(alloc).wf(),
                alloc.wf(),
                forall|k: int|
                    0 <= k < entities@.len() ==> (#[trigger] entities@[k]).is_placeholder()
                        || entities@[k].index < old(alloc)@.high_water,
                alloc@ == (AllocState {
                    abandoned: old(alloc)@.abandoned + real_indices(
                        entities@.subrange(0, i as int),
                    ),
                    ..old(alloc)@
                }),
            decreases entities.len() - i,
        {
            let e: Entity = entities[i];
            let ghost before = alloc@;
            i = i + 1;
            proof {
                let part = entities@.subrange(0, i as int);
                assert(part.drop_last() =~= entities@.subrange(0, i - 1));
                assert(part.last() == e);
            }
            if !(e.index == u32::MAX && e.generation == u32::MAX) {
                alloc.abandoned.push(e.index);
                proof {
                    assert(alloc@.generations =~= before.generations);
                    assert(alloc@.locations =~= before.locations);
                    assert(alloc@.abandoned =~= old(alloc)@.abandoned + real_indices(
                        entities@.subrange(0, i as int),
                    ));
                }
            }
        }
        assert(entities@.subrange(0, entities@.len() as int) =~= entities@);
    }

    /// Number of ids left in the block; `None` without a block.
    pub fn block_remaining(&self) -> (n: Option<u32>)
        requires
            self.wf(),
        ensures
            match self@ {
                Some(b) => n == Some(
                    if b.next <= b.ids.len() {
                        (b.ids.len() - b.next) as u32
                    } else {
                        0u32
                    },
                ),
                None => n is None,
            },
    {
        match &self.block {
            Some(b) => Some((b.ids.len() as u32).saturating_sub(b.next)),
            None => None,
        }
    }

    /// The ids of the block that were not handed out.
    pub fn unused_block_ids(&self) -> (ids: Vec<Entity>)
        requires
            self.wf(),
        ensures
            ids@ == match self@ {
                Some(b) => if b.next <= b.ids.len() {
                    b.ids.subrange(b.next as int, b.ids.len() as int)
                } else {
                    Seq::empty()
                },
                None => Seq::empty(),
            },
    {
        let mut out: Vec<Entity> = Vec::new();
        if let Some(b) = &self.block {
            let start: usize = b.next as usize;
            let mut i: usize = start;
            while i < b.ids.len()
                invariant
                    start <= i,
                    i <= b.ids@.len() || i == start,
                    out@ == if start <= b.ids@.len() {
                        b.ids@.subrange(start as int, i as int)
                    } else {
                        Seq::empty()
                    },
                decreases b.ids.len() - i,
            {
                out.push(b.ids[i]);
                i = i + 1;
                assert(out@ =~= b.ids@.subrange(start as int, i as int));
            }
        }
        out
    }

    /// Reserves `n` ids: from the block where all of them fit in what is left of it, else from
    /// the shared pool.
    pub fn reserve_n(&mut self, alloc: &mut EntityAllocator, n: usize) -> (ids: Vec<Entity>)
        requires
            old(self).wf(),
            old(alloc).wf(),
            n == 0 || block_serves(old(self)@, n as nat) || can_draw(old(alloc)@, n as nat),
        ensures
            final(self).wf(),
            final(alloc).wf(),
            n == 0 ==> ids@.len() == 0 && final(self)@ == old(self)@ && final(alloc)@ == old(
                alloc,
            )@,
            n > 0 && block_serves(old(self)@, n as nat) ==> {
                let b = old(self)@->0;
                &&& ids@ == b.ids.subrange(b.next as int, b.next + n)
                &&& final(self)@ == Some(BlockState { next: b.next + n as nat, ..b })
                &&& final(alloc)@ == old(alloc)@
            },
            n > 0 && !block_serves(old(self)@, n as nat) ==> {
                &&& ids@ == drawn(old(alloc)@, n as nat)
                &&& final(alloc)@ == after_draw(old(alloc)@, n as nat)
                &&& final(self)@ == match old(self)@ {
                    Some(b) => Some(BlockState { overflowed: true, ..b }),
                    None => None,
                }
            },
            pool_sound(old(alloc)@) ==> pool_sound(final(alloc)@),
    {
        proof {
            if pool_sound(alloc@) && can_draw(alloc@, n as nat) {
                law_draw_issues_each_slot_once(alloc@, n as nat);
            }
        }
        let mut out: Vec<Entity> = Vec::new();
        if n == 0 {
            return out;
        }
        if let Some(block) = &mut self.block {
            let cur: usize = block.next as usize;
            if cur <= block.ids.len() && n <= block.ids.len() - cur {
                let mut k: usize = 0;
                while k < n
                    invariant
                        k <= n,
                        cur + n <= block.ids@.len() <= u32::MAX,
                        out@ == block.ids@.subrange(cur as int, cur + k),
                    decreases n - k,
                {
                    out.push(block.ids[cur + k]);
                    k = k + 1;
                    assert(out@ =~= block.ids@.subrange(cur as int, cur + k));
                }
                block.next = (cur + n) as u32;
                return out;
            }
            block.overflowed = true;
        }
        alloc.draw(n, &mut out);
        assert(out@ =~= drawn(old(alloc)@, n as nat));
        out
    }
}

} // verus!
