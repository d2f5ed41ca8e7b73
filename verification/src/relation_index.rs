//! The two indexes of relations: which targets each subject has, and which subjects point at each
//! target, in sibling order.

use vstd::prelude::*;
use rustc_hash::FxHashMap;
use crate::entity::Entity;
use crate::fx::{map_get, map_get_mut, map_insert, map_keys, map_new, map_remove};
use crate::inline::{EntityList, entity_items};
use crate::pairs::{PairStorage, Triple, ascending, first_of, has_kind};

verus! {

/// One relation of a subject: its kind, and its target with generation.
#[derive(Clone, Copy, PartialEq, Eq, Hash, Debug, Structural)]
pub struct RelationPair {
    pub kind_idx: u32,
    pub target: Entity,
}

impl RelationPair {
    /// The pair's sort key: kind, target index, target generation.
    pub open spec fn spec_sort_key(self) -> Triple {
        (self.kind_idx, self.target.index, self.target.generation)
    }

    /// The pair's sort key: kind, target index, target generation.
    pub fn sort_key(&self) -> (t: Triple)
        ensures
            t == self.spec_sort_key(),
    {
        (self.kind_idx, self.target.index, self.target.generation)
    }
}

/// The pair with the given sort key.
pub open spec fn pair_of(t: Triple) -> RelationPair {
    RelationPair { kind_idx: t.0, target: Entity { index: t.1, generation: t.2 } }
}

fn to_pair(t: Triple) -> (p: RelationPair)
    ensures
        p == pair_of(t),
{
    RelationPair { kind_idx: t.0, target: Entity { index: t.1, generation: t.2 } }
}

proof fn lemma_set_bit(m: u64, k: u64, j: u64)
    requires
        k < 64,
        j < 64,
    ensures
        ((m | (1u64 << k)) & (1u64 << j) != 0) <==> (j == k || m & (1u64 << j) != 0),
        ((m & !(1u64 << k)) & (1u64 << j) != 0) <==> (j != k && m & (1u64 << j) != 0),
{
    assert(((m | (1u64 << k)) & (1u64 << j) != 0) <==> (j == k || m & (1u64 << j) != 0))
        by (bit_vector)
        requires
            k < 64,
            j < 64,
    ;
    assert(((m & !(1u64 << k)) & (1u64 << j) != 0) <==> (j != k && m & (1u64 << j) != 0))
        by (bit_vector)
        requires
            k < 64,
            j < 64,
    ;
}

/// The relations of one subject, with a bit mask of the kinds below 64.
pub struct SubjectEntry {
    kind_mask: u64,
    storage: PairStorage,
}

impl SubjectEntry {
    /// The sort keys of the relations.
    pub closed spec fn triples(&self) -> Set<Triple> {
        self.storage@
    }

    /// The entry's invariant: the mask tells the kinds below 64.
    pub closed spec fn wf(&self) -> bool {
        &&& self.storage.wf()
        &&& forall|k: u64|
            k < 64 ==> (#[trigger] (self.kind_mask & (1u64 << k)) != 0 <==> has_kind(
                self.storage@,
                k as u32,
            ))
    }

    /// An entry without relations.
    pub fn new() -> (e: SubjectEntry)
        ensures
            e.wf(),
            (e.triples() == Set::<Triple>::empty()),
    {
        let e = SubjectEntry { kind_mask: 0, storage: PairStorage::new() };
        assert forall|k: u64| k < 64 implies (#[trigger] (e.kind_mask & (1u64 << k)) != 0
            <==> has_kind(e.storage@, k as u32)) by {
            assert(0u64 & (1u64 << k) == 0) by (bit_vector);
        }
        e
    }

    /// Whether the subject has a relation of the kind.
    pub fn has_kind(&self, kind_idx: u32) -> (b: bool)
        requires
            self.wf(),
        ensures
            b == has_kind(self.triples(), kind_idx),
    {
        if kind_idx >= 64 {
            return self.storage.contains_kind(kind_idx);
        }
        let k: u64 = kind_idx as u64;
        self.kind_mask & (1u64 << k) != 0
    }

    /// Adds a relation by its sort key. False where it is there.
    pub fn insert(&mut self, t: Triple) -> (added: bool)
        requires
            old(self).wf(),
        ensures
            final(self).wf(),
            final(self).triples() == old(self).triples().insert(t),
            added == !old(self).triples().contains(t),
    {
        let ghost before = self.storage@;
        let mask: u64 = self.kind_mask;
        let added: bool = self.storage.insert(t);
        if added && t.0 < 64 {
            let k: u64 = t.0 as u64;
            self.kind_mask = mask | (1u64 << k);
        }
        proof {
            let after = before.insert(t);
            assert(after.contains(t));
            assert forall|j: u64| j < 64 implies (#[trigger] (self.kind_mask & (1u64 << j)) != 0
                <==> has_kind(after, j as u32)) by {
                assert(mask & (1u64 << j) != 0 <==> has_kind(before, j as u32));
                if t.0 < 64 {
                    lemma_set_bit(mask, t.0 as u64, j);
                }
                if has_kind(before, j as u32) {
                    let w = choose|w: Triple| #[trigger] before.contains(w) && w.0 == j as u32;
                    assert(after.contains(w));
                }
                if has_kind(after, j as u32) {
                    let w = choose|w: Triple| #[trigger] after.contains(w) && w.0 == j as u32;
                    assert(w == t || before.contains(w));
                }
            }
        }
        added
    }

    /// Removes a relation by its sort key. False where it is not there.
    pub fn remove(&mut self, t: Triple) -> (removed: bool)
        requires
            old(self).wf(),
        ensures
            final(self).wf(),
            final(self).triples() == old(self).triples().remove(t),
            removed == old(self).triples().contains(t),
    {
        let ghost before = self.storage@;
        let mask: u64 = self.kind_mask;
        let removed: bool = self.storage.remove(t);
        let mut cleared: bool = false;
        if removed && t.0 < 64 {
            if !self.storage.contains_kind(t.0) {
                let k: u64 = t.0 as u64;
                self.kind_mask = mask & !(1u64 << k);
                cleared = true;
            }
        }
        proof {
            let after = before.remove(t);
            assert forall|j: u64| j < 64 implies (#[trigger] (self.kind_mask & (1u64 << j)) != 0
                <==> has_kind(after, j as u32)) by {
                assert(mask & (1u64 << j) != 0 <==> has_kind(before, j as u32));
                if t.0 < 64 {
                    lemma_set_bit(mask, t.0 as u64, j);
                }
                if has_kind(after, j as u32) {
                    let w = choose|w: Triple| #[trigger] after.contains(w) && w.0 == j as u32;
                    assert(before.contains(w));
                }
                if has_kind(before, j as u32) && j as u32 != t.0 {
                    let w = choose|w: Triple| #[trigger] before.contains(w) && w.0 == j as u32;
                    assert(after.contains(w));
                }
                if !removed {
                    assert(after =~= before);
                }
            }
        }
        removed
    }

    /// Whether the relation with this sort key is there.
    pub fn contains(&self, t: Triple) -> (b: bool)
        requires
            self.wf(),
        ensures
            b == self.triples().contains(t),
    {
        if !self.has_kind(t.0) {
            return false;
        }
        self.storage.contains(t)
    }
}

/// The least relation of the given kind in `s`, if there is one.
pub open spec fn first_pair(s: Set<RelationPair>, kind_idx: u32) -> Option<RelationPair> {
    match first_of(keys_of(s), kind_idx) {
        Some(t) => Some(pair_of(t)),
        None => None,
    }
}

/// The sort keys of the relations in `s`.
pub open spec fn keys_of(s: Set<RelationPair>) -> Set<Triple> {
    Set::new(|t: Triple| s.contains(pair_of(t)))
}

/// The relations with the given sort keys.
pub open spec fn pairs_of(s: Set<Triple>) -> Set<RelationPair> {
    Set::new(|p: RelationPair| s.contains(p.spec_sort_key()))
}

proof fn lemma_keys_of_pairs_of(s: Set<Triple>)
    ensures
        keys_of(pairs_of(s)) =~= s,
{
}

/// Whether `s` holds a relation of the kind.
pub open spec fn has_pair_of_kind(s: Set<RelationPair>, kind_idx: u32) -> bool {
    exists|p: RelationPair| #[trigger] s.contains(p) && p.kind_idx == kind_idx
}

/// Whether `s` lists the relations of `set` in ascending order of their keys.
pub open spec fn lists(s: Seq<RelationPair>, set: Set<RelationPair>) -> bool {
    &&& ascending(s.map_values(|p: RelationPair| p.spec_sort_key()))
    &&& forall|p: RelationPair| #[trigger] s.contains(p) <==> set.contains(p)
}

/// Relations by subject index.
pub struct SubjectIndex {
    entries: Vec<SubjectEntry>,
}

impl View for SubjectIndex {
    type V = Map<u32, Set<RelationPair>>;

    /// The relations of every subject index.
    closed spec fn view(&self) -> Map<u32, Set<RelationPair>> {
        Map::new(|i: u32| true, |i: u32| self.at(i))
    }
}

impl SubjectIndex {
    closed spec fn at(&self, i: u32) -> Set<RelationPair> {
        if i < self.entries@.len() {
            pairs_of(self.entries@[i as int].triples())
        } else {
            Set::empty()
        }
    }

    /// The index's invariant.
    pub closed spec fn wf(&self) -> bool {
        &&& self.entries@.len() <= u32::MAX + 1
        &&& forall|i: int| 0 <= i < self.entries@.len() ==> (#[trigger] self.entries@[i]).wf()
    }

    /// Every subject index has a set of relations, be it empty.
    pub proof fn lemma_total(&self)
        ensures
            forall|i: u32| #[trigger] self@.contains_key(i),
    {
    }

    /// An index without relations.
    pub fn new() -> (s: SubjectIndex)
        ensures
            s.wf(),
            forall|i: u32| (#[trigger] s@[i]) == Set::<RelationPair>::empty(),
    {
        SubjectIndex { entries: Vec::new() }
    }

    fn ensure(&mut self, entity_index: usize)
        requires
            old(self).wf(),
            entity_index <= u32::MAX,
        ensures
            final(self).wf(),
            final(self)@ == old(self)@,
            entity_index < final(self).entries@.len(),
    {
        while self.entries.len() <= entity_index
            invariant
                self.wf(),
                self@ == old(self)@,
                entity_index <= u32::MAX,
            decreases entity_index + 1 - self.entries.len(),
        {
            let ghost before = *self;
            self.entries.push(SubjectEntry::new());
            proof {
                assert forall|i: u32| self.at(i) =~= before.at(i) by {}
                assert(self@ =~= before@);
            }
        }
    }

    /// Adds a relation and tells whether it was absent.
    pub fn insert(&mut self, entity_index: u32, pair: RelationPair) -> (added: bool)
        requires
            old(self).wf(),
        ensures
            final(self).wf(),
            final(self)@ == old(self)@.insert(entity_index, old(self)@[entity_index].insert(pair)),
            added == !old(self)@[entity_index].contains(pair),
    {
        let idx: usize = entity_index as usize;
        self.ensure(idx);
        let ghost before = *self;
        assert(before.entries@[idx as int].wf());
        let added: bool = self.entries[idx].insert(pair.sort_key());
        proof {
            assert forall|i: int| 0 <= i < self.entries@.len() implies (#[trigger] self.entries@[i]).wf() by {
                if i != idx {
                    assert(self.entries@[i] == before.entries@[i]);
                }
            }
            let want = old(self)@.insert(entity_index, old(self)@[entity_index].insert(pair));
            assert forall|i: u32| self.at(i) =~= #[trigger] want[i] by {
                if i != entity_index {
                    assert(self.at(i) =~= before.at(i));
                }
            }
            assert(self@ =~= want);
        }
        added
    }

    /// Takes a relation out and tells whether it was there.
    pub fn remove(&mut self, entity_index: u32, pair: RelationPair) -> (removed: bool)
        requires
            old(self).wf(),
        ensures
            final(self).wf(),
            final(self)@ == old(self)@.insert(entity_index, old(self)@[entity_index].remove(pair)),
            removed == old(self)@[entity_index].contains(pair),
    {
        let idx: usize = entity_index as usize;
        let ghost want = old(self)@.insert(entity_index, old(self)@[entity_index].remove(pair));
        if idx < self.entries.len() {
            let ghost before = *self;
            assert(before.entries@[idx as int].wf());
            let removed: bool = self.entries[idx].remove(pair.sort_key());
            proof {
                assert forall|i: int| 0 <= i < self.entries@.len() implies (
                #[trigger] self.entries@[i]).wf() by {
                    if i != idx {
                        assert(self.entries@[i] == before.entries@[i]);
                    }
                }
                assert forall|i: u32| self.at(i) =~= #[trigger] want[i] by {
                    if i != entity_index {
                        assert(self.at(i) =~= before.at(i));
                    }
                }
                assert(self@ =~= want);
            }
            removed
        } else {
            proof {
                assert forall|i: u32| self.at(i) =~= #[trigger] want[i] by {}
                assert(self@ =~= want);
            }
            false
        }
    }

    /// Whether the subject has the relation.
    pub fn has(&self, entity_index: u32, pair: RelationPair) -> (b: bool)
        requires
            self.wf(),
        ensures
            b == self@[entity_index].contains(pair),
    {
        let idx: usize = entity_index as usize;
        if idx < self.entries.len() {
            assert(self.entries@[idx as int].wf());
            self.entries[idx].contains(pair.sort_key())
        } else {
            false
        }
    }

    /// The subject's least relation of the kind.
    pub fn first_with_kind(&self, entity_index: u32, kind_idx: u32) -> (p: Option<RelationPair>)
        requires
            self.wf(),
        ensures
            p == first_pair(self@[entity_index], kind_idx),
            p is Some <==> has_pair_of_kind(self@[entity_index], kind_idx),
            p matches Some(q) ==> q.kind_idx == kind_idx && self@[entity_index].contains(q),
    {
        let idx: usize = entity_index as usize;
        let ghost set = self@[entity_index];
        if idx < self.entries.len() {
            assert(self.entries@[idx as int].wf());
            let ghost keys = self.entries@[idx as int].triples();
            proof {
                lemma_keys_of_pairs_of(keys);
                if has_kind(keys, kind_idx) {
                    let t = choose|t: Triple| #[trigger] keys.contains(t) && t.0 == kind_idx;
                    assert(set.contains(pair_of(t)));
                }
                if has_pair_of_kind(set, kind_idx) {
                    let q = choose|q: RelationPair| #[trigger]
                        set.contains(q) && q.kind_idx == kind_idx;
                    assert(keys.contains(q.spec_sort_key()));
                }
            }
            match self.entries[idx].storage.first_with_kind(kind_idx) {
                Some(t) => {
                    let q: RelationPair = to_pair(t);
                    assert(q.spec_sort_key() == t);
                    Some(q)
                },
                None => None,
            }
        } else {
            proof {
                if let Some(t) = first_of(keys_of(set), kind_idx) {
                    assert(exists|t: Triple|
                        crate::pairs::is_first(keys_of(set), kind_idx, t));
                    let u = choose|u: Triple| crate::pairs::is_first(keys_of(set), kind_idx, u);
                    assert(keys_of(set).contains(u));
                }
            }
            None
        }
    }

    /// The subject's relations in ascending order.
    pub fn pairs(&self, entity_index: u32) -> (out: Vec<RelationPair>)
        requires
            self.wf(),
        ensures
            lists(out@, self@[entity_index]),
    {
        let idx: usize = entity_index as usize;
        let mut out: Vec<RelationPair> = Vec::new();
        if idx < self.entries.len() {
            assert(self.entries@[idx as int].wf());
            let triples: Vec<Triple> = self.entries[idx].storage.sorted();
            let mut i: usize = 0;
            while i < triples.len()
                invariant
                    i <= triples@.len(),
                    out@ == triples@.subrange(0, i as int).map_values(|t: Triple| pair_of(t)),
                decreases triples.len() - i,
            {
                out.push(to_pair(triples[i]));
                i = i + 1;
                assert(out@ =~= triples@.subrange(0, i as int).map_values(
                    |t: Triple| pair_of(t),
                ));
            }
            proof {
                assert(out@.map_values(|p: RelationPair| p.spec_sort_key()) =~= triples@);
                assert forall|p: RelationPair| #[trigger] out@.contains(p) <==> self@[entity_index].contains(
                    p,
                ) by {
                    let t = p.spec_sort_key();
                    assert(triples@.to_set().contains(t) <==> triples@.contains(t));
                    if triples@.contains(t) {
                        let k = choose|k: int| 0 <= k < triples@.len() && triples@[k] == t;
                        assert(out@[k] == p);
                    }
                    if out@.contains(p) {
                        let k = choose|k: int| 0 <= k < out@.len() && out@[k] == p;
                        assert(triples@[k] == t);
                    }
                }
            }
        }
        out
    }

    /// Takes all relations of a subject, in ascending order.
    pub fn take_all(&mut self, entity_index: u32) -> (out: Vec<RelationPair>)
        requires
            old(self).wf(),
        ensures
            final(self).wf(),
            final(self)@ == old(self)@.insert(entity_index, Set::<RelationPair>::empty()),
            lists(out@, old(self)@[entity_index]),
    {
        let out: Vec<RelationPair> = self.pairs(entity_index);
        let idx: usize = entity_index as usize;
        let ghost want = old(self)@.insert(entity_index, Set::<RelationPair>::empty());
        let ghost before = *self;
        if idx < self.entries.len() {
            self.entries.set(idx, SubjectEntry::new());
            proof {
                assert forall|i: int| 0 <= i < self.entries@.len() implies (
                #[trigger] self.entries@[i]).wf() by {
                    if i != idx {
                        assert(self.entries@[i] == before.entries@[i]);
                    }
                }
            }
        }
        proof {
            assert forall|i: u32| self.at(i) =~= #[trigger] want[i] by {
                if i != entity_index {
                    assert(self.at(i) =~= before.at(i));
                }
            }
            assert(self@ =~= want);
        }
        out
    }

    /// Every relation with its subject index, by subject and then in ascending order.
    pub fn iter_all(&self) -> (out: Vec<(u32, RelationPair)>)
        requires
            self.wf(),
        ensures
            forall|a: int, b: int|
                0 <= a < b < out@.len() ==> listed_before(#[trigger] out@[a], #[trigger] out@[b]),
            forall|i: u32, p: RelationPair| #[trigger]
                out@.contains((i, p)) <==> self@[i].contains(p),
    {
        let mut out: Vec<(u32, RelationPair)> = Vec::new();
        let mut i: usize = 0;
        while i < self.entries.len()
            invariant
                i <= self.entries@.len() <= u32::MAX + 1,
                self.wf(),
                forall|a: int, b: int|
                    0 <= a < b < out@.len() ==> listed_before(
                        #[trigger] out@[a],
                        #[trigger] out@[b],
                    ),
                forall|a: int| 0 <= a < out@.len() ==> (#[trigger] out@[a]).0 < i,
                forall|j: u32, p: RelationPair| #[trigger]
                    out@.contains((j, p)) <==> j < i && self@[j].contains(p),
            decreases self.entries.len() - i,
        {
            let idx: u32 = i as u32;
            let pairs: Vec<RelationPair> = self.pairs(idx);
            let ghost head = out@;
            let ghost keys = pairs@.map_values(|p: RelationPair| p.spec_sort_key());
            let mut k: usize = 0;
            while k < pairs.len()
                invariant
                    k <= pairs@.len(),
                    ascending(keys),
                    keys == pairs@.map_values(|p: RelationPair| p.spec_sort_key()),
                    out@ == head + pairs@.subrange(0, k as int).map_values(
                        |p: RelationPair| (idx, p),
                    ),
                decreases pairs.len() - k,
            {
                out.push((idx, pairs[k]));
                k = k + 1;
                assert(out@ =~= head + pairs@.subrange(0, k as int).map_values(
                    |p: RelationPair| (idx, p),
                ));
            }
            proof {
                assert(pairs@.subrange(0, pairs@.len() as int) =~= pairs@);
                let h = head.len() as int;
                assert forall|a: int| h <= a < out@.len() implies #[trigger] out@[a] == (
                    idx,
                    pairs@[a - h],
                ) by {}
                assert forall|a: int, b: int| 0 <= a < b < out@.len() implies listed_before(
                    #[trigger] out@[a],
                    #[trigger] out@[b],
                ) by {
                    if b < h {
                        assert(out@[a] == head[a] && out@[b] == head[b]);
                    } else if a < h {
                        assert(out@[a] == head[a]);
                    } else {
                        assert(crate::pairs::precedes(keys[a - h], keys[b - h]));
                    }
                }
                assert forall|a: int| 0 <= a < out@.len() implies (#[trigger] out@[a]).0 < i + 1 by {
                    if a < h {
                        assert(out@[a] == head[a]);
                    }
                }
                assert forall|j: u32, p: RelationPair| #[trigger]
                    out@.contains((j, p)) <==> j < i + 1 && self@[j].contains(p) by {
                    if out@.contains((j, p)) {
                        let a = choose|a: int| 0 <= a < out@.len() && out@[a] == (j, p);
                        if a < h {
                            assert(head[a] == (j, p));
                            assert(head.contains((j, p)));
                        } else {
                            assert(pairs@[a - h] == p);
                            assert(pairs@.contains(p));
                        }
                    }
                    if j < i && self@[j].contains(p) {
                        assert(head.contains((j, p)));
                        let a = choose|a: int| 0 <= a < head.len() && head[a] == (j, p);
                        assert(out@[a] == (j, p));
                    }
                    if j == i && self@[j].contains(p) {
                        assert(pairs@.contains(p));
                        let a = choose|a: int| 0 <= a < pairs@.len() && pairs@[a] == p;
                        assert(out@[h + a] == (j, p));
                    }
                }
            }
            i = i + 1;
        }
        out
    }
}

/// Order of listing: by subject, then by sort key.
pub open spec fn listed_before(a: (u32, RelationPair), b: (u32, RelationPair)) -> bool {
    a.0 < b.0 || (a.0 == b.0 && crate::pairs::precedes(a.1.spec_sort_key(), b.1.spec_sort_key()))
}

/// Number of subjects that point at `target` through the first `kinds` kinds.
pub open spec fn fan_in(m: Map<(u32, u32), Seq<Entity>>, target: u32, kinds: nat) -> nat
    decreases kinds,
{
    if kinds == 0 {
        0
    } else {
        fan_in(m, target, (kinds - 1) as nat) + m[((kinds - 1) as u32, target)].len()
    }
}

proof fn lemma_fan_in_update(
    m: Map<(u32, u32), Seq<Entity>>,
    n: Map<(u32, u32), Seq<Entity>>,
    target: u32,
    kind: u32,
    kinds: nat,
)
    requires
        kinds <= u32::MAX + 1,
        forall|k: u32| k != kind ==> #[trigger] n[(k, target)] == m[(k, target)],
    ensures
        kind < kinds ==> fan_in(n, target, kinds) == fan_in(m, target, kinds) + n[(
            kind,
            target,
        )].len() - m[(kind, target)].len(),
        kind >= kinds ==> fan_in(n, target, kinds) == fan_in(m, target, kinds),
    decreases kinds,
{
    if kinds > 0 {
        lemma_fan_in_update(m, n, target, kind, (kinds - 1) as nat);
    }
}

proof fn lemma_fan_in_member(
    m: Map<(u32, u32), Seq<Entity>>,
    target: u32,
    kind: u32,
    kinds: nat,
)
    requires
        kind < kinds <= u32::MAX + 1,
    ensures
        m[(kind, target)].len() <= fan_in(m, target, kinds),
    decreases kinds,
{
    if kind < kinds - 1 {
        lemma_fan_in_member(m, target, kind, (kinds - 1) as nat);
    }
}

proof fn lemma_fan_in_zero(m: Map<(u32, u32), Seq<Entity>>, target: u32, kinds: nat)
    requires
        kinds <= u32::MAX + 1,
    ensures
        fan_in(m, target, kinds) > 0 ==> exists|k: u32|
            k < kinds && (#[trigger] m[(k, target)]).len() > 0,
        (exists|k: u32| k < kinds && (#[trigger] m[(k, target)]).len() > 0) ==> fan_in(
            m,
            target,
            kinds,
        ) > 0,
    decreases kinds,
{
    if kinds > 0 {
        lemma_fan_in_zero(m, target, (kinds - 1) as nat);
        let last = (kinds - 1) as u32;
        if fan_in(m, target, kinds) > 0 {
            if m[(last, target)].len() == 0 {
                let k = choose|k: u32| k < kinds - 1 && (#[trigger] m[(k, target)]).len() > 0;
                assert(k < kinds && m[(k, target)].len() > 0);
            }
        }
        if exists|k: u32| k < kinds && (#[trigger] m[(k, target)]).len() > 0 {
            let k = choose|k: u32| k < kinds && (#[trigger] m[(k, target)]).len() > 0;
            lemma_fan_in_member(m, target, k, kinds);
        }
    }
}

proof fn lemma_fan_in_extend(m: Map<(u32, u32), Seq<Entity>>, target: u32, from: nat, to: nat)
    requires
        from <= to <= u32::MAX + 1,
        forall|k: u32| from <= k < to ==> (#[trigger] m[(k, target)]).len() == 0,
    ensures
        fan_in(m, target, to) == fan_in(m, target, from),
    decreases to - from,
{
    if from < to {
        lemma_fan_in_extend(m, target, from, (to - 1) as nat);
        assert(m[((to - 1) as u32, target)].len() == 0);
    }
}

/// Whether an entity with this index is the target of any relation.
pub open spec fn is_target(m: Map<(u32, u32), Seq<Entity>>, target: u32) -> bool {
    exists|k: u32| (#[trigger] m[(k, target)]).len() > 0
}

/// Place of the first occurrence of `e` in `s`, counted from `from`.
pub open spec fn place_of(s: Seq<Entity>, e: Entity) -> int
    decreases s.len(),
{
    if s.len() == 0 {
        0
    } else if s[0] == e {
        0
    } else {
        1 + place_of(s.drop_first(), e)
    }
}

proof fn lemma_place_of(s: Seq<Entity>, e: Entity, i: int)
    requires
        0 <= i < s.len(),
        s[i] == e,
        forall|k: int| 0 <= k < i ==> #[trigger] s[k] != e,
    ensures
        place_of(s, e) == i,
    decreases s.len(),
{
    if i > 0 {
        assert(s[0] != e);
        assert forall|k: int| 0 <= k < i - 1 implies #[trigger] s.drop_first()[k] != e by {
            assert(s[k + 1] != e);
        }
        lemma_place_of(s.drop_first(), e, i - 1);
    }
}

/// `s` with `e` at `index`, or at the end where `s` is shorter.
pub open spec fn placed(s: Seq<Entity>, e: Entity, index: nat) -> Seq<Entity> {
    s.insert(
        if index <= s.len() {
            index as int
        } else {
            s.len() as int
        },
        e,
    )
}

/// `s` without the first occurrence of `e`.
pub open spec fn dropped(s: Seq<Entity>, e: Entity) -> Seq<Entity> {
    if s.contains(e) {
        s.remove(place_of(s, e))
    } else {
        s
    }
}

/// Place of `e` among `items`, if it is there.
fn position_in(items: &[Entity], e: Entity) -> (pos: Option<usize>)
    ensures
        pos is Some <==> items@.contains(e),
        pos matches Some(i) ==> i < items@.len() && i == place_of(items@, e) && items@[i as int]
            == e,
{
    let mut i: usize = 0;
    while i < items.len()
        invariant
            i <= items@.len(),
            forall|k: int| 0 <= k < i ==> #[trigger] items@[k] != e,
        decreases items.len() - i,
    {
        if items[i] == e {
            proof {
                lemma_place_of(items@, e, i as int);
                assert(items@.contains(items@[i as int]));
            }
            return Some(i);
        }
        i = i + 1;
    }
    None
}

/// Subjects by kind and target index, in sibling order.
pub struct TargetIndex {
    by_kind: Vec<FxHashMap<u64, EntityList>>,
    target_counts: Vec<u32>,
}

impl View for TargetIndex {
    type V = Map<(u32, u32), Seq<Entity>>;

    /// The subjects of every kind and target index.
    closed spec fn view(&self) -> Map<(u32, u32), Seq<Entity>> {
        Map::new(|key: (u32, u32)| true, |key: (u32, u32)| self.at(key))
    }
}

impl TargetIndex {
    closed spec fn at(&self, key: (u32, u32)) -> Seq<Entity> {
        if key.0 < self.by_kind@.len() && self.by_kind@[key.0 as int]@.contains_key(key.1 as u64) {
            entity_items(self.by_kind@[key.0 as int]@[key.1 as u64])
        } else {
            Seq::empty()
        }
    }

    /// Number of relations that point at an entity with this index.
    pub closed spec fn count(&self, target: u32) -> nat {
        if target < self.target_counts@.len() {
            self.target_counts@[target as int] as nat
        } else {
            0
        }
    }

    /// The index's invariant: the counts are right, and no list is empty.
    pub closed spec fn wf(&self) -> bool {
        &&& self.by_kind@.len() <= u32::MAX + 1
        &&& forall|t: u32| #[trigger] self.count(t) == fan_in(self@, t, self.by_kind@.len())
        &&& forall|k: int, t: u64|
            0 <= k < self.by_kind@.len() && #[trigger] self.by_kind@[k]@.contains_key(t) ==> t
                <= u32::MAX && entity_items(self.by_kind@[k]@[t]).len() > 0
    }

    /// Every kind and target index has a list of subjects, be it empty.
    pub proof fn lemma_total(&self)
        ensures
            forall|key: (u32, u32)| #[trigger] self@.contains_key(key),
    {
    }

    /// The counts count: an entity is a target exactly where its count is positive.
    proof fn lemma_count(&self, target: u32)
        requires
            self.wf(),
        ensures
            self.count(target) > 0 <==> is_target(self@, target),
    {
        let n = self.by_kind@.len();
        lemma_fan_in_zero(self@, target, n);
        assert(self.count(target) == fan_in(self@, target, n));
        if is_target(self@, target) {
            let k = choose|k: u32| (#[trigger] self@[(k, target)]).len() > 0;
            assert(k < n);
        }
    }

    /// A list is never longer than the count of its target.
    pub proof fn lemma_list_within_count(&self, kind_idx: u32, target: u32)
        requires
            self.wf(),
        ensures
            self@[(kind_idx, target)].len() <= self.count(target),
    {
        let n = self.by_kind@.len();
        assert(self.count(target) == fan_in(self@, target, n));
        if kind_idx < n {
            lemma_fan_in_member(self@, target, kind_idx, n);
        }
    }

    /// An index without relations.
    pub fn new() -> (t: TargetIndex)
        ensures
            t.wf(),
            forall|key: (u32, u32)| (#[trigger] t@[key]).len() == 0,
            forall|i: u32| #[trigger] t.count(i) == 0,
    {
        TargetIndex { by_kind: Vec::new(), target_counts: Vec::new() }
    }

    fn ensure_kind(&mut self, kind_idx: u32)
        requires
            old(self).wf(),
        ensures
            final(self).wf(),
            final(self)@ == old(self)@,
            kind_idx < final(self).by_kind@.len(),
            final(self).target_counts == old(self).target_counts,
    {
        while self.by_kind.len() <= kind_idx as usize
            invariant
                self.wf(),
                self@ == old(self)@,
                self.target_counts == old(self).target_counts,
            decreases kind_idx + 1 - self.by_kind.len(),
        {
            let ghost before = *self;
            self.by_kind.push(map_new());
            proof {
                assert forall|key: (u32, u32)| self.at(key) =~= before.at(key) by {}
                assert(self@ =~= before@);
                assert forall|t: u32| #[trigger] self.count(t) == fan_in(
                    self@,
                    t,
                    self.by_kind@.len(),
                ) by {
                    assert(before.count(t) == fan_in(before@, t, before.by_kind@.len()));
                    lemma_fan_in_extend(self@, t, before.by_kind@.len(), self.by_kind@.len());
                }
                assert forall|k: int, t: u64|
                    0 <= k < self.by_kind@.len() && #[trigger] self.by_kind@[k]@.contains_key(
                        t,
                    ) implies t <= u32::MAX && entity_items(self.by_kind@[k]@[t]).len() > 0 by {
                    if k < before.by_kind@.len() {
                        assert(before.by_kind@[k]@.contains_key(t));
                    }
                }
            }
        }
    }

    /// Whether an entity with this index is the target of any relation.
    pub fn is_any_target(&self, entity_index: u32) -> (b: bool)
        requires
            self.wf(),
        ensures
            b == is_target(self@, entity_index),
    {
        proof {
            self.lemma_count(entity_index);
        }
        let i: usize = entity_index as usize;
        if i < self.target_counts.len() {
            self.target_counts[i] > 0
        } else {
            false
        }
    }

    /// Whether an entity with this index is the target of any relation.
    pub fn has_target(&self, entity_index: u32) -> (b: bool)
        requires
            self.wf(),
        ensures
            b == is_target(self@, entity_index),
    {
        self.is_any_target(entity_index)
    }

    fn ensure_count(&mut self, target_index: u32)
        ensures
            final(self).by_kind == old(self).by_kind,
            target_index < final(self).target_counts@.len(),
            forall|t: u32| #[trigger] final(self).count(t) == old(self).count(t),
    {
        while self.target_counts.len() <= target_index as usize
            invariant
                self.by_kind == old(self).by_kind,
                forall|t: u32| #[trigger] self.count(t) == old(self).count(t),
            decreases target_index + 1 - self.target_counts.len(),
        {
            let ghost before = *self;
            self.target_counts.push(0);
            proof {
                assert forall|t: u32| #[trigger] self.count(t) == old(self).count(t) by {
                    assert(before.count(t) == old(self).count(t));
                }
            }
        }
    }

    /// Appends `subject` to the siblings of the kind and target.
    pub fn add(&mut self, kind_idx: u32, target: Entity, subject: Entity)
        requires
            old(self).wf(),
            old(self).count(target.index) < u32::MAX,
        ensures
            final(self).wf(),
            final(self)@ == old(self)@.insert(
                (kind_idx, target.index),
                old(self)@[(kind_idx, target.index)].push(subject),
            ),
            forall|t: u32| #[trigger]
                final(self).count(t) == old(self).count(t) + if t == target.index {
                    1nat
                } else {
                    0nat
                },
    {
        let len: usize = self.subjects(kind_idx, target.index).len();
        let ghost list = self@[(kind_idx, target.index)];
        self.add_at(kind_idx, target, subject, len);
        assert(placed(list, subject, list.len()) =~= list.push(subject));
    }

    /// Puts `subject` at `index` among the siblings of the kind and target, or at the end where
    /// there are fewer.
    pub fn add_at(&mut self, kind_idx: u32, target: Entity, subject: Entity, index: usize)
        requires
            old(self).wf(),
            old(self).count(target.index) < u32::MAX,
        ensures
            final(self).wf(),
            final(self)@ == old(self)@.insert(
                (kind_idx, target.index),
                placed(old(self)@[(kind_idx, target.index)], subject, index as nat),
            ),
            forall|t: u32| #[trigger]
                final(self).count(t) == old(self).count(t) + if t == target.index {
                    1nat
                } else {
                    0nat
                },
    {
        let ghost key = (kind_idx, target.index);
        let ghost list = old(self)@[key];
        let ghost want = old(self)@.insert(key, placed(list, subject, index as nat));
        self.ensure_kind(kind_idx);
        let ghost mid = *self;
        assert forall|u: u32| #[trigger] mid.count(u) == old(self).count(u) by {}
        self.ensure_count(target.index);
        let ghost before = *self;
        assert(before.count(target.index) == mid.count(target.index));
        assert(before@ =~= old(self)@);
        let k: usize = kind_idx as usize;
        let t: u64 = target.index as u64;
        let mut fresh: bool = true;
        if let Some(siblings) = map_get_mut(&mut self.by_kind[k], t) {
            let len: usize = siblings.as_slice().len();
            let pos: usize = if index <= len { index } else { len };
            siblings.insert(pos, subject);
            fresh = false;
        }
        if fresh {
            let mut siblings: EntityList = EntityList::new();
            siblings.insert(0, subject);
            let none: Option<EntityList> = map_insert(&mut self.by_kind[k], t, siblings);
            assert(entity_items(siblings) =~= placed(list, subject, index as nat));
        }
        let ti: usize = target.index as usize;
        self.target_counts.set(ti, self.target_counts[ti] + 1);
        proof {
            assert forall|x: (u32, u32)| self.at(x) =~= #[trigger] want[x] by {
                assert(before.at(x) == old(self)@[x]);
                if x != key {
                    assert(self.at(x) =~= before.at(x));
                }
            }
            assert(self@ =~= want);
            assert(self@[key].len() == list.len() + 1);
            assert forall|u: u32| #[trigger]
                self.count(u) == fan_in(self@, u, self.by_kind@.len()) && self.count(u) == old(
                self,
            ).count(u) + if u == target.index {
                1nat
            } else {
                0nat
            } by {
                assert(before.count(u) == mid.count(u));
                assert(mid.count(u) == fan_in(mid@, u, mid.by_kind@.len()));
                if u == target.index {
                    lemma_fan_in_update(old(self)@, self@, u, kind_idx, self.by_kind@.len());
                } else {
                    lemma_fan_in_same(old(self)@, self@, u, self.by_kind@.len());
                }
            }
            assert forall|i: int, x: u64|
                0 <= i < self.by_kind@.len() && #[trigger] self.by_kind@[i]@.contains_key(
                    x,
                ) implies x <= u32::MAX && entity_items(self.by_kind@[i]@[x]).len() > 0 by {
                if i != k {
                    assert(self.by_kind@[i] == before.by_kind@[i]);
                    assert(before.by_kind@[i]@.contains_key(x));
                } else if x != t {
                    assert(before.by_kind@[i]@.contains_key(x));
                }
            }
        }
    }

    /// Place of `subject` among the siblings of the kind and target.
    pub fn position(&self, kind_idx: u32, target_index: u32, subject: Entity) -> (pos: Option<usize>)
        requires
            self.wf(),
        ensures
            pos is Some <==> self@[(kind_idx, target_index)].contains(subject),
            pos matches Some(i) ==> i == place_of(self@[(kind_idx, target_index)], subject) && i
                < self@[(kind_idx, target_index)].len(),
    {
        position_in(self.subjects(kind_idx, target_index), subject)
    }

    /// Moves `subject` to `index` among its siblings, or to the end where there are fewer. False
    /// where it is not among them.
    pub fn move_to(
        &mut self,
        kind_idx: u32,
        target_index: u32,
        subject: Entity,
        index: usize,
    ) -> (moved: bool)
        requires
            old(self).wf(),
        ensures
            final(self).wf(),
            moved == old(self)@[(kind_idx, target_index)].contains(subject),
            forall|t: u32| #[trigger] final(self).count(t) == old(self).count(t),
            final(self)@ == if moved {
                old(self)@.insert(
                    (kind_idx, target_index),
                    placed(
                        dropped(old(self)@[(kind_idx, target_index)], subject),
                        subject,
                        index as nat,
                    ),
                )
            } else {
                old(self)@
            },
    {
        let ghost key = (kind_idx, target_index);
        let ghost list = old(self)@[key];
        match self.position(kind_idx, target_index, subject) {
            None => false,
            Some(pos) => {
                let ghost want = old(self)@.insert(
                    key,
                    placed(dropped(list, subject), subject, index as nat),
                );
                let ghost before = *self;
                let k: usize = kind_idx as usize;
                let t: u64 = target_index as u64;
                if let Some(siblings) = map_get_mut(&mut self.by_kind[k], t) {
                    let e: Entity = siblings.remove(pos);
                    let len: usize = siblings.as_slice().len();
                    let new_pos: usize = if index <= len { index } else { len };
                    siblings.insert(new_pos, subject);
                }
                proof {
                    assert forall|x: (u32, u32)| self.at(x) =~= #[trigger] want[x] by {
                        if x != key {
                            assert(self.at(x) =~= before.at(x));
                        }
                    }
                    assert(self@ =~= want);
                    self.lemma_same_counts(before, kind_idx, target_index);
                }
                true
            },
        }
    }

    proof fn lemma_same_counts(&self, before: TargetIndex, kind_idx: u32, target_index: u32)
        requires
            before.wf(),
            self.target_counts == before.target_counts,
            self.by_kind@.len() == before.by_kind@.len(),
            kind_idx < self.by_kind@.len(),
            forall|x: (u32, u32)|
                x != (kind_idx, target_index) ==> #[trigger] self@[x] == before@[x],
            self@[(kind_idx, target_index)].len() == before@[(kind_idx, target_index)].len(),
            before@[(kind_idx, target_index)].len() > 0,
            forall|i: int|
                0 <= i < self.by_kind@.len() && i != kind_idx ==> #[trigger] self.by_kind@[i]
                    == before.by_kind@[i],
            forall|x: u64|
                x != target_index ==> (#[trigger] self.by_kind@[kind_idx as int]@.contains_key(x)
                    <==> before.by_kind@[kind_idx as int]@.contains_key(x))
                    && self.by_kind@[kind_idx as int]@[x] == before.by_kind@[kind_idx as int]@[x],
        ensures
            self.wf(),
            forall|t: u32| #[trigger] self.count(t) == before.count(t),
    {
        assert forall|u: u32| #[trigger] self.count(u) == fan_in(self@, u, self.by_kind@.len())
            && self.count(u) == before.count(u) by {
            assert(before.count(u) == fan_in(before@, u, before.by_kind@.len()));
            if u == target_index {
                lemma_fan_in_update(before@, self@, u, kind_idx, self.by_kind@.len());
            } else {
                lemma_fan_in_same(before@, self@, u, self.by_kind@.len());
            }
        }
        assert forall|i: int, x: u64|
            0 <= i < self.by_kind@.len() && #[trigger] self.by_kind@[i]@.contains_key(
                x,
            ) implies x <= u32::MAX && entity_items(self.by_kind@[i]@[x]).len() > 0 by {
            if i != kind_idx {
                assert(before.by_kind@[i]@.contains_key(x));
            } else if x != target_index {
                assert(before.by_kind@[i]@.contains_key(x));
            } else {
                assert(self.at((kind_idx, target_index)) == entity_items(self.by_kind@[i]@[x]));
                assert(self@[(kind_idx, target_index)].len() > 0);
            }
        }
    }

    /// Takes `subject` out from among its siblings, whose order stays. False where it is not
    /// among them.
    pub fn remove(&mut self, kind_idx: u32, target_index: u32, subject: Entity) -> (removed: bool)
        requires
            old(self).wf(),
        ensures
            final(self).wf(),
            removed == old(self)@[(kind_idx, target_index)].contains(subject),
            final(self)@ == old(self)@.insert(
                (kind_idx, target_index),
                dropped(old(self)@[(kind_idx, target_index)], subject),
            ),
            forall|t: u32| #[trigger] final(self).count(t) <= old(self).count(t),
    {
        let ghost key = (kind_idx, target_index);
        let ghost list = old(self)@[key];
        let ghost want = old(self)@.insert(key, dropped(list, subject));
        match self.position(kind_idx, target_index, subject) {
            None => {
                assert(self@ =~= want);
                false
            },
            Some(pos) => {
                let ghost before = *self;
                proof {
                    self.lemma_list_within_count(kind_idx, target_index);
                }
                let k: usize = kind_idx as usize;
                let t: u64 = target_index as u64;
                let mut empty: bool = false;
                if let Some(siblings) = map_get_mut(&mut self.by_kind[k], t) {
                    let e: Entity = siblings.remove(pos);
                    empty = siblings.as_slice().len() == 0;
                }
                if empty {
                    let gone: Option<EntityList> = map_remove(&mut self.by_kind[k], t);
                }
                let ti: usize = target_index as usize;
                self.target_counts.set(ti, self.target_counts[ti] - 1);
                proof {
                    assert forall|x: (u32, u32)| self.at(x) =~= #[trigger] want[x] by {
                        if x != key {
                            assert(self.at(x) =~= before.at(x));
                        }
                    }
                    assert(self@ =~= want);
                    self.lemma_counts_after(before, kind_idx, target_index, 1);
                }
                true
            },
        }
    }

    proof fn lemma_counts_after(
        &self,
        before: TargetIndex,
        kind_idx: u32,
        target_index: u32,
        less: nat,
    )
        requires
            before.wf(),
            target_index < before.target_counts@.len(),
            less <= before.count(target_index),
            self.target_counts@ == before.target_counts@.update(
                target_index as int,
                (before.target_counts@[target_index as int] - less) as u32,
            ),
            self.by_kind@.len() == before.by_kind@.len(),
            kind_idx < self.by_kind@.len(),
            forall|x: (u32, u32)|
                x != (kind_idx, target_index) ==> #[trigger] self@[x] == before@[x],
            self@[(kind_idx, target_index)].len() == before@[(kind_idx, target_index)].len() - less,
            forall|i: int|
                0 <= i < self.by_kind@.len() && i != kind_idx ==> #[trigger] self.by_kind@[i]
                    == before.by_kind@[i],
            forall|x: u64|
                x != target_index ==> (#[trigger] self.by_kind@[kind_idx as int]@.contains_key(x)
                    <==> before.by_kind@[kind_idx as int]@.contains_key(x))
                    && self.by_kind@[kind_idx as int]@[x] == before.by_kind@[kind_idx as int]@[x],
            self.by_kind@[kind_idx as int]@.contains_key(target_index as u64) ==> self@[(
                kind_idx,
                target_index,
            )].len() > 0,
        ensures
            self.wf(),
            forall|t: u32| #[trigger] self.count(t) <= before.count(t),
    {
        assert forall|u: u32| #[trigger] self.count(u) == fan_in(self@, u, self.by_kind@.len())
            && self.count(u) <= before.count(u) by {
            assert(before.count(u) == fan_in(before@, u, before.by_kind@.len()));
            if u == target_index {
                lemma_fan_in_update(before@, self@, u, kind_idx, self.by_kind@.len());
            } else {
                lemma_fan_in_same(before@, self@, u, self.by_kind@.len());
            }
        }
        assert forall|i: int, x: u64|
            0 <= i < self.by_kind@.len() && #[trigger] self.by_kind@[i]@.contains_key(
                x,
            ) implies x <= u32::MAX && entity_items(self.by_kind@[i]@[x]).len() > 0 by {
            if i != kind_idx {
                assert(before.by_kind@[i]@.contains_key(x));
            } else if x != target_index {
                assert(before.by_kind@[i]@.contains_key(x));
            } else {
                assert(self.at((kind_idx, target_index)) == entity_items(self.by_kind@[i]@[x]));
            }
        }
    }

    /// Takes all siblings of the kind and target, in order.
    pub fn take_subjects(&mut self, kind_idx: u32, target_index: u32) -> (out: Vec<Entity>)
        requires
            old(self).wf(),
        ensures
            final(self).wf(),
            out@ == old(self)@[(kind_idx, target_index)],
            final(self)@ == old(self)@.insert((kind_idx, target_index), Seq::<Entity>::empty()),
            forall|t: u32| #[trigger] final(self).count(t) <= old(self).count(t),
    {
        let ghost key = (kind_idx, target_index);
        let ghost want = old(self)@.insert(key, Seq::<Entity>::empty());
        let ghost before = *self;
        proof {
            self.lemma_list_within_count(kind_idx, target_index);
        }
        let out: Vec<Entity> = copied(self.subjects(kind_idx, target_index));
        if out.len() > 0 {
            let k: usize = kind_idx as usize;
            let gone: Option<EntityList> = map_remove(&mut self.by_kind[k], target_index as u64);
            let ti: usize = target_index as usize;
            let n: u32 = out.len() as u32;
            self.target_counts.set(ti, self.target_counts[ti] - n);
        }
        proof {
            assert forall|x: (u32, u32)| self.at(x) =~= #[trigger] want[x] by {
                if x != key {
                    assert(self.at(x) =~= before.at(x));
                }
            }
            assert(self@ =~= want);
            if out@.len() > 0 {
                self.lemma_counts_after(before, kind_idx, target_index, out@.len());
            }
        }
        out
    }

    /// The siblings of the kind and target, in order.
    pub fn subjects(&self, kind_idx: u32, target_index: u32) -> (out: &[Entity])
        requires
            self.wf(),
        ensures
            out@ == self@[(kind_idx, target_index)],
    {
        let k: usize = kind_idx as usize;
        if k < self.by_kind.len() {
            if let Some(siblings) = map_get(&self.by_kind[k], target_index as u64) {
                return siblings.as_slice();
            }
        }
        empty_slice()
    }

    /// The targets of a kind, in ascending order of their index.
    pub fn targets_sorted(&self, kind_idx: u32) -> (out: Vec<u32>)
        requires
            self.wf(),
        ensures
            forall|a: int, b: int| 0 <= a < b < out@.len() ==> #[trigger] out@[a] < #[trigger] out@[b],
            forall|t: u32| #[trigger] out@.contains(t) <==> self@[(kind_idx, t)].len() > 0,
    {
        let mut out: Vec<u32> = Vec::new();
        let k: usize = kind_idx as usize;
        if k < self.by_kind.len() {
            let keys: Vec<u64> = map_keys(&self.by_kind[k]);
            let mut i: usize = 0;
            while i < keys.len()
                invariant
                    i <= keys@.len(),
                    forall|x: u64| #[trigger] keys@.contains(x) ==> x <= u32::MAX,
                    forall|a: int, b: int|
                        0 <= a < b < out@.len() ==> #[trigger] out@[a] < #[trigger] out@[b],
                    forall|t: u32| #[trigger]
                        out@.contains(t) <==> keys@.subrange(0, i as int).contains(t as u64),
                decreases keys.len() - i,
            {
                assert(keys@.contains(keys@[i as int]));
                let x: u32 = keys[i] as u32;
                let ghost a = keys@.subrange(0, i as int);
                let ghost c = keys@.subrange(0, i + 1);
                let ghost before = out@;
                proof {
                    assert forall|y: u64| c.contains(y) <==> a.contains(y) || y == x as u64 by {
                        if a.contains(y) {
                            let n = choose|n: int| 0 <= n < a.len() && a[n] == y;
                            assert(c[n] == y);
                        }
                        if y == x as u64 {
                            assert(c[i as int] == y);
                        }
                        if c.contains(y) {
                            let n = choose|n: int| 0 <= n < c.len() && c[n] == y;
                            if n < i {
                                assert(a[n] == y);
                            }
                        }
                    }
                }
                insert_ascending(&mut out, x);
                proof {
                    assert forall|t: u32| #[trigger] out@.contains(t) <==> c.contains(t as u64) by {
                        assert(before.contains(t) <==> a.contains(t as u64));
                    }
                }
                i = i + 1;
            }
            proof {
                assert(keys@.subrange(0, keys@.len() as int) =~= keys@);
                assert forall|t: u32| #[trigger] out@.contains(t) <==> self@[(kind_idx, t)].len() > 0 by {
                    assert(out@.contains(t) <==> keys@.contains(t as u64));
                    assert(keys@.contains(t as u64) <==> self.by_kind@[k as int]@.contains_key(
                        t as u64,
                    ));
                    assert(self@[(kind_idx, t)] == self.at((kind_idx, t)));
                }
            }
        }
        out
    }

    /// All subjects of a kind: by target in ascending order, and among one target in sibling
    /// order.
    pub fn all_subjects(&self, kind_idx: u32) -> (out: Vec<Entity>)
        requires
            self.wf(),
        ensures
            exists|targets: Seq<u32>|
                #[trigger] lists_targets(self@, kind_idx, targets) && out@ == joined(
                    self@,
                    kind_idx,
                    targets,
                ),
    {
        let targets: Vec<u32> = self.targets_sorted(kind_idx);
        let mut out: Vec<Entity> = Vec::new();
        let mut i: usize = 0;
        assert(targets@.subrange(0, 0) =~= Seq::<u32>::empty());
        while i < targets.len()
            invariant
                i <= targets@.len(),
                self.wf(),
                out@ == joined(self@, kind_idx, targets@.subrange(0, i as int)),
            decreases targets.len() - i,
        {
            let mut part: Vec<Entity> = copied(self.subjects(kind_idx, targets[i]));
            out.append(&mut part);
            i = i + 1;
            proof {
                let head = targets@.subrange(0, i as int);
                assert(head.drop_last() =~= targets@.subrange(0, i - 1));
            }
        }
        proof {
            assert(targets@.subrange(0, targets@.len() as int) =~= targets@);
            assert(lists_targets(self@, kind_idx, targets@));
        }
        out
    }
}

/// Whether `targets` are the targets of a kind, in ascending order.
pub open spec fn lists_targets(
    m: Map<(u32, u32), Seq<Entity>>,
    kind_idx: u32,
    targets: Seq<u32>,
) -> bool {
    &&& forall|a: int, b: int|
        0 <= a < b < targets.len() ==> #[trigger] targets[a] < #[trigger] targets[b]
    &&& forall|t: u32| #[trigger] targets.contains(t) <==> m[(kind_idx, t)].len() > 0
}

/// The subjects of several targets, one list after the other.
pub open spec fn joined(
    m: Map<(u32, u32), Seq<Entity>>,
    kind_idx: u32,
    targets: Seq<u32>,
) -> Seq<Entity>
    decreases targets.len(),
{
    if targets.len() == 0 {
        Seq::empty()
    } else {
        joined(m, kind_idx, targets.drop_last()) + m[(kind_idx, targets.last())]
    }
}

proof fn lemma_fan_in_same(
    m: Map<(u32, u32), Seq<Entity>>,
    n: Map<(u32, u32), Seq<Entity>>,
    target: u32,
    kinds: nat,
)
    requires
        kinds <= u32::MAX + 1,
        forall|k: u32| #[trigger] n[(k, target)] == m[(k, target)],
    ensures
        fan_in(n, target, kinds) == fan_in(m, target, kinds),
    decreases kinds,
{
    if kinds > 0 {
        lemma_fan_in_same(m, n, target, (kinds - 1) as nat);
    }
}

/// An empty slice of entities.
fn empty_slice<'a>() -> (out: &'a [Entity])
    ensures
        out@ == Seq::<Entity>::empty(),
{
    let out: &[Entity; 0] = &[];
    assert(out@ =~= Seq::<Entity>::empty());
    out.as_slice()
}

/// The items of a slice.
pub(crate) fn copied(items: &[Entity]) -> (out: Vec<Entity>)
    ensures
        out@ == items@,
{
    let mut out: Vec<Entity> = Vec::new();
    let mut i: usize = 0;
    while i < items.len()
        invariant
            i <= items@.len(),
            out@ == items@.subrange(0, i as int),
        decreases items.len() - i,
    {
        out.push(items[i]);
        i = i + 1;
        assert(out@ =~= items@.subrange(0, i as int));
    }
    assert(out@ =~= items@);
    out
}

/// Puts `x` at its place in an ascending list that does not hold it yet.
fn insert_ascending(v: &mut Vec<u32>, x: u32)
    requires
        forall|a: int, b: int|
            0 <= a < b < old(v)@.len() ==> #[trigger] old(v)@[a] < #[trigger] old(v)@[b],
    ensures
        forall|a: int, b: int|
            0 <= a < b < final(v)@.len() ==> #[trigger] final(v)@[a] < #[trigger] final(v)@[b],
        forall|y: u32| #[trigger] final(v)@.contains(y) <==> old(v)@.contains(y) || y == x,
{
    let mut i: usize = 0;
    while i < v.len() && v[i] < x
        invariant
            i <= v@.len(),
            *v == *old(v),
            forall|a: int| 0 <= a < i ==> #[trigger] v@[a] < x,
        decreases v.len() - i,
    {
        i = i + 1;
    }
    let ghost s = v@;
    if i < v.len() && v[i] == x {
        assert(v@.contains(v@[i as int]));
        return;
    }
    v.insert(i, x);
    proof {
        let t = v@;
        assert(t =~= s.insert(i as int, x));
        assert forall|a: int, b: int| 0 <= a < b < t.len() implies #[trigger] t[a] < #[trigger] t[b] by {
            let p = if a < i { s[a] } else { s[a - 1] };
            let q = if b < i { s[b] } else { s[b - 1] };
            if a == i && b > i && b - 1 > i {
                assert(s[i as int] < s[b - 1]);
            }
        }
        assert forall|y: u32| #[trigger] t.contains(y) <==> s.contains(y) || y == x by {
            if s.contains(y) {
                let k = choose|k: int| 0 <= k < s.len() && s[k] == y;
                assert(t[if k < i { k } else { k + 1 }] == y);
            }
            if y == x {
                assert(t[i as int] == y);
            }
            if t.contains(y) {
                let k = choose|k: int| 0 <= k < t.len() && t[k] == y;
                if k != i {
                    assert(s[if k < i { k } else { k - 1 }] == y);
                }
            }
        }
    }
}

impl TargetIndex {
    /// The largest number of relations that point at one entity.
    pub fn largest_count(&self) -> (n: u32)
        ensures
            forall|t: u32| #[trigger] self.count(t) <= n,
            n > 0 ==> exists|t: u32| #[trigger] self.count(t) == n,
    {
        let mut n: u32 = 0;
        let ghost mut best: u32 = 0;
        let mut i: usize = 0;
        while i < self.target_counts.len() && i <= 0xFFFF_FFFF
            invariant
                i <= self.target_counts@.len(),
                i <= 0x1_0000_0000,
                forall|t: u32| t < i ==> #[trigger] self.count(t) <= n,
                n > 0 ==> self.count(best) == n,
            decreases self.target_counts.len() - i,
        {
            assert(self.count(i as u32) == self.target_counts@[i as int]);
            if self.target_counts[i] > n {
                n = self.target_counts[i];
                proof {
                    best = i as u32;
                }
            }
            i = i + 1;
        }
        n
    }
}

impl TargetIndex {
    /// The targets of a kind with their subjects, by target in ascending order.
    pub fn entries_sorted(&self, kind_idx: u32) -> (entries: Vec<(u32, &[Entity])>)
        requires
            self.wf(),
        ensures
            lists_targets(
                self@,
                kind_idx,
                entries@.map_values(|e: (u32, &[Entity])| e.0),
            ),
            forall|i: int|
                0 <= i < entries@.len() ==> (#[trigger] entries@[i]).1@ == self@[(
                    kind_idx,
                    entries@[i].0,
                )],
    {
        let targets: Vec<u32> = self.targets_sorted(kind_idx);
        let mut entries: Vec<(u32, &[Entity])> = Vec::new();
        let mut i: usize = 0;
        while i < targets.len()
            invariant
                i <= targets@.len(),
                self.wf(),
                entries@.len() == i,
                forall|k: int|
                    0 <= k < i ==> (#[trigger] entries@[k]).0 == targets@[k] && entries@[k].1@
                        == self@[(kind_idx, targets@[k])],
            decreases targets.len() - i,
        {
            entries.push((targets[i], self.subjects(kind_idx, targets[i])));
            i = i + 1;
        }
        assert(entries@.map_values(|e: (u32, &[Entity])| e.0) =~= targets@);
        entries
    }
}

} // verus!
