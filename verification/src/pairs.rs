//! The relations of one entity: a set of number triples that is a sorted list while it is small
//! and a hash set once it has grown.

use vstd::prelude::*;
use rustc_hash::FxHashSet;
use crate::fx::{set_contains, set_insert, set_items, set_new, set_remove};
use crate::inline::{TripleList, triple_items};

verus! {

/// Sort key of a relation: kind, target index, target generation.
pub type Triple = (u32, u32, u32);

/// Number of triples above which the list becomes a hash set.
pub const DENSE_THRESHOLD: usize = 8;

/// Order of triples: by the first number, then the second, then the third.
pub open spec fn precedes(a: Triple, b: Triple) -> bool {
    a.0 < b.0 || (a.0 == b.0 && (a.1 < b.1 || (a.1 == b.1 && a.2 < b.2)))
}

/// Whether `s` is in ascending order without repetition.
pub open spec fn ascending(s: Seq<Triple>) -> bool {
    forall|i: int, j: int| 0 <= i < j < s.len() ==> precedes(#[trigger] s[i], #[trigger] s[j])
}

/// Whether a triple of `s` has the given kind.
pub open spec fn has_kind(s: Set<Triple>, kind: u32) -> bool {
    exists|t: Triple| #[trigger] s.contains(t) && t.0 == kind
}

/// Whether `t` is the least triple of its kind in `s`.
pub open spec fn is_first(s: Set<Triple>, kind: u32, t: Triple) -> bool {
    s.contains(t) && t.0 == kind && forall|u: Triple| #[trigger]
        s.contains(u) && u.0 == kind ==> !precedes(u, t)
}

/// The least triple of the given kind, if there is one.
pub open spec fn first_of(s: Set<Triple>, kind: u32) -> Option<Triple> {
    if exists|t: Triple| is_first(s, kind, t) {
        Some(choose|t: Triple| is_first(s, kind, t))
    } else {
        None
    }
}

pub(crate) proof fn lemma_first_of(s: Set<Triple>, kind: u32, t: Triple)
    requires
        is_first(s, kind, t),
    ensures
        first_of(s, kind) == Some(t),
{
    let u = choose|u: Triple| is_first(s, kind, u);
    assert(is_first(s, kind, u));
    assert(!precedes(u, t) && !precedes(t, u));
}

/// Whether `a` comes before `b`.
fn comes_before(a: Triple, b: Triple) -> (r: bool)
    ensures
        r == precedes(a, b),
{
    a.0 < b.0 || (a.0 == b.0 && (a.1 < b.1 || (a.1 == b.1 && a.2 < b.2)))
}

/// Looks `key` up in an ascending list: `Ok` with its place, or `Err` with the place at which it
/// would stand.
fn find(items: &[Triple], key: Triple) -> (r: Result<usize, usize>)
    requires
        ascending(items@),
    ensures
        match r {
            Ok(i) => i < items@.len() && items@[i as int] == key,
            Err(i) => {
                &&& i <= items@.len()
                &&& !items@.contains(key)
                &&& forall|k: int| 0 <= k < i ==> precedes(#[trigger] items@[k], key)
                &&& forall|k: int| i <= k < items@.len() ==> precedes(key, #[trigger] items@[k])
            },
        },
{
    let mut lo: usize = 0;
    let mut hi: usize = items.len();
    while lo < hi
        invariant
            lo <= hi <= items@.len(),
            ascending(items@),
            forall|k: int| 0 <= k < lo ==> precedes(#[trigger] items@[k], key),
            forall|k: int| hi <= k < items@.len() ==> precedes(key, #[trigger] items@[k]),
        decreases hi - lo,
    {
        let mid: usize = lo + (hi - lo) / 2;
        let m: Triple = items[mid];
        if comes_before(m, key) {
            assert forall|k: int| 0 <= k < mid + 1 implies precedes(#[trigger] items@[k], key) by {
                if k < mid {
                    assert(precedes(items@[k], items@[mid as int]));
                }
            }
            lo = mid + 1;
        } else if comes_before(key, m) {
            assert forall|k: int| mid <= k < items@.len() implies precedes(
                key,
                #[trigger] items@[k],
            ) by {
                if k > mid {
                    assert(precedes(items@[mid as int], items@[k]));
                }
            }
            hi = mid;
        } else {
            return Ok(mid);
        }
    }
    Err(lo)
}

proof fn lemma_insert_ascending(s: Seq<Triple>, i: int, key: Triple)
    requires
        ascending(s),
        0 <= i <= s.len(),
        forall|k: int| 0 <= k < i ==> precedes(#[trigger] s[k], key),
        forall|k: int| i <= k < s.len() ==> precedes(key, #[trigger] s[k]),
    ensures
        ascending(s.insert(i, key)),
        s.insert(i, key).to_set() =~= s.to_set().insert(key),
{
    let t = s.insert(i, key);
    assert forall|a: int, b: int| 0 <= a < b < t.len() implies precedes(
        #[trigger] t[a],
        #[trigger] t[b],
    ) by {
        let x = if a < i { s[a] } else { s[a - 1] };
        let y = if b < i { s[b] } else { s[b - 1] };
    }
    assert forall|x: Triple| t.contains(x) <==> s.contains(x) || x == key by {
        if s.contains(x) {
            let k = choose|k: int| 0 <= k < s.len() && s[k] == x;
            assert(t[if k < i { k } else { k + 1 }] == x);
        }
        if x == key {
            assert(t[i] == x);
        }
        if t.contains(x) {
            let k = choose|k: int| 0 <= k < t.len() && t[k] == x;
            if k != i {
                assert(s[if k < i { k } else { k - 1 }] == x);
            }
        }
    }
}

proof fn lemma_remove_ascending(s: Seq<Triple>, i: int)
    requires
        ascending(s),
        0 <= i < s.len(),
    ensures
        ascending(s.remove(i)),
        s.remove(i).to_set() =~= s.to_set().remove(s[i]),
{
    let t = s.remove(i);
    assert forall|a: int, b: int| 0 <= a < b < t.len() implies precedes(
        #[trigger] t[a],
        #[trigger] t[b],
    ) by {
        let x = if a < i { s[a] } else { s[a + 1] };
        let y = if b < i { s[b] } else { s[b + 1] };
    }
    assert forall|x: Triple| t.contains(x) <==> s.contains(x) && x != s[i] by {
        if s.contains(x) && x != s[i] {
            let k = choose|k: int| 0 <= k < s.len() && s[k] == x;
            assert(t[if k < i { k } else { k - 1 }] == x);
        }
        if t.contains(x) {
            let k = choose|k: int| 0 <= k < t.len() && t[k] == x;
            let j = if k < i { k } else { k + 1 };
            assert(s[j] == x);
            if x == s[i] {
                assert(precedes(s[i], s[j]) || precedes(s[j], s[i]));
            }
        }
    }
}

/// A set of triples.
pub enum PairStorage {
    /// Few triples: an ascending list.
    Sparse(TripleList),
    /// Many triples: a hash set.
    Dense(FxHashSet<(u32, u32, u32)>),
}

impl View for PairStorage {
    type V = Set<Triple>;

    open spec fn view(&self) -> Set<Triple> {
        match self {
            PairStorage::Sparse(list) => triple_items(*list).to_set(),
            PairStorage::Dense(set) => set@,
        }
    }
}

impl PairStorage {
    /// The storage's invariant: a list is ascending and no longer than the threshold.
    pub open spec fn wf(&self) -> bool {
        match self {
            PairStorage::Sparse(list) => ascending(triple_items(*list)) && triple_items(
                *list,
            ).len() <= DENSE_THRESHOLD,
            PairStorage::Dense(_) => true,
        }
    }

    /// The empty set.
    pub fn new() -> (p: PairStorage)
        ensures
            p.wf(),
            (p@ == Set::<Triple>::empty()),
    {
        let p = PairStorage::Sparse(TripleList::new());
        assert(p@ =~= Set::<Triple>::empty());
        p
    }

    /// Adds `t` and tells whether it was absent.
    pub fn insert(&mut self, t: Triple) -> (added: bool)
        requires
            old(self).wf(),
        ensures
            final(self).wf(),
            final(self)@ == old(self)@.insert(t),
            added == !old(self)@.contains(t),
    {
        let ghost before = self@;
        match self {
            PairStorage::Sparse(list) => {
                match find(list.as_slice(), t) {
                    Ok(pos) => {
                        assert(before.contains(triple_items(*list)[pos as int]));
                        assert(before.insert(t) =~= before);
                        return false;
                    },
                    Err(pos) => {
                        proof {
                            lemma_insert_ascending(triple_items(*list), pos as int, t);
                        }
                        list.insert(pos, t);
                    },
                }
                if list.as_slice().len() <= DENSE_THRESHOLD {
                    return true;
                }
            },
            PairStorage::Dense(set) => {
                return set_insert(set, t);
            },
        }
        self.densify();
        true
    }

    /// Turns a list into a hash set with the same members.
    fn densify(&mut self)
        ensures
            final(self).wf(),
            final(self)@ == old(self)@,
    {
        let mut set: FxHashSet<(u32, u32, u32)> = set_new();
        let mut done: bool = false;
        if let PairStorage::Sparse(list) = self {
            let items: &[Triple] = list.as_slice();
            let mut i: usize = 0;
            assert(items@.subrange(0, 0).to_set() =~= Set::<Triple>::empty());
            while i < items.len()
                invariant
                    i <= items@.len(),
                    set@ == items@.subrange(0, i as int).to_set(),
                decreases items.len() - i,
            {
                let b: bool = set_insert(&mut set, items[i]);
                proof {
                    let a = items@.subrange(0, i as int);
                    let c = items@.subrange(0, i + 1);
                    assert(c =~= a.push(items@[i as int]));
                    assert forall|x: Triple| c.contains(x) <==> a.contains(x) || x
                        == items@[i as int] by {
                        if a.contains(x) {
                            let k = choose|k: int| 0 <= k < a.len() && a[k] == x;
                            assert(c[k] == x);
                        }
                        if x == items@[i as int] {
                            assert(c[i as int] == x);
                        }
                    }
                    assert(c.to_set() =~= a.to_set().insert(items@[i as int]));
                }
                i = i + 1;
            }
            assert(items@.subrange(0, items@.len() as int) =~= items@);
            done = true;
        }
        if done {
            *self = PairStorage::Dense(set);
        }
    }

    /// Takes `t` out and tells whether it was there.
    pub fn remove(&mut self, t: Triple) -> (removed: bool)
        requires
            old(self).wf(),
        ensures
            final(self).wf(),
            final(self)@ == old(self)@.remove(t),
            removed == old(self)@.contains(t),
    {
        let ghost before = self@;
        match self {
            PairStorage::Sparse(list) => {
                match find(list.as_slice(), t) {
                    Ok(pos) => {
                        assert(before.contains(triple_items(*list)[pos as int]));
                        proof {
                            lemma_remove_ascending(triple_items(*list), pos as int);
                        }
                        let x: Triple = list.remove(pos);
                        true
                    },
                    Err(_) => {
                        assert(before.remove(t) =~= before);
                        false
                    },
                }
            },
            PairStorage::Dense(set) => set_remove(set, t),
        }
    }

    /// Whether `t` is a member.
    pub fn contains(&self, t: Triple) -> (b: bool)
        requires
            self.wf(),
        ensures
            b == self@.contains(t),
    {
        match self {
            PairStorage::Sparse(list) => match find(list.as_slice(), t) {
                Ok(pos) => {
                    assert(triple_items(*list).contains(triple_items(*list)[pos as int]));
                    true
                },
                Err(_) => false,
            },
            PairStorage::Dense(set) => set_contains(set, t),
        }
    }

    /// The members in ascending order.
    pub fn sorted(&self) -> (items: Vec<Triple>)
        requires
            self.wf(),
        ensures
            ascending(items@),
            items@.to_set() == self@,
    {
        let mut out: Vec<Triple> = Vec::new();
        match self {
            PairStorage::Sparse(list) => {
                let items: &[Triple] = list.as_slice();
                let mut i: usize = 0;
                while i < items.len()
                    invariant
                        i <= items@.len(),
                        out@ == items@.subrange(0, i as int),
                    decreases items.len() - i,
                {
                    out.push(items[i]);
                    i = i + 1;
                    assert(out@ =~= items@.subrange(0, i as int));
                }
                assert(out@ =~= items@);
                out
            },
            PairStorage::Dense(set) => {
                let items: Vec<Triple> = set_items(set);
                let mut i: usize = 0;
                assert(out@.to_set() =~= Set::<Triple>::empty());
                while i < items.len()
                    invariant
                        i <= items@.len(),
                        items@.no_duplicates(),
                        ascending(out@),
                        forall|x: Triple| #[trigger]
                            out@.contains(x) <==> items@.subrange(0, i as int).contains(x),
                    decreases items.len() - i,
                {
                    let x: Triple = items[i];
                    let ghost a = items@.subrange(0, i as int);
                    let ghost c = items@.subrange(0, i + 1);
                    proof {
                        assert(c =~= a.push(x));
                        assert forall|y: Triple| c.contains(y) <==> a.contains(y) || y == x by {
                            if a.contains(y) {
                                let k = choose|k: int| 0 <= k < a.len() && a[k] == y;
                                assert(c[k] == y);
                            }
                            if y == x {
                                assert(c[i as int] == y);
                            }
                        }
                    }
                    match find(out.as_slice(), x) {
                        Ok(pos) => {
                            assert(out@.contains(out@[pos as int]));
                        },
                        Err(pos) => {
                            let ghost before = out@;
                            proof {
                                lemma_insert_ascending(before, pos as int, x);
                            }
                            out.insert(pos, x);
                            proof {
                                assert forall|y: Triple| #[trigger]
                                    out@.contains(y) <==> c.contains(y) by {
                                    assert(out@.contains(y) <==> out@.to_set().contains(y));
                                    assert(before.contains(y) <==> before.to_set().contains(y));
                                }
                            }
                        },
                    }
                    i = i + 1;
                }
                proof {
                    assert(items@.subrange(0, items@.len() as int) =~= items@);
                    assert forall|x: Triple| out@.to_set().contains(x) <==> self@.contains(x) by {
                        assert(out@.contains(x) <==> items@.contains(x));
                    }
                    assert(out@.to_set() =~= self@);
                }
                out
            },
        }
    }

    /// The least member of the given kind.
    pub fn first_with_kind(&self, kind: u32) -> (first: Option<Triple>)
        requires
            self.wf(),
        ensures
            first == first_of(self@, kind),
            first is Some <==> has_kind(self@, kind),
            first matches Some(t) ==> self@.contains(t) && t.0 == kind,
    {
        let items: Vec<Triple> = self.sorted();
        let mut i: usize = 0;
        while i < items.len()
            invariant
                i <= items@.len(),
                ascending(items@),
                items@.to_set() == self@,
                forall|k: int| 0 <= k < i ==> (#[trigger] items@[k]).0 != kind,
            decreases items.len() - i,
        {
            if items[i].0 == kind {
                let t: Triple = items[i];
                proof {
                    assert(items@.contains(t));
                    assert(self@.contains(t));
                    assert forall|u: Triple| #[trigger] self@.contains(u) && u.0 == kind implies !precedes(
                        u,
                        t,
                    ) by {
                        assert(items@.contains(u));
                        let k = choose|k: int| 0 <= k < items@.len() && items@[k] == u;
                        if k > i {
                            assert(precedes(items@[i as int], items@[k]));
                        }
                    }
                    assert(is_first(self@, kind, t));
                    lemma_first_of(self@, kind, t);
                }
                return Some(t);
            }
            i = i + 1;
        }
        proof {
            assert forall|t: Triple| #[trigger] self@.contains(t) implies t.0 != kind by {
                assert(items@.contains(t));
            }
        }
        None
    }

    /// Whether a member has the given kind.
    pub fn contains_kind(&self, kind: u32) -> (b: bool)
        requires
            self.wf(),
        ensures
            b == has_kind(self@, kind),
    {
        self.first_with_kind(kind).is_some()
    }
}

} // verus!
