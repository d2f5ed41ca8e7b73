//! Short lists kept inline: `smallvec::SmallVec`.
//!
//! A `SmallVec` holds a sequence, as a `Vec` does, but keeps a few items inside itself before it
//! allocates. The functions below that make the calls state what each list operation does to the
//! sequence, and are trusted.

use vstd::prelude::*;
use smallvec::SmallVec;
use crate::entity::Entity;

verus! {

/// A `SmallVec` of entities.
#[verifier::external_body]
pub struct EntityList {
    inner: SmallVec<[Entity; 4]>,
}

/// The sequence that an [`EntityList`] holds.
pub uninterp spec fn entity_items(list: EntityList) -> Seq<Entity>;

impl EntityList {
    /// `SmallVec::new`: the empty list.
    #[verifier::external_body]
    pub(crate) fn new() -> (list: EntityList)
        ensures
            entity_items(list) == Seq::<Entity>::empty(),
    {
        EntityList { inner: SmallVec::new() }
    }

    /// `SmallVec::as_slice`: the items in order.
    #[verifier::external_body]
    pub(crate) fn as_slice(&self) -> (items: &[Entity])
        ensures
            items@ == entity_items(*self),
    {
        self.inner.as_slice()
    }

    /// `SmallVec::insert`: puts `item` at `index` and shifts what follows. A `SmallVec` panics for
    /// an index beyond the end.
    #[verifier::external_body]
    pub(crate) fn insert(&mut self, index: usize, item: Entity)
        requires
            index <= entity_items(*old(self)).len(),
        ensures
            entity_items(*final(self)) == entity_items(*old(self)).insert(index as int, item),
    {
        self.inner.insert(index, item)
    }

    /// `SmallVec::remove`: takes the item at `index` out and shifts what follows. A `SmallVec`
    /// panics for an index that it does not have.
    #[verifier::external_body]
    pub(crate) fn remove(&mut self, index: usize) -> (item: Entity)
        requires
            index < entity_items(*old(self)).len(),
        ensures
            item == entity_items(*old(self))[index as int],
            entity_items(*final(self)) == entity_items(*old(self)).remove(index as int),
    {
        self.inner.remove(index)
    }
}

/// A `SmallVec` of number triples.
#[verifier::external_body]
pub struct TripleList {
    inner: SmallVec<[(u32, u32, u32); 4]>,
}

/// The sequence that a [`TripleList`] holds.
pub uninterp spec fn triple_items(list: TripleList) -> Seq<(u32, u32, u32)>;

impl TripleList {
    /// `SmallVec::new`: the empty list.
    #[verifier::external_body]
    pub(crate) fn new() -> (list: TripleList)
        ensures
            triple_items(list).len() == 0,
    {
        TripleList { inner: SmallVec::new() }
    }

    /// `SmallVec::as_slice`: the items in order.
    #[verifier::external_body]
    pub(crate) fn as_slice(&self) -> (items: &[(u32, u32, u32)])
        ensures
            items@ == triple_items(*self),
    {
        self.inner.as_slice()
    }

    /// `SmallVec::insert`: puts `item` at `index` and shifts what follows. A `SmallVec` panics for
    /// an index beyond the end.
    #[verifier::external_body]
    pub(crate) fn insert(&mut self, index: usize, item: (u32, u32, u32))
        requires
            index <= triple_items(*old(self)).len(),
        ensures
            triple_items(*final(self)) == triple_items(*old(self)).insert(index as int, item),
    {
        self.inner.insert(index, item)
    }

    /// `SmallVec::remove`: takes the item at `index` out and shifts what follows. A `SmallVec`
    /// panics for an index that it does not have.
    #[verifier::external_body]
    pub(crate) fn remove(&mut self, index: usize) -> (item: (u32, u32, u32))
        requires
            index < triple_items(*old(self)).len(),
        ensures
            item == triple_items(*old(self))[index as int],
            triple_items(*final(self)) == triple_items(*old(self)).remove(index as int),
    {
        self.inner.remove(index)
    }
}

/// A `SmallVec` of component numbers.
#[verifier::external_body]
pub struct IdList {
    inner: SmallVec<[u32; 8]>,
}

/// The sequence that an [`IdList`] holds.
pub uninterp spec fn id_items(list: IdList) -> Seq<u32>;

impl IdList {
    /// `SmallVec::new`: the empty list.
    #[verifier::external_body]
    fn empty_list() -> (list: IdList)
        ensures
            id_items(list) == Seq::<u32>::empty(),
    {
        IdList { inner: SmallVec::new() }
    }

    /// `SmallVec::as_slice`: the items in order.
    #[verifier::external_body]
    fn items(&self) -> (items: &[u32])
        ensures
            items@ == id_items(*self),
    {
        self.inner.as_slice()
    }

    /// `SmallVec::push`: puts `item` at the end.
    #[verifier::external_body]
    fn append(&mut self, item: u32)
        ensures
            id_items(*final(self)) == id_items(*old(self)).push(item),
    {
        self.inner.push(item)
    }

    /// A list without items.
    pub fn new() -> (list: IdList)
        ensures
            id_items(list) == Seq::<u32>::empty(),
    {
        IdList::empty_list()
    }

    /// The items in order.
    pub fn as_slice(&self) -> (items: &[u32])
        ensures
            items@ == id_items(*self),
    {
        self.items()
    }

    /// Puts an item at the end.
    pub fn push(&mut self, item: u32)
        ensures
            id_items(*final(self)) == id_items(*old(self)).push(item),
    {
        self.append(item)
    }
}

/// A `SmallVec` of row ranges: archetype, first row, and the row behind the last.
#[verifier::external_body]
pub struct RangeList {
    inner: SmallVec<[(usize, usize, usize); 16]>,
}

/// The sequence that a [`RangeList`] holds.
pub uninterp spec fn range_items(list: RangeList) -> Seq<(usize, usize, usize)>;

impl RangeList {
    /// `SmallVec::new`: the empty list.
    #[verifier::external_body]
    fn empty_list() -> (list: RangeList)
        ensures
            range_items(list) == Seq::<(usize, usize, usize)>::empty(),
    {
        RangeList { inner: SmallVec::new() }
    }

    /// `SmallVec::as_slice`: the items in order.
    #[verifier::external_body]
    fn items(&self) -> (items: &[(usize, usize, usize)])
        ensures
            items@ == range_items(*self),
    {
        self.inner.as_slice()
    }

    /// `SmallVec::push`: puts `item` at the end.
    #[verifier::external_body]
    fn append(&mut self, item: (usize, usize, usize))
        ensures
            range_items(*final(self)) == range_items(*old(self)).push(item),
    {
        self.inner.push(item)
    }

    /// A list without items.
    pub fn new() -> (list: RangeList)
        ensures
            range_items(list) == Seq::<(usize, usize, usize)>::empty(),
    {
        RangeList::empty_list()
    }

    /// The items in order.
    pub fn as_slice(&self) -> (items: &[(usize, usize, usize)])
        ensures
            items@ == range_items(*self),
    {
        self.items()
    }

    /// Puts an item at the end.
    pub fn push(&mut self, item: (usize, usize, usize))
        ensures
            range_items(*final(self)) == range_items(*old(self)).push(item),
    {
        self.append(item)
    }
}

/// A `SmallVec` of cache key entries.
#[verifier::external_body]
pub struct KeyList {
    inner: SmallVec<[u64; 8]>,
}

/// The sequence that a [`KeyList`] holds.
pub uninterp spec fn key_items(list: KeyList) -> Seq<u64>;

impl KeyList {
    /// `SmallVec::new`: the empty list.
    #[verifier::external_body]
    fn empty_list() -> (list: KeyList)
        ensures
            key_items(list) == Seq::<u64>::empty(),
    {
        KeyList { inner: SmallVec::new() }
    }

    /// `SmallVec::as_slice`: the items in order.
    #[verifier::external_body]
    fn items(&self) -> (items: &[u64])
        ensures
            items@ == key_items(*self),
    {
        self.inner.as_slice()
    }

    /// `SmallVec::push`: puts `item` at the end.
    #[verifier::external_body]
    fn append(&mut self, item: u64)
        ensures
            key_items(*final(self)) == key_items(*old(self)).push(item),
    {
        self.inner.push(item)
    }

    /// A list without items.
    pub fn new() -> (list: KeyList)
        ensures
            key_items(list) == Seq::<u64>::empty(),
    {
        KeyList::empty_list()
    }

    /// The items in order.
    pub fn as_slice(&self) -> (items: &[u64])
        ensures
            items@ == key_items(*self),
    {
        self.items()
    }

    /// Puts an item at the end.
    pub fn push(&mut self, item: u64)
        ensures
            key_items(*final(self)) == key_items(*old(self)).push(item),
    {
        self.append(item)
    }
}

/// A `SmallVec` of archetype places.
#[verifier::external_body]
pub struct PlaceList {
    inner: SmallVec<[usize; 8]>,
}

/// The sequence that a [`PlaceList`] holds.
pub uninterp spec fn place_items(list: PlaceList) -> Seq<usize>;

impl PlaceList {
    /// `SmallVec::new`: the empty list.
    #[verifier::external_body]
    pub(crate) fn new() -> (list: PlaceList)
        ensures
            place_items(list) == Seq::<usize>::empty(),
    {
        PlaceList { inner: SmallVec::new() }
    }

    /// `SmallVec::as_slice`: the items in order.
    #[verifier::external_body]
    pub(crate) fn as_slice(&self) -> (items: &[usize])
        ensures
            items@ == place_items(*self),
    {
        self.inner.as_slice()
    }

    /// `SmallVec::push`: puts `item` at the end.
    #[verifier::external_body]
    pub(crate) fn push(&mut self, item: usize)
        ensures
            place_items(*final(self)) == place_items(*old(self)).push(item),
    {
        self.inner.push(item)
    }
}

} // verus!
