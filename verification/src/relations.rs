//! Relations between entities: kinds, and the operations on the relation graph.
//!
//! A relation `(kind, target)` of a subject is no component: it lives in two indexes, one by
//! subject and one by target. The subjects of one kind and target are in sibling order, which
//! adding extends at the end, removal keeps, and positioned insertion controls.

use vstd::prelude::*;
use rustc_hash::FxHashMap;
use crate::entity::Entity;
use crate::fx::{map_get, map_insert, map_new};

verus! {

/// Upper bound on the walk to the ancestors of a target when a relation is added.
pub const MAX_ANCESTOR_WALK: usize = 0x10_0000;

/// A kind of relation.
pub trait RelationKind: Copy {
    /// Identity of the kind's type: a number of its own. Numbers below 16 are the library's.
    spec fn spec_kind_key() -> u64;

    /// Name of the kind's type.
    spec fn spec_kind_name() -> Seq<char>;

    /// Whether subjects go with their target.
    spec fn spec_cascade() -> bool;

    /// Whether a subject has at most one target.
    spec fn spec_exclusive() -> bool;

    /// Identity of the kind's type.
    fn kind_key() -> (key: u64)
        ensures
            key == Self::spec_kind_key(),
    ;

    /// Name of the kind's type.
    fn kind_name() -> (name: &'static str)
        ensures
            name@ == Self::spec_kind_name(),
    ;

    /// Whether subjects of the kind are despawned with their target. For other kinds the relation
    /// is only cleared.
    fn cascade_delete_on_target_despawn() -> (b: bool)
        ensures
            b == Self::spec_cascade(),
    ;

    /// Whether a subject has at most one target: a new relation then replaces the old one.
    fn exclusive() -> (b: bool)
        ensures
            b == Self::spec_exclusive(),
    ;
}

/// Parent of an entity: one at most, and children go with it.
#[derive(Clone, Copy, Debug)]
pub struct ChildOf;

impl RelationKind for ChildOf {
    open spec fn spec_kind_key() -> u64 {
        1
    }

    open spec fn spec_kind_name() -> Seq<char> {
        "apex_core::relations::ChildOf"@
    }

    open spec fn spec_cascade() -> bool {
        true
    }

    open spec fn spec_exclusive() -> bool {
        true
    }

    fn kind_key() -> (key: u64) {
        1
    }

    fn kind_name() -> (name: &'static str) {
        "apex_core::relations::ChildOf"
    }

    fn cascade_delete_on_target_despawn() -> (b: bool) {
        true
    }

    fn exclusive() -> (b: bool) {
        true
    }
}

/// Ownership: an entity may own many.
#[derive(Clone, Copy, Debug)]
pub struct Owns;

impl RelationKind for Owns {
    open spec fn spec_kind_key() -> u64 {
        2
    }

    open spec fn spec_kind_name() -> Seq<char> {
        "apex_core::relations::Owns"@
    }

    open spec fn spec_cascade() -> bool {
        false
    }

    open spec fn spec_exclusive() -> bool {
        false
    }

    fn kind_key() -> (key: u64) {
        2
    }

    fn kind_name() -> (name: &'static str) {
        "apex_core::relations::Owns"
    }

    fn cascade_delete_on_target_despawn() -> (b: bool) {
        false
    }

    fn exclusive() -> (b: bool) {
        false
    }
}

/// Affection: an entity may like many.
#[derive(Clone, Copy, Debug)]
pub struct Likes;

impl RelationKind for Likes {
    open spec fn spec_kind_key() -> u64 {
        3
    }

    open spec fn spec_kind_name() -> Seq<char> {
        "apex_core::relations::Likes"@
    }

    open spec fn spec_cascade() -> bool {
        false
    }

    open spec fn spec_exclusive() -> bool {
        false
    }

    fn kind_key() -> (key: u64) {
        3
    }

    fn kind_name() -> (name: &'static str) {
        "apex_core::relations::Likes"
    }

    fn cascade_delete_on_target_despawn() -> (b: bool) {
        false
    }

    fn exclusive() -> (b: bool) {
        false
    }
}

/// A hook that is due: the caller runs the hooks after the operation that queued them.
#[derive(Clone, Copy, PartialEq, Eq, Debug, Structural)]
pub enum HookEvent {
    RelationAdded { kind_idx: u32, subject: Entity, target: Entity },
    RelationRemoved { kind_idx: u32, subject: Entity, target: Entity },
    ComponentAdded { component: u32, entity: Entity },
    ComponentRemoved { component: u32, entity: Entity },
}

/// What is known of a registered kind.
pub struct KindInfo {
    pub key: u64,
    pub name: Seq<char>,
    pub cascade: bool,
    pub exclusive: bool,
    /// Hook that runs after a relation of the kind was added.
    pub on_add: Option<u64>,
    /// Hook that runs after a relation of the kind was removed.
    pub on_remove: Option<u64>,
}

/// What is known of a kind that `R` describes, before it has hooks.
pub open spec fn kind_of<R: RelationKind>() -> KindInfo {
    KindInfo {
        key: R::spec_kind_key(),
        name: R::spec_kind_name(),
        cascade: R::spec_cascade(),
        exclusive: R::spec_exclusive(),
        on_add: None,
        on_remove: None,
    }
}

/// A kind as a value.
pub struct Kind {
    pub key: u64,
    pub name: String,
    pub cascade: bool,
    pub exclusive: bool,
}

impl View for Kind {
    type V = KindInfo;

    open spec fn view(&self) -> KindInfo {
        KindInfo {
            key: self.key,
            name: self.name@,
            cascade: self.cascade,
            exclusive: self.exclusive,
            on_add: None,
            on_remove: None,
        }
    }
}

impl Kind {
    /// Kind `R` as a value.
    pub fn of<R: RelationKind>() -> (k: Kind)
        ensures
            k@ == kind_of::<R>(),
    {
        Kind {
            key: R::kind_key(),
            name: R::kind_name().to_owned(),
            cascade: R::cascade_delete_on_target_despawn(),
            exclusive: R::exclusive(),
        }
    }

    /// The same kind once more.
    pub fn copied(&self) -> (k: Kind)
        ensures
            k@ == self@,
    {
        Kind {
            key: self.key,
            name: self.name.clone(),
            cascade: self.cascade,
            exclusive: self.exclusive,
        }
    }
}

/// Index of the kind with the given key, if it is registered.
pub open spec fn kind_index(kinds: Seq<KindInfo>, key: u64) -> Option<u32> {
    if exists|i: int| 0 <= i < kinds.len() && (#[trigger] kinds[i]).key == key {
        Some((choose|i: int| 0 <= i < kinds.len() && (#[trigger] kinds[i]).key == key) as u32)
    } else {
        None
    }
}

/// The kinds after `k` was registered, unless it was before.
pub open spec fn with_kind(kinds: Seq<KindInfo>, k: KindInfo) -> Seq<KindInfo> {
    if kind_index(kinds, k.key) is Some {
        kinds
    } else {
        kinds.push(k)
    }
}

/// Index that kind `k` has once it is registered.
pub open spec fn index_with_kind(kinds: Seq<KindInfo>, k: KindInfo) -> u32 {
    match kind_index(kinds, k.key) {
        Some(i) => i,
        None => kinds.len() as u32,
    }
}

/// Whether no two kinds share a key.
pub open spec fn distinct_keys(kinds: Seq<KindInfo>) -> bool {
    forall|i: int, j: int|
        0 <= i < j < kinds.len() ==> (#[trigger] kinds[i]).key != (#[trigger] kinds[j]).key
}

/// A kind is found by its key.
pub proof fn lemma_kind_index(kinds: Seq<KindInfo>, i: int)
    requires
        distinct_keys(kinds),
        0 <= i < kinds.len() <= u32::MAX,
    ensures
        kind_index(kinds, kinds[i].key) == Some(i as u32),
{
    let key = kinds[i].key;
    let j = choose|j: int| 0 <= j < kinds.len() && (#[trigger] kinds[j]).key == key;
    assert(0 <= j < kinds.len() && kinds[j].key == key);
}

/// Index of the last kind with the given name, if there is one.
pub open spec fn name_index(kinds: Seq<KindInfo>, name: Seq<char>) -> Option<u32>
    decreases kinds.len(),
{
    if kinds.len() == 0 {
        None
    } else if kinds.last().name == name {
        Some((kinds.len() - 1) as u32)
    } else {
        name_index(kinds.drop_last(), name)
    }
}

struct KindRecord {
    key: u64,
    name: String,
    cascade: bool,
    exclusive: bool,
    on_add: Option<u64>,
    on_remove: Option<u64>,
}

impl KindRecord {
    spec fn info(self) -> KindInfo {
        KindInfo {
            key: self.key,
            name: self.name@,
            cascade: self.cascade,
            exclusive: self.exclusive,
            on_add: self.on_add,
            on_remove: self.on_remove,
        }
    }
}

/// The kinds of relation that a world knows, numbered from zero.
pub struct RelationRegistry {
    type_to_idx: FxHashMap<u64, u32>,
    records: Vec<KindRecord>,
}

impl View for RelationRegistry {
    type V = Seq<KindInfo>;

    closed spec fn view(&self) -> Seq<KindInfo> {
        self.records@.map_values(|r: KindRecord| r.info())
    }
}

impl RelationRegistry {
    /// The registry's invariant: keys are distinct, and each leads to its kind.
    pub closed spec fn wf(&self) -> bool {
        &&& distinct_keys(self@)
        &&& self@.len() <= u32::MAX
        &&& forall|i: int|
            0 <= i < self@.len() ==> self.type_to_idx@.contains_key((#[trigger] self@[i]).key)
                && self.type_to_idx@[self@[i].key] == i
        &&& forall|key: u64| #[trigger]
            self.type_to_idx@.contains_key(key) ==> self.type_to_idx@[key] < self@.len()
                && self@[self.type_to_idx@[key] as int].key == key
    }

    /// The invariant, as it shows in the kinds.
    pub proof fn lemma_wf(&self)
        requires
            self.wf(),
        ensures
            distinct_keys(self@),
            self@.len() <= u32::MAX,
    {
    }

    /// A registry without kinds.
    pub fn new() -> (r: RelationRegistry)
        ensures
            r.wf(),
            r@ == Seq::<KindInfo>::empty(),
    {
        let r = RelationRegistry { type_to_idx: map_new(), records: Vec::new() };
        assert(r@ =~= Seq::<KindInfo>::empty());
        r
    }

    /// Index of the kind with the given key.
    fn lookup(&self, key: u64) -> (idx: Option<u32>)
        requires
            self.wf(),
        ensures
            idx == kind_index(self@, key),
            idx matches Some(i) ==> i < self@.len() && self@[i as int].key == key,
    {
        match map_get(&self.type_to_idx, key) {
            Some(i) => {
                proof {
                    assert(self.type_to_idx@.contains_key(key));
                    lemma_kind_index(self@, *i as int);
                }
                Some(*i)
            },
            None => None,
        }
    }

    /// Index of a kind, which is registered if it was not.
    pub fn register(&mut self, kind: Kind) -> (idx: u32)
        requires
            old(self).wf(),
            old(self)@.len() < u32::MAX,
        ensures
            final(self).wf(),
            final(self)@ == with_kind(old(self)@, kind@),
            idx == index_with_kind(old(self)@, kind@),
            idx < final(self)@.len(),
    {
        let key: u64 = kind.key;
        let ghost info = kind@;
        match self.lookup(key) {
            Some(i) => i,
            None => {
                let idx: u32 = self.records.len() as u32;
                let ghost before = self@;
                let ghost map = self.type_to_idx@;
                let none: Option<u32> = map_insert(&mut self.type_to_idx, key, idx);
                self.records.push(
                    KindRecord {
                        key,
                        name: kind.name,
                        cascade: kind.cascade,
                        exclusive: kind.exclusive,
                        on_add: None,
                        on_remove: None,
                    },
                );
                proof {
                    assert(self@ =~= before.push(info));
                    assert forall|i: int| 0 <= i < before.len() implies (#[trigger] before[i]).key
                        != key by {
                        if before[i].key == key {
                            lemma_kind_index(before, i);
                        }
                    }
                    assert forall|i: int|
                        0 <= i < self@.len() implies self.type_to_idx@.contains_key(
                        (#[trigger] self@[i]).key,
                    ) && self.type_to_idx@[self@[i].key] == i by {
                        if i < before.len() {
                            assert(self@[i] == before[i]);
                        }
                    }
                    assert forall|k: u64| #[trigger]
                        self.type_to_idx@.contains_key(k) implies self.type_to_idx@[k]
                        < self@.len() && self@[self.type_to_idx@[k] as int].key == k by {
                        if k != key {
                            assert(map.contains_key(k));
                        }
                    }
                }
                idx
            },
        }
    }

    /// Index of kind `R`, which is registered if it was not.
    pub fn get_or_register<R: RelationKind>(&mut self) -> (idx: u32)
        requires
            old(self).wf(),
            old(self)@.len() < u32::MAX,
        ensures
            final(self).wf(),
            final(self)@ == with_kind(old(self)@, kind_of::<R>()),
            idx == index_with_kind(old(self)@, kind_of::<R>()),
            idx < final(self)@.len(),
    {
        self.register(Kind::of::<R>())
    }

    /// Index of the kind with the given key, if it is registered.
    pub fn get_idx_by_key(&self, key: u64) -> (idx: Option<u32>)
        requires
            self.wf(),
        ensures
            idx == kind_index(self@, key),
            idx matches Some(i) ==> i < self@.len(),
    {
        self.lookup(key)
    }

    /// Index of kind `R`, if it is registered.
    pub fn get_idx<R: RelationKind>(&self) -> (idx: Option<u32>)
        requires
            self.wf(),
        ensures
            idx == kind_index(self@, R::spec_kind_key()),
            idx matches Some(i) ==> i < self@.len(),
    {
        self.lookup(R::kind_key())
    }

    /// Whether subjects of the kind go with their target.
    pub fn is_cascade(&self, kind_idx: u32) -> (b: bool)
        ensures
            b == (kind_idx < self@.len() && self@[kind_idx as int].cascade),
    {
        let i: usize = kind_idx as usize;
        i < self.records.len() && self.records[i].cascade
    }

    /// Whether a subject has at most one target of the kind.
    pub fn is_exclusive(&self, kind_idx: u32) -> (b: bool)
        ensures
            b == (kind_idx < self@.len() && self@[kind_idx as int].exclusive),
    {
        let i: usize = kind_idx as usize;
        i < self.records.len() && self.records[i].exclusive
    }

    /// Sets the hook that runs after a relation of the kind was added: one for each kind.
    pub fn set_on_add(&mut self, kind_idx: u32, hook: u64)
        requires
            old(self).wf(),
            kind_idx < old(self)@.len(),
            old(self)@[kind_idx as int].on_add is None,
        ensures
            final(self).wf(),
            final(self)@ == old(self)@.update(
                kind_idx as int,
                (KindInfo { on_add: Some(hook), ..old(self)@[kind_idx as int] }),
            ),
    {
        let i: usize = kind_idx as usize;
        let ghost before = self@;
        self.records[i].on_add = Some(hook);
        proof {
            assert(self@ =~= before.update(
                kind_idx as int,
                (KindInfo { on_add: Some(hook), ..before[kind_idx as int] }),
            ));
            self.lemma_same_keys(*old(self));
        }
    }

    /// Sets the hook that runs after a relation of the kind was removed: one for each kind.
    pub fn set_on_remove(&mut self, kind_idx: u32, hook: u64)
        requires
            old(self).wf(),
            kind_idx < old(self)@.len(),
            old(self)@[kind_idx as int].on_remove is None,
        ensures
            final(self).wf(),
            final(self)@ == old(self)@.update(
                kind_idx as int,
                (KindInfo { on_remove: Some(hook), ..old(self)@[kind_idx as int] }),
            ),
    {
        let i: usize = kind_idx as usize;
        let ghost before = self@;
        self.records[i].on_remove = Some(hook);
        proof {
            assert(self@ =~= before.update(
                kind_idx as int,
                (KindInfo { on_remove: Some(hook), ..before[kind_idx as int] }),
            ));
            self.lemma_same_keys(*old(self));
        }
    }

    proof fn lemma_same_keys(&self, before: RelationRegistry)
        requires
            before.wf(),
            self.type_to_idx == before.type_to_idx,
            self@.len() == before@.len(),
            forall|i: int| 0 <= i < self@.len() ==> (#[trigger] self@[i]).key == before@[i].key,
        ensures
            self.wf(),
    {
        assert forall|i: int| 0 <= i < self@.len() implies self.type_to_idx@.contains_key(
            (#[trigger] self@[i]).key,
        ) && self.type_to_idx@[self@[i].key] == i by {
            assert(before.type_to_idx@.contains_key(before@[i].key));
        }
        assert forall|key: u64| #[trigger] self.type_to_idx@.contains_key(
            key,
        ) implies self.type_to_idx@[key] < self@.len() && self@[self.type_to_idx@[key] as int].key
            == key by {
            assert(before.type_to_idx@.contains_key(key));
        }
        assert forall|i: int, j: int| 0 <= i < j < self@.len() implies (#[trigger] self@[i]).key != (
        #[trigger] self@[j]).key by {
            assert(before@[i].key != before@[j].key);
        }
    }

    /// Hook that runs after a relation of the kind was added.
    pub fn on_add_hook(&self, kind_idx: u32) -> (hook: Option<u64>)
        ensures
            hook == if kind_idx < self@.len() {
                self@[kind_idx as int].on_add
            } else {
                None
            },
    {
        let i: usize = kind_idx as usize;
        if i < self.records.len() {
            self.records[i].on_add
        } else {
            None
        }
    }

    /// Hook that runs after a relation of the kind was removed.
    pub fn on_remove_hook(&self, kind_idx: u32) -> (hook: Option<u64>)
        ensures
            hook == if kind_idx < self@.len() {
                self@[kind_idx as int].on_remove
            } else {
                None
            },
    {
        let i: usize = kind_idx as usize;
        if i < self.records.len() {
            self.records[i].on_remove
        } else {
            None
        }
    }

    /// Whether a hook runs after a relation of the kind was removed.
    pub fn has_remove_hook(&self, kind_idx: u32) -> (b: bool)
        ensures
            b == (kind_idx < self@.len() && self@[kind_idx as int].on_remove is Some),
    {
        self.on_remove_hook(kind_idx).is_some()
    }

    /// Name of the kind.
    pub fn get_name(&self, kind_idx: u32) -> (name: Option<&str>)
        ensures
            name is Some <==> kind_idx < self@.len(),
            name matches Some(n) ==> n@ == self@[kind_idx as int].name,
    {
        let i: usize = kind_idx as usize;
        if i < self.records.len() {
            Some(self.records[i].name.as_str())
        } else {
            None
        }
    }

    /// Index of the kind with the given name: the last one registered under it.
    pub fn get_idx_by_name(&self, name: &str) -> (idx: Option<u32>)
        requires
            self.wf(),
        ensures
            idx == name_index(self@, name@),
    {
        let wanted: String = name.to_owned();
        let mut i: usize = self.records.len();
        assert(self@.subrange(0, self@.len() as int) =~= self@);
        while i > 0
            invariant
                i <= self@.len() <= u32::MAX,
                self@.len() == self.records@.len(),
                wanted@ == name@,
                name_index(self@, name@) == name_index(self@.subrange(0, i as int), name@),
            decreases i,
        {
            assert(self@.subrange(0, i as int).last() == self.records@[i - 1].info());
            assert(self@.subrange(0, i as int).drop_last() =~= self@.subrange(0, i - 1));
            if self.records[i - 1].name == wanted {
                return Some((i - 1) as u32);
            }
            i = i - 1;
        }
        None
    }

    /// Number of registered kinds.
    pub fn kind_count(&self) -> (n: usize)
        ensures
            n == self@.len(),
    {
        self.records.len()
    }
}

impl Default for RelationRegistry {
    fn default() -> (r: RelationRegistry)
        ensures
            r.wf(),
            r@.len() == 0,
    {
        RelationRegistry::new()
    }
}

} // verus!
