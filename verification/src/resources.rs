//! Resources: values of which a world has one per type, with the tick of their last change.

use vstd::prelude::*;
use rustc_hash::FxHashMap;
use crate::component::{Tick, clamped};
use crate::fx::{map_get, map_get_mut, map_insert, map_keys, map_len, map_new, map_remove};
use crate::text::{last_segment, last_segment_of};

verus! {

/// How resources of one type are written to snapshots and read back: handles of the functions that
/// do it.
pub struct ResourceSerdeFns {
    /// Full path of the type.
    pub name: String,
    pub serialize: u64,
    pub deserialize: u64,
}

/// How resources of one type are shown to tools that know them by name: handle of the function
/// that does it.
pub struct ResourceReflectFns {
    /// Full path of the type.
    pub name: String,
    /// Key of the type.
    pub key: u64,
    pub to_json: u64,
}

struct ResourceCell<V> {
    value: V,
    changed: Tick,
}

/// State of the resources.
pub struct ResourcesState<V> {
    /// The values, by type.
    pub values: Map<u64, V>,
    /// The ticks of the last changes, by type.
    pub changed: Map<u64, Tick>,
    /// Names of the types that go to snapshots.
    pub serde: Map<u64, Seq<char>>,
    /// Names of the types that are shown by name.
    pub reflect: Map<u64, Seq<char>>,
}

/// The resources of a world. Types are known by their keys.
pub struct Resources<V> {
    data: FxHashMap<u64, ResourceCell<V>>,
    serde: FxHashMap<u64, ResourceSerdeFns>,
    reflect: FxHashMap<u64, ResourceReflectFns>,
}

impl<V> View for Resources<V> {
    type V = ResourcesState<V>;

    closed spec fn view(&self) -> ResourcesState<V> {
        ResourcesState {
            values: self.data@.map_values(|c: ResourceCell<V>| c.value),
            changed: self.data@.map_values(|c: ResourceCell<V>| c.changed),
            serde: self.serde@.map_values(|f: ResourceSerdeFns| f.name@),
            reflect: self.reflect@.map_values(|f: ResourceReflectFns| f.name@),
        }
    }
}

/// The state with a value set at a tick.
pub open spec fn with_resource<V>(s: ResourcesState<V>, key: u64, value: V, tick: Tick) -> ResourcesState<V> {
    ResourcesState {
        values: s.values.insert(key, value),
        changed: s.changed.insert(key, tick),
        ..s
    }
}

/// Keys of the types with a given full name.
pub open spec fn has_name(names: Map<u64, Seq<char>>, key: u64, name: Seq<char>) -> bool {
    names.contains_key(key) && names[key] == name
}

/// Keys of the types whose name ends in a given segment.
pub open spec fn has_short_name(names: Map<u64, Seq<char>>, key: u64, name: Seq<char>) -> bool {
    names.contains_key(key) && last_segment(names[key]) == name
}

/// Whether a name stands for a type: it is the type's full name, or, where it is no type's full
/// name, the last segment of this type's and of no other's.
pub open spec fn stands_for(names: Map<u64, Seq<char>>, name: Seq<char>, key: u64) -> bool {
    has_name(names, key, name) || ((forall|k: u64| !#[trigger] has_name(names, k, name))
        && has_short_name(names, key, name) && (forall|k: u64| #[trigger]
        has_short_name(names, k, name) ==> k == key))
}

/// A resource that is set has the value and the tick of the change; all others stay.
pub proof fn law_resources_hold_what_was_set<V>(
    s: ResourcesState<V>,
    key: u64,
    value: V,
    tick: Tick,
    other: u64,
)
    ensures
        ({
            let t = with_resource(s, key, value, tick);
            &&& t.values.contains_key(key) && t.values[key] == value
            &&& t.changed.contains_key(key) && t.changed[key] == tick
            &&& other != key ==> (t.values.contains_key(other) <==> s.values.contains_key(other))
                && t.values[other] == s.values[other]
            &&& other != key ==> (t.changed.contains_key(other) <==> s.changed.contains_key(other))
                && t.changed[other] == s.changed[other]
            &&& t.serde == s.serde
            &&& t.reflect == s.reflect
        }),
{
}

/// A full name stands for its type, and for no other where names are not shared. A last segment
/// that is no full name stands for its type where no other type ends in it, and for none where two
/// do.
pub proof fn law_names_stand_for_one_type(
    names: Map<u64, Seq<char>>,
    name: Seq<char>,
    a: u64,
    b: u64,
)
    requires
        names.contains_key(a),
    ensures
        names[a] == name ==> stands_for(names, name, a),
        names[a] == name && names.contains_key(b) && names[b] != name ==> !stands_for(
            names,
            name,
            b,
        ),
        a != b && names.contains_key(b) && names[a] != name && names[b] != name && last_segment(
            names[a],
        ) == name && last_segment(names[b]) == name ==> !stands_for(names, name, a)
            && !stands_for(names, name, b),
        last_segment(names[a]) == name && (forall|k: u64| #[trigger]
            names.contains_key(k) ==> names[k] != name && (k != a ==> last_segment(names[k])
                != name)) ==> stands_for(names, name, a),
        names[a] != name && last_segment(names[a]) != name ==> !stands_for(names, name, a),
{
    if names[a] == name {
        assert(has_name(names, a, name));
    }
    if a != b && names.contains_key(b) && last_segment(names[a]) == name && last_segment(names[b])
        == name {
        assert(has_short_name(names, a, name) && has_short_name(names, b, name));
    }
}

impl<V> Resources<V> {
    /// What is known of the types that go to snapshots.
    pub closed spec fn serde_fns(&self) -> Map<u64, ResourceSerdeFns> {
        self.serde@
    }

    /// What is known of the types that are shown by name.
    pub closed spec fn reflect_fns(&self) -> Map<u64, ResourceReflectFns> {
        self.reflect@
    }

    /// No resources.
    pub fn new() -> (r: Resources<V>)
        ensures
            (r@.values == Map::<u64, V>::empty()),
            (r@.changed == Map::<u64, Tick>::empty()),
            (r@.serde == Map::<u64, Seq<char>>::empty()),
            (r@.reflect == Map::<u64, Seq<char>>::empty()),
            (r.serde_fns() == Map::<u64, ResourceSerdeFns>::empty()),
            (r.reflect_fns() == Map::<u64, ResourceReflectFns>::empty()),
    {
        let r = Resources { data: map_new(), serde: map_new(), reflect: map_new() };
        assert(r@.values =~= Map::<u64, V>::empty());
        assert(r@.changed =~= Map::<u64, Tick>::empty());
        assert(r@.serde =~= Map::<u64, Seq<char>>::empty());
        assert(r@.reflect =~= Map::<u64, Seq<char>>::empty());
        r
    }

    /// Sets the value of a type, with `tick` as the tick of the change.
    pub fn insert(&mut self, key: u64, value: V, tick: Tick)
        ensures
            final(self)@ == with_resource(old(self)@, key, value, tick),
            final(self).serde_fns() == old(self).serde_fns(),
            final(self).reflect_fns() == old(self).reflect_fns(),
    {
        let ghost want = with_resource(self@, key, value, tick);
        let before: Option<ResourceCell<V>> = map_insert(
            &mut self.data,
            key,
            ResourceCell { value, changed: tick },
        );
        assert(self@.values =~= want.values);
        assert(self@.changed =~= want.changed);
    }

    /// The value of a type that has one.
    pub fn get(&self, key: u64) -> (v: &V)
        requires
            self@.values.contains_key(key),
        ensures
            *v == self@.values[key],
    {
        let found: Option<&V> = self.try_get(key);
        found.unwrap()
    }

    /// The value of a type, if it has one.
    pub fn try_get(&self, key: u64) -> (v: Option<&V>)
        ensures
            v == if self@.values.contains_key(key) {
                Some(&self@.values[key])
            } else {
                None::<&V>
            },
    {
        match map_get(&self.data, key) {
            Some(cell) => Some(&cell.value),
            None => None,
        }
    }

    /// The value of a type for change, if it has one. That counts as a change at `tick`.
    pub fn try_get_mut(&mut self, key: u64, tick: Tick) -> (v: Option<&mut V>)
        ensures
            v is Some <==> old(self)@.values.contains_key(key),
            v is Some ==> *v->0 == old(self)@.values[key] && final(self)@ == with_resource(
                old(self)@,
                key,
                *final(v->0),
                tick,
            ),
            v is None ==> final(self)@ == old(self)@,
            final(self).serde_fns() == old(self).serde_fns(),
            final(self).reflect_fns() == old(self).reflect_fns(),
    {
        proof {
            let d = self.data@;
            let f = |c: ResourceCell<V>| c.value;
            let g = |c: ResourceCell<V>| c.changed;
            assert forall|c: ResourceCell<V>| #[trigger]
                d.insert(key, c).map_values(f) == d.map_values(f).insert(key, c.value) by {
                assert(d.insert(key, c).map_values(f) =~= d.map_values(f).insert(key, c.value));
            }
            assert forall|c: ResourceCell<V>| #[trigger]
                d.insert(key, c).map_values(g) == d.map_values(g).insert(key, c.changed) by {
                assert(d.insert(key, c).map_values(g) =~= d.map_values(g).insert(key, c.changed));
            }
        }
        match map_get_mut(&mut self.data, key) {
            Some(cell) => {
                cell.changed = tick;
                Some(&mut cell.value)
            },
            None => None,
        }
    }

    /// The value for change of a type that has one. That counts as a change at `tick`.
    pub fn get_mut(&mut self, key: u64, tick: Tick) -> (v: &mut V)
        requires
            old(self)@.values.contains_key(key),
        ensures
            *v == old(self)@.values[key],
            final(self)@ == with_resource(old(self)@, key, *final(v), tick),
            final(self).serde_fns() == old(self).serde_fns(),
            final(self).reflect_fns() == old(self).reflect_fns(),
    {
        self.try_get_mut(key, tick).unwrap()
    }

    /// The tick of the last change of a type's value, if it has one.
    pub fn changed_tick(&self, key: u64) -> (t: Option<Tick>)
        ensures
            t == if self@.changed.contains_key(key) {
                Some(self@.changed[key])
            } else {
                None::<Tick>
            },
            self@.changed.contains_key(key) <==> self@.values.contains_key(key),
    {
        match map_get(&self.data, key) {
            Some(cell) => Some(cell.changed),
            None => None,
        }
    }

    /// Takes the value of a type out.
    pub fn remove(&mut self, key: u64) -> (v: Option<V>)
        ensures
            v == if old(self)@.values.contains_key(key) {
                Some(old(self)@.values[key])
            } else {
                None::<V>
            },
            final(self)@ == (ResourcesState {
                values: old(self)@.values.remove(key),
                changed: old(self)@.changed.remove(key),
                ..old(self)@
            }),
            final(self).serde_fns() == old(self).serde_fns(),
            final(self).reflect_fns() == old(self).reflect_fns(),
    {
        let cell: Option<ResourceCell<V>> = map_remove(&mut self.data, key);
        assert(self@.values =~= old(self)@.values.remove(key));
        assert(self@.changed =~= old(self)@.changed.remove(key));
        match cell {
            Some(c) => Some(c.value),
            None => None,
        }
    }

    /// Whether a type has a value.
    pub fn contains(&self, key: u64) -> (b: bool)
        ensures
            b == self@.values.contains_key(key),
    {
        map_get(&self.data, key).is_some()
    }

    /// Number of values.
    pub fn len(&self) -> (n: usize)
        ensures
            n == self@.values.len(),
    {
        assert(self@.values.dom() =~= self.data@.dom());
        map_len(&self.data)
    }

    /// Whether there is no value.
    pub fn is_empty(&self) -> (b: bool)
        ensures
            b == (self@.values == Map::<u64, V>::empty()),
    {
        let n: usize = map_len(&self.data);
        proof {
            if n == 0 {
                assert(self@.values =~= Map::<u64, V>::empty());
            } else if self@.values == Map::<u64, V>::empty() {
                assert(self.data@ =~= Map::<u64, ResourceCell<V>>::empty()) by {
                    assert(self.data@.dom() =~= self@.values.dom());
                }
            }
        }
        n == 0
    }

    /// Pulls old ticks up to the largest age.
    pub fn check_change_ticks(&mut self, current: Tick)
        ensures
            final(self)@ == (ResourcesState {
                changed: old(self)@.changed.map_values(|t: Tick| clamped(t, current)),
                ..old(self)@
            }),
            final(self).serde_fns() == old(self).serde_fns(),
            final(self).reflect_fns() == old(self).reflect_fns(),
    {
        let keys: Vec<u64> = map_keys(&self.data);
        let ghost first = self.data@;
        let mut i: usize = 0;
        while i < keys.len()
            invariant
                i <= keys@.len(),
                keys@.no_duplicates(),
                forall|k: u64| #[trigger] keys@.contains(k) <==> first.contains_key(k),
                self.serde == old(self).serde,
                self.reflect == old(self).reflect,
                self.data@.dom() == first.dom(),
                forall|k: int|
                    0 <= k < keys@.len() ==> self.data@[#[trigger] keys@[k]] == (if k < i {
                        ResourceCell {
                            changed: clamped(first[keys@[k]].changed, current),
                            ..first[keys@[k]]
                        }
                    } else {
                        first[keys@[k]]
                    }),
            decreases keys.len() - i,
        {
            let key: u64 = keys[i];
            let ghost before = self.data@;
            assert(keys@.contains(key));
            assert(before[keys@[i as int]] == first[key]);
            if let Some(cell) = map_get_mut(&mut self.data, key) {
                cell.changed.check_against(current);
            }
            i = i + 1;
            proof {
                assert(self.data@.dom() =~= first.dom());
                assert forall|k: int| 0 <= k < keys@.len() implies self.data@[#[trigger] keys@[k]]
                    == (if k < i {
                    ResourceCell {
                        changed: clamped(first[keys@[k]].changed, current),
                        ..first[keys@[k]]
                    }
                } else {
                    first[keys@[k]]
                }) by {
                    if k != i - 1 {
                        assert(keys@[k] != keys@[i - 1]);
                        assert(self.data@[keys@[k]] == before[keys@[k]]);
                    }
                }
            }
        }
        proof {
            assert forall|key: u64| #[trigger] first.contains_key(key) implies self.data@[key] == (
            ResourceCell { changed: clamped(first[key].changed, current), ..first[key] }) by {
                assert(keys@.contains(key));
                let k = choose|k: int| 0 <= k < keys@.len() && keys@[k] == key;
                assert(self.data@[keys@[k]] == (ResourceCell {
                    changed: clamped(first[keys@[k]].changed, current),
                    ..first[keys@[k]]
                }));
            }
            assert(self@.values =~= old(self)@.values);
            assert(self@.changed =~= old(self)@.changed.map_values(
                |t: Tick| clamped(t, current),
            ));
        }
    }

    /// Lets values of a type go to snapshots.
    pub fn register_serde(&mut self, key: u64, fns: ResourceSerdeFns)
        ensures
            final(self)@ == (ResourcesState {
                serde: old(self)@.serde.insert(key, fns.name@),
                ..old(self)@
            }),
            final(self).serde_fns() == old(self).serde_fns().insert(key, fns),
            final(self).reflect_fns() == old(self).reflect_fns(),
    {
        let ghost name = fns.name@;
        let before: Option<ResourceSerdeFns> = map_insert(&mut self.serde, key, fns);
        assert(self@.serde =~= old(self)@.serde.insert(key, name));
    }

    /// Lets values of a type be shown by name.
    pub fn register_reflect(&mut self, key: u64, name: String, to_json: u64)
        ensures
            final(self)@ == (ResourcesState {
                reflect: old(self)@.reflect.insert(key, name@),
                ..old(self)@
            }),
            final(self).serde_fns() == old(self).serde_fns(),
            final(self).reflect_fns() == old(self).reflect_fns().insert(
                key,
                (ResourceReflectFns { name, key, to_json }),
            ),
    {
        let ghost text = name@;
        let before: Option<ResourceReflectFns> = map_insert(
            &mut self.reflect,
            key,
            ResourceReflectFns { name, key, to_json },
        );
        assert(self@.reflect =~= old(self)@.reflect.insert(key, text));
    }

    /// The types that go to a snapshot: those that are registered for it and have a value, each
    /// once. In which order they come is left open.
    pub fn snapshot_serde(&self) -> (keys: Vec<u64>)
        ensures
            keys@.no_duplicates(),
            forall|k: u64| #[trigger]
                keys@.contains(k) <==> self@.serde.contains_key(k) && self@.values.contains_key(k),
    {
        let all: Vec<u64> = map_keys(&self.serde);
        let mut keys: Vec<u64> = Vec::new();
        let mut i: usize = 0;
        while i < all.len()
            invariant
                i <= all@.len(),
                all@.no_duplicates(),
                keys@.no_duplicates(),
                forall|k: u64| #[trigger]
                    keys@.contains(k) <==> all@.subrange(0, i as int).contains(k)
                        && self@.values.contains_key(k),
            decreases all.len() - i,
        {
            let key: u64 = all[i];
            let ghost before = keys@;
            let ghost head = all@.subrange(0, i as int);
            let ghost tail = all@.subrange(0, i + 1);
            proof {
                assert(tail =~= head.push(key));
                assert(!head.contains(key)) by {
                    if head.contains(key) {
                        let q = choose|q: int| 0 <= q < head.len() && head[q] == key;
                        assert(all@[q] == all@[i as int]);
                    }
                }
                assert forall|k: u64| tail.contains(k) <==> head.contains(k) || k == key by {
                    if head.contains(k) {
                        let q = choose|q: int| 0 <= q < head.len() && head[q] == k;
                        assert(tail[q] == k);
                    }
                    if k == key {
                        assert(tail[i as int] == k);
                    }
                }
            }
            if self.contains(key) {
                keys.push(key);
                proof {
                    assert(!before.contains(key));
                    assert forall|k: u64| keys@.contains(k) <==> before.contains(k) || k == key by {
                        if before.contains(k) {
                            let q = choose|q: int| 0 <= q < before.len() && before[q] == k;
                            assert(keys@[q] == k);
                        }
                        if k == key {
                            assert(keys@[before.len() as int] == k);
                        }
                    }
                    assert(keys@.no_duplicates()) by {
                        assert forall|a: int, b: int|
                            0 <= a < keys@.len() && 0 <= b < keys@.len() && a != b implies keys@[a]
                            != keys@[b] by {
                            if a < before.len() && b < before.len() {
                                assert(before[a] != before[b]);
                            } else if a < before.len() {
                                assert(before.contains(before[a]));
                            } else {
                                assert(before.contains(before[b]));
                            }
                        }
                    }
                }
            }
            i = i + 1;
            proof {
                assert forall|k: u64| #[trigger] keys@.contains(k) <==> all@.subrange(
                    0,
                    i as int,
                ).contains(k) && self@.values.contains_key(k) by {
                    assert(before.contains(k) <==> head.contains(k) && self@.values.contains_key(k));
                    assert(tail.contains(k) <==> head.contains(k) || k == key);
                }
            }
        }
        proof {
            assert(all@.subrange(0, all@.len() as int) =~= all@);
        }
        keys
    }

    /// A type that goes to snapshots under the given full name.
    pub fn serde_by_name(&self, name: &str) -> (key: Option<u64>)
        ensures
            match key {
                Some(k) => has_name(self@.serde, k, name@),
                None => forall|k: u64| !#[trigger] has_name(self@.serde, k, name@),
            },
    {
        let wanted: String = name.to_owned();
        let all: Vec<u64> = map_keys(&self.serde);
        let mut i: usize = 0;
        while i < all.len()
            invariant
                i <= all@.len(),
                wanted@ == name@,
                forall|k: u64| #[trigger] all@.contains(k) <==> self.serde@.contains_key(k),
                forall|k: int|
                    0 <= k < i ==> !has_name(self@.serde, #[trigger] all@[k], name@),
            decreases all.len() - i,
        {
            let key: u64 = all[i];
            assert(all@.contains(key));
            if let Some(f) = map_get(&self.serde, key) {
                if f.name == wanted {
                    return Some(key);
                }
            }
            i = i + 1;
        }
        proof {
            assert forall|k: u64| !#[trigger] has_name(self@.serde, k, name@) by {
                if self@.serde.contains_key(k) {
                    assert(all@.contains(k));
                    let q = choose|q: int| 0 <= q < all@.len() && all@[q] == k;
                    assert(!has_name(self@.serde, all@[q], name@));
                }
            }
        }
        None
    }

    /// Puts back a value from a snapshot, which the caller has decoded. False where no type goes to
    /// snapshots under that name; the error of the decoding where it failed.
    pub fn restore_serde(&mut self, name: &str, decoded: Result<V, String>, tick: Tick) -> (done:
        Result<bool, String>)
        ensures
            (forall|k: u64| !#[trigger] has_name(old(self)@.serde, k, name@)) ==> done == Ok::<
                bool,
                String,
            >(false) && final(self)@ == old(self)@,
            (exists|k: u64| #[trigger] has_name(old(self)@.serde, k, name@)) ==> match decoded {
                Ok(v) => done == Ok::<bool, String>(true) && exists|k: u64| #[trigger]
                    has_name(old(self)@.serde, k, name@) && final(self)@ == with_resource(
                        old(self)@,
                        k,
                        v,
                        tick,
                    ),
                Err(e) => done == Err::<bool, String>(e) && final(self)@ == old(self)@,
            },
    {
        match self.serde_by_name(name) {
            Some(key) => match decoded {
                Ok(v) => {
                    self.insert(key, v, tick);
                    Ok(true)
                },
                Err(e) => Err(e),
            },
            None => Ok(false),
        }
    }

    /// The type that a name stands for among those that are shown by name: its full name, or else
    /// the last segment of its name where no other has that. None where the name is unknown or
    /// stands for two.
    pub fn reflect_by_name(&self, name: &str) -> (found: Option<u64>)
        ensures
            match found {
                Some(k) => stands_for(self@.reflect, name@, k),
                None => forall|k: u64| !#[trigger] stands_for(self@.reflect, name@, k),
            },
    {
        let wanted: String = name.to_owned();
        let all: Vec<u64> = map_keys(&self.reflect);
        let ghost names = self@.reflect;
        let mut i: usize = 0;
        while i < all.len()
            invariant
                i <= all@.len(),
                wanted@ == name@,
                names == self@.reflect,
                forall|k: u64| #[trigger] all@.contains(k) <==> self.reflect@.contains_key(k),
                forall|k: int| 0 <= k < i ==> !has_name(names, #[trigger] all@[k], name@),
            decreases all.len() - i,
        {
            let key: u64 = all[i];
            assert(all@.contains(key));
            if let Some(f) = map_get(&self.reflect, key) {
                if f.name == wanted {
                    return Some(key);
                }
            }
            i = i + 1;
        }
        proof {
            assert forall|k: u64| !#[trigger] has_name(names, k, name@) by {
                if names.contains_key(k) {
                    assert(all@.contains(k));
                    let q = choose|q: int| 0 <= q < all@.len() && all@[q] == k;
                    assert(!has_name(names, all@[q], name@));
                }
            }
        }
        let mut found: Option<u64> = None;
        let mut j: usize = 0;
        while j < all.len()
            invariant
                j <= all@.len(),
                wanted@ == name@,
                names == self@.reflect,
                all@.no_duplicates(),
                forall|k: u64| #[trigger] all@.contains(k) <==> self.reflect@.contains_key(k),
                forall|k: u64| !#[trigger] has_name(names, k, name@),
                found matches Some(f) ==> has_short_name(names, f, name@) && exists|k: int|
                    0 <= k < j && all@[k] == f,
                forall|k: int|
                    0 <= k < j && has_short_name(names, #[trigger] all@[k], name@) ==> found
                        == Some(all@[k]),
            decreases all.len() - j,
        {
            let key: u64 = all[j];
            assert(all@.contains(key));
            if let Some(f) = map_get(&self.reflect, key) {
                let segment: String = last_segment_of(f.name.as_str()).to_owned();
                if segment == wanted {
                    assert(has_short_name(names, key, name@));
                    if let Some(g) = found {
                        proof {
                            let k = choose|k: int| 0 <= k < j && all@[k] == g;
                            assert(all@[k] != all@[j as int]);
                            assert forall|x: u64| !#[trigger] stands_for(names, name@, x) by {
                                assert(!has_name(names, x, name@));
                                if stands_for(names, name@, x) {
                                    assert(has_short_name(names, g, name@));
                                }
                            }
                        }
                        return None;
                    }
                    found = Some(key);
                }
            }
            j = j + 1;
        }
        proof {
            assert forall|k: u64| #[trigger] has_short_name(names, k, name@) implies found == Some(
                k,
            ) by {
                assert(all@.contains(k));
                let q = choose|q: int| 0 <= q < all@.len() && all@[q] == k;
                assert(has_short_name(names, all@[q], name@));
            }
        }
        found
    }

    /// What is known of a type that is shown by name.
    pub fn reflect_of(&self, key: u64) -> (f: Option<&ResourceReflectFns>)
        ensures
            f == if self.reflect_fns().contains_key(key) {
                Some(&self.reflect_fns()[key])
            } else {
                None::<&ResourceReflectFns>
            },
    {
        map_get(&self.reflect, key)
    }
}

impl<V> Default for Resources<V> {
    fn default() -> (r: Resources<V>)
        ensures
            (r@.values == Map::<u64, V>::empty()),
            (r@.changed == Map::<u64, Tick>::empty()),
            (r@.serde == Map::<u64, Seq<char>>::empty()),
            (r@.reflect == Map::<u64, Seq<char>>::empty()),
            (r.serde_fns() == Map::<u64, ResourceSerdeFns>::empty()),
            (r.reflect_fns() == Map::<u64, ResourceReflectFns>::empty()),
    {
        Resources::new()
    }
}

} // verus!
