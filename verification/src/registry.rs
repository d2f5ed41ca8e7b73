//! The registry of component types: dense numbers, subscription flags, required components, and
//! lookup by name.

use vstd::prelude::*;
use vstd::string::StringExecFns;
use rustc_hash::FxHashMap;
use crate::component::{ComponentId, INVALID_ID};
use crate::fx::{map_get, map_get_mut, map_insert, map_new};
use crate::text::{last_segment, last_segment_of};

verus! {

/// Someone wants to know when the component appears.
pub const FLAG_ON_ADD: u8 = 1;

/// Someone wants to know when the component goes.
pub const FLAG_ON_REMOVE: u8 = 2;

/// Removals of the component are sent as events.
pub const FLAG_TRACK_REMOVED: u8 = 4;

/// The component requires others.
pub const FLAG_REQUIRES: u8 = 8;

/// Description of a component type.
pub struct ComponentDesc {
    /// Identity of the type: a number of its own.
    pub key: u64,
    /// Full path of the type.
    pub name: String,
    /// Size of a value in bytes.
    pub size: usize,
    /// Alignment of a value in bytes.
    pub align: usize,
    /// Whether a value owns something, so that each has to be disposed of.
    pub needs_drop: bool,
    /// Components that come along where this one appears, unless they are there.
    pub requires: Vec<RequiredDesc>,
}

/// A required component with the value that it gets where it is missing.
pub struct RequiredDesc {
    pub component: ComponentDesc,
    pub default: Vec<u8>,
}

/// How values of a component type are turned into bytes and back: handles of the functions that
/// do it, and the name of the format.
#[derive(Clone, Copy, PartialEq, Eq, Debug, Structural)]
pub struct ComponentSerdeFns {
    pub serialize_fn: u64,
    pub deserialize_fn: u64,
    pub format: SerdeFormat,
}

/// Format of serialized components.
#[derive(Clone, Copy, PartialEq, Eq, Debug, Structural)]
pub enum SerdeFormat {
    Bincode,
    Json,
    Custom(u32),
}

/// What the registry knows of a component type.
pub struct ComponentInfo {
    pub id: ComponentId,
    pub name: String,
    pub key: u64,
    pub size: usize,
    pub align: usize,
    /// Whether each value has to be disposed of.
    pub needs_drop: bool,
    /// How values are serialized, if they are.
    pub serde: Option<ComponentSerdeFns>,
    /// Handle of the function that renames the entities inside a value, if it holds any.
    pub map_entities: Option<u64>,
}

/// The contents of a [`ComponentInfo`].
pub struct InfoView {
    pub id: u32,
    pub name: Seq<char>,
    pub key: u64,
    pub size: usize,
    pub align: usize,
    pub needs_drop: bool,
    pub serde: Option<ComponentSerdeFns>,
    pub map_entities: Option<u64>,
}

impl View for ComponentInfo {
    type V = InfoView;

    open spec fn view(&self) -> InfoView {
        InfoView {
            id: self.id.0,
            name: self.name@,
            key: self.key,
            size: self.size,
            align: self.align,
            needs_drop: self.needs_drop,
            serde: self.serde,
            map_entities: self.map_entities,
        }
    }
}

/// A requirement: the required component, and the value that it gets where it is missing.
pub struct Requirement {
    pub component: ComponentId,
    pub default: Vec<u8>,
}

impl View for Requirement {
    type V = (u32, Seq<u8>);

    open spec fn view(&self) -> (u32, Seq<u8>) {
        (self.component.0, self.default@)
    }
}

/// State of a registry.
pub struct RegistryState {
    /// The component types, by number.
    pub infos: Seq<InfoView>,
    /// Subscription flags, by number; zero beyond the end.
    pub flags: Seq<u8>,
    /// Requirements, by number.
    pub requires: Map<u64, Seq<(u32, Seq<u8>)>>,
    /// Whether a flag was ever set.
    pub any_flags: bool,
    /// Whether a component type holds entities that can be renamed.
    pub any_map_entities: bool,
}

/// Number of the type with the given key, if it is registered.
pub open spec fn id_of(infos: Seq<InfoView>, key: u64) -> Option<u32> {
    if exists|i: int| 0 <= i < infos.len() && (#[trigger] infos[i]).key == key {
        Some((choose|i: int| 0 <= i < infos.len() && (#[trigger] infos[i]).key == key) as u32)
    } else {
        None
    }
}

/// Whether keys are distinct and numbers are places.
pub open spec fn infos_wf(infos: Seq<InfoView>) -> bool {
    &&& infos.len() <= INVALID_ID
    &&& forall|i: int, j: int|
        0 <= i < j < infos.len() ==> (#[trigger] infos[i]).key != (#[trigger] infos[j]).key
    &&& forall|i: int| 0 <= i < infos.len() ==> (#[trigger] infos[i]).id == i
}

pub proof fn lemma_id_of(infos: Seq<InfoView>, i: int)
    requires
        infos_wf(infos),
        0 <= i < infos.len(),
    ensures
        id_of(infos, infos[i].key) == Some(i as u32),
{
    let key = infos[i].key;
    let j = choose|j: int| 0 <= j < infos.len() && (#[trigger] infos[j]).key == key;
    assert(0 <= j < infos.len() && infos[j].key == key);
}

/// What the registry knows of a type that it was just told of.
pub open spec fn new_info(id: u32, d: ComponentDesc) -> InfoView {
    InfoView {
        id,
        name: d.name@,
        key: d.key,
        size: d.size,
        align: d.align,
        needs_drop: d.needs_drop,
        serde: None,
        map_entities: None,
    }
}

/// The flags with `flag` set for a number.
pub open spec fn flagged(flags: Seq<u8>, id: u32, flag: u8) -> Seq<u8> {
    let grown = if flags.len() <= id {
        flags + Seq::new((id + 1 - flags.len()) as nat, |i: int| 0u8)
    } else {
        flags
    };
    grown.update(id as int, grown[id as int] | flag)
}

/// The state with `flag` set for a component.
pub open spec fn with_flag(s: RegistryState, id: u32, flag: u8) -> RegistryState {
    RegistryState { flags: flagged(s.flags, id, flag), any_flags: true, ..s }
}

/// Requirements of a component.
pub open spec fn requirements(s: RegistryState, id: u32) -> Seq<(u32, Seq<u8>)> {
    if s.requires.contains_key(id as u64) {
        s.requires[id as u64]
    } else {
        Seq::empty()
    }
}

/// The state with one more requirement of a component.
pub open spec fn with_requirement(s: RegistryState, id: u32, r: (u32, Seq<u8>)) -> RegistryState {
    with_flag(
        RegistryState {
            requires: s.requires.insert(id as u64, requirements(s, id).push(r)),
            ..s
        },
        id,
        FLAG_REQUIRES,
    )
}

/// The state after a type was registered, with what it requires. Registering again changes
/// nothing.
pub open spec fn after_register(s: RegistryState, d: ComponentDesc) -> RegistryState
    decreases d, d.requires@.len() + 1,
{
    if id_of(s.infos, d.key) is Some {
        s
    } else {
        let id = s.infos.len() as u32;
        after_requires(
            RegistryState { infos: s.infos.push(new_info(id, d)), ..s },
            id,
            d,
            d.requires@.len(),
        )
    }
}

/// The state after the first `n` requirements of component `id` were registered.
pub open spec fn after_requires(s: RegistryState, id: u32, d: ComponentDesc, n: nat) -> RegistryState
    decreases d, n,
{
    if n == 0 || n > d.requires@.len() {
        s
    } else {
        let t = after_requires(s, id, d, (n - 1) as nat);
        let r = d.requires@[n - 1];
        let u = after_register(t, r.component);
        with_requirement(u, id, (id_of(u.infos, r.component.key)->0, r.default@))
    }
}

/// Number of types that a description names.
pub open spec fn desc_count(d: ComponentDesc) -> nat
    decreases d, d.requires@.len() + 1,
{
    1 + requires_count(d, d.requires@.len())
}

/// Number of types that the first `n` requirements of a description name.
pub open spec fn requires_count(d: ComponentDesc, n: nat) -> nat
    decreases d, n,
{
    if n == 0 || n > d.requires@.len() {
        0
    } else {
        requires_count(d, (n - 1) as nat) + desc_count(d.requires@[n - 1].component)
    }
}

/// Whether `t` knows every type that `s` knows, under the same number and with the same
/// requirements and flags.
pub open spec fn extends(s: RegistryState, t: RegistryState) -> bool {
    &&& s.infos.len() <= t.infos.len()
    &&& forall|i: int| 0 <= i < s.infos.len() ==> #[trigger] t.infos[i] == s.infos[i]
    &&& forall|id: u32| id < s.infos.len() ==> #[trigger] requirements(t, id) == requirements(s, id)
    &&& forall|id: u32| id < s.infos.len() ==> #[trigger] flag_of(t, id) == flag_of(s, id)
}

/// The flags of a component.
pub open spec fn flag_of(s: RegistryState, id: u32) -> u8 {
    if id < s.flags.len() {
        s.flags[id as int]
    } else {
        0
    }
}

/// Whether a requirement is of a registered type and its default has the size of the type.
pub open spec fn requirement_ok(infos: Seq<InfoView>, r: (u32, Seq<u8>)) -> bool {
    r.0 < infos.len() && r.1.len() == infos[r.0 as int].size
}

/// Whether every requirement is of a registered type, with a default of its size.
pub open spec fn requires_wf(s: RegistryState) -> bool {
    forall|id: u32, k: int|
        0 <= k < requirements(s, id).len() ==> requirement_ok(
            s.infos,
            #[trigger] requirements(s, id)[k],
        )
}

/// What registering does to the list of types: it grows at the end.
pub proof fn lemma_after_register(s: RegistryState, d: ComponentDesc)
    requires
        infos_wf(s.infos),
        s.infos.len() + desc_count(d) <= INVALID_ID,
    ensures
        extends(s, after_register(s, d)),
        infos_wf(after_register(s, d).infos),
        after_register(s, d).infos.len() <= s.infos.len() + desc_count(d),
        id_of(after_register(s, d).infos, d.key) is Some,
        id_of(s.infos, d.key) is None ==> s.infos.len() < after_register(s, d).infos.len()
            && after_register(s, d).infos[s.infos.len() as int] == new_info(
            s.infos.len() as u32,
            d,
        ),
    decreases d, d.requires@.len() + 1,
{
    if id_of(s.infos, d.key) is None {
        let id = s.infos.len() as u32;
        let t = RegistryState { infos: s.infos.push(new_info(id, d)), ..s };
        assert forall|i: int, j: int| 0 <= i < j < t.infos.len() implies (#[trigger] t.infos[i]).key
            != (#[trigger] t.infos[j]).key by {
            if j == s.infos.len() {
                assert(s.infos[i].key != d.key);
            }
        }
        lemma_after_requires(t, id, d, d.requires@.len());
        let u = after_register(s, d);
        assert(u.infos[id as int] == t.infos[id as int]);
        assert(u.infos[id as int].key == d.key);
        assert forall|x: u32| x < s.infos.len() implies #[trigger] requirements(u, x)
            == requirements(s, x) by {
            assert(requirements(t, x) == requirements(s, x));
        }
        assert forall|x: u32| x < s.infos.len() implies #[trigger] flag_of(u, x) == flag_of(s, x) by {
            assert(flag_of(t, x) == flag_of(s, x));
        }
        assert forall|i: int| 0 <= i < s.infos.len() implies #[trigger] u.infos[i] == s.infos[i] by {
            assert(u.infos[i] == t.infos[i]);
        }
    }
}

proof fn lemma_after_requires(s: RegistryState, id: u32, d: ComponentDesc, n: nat)
    requires
        infos_wf(s.infos),
        n <= d.requires@.len(),
        s.infos.len() + requires_count(d, n) <= INVALID_ID,
    ensures
        s.infos.len() <= after_requires(s, id, d, n).infos.len(),
        forall|i: int|
            0 <= i < s.infos.len() ==> #[trigger] after_requires(s, id, d, n).infos[i]
                == s.infos[i],
        forall|x: u32|
            x < s.infos.len() && x != id ==> #[trigger] requirements(
                after_requires(s, id, d, n),
                x,
            ) == requirements(s, x),
        forall|x: u32|
            x < s.infos.len() && x != id ==> #[trigger] flag_of(after_requires(s, id, d, n), x)
                == flag_of(s, x),
        infos_wf(after_requires(s, id, d, n).infos),
        after_requires(s, id, d, n).infos.len() <= s.infos.len() + requires_count(d, n),
    decreases d, n,
{
    if n > 0 {
        lemma_after_requires(s, id, d, (n - 1) as nat);
        let t = after_requires(s, id, d, (n - 1) as nat);
        let u = after_register(t, d.requires@[n - 1].component);
        lemma_after_register(t, d.requires@[n - 1].component);
        let v = after_requires(s, id, d, n);
        assert forall|i: int| 0 <= i < s.infos.len() implies #[trigger] v.infos[i] == s.infos[i] by {
            assert(v.infos[i] == u.infos[i]);
            assert(u.infos[i] == t.infos[i]);
        }
        assert forall|x: u32| x < s.infos.len() && x != id implies #[trigger] requirements(v, x)
            == requirements(s, x) by {
            assert(requirements(u, x) == requirements(t, x));
            assert(requirements(v, x) == requirements(u, x));
        }
        assert forall|x: u32| x < s.infos.len() && x != id implies #[trigger] flag_of(v, x)
            == flag_of(s, x) by {
            assert(flag_of(u, x) == flag_of(t, x));
        }
    }
}

/// Registering keeps every number: what was registered keeps its number, and the new type has one.
pub proof fn law_registering_keeps_numbers(s: RegistryState, d: ComponentDesc, key: u64)
    requires
        infos_wf(s.infos),
        s.infos.len() + desc_count(d) <= INVALID_ID,
        id_of(s.infos, key) is Some,
    ensures
        id_of(after_register(s, d).infos, key) == id_of(s.infos, key),
        id_of(after_register(s, d).infos, d.key) is Some,
        after_register(after_register(s, d), d) == after_register(s, d),
{
    lemma_after_register(s, d);
    let i = choose|i: int| 0 <= i < s.infos.len() && (#[trigger] s.infos[i]).key == key;
    lemma_id_of(s.infos, i);
    assert(after_register(s, d).infos[i] == s.infos[i]);
    lemma_id_of(after_register(s, d).infos, i);
}

/// Whether a description, with what it requires, has the sizes in `sizes`.
pub open spec fn agrees(sizes: Map<u64, usize>, d: ComponentDesc) -> bool
    decreases d, d.requires@.len() + 1,
{
    sizes.contains_key(d.key) && sizes[d.key] == d.size && requires_agree(
        sizes,
        d,
        d.requires@.len(),
    )
}

/// Whether the first `n` requirements of a description have the sizes in `sizes`, and so have
/// their defaults.
pub open spec fn requires_agree(sizes: Map<u64, usize>, d: ComponentDesc, n: nat) -> bool
    decreases d, n,
{
    if n == 0 || n > d.requires@.len() {
        true
    } else {
        requires_agree(sizes, d, (n - 1) as nat) && agrees(sizes, d.requires@[n - 1].component)
            && d.requires@[n - 1].default@.len() == d.requires@[n - 1].component.size
    }
}

/// Whether the registered types have the sizes in `sizes`.
pub open spec fn infos_agree(sizes: Map<u64, usize>, infos: Seq<InfoView>) -> bool {
    forall|i: int|
        0 <= i < infos.len() ==> sizes.contains_key((#[trigger] infos[i]).key)
            && sizes[infos[i].key] == infos[i].size
}

/// Whether a description can be registered: it agrees with the registered types on sizes.
pub open spec fn suits_types(infos: Seq<InfoView>, d: ComponentDesc) -> bool {
    exists|sizes: Map<u64, usize>| #[trigger] infos_agree(sizes, infos) && agrees(sizes, d)
}

pub proof fn lemma_requires_upto(sizes: Map<u64, usize>, d: ComponentDesc, n: nat)
    requires
        n <= d.requires@.len(),
        requires_agree(sizes, d, d.requires@.len()),
    ensures
        requires_agree(sizes, d, n),
    decreases d.requires@.len() - n,
{
    if n < d.requires@.len() {
        lemma_requires_upto(sizes, d, n + 1);
    }
}

/// Sizes stay what they are when types of those sizes are registered.
pub proof fn lemma_register_agrees(sizes: Map<u64, usize>, s: RegistryState, d: ComponentDesc)
    requires
        infos_agree(sizes, s.infos),
        agrees(sizes, d),
    ensures
        infos_agree(sizes, after_register(s, d).infos),
    decreases d, d.requires@.len() + 1,
{
    if id_of(s.infos, d.key) is None {
        let id = s.infos.len() as u32;
        lemma_requires_agree(
            sizes,
            RegistryState { infos: s.infos.push(new_info(id, d)), ..s },
            id,
            d,
            d.requires@.len(),
        );
    }
}

proof fn lemma_requires_agree(
    sizes: Map<u64, usize>,
    s: RegistryState,
    id: u32,
    d: ComponentDesc,
    n: nat,
)
    requires
        infos_agree(sizes, s.infos),
        requires_agree(sizes, d, n),
    ensures
        infos_agree(sizes, after_requires(s, id, d, n).infos),
    decreases d, n,
{
    if n > 0 && n <= d.requires@.len() {
        lemma_requires_agree(sizes, s, id, d, (n - 1) as nat);
        lemma_register_agrees(
            sizes,
            after_requires(s, id, d, (n - 1) as nat),
            d.requires@[n - 1].component,
        );
    }
}

/// What is required stays registered when types of agreed sizes are registered.
pub proof fn lemma_register_requires(sizes: Map<u64, usize>, s: RegistryState, d: ComponentDesc)
    requires
        infos_wf(s.infos),
        infos_agree(sizes, s.infos),
        agrees(sizes, d),
        requires_wf(s),
        s.infos.len() + desc_count(d) <= INVALID_ID,
    ensures
        requires_wf(after_register(s, d)),
    decreases d, d.requires@.len() + 1,
{
    if id_of(s.infos, d.key) is None {
        let id = s.infos.len() as u32;
        let t = RegistryState { infos: s.infos.push(new_info(id, d)), ..s };
        assert forall|x: u32, i: int| 0 <= i < requirements(t, x).len() implies requirement_ok(
            t.infos,
            #[trigger] requirements(t, x)[i],
        ) by {
            assert(requirement_ok(s.infos, requirements(s, x)[i]));
        }
        assert forall|i: int, j: int| 0 <= i < j < t.infos.len() implies (#[trigger] t.infos[i]).key
            != (#[trigger] t.infos[j]).key by {
            if j == s.infos.len() {
                assert(s.infos[i].key != d.key);
            }
        }
        lemma_requires_requires(sizes, t, id, d, d.requires@.len());
    }
}

proof fn lemma_requires_requires(
    sizes: Map<u64, usize>,
    s: RegistryState,
    id: u32,
    d: ComponentDesc,
    n: nat,
)
    requires
        infos_wf(s.infos),
        infos_agree(sizes, s.infos),
        requires_agree(sizes, d, n),
        requires_wf(s),
        n <= d.requires@.len(),
        s.infos.len() + requires_count(d, n) <= INVALID_ID,
    ensures
        requires_wf(after_requires(s, id, d, n)),
    decreases d, n,
{
    if n > 0 {
        let n1 = (n - 1) as nat;
        let r = d.requires@[n - 1];
        lemma_requires_requires(sizes, s, id, d, n1);
        lemma_requires_agree(sizes, s, id, d, n1);
        lemma_after_requires(s, id, d, n1);
        let t = after_requires(s, id, d, n1);
        lemma_register_requires(sizes, t, r.component);
        lemma_after_register(t, r.component);
        lemma_register_agrees(sizes, t, r.component);
        let u = after_register(t, r.component);
        let i = choose|i: int| 0 <= i < u.infos.len() && (#[trigger] u.infos[i]).key
            == r.component.key;
        assert(0 <= i < u.infos.len() && u.infos[i].key == r.component.key);
        lemma_id_of(u.infos, i);
        assert(sizes[u.infos[i].key] == u.infos[i].size);
        let q = (id_of(u.infos, r.component.key)->0, r.default@);
        let v = with_requirement(u, id, q);
        assert(agrees(sizes, r.component));
        assert(requirement_ok(u.infos, q));
        assert(requirements(v, id) == requirements(u, id).push(q));
        assert forall|x: u32, k: int| 0 <= k < requirements(v, x).len() implies requirement_ok(
            v.infos,
            #[trigger] requirements(v, x)[k],
        ) by {
            if x == id {
                if k < requirements(u, x).len() {
                    assert(requirements(v, x)[k] == requirements(u, x)[k]);
                    assert(requirement_ok(u.infos, requirements(u, x)[k]));
                }
            } else {
                assert(requirements(v, x) == requirements(u, x));
                assert(requirement_ok(u.infos, requirements(u, x)[k]));
            }
        }
    }
}

/// Hooks of a component: handles of the functions that run.
#[derive(Clone, Copy, PartialEq, Eq, Debug, Structural)]
pub struct ComponentHooks {
    pub on_add: Option<u64>,
    pub on_remove: Option<u64>,
    pub emit_removed: Option<u64>,
}

/// The component types that a world knows.
pub struct ComponentRegistry {
    type_to_id: FxHashMap<u64, u32>,
    by_id: Vec<ComponentInfo>,
    flags: Vec<u8>,
    hooks: FxHashMap<u64, ComponentHooks>,
    requires: FxHashMap<u64, Vec<Requirement>>,
    any_flags: bool,
    any_map_entities: bool,
}

impl View for ComponentRegistry {
    type V = RegistryState;

    closed spec fn view(&self) -> RegistryState {
        RegistryState {
            infos: self.by_id@.map_values(|i: ComponentInfo| i@),
            flags: self.flags@,
            requires: self.requires@.map_values(
                |v: Vec<Requirement>| v@.map_values(|r: Requirement| r@),
            ),
            any_flags: self.any_flags,
            any_map_entities: self.any_map_entities,
        }
    }
}

impl ComponentRegistry {
    /// The registry's invariant: numbers are places, each key leads to its type, and what is
    /// required is registered.
    pub closed spec fn wf(&self) -> bool {
        &&& infos_wf(self@.infos)
        &&& requires_wf(self@)
        &&& !self@.any_flags ==> forall|id: u32| #[trigger] flag_of(self@, id) == 0
        &&& forall|i: int|
            0 <= i < self@.infos.len() ==> self.type_to_id@.contains_key(
                (#[trigger] self@.infos[i]).key,
            ) && self.type_to_id@[self@.infos[i].key] == i
        &&& forall|key: u64| #[trigger]
            self.type_to_id@.contains_key(key) ==> self.type_to_id@[key] < self@.infos.len()
                && self@.infos[self.type_to_id@[key] as int].key == key
    }

    /// Hooks by component number.
    pub closed spec fn hook_map(&self) -> Map<u64, ComponentHooks> {
        self.hooks@
    }

    /// The invariant, as it shows in the state.
    pub proof fn lemma_wf(&self)
        requires
            self.wf(),
        ensures
            infos_wf(self@.infos),
            requires_wf(self@),
            !self@.any_flags ==> forall|id: u32| #[trigger] flag_of(self@, id) == 0,
    {
    }

    /// A registry without component types.
    pub fn new() -> (r: ComponentRegistry)
        ensures
            r.wf(),
            r@.infos.len() == 0,
            r@.flags.len() == 0,
            (r@.requires == Map::<u64, Seq<(u32, Seq<u8>)>>::empty()),
            !r@.any_flags,
            !r@.any_map_entities,
            (r.hook_map() == Map::<u64, ComponentHooks>::empty()),
    {
        let r = ComponentRegistry {
            type_to_id: map_new(),
            by_id: Vec::new(),
            flags: Vec::new(),
            hooks: map_new(),
            requires: map_new(),
            any_flags: false,
            any_map_entities: false,
        };
        assert(r@.requires =~= Map::<u64, Seq<(u32, Seq<u8>)>>::empty());
        r
    }

    /// Number of the type with the given key.
    pub fn get_id_by_type(&self, key: u64) -> (id: Option<ComponentId>)
        requires
            self.wf(),
        ensures
            id == match id_of(self@.infos, key) {
                Some(i) => Some(ComponentId(i)),
                None => None,
            },
    {
        match map_get(&self.type_to_id, key) {
            Some(i) => {
                proof {
                    assert(self.type_to_id@.contains_key(key));
                    lemma_id_of(self@.infos, *i as int);
                }
                Some(ComponentId(*i))
            },
            None => None,
        }
    }

    /// Registers a type with what it requires, unless it is registered.
    pub fn register(&mut self, desc: &ComponentDesc) -> (id: ComponentId)
        requires
            old(self).wf(),
            old(self)@.infos.len() + desc_count(*desc) <= INVALID_ID,
            suits_types(old(self)@.infos, *desc),
        ensures
            final(self).wf(),
            final(self)@ == after_register(old(self)@, *desc),
            Some(id.0) == id_of(final(self)@.infos, desc.key),
            id.0 < final(self)@.infos.len(),
            final(self).hook_map() == old(self).hook_map(),
        decreases *desc, desc.requires@.len() + 1,
    {
        let ghost s = self@;
        let ghost sizes = choose|sizes: Map<u64, usize>| #[trigger]
            infos_agree(sizes, s.infos) && agrees(sizes, *desc);
        proof {
            lemma_after_register(s, *desc);
        }
        if let Some(id) = self.get_id_by_type(desc.key) {
            return id;
        }
        let n: u32 = self.by_id.len() as u32;
        let id: ComponentId = ComponentId(n);
        let ghost map = self.type_to_id@;
        self.by_id.push(
            ComponentInfo {
                id,
                name: desc.name.clone(),
                key: desc.key,
                size: desc.size,
                align: desc.align,
                needs_drop: desc.needs_drop,
                serde: None,
                map_entities: None,
            },
        );
        let none: Option<u32> = map_insert(&mut self.type_to_id, desc.key, n);
        let ghost t = RegistryState { infos: s.infos.push(new_info(n, *desc)), ..s };
        proof {
            assert(self@.infos =~= t.infos);
            assert forall|i: int, j: int|
                0 <= i < j < t.infos.len() implies (#[trigger] t.infos[i]).key != (
            #[trigger] t.infos[j]).key by {
                if j == s.infos.len() {
                    assert(s.infos[i].key != desc.key);
                }
            }
            assert forall|i: int| 0 <= i < t.infos.len() implies self.type_to_id@.contains_key(
                (#[trigger] t.infos[i]).key,
            ) && self.type_to_id@[t.infos[i].key] == i by {
                if i < s.infos.len() {
                    assert(t.infos[i] == s.infos[i]);
                    assert(map.contains_key(s.infos[i].key));
                }
            }
            assert forall|k: u64| #[trigger]
                self.type_to_id@.contains_key(k) implies self.type_to_id@[k] < t.infos.len()
                && t.infos[self.type_to_id@[k] as int].key == k by {
                if k != desc.key {
                    assert(map.contains_key(k));
                }
            }
            assert forall|x: u32, i: int| 0 <= i < requirements(self@, x).len() implies
                requirement_ok(self@.infos, #[trigger] requirements(self@, x)[i]) by {
                assert(requirements(self@, x) == requirements(s, x));
                assert(requirement_ok(s.infos, requirements(s, x)[i]));
            }
            assert(infos_agree(sizes, t.infos));
            assert forall|x: u32| !self@.any_flags implies #[trigger] flag_of(self@, x) == 0 by {
                assert(flag_of(s, x) == 0);
            }
        }
        let mut k: usize = 0;
        while k < desc.requires.len()
            invariant
                k <= desc.requires@.len(),
                self.wf(),
                infos_wf(t.infos),
                infos_agree(sizes, t.infos),
                requires_agree(sizes, *desc, desc.requires@.len()),
                t.infos.len() + requires_count(*desc, desc.requires@.len()) <= INVALID_ID,
                n < t.infos.len(),
                id.0 == n,
                self@ == after_requires(t, n, *desc, k as nat),
                self.hook_map() == old(self).hook_map(),
            decreases desc.requires.len() - k,
        {
            let required: &RequiredDesc = &desc.requires[k];
            proof {
                lemma_requires_count(*desc, k as nat);
                lemma_after_requires(t, n, *desc, k as nat);
                lemma_requires_count(*desc, (k + 1) as nat);
                assert(decreases_to!(*desc => desc.requires@[k as int].component));
                lemma_requires_upto(sizes, *desc, (k + 1) as nat);
                lemma_requires_upto(sizes, *desc, k as nat);
                lemma_requires_agree(sizes, t, n, *desc, k as nat);
                assert(infos_agree(sizes, self@.infos));
                lemma_register_agrees(sizes, self@, required.component);
            }
            let rid: ComponentId = self.register(&required.component);
            let default: Vec<u8> = required.default.clone();
            assert(default@ =~= required.default@);
            proof {
                let infos = self@.infos;
                let i = choose|i: int|
                    0 <= i < infos.len() && (#[trigger] infos[i]).key == required.component.key;
                assert(0 <= i < infos.len() && infos[i].key == required.component.key);
                lemma_id_of(infos, i);
                assert(requires_agree(sizes, *desc, (k + 1) as nat));
                assert(agrees(sizes, desc.requires@[k as int].component));
                assert(sizes[infos[i].key] == infos[i].size);
            }
            self.add_requirement(id, Requirement { component: rid, default });
            k = k + 1;
        }
        proof {
            lemma_after_requires(t, n, *desc, desc.requires@.len());
            assert(self@.infos[n as int] == t.infos[n as int]);
            lemma_id_of(self@.infos, n as int);
        }
        id
    }

    /// Adds a requirement of a component.
    fn add_requirement(&mut self, id: ComponentId, r: Requirement)
        requires
            old(self).wf(),
            id.0 < INVALID_ID,
            requirement_ok(old(self)@.infos, r@),
        ensures
            final(self).wf(),
            final(self)@ == with_requirement(old(self)@, id.0, r@),
            final(self).hook_map() == old(self).hook_map(),
    {
        let key: u64 = id.0 as u64;
        let ghost s = self@;
        let ghost raw = self.requires@;
        if let Some(list) = map_get_mut(&mut self.requires, key) {
            list.push(r);
        } else {
            let mut list: Vec<Requirement> = Vec::new();
            list.push(r);
            let none: Option<Vec<Requirement>> = map_insert(&mut self.requires, key, list);
        }
        proof {
            let want = s.requires.insert(key, requirements(s, id.0).push(r@));
            assert(self.requires@.dom() =~= raw.dom().insert(key));
            assert(self@.requires.dom() =~= want.dom());
            assert forall|k: u64| #[trigger] want.contains_key(k) implies self@.requires[k]
                =~= want[k] by {
                if k != key {
                    assert(self.requires@[k] == raw[k]);
                    assert(raw.contains_key(k));
                } else if raw.contains_key(k) {
                    assert(self.requires@[k]@ =~= raw[k]@.push(r));
                    assert(s.requires[k] == raw[k]@.map_values(|q: Requirement| q@));
                } else {
                    assert(self.requires@[k]@ =~= seq![r]);
                }
            }
            assert(self@.requires =~= want);
            assert forall|x: u32, i: int| 0 <= i < requirements(self@, x).len() implies
                requirement_ok(self@.infos, #[trigger] requirements(self@, x)[i]) by {
                if x == id.0 {
                    if i < requirements(s, x).len() {
                        assert(requirements(self@, x)[i] == requirements(s, x)[i]);
                        assert(requirement_ok(s.infos, requirements(s, x)[i]));
                    }
                } else {
                    assert(requirements(self@, x) == requirements(s, x));
                    assert(requirement_ok(s.infos, requirements(s, x)[i]));
                }
            }
            assert forall|x: u32| !self@.any_flags implies #[trigger] flag_of(self@, x) == 0 by {
                assert(flag_of(s, x) == 0);
            }
        }
        self.set_flag(id, FLAG_REQUIRES);
    }

    /// Declares that the first component requires the second.
    pub fn register_required(
        &mut self,
        component: &ComponentDesc,
        required: &ComponentDesc,
        default: Vec<u8>,
    )
        requires
            old(self).wf(),
            old(self)@.infos.len() + desc_count(*component) + desc_count(*required) <= INVALID_ID,
            default@.len() == required.size,
            exists|sizes: Map<u64, usize>| #[trigger]
                infos_agree(sizes, old(self)@.infos) && agrees(sizes, *component) && agrees(
                    sizes,
                    *required,
                ),
        ensures
            final(self).wf(),
            ({
                let s = after_register(after_register(old(self)@, *component), *required);
                final(self)@ == with_requirement(
                    s,
                    id_of(s.infos, component.key)->0,
                    (id_of(s.infos, required.key)->0, default@),
                )
            }),
    {
        let ghost sizes = choose|sizes: Map<u64, usize>| #[trigger]
            infos_agree(sizes, old(self)@.infos) && agrees(sizes, *component) && agrees(
                sizes,
                *required,
            );
        proof {
            lemma_after_register(old(self)@, *component);
            lemma_register_agrees(sizes, old(self)@, *component);
        }
        let id: ComponentId = self.register(component);
        let ghost mid = self@;
        proof {
            lemma_register_agrees(sizes, mid, *required);
        }
        let rid: ComponentId = self.register(required);
        proof {
            law_registering_keeps_numbers(mid, *required, component.key);
            let infos = self@.infos;
            let i = choose|i: int| 0 <= i < infos.len() && (#[trigger] infos[i]).key == required.key;
            assert(0 <= i < infos.len() && infos[i].key == required.key);
            lemma_id_of(infos, i);
        }
        self.add_requirement(id, Requirement { component: rid, default });
    }

    /// The requirements of a component.
    pub fn requirements_of(&self, id: ComponentId) -> (list: Option<&Vec<Requirement>>)
        ensures
            list is Some <==> self@.requires.contains_key(id.0 as u64),
            list matches Some(v) ==> v@.map_values(|r: Requirement| r@) == self@.requires[id.0 as u64],
    {
        map_get(&self.requires, id.0 as u64)
    }

    /// Whether a flag was ever set.
    pub fn any_flags(&self) -> (b: bool)
        ensures
            b == self@.any_flags,
    {
        self.any_flags
    }

    /// The flags of a component.
    pub fn flags(&self, id: ComponentId) -> (f: u8)
        ensures
            f == flag_of(self@, id.0),
    {
        let i: usize = id.0 as usize;
        if i < self.flags.len() {
            self.flags[i]
        } else {
            0
        }
    }

    /// Sets a flag of a component.
    pub fn set_flag(&mut self, id: ComponentId, flag: u8)
        requires
            old(self).wf(),
        ensures
            final(self).wf(),
            final(self)@ == with_flag(old(self)@, id.0, flag),
            final(self).hook_map() == old(self).hook_map(),
    {
        let i: usize = id.0 as usize;
        let ghost s = self@;
        proof {
            assert forall|t: RegistryState, x: u32|
                t.requires == s.requires implies #[trigger] requirements(t, x) == requirements(
                s,
                x,
            ) by {}
        }
        while self.flags.len() <= i
            invariant
                i == id.0,
                self.type_to_id == old(self).type_to_id,
                self.hooks == old(self).hooks,
                s == old(self)@,
                self@ == (RegistryState { flags: self@.flags, ..s }),
                s.flags.len() <= self@.flags.len(),
                self@.flags.len() <= i + 1 || self@.flags == s.flags,
                self@.flags == s.flags + Seq::new(
                    (self@.flags.len() - s.flags.len()) as nat,
                    |j: int| 0u8,
                ),
            decreases i + 1 - self.flags.len(),
        {
            let ghost before = self@.flags;
            self.flags.push(0);
            assert(self@.flags =~= s.flags + Seq::new(
                (self@.flags.len() - s.flags.len()) as nat,
                |j: int| 0u8,
            ));
        }
        let old_flags: u8 = self.flags[i];
        self.flags.set(i, old_flags | flag);
        self.any_flags = true;
        proof {
            assert(s.flags + Seq::new(0, |j: int| 0u8) =~= s.flags);
            assert(self@.flags =~= flagged(s.flags, id.0, flag));
        }
    }

    /// The hooks of a component.
    pub fn hooks(&self, id: ComponentId) -> (h: Option<&ComponentHooks>)
        ensures
            h == if self.hook_map().contains_key(id.0 as u64) {
                Some(&self.hook_map()[id.0 as u64])
            } else {
                None::<&ComponentHooks>
            },
    {
        map_get(&self.hooks, id.0 as u64)
    }

    /// Sets the hooks of a component.
    pub fn set_hooks(&mut self, id: ComponentId, hooks: ComponentHooks)
        requires
            old(self).wf(),
        ensures
            final(self).wf(),
            final(self)@ == old(self)@,
            final(self).hook_map() == old(self).hook_map().insert(id.0 as u64, hooks),
    {
        let before: Option<ComponentHooks> = map_insert(&mut self.hooks, id.0 as u64, hooks);
    }

    /// Registers a type that is serialized; functions that it has already stay.
    pub fn register_serde(&mut self, desc: &ComponentDesc, fns: ComponentSerdeFns) -> (id:
        ComponentId)
        requires
            old(self).wf(),
            old(self)@.infos.len() + desc_count(*desc) <= INVALID_ID,
            suits_types(old(self)@.infos, *desc),
        ensures
            final(self).wf(),
            ({
                let s = after_register(old(self)@, *desc);
                let i = id_of(s.infos, desc.key)->0;
                &&& id.0 == i
                &&& final(self)@ == if s.infos[i as int].serde is None {
                    with_serde(s, i, fns)
                } else {
                    s
                }
            }),
    {
        let id: ComponentId = self.register(desc);
        if self.by_id[id.0 as usize].serde.is_none() {
            self.set_serde(id, fns);
        }
        id
    }

    /// Registers a type that is serialized with these functions, whichever it had.
    pub fn register_serde_with(&mut self, desc: &ComponentDesc, fns: ComponentSerdeFns) -> (id:
        ComponentId)
        requires
            old(self).wf(),
            old(self)@.infos.len() + desc_count(*desc) <= INVALID_ID,
            suits_types(old(self)@.infos, *desc),
        ensures
            final(self).wf(),
            ({
                let s = after_register(old(self)@, *desc);
                let i = id_of(s.infos, desc.key)->0;
                id.0 == i && final(self)@ == with_serde(s, i, fns)
            }),
    {
        let id: ComponentId = self.register(desc);
        self.set_serde(id, fns);
        id
    }

    fn set_serde(&mut self, id: ComponentId, fns: ComponentSerdeFns)
        requires
            old(self).wf(),
            id.0 < old(self)@.infos.len(),
        ensures
            final(self).wf(),
            final(self)@ == with_serde(old(self)@, id.0, fns),
    {
        let i: usize = id.0 as usize;
        let ghost s = self@;
        self.by_id[i].serde = Some(fns);
        proof {
            assert(self@.infos =~= with_serde(s, id.0, fns).infos);
            self.lemma_same_keys(*old(self));
        }
    }

    /// Sets the function that renames the entities inside values of a component.
    pub fn set_map_entities(&mut self, id: ComponentId, f: u64)
        requires
            old(self).wf(),
        ensures
            final(self).wf(),
            final(self)@ == if id.0 < old(self)@.infos.len() {
                with_map_entities(old(self)@, id.0, f)
            } else {
                old(self)@
            },
    {
        let i: usize = id.0 as usize;
        let ghost s = self@;
        if i < self.by_id.len() {
            self.by_id[i].map_entities = Some(f);
            self.any_map_entities = true;
            proof {
                assert(self@.infos =~= with_map_entities(s, id.0, f).infos);
                self.lemma_same_keys(*old(self));
            }
        }
    }

    proof fn lemma_same_keys(&self, before: ComponentRegistry)
        requires
            before.wf(),
            self.type_to_id == before.type_to_id,
            self@.infos.len() == before@.infos.len(),
            forall|i: int|
                0 <= i < self@.infos.len() ==> (#[trigger] self@.infos[i]).key
                    == before@.infos[i].key && self@.infos[i].id == before@.infos[i].id
                    && self@.infos[i].size == before@.infos[i].size,
            self@.requires == before@.requires,
            self@.flags == before@.flags,
            self@.any_flags == before@.any_flags,
        ensures
            self.wf(),
    {
        assert forall|x: u32, i: int| 0 <= i < requirements(self@, x).len() implies requirement_ok(
            self@.infos,
            #[trigger] requirements(self@, x)[i],
        ) by {
            assert(requirement_ok(before@.infos, requirements(before@, x)[i]));
        }
        assert forall|x: u32| !self@.any_flags implies #[trigger] flag_of(self@, x) == 0 by {
            assert(flag_of(before@, x) == 0);
        }
        assert forall|i: int| 0 <= i < self@.infos.len() implies self.type_to_id@.contains_key(
            (#[trigger] self@.infos[i]).key,
        ) && self.type_to_id@[self@.infos[i].key] == i by {
            assert(before.type_to_id@.contains_key(before@.infos[i].key));
        }
        assert forall|key: u64| #[trigger] self.type_to_id@.contains_key(
            key,
        ) implies self.type_to_id@[key] < self@.infos.len()
            && self@.infos[self.type_to_id@[key] as int].key == key by {
            assert(before.type_to_id@.contains_key(key));
        }
        assert forall|i: int, j: int| 0 <= i < j < self@.infos.len() implies (
        #[trigger] self@.infos[i]).key != (#[trigger] self@.infos[j]).key by {
            assert(before@.infos[i].key != before@.infos[j].key);
        }
    }

    /// Whether a component type holds entities that can be renamed.
    pub fn any_map_entities(&self) -> (b: bool)
        ensures
            b == self@.any_map_entities,
    {
        self.any_map_entities
    }

    /// What is known of a component.
    pub fn get_info(&self, id: ComponentId) -> (info: Option<&ComponentInfo>)
        ensures
            info is Some <==> id.0 < self@.infos.len(),
            info matches Some(i) ==> i@ == self@.infos[id.0 as int],
    {
        let i: usize = id.0 as usize;
        if i < self.by_id.len() {
            Some(&self.by_id[i])
        } else {
            None
        }
    }

    /// The component with the given name: its full path, or else the last segment of a path that
    /// no other component shares.
    pub fn find_by_name(&self, name: &str) -> (found: Result<&ComponentInfo, String>)
        ensures
            match named(self@.infos, name@) {
                Named::One(i) => found is Ok && found->Ok_0@ == self@.infos[i],
                Named::Two(i, j) => found is Err && found->Err_0@ == ambiguous_text(
                    name@,
                    self@.infos[i].name,
                    self@.infos[j].name,
                ),
                Named::Zero => found is Err && found->Err_0@ == unknown_text(name@),
            },
    {
        let wanted: String = name.to_owned();
        let mut i: usize = 0;
        while i < self.by_id.len()
            invariant
                i <= self.by_id@.len(),
                wanted@ == name@,
                self@.infos.len() == self.by_id@.len(),
                first_full(self@.infos, name@, 0) == first_full(self@.infos, name@, i as nat),
            decreases self.by_id.len() - i,
        {
            assert(self@.infos[i as int] == self.by_id@[i as int]@);
            if self.by_id[i].name == wanted {
                return Ok(&self.by_id[i]);
            }
            i = i + 1;
        }
        let mut found: Option<usize> = None;
        let mut k: usize = 0;
        while k < self.by_id.len()
            invariant
                k <= self.by_id@.len(),
                wanted@ == name@,
                self@.infos.len() == self.by_id@.len(),
                first_full(self@.infos, name@, 0) == self@.infos.len(),
                match found {
                    None => first_short(self@.infos, name@, 0) == first_short(
                        self@.infos,
                        name@,
                        k as nat,
                    ),
                    Some(f) => f < k && first_short(self@.infos, name@, 0) == f && first_short(
                        self@.infos,
                        name@,
                        (f + 1) as nat,
                    ) == first_short(self@.infos, name@, k as nat),
                },
            decreases self.by_id.len() - k,
        {
            assert(self@.infos[k as int] == self.by_id@[k as int]@);
            let segment: String = last_segment_of(self.by_id[k].name.as_str()).to_owned();
            if segment == wanted {
                if let Some(prev) = found {
                    let mut text: String = "component name '".to_owned();
                    text.append(name);
                    text.append("' is ambiguous ('");
                    text.append(self.by_id[prev].name.as_str());
                    text.append("' vs '");
                    text.append(self.by_id[k].name.as_str());
                    text.append("') — use the full type name");
                    assert(self@.infos[prev as int] == self.by_id@[prev as int]@);
                    return Err(text);
                }
                found = Some(k);
            }
            k = k + 1;
        }
        match found {
            Some(f) => {
                assert(self@.infos[f as int] == self.by_id@[f as int]@);
                Ok(&self.by_id[f])
            },
            None => {
                let mut text: String = "component '".to_owned();
                text.append(name);
                text.append("' is not registered");
                Err(text)
            },
        }
    }

    /// Number of the first type with this full name.
    pub fn id_by_full_name(&self, name: &str) -> (id: Option<ComponentId>)
        ensures
            match id {
                Some(i) => first_full(self@.infos, name@, 0) < self@.infos.len()
                    && self@.infos[first_full(self@.infos, name@, 0) as int].id == i.0,
                None => first_full(self@.infos, name@, 0) == self@.infos.len(),
            },
    {
        let wanted: String = name.to_owned();
        let mut i: usize = 0;
        while i < self.by_id.len()
            invariant
                i <= self.by_id@.len(),
                wanted@ == name@,
                self@.infos.len() == self.by_id@.len(),
                first_full(self@.infos, name@, 0) == first_full(self@.infos, name@, i as nat),
            decreases self.by_id.len() - i,
        {
            assert(self@.infos[i as int] == self.by_id@[i as int]@);
            if self.by_id[i].name == wanted {
                return Some(self.by_id[i].id);
            }
            i = i + 1;
        }
        None
    }

    /// The component types, by number.
    pub fn iter(&self) -> (infos: &Vec<ComponentInfo>)
        ensures
            infos@.map_values(|i: ComponentInfo| i@) == self@.infos,
    {
        &self.by_id
    }

    /// Numbers of the component types that are serialized, in ascending order.
    pub fn iter_serializable(&self) -> (ids: Vec<ComponentId>)
        requires
            self.wf(),
        ensures
            ids@ == serializable(self@.infos, self@.infos.len()),
    {
        let mut ids: Vec<ComponentId> = Vec::new();
        let mut i: usize = 0;
        while i < self.by_id.len()
            invariant
                i <= self.by_id@.len() == self@.infos.len(),
                infos_wf(self@.infos),
                ids@ == serializable(self@.infos, i as nat),
            decreases self.by_id.len() - i,
        {
            assert(self@.infos[i as int] == self.by_id@[i as int]@);
            if self.by_id[i].serde.is_some() {
                ids.push(self.by_id[i].id);
            }
            i = i + 1;
        }
        ids
    }

    /// Number of component types.
    pub fn len(&self) -> (n: usize)
        ensures
            n == self@.infos.len(),
    {
        self.by_id.len()
    }

    /// Whether there is no component type.
    pub fn is_empty(&self) -> (b: bool)
        ensures
            b == (self@.infos.len() == 0),
    {
        self.by_id.len() == 0
    }
}

impl Default for ComponentRegistry {
    fn default() -> (r: ComponentRegistry)
        ensures
            r.wf(),
            r@.infos.len() == 0,
            r@.flags.len() == 0,
            (r@.requires == Map::<u64, Seq<(u32, Seq<u8>)>>::empty()),
            !r@.any_flags,
            !r@.any_map_entities,
            (r.hook_map() == Map::<u64, ComponentHooks>::empty()),
    {
        ComponentRegistry::new()
    }
}

proof fn lemma_requires_count(d: ComponentDesc, n: nat)
    requires
        n <= d.requires@.len(),
    ensures
        requires_count(d, n) <= requires_count(d, d.requires@.len()),
    decreases d.requires@.len() - n,
{
    if n < d.requires@.len() {
        lemma_requires_count(d, n + 1);
    }
}

/// The state with serialization functions set for a component.
pub open spec fn with_serde(s: RegistryState, id: u32, fns: ComponentSerdeFns) -> RegistryState {
    RegistryState {
        infos: s.infos.update(
            id as int,
            InfoView { serde: Some(fns), ..s.infos[id as int] },
        ),
        ..s
    }
}

/// The state with the function set that renames the entities inside a component.
pub open spec fn with_map_entities(s: RegistryState, id: u32, f: u64) -> RegistryState {
    RegistryState {
        infos: s.infos.update(
            id as int,
            InfoView { map_entities: Some(f), ..s.infos[id as int] },
        ),
        any_map_entities: true,
        ..s
    }
}

/// Numbers of the serialized types among the first `n`.
pub open spec fn serializable(infos: Seq<InfoView>, n: nat) -> Seq<ComponentId>
    decreases n,
{
    if n == 0 {
        Seq::empty()
    } else {
        let head = serializable(infos, (n - 1) as nat);
        if infos[n - 1].serde is Some {
            head.push(ComponentId(infos[n - 1].id))
        } else {
            head
        }
    }
}

/// Place of the first type from `from` on whose full name is `name`; the number of types where
/// there is none.
pub open spec fn first_full(infos: Seq<InfoView>, name: Seq<char>, from: nat) -> nat
    decreases infos.len() - from,
{
    if from >= infos.len() {
        infos.len()
    } else if infos[from as int].name == name {
        from
    } else {
        first_full(infos, name, from + 1)
    }
}

/// Place of the first type from `from` on whose last segment is `name`; the number of types where
/// there is none.
pub open spec fn first_short(infos: Seq<InfoView>, name: Seq<char>, from: nat) -> nat
    decreases infos.len() - from,
{
    if from >= infos.len() {
        infos.len()
    } else if last_segment(infos[from as int].name) == name {
        from
    } else {
        first_short(infos, name, from + 1)
    }
}

/// What a name stands for.
pub enum Named {
    /// One type.
    One(int),
    /// Two types at least: the first two are given.
    Two(int, int),
    /// No type.
    Zero,
}

/// What `name` stands for: the type of that full name, or else the only type with that last
/// segment.
pub open spec fn named(infos: Seq<InfoView>, name: Seq<char>) -> Named {
    let full = first_full(infos, name, 0);
    if full < infos.len() {
        Named::One(full as int)
    } else {
        let first = first_short(infos, name, 0);
        if first >= infos.len() {
            Named::Zero
        } else {
            let second = first_short(infos, name, first + 1);
            if second < infos.len() {
                Named::Two(first as int, second as int)
            } else {
                Named::One(first as int)
            }
        }
    }
}

/// Text of the error for a name that two types share.
pub open spec fn ambiguous_text(name: Seq<char>, first: Seq<char>, second: Seq<char>) -> Seq<char> {
    "component name '"@ + name + "' is ambiguous ('"@ + first + "' vs '"@ + second
        + "') — use the full type name"@
}

/// Text of the error for a name that no type has.
pub open spec fn unknown_text(name: Seq<char>) -> Seq<char> {
    "component '"@ + name + "' is not registered"@
}

} // verus!
