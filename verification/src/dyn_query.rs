//! Queries composed while a program runs, for components that are known by number or by name.

use vstd::prelude::*;
use vstd::string::StringExecFns;
use crate::archetype::{ArchState, Archetype, column_of, filled};
use crate::component::{ComponentId, INVALID_ID};
use crate::dyn_laws::law_dyn_matches_can_be_counted;
use crate::entity::{Entity, location_of};
use crate::error::{Anomaly, AnomalyState, Severity};
use crate::mutation::Mut;
use crate::registry::{ComponentRegistry, InfoView, first_full};
use crate::relation_graph::has_relation_to;
use crate::relations::{KindInfo, RelationKind, kind_index};
use crate::shape::resolved;
use crate::storage::arch_ok;
use crate::text::{decimal, push_decimal};
use crate::world::{World, WorldState, after_write, reported};

verus! {

/// Why a dynamic query cannot be built.
#[derive(Debug, Clone, PartialEq, Eq)]
pub enum DynQueryError {
    /// No component type has this name.
    UnknownComponent(String),
    /// A query for reading asks for writing.
    WriteNotSupported,
    /// A component is written more than once.
    AliasedWrite(ComponentId),
}

/// A component number as text.
pub open spec fn id_text(id: u32) -> Seq<char> {
    "ComponentId("@ + decimal(id as nat) + ")"@
}

/// Appends a component number as text.
pub fn push_id(out: &mut String, id: ComponentId)
    ensures
        final(out)@ == old(out)@ + id_text(id.0),
{
    let ghost before = out@;
    out.append("ComponentId(");
    push_decimal(out, id.0);
    out.append(")");
    assert(out@ =~= before + id_text(id.0));
}

/// The text of an error.
pub open spec fn dyn_error_text(e: DynQueryError) -> Seq<char> {
    match e {
        DynQueryError::UnknownComponent(name) => "dynamic query: unknown component name '"@ + name@
            + "'"@,
        DynQueryError::WriteNotSupported =>
            "dynamic query: write access requires exclusive world access; use World::query_builder_mut (not query_builder)"@,
        DynQueryError::AliasedWrite(id) => "dynamic query: component id "@ + id_text(id.0)
            + " is written more than once — that would alias one row's data (write each component at most once)"@,
    }
}

impl DynQueryError {
    /// The error in words.
    pub fn text(&self) -> (t: String)
        ensures
            t@ == dyn_error_text(*self),
    {
        match self {
            DynQueryError::UnknownComponent(name) => {
                let mut t: String = "dynamic query: unknown component name '".to_owned();
                t.append(name.as_str());
                t.append("'");
                t
            },
            DynQueryError::WriteNotSupported =>
                "dynamic query: write access requires exclusive world access; use World::query_builder_mut (not query_builder)".to_owned(),
            DynQueryError::AliasedWrite(id) => {
                let mut t: String = "dynamic query: component id ".to_owned();
                push_id(&mut t, *id);
                t.append(
                    " is written more than once — that would alias one row's data (write each component at most once)",
                );
                t
            },
        }
    }
}

/// A relation that an entity must have, or must not have.
#[derive(Clone, Copy, PartialEq, Eq, Debug, Structural)]
pub struct RelationFilter {
    pub kind_idx: u32,
    /// The target; any where this is `None`.
    pub target: Option<Entity>,
    /// Whether the entity must not have the relation.
    pub negate: bool,
}

/// What a dynamic query asks for.
pub struct TermsState {
    pub reads: Seq<u32>,
    pub writes: Seq<u32>,
    pub withs: Seq<u32>,
    pub excludes: Seq<u32>,
    /// The first name that no component type has.
    pub unknown: Option<Seq<char>>,
    pub relations: Seq<RelationFilter>,
    /// Whether a relation is asked for that no entity can have.
    pub impossible: bool,
}

/// No terms.
pub open spec fn no_terms() -> TermsState {
    TermsState {
        reads: Seq::empty(),
        writes: Seq::empty(),
        withs: Seq::empty(),
        excludes: Seq::empty(),
        unknown: None,
        relations: Seq::empty(),
        impossible: false,
    }
}

/// Number of the component type with a full name.
pub open spec fn id_named(infos: Seq<InfoView>, name: Seq<char>) -> Option<u32> {
    let i = first_full(infos, name, 0);
    if i < infos.len() {
        Some(infos[i as int].id)
    } else {
        None
    }
}

/// The terms with a name noted that no component type has, unless one is noted.
pub open spec fn with_unknown(t: TermsState, name: Seq<char>) -> TermsState {
    if t.unknown is Some {
        t
    } else {
        TermsState { unknown: Some(name), ..t }
    }
}

/// Where a term goes.
pub enum TermUse {
    Read,
    Write,
    With,
    Exclude,
}

/// The terms with one more component.
pub open spec fn with_term(t: TermsState, to: TermUse, id: u32) -> TermsState {
    match to {
        TermUse::Read => TermsState { reads: t.reads.push(id), ..t },
        TermUse::Write => TermsState { writes: t.writes.push(id), ..t },
        TermUse::With => TermsState { withs: t.withs.push(id), ..t },
        TermUse::Exclude => TermsState { excludes: t.excludes.push(id), ..t },
    }
}

/// The terms with one more component, by name.
pub open spec fn with_named(
    t: TermsState,
    to: TermUse,
    infos: Seq<InfoView>,
    name: Seq<char>,
) -> TermsState {
    match id_named(infos, name) {
        Some(id) => with_term(t, to, id),
        None => with_unknown(t, name),
    }
}

/// The terms with one more relation. A kind that is not registered makes the query impossible
/// where the relation is asked for, and changes nothing where it must be absent.
pub open spec fn with_relation_term(
    t: TermsState,
    kinds: Seq<KindInfo>,
    key: u64,
    target: Option<Entity>,
    negate: bool,
) -> TermsState {
    match kind_index(kinds, key) {
        Some(kind_idx) => TermsState {
            relations: t.relations.push(RelationFilter { kind_idx, target, negate }),
            ..t
        },
        None => if negate {
            t
        } else {
            TermsState { impossible: true, ..t }
        },
    }
}

/// Whether all of `ids` are among the components of an archetype.
pub open spec fn has_all_of(a: ArchState, ids: Seq<u32>) -> bool {
    forall|i: int| 0 <= i < ids.len() ==> a.ids.contains(#[trigger] ids[i])
}

/// Whether none of `ids` is among the components of an archetype.
pub open spec fn has_none_of(a: ArchState, ids: Seq<u32>) -> bool {
    forall|i: int| 0 <= i < ids.len() ==> !a.ids.contains(#[trigger] ids[i])
}

/// Whether an archetype has every component that is asked for, and none that is excluded.
pub open spec fn terms_suit(t: TermsState, a: ArchState) -> bool {
    has_all_of(a, t.reads) && has_all_of(a, t.writes) && has_all_of(a, t.withs) && has_none_of(
        a,
        t.excludes,
    )
}

/// Places of the archetypes among the first `n` that suit the terms.
pub open spec fn suited_upto(t: TermsState, archetypes: Seq<ArchState>, n: nat) -> Seq<usize>
    decreases n,
{
    if n == 0 {
        Seq::empty()
    } else {
        let head = suited_upto(t, archetypes, (n - 1) as nat);
        if terms_suit(t, archetypes[n - 1]) {
            head.push((n - 1) as usize)
        } else {
            head
        }
    }
}

/// Places of the archetypes that suit the components asked for. Relations are not looked at; an
/// unknown name suits nothing.
pub open spec fn component_places(t: TermsState, archetypes: Seq<ArchState>) -> Seq<usize> {
    if t.unknown is Some {
        Seq::empty()
    } else {
        suited_upto(t, archetypes, archetypes.len())
    }
}

/// Places of the archetypes that a dynamic query looks at: none where a relation is asked for
/// that no entity can have.
pub open spec fn dyn_places(t: TermsState, archetypes: Seq<ArchState>) -> Seq<usize> {
    if t.impossible {
        Seq::empty()
    } else {
        component_places(t, archetypes)
    }
}

/// Whether an entity has every relation that is asked for, and none that must be absent.
pub open spec fn relations_hold(w: WorldState, relations: Seq<RelationFilter>, e: Entity) -> bool {
    forall|i: int|
        0 <= i < relations.len() ==> has_relation_to(
            w.relations,
            w.entities,
            e,
            (#[trigger] relations[i]).kind_idx,
            relations[i].target,
        ) != relations[i].negate
}

/// The first component from `i` on that is written again further on; the number of writes where
/// there is none.
pub open spec fn first_repeated(writes: Seq<u32>, i: nat) -> nat
    decreases writes.len() - i,
{
    if i >= writes.len() {
        writes.len()
    } else if writes[i as int] != INVALID_ID && writes.subrange(
        i as int + 1,
        writes.len() as int,
    ).contains(writes[i as int]) {
        i
    } else {
        first_repeated(writes, i + 1)
    }
}

fn holds(items: &[u32], id: u32) -> (b: bool)
    ensures
        b == items@.contains(id),
{
    let mut i: usize = 0;
    while i < items.len()
        invariant
            i <= items@.len(),
            forall|k: int| 0 <= k < i ==> items@[k] != id,
        decreases items.len() - i,
    {
        if items[i] == id {
            return true;
        }
        i = i + 1;
    }
    false
}

fn has_all(arch: &Archetype, ids: &Vec<u32>) -> (b: bool)
    requires
        arch.wf(),
    ensures
        b == has_all_of(arch@, ids@),
{
    let mut i: usize = 0;
    while i < ids.len()
        invariant
            i <= ids@.len(),
            arch.wf(),
            forall|k: int| 0 <= k < i ==> arch@.ids.contains(#[trigger] ids@[k]),
        decreases ids.len() - i,
    {
        if !arch.has_component(ComponentId(ids[i])) {
            return false;
        }
        i = i + 1;
    }
    true
}

fn has_none(arch: &Archetype, ids: &Vec<u32>) -> (b: bool)
    requires
        arch.wf(),
    ensures
        b == has_none_of(arch@, ids@),
{
    let mut i: usize = 0;
    while i < ids.len()
        invariant
            i <= ids@.len(),
            arch.wf(),
            forall|k: int| 0 <= k < i ==> !arch@.ids.contains(#[trigger] ids@[k]),
        decreases ids.len() - i,
    {
        if arch.has_component(ComponentId(ids[i])) {
            return false;
        }
        i = i + 1;
    }
    true
}

/// Whether an entity has every relation that is asked for, and none that must be absent.
fn passes_relations(relations: &Vec<RelationFilter>, world: &World, e: Entity) -> (b: bool)
    requires
        world.wf(),
    ensures
        b == relations_hold(world@, relations@, e),
{
    let mut i: usize = 0;
    while i < relations.len()
        invariant
            i <= relations@.len(),
            world.wf(),
            relations_hold(world@, relations@.subrange(0, i as int), e),
        decreases relations.len() - i,
    {
        let t: RelationFilter = relations[i];
        if world.subject_has_relation_idx(e, t.kind_idx, t.target) == t.negate {
            assert(relations@[i as int] == t);
            return false;
        }
        proof {
            assert forall|k: int| 0 <= k < i + 1 implies has_relation_to(
                world@.relations,
                world@.entities,
                e,
                (#[trigger] relations@.subrange(0, i + 1)[k]).kind_idx,
                relations@.subrange(0, i + 1)[k].target,
            ) != relations@.subrange(0, i + 1)[k].negate by {
                if k < i {
                    assert(relations@.subrange(0, i as int)[k] == relations@.subrange(0, i + 1)[k]);
                }
            }
        }
        i = i + 1;
    }
    assert(relations@.subrange(0, relations@.len() as int) =~= relations@);
    true
}

/// What a dynamic query asks for.
pub struct DynTerms {
    reads: Vec<u32>,
    writes: Vec<u32>,
    withs: Vec<u32>,
    excludes: Vec<u32>,
    unknown: Option<String>,
    relations: Vec<RelationFilter>,
    impossible: bool,
}

impl View for DynTerms {
    type V = TermsState;

    closed spec fn view(&self) -> TermsState {
        TermsState {
            reads: self.reads@,
            writes: self.writes@,
            withs: self.withs@,
            excludes: self.excludes@,
            unknown: match self.unknown {
                Some(name) => Some(name@),
                None => None,
            },
            relations: self.relations@,
            impossible: self.impossible,
        }
    }
}

impl DynTerms {
    fn new() -> (t: DynTerms)
        ensures
            t@ == no_terms(),
    {
        let t = DynTerms {
            reads: Vec::new(),
            writes: Vec::new(),
            withs: Vec::new(),
            excludes: Vec::new(),
            unknown: None,
            relations: Vec::new(),
            impossible: false,
        };
        assert(t.reads@ =~= Seq::empty() && t.writes@ =~= Seq::empty() && t.withs@ =~= Seq::empty());
        assert(t.excludes@ =~= Seq::empty() && t.relations@ =~= Seq::empty());
        t
    }

    fn push_term(&mut self, to: TermUse, id: u32)
        ensures
            final(self)@ == with_term(old(self)@, to, id),
    {
        match to {
            TermUse::Read => {
                self.reads.push(id);
            },
            TermUse::Write => {
                self.writes.push(id);
            },
            TermUse::With => {
                self.withs.push(id);
            },
            TermUse::Exclude => {
                self.excludes.push(id);
            },
        }
    }

    fn push_key(&mut self, world: &World, to: TermUse, key: u64)
        requires
            world.wf(),
        ensures
            final(self)@ == with_term(old(self)@, to, resolved(world@.registry.infos, key)),
    {
        let id: u32 = match world.registry().get_id_by_type(key) {
            Some(id) => id.0,
            None => INVALID_ID,
        };
        self.push_term(to, id);
    }

    fn push_name(&mut self, world: &World, to: TermUse, name: &str)
        requires
            world.wf(),
        ensures
            final(self)@ == with_named(old(self)@, to, world@.registry.infos, name@),
    {
        match world.component_id_by_name(name) {
            Some(id) => {
                self.push_term(to, id.0);
            },
            None => {
                if self.unknown.is_none() {
                    self.unknown = Some(name.to_owned());
                }
            },
        }
    }

    fn push_relation(&mut self, world: &World, key: u64, target: Option<Entity>, negate: bool)
        requires
            world.wf(),
        ensures
            final(self)@ == with_relation_term(
                old(self)@,
                world@.relations.kinds,
                key,
                target,
                negate,
            ),
    {
        match world.relation_graph().kind_idx_by_key(key) {
            Some(kind_idx) => {
                self.relations.push(RelationFilter { kind_idx, target, negate });
            },
            None => {
                if !negate {
                    self.impossible = true;
                }
            },
        }
    }

    fn matches_arch(&self, arch: &Archetype) -> (b: bool)
        requires
            arch.wf(),
        ensures
            b == terms_suit(self@, arch@),
    {
        has_all(arch, &self.reads) && has_all(arch, &self.writes) && has_all(arch, &self.withs)
            && has_none(arch, &self.excludes)
    }

    fn matching_archetype_ids(&self, world: &World) -> (list: Vec<usize>)
        requires
            world.wf(),
        ensures
            list@ == component_places(self@, world.store().archetypes),
    {
        let mut list: Vec<usize> = Vec::new();
        if self.unknown.is_some() {
            assert(list@ =~= Seq::empty());
            return list;
        }
        let storage = world.storage();
        let n: usize = storage.archetype_count();
        let mut i: usize = 0;
        assert(list@ =~= Seq::empty());
        while i < n
            invariant
                i <= n == storage@.archetypes.len(),
                storage.wf(world@.registry.infos),
                list@ == suited_upto(self@, storage@.archetypes, i as nat),
            decreases n - i,
        {
            if self.matches_arch(storage.archetype(i)) {
                list.push(i);
            }
            i = i + 1;
        }
        list
    }

    /// Places of the archetypes that the query looks at.
    fn places(&self, world: &World) -> (list: Vec<usize>)
        requires
            world.wf(),
        ensures
            list@ == dyn_places(self@, world.store().archetypes),
    {
        if self.impossible {
            let list: Vec<usize> = Vec::new();
            assert(list@ =~= Seq::empty());
            list
        } else {
            self.matching_archetype_ids(world)
        }
    }

    /// The first component that is written more than once.
    fn check_write_alias(&self) -> (found: Option<u32>)
        ensures
            match found {
                Some(id) => first_repeated(self@.writes, 0) < self@.writes.len()
                    && self@.writes[first_repeated(self@.writes, 0) as int] == id,
                None => first_repeated(self@.writes, 0) == self@.writes.len(),
            },
    {
        let mut i: usize = 0;
        while i < self.writes.len()
            invariant
                i <= self.writes@.len(),
                self@.writes == self.writes@,
                first_repeated(self.writes@, 0) == first_repeated(self.writes@, i as nat),
            decreases self.writes.len() - i,
        {
            let id: u32 = self.writes[i];
            let rest: &[u32] = vstd::slice::slice_subrange(
                self.writes.as_slice(),
                i + 1,
                self.writes.len(),
            );
            if id != INVALID_ID && holds(rest, id) {
                return Some(id);
            }
            i = i + 1;
        }
        None
    }
}

/// Builds a dynamic query for reading.
pub struct QueryBuilder<'w> {
    world: &'w World,
    terms: DynTerms,
}

impl<'w> View for QueryBuilder<'w> {
    type V = TermsState;

    closed spec fn view(&self) -> TermsState {
        self.terms@
    }
}

impl<'w> QueryBuilder<'w> {
    /// The world that the query is over.
    pub closed spec fn subject(&self) -> World {
        *self.world
    }

    /// A builder without terms.
    pub fn new(world: &'w World) -> (b: QueryBuilder<'w>)
        ensures
            b.subject() == *world,
            b@ == no_terms(),
    {
        QueryBuilder { world, terms: DynTerms::new() }
    }

    /// Asks for a component for reading, by the key of its type. No entity has a type that is not
    /// registered.
    pub fn read(self, key: u64) -> (r: QueryBuilder<'w>)
        requires
            self.subject().wf(),
        ensures
            r.subject() == self.subject(),
            r@ == with_term(
                self@,
                TermUse::Read,
                resolved(self.subject()@.registry.infos, key),
            ),
    {
        let QueryBuilder { world, mut terms } = self;
        terms.push_key(world, TermUse::Read, key);
        QueryBuilder { world, terms }
    }

    /// Asks for a component for reading, by its number.
    pub fn read_id(self, id: ComponentId) -> (r: QueryBuilder<'w>)
        ensures
            r.subject() == self.subject(),
            r@ == with_term(self@, TermUse::Read, id.0),
    {
        let QueryBuilder { world, mut terms } = self;
        terms.push_term(TermUse::Read, id.0);
        QueryBuilder { world, terms }
    }

    /// Asks for a component for reading, by the full name of its type.
    pub fn read_name(self, name: &str) -> (r: QueryBuilder<'w>)
        requires
            self.subject().wf(),
        ensures
            r.subject() == self.subject(),
            r@ == with_named(self@, TermUse::Read, self.subject()@.registry.infos, name@),
    {
        let QueryBuilder { world, mut terms } = self;
        terms.push_name(world, TermUse::Read, name);
        QueryBuilder { world, terms }
    }

    /// Asks for a component for writing, by the key of its type. No entity has a type that is not
    /// registered.
    pub fn write(self, key: u64) -> (r: QueryBuilder<'w>)
        requires
            self.subject().wf(),
        ensures
            r.subject() == self.subject(),
            r@ == with_term(
                self@,
                TermUse::Write,
                resolved(self.subject()@.registry.infos, key),
            ),
    {
        let QueryBuilder { world, mut terms } = self;
        terms.push_key(world, TermUse::Write, key);
        QueryBuilder { world, terms }
    }

    /// Asks for a component for writing, by its number.
    pub fn write_id(self, id: ComponentId) -> (r: QueryBuilder<'w>)
        ensures
            r.subject() == self.subject(),
            r@ == with_term(self@, TermUse::Write, id.0),
    {
        let QueryBuilder { world, mut terms } = self;
        terms.push_term(TermUse::Write, id.0);
        QueryBuilder { world, terms }
    }

    /// Asks for entities that have a component, by the key of its type. No entity has a type that
    /// is not registered.
    pub fn with(self, key: u64) -> (r: QueryBuilder<'w>)
        requires
            self.subject().wf(),
        ensures
            r.subject() == self.subject(),
            r@ == with_term(
                self@,
                TermUse::With,
                resolved(self.subject()@.registry.infos, key),
            ),
    {
        let QueryBuilder { world, mut terms } = self;
        terms.push_key(world, TermUse::With, key);
        QueryBuilder { world, terms }
    }

    /// Asks for entities that have a component, by its number.
    pub fn with_id(self, id: ComponentId) -> (r: QueryBuilder<'w>)
        ensures
            r.subject() == self.subject(),
            r@ == with_term(self@, TermUse::With, id.0),
    {
        let QueryBuilder { world, mut terms } = self;
        terms.push_term(TermUse::With, id.0);
        QueryBuilder { world, terms }
    }

    /// Asks for entities that have a component, by the full name of its type.
    pub fn with_name(self, name: &str) -> (r: QueryBuilder<'w>)
        requires
            self.subject().wf(),
        ensures
            r.subject() == self.subject(),
            r@ == with_named(self@, TermUse::With, self.subject()@.registry.infos, name@),
    {
        let QueryBuilder { world, mut terms } = self;
        terms.push_name(world, TermUse::With, name);
        QueryBuilder { world, terms }
    }

    /// Asks for entities that lack a component, by the key of its type. No entity has a type that
    /// is not registered.
    pub fn exclude(self, key: u64) -> (r: QueryBuilder<'w>)
        requires
            self.subject().wf(),
        ensures
            r.subject() == self.subject(),
            r@ == with_term(
                self@,
                TermUse::Exclude,
                resolved(self.subject()@.registry.infos, key),
            ),
    {
        let QueryBuilder { world, mut terms } = self;
        terms.push_key(world, TermUse::Exclude, key);
        QueryBuilder { world, terms }
    }

    /// Asks for entities that lack a component, by its number.
    pub fn exclude_id(self, id: ComponentId) -> (r: QueryBuilder<'w>)
        ensures
            r.subject() == self.subject(),
            r@ == with_term(self@, TermUse::Exclude, id.0),
    {
        let QueryBuilder { world, mut terms } = self;
        terms.push_term(TermUse::Exclude, id.0);
        QueryBuilder { world, terms }
    }

    /// Asks for entities that lack a component, by the full name of its type.
    pub fn exclude_name(self, name: &str) -> (r: QueryBuilder<'w>)
        requires
            self.subject().wf(),
        ensures
            r.subject() == self.subject(),
            r@ == with_named(self@, TermUse::Exclude, self.subject()@.registry.infos, name@),
    {
        let QueryBuilder { world, mut terms } = self;
        terms.push_name(world, TermUse::Exclude, name);
        QueryBuilder { world, terms }
    }

    /// Asks for entities with a relation to `target`.
    pub fn with_relation<R: RelationKind>(self, kind: R, target: Entity) -> (r: QueryBuilder<'w>)
        requires
            self.subject().wf(),
        ensures
            r.subject() == self.subject(),
            r@ == with_relation_term(
                self@,
                self.subject()@.relations.kinds,
                R::spec_kind_key(),
                Some(target),
                false,
            ),
    {
        let QueryBuilder { world, mut terms } = self;
        terms.push_relation(world, R::kind_key(), Some(target), false);
        QueryBuilder { world, terms }
    }

    /// Asks for entities with a relation of a kind, to whatever target.
    pub fn with_any_relation<R: RelationKind>(self, kind: R) -> (r: QueryBuilder<'w>)
        requires
            self.subject().wf(),
        ensures
            r.subject() == self.subject(),
            r@ == with_relation_term(
                self@,
                self.subject()@.relations.kinds,
                R::spec_kind_key(),
                None,
                false,
            ),
    {
        let QueryBuilder { world, mut terms } = self;
        terms.push_relation(world, R::kind_key(), None, false);
        QueryBuilder { world, terms }
    }

    /// Asks for entities without a relation to `target`.
    pub fn without_relation<R: RelationKind>(self, kind: R, target: Entity) -> (r: QueryBuilder<'w>)
        requires
            self.subject().wf(),
        ensures
            r.subject() == self.subject(),
            r@ == with_relation_term(
                self@,
                self.subject()@.relations.kinds,
                R::spec_kind_key(),
                Some(target),
                true,
            ),
    {
        let QueryBuilder { world, mut terms } = self;
        terms.push_relation(world, R::kind_key(), Some(target), true);
        QueryBuilder { world, terms }
    }

    /// Places of the archetypes that have the components asked for, and none that is excluded.
    /// Relations are not looked at here: the built query does that for each entity.
    pub fn matching_archetype_ids(&self) -> (list: Vec<usize>)
        requires
            self.subject().wf(),
        ensures
            list@ == component_places(self@, self.subject().store().archetypes),
    {
        self.terms.matching_archetype_ids(self.world)
    }

    /// Builds the query. A name that no type has is an error, and so is writing.
    pub fn build(self) -> (r: Result<DynQuery<'w>, DynQueryError>)
        requires
            self.subject().wf(),
        ensures
            match r {
                Ok(q) => {
                    &&& self@.unknown is None
                    &&& self@.writes.len() == 0
                    &&& q.wf()
                    &&& q.subject() == self.subject()
                    &&& q@ == dyn_state(self.subject(), self@)
                    &&& q.spec_reads() == self@.reads
                },
                Err(DynQueryError::UnknownComponent(name)) => self@.unknown == Some(name@),
                Err(DynQueryError::WriteNotSupported) => self@.unknown is None && self@.writes.len()
                    > 0,
                Err(DynQueryError::AliasedWrite(_)) => false,
            },
    {
        let QueryBuilder { world, terms } = self;
        let places: Vec<usize> = terms.places(world);
        let ghost t = terms@;
        let DynTerms { reads, writes, unknown, relations, .. } = terms;
        if let Some(name) = unknown {
            return Err(DynQueryError::UnknownComponent(name));
        }
        if writes.len() > 0 {
            return Err(DynQueryError::WriteNotSupported);
        }
        proof {
            world.lemma_store();
            lemma_suited(t, world.store().archetypes, world.store().archetypes.len());
        }
        Ok(DynQuery { world, reads, places, relations })
    }
}

/// Places that suit the terms ascend.
pub proof fn lemma_suited(t: TermsState, archetypes: Seq<ArchState>, n: nat)
    requires
        n <= archetypes.len() <= usize::MAX,
    ensures
        forall|i: int|
            0 <= i < suited_upto(t, archetypes, n).len() ==> #[trigger] suited_upto(
                t,
                archetypes,
                n,
            )[i] < n,
        forall|i: int, j: int|
            0 <= i < j < suited_upto(t, archetypes, n).len() ==> #[trigger] suited_upto(
                t,
                archetypes,
                n,
            )[i] < #[trigger] suited_upto(t, archetypes, n)[j],
    decreases n,
{
    if n > 0 {
        lemma_suited(t, archetypes, (n - 1) as nat);
        let head = suited_upto(t, archetypes, (n - 1) as nat);
        let all = suited_upto(t, archetypes, n);
        if terms_suit(t, archetypes[n - 1]) {
            assert(all == head.push((n - 1) as usize));
        } else {
            assert(all == head);
        }
    }
}

/// State of a dynamic query.
pub struct DynState {
    pub world: WorldState,
    /// The archetypes of the world.
    pub archetypes: Seq<ArchState>,
    /// Places of the archetypes to look at, in ascending order.
    pub places: Seq<usize>,
    pub relations: Seq<RelationFilter>,
}

/// State of the query with the given terms over a world.
pub open spec fn dyn_state(w: World, t: TermsState) -> DynState {
    DynState {
        world: w@,
        archetypes: w.store().archetypes,
        places: dyn_places(t, w.store().archetypes),
        relations: t.relations,
    }
}

/// The rows of an archetype that a dynamic query takes, from `row` on.
pub open spec fn dyn_rows_from(q: DynState, place: usize, row: int) -> Seq<(usize, usize)>
    decreases q.archetypes[place as int].entities.len() - row,
{
    if row >= q.archetypes[place as int].entities.len() {
        Seq::empty()
    } else if relations_hold(q.world, q.relations, q.archetypes[place as int].entities[row]) {
        seq![(place, row as usize)] + dyn_rows_from(q, place, row + 1)
    } else {
        dyn_rows_from(q, place, row + 1)
    }
}

/// The rows that a dynamic query takes, from the archetype at `k` of its list on.
pub open spec fn dyn_hits_from(q: DynState, k: nat) -> Seq<(usize, usize)>
    decreases q.places.len() - k,
{
    if k >= q.places.len() {
        Seq::empty()
    } else {
        dyn_rows_from(q, q.places[k as int], 0) + dyn_hits_from(q, k + 1)
    }
}

/// The rows that a dynamic query takes, in order: place of the archetype, and row.
pub open spec fn dyn_hits(q: DynState) -> Seq<(usize, usize)> {
    dyn_hits_from(q, 0)
}

/// The entity of a row.
pub open spec fn dyn_entity(q: DynState, hit: (usize, usize)) -> Entity {
    q.archetypes[hit.0 as int].entities[hit.1 as int]
}

/// A dynamic query for reading.
pub struct DynQuery<'w> {
    world: &'w World,
    reads: Vec<u32>,
    places: Vec<usize>,
    relations: Vec<RelationFilter>,
}

impl<'w> View for DynQuery<'w> {
    type V = DynState;

    closed spec fn view(&self) -> DynState {
        DynState {
            world: self.world@,
            archetypes: self.world.store().archetypes,
            places: self.places@,
            relations: self.relations@,
        }
    }
}

/// Whether places ascend and are those of archetypes.
pub open spec fn places_ok(places: Seq<usize>, n: nat) -> bool {
    &&& forall|i: int| 0 <= i < places.len() ==> #[trigger] places[i] < n
    &&& forall|i: int, j: int|
        0 <= i < j < places.len() ==> #[trigger] places[i] < #[trigger] places[j]
}

/// What a dynamic query hands out for a row.
pub struct DynItem<'w> {
    entity: Entity,
    arch: &'w Archetype,
    row: usize,
    registry: &'w ComponentRegistry,
}

impl<'w> DynItem<'w> {
    /// The item's invariant.
    pub closed spec fn wf(&self) -> bool {
        &&& self.arch.wf()
        &&& filled(self.arch@)
        &&& self.row < self.arch@.entities.len()
        &&& self.registry.wf()
    }

    /// The entity.
    pub closed spec fn spec_entity(&self) -> Entity {
        self.entity
    }

    /// The archetype.
    pub closed spec fn spec_archetype(&self) -> ArchState {
        self.arch@
    }

    /// The row.
    pub closed spec fn spec_row(&self) -> usize {
        self.row
    }

    /// The component types.
    pub closed spec fn infos(&self) -> Seq<InfoView> {
        self.registry@.infos
    }

    /// The entity.
    pub fn entity(&self) -> (e: Entity)
        ensures
            e == self.spec_entity(),
    {
        self.entity
    }

    /// The archetype.
    pub fn archetype(&self) -> (arch: &'w Archetype)
        requires
            self.wf(),
        ensures
            arch.wf(),
            arch@ == self.spec_archetype(),
    {
        self.arch
    }

    /// The row.
    pub fn row(&self) -> (row: usize)
        ensures
            row == self.spec_row(),
    {
        self.row
    }

    /// The value of a component, if the archetype has it.
    pub fn get_ptr(&self, id: ComponentId) -> (value: Option<&'w [u8]>)
        requires
            self.wf(),
        ensures
            match column_of(self.spec_archetype(), id.0) {
                Some(c) => value is Some && value->0@
                    == self.spec_archetype().columns[c].rows[self.spec_row() as int],
                None => value is None,
            },
    {
        proof {
            self.arch.lemma_wf();
        }
        self.arch.get_component(self.row, id)
    }

    /// The value of a component that is of the type with the given key, if the archetype has it.
    pub fn get(&self, key: u64, id: ComponentId) -> (value: Option<&'w [u8]>)
        requires
            self.wf(),
        ensures
            match column_of(self.spec_archetype(), id.0) {
                Some(c) => {
                    &&& value is Some <==> id.0 < self.infos().len() && self.infos()[id.0 as int].key
                        == key
                    &&& value matches Some(v) ==> v@
                        == self.spec_archetype().columns[c].rows[self.spec_row() as int]
                },
                None => value is None,
            },
    {
        match self.registry.get_info(id) {
            Some(info) => if info.key == key {
                self.get_ptr(id)
            } else {
                None
            },
            None => None,
        }
    }
}

/// Whether `item` is what a dynamic query hands out for a row.
pub open spec fn is_dyn_item(q: DynState, hit: (usize, usize), item: DynItem<'_>) -> bool {
    &&& item.wf()
    &&& item.spec_entity() == dyn_entity(q, hit)
    &&& item.spec_archetype() == q.archetypes[hit.0 as int]
    &&& item.spec_row() == hit.1
    &&& item.infos() == q.world.registry.infos
}

impl<'w> DynQuery<'w> {
    /// The query's invariant.
    pub closed spec fn wf(&self) -> bool {
        self.world.wf() && places_ok(self.places@, self.world.store().archetypes.len())
    }

    /// The world that the query is over.
    pub closed spec fn subject(&self) -> World {
        *self.world
    }

    /// The components asked for.
    pub closed spec fn spec_reads(&self) -> Seq<u32> {
        self.reads@
    }

    /// The components asked for, in the order of asking.
    pub fn reads(&self) -> (ids: &[u32])
        ensures
            ids@ == self.spec_reads(),
    {
        self.reads.as_slice()
    }

    /// Places of the archetypes that are looked at.
    pub fn archetype_ids(&self) -> (places: &[usize])
        ensures
            places@ == self@.places,
    {
        self.places.as_slice()
    }

    fn archetype(&self, place: usize) -> (arch: &'w Archetype)
        requires
            self.wf(),
            place < self@.archetypes.len(),
        ensures
            arch.wf(),
            arch@ == self@.archetypes[place as int],
            filled(arch@),
    {
        proof {
            self.world.lemma_store();
            assert(arch_ok(
                self.world.store().archetypes[place as int],
                place as int,
                self.world@.registry.infos,
            ));
        }
        self.world.storage().archetype(place)
    }

    fn item_at(&self, place: usize, row: usize) -> (item: DynItem<'w>)
        requires
            self.wf(),
            place < self@.archetypes.len(),
            row < self@.archetypes[place as int].entities.len(),
        ensures
            is_dyn_item(self@, (place, row), item),
    {
        let arch: &'w Archetype = self.archetype(place);
        DynItem { entity: arch.entities()[row], arch, row, registry: self.world.registry() }
    }

    /// Walks over the matches in order.
    pub fn iter<'q>(&'q self) -> (it: DynIter<'q, 'w>)
        requires
            self.wf(),
        ensures
            it.wf(),
            it.state() == self@,
            it.remaining() == dyn_hits(self@),
    {
        let it = DynIter { query: self, cursor: 0, row: 0 };
        assert(it.remaining() =~= dyn_hits(self@));
        it
    }

    /// Number of matches.
    pub fn count(&self) -> (n: usize)
        requires
            self.wf(),
        ensures
            n == dyn_hits(self@).len(),
    {
        proof {
            law_dyn_matches_can_be_counted(self@, *self.world);
        }
        let mut it = self.iter();
        let ghost q = self@;
        let mut n: usize = 0;
        loop
            invariant
                it.wf(),
                it.state() == q,
                q == self@,
                n + it.remaining().len() == dyn_hits(q).len(),
                dyn_hits(q).len() <= usize::MAX,
            decreases it.remaining().len(),
        {
            match it.next_row() {
                Some(_) => {
                    n = n + 1;
                },
                None => {
                    return n;
                },
            }
        }
    }

    /// Whether there is no match.
    pub fn is_empty(&self) -> (b: bool)
        requires
            self.wf(),
        ensures
            b == (dyn_hits(self@).len() == 0),
    {
        self.iter().next_row().is_none()
    }

    /// What the query hands out for an entity, if the entity is alive, its archetype is looked at,
    /// and its relations are as asked for.
    pub fn get(&self, entity: Entity) -> (item: Option<DynItem<'w>>)
        requires
            self.wf(),
        ensures
            match location_of(self.subject().store().entities, entity) {
                Some(loc) => {
                    &&& item is Some <==> self@.places.contains(loc.archetype_id.0 as usize)
                        && relations_hold(self@.world, self@.relations, entity)
                    &&& item is Some ==> is_dyn_item(
                        self@,
                        (loc.archetype_id.0 as usize, loc.row as usize),
                        item->0,
                    )
                },
                None => item is None,
            },
    {
        proof {
            self.world.lemma_store();
        }
        match self.world.location(entity) {
            Some(loc) => {
                let place: usize = loc.archetype_id.0 as usize;
                if !search(self.places.as_slice(), place) {
                    return None;
                }
                if !passes_relations(&self.relations, self.world, entity) {
                    return None;
                }
                Some(self.item_at(place, loc.row as usize))
            },
            None => None,
        }
    }
}

/// Whether an ascending list holds `x`.
fn search(list: &[usize], x: usize) -> (b: bool)
    requires
        forall|i: int, j: int|
            0 <= i < j < list@.len() ==> #[trigger] list@[i] < #[trigger] list@[j],
    ensures
        b == list@.contains(x),
{
    let mut lo: usize = 0;
    let mut hi: usize = list.len();
    while lo < hi
        invariant
            lo <= hi <= list@.len(),
            forall|i: int, j: int|
                0 <= i < j < list@.len() ==> #[trigger] list@[i] < #[trigger] list@[j],
            forall|i: int| 0 <= i < lo ==> #[trigger] list@[i] < x,
            forall|i: int| hi <= i < list@.len() ==> #[trigger] list@[i] > x,
        decreases hi - lo,
    {
        let mid: usize = lo + (hi - lo) / 2;
        if list[mid] == x {
            return true;
        }
        if list[mid] < x {
            lo = mid + 1;
        } else {
            hi = mid;
        }
    }
    false
}

/// Walks over the rows that a dynamic query takes, in order.
pub struct DynIter<'q, 'w> {
    query: &'q DynQuery<'w>,
    cursor: usize,
    row: usize,
}

impl<'q, 'w> DynIter<'q, 'w> {
    /// The iterator's invariant.
    pub closed spec fn wf(&self) -> bool {
        &&& self.query.wf()
        &&& self.cursor <= self.query@.places.len()
        &&& self.cursor < self.query@.places.len() ==> self.row
            <= self.query@.archetypes[self.query@.places[self.cursor as int] as int].entities.len()
    }

    /// State of the query that is walked.
    pub closed spec fn state(&self) -> DynState {
        self.query@
    }

    /// The rows that are still to come.
    pub closed spec fn remaining(&self) -> Seq<(usize, usize)> {
        let q = self.query@;
        if self.cursor < q.places.len() {
            dyn_rows_from(q, q.places[self.cursor as int], self.row as int) + dyn_hits_from(
                q,
                (self.cursor + 1) as nat,
            )
        } else {
            Seq::empty()
        }
    }

    /// The place and row of the next match.
    pub fn next_row(&mut self) -> (hit: Option<(usize, usize)>)
        requires
            old(self).wf(),
        ensures
            final(self).wf(),
            final(self).state() == old(self).state(),
            old(self).remaining().len() == 0 ==> hit is None && final(self).remaining().len() == 0,
            old(self).remaining().len() > 0 ==> {
                &&& hit == Some(old(self).remaining()[0])
                &&& final(self).remaining() == old(self).remaining().drop_first()
                &&& hit matches Some((place, row)) && place < old(self).state().archetypes.len()
                    && row < old(self).state().archetypes[place as int].entities.len()
            },
    {
        let ghost q = self.query@;
        let ghost rest = self.remaining();
        let places: &[usize] = self.query.places.as_slice();
        while self.cursor < places.len()
            invariant
                self.wf(),
                self.query == old(self).query,
                self.query@ == q,
                places@ == q.places,
                self.remaining() == rest,
                rest == old(self).remaining(),
            decreases
                    q.places.len() - self.cursor,
                    if self.cursor < q.places.len() {
                        q.archetypes[q.places[self.cursor as int] as int].entities.len() - self.row
                    } else {
                        0
                    },
        {
            let place: usize = places[self.cursor];
            let arch: &Archetype = self.query.archetype(place);
            if self.row < arch.len() {
                let row: usize = self.row;
                let entity: Entity = arch.entities()[row];
                let ghost tail = dyn_rows_from(q, place, row as int + 1);
                let ghost later = dyn_hits_from(q, (self.cursor + 1) as nat);
                self.row = row + 1;
                if passes_relations(&self.query.relations, self.query.world, entity) {
                    proof {
                        let head = seq![(place, row)];
                        assert(rest == (head + tail) + later);
                        assert(rest[0] == (place, row));
                        assert(rest.drop_first() =~= tail + later);
                    }
                    return Some((place, row));
                }
            } else {
                self.cursor = self.cursor + 1;
                self.row = 0;
                proof {
                    assert(self.remaining() =~= rest);
                }
            }
        }
        None
    }

    /// The next match.
    pub fn next(&mut self) -> (item: Option<DynItem<'w>>)
        requires
            old(self).wf(),
        ensures
            final(self).wf(),
            final(self).state() == old(self).state(),
            old(self).remaining().len() == 0 ==> item is None && final(self).remaining().len() == 0,
            old(self).remaining().len() > 0 ==> {
                &&& item is Some
                &&& is_dyn_item(old(self).state(), old(self).remaining()[0], item->0)
                &&& final(self).remaining() == old(self).remaining().drop_first()
            },
    {
        match self.next_row() {
            Some((place, row)) => Some(self.query.item_at(place, row)),
            None => None,
        }
    }
}

/// Builds a dynamic query for reading and writing.
pub struct QueryBuilderMut<'w> {
    pub world: &'w mut World,
    pub terms: DynTerms,
}

impl<'w> View for QueryBuilderMut<'w> {
    type V = TermsState;

    closed spec fn view(&self) -> TermsState {
        self.terms@
    }
}

impl<'w> QueryBuilderMut<'w> {
    /// A builder without terms.
    pub fn new(world: &'w mut World) -> (b: QueryBuilderMut<'w>)
        ensures
            *b.world == *old(world),
            *final(b.world) == *final(world),
            b@ == no_terms(),
    {
        QueryBuilderMut { world, terms: DynTerms::new() }
    }

    /// Asks for a component for reading, by the key of its type. No entity has a type that is not
    /// registered.
    pub fn read(self, key: u64) -> (r: QueryBuilderMut<'w>)
        requires
            self.world.wf(),
        ensures
            *r.world == *old(self.world),
            *final(r.world) == *final(self.world),
            r@ == with_term(
                self@,
                TermUse::Read,
                resolved(old(self.world)@.registry.infos, key),
            ),
    {
        let QueryBuilderMut { world, mut terms } = self;
        terms.push_key(&*world, TermUse::Read, key);
        QueryBuilderMut { world, terms }
    }

    /// Asks for a component for reading, by its number.
    pub fn read_id(self, id: ComponentId) -> (r: QueryBuilderMut<'w>)
        ensures
            *r.world == *old(self.world),
            *final(r.world) == *final(self.world),
            r@ == with_term(self@, TermUse::Read, id.0),
    {
        let QueryBuilderMut { world, mut terms } = self;
        terms.push_term(TermUse::Read, id.0);
        QueryBuilderMut { world, terms }
    }

    /// Asks for a component for reading, by the full name of its type.
    pub fn read_name(self, name: &str) -> (r: QueryBuilderMut<'w>)
        requires
            self.world.wf(),
        ensures
            *r.world == *old(self.world),
            *final(r.world) == *final(self.world),
            r@ == with_named(self@, TermUse::Read, old(self.world)@.registry.infos, name@),
    {
        let QueryBuilderMut { world, mut terms } = self;
        terms.push_name(&*world, TermUse::Read, name);
        QueryBuilderMut { world, terms }
    }

    /// Asks for a component for writing, by the key of its type. No entity has a type that is not
    /// registered.
    pub fn write(self, key: u64) -> (r: QueryBuilderMut<'w>)
        requires
            self.world.wf(),
        ensures
            *r.world == *old(self.world),
            *final(r.world) == *final(self.world),
            r@ == with_term(
                self@,
                TermUse::Write,
                resolved(old(self.world)@.registry.infos, key),
            ),
    {
        let QueryBuilderMut { world, mut terms } = self;
        terms.push_key(&*world, TermUse::Write, key);
        QueryBuilderMut { world, terms }
    }

    /// Asks for a component for writing, by its number.
    pub fn write_id(self, id: ComponentId) -> (r: QueryBuilderMut<'w>)
        ensures
            *r.world == *old(self.world),
            *final(r.world) == *final(self.world),
            r@ == with_term(self@, TermUse::Write, id.0),
    {
        let QueryBuilderMut { world, mut terms } = self;
        terms.push_term(TermUse::Write, id.0);
        QueryBuilderMut { world, terms }
    }

    /// Asks for a component for writing, by the full name of its type.
    pub fn write_name(self, name: &str) -> (r: QueryBuilderMut<'w>)
        requires
            self.world.wf(),
        ensures
            *r.world == *old(self.world),
            *final(r.world) == *final(self.world),
            r@ == with_named(self@, TermUse::Write, old(self.world)@.registry.infos, name@),
    {
        let QueryBuilderMut { world, mut terms } = self;
        terms.push_name(&*world, TermUse::Write, name);
        QueryBuilderMut { world, terms }
    }

    /// Asks for entities that have a component, by the key of its type. No entity has a type that
    /// is not registered.
    pub fn with(self, key: u64) -> (r: QueryBuilderMut<'w>)
        requires
            self.world.wf(),
        ensures
            *r.world == *old(self.world),
            *final(r.world) == *final(self.world),
            r@ == with_term(
                self@,
                TermUse::With,
                resolved(old(self.world)@.registry.infos, key),
            ),
    {
        let QueryBuilderMut { world, mut terms } = self;
        terms.push_key(&*world, TermUse::With, key);
        QueryBuilderMut { world, terms }
    }

    /// Asks for entities that have a component, by its number.
    pub fn with_id(self, id: ComponentId) -> (r: QueryBuilderMut<'w>)
        ensures
            *r.world == *old(self.world),
            *final(r.world) == *final(self.world),
            r@ == with_term(self@, TermUse::With, id.0),
    {
        let QueryBuilderMut { world, mut terms } = self;
        terms.push_term(TermUse::With, id.0);
        QueryBuilderMut { world, terms }
    }

    /// Asks for entities that have a component, by the full name of its type.
    pub fn with_name(self, name: &str) -> (r: QueryBuilderMut<'w>)
        requires
            self.world.wf(),
        ensures
            *r.world == *old(self.world),
            *final(r.world) == *final(self.world),
            r@ == with_named(self@, TermUse::With, old(self.world)@.registry.infos, name@),
    {
        let QueryBuilderMut { world, mut terms } = self;
        terms.push_name(&*world, TermUse::With, name);
        QueryBuilderMut { world, terms }
    }

    /// Asks for entities that lack a component, by the key of its type. No entity has a type that
    /// is not registered.
    pub fn exclude(self, key: u64) -> (r: QueryBuilderMut<'w>)
        requires
            self.world.wf(),
        ensures
            *r.world == *old(self.world),
            *final(r.world) == *final(self.world),
            r@ == with_term(
                self@,
                TermUse::Exclude,
                resolved(old(self.world)@.registry.infos, key),
            ),
    {
        let QueryBuilderMut { world, mut terms } = self;
        terms.push_key(&*world, TermUse::Exclude, key);
        QueryBuilderMut { world, terms }
    }

    /// Asks for entities that lack a component, by its number.
    pub fn exclude_id(self, id: ComponentId) -> (r: QueryBuilderMut<'w>)
        ensures
            *r.world == *old(self.world),
            *final(r.world) == *final(self.world),
            r@ == with_term(self@, TermUse::Exclude, id.0),
    {
        let QueryBuilderMut { world, mut terms } = self;
        terms.push_term(TermUse::Exclude, id.0);
        QueryBuilderMut { world, terms }
    }

    /// Asks for entities that lack a component, by the full name of its type.
    pub fn exclude_name(self, name: &str) -> (r: QueryBuilderMut<'w>)
        requires
            self.world.wf(),
        ensures
            *r.world == *old(self.world),
            *final(r.world) == *final(self.world),
            r@ == with_named(self@, TermUse::Exclude, old(self.world)@.registry.infos, name@),
    {
        let QueryBuilderMut { world, mut terms } = self;
        terms.push_name(&*world, TermUse::Exclude, name);
        QueryBuilderMut { world, terms }
    }

    /// Asks for entities with a relation to `target`.
    pub fn with_relation<R: RelationKind>(self, kind: R, target: Entity) -> (r: QueryBuilderMut<'w>)
        requires
            self.world.wf(),
        ensures
            *r.world == *old(self.world),
            *final(r.world) == *final(self.world),
            r@ == with_relation_term(
                self@,
                old(self.world)@.relations.kinds,
                R::spec_kind_key(),
                Some(target),
                false,
            ),
    {
        let QueryBuilderMut { world, mut terms } = self;
        terms.push_relation(&*world, R::kind_key(), Some(target), false);
        QueryBuilderMut { world, terms }
    }

    /// Asks for entities with a relation of a kind, to whatever target.
    pub fn with_any_relation<R: RelationKind>(self, kind: R) -> (r: QueryBuilderMut<'w>)
        requires
            self.world.wf(),
        ensures
            *r.world == *old(self.world),
            *final(r.world) == *final(self.world),
            r@ == with_relation_term(
                self@,
                old(self.world)@.relations.kinds,
                R::spec_kind_key(),
                None,
                false,
            ),
    {
        let QueryBuilderMut { world, mut terms } = self;
        terms.push_relation(&*world, R::kind_key(), None, false);
        QueryBuilderMut { world, terms }
    }

    /// Asks for entities without a relation to `target`.
    pub fn without_relation<R: RelationKind>(self, kind: R, target: Entity) -> (r: QueryBuilderMut<'w>)
        requires
            self.world.wf(),
        ensures
            *r.world == *old(self.world),
            *final(r.world) == *final(self.world),
            r@ == with_relation_term(
                self@,
                old(self.world)@.relations.kinds,
                R::spec_kind_key(),
                Some(target),
                true,
            ),
    {
        let QueryBuilderMut { world, mut terms } = self;
        terms.push_relation(&*world, R::kind_key(), Some(target), true);
        QueryBuilderMut { world, terms }
    }

    /// Builds the query. A name that no type has is an error, and so is a component that is written
    /// more than once.
    pub fn build(self) -> (r: Result<DynQueryMut<'w>, DynQueryError>)
        requires
            self.world.wf(),
        ensures
            match r {
                Ok(q) => {
                    &&& self@.unknown is None
                    &&& first_repeated(self@.writes, 0) == self@.writes.len()
                    &&& q.wf()
                    &&& *q.world == *old(self.world)
                    &&& *final(q.world) == *final(self.world)
                    &&& q@ == dyn_state(*old(self.world), self@)
                    &&& q.spec_reads() == self@.reads
                    &&& q.spec_writes() == self@.writes
                },
                Err(DynQueryError::UnknownComponent(name)) => self@.unknown == Some(name@),
                Err(DynQueryError::AliasedWrite(id)) => self@.unknown is None && first_repeated(
                    self@.writes,
                    0,
                ) < self@.writes.len() && id.0 == self@.writes[first_repeated(
                    self@.writes,
                    0,
                ) as int],
                Err(DynQueryError::WriteNotSupported) => false,
            },
            r is Err ==> *final(self.world) == *old(self.world),
    {
        let QueryBuilderMut { world, terms } = self;
        let places: Vec<usize> = terms.places(&*world);
        let alias: Option<u32> = terms.check_write_alias();
        let ghost t = terms@;
        let DynTerms { reads, writes, unknown, relations, .. } = terms;
        if let Some(name) = unknown {
            return Err(DynQueryError::UnknownComponent(name));
        }
        if let Some(id) = alias {
            return Err(DynQueryError::AliasedWrite(ComponentId(id)));
        }
        proof {
            world.lemma_store();
            lemma_suited(t, world.store().archetypes, world.store().archetypes.len());
        }
        Ok(DynQueryMut { world, reads, writes, places, relations })
    }
}

/// A dynamic query for reading and writing.
pub struct DynQueryMut<'w> {
    pub world: &'w mut World,
    pub reads: Vec<u32>,
    pub writes: Vec<u32>,
    pub places: Vec<usize>,
    pub relations: Vec<RelationFilter>,
}

impl<'w> View for DynQueryMut<'w> {
    type V = DynState;

    open spec fn view(&self) -> DynState {
        DynState {
            world: self.world@,
            archetypes: self.world.store().archetypes,
            places: self.places@,
            relations: self.relations@,
        }
    }
}

/// The anomaly of a write that a query did not declare.
pub open spec fn undeclared_write(
    infos: Seq<InfoView>,
    op: Seq<char>,
    e: Entity,
    id: u32,
) -> AnomalyState {
    AnomalyState {
        severity: Severity::Warn,
        op,
        entity: Some(e),
        component: if id < infos.len() {
            Some(infos[id as int].name)
        } else {
            None
        },
        detail: "component id "@ + id_text(id)
            + " is not in the query's declared writes — mutation refused (declare it via write/write_id/write_name)"@,
    }
}

/// An entity of a dynamic query, open for writing of the components that the query declared.
pub struct DynItemMut<'a> {
    pub world: &'a mut World,
    pub entity: Entity,
    pub writes: &'a [u32],
}

impl<'a> DynItemMut<'a> {
    /// The invariant: the entity is alive.
    pub open spec fn wf(&self) -> bool {
        self.world.wf() && self.world@.values.contains_key(self.entity)
    }

    /// The entity.
    pub fn entity(&self) -> (e: Entity)
        ensures
            e == self.entity,
    {
        self.entity
    }

    /// The value of a component, if the entity has it.
    pub fn get_ptr(&self, id: ComponentId) -> (value: Option<&[u8]>)
        requires
            self.wf(),
        ensures
            value is Some <==> old(self.world)@.values[self.entity].contains_key(id.0),
            value matches Some(v) ==> v@ == old(self.world)@.values[self.entity][id.0].value,
    {
        self.world.get(self.entity, id)
    }

    /// The value of a component that is of the type with the given key, if the entity has it.
    pub fn get(&self, key: u64, id: ComponentId) -> (value: Option<&[u8]>)
        requires
            self.wf(),
        ensures
            value is Some <==> old(self.world)@.values[self.entity].contains_key(id.0) && of_type(
                old(self.world)@,
                key,
                id.0,
            ),
            value matches Some(v) ==> v@ == old(self.world)@.values[self.entity][id.0].value,
    {
        if is_of_type(&*self.world, key, id) {
            self.world.get(self.entity, id)
        } else {
            None
        }
    }

    fn refuse(&mut self, op: &'static str, id: ComponentId)
        requires
            old(self).wf(),
        ensures
            final(self).wf(),
            final(self).entity == old(self).entity,
            final(self).writes == old(self).writes,
            *final(final(self).world) == *final(old(self).world),
            final(self).world@ == reported(
                old(self).world@,
                undeclared_write(old(self).world@.registry.infos, op@, old(self).entity, id.0),
            ),
    {
        let component: Option<String> = match self.world.registry().get_info(id) {
            Some(info) => Some(info.name.as_str().to_owned()),
            None => None,
        };
        let mut detail: String = "component id ".to_owned();
        push_id(&mut detail, id);
        detail.append(
            " is not in the query's declared writes — mutation refused (declare it via write/write_id/write_name)",
        );
        let anomaly = Anomaly {
            severity: Severity::Warn,
            op,
            entity: Some(self.entity),
            component,
            detail,
        };
        self.world.report(anomaly);
    }

    /// Opens a component for writing and marks it as changed. A component that the query did not
    /// declare for writing is refused, and that is reported.
    pub fn get_mut_ptr(&mut self, id: ComponentId) -> (m: Option<Mut<'_>>)
        requires
            old(self).wf(),
        ensures
            final(self).entity == old(self).entity,
            final(self).writes == old(self).writes,
            *final(final(self).world) == *final(old(self).world),
            m is Some <==> old(self).writes@.contains(id.0) && old(self).world@.values[old(
                self,
            ).entity].contains_key(id.0),
            !old(self).writes@.contains(id.0) ==> final(self).wf() && final(self).world@ == reported(
                old(self).world@,
                undeclared_write(
                    old(self).world@.registry.infos,
                    "DynItemMut::get_mut_ptr"@,
                    old(self).entity,
                    id.0,
                ),
            ),
            old(self).writes@.contains(id.0) && m is None ==> *final(self).world == *old(
                self,
            ).world,
            m matches Some(m) ==> {
                &&& m.wf()
                &&& m.entity == old(self).entity
                &&& m.id == id
                &&& m.world@ == marked(old(self).world@, old(self).entity, id.0)
                &&& *final(m.world) == *final(self).world
            },
    {
        if !holds(self.writes, id.0) {
            self.refuse("DynItemMut::get_mut_ptr", id);
            return None;
        }
        open_marked(&mut *self.world, self.entity, id)
    }

    /// Opens a component that is of the type with the given key for writing, and marks it as
    /// changed. A component that the query did not declare for writing is refused, and that is
    /// reported.
    pub fn get_mut(&mut self, key: u64, id: ComponentId) -> (m: Option<Mut<'_>>)
        requires
            old(self).wf(),
        ensures
            final(self).entity == old(self).entity,
            final(self).writes == old(self).writes,
            *final(final(self).world) == *final(old(self).world),
            m is Some <==> old(self).writes@.contains(id.0) && old(self).world@.values[old(
                self,
            ).entity].contains_key(id.0) && of_type(old(self).world@, key, id.0),
            !old(self).writes@.contains(id.0) ==> final(self).wf() && final(self).world@ == reported(
                old(self).world@,
                undeclared_write(
                    old(self).world@.registry.infos,
                    "DynItemMut::get_mut"@,
                    old(self).entity,
                    id.0,
                ),
            ),
            old(self).writes@.contains(id.0) && m is None ==> *final(self).world == *old(
                self,
            ).world,
            m matches Some(m) ==> {
                &&& m.wf()
                &&& m.entity == old(self).entity
                &&& m.id == id
                &&& m.world@ == marked(old(self).world@, old(self).entity, id.0)
                &&& *final(m.world) == *final(self).world
            },
    {
        if !holds(self.writes, id.0) {
            self.refuse("DynItemMut::get_mut", id);
            return None;
        }
        if !is_of_type(&*self.world, key, id) {
            return None;
        }
        open_marked(&mut *self.world, self.entity, id)
    }
}

/// Whether a component number stands for the type with the given key.
pub open spec fn of_type(w: WorldState, key: u64, id: u32) -> bool {
    id < w.registry.infos.len() && w.registry.infos[id as int].key == key
}

fn is_of_type(world: &World, key: u64, id: ComponentId) -> (b: bool)
    requires
        world.wf(),
    ensures
        b == of_type(world@, key, id.0),
{
    match world.registry().get_info(id) {
        Some(info) => info.key == key,
        None => false,
    }
}

/// The state with a component marked as changed.
pub open spec fn marked(w: WorldState, e: Entity, id: u32) -> WorldState {
    after_write(w, e, id, w.values[e][id].value, w.tick)
}

/// Opens a component for writing and marks it as changed, if the entity has it.
fn open_marked(world: &mut World, e: Entity, id: ComponentId) -> (m: Option<Mut<'_>>)
    requires
        old(world).wf(),
        old(world)@.values.contains_key(e),
    ensures
        m is Some <==> old(world)@.values[e].contains_key(id.0),
        m is None ==> *final(world) == *old(world),
        m matches Some(m) ==> {
            &&& m.wf()
            &&& m.entity == e
            &&& m.id == id
            &&& m.world@ == marked(old(world)@, e, id.0)
            &&& *final(m.world) == *final(world)
        },
{
    match world.get(e, id) {
        None => None,
        Some(_) => {
            let mut m = Mut { world, entity: e, id };
            m.set_changed();
            Some(m)
        },
    }
}

impl<'w> DynQueryMut<'w> {
    /// The query's invariant.
    pub open spec fn wf(&self) -> bool {
        self.world.wf() && places_ok(self.places@, self.world.store().archetypes.len())
    }

    /// The components asked for.
    pub open spec fn spec_reads(&self) -> Seq<u32> {
        self.reads@
    }

    /// The components asked for, for writing.
    pub open spec fn spec_writes(&self) -> Seq<u32> {
        self.writes@
    }

    /// The components asked for, in the order of asking.
    pub fn reads(&self) -> (ids: &[u32])
        ensures
            ids@ == self.spec_reads(),
    {
        self.reads.as_slice()
    }

    /// The components asked for, for writing, in the order of asking.
    pub fn writes(&self) -> (ids: &[u32])
        ensures
            ids@ == self.spec_writes(),
    {
        self.writes.as_slice()
    }

    /// Places of the archetypes that are looked at.
    pub fn archetype_ids(&self) -> (places: &[usize])
        ensures
            places@ == self@.places,
    {
        self.places.as_slice()
    }

    /// The entities of all matches, in order.
    pub fn entities(&self) -> (list: Vec<Entity>)
        requires
            self.wf(),
        ensures
            list@ == dyn_hits(self@).map_values(|hit: (usize, usize)| dyn_entity(self@, hit)),
    {
        let ghost q = self@;
        let ghost all = dyn_hits(q);
        let storage = self.world.storage();
        proof {
            self.world.lemma_store();
        }
        let mut list: Vec<Entity> = Vec::new();
        let ghost mut seen: Seq<(usize, usize)> = Seq::empty();
        let mut k: usize = 0;
        while k < self.places.len()
            invariant
                k <= self.places@.len(),
                self.wf(),
                q == self@,
                all == dyn_hits(q),
                storage.wf(self.world@.registry.infos),
                storage@ == self.world.store(),
                seen + dyn_hits_from(q, k as nat) =~= all,
                list@ =~= seen.map_values(|hit: (usize, usize)| dyn_entity(q, hit)),
            decreases self.places.len() - k,
        {
            let place: usize = self.places[k];
            let arch = storage.archetype(place);
            let n: usize = arch.len();
            let mut row: usize = 0;
            let ghost later = dyn_hits_from(q, (k + 1) as nat);
            assert(seen + dyn_rows_from(q, place, 0) + later =~= all);
            while row < n
                invariant
                    row <= n == arch@.entities.len(),
                    self.wf(),
                    q == self@,
                    place < q.archetypes.len(),
                    arch@ == q.archetypes[place as int],
                    seen + dyn_rows_from(q, place, row as int) + later =~= all,
                    list@ =~= seen.map_values(|hit: (usize, usize)| dyn_entity(q, hit)),
                decreases n - row,
            {
                let entity: Entity = arch.entities()[row];
                if passes_relations(&self.relations, &*self.world, entity) {
                    list.push(entity);
                    proof {
                        seen = seen.push((place, row));
                    }
                }
                row = row + 1;
            }
            k = k + 1;
        }
        list
    }

    /// Number of matches.
    pub fn count(&self) -> (n: usize)
        requires
            self.wf(),
        ensures
            n == dyn_hits(self@).len(),
    {
        self.entities().len()
    }

    /// Whether there is no match.
    pub fn is_empty(&self) -> (b: bool)
        requires
            self.wf(),
        ensures
            b == (dyn_hits(self@).len() == 0),
    {
        self.count() == 0
    }

    /// Opens an entity, if it is alive, its archetype is looked at, and its relations are as asked
    /// for.
    pub fn get_mut(&mut self, entity: Entity) -> (item: Option<DynItemMut<'_>>)
        requires
            old(self).wf(),
        ensures
            *final(final(self).world) == *final(old(self).world),
            match location_of(old(self).world.store().entities, entity) {
                Some(loc) => item is Some <==> old(self)@.places.contains(
                    loc.archetype_id.0 as usize,
                ) && relations_hold(old(self)@.world, old(self)@.relations, entity),
                None => item is None,
            },
            item matches Some(item) ==> {
                &&& item.wf()
                &&& item.entity == entity
                &&& item.writes@ == old(self).spec_writes()
                &&& *item.world == *old(self).world
                &&& *final(item.world) == *final(self).world
            },
            item is None ==> *final(self) == *old(self),
    {
        proof {
            self.world.lemma_store();
        }
        match self.world.location(entity) {
            Some(loc) => {
                let place: usize = loc.archetype_id.0 as usize;
                if !search(self.places.as_slice(), place) {
                    return None;
                }
                if !passes_relations(&self.relations, &*self.world, entity) {
                    return None;
                }
                Some(
                    DynItemMut { world: &mut *self.world, entity, writes: self.writes.as_slice() },
                )
            },
            None => None,
        }
    }
}

impl World {
    /// A builder of dynamic queries for reading.
    pub fn query_builder(&self) -> (b: QueryBuilder<'_>)
        ensures
            b.subject() == *self,
            b@ == no_terms(),
    {
        QueryBuilder::new(self)
    }

    /// A builder of dynamic queries for reading and writing.
    pub fn query_builder_mut(&mut self) -> (b: QueryBuilderMut<'_>)
        ensures
            *b.world == *old(self),
            *final(b.world) == *final(self),
            b@ == no_terms(),
    {
        QueryBuilderMut::new(self)
    }
}

} // verus!
