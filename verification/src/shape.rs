//! Query shapes: which components a query asks for, and which archetypes and rows it takes.

use vstd::prelude::*;
use crate::access::{AccessDescriptor, with_keys};
use crate::archetype::{ArchState, Archetype, column_of, filled};
use crate::component::{ComponentId, INVALID_ID, Tick, newer};
use crate::inline::{IdList, KeyList, id_items, key_items};
use crate::registry::{ComponentRegistry, InfoView, id_of};
use crate::storage::CellState;
use crate::world::row_cells;

verus! {

/// Mark of an excluded component in a cache key.
pub const KEY_ROLE_WITHOUT: u64 = 0x1_0000_0000;

/// Mark of an optional component in a cache key.
pub const KEY_ROLE_OPTIONAL: u64 = 0x2_0000_0000;

/// Start of a disjunction in a cache key.
pub const KEY_OR_OPEN: u64 = 0x4_0000_0000;

/// End of a disjunction in a cache key.
pub const KEY_OR_CLOSE: u64 = 0x5_0000_0000;

/// Start of a branch of a disjunction that is no single component or disjunction.
pub const KEY_BRANCH_OPEN: u64 = 0x6_0000_0000;

/// End of such a branch.
pub const KEY_BRANCH_CLOSE: u64 = 0x7_0000_0000;

/// The bit of a cache key entry that stands for no component.
pub const KEY_MARKER_BIT: u64 = 0x4_0000_0000;

/// What a query does with one component type.
#[derive(Clone, Copy, PartialEq, Eq, Debug, Structural)]
pub enum Role {
    /// Reads it.
    Read,
    /// Writes it.
    Write,
    /// Takes entities that have it.
    With,
    /// Takes entities that lack it.
    Without,
    /// Reads it where it is there.
    Maybe,
    /// Writes it where it is there.
    MaybeWrite,
    /// Takes entities whose component changed since the last run.
    Changed,
    /// Takes entities that got the component since the last run.
    Added,
}

/// A query shape. Component types are known by their keys.
pub enum Shape {
    /// One component type in a role.
    Component(Role, u64),
    /// The entity itself.
    Entity,
    /// Nothing.
    Unit,
    /// One branch at least: a disjunction of filters.
    Or(Vec<Shape>),
    /// All parts.
    All(Vec<Shape>),
}

/// Number of the type with the given key; an invalid one where it is not registered.
pub open spec fn resolved(infos: Seq<InfoView>, key: u64) -> u32 {
    match id_of(infos, key) {
        Some(i) => i,
        None => INVALID_ID,
    }
}

/// Number of component entries of a shape.
pub open spec fn count(s: Shape) -> nat
    decreases s, parts(s).len() + 1,
{
    match s {
        Shape::Component(..) => 1,
        Shape::Entity => 0,
        Shape::Unit => 0,
        Shape::Or(v) => counts(s, v@.len()),
        Shape::All(v) => counts(s, v@.len()),
    }
}

/// The parts of a shape.
pub open spec fn parts(s: Shape) -> Seq<Shape> {
    match s {
        Shape::Or(v) => v@,
        Shape::All(v) => v@,
        _ => Seq::empty(),
    }
}

/// Number of component entries of the first `n` parts.
pub open spec fn counts(s: Shape, n: nat) -> nat
    decreases s, n,
{
    if n == 0 || n > parts(s).len() {
        0
    } else {
        counts(s, (n - 1) as nat) + count(parts(s)[n - 1])
    }
}

/// Numbers of the component types of a shape, in order.
pub open spec fn ids(infos: Seq<InfoView>, s: Shape) -> Seq<u32>
    decreases s, parts(s).len() + 1,
{
    match s {
        Shape::Component(_, key) => seq![resolved(infos, key)],
        Shape::Entity => Seq::empty(),
        Shape::Unit => Seq::empty(),
        Shape::Or(v) => ids_upto(infos, s, v@.len()),
        Shape::All(v) => ids_upto(infos, s, v@.len()),
    }
}

/// Numbers of the component types of the first `n` parts.
pub open spec fn ids_upto(infos: Seq<InfoView>, s: Shape, n: nat) -> Seq<u32>
    decreases s, n,
{
    if n == 0 || n > parts(s).len() {
        Seq::empty()
    } else {
        ids_upto(infos, s, (n - 1) as nat) + ids(infos, parts(s)[n - 1])
    }
}

/// Numbers of the component types that an entity must have: no other entity can match.
pub open spec fn required_ids(infos: Seq<InfoView>, s: Shape) -> Seq<u32>
    decreases s, parts(s).len() + 1,
{
    match s {
        Shape::Component(role, key) => if role == Role::Without || role == Role::Maybe || role
            == Role::MaybeWrite {
            Seq::empty()
        } else {
            seq![resolved(infos, key)]
        },
        Shape::All(v) => required_upto(infos, s, v@.len()),
        _ => Seq::empty(),
    }
}

/// Numbers of the component types that the first `n` parts require.
pub open spec fn required_upto(infos: Seq<InfoView>, s: Shape, n: nat) -> Seq<u32>
    decreases s, n,
{
    if n == 0 || n > parts(s).len() {
        Seq::empty()
    } else {
        required_upto(infos, s, (n - 1) as nat) + required_ids(infos, parts(s)[n - 1])
    }
}

/// Numbers of the component types of a shape that are not excluded.
pub open spec fn positive_ids(infos: Seq<InfoView>, s: Shape) -> Seq<u32>
    decreases s, parts(s).len() + 1,
{
    match s {
        Shape::Component(role, key) => if role == Role::Without {
            Seq::empty()
        } else {
            seq![resolved(infos, key)]
        },
        Shape::Or(v) => ids_upto(infos, s, v@.len()),
        Shape::All(v) => positive_upto(infos, s, v@.len()),
        _ => Seq::empty(),
    }
}

/// Numbers of the component types of the first `n` parts that are not excluded.
pub open spec fn positive_upto(infos: Seq<InfoView>, s: Shape, n: nat) -> Seq<u32>
    decreases s, n,
{
    if n == 0 || n > parts(s).len() {
        Seq::empty()
    } else {
        positive_upto(infos, s, (n - 1) as nat) + positive_ids(infos, parts(s)[n - 1])
    }
}

/// The cache key entry of a component type in a role.
pub open spec fn key_entry(role: Role, id: u32) -> u64 {
    if role == Role::Without {
        id as u64 | KEY_ROLE_WITHOUT
    } else if role == Role::Maybe || role == Role::MaybeWrite {
        id as u64 | KEY_ROLE_OPTIONAL
    } else {
        id as u64
    }
}

/// Whether a part is marked off in the cache key: a branch of a disjunction that is no single
/// component or disjunction. Its components would pass for as many branches.
pub open spec fn marked_off(s: Shape, part: Shape) -> bool {
    s is Or && !(part is Component || part is Or)
}

/// The cache key of a shape: its component types with their roles, and where disjunctions, and
/// branches of several components, start and end.
pub open spec fn cache_key(infos: Seq<InfoView>, s: Shape) -> Seq<u64>
    decreases s, parts(s).len() + 1,
{
    match s {
        Shape::Component(role, key) => seq![key_entry(role, resolved(infos, key))],
        Shape::Entity => Seq::empty(),
        Shape::Unit => Seq::empty(),
        Shape::Or(v) => seq![KEY_OR_OPEN] + cache_upto(infos, s, v@.len()) + seq![KEY_OR_CLOSE],
        Shape::All(v) => cache_upto(infos, s, v@.len()),
    }
}

/// The cache keys of the first `n` parts.
pub open spec fn cache_upto(infos: Seq<InfoView>, s: Shape, n: nat) -> Seq<u64>
    decreases s, n,
{
    if n == 0 || n > parts(s).len() {
        Seq::empty()
    } else {
        let part = parts(s)[n - 1];
        let key = cache_key(infos, part);
        cache_upto(infos, s, (n - 1) as nat) + if marked_off(s, part) {
            seq![KEY_BRANCH_OPEN] + key + seq![KEY_BRANCH_CLOSE]
        } else {
            key
        }
    }
}

/// The component types whose data a shape hands out, and whether for writing.
pub open spec fn data_access(infos: Seq<InfoView>, s: Shape) -> Seq<(u32, bool)>
    decreases s, parts(s).len() + 1,
{
    match s {
        Shape::Component(role, key) => match role {
            Role::Read => seq![(resolved(infos, key), false)],
            Role::Maybe => seq![(resolved(infos, key), false)],
            Role::Write => seq![(resolved(infos, key), true)],
            Role::MaybeWrite => seq![(resolved(infos, key), true)],
            _ => Seq::empty(),
        },
        Shape::All(v) => access_upto(infos, s, v@.len()),
        _ => Seq::empty(),
    }
}

/// The data that the first `n` parts hand out.
pub open spec fn access_upto(infos: Seq<InfoView>, s: Shape, n: nat) -> Seq<(u32, bool)>
    decreases s, n,
{
    if n == 0 || n > parts(s).len() {
        Seq::empty()
    } else {
        access_upto(infos, s, (n - 1) as nat) + data_access(infos, parts(s)[n - 1])
    }
}

/// Whether a shape looks at rows, and not only at archetypes.
pub open spec fn has_row_filter(s: Shape) -> bool
    decreases s, parts(s).len() + 1,
{
    match s {
        Shape::Component(role, _) => role == Role::Changed || role == Role::Added,
        Shape::Entity => false,
        Shape::Unit => false,
        Shape::Or(v) => row_filter_upto(s, v@.len()),
        Shape::All(v) => row_filter_upto(s, v@.len()),
    }
}

/// Whether one of the first `n` parts looks at rows.
pub open spec fn row_filter_upto(s: Shape, n: nat) -> bool
    decreases s, n,
{
    if n == 0 || n > parts(s).len() {
        false
    } else {
        row_filter_upto(s, (n - 1) as nat) || has_row_filter(parts(s)[n - 1])
    }
}

/// Whether a shape hands out nothing for writing.
pub open spec fn is_read_only(s: Shape) -> bool
    decreases s, parts(s).len() + 1,
{
    match s {
        Shape::Component(role, _) => role != Role::Write && role != Role::MaybeWrite,
        Shape::Entity => true,
        Shape::Unit => true,
        Shape::Or(v) => read_only_upto(s, v@.len()),
        Shape::All(v) => read_only_upto(s, v@.len()),
    }
}

/// Whether the first `n` parts hand out nothing for writing.
pub open spec fn read_only_upto(s: Shape, n: nat) -> bool
    decreases s, n,
{
    if n == 0 || n > parts(s).len() {
        true
    } else {
        read_only_upto(s, (n - 1) as nat) && is_read_only(parts(s)[n - 1])
    }
}

/// Whether an archetype has a component type.
pub open spec fn has_id(a: ArchState, id: u32) -> bool {
    column_of(a, id) is Some
}

/// Whether a shape takes an archetype.
pub open spec fn suits(infos: Seq<InfoView>, a: ArchState, s: Shape) -> bool
    decreases s, parts(s).len() + 1,
{
    match s {
        Shape::Component(role, key) => match role {
            Role::Without => !has_id(a, resolved(infos, key)),
            Role::Maybe => true,
            Role::MaybeWrite => true,
            _ => has_id(a, resolved(infos, key)),
        },
        Shape::Entity => true,
        Shape::Unit => true,
        Shape::Or(v) => any_matches(infos, a, s, v@.len()),
        Shape::All(v) => all_match(infos, a, s, v@.len()),
    }
}

/// Whether one of the first `n` parts takes an archetype.
pub open spec fn any_matches(infos: Seq<InfoView>, a: ArchState, s: Shape, n: nat) -> bool
    decreases s, n,
{
    if n == 0 || n > parts(s).len() {
        false
    } else {
        any_matches(infos, a, s, (n - 1) as nat) || suits(infos, a, parts(s)[n - 1])
    }
}

/// Whether the first `n` parts take an archetype.
pub open spec fn all_match(infos: Seq<InfoView>, a: ArchState, s: Shape, n: nat) -> bool
    decreases s, n,
{
    if n == 0 || n > parts(s).len() {
        true
    } else {
        all_match(infos, a, s, (n - 1) as nat) && suits(infos, a, parts(s)[n - 1])
    }
}

/// Whether a shape takes a row of an archetype that it takes.
pub open spec fn passes(
    infos: Seq<InfoView>,
    a: ArchState,
    row: int,
    last_run: Tick,
    s: Shape,
) -> bool
    decreases s, parts(s).len() + 1,
{
    match s {
        Shape::Component(role, key) => match role {
            Role::Changed => newer(
                a.columns[column_of(a, resolved(infos, key))->0].changed[row],
                last_run,
            ),
            Role::Added => newer(
                a.columns[column_of(a, resolved(infos, key))->0].added[row],
                last_run,
            ),
            _ => true,
        },
        Shape::Entity => true,
        Shape::Unit => true,
        Shape::Or(v) => any_passes(infos, a, row, last_run, s, v@.len()),
        Shape::All(v) => all_pass(infos, a, row, last_run, s, v@.len()),
    }
}

/// Whether one of the first `n` parts takes the archetype and the row.
pub open spec fn any_passes(
    infos: Seq<InfoView>,
    a: ArchState,
    row: int,
    last_run: Tick,
    s: Shape,
    n: nat,
) -> bool
    decreases s, n,
{
    if n == 0 || n > parts(s).len() {
        false
    } else {
        any_passes(infos, a, row, last_run, s, (n - 1) as nat) || (suits(
            infos,
            a,
            parts(s)[n - 1],
        ) && passes(infos, a, row, last_run, parts(s)[n - 1]))
    }
}

/// Whether the first `n` parts take a row.
pub open spec fn all_pass(
    infos: Seq<InfoView>,
    a: ArchState,
    row: int,
    last_run: Tick,
    s: Shape,
    n: nat,
) -> bool
    decreases s, n,
{
    if n == 0 || n > parts(s).len() {
        true
    } else {
        all_pass(infos, a, row, last_run, s, (n - 1) as nat) && passes(
            infos,
            a,
            row,
            last_run,
            parts(s)[n - 1],
        )
    }
}

/// A shape has exactly as many component entries as it counts.
pub proof fn law_ids_are_counted(infos: Seq<InfoView>, s: Shape)
    ensures
        ids(infos, s).len() == count(s),
    decreases s, parts(s).len() + 1,
{
    match s {
        Shape::Or(v) => {
            lemma_ids_counted_upto(infos, s, v@.len());
        },
        Shape::All(v) => {
            lemma_ids_counted_upto(infos, s, v@.len());
        },
        _ => {},
    }
}

proof fn lemma_ids_counted_upto(infos: Seq<InfoView>, s: Shape, n: nat)
    requires
        n <= parts(s).len(),
    ensures
        ids_upto(infos, s, n).len() == counts(s, n),
    decreases s, n,
{
    if n > 0 {
        lemma_ids_counted_upto(infos, s, (n - 1) as nat);
        match s {
            Shape::Or(v) => {
                law_ids_are_counted(infos, v@[n - 1]);
            },
            Shape::All(v) => {
                law_ids_are_counted(infos, v@[n - 1]);
            },
            _ => {},
        }
    }
}

/// A shape that does not look at rows takes every row of an archetype that it takes.
pub proof fn law_unfiltered_shapes_take_every_row(
    infos: Seq<InfoView>,
    a: ArchState,
    row: int,
    last_run: Tick,
    s: Shape,
)
    requires
        !has_row_filter(s),
        suits(infos, a, s),
    ensures
        passes(infos, a, row, last_run, s),
    decreases s, parts(s).len() + 1,
{
    match s {
        Shape::Or(v) => {
            lemma_unfiltered_any(infos, a, row, last_run, s, v@.len());
        },
        Shape::All(v) => {
            lemma_unfiltered_all(infos, a, row, last_run, s, v@.len());
        },
        _ => {},
    }
}

proof fn lemma_unfiltered_any(
    infos: Seq<InfoView>,
    a: ArchState,
    row: int,
    last_run: Tick,
    s: Shape,
    n: nat,
)
    requires
        n <= parts(s).len(),
        s is Or,
        !row_filter_upto(s, n),
        any_matches(infos, a, s, n),
    ensures
        any_passes(infos, a, row, last_run, s, n),
    decreases s, n,
{
    if n > 0 {
        if any_matches(infos, a, s, (n - 1) as nat) {
            lemma_unfiltered_any(infos, a, row, last_run, s, (n - 1) as nat);
        } else {
            match s {
                Shape::Or(v) => {
                    law_unfiltered_shapes_take_every_row(infos, a, row, last_run, v@[n - 1]);
                },
                _ => {},
            }
        }
    }
}

proof fn lemma_unfiltered_all(
    infos: Seq<InfoView>,
    a: ArchState,
    row: int,
    last_run: Tick,
    s: Shape,
    n: nat,
)
    requires
        n <= parts(s).len(),
        s is All,
        !row_filter_upto(s, n),
        all_match(infos, a, s, n),
    ensures
        all_pass(infos, a, row, last_run, s, n),
    decreases s, n,
{
    if n > 0 {
        lemma_unfiltered_all(infos, a, row, last_run, s, (n - 1) as nat);
        match s {
            Shape::All(v) => {
                law_unfiltered_shapes_take_every_row(infos, a, row, last_run, v@[n - 1]);
            },
            _ => {},
        }
    }
}

/// An archetype that a shape takes has every component type that the shape requires.
pub proof fn law_required_components_are_there(
    infos: Seq<InfoView>,
    a: ArchState,
    s: Shape,
    k: int,
)
    requires
        suits(infos, a, s),
        0 <= k < required_ids(infos, s).len(),
    ensures
        has_id(a, required_ids(infos, s)[k]),
    decreases s, parts(s).len() + 1,
{
    match s {
        Shape::All(v) => {
            lemma_required_upto(infos, a, s, v@.len(), k);
        },
        _ => {},
    }
}

proof fn lemma_required_upto(infos: Seq<InfoView>, a: ArchState, s: Shape, n: nat, k: int)
    requires
        n <= parts(s).len(),
        s is All,
        all_match(infos, a, s, n),
        0 <= k < required_upto(infos, s, n).len(),
    ensures
        has_id(a, required_upto(infos, s, n)[k]),
    decreases s, n,
{
    if n > 0 {
        let head = required_upto(infos, s, (n - 1) as nat);
        if k < head.len() {
            lemma_required_upto(infos, a, s, (n - 1) as nat, k);
        } else {
            match s {
                Shape::All(v) => {
                    law_required_components_are_there(infos, a, v@[n - 1], k - head.len());
                },
                _ => {},
            }
        }
    }
}

/// The component types of a cache key, without the marks.
pub open spec fn ids_in_key(key: Seq<u64>) -> Seq<u32>
    decreases key.len(),
{
    if key.len() == 0 {
        Seq::empty()
    } else if key.last() & KEY_MARKER_BIT == 0 {
        ids_in_key(key.drop_last()).push(key.last() as u32)
    } else {
        ids_in_key(key.drop_last())
    }
}

proof fn lemma_ids_in_key_add(a: Seq<u64>, b: Seq<u64>)
    ensures
        ids_in_key(a + b) == ids_in_key(a) + ids_in_key(b),
    decreases b.len(),
{
    if b.len() == 0 {
        assert(a + b =~= a);
        assert(ids_in_key(a) + ids_in_key(b) =~= ids_in_key(a));
    } else {
        lemma_ids_in_key_add(a, b.drop_last());
        assert((a + b).drop_last() =~= a + b.drop_last());
        assert((a + b).last() == b.last());
        assert(ids_in_key(a + b) =~= ids_in_key(a) + ids_in_key(b));
    }
}

proof fn lemma_key_entry(role: Role, id: u32)
    ensures
        key_entry(role, id) & KEY_MARKER_BIT == 0,
        key_entry(role, id) as u32 == id,
{
    assert((id as u64 | 0x1_0000_0000u64) & 0x4_0000_0000u64 == 0) by (bit_vector);
    assert((id as u64 | 0x2_0000_0000u64) & 0x4_0000_0000u64 == 0) by (bit_vector);
    assert((id as u64) & 0x4_0000_0000u64 == 0) by (bit_vector);
    assert((id as u64 | 0x1_0000_0000u64) as u32 == id) by (bit_vector);
    assert((id as u64 | 0x2_0000_0000u64) as u32 == id) by (bit_vector);
}

/// Marks carry no component types.
proof fn lemma_marks_carry_nothing(key: Seq<u64>, open: u64, close: u64)
    requires
        open & KEY_MARKER_BIT != 0,
        close & KEY_MARKER_BIT != 0,
    ensures
        ids_in_key(seq![open] + key + seq![close]) == ids_in_key(key),
{
    let a = seq![open];
    let b = seq![close];
    assert(a.drop_last() =~= Seq::<u64>::empty());
    assert(b.drop_last() =~= Seq::<u64>::empty());
    assert(ids_in_key(Seq::<u64>::empty()) =~= Seq::<u32>::empty());
    assert(a.last() == open && b.last() == close);
    assert(ids_in_key(a) == ids_in_key(a.drop_last()));
    assert(ids_in_key(b) == ids_in_key(b.drop_last()));
    lemma_ids_in_key_add(a, key);
    lemma_ids_in_key_add(a + key, b);
    assert(ids_in_key(a + key + b) =~= ids_in_key(key));
}

/// The component types of a shape can be read off its cache key.
pub proof fn law_key_tells_the_components(infos: Seq<InfoView>, s: Shape)
    ensures
        ids_in_key(cache_key(infos, s)) == ids(infos, s),
    decreases s, parts(s).len() + 1,
{
    match s {
        Shape::Component(role, key) => {
            let id = resolved(infos, key);
            lemma_key_entry(role, id);
            let k = cache_key(infos, s);
            assert(k.len() == 1);
            assert(k.last() == key_entry(role, id));
            assert(k.drop_last() =~= Seq::<u64>::empty());
            assert(ids_in_key(Seq::<u64>::empty()) =~= Seq::<u32>::empty());
            assert(ids_in_key(k) == ids_in_key(k.drop_last()).push(k.last() as u32));
            assert(ids_in_key(k) =~= seq![id]);
        },
        Shape::Or(v) => {
            lemma_key_upto(infos, s, v@.len());
            let m = cache_upto(infos, s, v@.len());
            assert(0x4_0000_0000u64 & 0x4_0000_0000u64 != 0) by (bit_vector);
            assert(0x5_0000_0000u64 & 0x4_0000_0000u64 != 0) by (bit_vector);
            lemma_marks_carry_nothing(m, KEY_OR_OPEN, KEY_OR_CLOSE);
        },
        Shape::All(v) => {
            lemma_key_upto(infos, s, v@.len());
        },
        _ => {},
    }
}

proof fn lemma_key_upto(infos: Seq<InfoView>, s: Shape, n: nat)
    requires
        n <= parts(s).len(),
    ensures
        ids_in_key(cache_upto(infos, s, n)) == ids_upto(infos, s, n),
    decreases s, n,
{
    if n > 0 {
        lemma_key_upto(infos, s, (n - 1) as nat);
        let key = cache_key(infos, parts(s)[n - 1]);
        let marked = seq![KEY_BRANCH_OPEN] + key + seq![KEY_BRANCH_CLOSE];
        assert(0x6_0000_0000u64 & 0x4_0000_0000u64 != 0) by (bit_vector);
        assert(0x7_0000_0000u64 & 0x4_0000_0000u64 != 0) by (bit_vector);
        lemma_marks_carry_nothing(key, KEY_BRANCH_OPEN, KEY_BRANCH_CLOSE);
        lemma_ids_in_key_add(cache_upto(infos, s, (n - 1) as nat), key);
        lemma_ids_in_key_add(cache_upto(infos, s, (n - 1) as nat), marked);
        match s {
            Shape::Or(v) => {
                law_key_tells_the_components(infos, v@[n - 1]);
            },
            Shape::All(v) => {
                law_key_tells_the_components(infos, v@[n - 1]);
            },
            _ => {},
        }
    }
}

proof fn lemma_ids_prefix(infos: Seq<InfoView>, s: Shape, m: nat, n: nat)
    requires
        m <= n <= parts(s).len(),
    ensures
        ids_upto(infos, s, m).len() <= ids_upto(infos, s, n).len(),
        ids_upto(infos, s, n).subrange(0, ids_upto(infos, s, m).len() as int) == ids_upto(
            infos,
            s,
            m,
        ),
        counts(s, m) <= counts(s, n),
    decreases n - m,
{
    if m == n {
        assert(ids_upto(infos, s, n).subrange(0, ids_upto(infos, s, n).len() as int) =~= ids_upto(
            infos,
            s,
            n,
        ));
    } else {
        lemma_ids_prefix(infos, s, m, (n - 1) as nat);
        let a = ids_upto(infos, s, m);
        let b = ids_upto(infos, s, (n - 1) as nat);
        let c = ids_upto(infos, s, n);
        assert(c.subrange(0, a.len() as int) =~= a) by {
            assert forall|i: int| 0 <= i < a.len() implies c[i] == a[i] by {
                assert(b.subrange(0, a.len() as int)[i] == a[i]);
            }
        }
    }
}

/// The entries of part `n` lie behind those of the parts before it.
proof fn lemma_segment(infos: Seq<InfoView>, s: Shape, all: Seq<u32>, at: int, n: nat)
    requires
        n < parts(s).len(),
        0 <= at,
        at + counts(s, parts(s).len()) <= all.len(),
        all.subrange(at, at + counts(s, parts(s).len())) == ids_upto(infos, s, parts(s).len()),
    ensures
        at + counts(s, n) + count(parts(s)[n as int]) <= all.len(),
        all.subrange(
            (at + counts(s, n)) as int,
            (at + counts(s, n) + count(parts(s)[n as int])) as int,
        ) == ids(infos, parts(s)[n as int]),
{
    let len = parts(s).len();
    let p = parts(s)[n as int];
    lemma_ids_counted_upto(infos, s, n);
    lemma_ids_counted_upto(infos, s, n + 1);
    lemma_ids_counted_upto(infos, s, len);
    law_ids_are_counted(infos, p);
    lemma_ids_prefix(infos, s, n + 1, len);
    let whole = ids_upto(infos, s, len);
    let up = ids_upto(infos, s, n + 1);
    let head = ids_upto(infos, s, n);
    assert(up == head + ids(infos, p));
    let seg = all.subrange(
        (at + counts(s, n)) as int,
        (at + counts(s, n) + count(p)) as int,
    );
    assert(seg =~= ids(infos, p)) by {
        assert forall|i: int| 0 <= i < count(p) implies seg[i] == ids(infos, p)[i] by {
            assert(whole.subrange(0, up.len() as int)[counts(s, n) + i] == up[counts(s, n) + i]);
            assert(whole[counts(s, n) + i] == all.subrange(at, at + counts(s, len))[counts(s, n)
                + i]);
        }
    }
}

proof fn lemma_counts(s: Shape, n: nat)
    requires
        n <= parts(s).len(),
    ensures
        counts(s, n) <= counts(s, parts(s).len()),
    decreases parts(s).len() - n,
{
    if n < parts(s).len() {
        lemma_counts(s, n + 1);
    }
}

impl Shape {
    /// Number of component entries.
    pub fn component_count(&self) -> (n: usize)
        requires
            count(*self) <= usize::MAX,
        ensures
            n == count(*self),
        decreases *self, parts(*self).len() + 1,
    {
        match self {
            Shape::Component(..) => 1,
            Shape::Entity => 0,
            Shape::Unit => 0,
            Shape::Or(v) => Shape::count_parts(self, v),
            Shape::All(v) => Shape::count_parts(self, v),
        }
    }

    fn count_parts(shape: &Shape, v: &Vec<Shape>) -> (n: usize)
        requires
            parts(*shape) == v@,
            *shape is Or || *shape is All,
            counts(*shape, v@.len()) <= usize::MAX,
        ensures
            n == counts(*shape, v@.len()),
        decreases *shape, v@.len(),
    {
        let mut n: usize = 0;
        let mut i: usize = 0;
        while i < v.len()
            invariant
                i <= v@.len(),
                parts(*shape) == v@,
                *shape is Or || *shape is All,
                counts(*shape, v@.len()) <= usize::MAX,
                n == counts(*shape, i as nat),
            decreases v.len() - i,
        {
            proof {
                lemma_counts(*shape, (i + 1) as nat);
                lemma_part_smaller(*shape, i as int);
            }
            n = n + v[i].component_count();
            i = i + 1;
        }
        n
    }

    /// Whether the shape looks at rows, and not only at archetypes.
    pub fn has_row_filter(&self) -> (b: bool)
        ensures
            b == has_row_filter(*self),
        decreases *self,
    {
        match self {
            Shape::Component(role, _) => *role == Role::Changed || *role == Role::Added,
            Shape::Entity => false,
            Shape::Unit => false,
            Shape::Or(v) => {
                let mut i: usize = 0;
                while i < v.len()
                    invariant
                        i <= v@.len(),
                        *self == Shape::Or(*v),
                        !row_filter_upto(*self, i as nat),
                    decreases v.len() - i,
                {
                    proof {
                        lemma_part_smaller(*self, i as int);
                    }
                    if v[i].has_row_filter() {
                        proof {
                            lemma_row_filter(*self, (i + 1) as nat);
                        }
                        return true;
                    }
                    i = i + 1;
                }
                false
            },
            Shape::All(v) => {
                let mut i: usize = 0;
                while i < v.len()
                    invariant
                        i <= v@.len(),
                        *self == Shape::All(*v),
                        !row_filter_upto(*self, i as nat),
                    decreases v.len() - i,
                {
                    proof {
                        lemma_part_smaller(*self, i as int);
                    }
                    if v[i].has_row_filter() {
                        proof {
                            lemma_row_filter(*self, (i + 1) as nat);
                        }
                        return true;
                    }
                    i = i + 1;
                }
                false
            },
        }
    }
}

proof fn lemma_row_filter(s: Shape, n: nat)
    requires
        n <= parts(s).len(),
        row_filter_upto(s, n),
    ensures
        row_filter_upto(s, parts(s).len()),
    decreases parts(s).len() - n,
{
    if n < parts(s).len() {
        lemma_row_filter(s, n + 1);
    }
}

/// A part is smaller than the whole.
pub proof fn lemma_part_smaller(s: Shape, i: int)
    requires
        0 <= i < parts(s).len(),
    ensures
        decreases_to!(s => parts(s)[i]),
{
    match s {
        Shape::Or(v) => {
            assert(decreases_to!(s => v@[i]));
        },
        Shape::All(v) => {
            assert(decreases_to!(s => v@[i]));
        },
        _ => {},
    }
}

/// Number of the type with the given key; an invalid one where it is not registered.
fn id_or_invalid(registry: &ComponentRegistry, key: u64) -> (id: u32)
    requires
        registry.wf(),
    ensures
        id == resolved(registry@.infos, key),
{
    match registry.get_id_by_type(key) {
        Some(id) => id.0,
        None => INVALID_ID,
    }
}

proof fn lemma_writes(s: Shape, n: nat)
    requires
        n <= parts(s).len(),
        !read_only_upto(s, n),
    ensures
        !read_only_upto(s, parts(s).len()),
    decreases parts(s).len() - n,
{
    if n < parts(s).len() {
        lemma_writes(s, n + 1);
    }
}

impl Shape {

    /// Appends the numbers of the component types.
    pub fn fill_ids(&self, registry: &ComponentRegistry, out: &mut IdList)
        requires
            registry.wf(),
        ensures
            id_items(*final(out)) == id_items(*old(out)) + ids(registry@.infos, *self),
        decreases *self, parts(*self).len() + 1,
    {
        let ghost before = id_items(*out);
        match self {
            Shape::Component(role, key) => {
                out.push(id_or_invalid(registry, *key));
                assert(id_items(*out) =~= before + ids(registry@.infos, *self));
            },
            Shape::All(v) => {
                Shape::fill_ids_of_parts(self, v, registry, out);
            },
            Shape::Or(v) => {
                Shape::fill_ids_of_parts(self, v, registry, out);
            },
            _ => {
                assert(id_items(*out) =~= before + ids(registry@.infos, *self));
            },
        }
    }

    fn fill_ids_of_parts(
        shape: &Shape,
        v: &Vec<Shape>,
        registry: &ComponentRegistry,
        out: &mut IdList,
    )
        requires
            registry.wf(),
            parts(*shape) == v@,
            *shape is Or || *shape is All,
        ensures
            id_items(*final(out)) == id_items(*old(out)) + ids_upto(
                registry@.infos,
                *shape,
                v@.len(),
            ),
        decreases *shape, v@.len(),
    {
        let ghost before = id_items(*out);
        let mut i: usize = 0;
        assert(before + Seq::<u32>::empty() =~= before);
        while i < v.len()
            invariant
                i <= v@.len(),
                registry.wf(),
                parts(*shape) == v@,
                *shape is Or || *shape is All,
                id_items(*out) == before + ids_upto(registry@.infos, *shape, i as nat),
            decreases v.len() - i,
        {
            proof {
                lemma_part_smaller(*shape, i as int);
            }
            let ghost head = ids_upto(registry@.infos, *shape, i as nat);
            v[i].fill_ids(registry, out);
            i = i + 1;
            assert(id_items(*out) =~= before + ids_upto(registry@.infos, *shape, i as nat));
        }
    }

    /// Appends the numbers of the component types that an entity must have.
    pub fn fill_required_ids(&self, registry: &ComponentRegistry, out: &mut IdList)
        requires
            registry.wf(),
        ensures
            id_items(*final(out)) == id_items(*old(out)) + required_ids(registry@.infos, *self),
        decreases *self, parts(*self).len() + 1,
    {
        let ghost before = id_items(*out);
        match self {
            Shape::Component(role, key) => {
                match role {
                    Role::Without | Role::Maybe | Role::MaybeWrite => {},
                    _ => {
                        out.push(id_or_invalid(registry, *key));
                    },
                }
                assert(id_items(*out) =~= before + required_ids(registry@.infos, *self));
            },
            Shape::All(v) => {
                Shape::fill_required_ids_of_parts(self, v, registry, out);
            },

            _ => {
                assert(id_items(*out) =~= before + required_ids(registry@.infos, *self));
            },
        }
    }

    fn fill_required_ids_of_parts(
        shape: &Shape,
        v: &Vec<Shape>,
        registry: &ComponentRegistry,
        out: &mut IdList,
    )
        requires
            registry.wf(),
            parts(*shape) == v@,
            *shape is Or || *shape is All,
        ensures
            id_items(*final(out)) == id_items(*old(out)) + required_upto(
                registry@.infos,
                *shape,
                v@.len(),
            ),
        decreases *shape, v@.len(),
    {
        let ghost before = id_items(*out);
        let mut i: usize = 0;
        assert(before + Seq::<u32>::empty() =~= before);
        while i < v.len()
            invariant
                i <= v@.len(),
                registry.wf(),
                parts(*shape) == v@,
                *shape is Or || *shape is All,
                id_items(*out) == before + required_upto(registry@.infos, *shape, i as nat),
            decreases v.len() - i,
        {
            proof {
                lemma_part_smaller(*shape, i as int);
            }
            let ghost head = required_upto(registry@.infos, *shape, i as nat);
            v[i].fill_required_ids(registry, out);
            i = i + 1;
            assert(id_items(*out) =~= before + required_upto(registry@.infos, *shape, i as nat));
        }
    }

    /// Appends the numbers of the component types that are not excluded.
    pub fn fill_positive_ids(&self, registry: &ComponentRegistry, out: &mut IdList)
        requires
            registry.wf(),
        ensures
            id_items(*final(out)) == id_items(*old(out)) + positive_ids(registry@.infos, *self),
        decreases *self, parts(*self).len() + 1,
    {
        let ghost before = id_items(*out);
        match self {
            Shape::Component(role, key) => {
                if *role != Role::Without {
                    out.push(id_or_invalid(registry, *key));
                }
                assert(id_items(*out) =~= before + positive_ids(registry@.infos, *self));
            },
            Shape::All(v) => {
                Shape::fill_positive_ids_of_parts(self, v, registry, out);
            },
            Shape::Or(v) => {
                Shape::fill_ids_of_parts(self, v, registry, out);
            },
            _ => {
                assert(id_items(*out) =~= before + positive_ids(registry@.infos, *self));
            },
        }
    }

    fn fill_positive_ids_of_parts(
        shape: &Shape,
        v: &Vec<Shape>,
        registry: &ComponentRegistry,
        out: &mut IdList,
    )
        requires
            registry.wf(),
            parts(*shape) == v@,
            *shape is Or || *shape is All,
        ensures
            id_items(*final(out)) == id_items(*old(out)) + positive_upto(
                registry@.infos,
                *shape,
                v@.len(),
            ),
        decreases *shape, v@.len(),
    {
        let ghost before = id_items(*out);
        let mut i: usize = 0;
        assert(before + Seq::<u32>::empty() =~= before);
        while i < v.len()
            invariant
                i <= v@.len(),
                registry.wf(),
                parts(*shape) == v@,
                *shape is Or || *shape is All,
                id_items(*out) == before + positive_upto(registry@.infos, *shape, i as nat),
            decreases v.len() - i,
        {
            proof {
                lemma_part_smaller(*shape, i as int);
            }
            let ghost head = positive_upto(registry@.infos, *shape, i as nat);
            v[i].fill_positive_ids(registry, out);
            i = i + 1;
            assert(id_items(*out) =~= before + positive_upto(registry@.infos, *shape, i as nat));
        }
    }

    /// Appends the cache key.
    pub fn fill_cache_key(&self, registry: &ComponentRegistry, out: &mut KeyList)
        requires
            registry.wf(),
        ensures
            key_items(*final(out)) == key_items(*old(out)) + cache_key(registry@.infos, *self),
        decreases *self, parts(*self).len() + 1,
    {
        let ghost before = key_items(*out);
        match self {
            Shape::Component(role, key) => {
                let id: u32 = id_or_invalid(registry, *key);
                let entry: u64 = match role {
                    Role::Without => id as u64 | KEY_ROLE_WITHOUT,
                    Role::Maybe => id as u64 | KEY_ROLE_OPTIONAL,
                    Role::MaybeWrite => id as u64 | KEY_ROLE_OPTIONAL,
                    _ => id as u64,
                };
                out.push(entry);
                assert(key_items(*out) =~= before + cache_key(registry@.infos, *self));
            },
            Shape::All(v) => {
                Shape::fill_cache_key_of_parts(self, v, registry, out);
            },
            Shape::Or(v) => {
                out.push(KEY_OR_OPEN);
                Shape::fill_cache_key_of_parts(self, v, registry, out);
                out.push(KEY_OR_CLOSE);
                assert(key_items(*out) =~= before + cache_key(registry@.infos, *self));
            },
            _ => {
                assert(key_items(*out) =~= before + cache_key(registry@.infos, *self));
            },
        }
    }

    fn fill_cache_key_of_parts(
        shape: &Shape,
        v: &Vec<Shape>,
        registry: &ComponentRegistry,
        out: &mut KeyList,
    )
        requires
            registry.wf(),
            parts(*shape) == v@,
            *shape is Or || *shape is All,
        ensures
            key_items(*final(out)) == key_items(*old(out)) + cache_upto(
                registry@.infos,
                *shape,
                v@.len(),
            ),
        decreases *shape, v@.len(),
    {
        let ghost before = key_items(*out);
        let mut i: usize = 0;
        assert(before + Seq::<u64>::empty() =~= before);
        while i < v.len()
            invariant
                i <= v@.len(),
                registry.wf(),
                parts(*shape) == v@,
                *shape is Or || *shape is All,
                key_items(*out) == before + cache_upto(registry@.infos, *shape, i as nat),
            decreases v.len() - i,
        {
            proof {
                lemma_part_smaller(*shape, i as int);
            }
            let marked: bool = match shape {
                Shape::Or(_) => match &v[i] {
                    Shape::Component(..) => false,
                    Shape::Or(_) => false,
                    _ => true,
                },
                _ => false,
            };
            assert(marked == marked_off(*shape, v@[i as int]));
            if marked {
                out.push(KEY_BRANCH_OPEN);
            }
            v[i].fill_cache_key(registry, out);
            if marked {
                out.push(KEY_BRANCH_CLOSE);
            }
            i = i + 1;
            assert(key_items(*out) =~= before + cache_upto(registry@.infos, *shape, i as nat));
        }
    }

    /// Appends the component types whose data is handed out, and whether for writing.
    pub fn fill_data_access(&self, registry: &ComponentRegistry, out: &mut Vec<(u32, bool)>)
        requires
            registry.wf(),
        ensures
            final(out)@ == old(out)@ + data_access(registry@.infos, *self),
        decreases *self, parts(*self).len() + 1,
    {
        let ghost before = out@;
        match self {
            Shape::Component(role, key) => {
                let id: u32 = id_or_invalid(registry, *key);
                match role {
                    Role::Read | Role::Maybe => {
                        out.push((id, false));
                    },
                    Role::Write | Role::MaybeWrite => {
                        out.push((id, true));
                    },
                    _ => {},
                }
                assert(out@ =~= before + data_access(registry@.infos, *self));
            },
            Shape::All(v) => {
                Shape::fill_data_access_of_parts(self, v, registry, out);
            },

            _ => {
                assert(out@ =~= before + data_access(registry@.infos, *self));
            },
        }
    }

    fn fill_data_access_of_parts(
        shape: &Shape,
        v: &Vec<Shape>,
        registry: &ComponentRegistry,
        out: &mut Vec<(u32, bool)>,
    )
        requires
            registry.wf(),
            parts(*shape) == v@,
            *shape is Or || *shape is All,
        ensures
            final(out)@ == old(out)@ + access_upto(
                registry@.infos,
                *shape,
                v@.len(),
            ),
        decreases *shape, v@.len(),
    {
        let ghost before = out@;
        let mut i: usize = 0;
        assert(before + Seq::<(u32, bool)>::empty() =~= before);
        while i < v.len()
            invariant
                i <= v@.len(),
                registry.wf(),
                parts(*shape) == v@,
                *shape is Or || *shape is All,
                out@ == before + access_upto(registry@.infos, *shape, i as nat),
            decreases v.len() - i,
        {
            proof {
                lemma_part_smaller(*shape, i as int);
            }
            let ghost head = access_upto(registry@.infos, *shape, i as nat);
            v[i].fill_data_access(registry, out);
            i = i + 1;
            assert(out@ =~= before + access_upto(registry@.infos, *shape, i as nat));
        }
    }

    /// Whether the shape hands out nothing for writing.
    pub fn is_read_only(&self) -> (b: bool)
        ensures
            b == is_read_only(*self),
        decreases *self, parts(*self).len() + 1,
    {
        match self {
            Shape::Component(role, _) => *role != Role::Write && *role != Role::MaybeWrite,
            Shape::Entity => true,
            Shape::Unit => true,
            Shape::Or(v) => Shape::parts_read_only(self, v),
            Shape::All(v) => Shape::parts_read_only(self, v),
        }
    }

    fn parts_read_only(shape: &Shape, v: &Vec<Shape>) -> (b: bool)
        requires
            parts(*shape) == v@,
            *shape is Or || *shape is All,
        ensures
            b == read_only_upto(*shape, v@.len()),
        decreases *shape, v@.len(),
    {
        let mut i: usize = 0;
        while i < v.len()
            invariant
                i <= v@.len(),
                parts(*shape) == v@,
                *shape is Or || *shape is All,
                read_only_upto(*shape, i as nat),
            decreases v.len() - i,
        {
            proof {
                lemma_part_smaller(*shape, i as int);
            }
            if !v[i].is_read_only() {
                proof {
                    lemma_writes(*shape, (i + 1) as nat);
                }
                return false;
            }
            i = i + 1;
        }
        true
    }
}

/// The component types of a cache key, without the marks.
pub fn ids_from_key(key: &KeyList) -> (out: IdList)
    ensures
        id_items(out) == ids_in_key(key_items(*key)),
{
    let mut out: IdList = IdList::new();
    let items: &[u64] = key.as_slice();
    let mut i: usize = 0;
    assert(ids_in_key(items@.subrange(0, 0)) =~= Seq::<u32>::empty());
    while i < items.len()
        invariant
            i <= items@.len(),
            items@ == key_items(*key),
            id_items(out) == ids_in_key(items@.subrange(0, i as int)),
        decreases items.len() - i,
    {
        let ghost seen = items@.subrange(0, i as int + 1);
        assert(seen.drop_last() =~= items@.subrange(0, i as int));
        assert(seen.last() == items@[i as int]);
        if items[i] & KEY_MARKER_BIT == 0 {
            #[verifier::truncate]
            let id: u32 = items[i] as u32;
            out.push(id);
        }
        i = i + 1;
    }
    assert(items@.subrange(0, items@.len() as int) =~= items@);
    out
}

/// Whether the entries of `s` stand in `all` from `at` on.
spec fn placed(infos: Seq<InfoView>, s: Shape, all: Seq<u32>, at: int) -> bool {
    &&& 0 <= at
    &&& at + count(s) <= all.len()
    &&& all.subrange(at, at + count(s)) == ids(infos, s)
}

proof fn lemma_placed(infos: Seq<InfoView>, s: Shape, all: Seq<u32>, at: int, n: nat)
    requires
        n < parts(s).len(),
        placed(infos, s, all, at),
    ensures
        placed(infos, parts(s)[n as int], all, (at + counts(s, n)) as int),
        counts(s, n + 1) == counts(s, n) + count(parts(s)[n as int]),
{
    lemma_segment(infos, s, all, at, n);
}

proof fn lemma_any_matches(infos: Seq<InfoView>, a: ArchState, s: Shape, n: nat)
    requires
        n <= parts(s).len(),
        any_matches(infos, a, s, n),
    ensures
        any_matches(infos, a, s, parts(s).len()),
    decreases parts(s).len() - n,
{
    if n < parts(s).len() {
        lemma_any_matches(infos, a, s, n + 1);
    }
}

proof fn lemma_not_all_match(infos: Seq<InfoView>, a: ArchState, s: Shape, n: nat)
    requires
        n <= parts(s).len(),
        !all_match(infos, a, s, n),
    ensures
        !all_match(infos, a, s, parts(s).len()),
    decreases parts(s).len() - n,
{
    if n < parts(s).len() {
        lemma_not_all_match(infos, a, s, n + 1);
    }
}

proof fn lemma_part_matches(infos: Seq<InfoView>, a: ArchState, s: Shape, n: nat, i: int)
    requires
        0 <= i < n <= parts(s).len(),
        all_match(infos, a, s, n),
    ensures
        suits(infos, a, parts(s)[i]),
    decreases n,
{
    if i < n - 1 {
        lemma_part_matches(infos, a, s, (n - 1) as nat, i);
    }
}

proof fn lemma_any_passes(
    infos: Seq<InfoView>,
    a: ArchState,
    row: int,
    last_run: Tick,
    s: Shape,
    n: nat,
)
    requires
        n <= parts(s).len(),
        any_passes(infos, a, row, last_run, s, n),
    ensures
        any_passes(infos, a, row, last_run, s, parts(s).len()),
    decreases parts(s).len() - n,
{
    if n < parts(s).len() {
        lemma_any_passes(infos, a, row, last_run, s, n + 1);
    }
}

proof fn lemma_not_all_pass(
    infos: Seq<InfoView>,
    a: ArchState,
    row: int,
    last_run: Tick,
    s: Shape,
    n: nat,
)
    requires
        n <= parts(s).len(),
        !all_pass(infos, a, row, last_run, s, n),
    ensures
        !all_pass(infos, a, row, last_run, s, parts(s).len()),
    decreases parts(s).len() - n,
{
    if n < parts(s).len() {
        lemma_not_all_pass(infos, a, row, last_run, s, n + 1);
    }
}

impl Shape {
    /// Whether the entries of the shape stand in `all` from `at` on.
    pub closed spec fn stands_at(self, infos: Seq<InfoView>, all: Seq<u32>, at: int) -> bool {
        placed(infos, self, all, at)
    }

    /// The entries of a shape are its own from the start.
    pub proof fn lemma_stands_at_start(self, infos: Seq<InfoView>)
        ensures
            self.stands_at(infos, ids(infos, self), 0),
    {
        law_ids_are_counted(infos, self);
        assert(ids(infos, self).subrange(0, count(self) as int) =~= ids(infos, self));
    }

    /// Whether the shape takes an archetype, by the numbers from `at` on.
    pub(crate) fn matches_at(
        &self,
        Ghost(infos): Ghost<Seq<InfoView>>,
        arch: &Archetype,
        all: &[u32],
        at: usize,
    ) -> (b: bool)
        requires
            arch.wf(),
            self.stands_at(infos, all@, at as int),
        ensures
            b == suits(infos, arch@, *self),
        decreases *self,
    {
        proof {
            law_ids_are_counted(infos, *self);
        }
        let _n: usize = all.len();
        match self {
            Shape::Component(role, _) => {
                assert(all@.subrange(at as int, at as int + 1)[0] == all@[at as int]);
                let id: ComponentId = ComponentId(all[at]);
                match role {
                    Role::Without => !arch.has_component(id),
                    Role::Maybe => true,
                    Role::MaybeWrite => true,
                    _ => arch.has_component(id),
                }
            },
            Shape::Entity => true,
            Shape::Unit => true,
            Shape::Or(v) => {
                let mut i: usize = 0;
                let mut next: usize = at;
                while i < v.len()
                    invariant
                        i <= v@.len(),
                        arch.wf(),
                        *self == Shape::Or(*v),
                        _n == all@.len(),
                        placed(infos, *self, all@, at as int),
                        next == at + counts(*self, i as nat),
                        !any_matches(infos, arch@, *self, i as nat),
                    decreases v.len() - i,
                {
                    proof {
                        lemma_part_smaller(*self, i as int);
                        lemma_placed(infos, *self, all@, at as int, i as nat);
                    }
                    if v[i].matches_at(Ghost(infos), arch, all, next) {
                        proof {
                            lemma_any_matches(infos, arch@, *self, (i + 1) as nat);
                        }
                        return true;
                    }
                    next = next + v[i].component_count();
                    i = i + 1;
                }
                false
            },
            Shape::All(v) => {
                let mut i: usize = 0;
                let mut next: usize = at;
                while i < v.len()
                    invariant
                        i <= v@.len(),
                        arch.wf(),
                        *self == Shape::All(*v),
                        _n == all@.len(),
                        placed(infos, *self, all@, at as int),
                        next == at + counts(*self, i as nat),
                        all_match(infos, arch@, *self, i as nat),
                    decreases v.len() - i,
                {
                    proof {
                        lemma_part_smaller(*self, i as int);
                        lemma_placed(infos, *self, all@, at as int, i as nat);
                    }
                    if !v[i].matches_at(Ghost(infos), arch, all, next) {
                        proof {
                            lemma_not_all_match(infos, arch@, *self, (i + 1) as nat);
                        }
                        return false;
                    }
                    next = next + v[i].component_count();
                    i = i + 1;
                }
                true
            },
        }
    }

    /// Whether the shape takes a row, by the numbers from `at` on.
    pub(crate) fn passes_at(
        &self,
        Ghost(infos): Ghost<Seq<InfoView>>,
        arch: &Archetype,
        row: usize,
        last_run: Tick,
        all: &[u32],
        at: usize,
    ) -> (b: bool)
        requires
            arch.wf(),
            filled(arch@),
            row < arch@.entities.len(),
            self.stands_at(infos, all@, at as int),
            suits(infos, arch@, *self),
        ensures
            b == passes(infos, arch@, row as int, last_run, *self),
        decreases *self,
    {
        proof {
            arch.lemma_wf();
            law_ids_are_counted(infos, *self);
        }
        let _n: usize = all.len();
        match self {
            Shape::Component(role, key) => {
                assert(all@.subrange(at as int, at as int + 1)[0] == all@[at as int]);
                let id: ComponentId = ComponentId(all[at]);
                match role {
                    Role::Changed => match arch.column_index(id) {
                        Some(c) => arch.column(c).get_tick(row).is_newer_than(last_run),
                        None => true,
                    },
                    Role::Added => match arch.column_index(id) {
                        Some(c) => arch.column(c).get_added_tick(row).is_newer_than(last_run),
                        None => true,
                    },
                    _ => true,
                }
            },
            Shape::Entity => true,
            Shape::Unit => true,
            Shape::Or(v) => {
                let mut i: usize = 0;
                let mut next: usize = at;
                while i < v.len()
                    invariant
                        i <= v@.len(),
                        arch.wf(),
                        filled(arch@),
                        row < arch@.entities.len(),
                        *self == Shape::Or(*v),
                        _n == all@.len(),
                        placed(infos, *self, all@, at as int),
                        next == at + counts(*self, i as nat),
                        !any_passes(infos, arch@, row as int, last_run, *self, i as nat),
                    decreases v.len() - i,
                {
                    proof {
                        lemma_part_smaller(*self, i as int);
                        lemma_placed(infos, *self, all@, at as int, i as nat);
                    }
                    if v[i].matches_at(Ghost(infos), arch, all, next) && v[i].passes_at(
                        Ghost(infos),
                        arch,
                        row,
                        last_run,
                        all,
                        next,
                    ) {
                        proof {
                            lemma_any_passes(
                                infos,
                                arch@,
                                row as int,
                                last_run,
                                *self,
                                (i + 1) as nat,
                            );
                        }
                        return true;
                    }
                    next = next + v[i].component_count();
                    i = i + 1;
                }
                false
            },
            Shape::All(v) => {
                let mut i: usize = 0;
                let mut next: usize = at;
                while i < v.len()
                    invariant
                        i <= v@.len(),
                        arch.wf(),
                        filled(arch@),
                        row < arch@.entities.len(),
                        *self == Shape::All(*v),
                        suits(infos, arch@, *self),
                        _n == all@.len(),
                        placed(infos, *self, all@, at as int),
                        next == at + counts(*self, i as nat),
                        all_pass(infos, arch@, row as int, last_run, *self, i as nat),
                    decreases v.len() - i,
                {
                    proof {
                        lemma_part_smaller(*self, i as int);
                        lemma_placed(infos, *self, all@, at as int, i as nat);
                        lemma_part_matches(infos, arch@, *self, v@.len(), i as int);
                    }
                    if !v[i].passes_at(Ghost(infos), arch, row, last_run, all, next) {
                        proof {
                            lemma_not_all_pass(
                                infos,
                                arch@,
                                row as int,
                                last_run,
                                *self,
                                (i + 1) as nat,
                            );
                        }
                        return false;
                    }
                    next = next + v[i].component_count();
                    i = i + 1;
                }
                true
            },
        }
    }

    /// Whether the shape takes an archetype.
    pub fn matches_archetype(&self, registry: &ComponentRegistry, arch: &Archetype) -> (b: bool)
        requires
            registry.wf(),
            arch.wf(),
        ensures
            b == suits(registry@.infos, arch@, *self),
    {
        let mut all: IdList = IdList::new();
        self.fill_ids(registry, &mut all);
        assert(id_items(all) =~= ids(registry@.infos, *self));
        proof {
            self.lemma_stands_at_start(registry@.infos);
        }
        self.matches_at(Ghost(registry@.infos), arch, all.as_slice(), 0)
    }
}

/// Types that a shape reads and types that it writes, as systems declare them.
pub open spec fn access_keys(s: Shape) -> (Seq<u64>, Seq<u64>)
    decreases s, parts(s).len() + 1,
{
    match s {
        Shape::Component(role, key) => match role {
            Role::Without => (Seq::empty(), Seq::empty()),
            Role::Write => (Seq::empty(), seq![key]),
            Role::MaybeWrite => (Seq::empty(), seq![key]),
            _ => (seq![key], Seq::empty()),
        },
        Shape::Entity => (Seq::empty(), Seq::empty()),
        Shape::Unit => (Seq::empty(), Seq::empty()),
        Shape::Or(v) => access_keys_upto(s, v@.len()),
        Shape::All(v) => access_keys_upto(s, v@.len()),
    }
}

/// Types that the first `n` parts read and write.
pub open spec fn access_keys_upto(s: Shape, n: nat) -> (Seq<u64>, Seq<u64>)
    decreases s, n,
{
    if n == 0 || n > parts(s).len() {
        (Seq::empty(), Seq::empty())
    } else {
        let (reads, writes) = access_keys_upto(s, (n - 1) as nat);
        let (more_reads, more_writes) = access_keys(parts(s)[n - 1]);
        (
            with_keys(reads, more_reads, more_reads.len()),
            with_keys(writes, more_writes, more_writes.len()),
        )
    }
}

/// Whether a descriptor declares access to component types alone: these reads and these writes.
pub open spec fn declares(d: AccessDescriptor, keys: (Seq<u64>, Seq<u64>)) -> bool {
    &&& d.reads@ == keys.0
    &&& d.writes@ == keys.1
    &&& d.reads_event@.len() == 0
    &&& d.writes_event@.len() == 0
    &&& d.event_reserves@.len() == 0
    &&& !d.uses_par_for_each
    &&& !d.needs_whole_world
    &&& !d.stateful
    &&& !d.writes_resource
    &&& !d.uses_commands
}

impl Shape {
    /// The access that a system with this query declares.
    pub fn system_access(&self) -> (d: AccessDescriptor)
        ensures
            declares(d, access_keys(*self)),
        decreases *self, parts(*self).len() + 1,
    {
        let d = AccessDescriptor::new();
        assert(d.reads@ =~= Seq::<u64>::empty());
        assert(d.writes@ =~= Seq::<u64>::empty());
        match self {
            Shape::Component(role, key) => match role {
                Role::Without => d,
                Role::Write | Role::MaybeWrite => d.write(*key),
                _ => d.read(*key),
            },
            Shape::Entity => d,
            Shape::Unit => d,
            Shape::Or(v) => Shape::access_of_parts(self, v, d),
            Shape::All(v) => Shape::access_of_parts(self, v, d),
        }
    }

    fn access_of_parts(shape: &Shape, v: &Vec<Shape>, empty: AccessDescriptor) -> (d:
        AccessDescriptor)
        requires
            parts(*shape) == v@,
            *shape is Or || *shape is All,
            declares(empty, (Seq::empty(), Seq::empty())),
        ensures
            declares(d, access_keys_upto(*shape, v@.len())),
        decreases *shape, v@.len(),
    {
        let mut d = empty;
        let mut i: usize = 0;
        while i < v.len()
            invariant
                i <= v@.len(),
                parts(*shape) == v@,
                *shape is Or || *shape is All,
                declares(d, access_keys_upto(*shape, i as nat)),
            decreases v.len() - i,
        {
            proof {
                lemma_part_smaller(*shape, i as int);
            }
            d = d.merge(&v[i].system_access());
            i = i + 1;
        }
        d
    }
}

/// Whether a shape takes an entity with these components.
pub open spec fn takes(
    infos: Seq<InfoView>,
    m: Map<u32, CellState>,
    last_run: Tick,
    s: Shape,
) -> bool
    decreases s, parts(s).len() + 1,
{
    match s {
        Shape::Component(role, key) => {
            let id = resolved(infos, key);
            match role {
                Role::Without => !m.contains_key(id),
                Role::Maybe => true,
                Role::MaybeWrite => true,
                Role::Changed => m.contains_key(id) && newer(m[id].changed, last_run),
                Role::Added => m.contains_key(id) && newer(m[id].added, last_run),
                _ => m.contains_key(id),
            }
        },
        Shape::Entity => true,
        Shape::Unit => true,
        Shape::Or(v) => any_takes(infos, m, last_run, s, v@.len()),
        Shape::All(v) => all_take(infos, m, last_run, s, v@.len()),
    }
}

/// Whether one of the first `n` parts takes the entity.
pub open spec fn any_takes(
    infos: Seq<InfoView>,
    m: Map<u32, CellState>,
    last_run: Tick,
    s: Shape,
    n: nat,
) -> bool
    decreases s, n,
{
    if n == 0 || n > parts(s).len() {
        false
    } else {
        any_takes(infos, m, last_run, s, (n - 1) as nat) || takes(
            infos,
            m,
            last_run,
            parts(s)[n - 1],
        )
    }
}

/// Whether the first `n` parts take the entity.
pub open spec fn all_take(
    infos: Seq<InfoView>,
    m: Map<u32, CellState>,
    last_run: Tick,
    s: Shape,
    n: nat,
) -> bool
    decreases s, n,
{
    if n == 0 || n > parts(s).len() {
        true
    } else {
        all_take(infos, m, last_run, s, (n - 1) as nat) && takes(
            infos,
            m,
            last_run,
            parts(s)[n - 1],
        )
    }
}

/// A shape takes an entity by its components alone: it takes the archetype and the row exactly
/// where it takes the components in the row.
pub proof fn law_rows_are_taken_by_their_components(
    infos: Seq<InfoView>,
    a: ArchState,
    row: int,
    last_run: Tick,
    s: Shape,
)
    ensures
        takes(infos, row_cells(a, row), last_run, s) == (suits(infos, a, s) && passes(
            infos,
            a,
            row,
            last_run,
            s,
        )),
    decreases s, parts(s).len() + 1,
{
    match s {
        Shape::Component(role, key) => {
            let id = resolved(infos, key);
            assert(row_cells(a, row).contains_key(id) <==> has_id(a, id));
        },
        Shape::Or(v) => {
            lemma_any_taken(infos, a, row, last_run, s, v@.len());
        },
        Shape::All(v) => {
            lemma_all_taken(infos, a, row, last_run, s, v@.len());
        },
        _ => {},
    }
}

proof fn lemma_any_taken(
    infos: Seq<InfoView>,
    a: ArchState,
    row: int,
    last_run: Tick,
    s: Shape,
    n: nat,
)
    requires
        n <= parts(s).len(),
    ensures
        any_takes(infos, row_cells(a, row), last_run, s, n) == any_passes(
            infos,
            a,
            row,
            last_run,
            s,
            n,
        ),
        any_passes(infos, a, row, last_run, s, n) ==> any_matches(infos, a, s, n),
    decreases s, n,
{
    if n > 0 {
        lemma_any_taken(infos, a, row, last_run, s, (n - 1) as nat);
        lemma_part_smaller(s, n - 1);
        law_rows_are_taken_by_their_components(infos, a, row, last_run, parts(s)[n - 1]);
    }
}

proof fn lemma_all_taken(
    infos: Seq<InfoView>,
    a: ArchState,
    row: int,
    last_run: Tick,
    s: Shape,
    n: nat,
)
    requires
        n <= parts(s).len(),
    ensures
        all_take(infos, row_cells(a, row), last_run, s, n) == (all_match(infos, a, s, n)
            && all_pass(infos, a, row, last_run, s, n)),
    decreases s, n,
{
    if n > 0 {
        lemma_all_taken(infos, a, row, last_run, s, (n - 1) as nat);
        lemma_part_smaller(s, n - 1);
        law_rows_are_taken_by_their_components(infos, a, row, last_run, parts(s)[n - 1]);
    }
}

} // verus!
