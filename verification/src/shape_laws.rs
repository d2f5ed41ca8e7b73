//! What a cache key tells of a shape.

use vstd::prelude::*;
use crate::archetype::ArchState;
use crate::registry::InfoView;
use crate::shape::{
    KEY_BRANCH_CLOSE, KEY_BRANCH_OPEN, KEY_OR_CLOSE, KEY_OR_OPEN, KEY_ROLE_OPTIONAL,
    KEY_ROLE_WITHOUT, Role, Shape, all_match, any_matches, cache_key, cache_upto, has_id, key_entry,
    lemma_part_smaller, marked_off, parts, resolved, suits,
};

verus! {

/// Whether an archetype is as an entry of a cache key asks for.
pub open spec fn entry_suits(a: ArchState, entry: u64) -> bool {
    if entry & KEY_ROLE_OPTIONAL != 0 {
        true
    } else if entry & KEY_ROLE_WITHOUT != 0 {
        !has_id(a, entry as u32)
    } else {
        has_id(a, entry as u32)
    }
}

/// A group of a cache key that is open: the branches of a disjunction, or the parts of one branch.
pub struct Group {
    pub any: bool,
    /// Whether one of the branches so far suits, or all of the parts so far do.
    pub suits: bool,
}

/// How far a cache key has been read: whether all that is outside of groups suits, and the groups
/// that are open.
pub struct Reading {
    pub all: bool,
    pub open: Seq<Group>,
}

/// The reading after something closed that suits or not.
pub open spec fn taken(r: Reading, v: bool) -> Reading {
    if r.open.len() == 0 {
        Reading { all: r.all && v, ..r }
    } else {
        let g = r.open.last();
        let h = Group {
            suits: if g.any {
                g.suits || v
            } else {
                g.suits && v
            },
            ..g
        };
        Reading { open: r.open.drop_last().push(h), ..r }
    }
}

/// The reading after one entry more.
pub open spec fn read_entry(a: ArchState, r: Reading, entry: u64) -> Reading {
    if entry == KEY_OR_OPEN {
        Reading { open: r.open.push(Group { any: true, suits: false }), ..r }
    } else if entry == KEY_BRANCH_OPEN {
        Reading { open: r.open.push(Group { any: false, suits: true }), ..r }
    } else if entry == KEY_OR_CLOSE || entry == KEY_BRANCH_CLOSE {
        taken(Reading { open: r.open.drop_last(), ..r }, r.open.last().suits)
    } else {
        taken(r, entry_suits(a, entry))
    }
}

/// The reading after all entries of `key`.
pub open spec fn read_key(a: ArchState, r: Reading, key: Seq<u64>) -> Reading
    decreases key.len(),
{
    if key.len() == 0 {
        r
    } else {
        read_entry(a, read_key(a, r, key.drop_last()), key.last())
    }
}

/// Whether what is read next has to suit together with what was read last.
pub open spec fn conjunctive(r: Reading) -> bool {
    r.open.len() == 0 || !r.open.last().any
}

proof fn lemma_read_add(a: ArchState, r: Reading, x: Seq<u64>, y: Seq<u64>)
    ensures
        read_key(a, r, x + y) == read_key(a, read_key(a, r, x), y),
    decreases y.len(),
{
    if y.len() == 0 {
        assert(x + y =~= x);
    } else {
        lemma_read_add(a, r, x, y.drop_last());
        assert((x + y).drop_last() =~= x + y.drop_last());
        assert((x + y).last() == y.last());
    }
}

proof fn lemma_read_one(a: ArchState, r: Reading, entry: u64)
    ensures
        read_key(a, r, seq![entry]) == read_entry(a, r, entry),
{
    let key = seq![entry];
    assert(key.drop_last() =~= Seq::<u64>::empty());
    assert(key.last() == entry);
    assert(read_key(a, r, key.drop_last()) == r);
}

proof fn lemma_entry(a: ArchState, role: Role, id: u32)
    ensures
        key_entry(role, id) != KEY_OR_OPEN,
        key_entry(role, id) != KEY_OR_CLOSE,
        key_entry(role, id) != KEY_BRANCH_OPEN,
        key_entry(role, id) != KEY_BRANCH_CLOSE,
        entry_suits(a, key_entry(role, id)) == match role {
            Role::Without => !has_id(a, id),
            Role::Maybe => true,
            Role::MaybeWrite => true,
            _ => has_id(a, id),
        },
{
    let w: u64 = id as u64 | 0x1_0000_0000;
    let o: u64 = id as u64 | 0x2_0000_0000;
    let p: u64 = id as u64;
    assert(w != 0x4_0000_0000 && w != 0x5_0000_0000 && w != 0x6_0000_0000 && w != 0x7_0000_0000 && w
        & 0x2_0000_0000 == 0 && w & 0x1_0000_0000 != 0 && w as u32 == id) by (bit_vector)
        requires
            w == id as u64 | 0x1_0000_0000,
    ;
    assert(o != 0x4_0000_0000 && o != 0x5_0000_0000 && o != 0x6_0000_0000 && o != 0x7_0000_0000 && o
        & 0x2_0000_0000 != 0) by (bit_vector)
        requires
            o == id as u64 | 0x2_0000_0000,
    ;
    assert(p != 0x4_0000_0000 && p != 0x5_0000_0000 && p != 0x6_0000_0000 && p != 0x7_0000_0000 && p
        & 0x2_0000_0000 == 0 && p & 0x1_0000_0000 == 0 && p as u32 == id) by (bit_vector)
        requires
            p == id as u64,
    ;
}

/// Reading a group and its end is taking what the group comes to.
proof fn lemma_read_group(
    a: ArchState,
    r: Reading,
    open: u64,
    middle: Seq<u64>,
    close: u64,
    first: Group,
    suits: bool,
)
    requires
        open == KEY_OR_OPEN && first == (Group { any: true, suits: false }) || open
            == KEY_BRANCH_OPEN && first == (Group { any: false, suits: true }),
        close == KEY_OR_CLOSE || close == KEY_BRANCH_CLOSE,
        read_key(a, Reading { open: r.open.push(first), ..r }, middle) == (Reading {
            open: r.open.push(Group { suits, ..first }),
            ..r
        }),
    ensures
        read_key(a, r, seq![open] + middle + seq![close]) == taken(r, suits),
{
    let opened = Reading { open: r.open.push(first), ..r };
    let inner = Reading { open: r.open.push(Group { suits, ..first }), ..r };
    lemma_read_add(a, r, seq![open], middle);
    lemma_read_add(a, r, seq![open] + middle, seq![close]);
    lemma_read_one(a, r, open);
    assert(read_key(a, r, seq![open]) == opened);
    lemma_read_one(a, inner, close);
    assert(inner.open.drop_last() =~= r.open);
    assert(inner.open.last() == (Group { suits, ..first }));
}

proof fn lemma_taken_group(r: Reading, g: Group, v: bool)
    ensures
        taken(Reading { open: r.open.push(g), ..r }, v) == (Reading {
            open: r.open.push(
                Group {
                    suits: if g.any {
                        g.suits || v
                    } else {
                        g.suits && v
                    },
                    ..g
                },
            ),
            ..r
        }),
{
    assert(r.open.push(g).drop_last() =~= r.open);
    assert(r.open.push(g).last() == g);
}

proof fn lemma_taken_together(r: Reading, x: bool, y: bool)
    requires
        conjunctive(r),
    ensures
        taken(r, true) == r,
        taken(taken(r, x), y) == taken(r, x && y),
        conjunctive(taken(r, x)),
{
    if r.open.len() > 0 {
        assert(r.open.drop_last().push(r.open.last()) =~= r.open);
        let t = taken(r, x);
        assert(t.open.drop_last() =~= r.open.drop_last());
    }
}

/// Reading the key of a shape is taking whether the shape suits. A shape of several parts has to
/// be read where parts have to suit together.
proof fn lemma_read_shape(infos: Seq<InfoView>, a: ArchState, s: Shape, r: Reading)
    requires
        s is Component || s is Or || conjunctive(r),
    ensures
        read_key(a, r, cache_key(infos, s)) == taken(r, suits(infos, a, s)),
    decreases s, parts(s).len() + 1,
{
    match s {
        Shape::Component(role, key) => {
            let id = resolved(infos, key);
            lemma_entry(a, role, id);
            lemma_read_one(a, r, key_entry(role, id));
        },
        Shape::Or(v) => {
            let n = v@.len();
            lemma_read_branches(infos, a, s, n, r);
            lemma_read_group(
                a,
                r,
                KEY_OR_OPEN,
                cache_upto(infos, s, n),
                KEY_OR_CLOSE,
                Group { any: true, suits: false },
                any_matches(infos, a, s, n),
            );
        },
        Shape::All(v) => {
            lemma_read_parts(infos, a, s, v@.len(), r);
        },
        _ => {
            lemma_taken_together(r, true, true);
        },
    }
}

/// Reading the branches of a disjunction gathers whether one of them suits.
proof fn lemma_read_branches(infos: Seq<InfoView>, a: ArchState, s: Shape, n: nat, r: Reading)
    requires
        s is Or,
        n <= parts(s).len(),
    ensures
        read_key(
            a,
            Reading { open: r.open.push(Group { any: true, suits: false }), ..r },
            cache_upto(infos, s, n),
        ) == (Reading {
            open: r.open.push(Group { any: true, suits: any_matches(infos, a, s, n) }),
            ..r
        }),
    decreases s, n,
{
    if n > 0 {
        let m = (n - 1) as nat;
        lemma_read_branches(infos, a, s, m, r);
        lemma_part_smaller(s, n - 1);
        let p = parts(s)[n - 1];
        let key = cache_key(infos, p);
        let start = Reading { open: r.open.push(Group { any: true, suits: false }), ..r };
        let g = Group { any: true, suits: any_matches(infos, a, s, m) };
        let before = Reading { open: r.open.push(g), ..r };
        let v = suits(infos, a, p);
        lemma_taken_group(r, g, v);
        if marked_off(s, p) {
            let first = Group { any: false, suits: true };
            let inside = Reading { open: before.open.push(first), ..before };
            lemma_read_shape(infos, a, p, inside);
            lemma_taken_group(before, first, v);
            lemma_read_group(a, before, KEY_BRANCH_OPEN, key, KEY_BRANCH_CLOSE, first, v);
            lemma_read_add(
                a,
                start,
                cache_upto(infos, s, m),
                seq![KEY_BRANCH_OPEN] + key + seq![KEY_BRANCH_CLOSE],
            );
        } else {
            lemma_read_shape(infos, a, p, before);
            lemma_read_add(a, start, cache_upto(infos, s, m), key);
        }
    }
}

proof fn lemma_read_parts(infos: Seq<InfoView>, a: ArchState, s: Shape, n: nat, r: Reading)
    requires
        s is All,
        n <= parts(s).len(),
        conjunctive(r),
    ensures
        read_key(a, r, cache_upto(infos, s, n)) == taken(r, all_match(infos, a, s, n)),
    decreases s, n,
{
    if n == 0 {
        lemma_taken_together(r, true, true);
    } else {
        let m = (n - 1) as nat;
        lemma_read_parts(infos, a, s, m, r);
        lemma_part_smaller(s, n - 1);
        let p = parts(s)[n - 1];
        let x = all_match(infos, a, s, m);
        lemma_read_add(a, r, cache_upto(infos, s, m), cache_key(infos, p));
        lemma_taken_together(r, x, suits(infos, a, p));
        lemma_read_shape(infos, a, p, taken(r, x));
    }
}

/// A cache key tells which archetypes a shape takes: two shapes with the same key take the same
/// ones.
pub proof fn law_key_tells_what_suits(infos: Seq<InfoView>, a: ArchState, s: Shape, t: Shape)
    requires
        cache_key(infos, s) == cache_key(infos, t),
    ensures
        suits(infos, a, s) == suits(infos, a, t),
{
    let r = Reading { all: true, open: Seq::empty() };
    lemma_read_shape(infos, a, s, r);
    lemma_read_shape(infos, a, t, r);
}

} // verus!
