//! Names of systems.

use vstd::prelude::*;
use vstd::string::StrSliceExecFns;

verus! {

/// Where the short name starts, searched from place `i` on at `depth` angle brackets: behind the
/// last path separator outside of them, or at `cut` where none follows.
pub open spec fn name_start(s: Seq<char>, i: nat, depth: nat, cut: nat) -> nat
    decreases s.len() - i,
{
    if i >= s.len() {
        cut
    } else if s[i as int] == '<' {
        name_start(s, i + 1, depth + 1, cut)
    } else if s[i as int] == '>' {
        name_start(
            s,
            i + 1,
            if depth > 0 {
                (depth - 1) as nat
            } else {
                0
            },
            cut,
        )
    } else if s[i as int] == ':' && depth == 0 && i + 1 < s.len() && s[i as int + 1] == ':' {
        name_start(s, i + 2, depth, i + 2)
    } else {
        name_start(s, i + 1, depth, cut)
    }
}

/// The short name of a system: what follows the module path of its full name. Generic arguments
/// stay as they are.
pub open spec fn short_name(s: Seq<char>) -> Seq<char> {
    s.subrange(name_start(s, 0, 0, 0) as int, s.len() as int)
}

/// The short name lies within the full one.
pub proof fn lemma_name_start(s: Seq<char>, i: nat, depth: nat, cut: nat)
    requires
        cut <= s.len(),
    ensures
        name_start(s, i, depth, cut) <= s.len(),
        cut <= i ==> name_start(s, i, depth, cut) >= cut,
    decreases s.len() - i,
{
    if i < s.len() {
        if s[i as int] == '<' {
            lemma_name_start(s, i + 1, depth + 1, cut);
        } else if s[i as int] == '>' {
            lemma_name_start(
                s,
                i + 1,
                if depth > 0 {
                    (depth - 1) as nat
                } else {
                    0
                },
                cut,
            );
        } else if s[i as int] == ':' && depth == 0 && i + 1 < s.len() && s[i as int + 1] == ':' {
            lemma_name_start(s, i + 2, depth, i + 2);
        } else {
            lemma_name_start(s, i + 1, depth, cut);
        }
    }
}

/// A short name has no shorter one, unless brackets do not match.
pub proof fn law_names_without_path_stay(s: Seq<char>, i: nat, depth: nat)
    requires
        forall|k: int| 0 <= k < s.len() ==> #[trigger] s[k] != ':',
    ensures
        name_start(s, i, depth, 0) == 0,
        i == 0 && depth == 0 ==> short_name(s) == s,
    decreases s.len() - i,
{
    if i < s.len() {
        law_names_without_path_stay(
            s,
            i + 1,
            if s[i as int] == '<' {
                depth + 1
            } else if s[i as int] == '>' {
                if depth > 0 {
                    (depth - 1) as nat
                } else {
                    0
                }
            } else {
                depth
            },
        );
    }
    if i == 0 && depth == 0 {
        assert(s.subrange(0, s.len() as int) =~= s);
    }
}

/// The short name of a system with the given full name.
pub fn short_system_name(full: &str) -> (name: &str)
    ensures
        name@ == short_name(full@),
{
    let len: usize = full.unicode_len();
    let mut depth: usize = 0;
    let mut cut: usize = 0;
    let mut i: usize = 0;
    while i < len
        invariant
            i <= len == full@.len(),
            depth <= i,
            cut <= i,
            name_start(full@, 0, 0, 0) == name_start(full@, i as nat, depth as nat, cut as nat),
        decreases len - i,
    {
        let c: char = full.get_char(i);
        if c == '<' {
            depth = depth + 1;
        } else if c == '>' {
            if depth > 0 {
                depth = depth - 1;
            }
        } else if c == ':' && depth == 0 && i + 1 < len && full.get_char(i + 1) == ':' {
            cut = i + 2;
            i = i + 1;
        }
        i = i + 1;
    }
    full.substring_char(cut, len)
}

} // verus!
