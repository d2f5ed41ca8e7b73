//! Text of numbers and names.

use vstd::prelude::*;
use vstd::string::{StrSliceExecFns, StringExecFns};

verus! {

/// The digit `d`.
pub open spec fn digit(d: nat) -> Seq<char> {
    if d == 0 {
        "0"@
    } else if d == 1 {
        "1"@
    } else if d == 2 {
        "2"@
    } else if d == 3 {
        "3"@
    } else if d == 4 {
        "4"@
    } else if d == 5 {
        "5"@
    } else if d == 6 {
        "6"@
    } else if d == 7 {
        "7"@
    } else if d == 8 {
        "8"@
    } else {
        "9"@
    }
}

/// The decimal digits of `n`.
pub open spec fn decimal(n: nat) -> Seq<char>
    decreases n,
{
    if n < 10 {
        digit(n)
    } else {
        decimal(n / 10) + digit(n % 10)
    }
}

fn digit_text(d: u32) -> (s: &'static str)
    requires
        d < 10,
    ensures
        s@ == digit(d as nat),
{
    if d == 0 {
        "0"
    } else if d == 1 {
        "1"
    } else if d == 2 {
        "2"
    } else if d == 3 {
        "3"
    } else if d == 4 {
        "4"
    } else if d == 5 {
        "5"
    } else if d == 6 {
        "6"
    } else if d == 7 {
        "7"
    } else if d == 8 {
        "8"
    } else {
        "9"
    }
}

/// Appends the decimal digits of `n`.
pub fn push_decimal(out: &mut String, n: u32)
    ensures
        final(out)@ == old(out)@ + decimal(n as nat),
    decreases n,
{
    if n >= 10 {
        push_decimal(out, n / 10);
    }
    out.append(digit_text(n % 10));
    proof {
        if n >= 10 {
            assert(decimal(n as nat) == decimal((n / 10) as nat) + digit((n % 10) as nat));
            assert((old(out)@ + decimal((n / 10) as nat)) + digit((n % 10) as nat) =~= old(out)@
                + decimal(n as nat));
        }
    }
}

/// Whether the path separator stands at place `i` of `s`.
pub open spec fn separator_at(s: Seq<char>, i: int) -> bool {
    0 <= i && i + 1 < s.len() && s[i] == ':' && s[i + 1] == ':'
}

/// The part of a path behind its last separator, of which the first `n` places are searched.
pub open spec fn segment_from(s: Seq<char>, n: nat) -> Seq<char>
    decreases n,
{
    if n == 0 {
        s
    } else if separator_at(s, n - 1) {
        s.subrange((n + 1) as int, s.len() as int)
    } else {
        segment_from(s, (n - 1) as nat)
    }
}

/// The part of a path behind its last separator: all of it where there is none.
pub open spec fn last_segment(path: Seq<char>) -> Seq<char> {
    segment_from(path, path.len())
}

/// The part of a path behind its last separator.
pub fn last_segment_of(path: &str) -> (segment: &str)
    ensures
        segment@ == last_segment(path@),
{
    let len: usize = path.unicode_len();
    let mut n: usize = len;
    while n > 0
        invariant
            n <= len == path@.len(),
            segment_from(path@, n as nat) == last_segment(path@),
        decreases n,
    {
        if n < len && path.get_char(n - 1) == ':' && path.get_char(n) == ':' {
            return path.substring_char(n + 1, len);
        }
        n = n - 1;
    }
    path
}

} // verus!
