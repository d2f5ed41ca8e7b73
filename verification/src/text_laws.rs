//! What holds of texts: numbers can be read back, paths end in their names, and settings mean the
//! same whatever stands around them.

use vstd::prelude::*;
use crate::error::{
    AnomalyCounts, AnomalyState, Severity, anomaly_text, counted, leading, spells, trailing,
    trimmed, white_space,
};
use crate::fn_system::{name_start, short_name};
use crate::text::{decimal, digit, last_segment, segment_from, separator_at};

verus! {

/// The value of a digit.
pub open spec fn digit_value(c: char) -> nat {
    if '0' <= c <= '9' {
        (c as nat - '0' as nat) as nat
    } else {
        0
    }
}

/// The number that digits stand for.
pub open spec fn read_back(s: Seq<char>) -> nat
    decreases s.len(),
{
    if s.len() == 0 {
        0
    } else {
        read_back(s.drop_last()) * 10 + digit_value(s.last())
    }
}

proof fn lemma_digit(d: nat)
    requires
        d < 10,
    ensures
        digit(d).len() == 1,
        '0' <= digit(d)[0] <= '9',
        digit_value(digit(d)[0]) == d,
{
    reveal_strlit("0");
    reveal_strlit("1");
    reveal_strlit("2");
    reveal_strlit("3");
    reveal_strlit("4");
    reveal_strlit("5");
    reveal_strlit("6");
    reveal_strlit("7");
    reveal_strlit("8");
    reveal_strlit("9");
}

/// The text of a number is made of digits, has no zero in front but for zero itself, and reads back
/// as the number.
pub proof fn law_numbers_read_back(n: nat)
    ensures
        decimal(n).len() > 0,
        forall|i: int| 0 <= i < decimal(n).len() ==> '0' <= #[trigger] decimal(n)[i] <= '9',
        read_back(decimal(n)) == n,
        n > 0 ==> decimal(n)[0] != '0',
    decreases n,
{
    if n < 10 {
        lemma_digit(n);
        let s = decimal(n);
        assert(s.drop_last() =~= Seq::<char>::empty());
        reveal_with_fuel(read_back, 2);
        if n > 0 {
            assert(digit_value(s[0]) == n);
        }
    } else {
        law_numbers_read_back(n / 10);
        lemma_digit(n % 10);
        let head = decimal(n / 10);
        let s = decimal(n);
        assert(s == head + digit(n % 10));
        assert(s.drop_last() =~= head);
        assert(s.last() == digit(n % 10)[0]);
        assert(s[0] == head[0]);
        assert forall|i: int| 0 <= i < s.len() implies '0' <= #[trigger] s[i] <= '9' by {
            if i < head.len() {
                assert(s[i] == head[i]);
            }
        }
    }
}

proof fn lemma_segment(s: Seq<char>, n: nat, k: nat)
    requires
        k <= n <= s.len(),
        forall|i: int| k <= i < n ==> !#[trigger] separator_at(s, i),
    ensures
        segment_from(s, n) == segment_from(s, k),
    decreases n,
{
    if k < n {
        assert(!separator_at(s, n - 1));
        lemma_segment(s, (n - 1) as nat, k);
    }
}

/// The last segment of a path is what stands behind its last separator.
pub proof fn law_last_segment_is_the_name(path: Seq<char>, name: Seq<char>)
    requires
        forall|i: int| 0 <= i < name.len() ==> #[trigger] name[i] != ':',
    ensures
        last_segment(path + "::"@ + name) == name,
        last_segment(name) == name,
{
    reveal_strlit("::");
    let s = path + "::"@ + name;
    let k = (path.len() + 1) as nat;
    assert("::"@.len() == 2);
    assert(s[path.len() as int] == ':' && s[path.len() as int + 1] == ':');
    assert forall|i: int| k <= i < s.len() implies !#[trigger] separator_at(s, i) by {
        if separator_at(s, i) {
            assert(s[i + 1] == name[i + 1 - path.len() - 2]);
        }
    }
    lemma_segment(s, s.len(), k);
    assert(separator_at(s, k - 1));
    assert(segment_from(s, k) == s.subrange((k + 1) as int, s.len() as int));
    assert(s.subrange((k + 1) as int, s.len() as int) =~= name);
    assert forall|i: int| 0 <= i < name.len() implies !#[trigger] separator_at(name, i) by {}
    lemma_segment(name, name.len(), 0);
}

/// Outside of brackets and without separators, looking for the short name goes on.
proof fn lemma_plain(s: Seq<char>, i: nat, j: nat, depth: nat, cut: nat)
    requires
        i <= j <= s.len(),
        forall|k: int| i <= k < j ==> #[trigger] s[k] != '<' && s[k] != '>' && (s[k] != ':' || depth > 0),
    ensures
        name_start(s, i, depth, cut) == name_start(s, j, depth, cut),
    decreases j - i,
{
    if i < j {
        assert(s[i as int] != '<');
        lemma_plain(s, i + 1, j, depth, cut);
    }
}

proof fn lemma_path(s: Seq<char>, i: nat, j: nat, cut: nat) -> (cut2: nat)
    requires
        i <= j < s.len(),
        j > 0 ==> s[j - 1] != ':',
        forall|k: int| i <= k < j ==> #[trigger] s[k] != '<' && s[k] != '>',
    ensures
        name_start(s, i, 0, cut) == name_start(s, j, 0, cut2),
    decreases j - i,
{
    if i < j {
        assert(s[i as int] != '<');
        if s[i as int] == ':' && i + 1 < s.len() && s[i as int + 1] == ':' {
            assert(i + 1 < j);
            lemma_path(s, i + 2, j, i + 2)
        } else {
            lemma_path(s, i + 1, j, cut)
        }
    } else {
        cut
    }
}

/// The short name of a system is its name without the path; what stands in angle brackets stays as
/// it is, separators included.
pub proof fn law_short_names_drop_the_path(path: Seq<char>, name: Seq<char>, args: Seq<char>)
    requires
        path.len() > 0 ==> path.last() != ':',
        forall|i: int| 0 <= i < path.len() ==> #[trigger] path[i] != '<' && path[i] != '>',
        forall|i: int|
            0 <= i < name.len() ==> #[trigger] name[i] != '<' && name[i] != '>' && name[i] != ':',
        forall|i: int| 0 <= i < args.len() ==> #[trigger] args[i] != '<' && args[i] != '>',
    ensures
        short_name(path + "::"@ + name) == name,
        short_name(path + "::"@ + name + "<"@ + args + ">"@) == name + "<"@ + args + ">"@,
{
    reveal_strlit("::");
    reveal_strlit("<");
    reveal_strlit(">");
    let p = path.len();
    let s = path + "::"@ + name;
    assert(s[p as int] == ':' && s[p as int + 1] == ':');
    assert forall|k: int| 0 <= k < p implies #[trigger] s[k] != '<' && s[k] != '>' by {
        assert(s[k] == path[k]);
    }
    if p > 0 {
        assert(s[p - 1] == path.last());
    }
    let c = lemma_path(s, 0, p, 0);
    assert(name_start(s, p, 0, c) == name_start(s, p + 2, 0, p + 2));
    assert forall|k: int| p + 2 <= k < s.len() implies #[trigger] s[k] != '<' && s[k] != '>' && s[k]
        != ':' by {
        assert(s[k] == name[k - p - 2]);
    }
    lemma_plain(s, p + 2, s.len(), 0, p + 2);
    assert(short_name(s) =~= name);
    let t = path + "::"@ + name + "<"@ + args + ">"@;
    let tail = name + "<"@ + args + ">"@;
    assert(t[p as int] == ':' && t[p as int + 1] == ':');
    assert forall|k: int| 0 <= k < p implies #[trigger] t[k] != '<' && t[k] != '>' by {
        assert(t[k] == path[k]);
    }
    if p > 0 {
        assert(t[p - 1] == path.last());
    }
    let d = lemma_path(t, 0, p, 0);
    assert(name_start(t, p, 0, d) == name_start(t, p + 2, 0, p + 2));
    let a = p + 2 + name.len();
    assert forall|k: int| p + 2 <= k < a implies #[trigger] t[k] != '<' && t[k] != '>' && t[k]
        != ':' by {
        assert(t[k] == name[k - p - 2]);
    }
    lemma_plain(t, p + 2, a, 0, p + 2);
    assert(t[a as int] == '<');
    let b = a + 1 + args.len();
    assert forall|k: int| a + 1 <= k < b implies #[trigger] t[k] != '<' && t[k] != '>' by {
        assert(t[k] == args[k - a - 1]);
    }
    lemma_plain(t, a + 1, b, 1, p + 2);
    assert(t[b as int] == '>');
    assert(t.len() == b + 1);
    assert(name_start(t, b + 1, 0, p + 2) == p + 2);
    assert(short_name(t) =~= tail);
}

/// The text of an anomaly starts with the operation and ends with the explanation; between them
/// stand the component, where there is one, and the entity, where there is one, as its two numbers.
pub proof fn law_anomalies_are_spelled_out(a: AnomalyState)
    ensures
        ({
            let t = anomaly_text(a);
            let who = match a.component {
                Some(c) => "::<"@ + c + ">"@,
                None => ""@,
            };
            let whose = match a.entity {
                Some(e) => " on entity "@ + decimal(e.index as nat) + ":"@ + decimal(
                    e.generation as nat,
                ),
                None => ""@,
            };
            t == a.op + who + whose + " — "@ + a.detail
        }),
{
    reveal_strlit("");
    let who = match a.component {
        Some(c) => "::<"@ + c + ">"@,
        None => ""@,
    };
    let whose = match a.entity {
        Some(e) => " on entity "@ + decimal(e.index as nat) + ":"@ + decimal(e.generation as nat),
        None => ""@,
    };
    assert(anomaly_text(a) =~= a.op + who + whose + " — "@ + a.detail);
}

/// An anomaly is counted once, under its severity; short of a wrap the count grows by one.
pub proof fn law_anomalies_are_counted_once(c: AnomalyCounts, severity: Severity)
    ensures
        ({
            let t = counted(c, severity);
            match severity {
                Severity::Warn => {
                    &&& t.error == c.error
                    &&& t.warn as int == (c.warn + 1) % 0x1_0000_0000_0000_0000
                },
                Severity::Error => {
                    &&& t.warn == c.warn
                    &&& t.error as int == (c.error + 1) % 0x1_0000_0000_0000_0000
                },
            }
        }),
{
    let n = match severity {
        Severity::Warn => c.warn,
        Severity::Error => c.error,
    };
    if n < u64::MAX {
        assert((n + 1) % 0x1_0000_0000_0000_0000 == n + 1);
    } else {
        assert((n + 1) % 0x1_0000_0000_0000_0000 == 0);
    }
}

proof fn lemma_leading(s: Seq<char>, from: nat, n: nat)
    requires
        from <= n <= s.len(),
        forall|i: int| from <= i < n ==> white_space(#[trigger] s[i]),
        n < s.len() ==> !white_space(s[n as int]),
    ensures
        leading(s, from) == n,
    decreases n - from,
{
    if from < n {
        lemma_leading(s, from + 1, n);
    }
}

proof fn lemma_trailing(s: Seq<char>, n: nat, end: nat, low: nat)
    requires
        low <= end <= n <= s.len(),
        forall|i: int| end <= i < n ==> white_space(#[trigger] s[i]),
        end > low ==> !white_space(s[end - 1]),
    ensures
        trailing(s, n, low) == end,
    decreases n,
{
    if end < n {
        assert(white_space(s[n - 1]));
        lemma_trailing(s, (n - 1) as nat, end, low);
    }
}

/// White space around a word does not count.
pub proof fn law_trimming_leaves_the_word(left: Seq<char>, word: Seq<char>, right: Seq<char>)
    requires
        forall|i: int| 0 <= i < left.len() ==> white_space(#[trigger] left[i]),
        forall|i: int| 0 <= i < right.len() ==> white_space(#[trigger] right[i]),
        word.len() > 0,
        !white_space(word[0]),
        !white_space(word.last()),
    ensures
        trimmed(left + word + right) == word,
{
    let s = left + word + right;
    let a = left.len();
    let b = left.len() + word.len();
    assert forall|i: int| 0 <= i < a implies white_space(#[trigger] s[i]) by {
        assert(s[i] == left[i]);
    }
    assert(s[a as int] == word[0]);
    lemma_leading(s, 0, a);
    assert forall|i: int| b <= i < s.len() implies white_space(#[trigger] s[i]) by {
        assert(s[i] == right[i - b]);
    }
    assert(s[b - 1] == word.last());
    lemma_trailing(s, s.len(), b, a);
    assert(trimmed(s) =~= word);
}

/// Blanks, tabs and the ends of lines are white space; letters and digits are not.
pub proof fn law_white_space_is_blank(c: char)
    ensures
        c == ' ' || c == '\t' || c == '\n' || c == '\r' ==> white_space(c),
        '!' <= c <= '~' ==> !white_space(c),
{
}

/// A word is spelled by itself in either case or in any mixture, and by nothing of another length.
pub proof fn law_words_are_spelled_in_any_case(s: Seq<char>, lower: Seq<char>, upper: Seq<char>)
    requires
        lower.len() == upper.len(),
    ensures
        spells(lower, lower, upper),
        spells(upper, lower, upper),
        s.len() == lower.len() && (forall|i: int|
            0 <= i < s.len() ==> (#[trigger] s[i]) == lower[i] || s[i] == upper[i]) ==> spells(
            s,
            lower,
            upper,
        ),
        s.len() != lower.len() ==> !spells(s, lower, upper),
        forall|i: int|
            0 <= i < s.len() && i < lower.len() && (#[trigger] s[i]) != lower[i] && s[i]
                != upper[i] ==> !spells(s, lower, upper),
{
}

/// Brackets nest: what stands in brackets inside of brackets stays too, and so does what follows it
/// inside of the outer ones.
pub proof fn law_short_names_keep_nested_brackets(
    path: Seq<char>,
    name: Seq<char>,
    a: Seq<char>,
    b: Seq<char>,
    c: Seq<char>,
)
    requires
        path.len() > 0 ==> path.last() != ':',
        forall|i: int| 0 <= i < path.len() ==> #[trigger] path[i] != '<' && path[i] != '>',
        forall|i: int|
            0 <= i < name.len() ==> #[trigger] name[i] != '<' && name[i] != '>' && name[i] != ':',
        forall|i: int| 0 <= i < a.len() ==> #[trigger] a[i] != '<' && a[i] != '>',
        forall|i: int| 0 <= i < b.len() ==> #[trigger] b[i] != '<' && b[i] != '>',
        forall|i: int| 0 <= i < c.len() ==> #[trigger] c[i] != '<' && c[i] != '>',
    ensures
        short_name(path + "::"@ + name + "<"@ + a + "<"@ + b + ">"@ + c + ">"@) == name + "<"@ + a
            + "<"@ + b + ">"@ + c + ">"@,
{
    reveal_strlit("::");
    reveal_strlit("<");
    reveal_strlit(">");
    let p = path.len();
    let t = path + "::"@ + name + "<"@ + a + "<"@ + b + ">"@ + c + ">"@;
    let tail = name + "<"@ + a + "<"@ + b + ">"@ + c + ">"@;
    assert(t[p as int] == ':' && t[p as int + 1] == ':');
    assert forall|k: int| 0 <= k < p implies #[trigger] t[k] != '<' && t[k] != '>' by {
        assert(t[k] == path[k]);
    }
    if p > 0 {
        assert(t[p - 1] == path.last());
    }
    let d = lemma_path(t, 0, p, 0);
    assert(name_start(t, p, 0, d) == name_start(t, p + 2, 0, p + 2));
    let e1 = p + 2 + name.len();
    assert forall|k: int| p + 2 <= k < e1 implies #[trigger] t[k] != '<' && t[k] != '>' && t[k]
        != ':' by {
        assert(t[k] == name[k - p - 2]);
    }
    lemma_plain(t, p + 2, e1, 0, p + 2);
    assert(t[e1 as int] == '<');
    let e2 = e1 + 1 + a.len();
    assert forall|k: int| e1 + 1 <= k < e2 implies #[trigger] t[k] != '<' && t[k] != '>' by {
        assert(t[k] == a[k - e1 - 1]);
    }
    lemma_plain(t, e1 + 1, e2, 1, p + 2);
    assert(t[e2 as int] == '<');
    let e3 = e2 + 1 + b.len();
    assert forall|k: int| e2 + 1 <= k < e3 implies #[trigger] t[k] != '<' && t[k] != '>' by {
        assert(t[k] == b[k - e2 - 1]);
    }
    lemma_plain(t, e2 + 1, e3, 2, p + 2);
    assert(t[e3 as int] == '>');
    let e4 = e3 + 1 + c.len();
    assert forall|k: int| e3 + 1 <= k < e4 implies #[trigger] t[k] != '<' && t[k] != '>' by {
        assert(t[k] == c[k - e3 - 1]);
    }
    lemma_plain(t, e3 + 1, e4, 1, p + 2);
    assert(t[e4 as int] == '>');
    assert(t.len() == e4 + 1);
    assert(name_start(t, e4 + 1, 0, p + 2) == p + 2);
    assert(short_name(t) =~= tail);
}

} // verus!
