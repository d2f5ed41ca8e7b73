//! JSON trees, and how a part of one is merged into another.

use vstd::prelude::*;

verus! {

/// A JSON value. A number is kept as it is written.
pub enum Json {
    Null,
    Bool(bool),
    Number(String),
    Text(String),
    List(Vec<Json>),
    /// Names with their values; no name comes twice.
    Object(Vec<(String, Json)>),
}

/// The contents of a [`Json`].
pub enum JsonState {
    Null,
    Bool(bool),
    Number(Seq<char>),
    Text(Seq<char>),
    List(Seq<JsonState>),
    Object(Seq<(Seq<char>, JsonState)>),
}

/// The contents of a value.
pub open spec fn state(j: Json) -> JsonState
    decreases j, 0nat,
{
    match j {
        Json::Null => JsonState::Null,
        Json::Bool(b) => JsonState::Bool(b),
        Json::Number(n) => JsonState::Number(n@),
        Json::Text(t) => JsonState::Text(t@),
        Json::List(v) => JsonState::List(states_upto(v@, v@.len())),
        Json::Object(v) => JsonState::Object(entries_upto(v@, v@.len())),
    }
}

/// The contents of the first `n` values.
pub open spec fn states_upto(v: Seq<Json>, n: nat) -> Seq<JsonState>
    decreases v, n,
{
    if n == 0 || n > v.len() {
        Seq::empty()
    } else {
        states_upto(v, (n - 1) as nat).push(state(v[n - 1]))
    }
}

/// The first `n` names with their contents.
pub open spec fn entries_upto(v: Seq<(String, Json)>, n: nat) -> Seq<(Seq<char>, JsonState)>
    decreases v, n,
{
    if n == 0 || n > v.len() {
        Seq::empty()
    } else {
        entries_upto(v, (n - 1) as nat).push((v[n - 1].0@, state(v[n - 1].1)))
    }
}

/// Place of the first entry with a name, from `from` on; the number of entries where there is none.
pub open spec fn place_of_name(v: Seq<(Seq<char>, JsonState)>, name: Seq<char>, from: nat) -> nat
    decreases v.len() - from,
{
    if from >= v.len() {
        v.len()
    } else if v[from as int].0 == name {
        from
    } else {
        place_of_name(v, name, from + 1)
    }
}

/// Names with their values.
pub open spec fn entries(j: JsonState) -> Seq<(Seq<char>, JsonState)> {
    match j {
        JsonState::Object(v) => v,
        _ => Seq::empty(),
    }
}

/// A value with `over` merged into it: objects are merged name by name, and anything else is
/// replaced.
pub open spec fn merged(base: JsonState, over: JsonState) -> JsonState
    decreases over, entries(over).len() + 1,
{
    match (base, over) {
        (JsonState::Object(b), JsonState::Object(o)) => JsonState::Object(
            merged_upto(b, over, o.len()),
        ),
        _ => over,
    }
}

/// Entries with the first `n` entries of `over` merged into them.
pub open spec fn merged_upto(b: Seq<(Seq<char>, JsonState)>, over: JsonState, n: nat) -> Seq<
    (Seq<char>, JsonState),
>
    decreases over, n,
{
    if n == 0 || n > entries(over).len() {
        b
    } else {
        let m = merged_upto(b, over, (n - 1) as nat);
        let e = entries(over)[n - 1];
        let i = place_of_name(m, e.0, 0);
        if i < m.len() {
            m.update(i as int, (m[i as int].0, merged(m[i as int].1, e.1)))
        } else {
            m.push(e)
        }
    }
}

proof fn lemma_states(v: Seq<Json>, n: nat)
    requires
        n <= v.len(),
    ensures
        states_upto(v, n).len() == n,
        forall|i: int| 0 <= i < n ==> #[trigger] states_upto(v, n)[i] == state(v[i]),
    decreases n,
{
    if n > 0 {
        lemma_states(v, (n - 1) as nat);
    }
}

proof fn lemma_entries(v: Seq<(String, Json)>, n: nat)
    requires
        n <= v.len(),
    ensures
        entries_upto(v, n).len() == n,
        forall|i: int|
            0 <= i < n ==> #[trigger] entries_upto(v, n)[i] == (v[i].0@, state(v[i].1)),
    decreases n,
{
    if n > 0 {
        lemma_entries(v, (n - 1) as nat);
    }
}

/// A part is smaller than the whole.
proof fn lemma_part_smaller(j: Json, i: int)
    ensures
        j matches Json::List(v) ==> 0 <= i < v@.len() ==> decreases_to!(j => v@[i]),
        j matches Json::Object(v) ==> 0 <= i < v@.len() ==> decreases_to!(j => v@[i].1),
{
    match j {
        Json::List(v) => {
            if 0 <= i < v@.len() {
                assert(decreases_to!(j => v@[i]));
            }
        },
        Json::Object(v) => {
            if 0 <= i < v@.len() {
                assert(decreases_to!(j => v@[i]));
                assert(decreases_to!(j => v@[i].1));
            }
        },
        _ => {},
    }
}

impl Json {
    /// A copy.
    pub fn copied(&self) -> (c: Json)
        ensures
            state(c) == state(*self),
        decreases *self, 0nat,
    {
        match self {
            Json::Null => Json::Null,
            Json::Bool(b) => Json::Bool(*b),
            Json::Number(n) => Json::Number(n.as_str().to_owned()),
            Json::Text(t) => Json::Text(t.as_str().to_owned()),
            Json::List(v) => {
                let mut out: Vec<Json> = Vec::new();
                let mut i: usize = 0;
                while i < v.len()
                    invariant
                        i <= v@.len(),
                        *self == Json::List(*v),
                        out@.len() == i,
                        forall|k: int| 0 <= k < i ==> state(#[trigger] out@[k]) == state(v@[k]),
                    decreases v.len() - i,
                {
                    proof {
                        lemma_part_smaller(*self, i as int);
                    }
                    out.push(v[i].copied());
                    i = i + 1;
                }
                proof {
                    lemma_states(out@, out@.len());
                    lemma_states(v@, v@.len());
                    assert(states_upto(out@, out@.len()) =~= states_upto(v@, v@.len()));
                }
                Json::List(out)
            },
            Json::Object(v) => {
                let mut out: Vec<(String, Json)> = Vec::new();
                let mut i: usize = 0;
                while i < v.len()
                    invariant
                        i <= v@.len(),
                        *self == Json::Object(*v),
                        out@.len() == i,
                        forall|k: int|
                            0 <= k < i ==> (#[trigger] out@[k]).0@ == v@[k].0@ && state(out@[k].1)
                                == state(v@[k].1),
                    decreases v.len() - i,
                {
                    proof {
                        lemma_part_smaller(*self, i as int);
                    }
                    let name: String = v[i].0.as_str().to_owned();
                    let value: Json = v[i].1.copied();
                    out.push((name, value));
                    i = i + 1;
                }
                proof {
                    lemma_entries(out@, out@.len());
                    lemma_entries(v@, v@.len());
                    assert(entries_upto(out@, out@.len()) =~= entries_upto(v@, v@.len()));
                }
                Json::Object(out)
            },
        }
    }
}

/// Place of the first entry with a name.
fn find_name(v: &Vec<(String, Json)>, name: &String) -> (i: usize)
    ensures
        i == place_of_name(entries_upto(v@, v@.len()), name@, 0),
        i <= v@.len(),
{
    let ghost all = entries_upto(v@, v@.len());
    proof {
        lemma_entries(v@, v@.len());
    }
    let mut i: usize = 0;
    while i < v.len()
        invariant
            i <= v@.len() == all.len(),
            all == entries_upto(v@, v@.len()),
            forall|k: int| 0 <= k < all.len() ==> (#[trigger] all[k]).0 == v@[k].0@,
            place_of_name(all, name@, 0) == place_of_name(all, name@, i as nat),
        decreases v.len() - i,
    {
        assert(all[i as int].0 == v@[i as int].0@);
        if v[i].0 == *name {
            return i;
        }
        i = i + 1;
    }
    i
}

/// Merges `overlay` into `base`: objects are merged name by name, and anything else is replaced.
pub fn json_merge(base: &mut Json, overlay: &Json)
    ensures
        state(*final(base)) == merged(state(*old(base)), state(*overlay)),
    decreases *overlay, 0nat,
{
    let mut taken: Json = Json::Null;
    core::mem::swap(base, &mut taken);
    match (taken, overlay) {
        (Json::Object(mut b), Json::Object(o)) => {
            let ghost first = entries_upto(b@, b@.len());
            let ghost over = state(*overlay);
            let ghost all = entries(over);
            proof {
                lemma_entries(o@, o@.len());
            }
            let mut i: usize = 0;
            while i < o.len()
                invariant
                    i <= o@.len() == all.len(),
                    *overlay == Json::Object(*o),
                    over == state(*overlay),
                    all == entries(over),
                    forall|k: int|
                        0 <= k < all.len() ==> #[trigger] all[k] == (o@[k].0@, state(o@[k].1)),
                    entries_upto(b@, b@.len()) == merged_upto(first, over, i as nat),
                decreases o.len() - i,
            {
                let ghost m = entries_upto(b@, b@.len());
                let ghost before = b@;
                proof {
                    lemma_entries(b@, b@.len());
                    lemma_part_smaller(*overlay, i as int);
                    assert(all[i as int] == (o@[i as int].0@, state(o@[i as int].1)));
                }
                let k: usize = find_name(&b, &o[i].0);
                if k < b.len() {
                    let (name, mut value): (String, Json) = b.remove(k);
                    json_merge(&mut value, &o[i].1);
                    b.insert(k, (name, value));
                    proof {
                        lemma_entries(b@, b@.len());
                        assert(b@ =~= before.update(k as int, (name, value)));
                        assert(entries_upto(b@, b@.len()) =~= m.update(
                            k as int,
                            (
                                m[k as int].0,
                                merged(m[k as int].1, all[i as int].1),
                            ),
                        ));
                    }
                } else {
                    let name: String = o[i].0.as_str().to_owned();
                    let value: Json = o[i].1.copied();
                    b.push((name, value));
                    proof {
                        lemma_entries(b@, b@.len());
                        assert(entries_upto(b@, b@.len()) =~= m.push(all[i as int]));
                    }
                }
                i = i + 1;
            }
            *base = Json::Object(b);
        },
        _ => {
            *base = overlay.copied();
        },
    }
}

/// The value with a name, if there is one.
pub open spec fn value_of(v: Seq<(Seq<char>, JsonState)>, name: Seq<char>) -> Option<JsonState> {
    let i = place_of_name(v, name, 0);
    if i < v.len() {
        Some(v[i as int].1)
    } else {
        None
    }
}

/// Whether no name comes twice among the first `n` entries.
pub open spec fn names_differ(v: Seq<(Seq<char>, JsonState)>, n: nat) -> bool {
    forall|i: int, j: int|
        0 <= i < j < n && j < v.len() ==> (#[trigger] v[i]).0 != (#[trigger] v[j]).0
}

proof fn lemma_place_of_name(v: Seq<(Seq<char>, JsonState)>, name: Seq<char>, from: nat)
    requires
        from <= v.len(),
    ensures
        from <= place_of_name(v, name, from) <= v.len(),
        place_of_name(v, name, from) < v.len() ==> v[place_of_name(v, name, from) as int].0 == name,
        forall|k: int| from <= k < place_of_name(v, name, from) ==> (#[trigger] v[k]).0 != name,
    decreases v.len() - from,
{
    if from < v.len() && v[from as int].0 != name {
        lemma_place_of_name(v, name, from + 1);
    }
}

proof fn lemma_place_is(v: Seq<(Seq<char>, JsonState)>, name: Seq<char>, i: nat)
    requires
        i <= v.len(),
        i < v.len() ==> v[i as int].0 == name,
        forall|k: int| 0 <= k < i ==> (#[trigger] v[k]).0 != name,
    ensures
        place_of_name(v, name, 0) == i,
{
    lemma_place_of_name(v, name, 0);
}

/// Merging goes name by name: the value of a name is the merge of both where both have it, and the
/// value of the one that has it otherwise.
pub proof fn law_merge_goes_name_by_name(
    b: Seq<(Seq<char>, JsonState)>,
    over: JsonState,
    n: nat,
    name: Seq<char>,
)
    requires
        n <= entries(over).len(),
        names_differ(entries(over), n),
    ensures
        value_of(merged_upto(b, over, n), name) == match (
            value_of(b, name),
            value_of(entries(over).subrange(0, n as int), name),
        ) {
            (x, None) => x,
            (None, Some(y)) => Some(y),
            (Some(x), Some(y)) => Some(merged(x, y)),
        },
    decreases n,
{
    let o = entries(over);
    let seen = o.subrange(0, n as int);
    lemma_place_of_name(seen, name, 0);
    if n > 0 {
        law_merge_goes_name_by_name(b, over, (n - 1) as nat, name);
        let before = o.subrange(0, n - 1);
        let m = merged_upto(b, over, (n - 1) as nat);
        let t = merged_upto(b, over, n);
        let e = o[n - 1];
        lemma_place_of_name(before, name, 0);
        lemma_place_of_name(m, name, 0);
        lemma_place_of_name(m, e.0, 0);
        let i = place_of_name(m, e.0, 0);
        if name == e.0 {
            assert forall|k: int| 0 <= k < n - 1 implies (#[trigger] before[k]).0 != name by {
                assert(o[k].0 != o[n - 1].0);
            }
            lemma_place_is(before, name, before.len());
            assert forall|k: int| 0 <= k < n - 1 implies (#[trigger] seen[k]).0 != name by {
                assert(seen[k] == before[k]);
            }
            assert(seen[n - 1] == e);
            lemma_place_is(seen, name, (n - 1) as nat);
            if i < m.len() {
                assert forall|k: int| 0 <= k < i implies (#[trigger] t[k]).0 != name by {
                    assert(t[k] == m[k]);
                }
                lemma_place_is(t, name, i);
            } else {
                assert forall|k: int| 0 <= k < i implies (#[trigger] t[k]).0 != name by {
                    assert(t[k] == m[k]);
                }
                lemma_place_is(t, name, i);
            }
        } else {
            let p = place_of_name(before, name, 0);
            assert forall|k: int| 0 <= k < p implies (#[trigger] seen[k]).0 != name by {
                assert(seen[k] == before[k]);
            }
            if p < before.len() {
                assert(seen[p as int] == before[p as int]);
                lemma_place_is(seen, name, p);
            } else {
                assert forall|k: int| 0 <= k < n implies (#[trigger] seen[k]).0 != name by {
                    if k < n - 1 {
                        assert(seen[k] == before[k]);
                    } else {
                        assert(seen[k] == e);
                    }
                }
                lemma_place_is(seen, name, n);
            }
            let r = place_of_name(m, name, 0);
            assert forall|k: int| 0 <= k < r implies (#[trigger] t[k]).0 != name by {
                assert(t[k].0 == m[k].0);
            }
            if r < m.len() {
                assert(t[r as int] == m[r as int]);
                lemma_place_is(t, name, r);
            } else {
                assert forall|k: int| 0 <= k < t.len() implies (#[trigger] t[k]).0 != name by {
                    if k < m.len() {
                        assert(t[k].0 == m[k].0);
                    }
                }
                lemma_place_is(t, name, t.len());
            }
        }
    } else {
        lemma_place_of_name(b, name, 0);
    }
}

/// Anything but an object over an object replaces what was there.
pub proof fn law_merge_replaces_what_is_no_object(base: JsonState, over: JsonState)
    requires
        !(base is Object) || !(over is Object),
    ensures
        merged(base, over) == over,
{
}

proof fn lemma_merged_names(b: Seq<(Seq<char>, JsonState)>, over: JsonState, n: nat)
    requires
        n <= entries(over).len(),
    ensures
        ({
            let m = merged_upto(b, over, n);
            &&& b.len() <= m.len() <= b.len() + n
            &&& forall|i: int| 0 <= i < b.len() ==> (#[trigger] m[i]).0 == b[i].0
            &&& names_differ(b, b.len()) ==> names_differ(m, m.len())
        }),
    decreases n,
{
    if n > 0 {
        lemma_merged_names(b, over, (n - 1) as nat);
        let m = merged_upto(b, over, (n - 1) as nat);
        let t = merged_upto(b, over, n);
        let e = entries(over)[n - 1];
        lemma_place_of_name(m, e.0, 0);
        let at = place_of_name(m, e.0, 0);
        assert forall|i: int| 0 <= i < b.len() implies (#[trigger] t[i]).0 == b[i].0 by {
            assert(m[i].0 == b[i].0);
        }
        if names_differ(b, b.len()) {
            assert forall|i: int, j: int|
                0 <= i < j < t.len() && j < t.len() implies (#[trigger] t[i]).0 != (
            #[trigger] t[j]).0 by {
                assert(t[i].0 == m[i].0);
                if j < m.len() {
                    assert(t[j].0 == m[j].0);
                    assert(m[i].0 != m[j].0);
                }
            }
        }
    }
}

/// An object over an object gives an object, in which the names that were there keep their places
/// and new ones follow. Each name has the merge of the two values where both had it, and else the
/// value of the one that had it.
pub proof fn law_merged_objects_have_the_names_of_both(
    b: Seq<(Seq<char>, JsonState)>,
    o: Seq<(Seq<char>, JsonState)>,
    name: Seq<char>,
)
    requires
        names_differ(b, b.len()),
        names_differ(o, o.len()),
    ensures
        ({
            let t = merged(JsonState::Object(b), JsonState::Object(o));
            let m = t->Object_0;
            &&& t is Object
            &&& forall|i: int| 0 <= i < b.len() ==> i < m.len() && (#[trigger] m[i]).0 == b[i].0
            &&& names_differ(m, m.len())
            &&& forall|i: int|
                0 <= i < b.len() && (forall|j: int|
                    0 <= j < o.len() ==> (#[trigger] o[j]).0 != b[i].0) ==> m.contains(
                    #[trigger] b[i],
                )
            &&& forall|j: int|
                0 <= j < o.len() && (forall|i: int|
                    0 <= i < b.len() ==> (#[trigger] b[i]).0 != o[j].0) ==> m.contains(
                    #[trigger] o[j],
                )
            &&& forall|i: int, j: int|
                0 <= i < b.len() && 0 <= j < o.len() && (#[trigger] b[i]).0 == (
                #[trigger] o[j]).0 ==> m.contains((b[i].0, merged(b[i].1, o[j].1)))
        }),
{
    let over = JsonState::Object(o);
    let t = merged(JsonState::Object(b), over);
    let m = merged_upto(b, over, o.len());
    assert(entries(over) == o);
    lemma_merged_names(b, over, o.len());
    assert(o.subrange(0, o.len() as int) =~= o);
    assert forall|i: int|
        0 <= i < b.len() && (forall|j: int| 0 <= j < o.len() ==> (#[trigger] o[j]).0 != b[i].0) implies
        m.contains(#[trigger] b[i]) by {
        law_merge_goes_name_by_name(b, over, o.len(), b[i].0);
        lemma_place_is(b, b[i].0, i as nat);
        lemma_place_is(o, b[i].0, o.len());
        lemma_value_there(m, b[i].0, b[i].1);
    }
    assert forall|j: int|
        0 <= j < o.len() && (forall|i: int| 0 <= i < b.len() ==> (#[trigger] b[i]).0 != o[j].0) implies
        m.contains(#[trigger] o[j]) by {
        law_merge_goes_name_by_name(b, over, o.len(), o[j].0);
        lemma_place_is(o, o[j].0, j as nat);
        lemma_place_is(b, o[j].0, b.len());
        lemma_value_there(m, o[j].0, o[j].1);
    }
    assert forall|i: int, j: int|
        0 <= i < b.len() && 0 <= j < o.len() && (#[trigger] b[i]).0 == (
        #[trigger] o[j]).0 implies m.contains((b[i].0, merged(b[i].1, o[j].1))) by {
        law_merge_goes_name_by_name(b, over, o.len(), b[i].0);
        lemma_place_is(b, b[i].0, i as nat);
        lemma_place_is(o, b[i].0, j as nat);
        lemma_value_there(m, b[i].0, merged(b[i].1, o[j].1));
    }
}

proof fn lemma_value_there(v: Seq<(Seq<char>, JsonState)>, name: Seq<char>, value: JsonState)
    requires
        value_of(v, name) == Some(value),
    ensures
        v.contains((name, value)),
{
    lemma_place_of_name(v, name, 0);
    let i = place_of_name(v, name, 0) as int;
    assert(v[i] == (name, value));
}

} // verus!
