//! Numbers of component types, change ticks, and errors of serialization.

use vstd::prelude::*;
use vstd::string::StringExecFns;

verus! {

/// Number of a registered component type.
#[derive(Clone, Copy, PartialEq, Eq, Hash, Debug, PartialOrd, Ord, Structural)]
pub struct ComponentId(pub u32);

/// The number that no component type has: it stands for "not registered".
pub const INVALID_ID: u32 = 0xFFFF_FFFF;

impl ComponentId {
    /// The id that no component type has.
    pub fn invalid() -> (id: ComponentId)
        ensures
            id.0 == INVALID_ID,
    {
        ComponentId(INVALID_ID)
    }
}

/// A point in the world's change history. Ticks wrap around.
#[derive(Clone, Copy, PartialEq, Eq, PartialOrd, Ord, Debug, Structural)]
pub struct Tick(pub u32);

/// Largest age of a change tick that a periodic clamp leaves as it is.
pub const MAX_CHANGE_AGE: u32 = 0x4000_0000;

/// How far `later` is ahead of `earlier`, around the wrap.
pub open spec fn ahead(later: u32, earlier: u32) -> int {
    if later >= earlier {
        later - earlier
    } else {
        later - earlier + 0x1_0000_0000
    }
}

/// Whether a change at `t` came after a run at `last_run`: the difference, around the wrap, is
/// positive as a signed number.
pub open spec fn newer(t: Tick, last_run: Tick) -> bool {
    0 < ahead(t.0, last_run.0) < 0x8000_0000
}

/// The tick pulled up to the largest age, if it is older.
pub open spec fn clamped(t: Tick, current: Tick) -> Tick {
    if ahead(current.0, t.0) > MAX_CHANGE_AGE {
        if current.0 >= MAX_CHANGE_AGE {
            Tick((current.0 - MAX_CHANGE_AGE) as u32)
        } else {
            Tick((current.0 - MAX_CHANGE_AGE + 0x1_0000_0000) as u32)
        }
    } else {
        t
    }
}

impl Tick {
    /// The tick before the first one.
    pub fn zero() -> (t: Tick)
        ensures
            t.0 == 0,
    {
        Tick(0)
    }

    /// Whether a change at this tick came after a run at `last_run`.
    pub fn is_newer_than(self, last_run: Tick) -> (b: bool)
        ensures
            b == newer(self, last_run),
    {
        let d: u32 = self.0.wrapping_sub(last_run.0);
        0 < d && d < 0x8000_0000
    }

    /// Pulls the tick up to the largest age from `current`, and tells whether it was older.
    pub fn check_against(&mut self, current: Tick) -> (clamp: bool)
        ensures
            *final(self) == clamped(*old(self), current),
            clamp == (ahead(current.0, old(self).0) > MAX_CHANGE_AGE),
    {
        if current.0.wrapping_sub(self.0) > MAX_CHANGE_AGE {
            self.0 = current.0.wrapping_sub(MAX_CHANGE_AGE);
            true
        } else {
            false
        }
    }
}

impl Default for Tick {
    fn default() -> (t: Tick)
        ensures
            t.0 == 0,
    {
        Tick(0)
    }
}

/// The tick that comes `d` ticks after `t`, around the wrap.
pub open spec fn ticks_after(t: Tick, d: int) -> Tick {
    Tick(((t.0 + d) % 0x1_0000_0000) as u32)
}

/// A change is newer than a run where it came after it by no more than half the range of ticks,
/// wherever the wrap lies. At the tick of the run, or more than half the range after it, which is
/// before it around the wrap, it is not.
pub proof fn law_newer_is_after_the_run(last_run: Tick, d: int)
    requires
        0 <= d < 0x1_0000_0000,
    ensures
        newer(ticks_after(last_run, d), last_run) <==> 1 <= d <= i32::MAX,
{
    if last_run.0 + d < 0x1_0000_0000 {
        assert((last_run.0 + d) % 0x1_0000_0000 == last_run.0 + d);
    } else {
        assert((last_run.0 + d) % 0x1_0000_0000 == last_run.0 + d - 0x1_0000_0000);
    }
}

/// Short of a wrap, ticks order as numbers do; a tick behind the wrap is newer than one before it.
/// Of two ticks no more than one is newer than the other.
pub proof fn law_newer_orders_ticks(a: Tick, b: Tick)
    ensures
        a.0 < b.0 <= a.0 + i32::MAX ==> newer(b, a) && !newer(a, b),
        b.0 < a.0 && b.0 + 0x1_0000_0000 - a.0 <= i32::MAX ==> newer(b, a) && !newer(a, b),
        newer(b, a) ==> 0 < b.0 - a.0 <= i32::MAX || 0 < b.0 + 0x1_0000_0000 - a.0 <= i32::MAX,
        !newer(a, a),
        newer(a, b) ==> !newer(b, a),
{
}

/// The clamp leaves a tick of no more than the largest age as it is, and gives every older one that
/// age.
pub proof fn law_clamp_bounds_the_age(current: Tick, age: int)
    requires
        0 <= age < 0x1_0000_0000,
    ensures
        clamped(ticks_after(current, -age), current) == if age <= 0x4000_0000 {
            ticks_after(current, -age)
        } else {
            ticks_after(current, -0x4000_0000)
        },
{
    assert(forall|x: int|
        0 <= x < 0x1_0000_0000 ==> #[trigger] ((current.0 - x) % 0x1_0000_0000) == if x
            <= current.0 {
            current.0 - x
        } else {
            current.0 - x + 0x1_0000_0000
        });
    assert((current.0 + -age) % 0x1_0000_0000 == (current.0 - age) % 0x1_0000_0000);
    assert((current.0 + -0x4000_0000) % 0x1_0000_0000 == (current.0 - 0x4000_0000)
        % 0x1_0000_0000);
}

/// The clamp does not change what a run sees: for a run no older than the largest age, a change
/// that is not half the range old is newer after the clamp exactly where it was before.
pub proof fn law_clamp_keeps_what_is_newer(t: Tick, last_run: Tick, current: Tick)
    requires
        ahead(current.0, t.0) < 0x8000_0000,
        ahead(current.0, last_run.0) <= MAX_CHANGE_AGE,
    ensures
        newer(clamped(t, current), last_run) == newer(t, last_run),
        ahead(current.0, clamped(t, current).0) <= MAX_CHANGE_AGE,
{
}

/// Why a component cannot be turned into bytes, or bytes into a component.
pub enum ComponentSerdeError {
    SerializationFailed(String),
    DeserializationFailed(String),
    FormatMismatch { expected: &'static str },
}

/// The text of an error.
pub open spec fn serde_error_text(e: ComponentSerdeError) -> Seq<char> {
    match e {
        ComponentSerdeError::SerializationFailed(s) => "serialize failed: "@ + s@,
        ComponentSerdeError::DeserializationFailed(s) => "deserialize failed: "@ + s@,
        ComponentSerdeError::FormatMismatch { expected } => "format mismatch, expected "@
            + expected@,
    }
}

impl ComponentSerdeError {
    /// The error in words.
    pub fn text(&self) -> (t: String)
        ensures
            t@ == serde_error_text(*self),
    {
        match self {
            ComponentSerdeError::SerializationFailed(s) => {
                let mut t: String = "serialize failed: ".to_owned();
                t.append(s.as_str());
                t
            },
            ComponentSerdeError::DeserializationFailed(s) => {
                let mut t: String = "deserialize failed: ".to_owned();
                t.append(s.as_str());
                t
            },
            ComponentSerdeError::FormatMismatch { expected } => {
                let mut t: String = "format mismatch, expected ".to_owned();
                t.append(expected);
                t
            },
        }
    }
}

} // verus!
