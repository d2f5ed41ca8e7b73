//! Error policy: what a world does about operations that it refuses or drops.
//!
//! Every such event is an [`Anomaly`]. A handler counts it and says how to respond to it: by a log
//! line, a panic, a call of the user's own, or not at all.

use vstd::prelude::*;
use vstd::string::{StrSliceExecFns, StringExecFns};
use crate::entity::Entity;
use crate::text::{decimal, push_decimal};

verus! {

/// How serious an anomaly is.
#[derive(Clone, Copy, PartialEq, Eq, Debug, Structural)]
pub enum Severity {
    /// The operation was skipped; the world stays valid.
    Warn,
    /// Data was lost, or an invariant is broken.
    Error,
}

/// An operation that was refused or dropped.
pub struct Anomaly {
    pub severity: Severity,
    /// The operation, such as `World::insert`.
    pub op: &'static str,
    /// The entity involved, if any.
    pub entity: Option<Entity>,
    /// Name of the component type involved, if any.
    pub component: Option<String>,
    /// What was dropped or refused, and why.
    pub detail: String,
}

/// The contents of an [`Anomaly`].
pub struct AnomalyState {
    pub severity: Severity,
    pub op: Seq<char>,
    pub entity: Option<Entity>,
    pub component: Option<Seq<char>>,
    pub detail: Seq<char>,
}

impl View for Anomaly {
    type V = AnomalyState;

    open spec fn view(&self) -> AnomalyState {
        AnomalyState {
            severity: self.severity,
            op: self.op@,
            entity: self.entity,
            component: match self.component {
                Some(c) => Some(c@),
                None => None,
            },
            detail: self.detail@,
        }
    }
}

/// The text of an anomaly: the operation, the component, the entity, and the explanation.
pub open spec fn anomaly_text(a: AnomalyState) -> Seq<char> {
    let head = match a.component {
        Some(c) => a.op + "::<"@ + c + ">"@,
        None => a.op,
    };
    let body = match a.entity {
        Some(e) => head + " on entity "@ + decimal(e.index as nat) + ":"@ + decimal(
            e.generation as nat,
        ),
        None => head,
    };
    body + " — "@ + a.detail
}

impl Anomaly {
    /// The text of the anomaly.
    pub fn text(&self) -> (out: String)
        ensures
            out@ == anomaly_text(self@),
    {
        let mut out: String = self.op.to_owned();
        if let Some(c) = &self.component {
            out.append("::<");
            out.append(c.as_str());
            out.append(">");
        }
        if let Some(e) = self.entity {
            out.append(" on entity ");
            push_decimal(&mut out, e.index);
            out.append(":");
            push_decimal(&mut out, e.generation);
        }
        out.append(" — ");
        out.append(self.detail.as_str());
        out
    }
}

/// What a handler does about an anomaly.
#[derive(Clone, Copy, PartialEq, Eq, Debug, Structural)]
pub enum ErrorMode {
    /// A log line, once per call site.
    Warn,
    /// A panic.
    Panic,
    /// Nothing but counting.
    Silent,
    /// A call of the user's callback with this handle.
    Custom(u64),
}

/// The name of a mode.
pub open spec fn mode_text(mode: ErrorMode) -> Seq<char> {
    match mode {
        ErrorMode::Warn => "Warn"@,
        ErrorMode::Panic => "Panic"@,
        ErrorMode::Silent => "Silent"@,
        ErrorMode::Custom(_) => "Custom(..)"@,
    }
}

impl ErrorMode {
    /// The name of the mode.
    pub fn text(&self) -> (s: &'static str)
        ensures
            s@ == mode_text(*self),
    {
        match self {
            ErrorMode::Warn => "Warn",
            ErrorMode::Panic => "Panic",
            ErrorMode::Silent => "Silent",
            ErrorMode::Custom(_) => "Custom(..)",
        }
    }
}

/// Numbers of anomalies.
#[derive(Clone, Copy, PartialEq, Eq, Debug, Structural)]
pub struct AnomalyCounts {
    pub warn: u64,
    pub error: u64,
}

impl AnomalyCounts {
    /// Number of anomalies of either severity.
    pub fn total(&self) -> (n: u64)
        requires
            self.warn + self.error <= u64::MAX,
        ensures
            n == self.warn + self.error,
    {
        self.warn + self.error
    }
}

impl Default for AnomalyCounts {
    fn default() -> (c: AnomalyCounts)
        ensures
            c.warn == 0,
            c.error == 0,
    {
        AnomalyCounts { warn: 0, error: 0 }
    }
}

/// What the caller has to do about an anomaly.
pub enum Response {
    Nothing,
    /// Write a line to the log.
    Log(Severity, String),
    /// Panic with a message.
    Panic(String),
    /// Call the callback with this handle.
    Call(u64),
}

/// The count after one more: it wraps.
pub open spec fn count_after(n: u64) -> u64 {
    if n == u64::MAX {
        0
    } else {
        (n + 1) as u64
    }
}

/// The counts after an anomaly.
pub open spec fn counted(c: AnomalyCounts, severity: Severity) -> AnomalyCounts {
    match severity {
        Severity::Warn => AnomalyCounts { warn: count_after(c.warn), ..c },
        Severity::Error => AnomalyCounts { error: count_after(c.error), ..c },
    }
}

/// A world's policy for anomalies, and their numbers.
pub struct ErrorHandler {
    mode: ErrorMode,
    counts: AnomalyCounts,
}

impl ErrorHandler {
    /// The mode.
    pub closed spec fn spec_mode(&self) -> ErrorMode {
        self.mode
    }

    /// The numbers of anomalies so far.
    pub closed spec fn spec_counts(&self) -> AnomalyCounts {
        self.counts
    }

    /// A handler that has counted nothing.
    pub fn new(mode: ErrorMode) -> (h: ErrorHandler)
        ensures
            h.spec_mode() == mode,
            h.spec_counts() == (AnomalyCounts { warn: 0, error: 0 }),
    {
        ErrorHandler { mode, counts: AnomalyCounts { warn: 0, error: 0 } }
    }

    /// A handler with the mode that a setting names: `panic` or `silent`, in upper or lower case
    /// and with white space around; any other setting, and none, is the mode that logs.
    pub fn from_setting(value: Option<&str>) -> (h: ErrorHandler)
        ensures
            h.spec_counts() == (AnomalyCounts { warn: 0, error: 0 }),
            h.spec_mode() == match value {
                Some(v) => if spells(trimmed(v@), "panic"@, "PANIC"@) {
                    ErrorMode::Panic
                } else if spells(trimmed(v@), "silent"@, "SILENT"@) {
                    ErrorMode::Silent
                } else {
                    ErrorMode::Warn
                },
                None => ErrorMode::Warn,
            },
    {
        let mode = match value {
            Some(v) => {
                let word: &str = trim(v);
                proof {
                    reveal_strlit("panic");
                    reveal_strlit("PANIC");
                    reveal_strlit("silent");
                    reveal_strlit("SILENT");
                }
                if is_word(word, "panic", "PANIC") {
                    ErrorMode::Panic
                } else if is_word(word, "silent", "SILENT") {
                    ErrorMode::Silent
                } else {
                    ErrorMode::Warn
                }
            },
            None => ErrorMode::Warn,
        };
        ErrorHandler::new(mode)
    }

    /// The mode.
    pub fn mode(&self) -> (m: ErrorMode)
        ensures
            m == self.spec_mode(),
    {
        self.mode
    }

    /// Sets the mode. The counts stay.
    pub fn set_mode(&mut self, mode: ErrorMode)
        ensures
            final(self).spec_mode() == mode,
            final(self).spec_counts() == old(self).spec_counts(),
    {
        self.mode = mode;
    }

    /// The numbers of anomalies so far.
    pub fn counts(&self) -> (c: AnomalyCounts)
        ensures
            c == self.spec_counts(),
    {
        self.counts
    }

    /// Starts counting anew.
    pub fn reset_counts(&mut self)
        ensures
            final(self).spec_mode() == old(self).spec_mode(),
            final(self).spec_counts() == (AnomalyCounts { warn: 0, error: 0 }),
    {
        self.counts = AnomalyCounts { warn: 0, error: 0 };
    }

    /// Counts an anomaly.
    pub fn count(&mut self, severity: Severity)
        ensures
            final(self).spec_mode() == old(self).spec_mode(),
            final(self).spec_counts() == counted(old(self).spec_counts(), severity),
    {
        match severity {
            Severity::Warn => {
                self.counts.warn = self.counts.warn.wrapping_add(1);
            },
            Severity::Error => {
                self.counts.error = self.counts.error.wrapping_add(1);
            },
        }
    }

    /// What is to be done about an anomaly. `throttle` tells whether the call site has logged
    /// before: then the mode that logs does nothing.
    pub fn respond(&self, anomaly: &Anomaly, throttle: &mut bool) -> (r: Response)
        ensures
            match self.spec_mode() {
                ErrorMode::Silent => r is Nothing,
                ErrorMode::Panic => r matches Response::Panic(t) && t@ == anomaly_text(anomaly@),
                ErrorMode::Custom(f) => r == Response::Call(f),
                ErrorMode::Warn => if *old(throttle) {
                    r is Nothing
                } else {
                    r matches Response::Log(s, t) && s == anomaly.severity && t@ == anomaly_text(
                        anomaly@,
                    )
                },
            },
            *final(throttle) == (*old(throttle) || self.spec_mode() is Warn),
    {
        match self.mode {
            ErrorMode::Silent => Response::Nothing,
            ErrorMode::Panic => Response::Panic(anomaly.text()),
            ErrorMode::Custom(f) => Response::Call(f),
            ErrorMode::Warn => {
                if *throttle {
                    Response::Nothing
                } else {
                    *throttle = true;
                    Response::Log(anomaly.severity, anomaly.text())
                }
            },
        }
    }

    /// Counts an anomaly and tells what is to be done about it.
    pub fn report(&mut self, anomaly: &Anomaly, throttle: &mut bool) -> (r: Response)
        ensures
            final(self).spec_mode() == old(self).spec_mode(),
            final(self).spec_counts() == counted(old(self).spec_counts(), anomaly.severity),
            match old(self).spec_mode() {
                ErrorMode::Silent => r is Nothing,
                ErrorMode::Panic => r matches Response::Panic(t) && t@ == anomaly_text(anomaly@),
                ErrorMode::Custom(f) => r == Response::Call(f),
                ErrorMode::Warn => if *old(throttle) {
                    r is Nothing
                } else {
                    r matches Response::Log(s, t) && s == anomaly.severity && t@ == anomaly_text(
                        anomaly@,
                    )
                },
            },
            *final(throttle) == (*old(throttle) || old(self).spec_mode() is Warn),
    {
        self.count(anomaly.severity);
        self.respond(anomaly, throttle)
    }
}

impl Default for ErrorHandler {
    fn default() -> (h: ErrorHandler)
        ensures
            h.spec_mode() == ErrorMode::Warn,
            h.spec_counts() == (AnomalyCounts { warn: 0, error: 0 }),
    {
        ErrorHandler::new(ErrorMode::Warn)
    }
}

/// Whether a character is white space: it has the Unicode property of that name.
pub open spec fn white_space(c: char) -> bool {
    ||| '\u{9}' <= c <= '\u{d}'
    ||| c == '\u{20}'
    ||| c == '\u{85}'
    ||| c == '\u{a0}'
    ||| c == '\u{1680}'
    ||| '\u{2000}' <= c <= '\u{200a}'
    ||| c == '\u{2028}'
    ||| c == '\u{2029}'
    ||| c == '\u{202f}'
    ||| c == '\u{205f}'
    ||| c == '\u{3000}'
}

/// Whether a character is white space.
fn is_whitespace(c: char) -> (b: bool)
    ensures
        b == white_space(c),
{
    ('\u{9}' <= c && c <= '\u{d}') || c == '\u{20}' || c == '\u{85}' || c == '\u{a0}' || c
        == '\u{1680}' || ('\u{2000}' <= c && c <= '\u{200a}') || c == '\u{2028}' || c
        == '\u{2029}' || c == '\u{202f}' || c == '\u{205f}' || c == '\u{3000}'
}

/// Number of characters at the start of `s`, from `from` on, that are white space.
pub open spec fn leading(s: Seq<char>, from: nat) -> nat
    decreases s.len() - from,
{
    if from < s.len() && white_space(s[from as int]) {
        leading(s, from + 1)
    } else {
        from
    }
}

/// Where the white space at the end of the first `n` characters of `s` starts, not before `low`.
pub open spec fn trailing(s: Seq<char>, n: nat, low: nat) -> nat
    decreases n,
{
    if n > low && n <= s.len() && white_space(s[n - 1]) {
        trailing(s, (n - 1) as nat, low)
    } else {
        n
    }
}

/// `s` without the white space around it.
pub open spec fn trimmed(s: Seq<char>) -> Seq<char> {
    let a = leading(s, 0);
    s.subrange(a as int, trailing(s, s.len(), a) as int)
}

fn trim(s: &str) -> (t: &str)
    ensures
        t@ == trimmed(s@),
{
    let len: usize = s.unicode_len();
    let mut a: usize = 0;
    while a < len && is_whitespace(s.get_char(a))
        invariant
            a <= len == s@.len(),
            leading(s@, 0) == leading(s@, a as nat),
        decreases len - a,
    {
        a = a + 1;
    }
    let mut n: usize = len;
    while n > a && is_whitespace(s.get_char(n - 1))
        invariant
            a <= n <= len == s@.len(),
            trailing(s@, len as nat, a as nat) == trailing(s@, n as nat, a as nat),
        decreases n,
    {
        n = n - 1;
    }
    s.substring_char(a, n)
}

/// Whether `s` is the word that `lower` and `upper` spell, in any mixture of the two cases.
pub open spec fn spells(s: Seq<char>, lower: Seq<char>, upper: Seq<char>) -> bool {
    s.len() == lower.len() && forall|i: int|
        0 <= i < s.len() ==> (#[trigger] s[i]) == lower[i] || s[i] == upper[i]
}

fn is_word(s: &str, lower: &str, upper: &str) -> (b: bool)
    requires
        lower@.len() == upper@.len(),
    ensures
        b == spells(s@, lower@, upper@),
{
    let len: usize = s.unicode_len();
    if len != lower.unicode_len() {
        return false;
    }
    let mut i: usize = 0;
    while i < len
        invariant
            i <= len == s@.len(),
            len == lower@.len() == upper@.len(),
            forall|k: int| 0 <= k < i ==> (#[trigger] s@[k]) == lower@[k] || s@[k] == upper@[k],
        decreases len - i,
    {
        let c: char = s.get_char(i);
        if c != lower.get_char(i) && c != upper.get_char(i) {
            assert(s@[i as int] == c);
            return false;
        }
        i = i + 1;
    }
    true
}

} // verus!
