//! The trace modes of the state machine tracer, the flags of the default tracer, and the
//! trace control events ("trace.<mode>.<on|off>").

use vstd::prelude::*;
use vstd::string::*;
use crate::fsm::spells_word;
use crate::collections::{set_add, lemma_set_add_contains};

verus! {

/// Trace mode for FSM Tracer.
#[derive(PartialEq, Eq, Structural, Clone, Copy, Debug, Hash)]
pub enum TraceMode {
    METHODS,
    STATES,
    EVENTS,
    ARGUMENTS,
    RESULTS,
    ALL,
    NONE,
}

/// The mode that a name denotes, in any letter case: "methods", "states", "events",
/// "arguments", "results" or "all".
pub open spec fn mode_named(name: Seq<char>) -> Option<TraceMode> {
    if spells_word(name, seq!['m', 'e', 't', 'h', 'o', 'd', 's']) {
        Some(TraceMode::METHODS)
    } else if spells_word(name, seq!['s', 't', 'a', 't', 'e', 's']) {
        Some(TraceMode::STATES)
    } else if spells_word(name, seq!['e', 'v', 'e', 'n', 't', 's']) {
        Some(TraceMode::EVENTS)
    } else if spells_word(name, seq!['a', 'r', 'g', 'u', 'm', 'e', 'n', 't', 's']) {
        Some(TraceMode::ARGUMENTS)
    } else if spells_word(name, seq!['r', 'e', 's', 'u', 'l', 't', 's']) {
        Some(TraceMode::RESULTS)
    } else if spells_word(name, seq!['a', 'l', 'l']) {
        Some(TraceMode::ALL)
    } else {
        None
    }
}

/// Whether `s` spells the lower-case ASCII word `w` in any letter case.
fn spells_text(s: &str, w: &str) -> (r: bool)
    ensures
        r == spells_word(s@, w@),
{
    let n = s.unicode_len();
    if n != w.unicode_len() {
        return false;
    }
    let mut i: usize = 0;
    while i < n
        invariant
            n == s@.len(),
            n == w@.len(),
            i <= n,
            forall|j: int| 0 <= j < i ==> #[trigger] s@[j] == w@[j] || s@[j] as u32 + 32 == w@[j] as u32,
        decreases n - i,
    {
        let c = s.get_char(i);
        let d = w.get_char(i);
        if !(c == d || (c as u32) + 32 == d as u32) {
            return false;
        }
        i = i + 1;
    }
    true
}

impl TraceMode {
    /// The mode that `input` names, in any letter case.
    pub fn from_name(input: &str) -> (r: Option<TraceMode>)
        ensures
            r == mode_named(input@),
    {
        proof {
            reveal_strlit("methods");
            reveal_strlit("states");
            reveal_strlit("events");
            reveal_strlit("arguments");
            reveal_strlit("results");
            reveal_strlit("all");
        }
        if spells_text(input, "methods") {
            Some(TraceMode::METHODS)
        } else if spells_text(input, "states") {
            Some(TraceMode::STATES)
        } else if spells_text(input, "events") {
            Some(TraceMode::EVENTS)
        } else if spells_text(input, "arguments") {
            Some(TraceMode::ARGUMENTS)
        } else if spells_text(input, "results") {
            Some(TraceMode::RESULTS)
        } else if spells_text(input, "all") {
            Some(TraceMode::ALL)
        } else {
            None
        }
    }

    /// The value of the named argument "trace", if there is one.
    pub open spec fn trace_argument(named: Seq<(&'static str, String)>) -> Option<Seq<char>>
        decreases named.len(),
    {
        if named.len() == 0 {
            None
        } else if named[0].0@ == seq!['t', 'r', 'a', 'c', 'e'] {
            Some(named[0].1@)
        } else {
            Self::trace_argument(named.drop_first())
        }
    }

    /// Parses the trace mode from the named program arguments: the mode that the value of
    /// "trace" names, STATES without one.
    pub fn from_arguments(named_arguments: &[(&'static str, String)]) -> (r: TraceMode)
        requires
            Self::trace_argument(named_arguments@) matches Some(v) ==> mode_named(v) is Some,
        ensures
            match Self::trace_argument(named_arguments@) {
                Some(v) => Some(r) == mode_named(v),
                None => r == TraceMode::STATES,
            },
    {
        proof {
            reveal_strlit("trace");
            assert("trace"@ =~= seq!['t', 'r', 'a', 'c', 'e']);
        }
        let mut i: usize = 0;
        assert(named_arguments@.skip(0) =~= named_arguments@);
        while i < named_arguments.len()
            invariant
                i <= named_arguments@.len(),
                "trace"@ == seq!['t', 'r', 'a', 'c', 'e'],
                Self::trace_argument(named_arguments@) matches Some(v) ==> mode_named(v) is Some,
                Self::trace_argument(named_arguments@) == Self::trace_argument(
                    named_arguments@.skip(i as int),
                ),
            decreases named_arguments@.len() - i,
        {
            let (name, value) = &named_arguments[i];
            assert(named_arguments@.skip(i as int)[0] == named_arguments@[i as int]);
            assert(named_arguments@.skip(i as int).drop_first() =~= named_arguments@.skip(i + 1));
            if same_str(name, "trace") {
                match TraceMode::from_name(value.as_str()) {
                    Some(t) => {
                        return t;
                    },
                    None => {
                        return vstd::pervasive::unreached();
                    },
                }
            }
            i = i + 1;
        }
        assert(named_arguments@.skip(i as int) =~= Seq::<(&'static str, String)>::empty());
        TraceMode::STATES
    }
}

impl std::str::FromStr for TraceMode {
    type Err = ();

    fn from_str(input: &str) -> (r: Result<TraceMode, ()>)
        ensures
            match mode_named(input@) {
                Some(t) => r == Ok::<TraceMode, ()>(t),
                None => r is Err,
            },
    {
        match TraceMode::from_name(input) {
            Some(t) => Ok(t),
            None => Err(()),
        }
    }
}

/// Whether two texts are equal.
fn same_str(a: &str, b: &str) -> (r: bool)
    ensures
        r == (a@ == b@),
{
    let n = a.unicode_len();
    if n != b.unicode_len() {
        return false;
    }
    let mut i: usize = 0;
    while i < n
        invariant
            n == a@.len(),
            n == b@.len(),
            i <= n,
            forall|j: int| 0 <= j < i ==> a@[j] == b@[j],
        decreases n - i,
    {
        if a.get_char(i) != b.get_char(i) {
            return false;
        }
        i = i + 1;
    }
    assert(a@ =~= b@);
    true
}

/// What a trace control event asks for.
#[derive(PartialEq, Eq, Structural, Debug)]
pub enum TraceRequest {
    /// The event is no trace control event.
    NoRequest,
    /// Switch the mode on.
    Enable(TraceMode),
    /// Switch the mode off.
    Disable(TraceMode),
    /// The flag is neither "On" nor "Off" (in the three accepted spellings).
    IllegalFlag,
    /// The mode is unknown.
    UnknownMode,
}

/// The only '.' of `rest` is at `j`.
pub open spec fn single_dot_at(rest: Seq<char>, j: int) -> bool {
    0 <= j < rest.len() && rest[j] == '.' && (forall|i: int|
        0 <= i < rest.len() && i != j ==> #[trigger] rest[i] != '.')
}

/// The name starts with "trace." and has exactly two dots: the text between them and the
/// text after the second.
pub open spec fn trace_parts(name: Seq<char>) -> Option<(Seq<char>, Seq<char>)> {
    let rest = name.skip(6);
    if name.len() >= 6 && name.take(6) == seq!['t', 'r', 'a', 'c', 'e', '.'] && (exists|j: int|
        single_dot_at(rest, j)) {
        let j = choose|j: int| single_dot_at(rest, j);
        Some((rest.take(j), rest.skip(j + 1)))
    } else {
        None
    }
}

/// "on", "ON" or "On".
pub open spec fn is_on_flag(f: Seq<char>) -> bool {
    f == seq!['o', 'n'] || f == seq!['O', 'N'] || f == seq!['O', 'n']
}

/// "off", "OFF" or "Off".
pub open spec fn is_off_flag(f: Seq<char>) -> bool {
    f == seq!['o', 'f', 'f'] || f == seq!['O', 'F', 'F'] || f == seq!['O', 'f', 'f']
}

/// The request of a trace control event named `name`.
pub open spec fn trace_request(name: Seq<char>) -> TraceRequest {
    match trace_parts(name) {
        None => TraceRequest::NoRequest,
        Some((mode, flag)) => match mode_named(mode) {
            None => TraceRequest::UnknownMode,
            Some(t) => if is_on_flag(flag) {
                TraceRequest::Enable(t)
            } else if is_off_flag(flag) {
                TraceRequest::Disable(t)
            } else {
                TraceRequest::IllegalFlag
            },
        },
    }
}

/// The tracer that keeps the enabled trace modes.
pub struct DefaultTracer {
    pub trace_flags: Vec<TraceMode>,
}

impl View for DefaultTracer {
    type V = Set<TraceMode>;

    open spec fn view(&self) -> Set<TraceMode> {
        self.trace_flags@.to_set()
    }
}

impl DefaultTracer {
    /// A tracer with no mode enabled.
    pub fn new() -> (r: DefaultTracer)
        ensures
            r@ == Set::<TraceMode>::empty(),
    {
        let r = DefaultTracer { trace_flags: Vec::new() };
        assert(r@ =~= Set::<TraceMode>::empty());
        r
    }

    /// Whether `flag` is among the enabled modes.
    fn has_flag(&self, flag: TraceMode) -> (r: bool)
        ensures
            r == self@.contains(flag),
    {
        let mut i: usize = 0;
        while i < self.trace_flags.len()
            invariant
                i <= self.trace_flags@.len(),
                forall|j: int| 0 <= j < i ==> self.trace_flags@[j] != flag,
            decreases self.trace_flags@.len() - i,
        {
            if self.trace_flags[i] == flag {
                assert(self.trace_flags@.contains(flag));
                return true;
            }
            i = i + 1;
        }
        assert(!self.trace_flags@.contains(flag));
        false
    }

    /// Enable traces for the specified scope.
    pub fn enable_trace(&mut self, flag: TraceMode)
        ensures
            final(self)@ == old(self)@.insert(flag),
    {
        if !self.has_flag(flag) {
            self.trace_flags.push(flag);
        }
        proof {
            assert(self.trace_flags@ == set_add(old(self).trace_flags@, flag));
            lemma_set_add_contains(old(self).trace_flags@, flag);
        }
        assert(self@ =~= old(self)@.insert(flag));
    }

    /// Disable traces for the specified scope.
    pub fn disable_trace(&mut self, flag: TraceMode)
        ensures
            final(self)@ == old(self)@.remove(flag),
    {
        broadcast use vstd::seq_lib::group_filter_ensures;

        let mut kept: Vec<TraceMode> = Vec::new();
        let ghost all = self.trace_flags@;
        let ghost pred = |x: TraceMode| x != flag;
        let mut i: usize = 0;
        while i < self.trace_flags.len()
            invariant
                self.trace_flags@ == all,
                pred == (|x: TraceMode| x != flag),
                i <= all.len(),
                kept@ == all.take(i as int).filter(pred),
            decreases all.len() - i,
        {
            let f = self.trace_flags[i];
            proof {
                assert(all.take(i + 1) =~= all.take(i as int).push(f));
                all.take(i as int).lemma_filter_push(f, pred);
            }
            if f != flag {
                kept.push(f);
            }
            i = i + 1;
        }
        assert(all.take(all.len() as int) =~= all);
        self.trace_flags = kept;
        assert forall|x: TraceMode| self@.contains(x) <==> old(self)@.remove(flag).contains(x) by {
            if kept@.contains(x) {
                all.lemma_filter_contains_rev(pred, x);
                let k = choose|k: int| 0 <= k < kept@.len() && kept@[k] == x;
                all.lemma_filter_pred(pred, k);
            }
            if all.contains(x) && x != flag {
                let k = choose|k: int| 0 <= k < all.len() && all[k] == x;
                all.lemma_filter_contains(pred, k);
            }
        }
        assert(self@ =~= old(self)@.remove(flag));
    }

    /// Return true if the given scope is enabled, or all are.
    pub fn is_trace(&self, flag: TraceMode) -> (r: bool)
        ensures
            r == (self@.contains(flag) || self@.contains(TraceMode::ALL)),
    {
        self.has_flag(flag) || self.has_flag(TraceMode::ALL)
    }

    /// The widest enabled mode among ALL, EVENTS, STATES and METHODS, or NONE.
    pub fn trace_mode(&self) -> (r: TraceMode)
        ensures
            r == (if self@.contains(TraceMode::ALL) {
                TraceMode::ALL
            } else if self@.contains(TraceMode::EVENTS) {
                TraceMode::EVENTS
            } else if self@.contains(TraceMode::STATES) {
                TraceMode::STATES
            } else if self@.contains(TraceMode::METHODS) {
                TraceMode::METHODS
            } else {
                TraceMode::NONE
            }),
    {
        if self.is_trace(TraceMode::ALL) {
            TraceMode::ALL
        } else if self.is_trace(TraceMode::EVENTS) {
            TraceMode::EVENTS
        } else if self.is_trace(TraceMode::STATES) {
            TraceMode::STATES
        } else if self.is_trace(TraceMode::METHODS) {
            TraceMode::METHODS
        } else {
            TraceMode::NONE
        }
    }

    /// Handles a trace control event: "trace.<mode>.<flag>" switches the mode on for the
    /// flag "on", "ON" or "On" and off for "off", "OFF" or "Off". Returns the request, so
    /// that the caller can report an illegal flag or an unknown mode.
    pub fn event_external_received(&mut self, name: &str) -> (r: TraceRequest)
        ensures
            r == trace_request(name@),
            final(self)@ == match r {
                TraceRequest::Enable(t) => old(self)@.insert(t),
                TraceRequest::Disable(t) => old(self)@.remove(t),
                _ => old(self)@,
            },
    {
        let req = parse_trace_request(name);
        match req {
            TraceRequest::Enable(t) => self.enable_trace(t),
            TraceRequest::Disable(t) => self.disable_trace(t),
            _ => {},
        }
        req
    }
}

/// A text with one '.' only has it at one place.
pub proof fn lemma_single_dot_unique(rest: Seq<char>, j: int)
    requires
        single_dot_at(rest, j),
    ensures
        forall|c: int| #[trigger] single_dot_at(rest, c) ==> c == j,
{
    assert forall|c: int| #[trigger] single_dot_at(rest, c) implies c == j by {
        if c != j {
            assert(rest[j] != '.');
        }
    }
}

/// The position of the only '.' in `name` after its first `from` characters, if it has
/// exactly one there.
#[verifier::spinoff_prover]
fn find_single_dot(name: &str, from: usize) -> (r: Option<usize>)
    requires
        from <= name@.len(),
    ensures
        match r {
            Some(d) => from <= d && single_dot_at(name@.skip(from as int), d - from),
            None => forall|j: int| !#[trigger] single_dot_at(name@.skip(from as int), j),
        },
{
    let n = name.unicode_len();
    let ghost rest = name@.skip(from as int);
    let mut dot: usize = 0;
    let mut count: usize = 0;
    let mut i: usize = from;
    while i < n
        invariant
            n == name@.len(),
            rest == name@.skip(from as int),
            from <= i <= n,
            count <= 2,
            count == 0 ==> forall|k: int| 0 <= k < i - from ==> rest[k] != '.',
            count == 1 ==> from <= dot < i && rest[dot - from] == '.' && forall|k: int|
                0 <= k < i - from && k != dot - from ==> rest[k] != '.',
            count == 2 ==> exists|a: int, b: int|
                0 <= a < b < rest.len() && rest[a] == '.' && rest[b] == '.',
        decreases n - i,
    {
        if name.get_char(i) == '.' {
            if count == 0 {
                dot = i;
                count = 1;
            } else if count == 1 {
                assert(rest[dot - from] == '.' && rest[i - from] == '.');
                count = 2;
            }
        }
        i = i + 1;
    }
    if count == 1 {
        return Some(dot);
    }
    proof {
        if count == 2 {
            let (a, b) = choose|a: int, b: int|
                0 <= a < b < rest.len() && rest[a] == '.' && rest[b] == '.';
            assert forall|j: int| !#[trigger] single_dot_at(rest, j) by {
                if single_dot_at(rest, j) {
                    if j == a {
                        assert(rest[b] != '.');
                    } else {
                        assert(rest[a] != '.');
                    }
                }
            }
        }
    }
    None
}

/// The request of a trace control event named `name`.
#[verifier::spinoff_prover]
fn parse_trace_request(name: &str) -> (r: TraceRequest)
    ensures
        r == trace_request(name@),
{
    let n = name.unicode_len();
    proof {
        reveal_strlit("trace.");
        assert("trace."@ =~= seq!['t', 'r', 'a', 'c', 'e', '.']);
    }
    if n < 6 || !same_str(name.substring_char(0, 6), "trace.") {
        proof {
            if n >= 6 {
                assert(name@.take(6) =~= name@.subrange(0, 6));
            }
        }
        return TraceRequest::NoRequest;
    }
    let ghost rest = name@.skip(6);
    proof {
        assert(name@.take(6) =~= name@.subrange(0, 6));
    }
    let dot = match find_single_dot(name, 6) {
        None => {
            proof {
                assert(!(exists|j: int| single_dot_at(rest, j)));
            }
            return TraceRequest::NoRequest;
        },
        Some(d) => d,
    };
    proof {
        lemma_single_dot_unique(rest, dot - 6);
        let c = choose|c: int| single_dot_at(rest, c);
        assert(single_dot_at(rest, c));
        assert(c == dot - 6);
    }
    let mode = name.substring_char(6, dot);
    let flag = name.substring_char(dot + 1, n);
    proof {
        assert(mode@ =~= rest.take(dot - 6));
        assert(flag@ =~= rest.skip(dot - 6 + 1));
        reveal_strlit("on");
        reveal_strlit("ON");
        reveal_strlit("On");
        reveal_strlit("off");
        reveal_strlit("OFF");
        reveal_strlit("Off");
        assert("on"@ =~= seq!['o', 'n']);
        assert("ON"@ =~= seq!['O', 'N']);
        assert("On"@ =~= seq!['O', 'n']);
        assert("off"@ =~= seq!['o', 'f', 'f']);
        assert("OFF"@ =~= seq!['O', 'F', 'F']);
        assert("Off"@ =~= seq!['O', 'f', 'f']);
        assert(trace_parts(name@) == Some((rest.take(dot - 6), rest.skip(dot - 6 + 1))));
    }
    match TraceMode::from_name(mode) {
        None => TraceRequest::UnknownMode,
        Some(t) => {
            if same_str(flag, "on") || same_str(flag, "ON") || same_str(flag, "On") {
                TraceRequest::Enable(t)
            } else if same_str(flag, "off") || same_str(flag, "OFF") || same_str(flag, "Off") {
                TraceRequest::Disable(t)
            } else {
                TraceRequest::IllegalFlag
            }
        },
    }
}

/// Creates default tracers.
pub struct DefaultTracerFactory {}

impl DefaultTracerFactory {
    /// A factory.
    pub fn new() -> (r: DefaultTracerFactory) {
        DefaultTracerFactory {  }
    }

    /// A new default tracer with no mode enabled.
    pub fn create(&mut self) -> (r: DefaultTracer)
        ensures
            r@ == Set::<TraceMode>::empty(),
    {
        DefaultTracer::new()
    }
}

/// A mode that was switched on is traced; one that was switched off is traced only while
/// all modes are on.
pub proof fn lemma_trace_switch(flags: Set<TraceMode>, t: TraceMode)
    ensures
        ({
            let on = flags.insert(t);
            on.contains(t) || on.contains(TraceMode::ALL)
        }),
        ({
            let off = flags.remove(t);
            (off.contains(t) || off.contains(TraceMode::ALL)) == (t != TraceMode::ALL && flags.contains(
                TraceMode::ALL,
            ))
        }),
{
}

} // verus!
