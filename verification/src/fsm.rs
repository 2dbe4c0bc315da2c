//! The state chart of a state machine and the parts of the W3C SCXML interpretation
//! algorithm that work on it: ancestry, child states, document order, transition
//! domains, exit sets, conflict resolution between transitions and history values.
//!
//! States and transitions are identified by ids that are their positions plus one in
//! `Fsm::states` and `Fsm::transitions`; the id 0 stands for "no state".

use vstd::prelude::*;
use crate::collections::{List, OrderedSet, HashTable, Queue, set_add, set_add_all, views};
use std::collections::HashMap;
use vstd::string::*;
use vstd::utf8::decode_utf8;
use crate::decimal::{i64_text, i64_to_string};

verus! {

/// How a history pseudo-state records the configuration.
#[derive(PartialEq, Eq, Structural, Clone, Copy, Debug)]
pub enum HistoryType {
    Shallow,
    Deep,
    Unset,
}

/// Whether a transition leaves its source state.
#[derive(PartialEq, Eq, Structural, Clone, Copy, Debug)]
pub enum TransitionType {
    Internal,
    External,
}

/// When the data model is initialized.
#[derive(PartialEq, Eq, Structural, Clone, Copy, Debug)]
pub enum BindingType {
    Early,
    Late,
}

/// The kind of an event.
#[allow(non_camel_case_types)]
#[derive(PartialEq, Eq, Structural, Clone, Copy, Debug)]
pub enum EventType {
    /// for events raised by the platform itself, such as error events
    platform,
    /// for events raised by \<raise\> and \<send\> with target '_internal'
    internal,
    /// for all other events
    external,
}

/// `s` spells the lower-case ASCII word `w`, each letter in lower or upper case.
pub open spec fn spells_word(s: Seq<char>, w: Seq<char>) -> bool {
    s.len() == w.len() && forall|i: int|
        0 <= i < s.len() ==> #[trigger] s[i] == w[i] || s[i] as u32 + 32 == w[i] as u32
}

/// Whether `ts` spells the lower-case ASCII word `w` in any letter case.
pub(crate) fn spells(ts: &String, w: &str) -> (r: bool)
    ensures
        r == spells_word(ts@, w@),
{
    let s = ts.as_str();
    let n = s.unicode_len();
    if n != w.unicode_len() {
        return false;
    }
    let mut i: usize = 0;
    while i < n
        invariant
            n == s@.len(),
            n == w@.len(),
            s@ == ts@,
            i <= n,
            forall|j: int| 0 <= j < i ==> #[trigger] s@[j] == w@[j] || s@[j] as u32 + 32 == w@[j] as u32,
        decreases n - i,
    {
        let c = s.get_char(i);
        let d = w.get_char(i);
        if !(c == d || (c as u32) + 32 == d as u32) {
            return false;
        }
        i = i + 1;
    }
    true
}

/// The words that name history types: "deep", "shallow" and the empty text.
pub open spec fn is_history_type_name(ts: Seq<char>) -> bool {
    spells_word(ts, seq!['d', 'e', 'e', 'p']) || spells_word(
        ts,
        seq!['s', 'h', 'a', 'l', 'l', 'o', 'w'],
    ) || ts.len() == 0
}

/// Maps the name of a history type (in any letter case) to the type: "deep", "shallow",
/// or the empty text for none.
pub fn map_history_type(ts: &String) -> (r: HistoryType)
    requires
        is_history_type_name(ts@),
    ensures
        spells_word(ts@, seq!['d', 'e', 'e', 'p']) ==> r == HistoryType::Deep,
        spells_word(ts@, seq!['s', 'h', 'a', 'l', 'l', 'o', 'w']) ==> r == HistoryType::Shallow,
        ts@.len() == 0 ==> r == HistoryType::Unset,
{
    proof {
        reveal_strlit("deep");
        reveal_strlit("shallow");
    }
    if spells(ts, "deep") {
        HistoryType::Deep
    } else if spells(ts, "shallow") {
        HistoryType::Shallow
    } else {
        HistoryType::Unset
    }
}

/// The words that name transition types: "internal", "external" and the empty text.
pub open spec fn is_transition_type_name(ts: Seq<char>) -> bool {
    spells_word(ts, seq!['i', 'n', 't', 'e', 'r', 'n', 'a', 'l']) || spells_word(
        ts,
        seq!['e', 'x', 't', 'e', 'r', 'n', 'a', 'l'],
    ) || ts.len() == 0
}

/// Whether `ts` names a history type.
pub fn is_history_type(ts: &String) -> (r: bool)
    ensures
        r == is_history_type_name(ts@),
{
    proof {
        reveal_strlit("deep");
        reveal_strlit("shallow");
    }
    spells(ts, "deep") || spells(ts, "shallow") || ts.as_str().unicode_len() == 0
}

/// Whether `ts` names a transition type.
pub fn is_transition_type(ts: &String) -> (r: bool)
    ensures
        r == is_transition_type_name(ts@),
{
    proof {
        reveal_strlit("internal");
        reveal_strlit("external");
    }
    spells(ts, "internal") || spells(ts, "external") || ts.as_str().unicode_len() == 0
}

/// Maps the name of a transition type (in any letter case) to the type: "internal",
/// "external", or the empty text for external.
pub fn map_transition_type(ts: &String) -> (r: TransitionType)
    requires
        is_transition_type_name(ts@),
    ensures
        spells_word(ts@, seq!['i', 'n', 't', 'e', 'r', 'n', 'a', 'l']) ==> r
            == TransitionType::Internal,
        spells_word(ts@, seq!['e', 'x', 't', 'e', 'r', 'n', 'a', 'l']) ==> r
            == TransitionType::External,
        ts@.len() == 0 ==> r == TransitionType::External,
{
    proof {
        reveal_strlit("internal");
        if spells_word(ts@, seq!['e', 'x', 't', 'e', 'r', 'n', 'a', 'l']) {
            assert(ts@[0] == seq!['e', 'x', 't', 'e', 'r', 'n', 'a', 'l'][0] || ts@[0] as u32 + 32
                == seq!['e', 'x', 't', 'e', 'r', 'n', 'a', 'l'][0] as u32);
            assert(!spells_word(ts@, seq!['i', 'n', 't', 'e', 'r', 'n', 'a', 'l']));
        }
    }
    if spells(ts, "internal") {
        TransitionType::Internal
    } else {
        TransitionType::External
    }
}

/// The data of a done event.
#[derive(Clone, Copy, Debug)]
pub struct DoneData {}

/// #W3c says:
/// ##The Internal Structure of Events
/// Events have an internal structure which is reflected in the _event variable.
#[derive(Debug)]
pub struct Event {
    pub name: String,
    pub etype: EventType,
    pub sendid: u32,
    pub origin: String,
    pub origintype: String,
    pub invokeid: u32,
    pub data: Option<DoneData>,
}

/// `r` is the error event `kind` raised by the platform for the event `e`.
pub open spec fn is_error_for(e: Event, r: Event, kind: Seq<char>) -> bool {
    &&& r.name@ == seq!['e', 'r', 'r', 'o', 'r', '.'] + kind
    &&& r.etype == EventType::platform
    &&& r.sendid == e.sendid
    &&& r.invokeid == e.invokeid
    &&& r.origin@.len() == 0
    &&& r.origintype@.len() == 0
    &&& r.data is None
}

/// The name of the event that cancels a session: "session.cancel".
pub open spec fn cancel_session_name() -> Seq<char> {
    seq!['s', 'e', 's', 's', 'i', 'o', 'n', '.', 'c', 'a', 'n', 'c', 'e', 'l']
}

/// `e` is the event that cancels a session: an external event named
/// `cancel_session_name()`, with no ids, origin or data.
pub open spec fn is_cancel_session_event(e: Event) -> bool {
    &&& e.name@ == cancel_session_name()
    &&& e.etype == EventType::external
    &&& e.sendid == 0
    &&& e.invokeid == 0
    &&& e.origin@.len() == 0
    &&& e.origintype@.len() == 0
    &&& e.data is None
}

/// The cancel-session event is a cancel event: a session that receives it stops.
pub proof fn lemma_cancel_session_cancels()
    ensures
        is_cancel_name(cancel_session_name()),
{
    assert(cancel_session_name().subrange(7, 14) =~= seq!['.', 'c', 'a', 'n', 'c', 'e', 'l']);
}

impl Event {
    /// The event that cancels a session (see `is_cancel_session_event`).
    pub fn cancel_session() -> (r: Event)
        ensures
            is_cancel_session_event(r),
    {
        proof {
            reveal_strlit("session.cancel");
            assert("session.cancel"@ =~= cancel_session_name());
        }
        Event {
            name: String::from_str("session.cancel"),
            etype: EventType::external,
            sendid: 0,
            origin: String::new(),
            data: None,
            invokeid: 0,
            origintype: String::new(),
        }
    }

    /// An external event named by `prefix` followed by the decimal text of `id`, carrying
    /// `ev_data`.
    pub fn new(prefix: &str, id: u32, ev_data: &Option<DoneData>) -> (r: Event)
        ensures
            r.name@ == prefix@ + decode_utf8(i64_text(id as i64)),
            r.etype == EventType::external,
            r.sendid == 0,
            r.origin@.len() == 0,
            r.origintype@.len() == 0,
            r.invokeid == 0,
            r.data is Some <==> ev_data is Some,
    {
        let mut name = String::from_str(prefix);
        let digits = i64_to_string(id as i64);
        name.append(digits.as_str());
        Event {
            name,
            etype: EventType::external,
            sendid: 0,
            origin: String::new(),
            data: match ev_data {
                Some(_) => Some(DoneData {  }),
                None => None,
            },
            invokeid: 0,
            origintype: String::new(),
        }
    }

    /// An error event raised by the platform, named "error." followed by `name`.
    pub fn error(name: &str) -> (r: Event)
        ensures
            r.name@ == "error."@ + name@,
            r.etype == EventType::platform,
            r.sendid == 0,
            r.origin@.len() == 0,
            r.origintype@.len() == 0,
            r.invokeid == 0,
            r.data is None,
    {
        let mut full = String::from_str("error.");
        full.append(name);
        Event {
            name: full,
            etype: EventType::platform,
            sendid: 0,
            origin: String::new(),
            data: None,
            invokeid: 0,
            origintype: String::new(),
        }
    }

    /// The error event `kind` ("error." followed by `kind`) raised by the platform for the
    /// event `e`: it carries the send id and the invoke id of `e`.
    pub fn error_for(kind: &str, e: &Event) -> (r: Event)
        ensures
            is_error_for(*e, r, kind@),
    {
        let mut r = Event::error(kind);
        proof {
            reveal_strlit("error.");
            assert("error."@ =~= seq!['e', 'r', 'r', 'o', 'r', '.']);
        }
        r.sendid = e.sendid;
        r.invokeid = e.invokeid;
        r
    }

    /// A copy of the event.
    pub fn get_copy(&self) -> (r: Box<Event>)
        ensures
            r.name@ == self.name@,
            r.etype == self.etype,
            r.sendid == self.sendid,
            r.origin@ == self.origin@,
            r.origintype@ == self.origintype@,
            r.invokeid == self.invokeid,
            r.data is Some <==> self.data is Some,
    {
        Box::new(
            Event {
                invokeid: self.invokeid,
                data: match &self.data {
                    Some(_) => Some(DoneData {  }),
                    None => None,
                },
                name: self.name.clone(),
                etype: self.etype,
                sendid: self.sendid,
                origin: self.origin.clone(),
                origintype: self.origintype.clone(),
            },
        )
    }
}

/// `name` ends with ".cancel".
pub open spec fn is_cancel_name(name: Seq<char>) -> bool {
    let suffix = seq!['.', 'c', 'a', 'n', 'c', 'e', 'l'];
    name.len() >= 7 && name.subrange(name.len() - 7, name.len() as int) == suffix
}

impl Fsm {
    /// Whether one of `events` is the name `name`.
    #[allow(non_snake_case)]
    pub fn nameMatch(&self, events: &Vec<String>, name: &String) -> (r: bool)
        ensures
            r == exists|i: int| 0 <= i < events@.len() && #[trigger] events@[i]@ == name@,
    {
        let mut i: usize = 0;
        while i < events.len()
            invariant
                i <= events@.len(),
                forall|j: int| 0 <= j < i ==> #[trigger] events@[j]@ != name@,
            decreases events@.len() - i,
        {
            if events[i] == *name {
                return true;
            }
            i = i + 1;
        }
        false
    }

    /// Cancel events (an outer state machine cancels one that it started by an invoke) are
    /// the events whose name ends with ".cancel".
    #[allow(non_snake_case)]
    pub fn isCancelEvent(&self, ev: &Event) -> (r: bool)
        ensures
            r == is_cancel_name(ev.name@),
    {
        let s = ev.name.as_str();
        let suffix = ".cancel";
        proof {
            reveal_strlit(".cancel");
        }
        let n = s.unicode_len();
        if n < 7 {
            return false;
        }
        let mut i: usize = 0;
        while i < 7
            invariant
                n == s@.len(),
                s@ == ev.name@,
                n >= 7,
                suffix@ == seq!['.', 'c', 'a', 'n', 'c', 'e', 'l'],
                i <= 7,
                forall|j: int| 0 <= j < i ==> #[trigger] s@[n - 7 + j] == suffix@[j],
            decreases 7 - i,
        {
            if s.get_char(n - 7 + i) != suffix.get_char(i) {
                assert(s@.subrange(n - 7, n as int)[i as int] != suffix@[i as int]);
                return false;
            }
            i = i + 1;
        }
        assert forall|j: int| 0 <= j < 7 implies s@.subrange(n - 7, n as int)[j] == suffix@[j] by {
            assert(s@[n - 7 + j] == suffix@[j]);
        }
        assert(s@.subrange(n - 7, n as int) =~= suffix@);
        true
    }
}

/// What a tracer traces.
#[derive(PartialEq, Eq, Structural, Clone, Copy, Debug, Hash)]
pub enum Trace {
    METHODS,
    STATES,
    EVENTS,
    ARGUMENTS,
    RESULTS,
    ALL,
}

/// An invocation of an external service by a state.
#[derive(Debug)]
pub struct Invoke {
    pub doc_id: u32,
    pub id: u32,
    pub name: String,
    pub invokeid: u32,
    pub autoforward: bool,
}

/// Stores the parts of a state that the algorithm reads.
/// In this model "State" is used for SCXML elements "State" and "Parallel".
pub struct State {
    /// The internal id: the index of the state in `Fsm::states` plus one.
    pub id: u32,
    /// The unique id, counting in document order.
    pub doc_id: u32,
    /// The SCXML id.
    pub name: String,
    /// The initial transition id (if the state has sub-states), or 0.
    pub initial: u32,
    /// The ids of the sub-states of this state.
    pub states: Vec<u32>,
    /// True for "parallel" states.
    pub is_parallel: bool,
    /// True for "final" states.
    pub is_final: bool,
    pub history_type: HistoryType,
    /// The executable content run when the state is entered.
    pub onentry: Vec<u32>,
    /// The executable content run when the state is left.
    pub onexit: Vec<u32>,
    /// The ids of the transitions of this state.
    pub transitions: Vec<u32>,
    /// The ids of the history pseudo-states of this state.
    pub history: Vec<u32>,
    /// The id of the parent state, or 0.
    pub parent: u32,
    /// The data of the done event of a final state.
    pub donedata: Option<DoneData>,
    /// The invokes of the state, in document order.
    pub invoke: Vec<Invoke>,
}

impl State {
    /// A state with the given name and no relations yet.
    pub fn new(name: &String) -> (r: State)
        ensures
            r.name@ == name@,
            r.id == 0,
            r.doc_id == 0,
            r.initial == 0,
            r.states@.len() == 0,
            !r.is_parallel,
            !r.is_final,
            r.history_type == HistoryType::Unset,
            r.onentry@.len() == 0,
            r.onexit@.len() == 0,
            r.transitions@.len() == 0,
            r.history@.len() == 0,
            r.parent == 0,
            r.donedata is None,
            r.invoke@.len() == 0,
    {
        State {
            id: 0,
            doc_id: 0,
            name: name.clone(),
            initial: 0,
            states: Vec::new(),
            is_parallel: false,
            is_final: false,
            history_type: HistoryType::Unset,
            onentry: Vec::new(),
            onexit: Vec::new(),
            transitions: Vec::new(),
            history: Vec::new(),
            parent: 0,
            donedata: None,
            invoke: Vec::new(),
        }
    }
}

/// A transition between states.
pub struct Transition {
    /// The index of the transition in `Fsm::transitions` plus one.
    pub id: u32,
    pub doc_id: u32,
    /// The event names that trigger the transition; none for an eventless transition.
    pub events: Vec<String>,
    pub cond: Option<String>,
    pub source: u32,
    pub target: Vec<u32>,
    pub transition_type: TransitionType,
    pub content: u32,
}

/// The states and transitions of a state machine.
pub struct Fsm {
    /// The state that stands for the \<scxml\> element.
    pub pseudo_root: u32,
    /// The only real storage of states; the state with id `i` is at index `i - 1`.
    pub states: Vec<State>,
    /// The transitions; the transition with id `i` is at index `i - 1`.
    pub transitions: Vec<Transition>,
}

impl Fsm {
    /// `s` is the id of a state.
    pub open spec fn valid_state(&self, s: u32) -> bool {
        1 <= s <= self.states@.len()
    }

    /// The state with id `s`.
    pub open spec fn state(&self, s: u32) -> State {
        self.states@[s - 1]
    }

    /// `t` is the id of a transition.
    pub open spec fn valid_transition(&self, t: u32) -> bool {
        1 <= t <= self.transitions@.len()
    }

    /// The transition with id `t`.
    pub open spec fn transition(&self, t: u32) -> Transition {
        self.transitions@[t - 1]
    }

    /// The parent of `s`; 0 for the top state and for what is not a state.
    pub open spec fn parent_of(&self, s: u32) -> u32 {
        if self.valid_state(s) {
            self.state(s).parent
        } else {
            0
        }
    }

    /// The ancestor `k` levels above `s` (0 once past the top).
    pub open spec fn anc(&self, s: u32, k: nat) -> u32
        decreases k,
    {
        if k == 0 {
            s
        } else {
            self.parent_of(self.anc(s, (k - 1) as nat))
        }
    }

    /// The relations of the state at index `i` name states and transitions that exist.
    pub open spec fn state_ok(&self, i: int) -> bool {
        let s = self.states@[i];
        &&& s.id == i + 1
        &&& s.parent == 0 || self.valid_state(s.parent)
        &&& s.initial == 0 || self.valid_transition(s.initial)
        &&& forall|j: int|
            0 <= j < s.states@.len() ==> self.valid_state(#[trigger] s.states@[j])
                && self.state(s.states@[j]).parent == s.id
        &&& forall|j: int|
            0 <= j < s.transitions@.len() ==> self.valid_transition(#[trigger] s.transitions@[j])
        &&& forall|j: int| 0 <= j < s.history@.len() ==> self.valid_state(#[trigger] s.history@[j])
    }

    /// The transition at index `i` connects states that exist.
    pub open spec fn transition_ok(&self, i: int) -> bool {
        let t = self.transitions@[i];
        &&& t.id == i + 1
        &&& self.valid_state(t.source)
        &&& forall|j: int| 0 <= j < t.target@.len() ==> self.valid_state(#[trigger] t.target@[j])
    }

    /// Well-formedness: the ids fit, every relation names an existing state or transition,
    /// and the parent relation is a forest (going up from any state reaches the top).
    pub open spec fn wf(&self) -> bool {
        &&& self.states@.len() < u32::MAX
        &&& self.transitions@.len() < u32::MAX
        &&& self.valid_state(self.pseudo_root)
        &&& forall|i: int| 0 <= i < self.states@.len() ==> #[trigger] self.state_ok(i)
        &&& forall|i: int| 0 <= i < self.transitions@.len() ==> #[trigger] self.transition_ok(i)
        &&& forall|s: u32|
            #![trigger self.anc(s, self.states@.len())]
            self.valid_state(s) ==> self.anc(s, self.states@.len()) == 0
    }

    /// `s1` is a descendant of `s2`: a child, or a child of a child, and so on.
    pub open spec fn is_descendant(&self, s1: u32, s2: u32) -> bool {
        &&& s1 != 0
        &&& s2 != 0
        &&& s1 != s2
        &&& exists|k: nat| k >= 1 && #[trigger] self.anc(s1, k) == s2
    }

    /// The ancestors of `s`, nearest first, up to but not including the first that is 0 or
    /// `stop`, looking at most `fuel` levels up.
    pub open spec fn ancestors_until(&self, s: u32, stop: u32, fuel: nat) -> Seq<u32>
        decreases fuel,
    {
        if fuel == 0 {
            Seq::empty()
        } else {
            let p = self.parent_of(s);
            if p == 0 || p == stop {
                Seq::empty()
            } else {
                seq![p] + self.ancestors_until(p, stop, (fuel - 1) as nat)
            }
        }
    }

    /// #W3C says:
    /// If state2 is null, returns the set of all ancestors of state1 in ancestry order
    /// (state1's parent followed by the parent's parent, etc. up to an including the
    /// \<scxml\> element). If state2 is non-null, returns in ancestry order the set of all
    /// ancestors of state1, up to but not including state2.
    /// If state2 is state1's parent, or equal to state1, or a descendant of state1, this
    /// returns the empty set.
    pub open spec fn proper_ancestors(&self, s1: u32, s2: u32) -> Seq<u32> {
        if s2 == s1 || self.is_descendant(s2, s1) {
            Seq::empty()
        } else {
            self.ancestors_until(s1, s2, self.states@.len())
        }
    }

    // -----------------------------------------------------------------------
    // Facts about ancestors.
    // -----------------------------------------------------------------------

    proof fn lemma_anc_add(&self, s: u32, a: nat, b: nat)
        ensures
            self.anc(s, a + b) == self.anc(self.anc(s, a), b),
        decreases b,
    {
        if b > 0 {
            self.lemma_anc_add(s, a, (b - 1) as nat);
            assert((a + b - 1) as nat == a + (b - 1) as nat);
        }
    }

    proof fn lemma_anc_zero(&self, k: nat)
        ensures
            self.anc(0, k) == 0,
        decreases k,
    {
        if k > 0 {
            self.lemma_anc_zero((k - 1) as nat);
        }
    }

    proof fn lemma_anc_after_zero(&self, s: u32, i: nat, k: nat)
        requires
            self.anc(s, i) == 0,
            i <= k,
        ensures
            self.anc(s, k) == 0,
    {
        self.lemma_anc_add(s, i, (k - i) as nat);
        self.lemma_anc_zero((k - i) as nat);
        assert(i + (k - i) as nat == k);
    }

    proof fn lemma_anc_valid(&self, s: u32, k: nat)
        requires
            self.wf(),
            s == 0 || self.valid_state(s),
        ensures
            self.anc(s, k) == 0 || self.valid_state(self.anc(s, k)),
        decreases k,
    {
        if k > 0 {
            self.lemma_anc_valid(s, (k - 1) as nat);
            let a = self.anc(s, (k - 1) as nat);
            if self.valid_state(a) {
                assert(self.state_ok(a - 1));
            }
        }
    }

    /// Going up as many levels as there are states always reaches the top.
    proof fn lemma_anc_vanish(&self, s: u32, k: nat)
        requires
            self.wf(),
            s == 0 || self.valid_state(s),
            k >= self.states@.len(),
        ensures
            self.anc(s, k) == 0,
    {
        if s == 0 {
            self.lemma_anc_zero(k);
        } else {
            assert(self.anc(s, self.states@.len()) == 0);
            self.lemma_anc_after_zero(s, self.states@.len(), k);
        }
    }

    proof fn lemma_anc_cycle(&self, x: u32, d: nat, m: nat)
        requires
            self.anc(x, d) == x,
        ensures
            self.anc(x, m * d) == x,
        decreases m,
    {
        if m > 0 {
            self.lemma_anc_cycle(x, d, (m - 1) as nat);
            self.lemma_anc_add(x, ((m - 1) as nat * d) as nat, d);
            assert((m - 1) as nat * d + d == m * d) by (nonlinear_arith)
                requires
                    m > 0,
            ;
        } else {
            assert(m * d == 0) by (nonlinear_arith)
                requires
                    m == 0,
            ;
        }
    }

    /// Going up never meets the same state twice.
    proof fn lemma_anc_distinct(&self, s: u32, i: nat, j: nat)
        requires
            self.wf(),
            self.valid_state(s),
            i < j,
            self.anc(s, j) != 0,
        ensures
            self.anc(s, i) != self.anc(s, j),
    {
        if self.anc(s, i) == self.anc(s, j) {
            let x = self.anc(s, i);
            let d = (j - i) as nat;
            self.lemma_anc_add(s, i, d);
            assert(i + d == j);
            self.lemma_anc_valid(s, i);
            let n = self.states@.len();
            self.lemma_anc_cycle(x, d, n);
            assert(n * d >= n) by (nonlinear_arith)
                requires
                    d >= 1,
            ;
            self.lemma_anc_vanish(x, n * d);
        }
    }

    /// The proper ancestors up to `stop` are ancestors of `s`, none of them 0 or `stop`.
    proof fn lemma_ancestors_until_sound(&self, s: u32, stop: u32, fuel: nat, x: u32)
        requires
            self.ancestors_until(s, stop, fuel).contains(x),
        ensures
            x != 0,
            x != stop,
            exists|k: nat| k >= 1 && #[trigger] self.anc(s, k) == x,
        decreases fuel,
    {
        let p = self.parent_of(s);
        let q = self.ancestors_until(p, stop, (fuel - 1) as nat);
        let r = self.ancestors_until(s, stop, fuel);
        assert(r == seq![p] + q);
        assert(self.anc(s, 0) == s);
        assert(self.anc(s, 1) == p);
        if x != p {
            let k = choose|k: int| 0 <= k < r.len() && r[k] == x;
            assert(q[k - 1] == x);
            self.lemma_ancestors_until_sound(p, stop, (fuel - 1) as nat, x);
            let j = choose|j: nat| j >= 1 && #[trigger] self.anc(p, j) == x;
            self.lemma_anc_add(s, 1, j);
            assert(self.anc(s, 1 + j) == x);
        }
    }

    /// Every ancestor of `s` that is not 0 is among its proper ancestors up to 0.
    proof fn lemma_ancestors_until_complete(&self, s: u32, fuel: nat, k: nat)
        requires
            self.wf(),
            s == 0 || self.valid_state(s),
            1 <= k <= fuel,
            self.anc(s, k) != 0,
        ensures
            self.ancestors_until(s, 0, fuel).contains(self.anc(s, k)),
        decreases k,
    {
        let p = self.parent_of(s);
        assert(self.anc(s, 0) == s);
        assert(self.anc(s, 1) == p);
        self.lemma_anc_add(s, 1, (k - 1) as nat);
        assert(1 + (k - 1) as nat == k);
        if p == 0 {
            self.lemma_anc_after_zero(s, 1, k);
        }
        let q = self.ancestors_until(p, 0, (fuel - 1) as nat);
        assert(self.ancestors_until(s, 0, fuel) == seq![p] + q);
        if k == 1 {
            assert((seq![p] + q)[0] == p);
        } else {
            if self.valid_state(s) {
                assert(self.state_ok(s - 1));
            }
            self.lemma_ancestors_until_complete(p, (fuel - 1) as nat, (k - 1) as nat);
            let x = self.anc(s, k);
            let i = choose|i: int| 0 <= i < q.len() && q[i] == x;
            assert((seq![p] + q)[i + 1] == x);
        }
    }

    /// #W3C says:
    /// If state2 is state1's parent, or equal to state1, or a descendant of state1, this
    /// returns the empty set.
    pub proof fn lemma_proper_ancestors_empty(&self, state1: u32, state2: u32)
        requires
            self.wf(),
            self.valid_state(state1),
            state2 == self.parent_of(state1) || state2 == state1 || self.is_descendant(
                state2,
                state1,
            ),
        ensures
            self.proper_ancestors(state1, state2) == Seq::<u32>::empty(),
    {
        assert(self.states@.len() >= 1);
    }

    /// Without a limit, the proper ancestors of a state are exactly the states that it is a
    /// descendant of.
    pub proof fn lemma_proper_ancestors_all(&self, state1: u32, x: u32)
        requires
            self.wf(),
            self.valid_state(state1),
        ensures
            self.proper_ancestors(state1, 0).contains(x) <==> self.is_descendant(state1, x),
    {
        let n = self.states@.len();
        if self.proper_ancestors(state1, 0).contains(x) {
            self.lemma_ancestors_until_sound(state1, 0, n, x);
            let k = choose|k: nat| k >= 1 && #[trigger] self.anc(state1, k) == x;
            if x == state1 {
                assert(self.anc(state1, 0) == state1);
                self.lemma_anc_distinct(state1, 0, k);
            }
        }
        if self.is_descendant(state1, x) {
            let k = choose|k: nat| k >= 1 && #[trigger] self.anc(state1, k) == x;
            if k >= n {
                self.lemma_anc_vanish(state1, k);
            }
            self.lemma_ancestors_until_complete(state1, n, k);
        }
    }

    // -----------------------------------------------------------------------
    // Access.
    // -----------------------------------------------------------------------

    /// Gets a state by id. The id MUST exist.
    pub fn get_state_by_id(&self, state_id: u32) -> (r: &State)
        requires
            self.valid_state(state_id),
        ensures
            *r == self.state(state_id),
    {
        &self.states[(state_id - 1) as usize]
    }

    /// Gets the state with the SCXML id `name`; the first one, should several have it. A state
    /// with that name MUST exist.
    pub fn get_state_by_name(&self, name: &String) -> (r: &State)
        requires
            exists|i: int| 0 <= i < self.states@.len() && #[trigger] self.states@[i].name@ == name@,
        ensures
            exists|i: int|
                0 <= i < self.states@.len() && *r == self.states@[i] && r.name@ == name@ && forall|
                    j: int,
                | 0 <= j < i ==> #[trigger] self.states@[j].name@ != name@,
    {
        let mut i: usize = 0;
        while i < self.states.len()
            invariant
                i <= self.states@.len(),
                exists|k: int| 0 <= k < self.states@.len() && #[trigger] self.states@[k].name@ == name@,
                forall|j: int| 0 <= j < i ==> #[trigger] self.states@[j].name@ != name@,
            decreases self.states@.len() - i,
        {
            if self.states[i].name == *name {
                return &self.states[i];
            }
            i = i + 1;
        }
        proof {
            let k = choose|k: int| 0 <= k < self.states@.len() && #[trigger] self.states@[k].name@ == name@;
            assert(self.states@[k].name@ != name@);
        }
        vstd::pervasive::unreached()
    }

    /// Checks that every state was declared: each has a document id.
    pub fn valid(&self) -> (r: bool)
        ensures
            r == forall|i: int| 0 <= i < self.states@.len() ==> #[trigger] self.states@[i].doc_id != 0,
    {
        let mut i: usize = 0;
        while i < self.states.len()
            invariant
                i <= self.states@.len(),
                forall|j: int| 0 <= j < i ==> #[trigger] self.states@[j].doc_id != 0,
            decreases self.states@.len() - i,
        {
            if self.states[i].doc_id == 0 {
                return false;
            }
            i = i + 1;
        }
        true
    }

    /// Gets a transition by id. The id MUST exist.
    pub fn get_transition_by_id(&self, transition_id: u32) -> (r: &Transition)
        requires
            self.valid_transition(transition_id),
        ensures
            *r == self.transition(transition_id),
    {
        &self.transitions[(transition_id - 1) as usize]
    }

    /// #W3C says:
    /// function isDescendant(state1, state2)
    /// Returns 'true' if state1 is a descendant of state2 (a child, or a child of a child,
    /// or a child of a child of a child, etc.) Otherwise returns 'false'.
    #[allow(non_snake_case)]
    pub fn isDescendant(&self, state1: u32, state2: u32) -> (r: bool)
        requires
            self.wf(),
            state1 == 0 || self.valid_state(state1),
        ensures
            r == self.is_descendant(state1, state2),
    {
        if state1 == 0 || state2 == 0 || state1 == state2 {
            return false;
        }
        let n = self.states.len();
        let mut curr = self.get_state_by_id(state1).parent;
        let ghost mut k: nat = 1;
        assert(self.anc(state1, 0) == state1);
        assert(self.anc(state1, 1) == curr);
        while curr != 0 && curr != state2
            invariant
                self.wf(),
                self.valid_state(state1),
                n == self.states@.len(),
                state2 != 0,
                1 <= k <= n,
                curr == self.anc(state1, k),
                forall|j: nat| 1 <= j < k ==> #[trigger] self.anc(state1, j) != state2,
            decreases n - k,
        {
            proof {
                if k >= n {
                    self.lemma_anc_vanish(state1, k);
                }
                self.lemma_anc_valid(state1, k);
                assert(self.anc(state1, k + 1) == self.parent_of(curr));
            }
            curr = self.get_state_by_id(curr).parent;
            proof {
                k = k + 1;
            }
        }
        if curr == state2 {
            true
        } else {
            proof {
                assert forall|j: nat| j >= 1 implies #[trigger] self.anc(state1, j) != state2 by {
                    if j >= k {
                        self.lemma_anc_after_zero(state1, k, j);
                    }
                }
            }
            false
        }
    }

    /// #W3C says:
    /// # function getProperAncestors(state1, state2)
    /// If state2 is null, returns the set of all ancestors of state1 in ancestry order
    /// (state1's parent followed by the parent's parent, etc. up to an including the
    /// \<scxml\> element). If state2 is non-null, returns in ancestry order the set of all
    /// ancestors of state1, up to but not including state2.
    /// (A "proper ancestor" of a state is its parent, or the parent's parent,
    /// or the parent's parent's parent, etc.))
    /// If state2 is state1's parent, or equal to state1, or a descendant of state1, this
    /// returns the empty set.
    #[allow(non_snake_case)]
    pub fn getProperAncestors(&self, state1: u32, state2: u32) -> (r: OrderedSet<u32>)
        requires
            self.wf(),
            self.valid_state(state1),
            state2 == 0 || self.valid_state(state2),
        ensures
            r@ == self.proper_ancestors(state1, state2),
    {
        let mut result: OrderedSet<u32> = OrderedSet::new();
        if state2 != state1 && !self.isDescendant(state2, state1) {
            let n = self.states.len();
            let mut curr = self.get_state_by_id(state1).parent;
            let ghost mut k: nat = 1;
            assert(self.anc(state1, 0) == state1);
            assert(self.anc(state1, 1) == curr);
            while curr != 0 && curr != state2
                invariant
                    self.wf(),
                    self.valid_state(state1),
                    n == self.states@.len(),
                    1 <= k <= n,
                    curr == self.anc(state1, k),
                    result@ == Seq::new((k - 1) as nat, |j: int| self.anc(state1, (j + 1) as nat)),
                    result@ + self.ancestors_until(self.anc(state1, (k - 1) as nat), state2, (n - (k - 1)) as nat)
                        == self.ancestors_until(state1, state2, n as nat),
                decreases n - k,
            {
                proof {
                    if k >= n {
                        self.lemma_anc_vanish(state1, k);
                    }
                    self.lemma_anc_valid(state1, k);
                    assert(self.anc(state1, k + 1) == self.parent_of(curr));
                    assert forall|j: int| 0 <= j < result@.len() implies result@[j] != curr by {
                        self.lemma_anc_distinct(state1, (j + 1) as nat, k);
                    }
                    assert(!result@.contains(curr));
                    let prev = self.anc(state1, (k - 1) as nat);
                    assert(self.anc(state1, k) == self.parent_of(prev));
                    let f = (n - (k - 1)) as nat;
                    assert(self.ancestors_until(prev, state2, f) == seq![curr]
                        + self.ancestors_until(curr, state2, (f - 1) as nat));
                    assert(result@.push(curr) + self.ancestors_until(curr, state2, (f - 1) as nat)
                        =~= result@ + self.ancestors_until(prev, state2, f));
                }
                result.add(curr);
                proof {
                    assert(result@ =~= Seq::new(k, |j: int| self.anc(state1, (j + 1) as nat)));
                    assert((n - k) as nat == (n - (k + 1 - 1)) as nat);
                }
                curr = self.get_state_by_id(curr).parent;
                proof {
                    k = k + 1;
                }
            }
            proof {
                let prev = self.anc(state1, (k - 1) as nat);
                assert(self.anc(state1, k) == self.parent_of(prev));
                assert(self.ancestors_until(prev, state2, (n - (k - 1)) as nat) =~= Seq::<u32>::empty());
                assert(result@ + Seq::<u32>::empty() =~= result@);
            }
        }
        result
    }

    // -----------------------------------------------------------------------
    // Kinds of states.
    // -----------------------------------------------------------------------

    /// A \<parallel\> element.
    pub open spec fn is_parallel(&self, s: u32) -> bool {
        s > 0 && self.state(s).is_parallel
    }

    /// A compound state is a \<state\> that has \<state\>, \<parallel\>, or \<final\>
    /// children.
    pub open spec fn is_compound(&self, s: u32) -> bool {
        s != 0 && !self.state(s).is_parallel && self.state(s).states@.len() > 0
    }

    /// A history pseudo-state.
    pub open spec fn is_history(&self, s: u32) -> bool {
        self.state(s).history_type != HistoryType::Unset
    }

    pub fn isParallelState(&self, state: u32) -> (r: bool)
        requires
            state == 0 || self.valid_state(state),
        ensures
            r == self.is_parallel(state),
    {
        state > 0 && self.get_state_by_id(state).is_parallel
    }

    pub fn isSCXMLElement(&self, state: u32) -> (r: bool)
        ensures
            r == (state == self.pseudo_root),
    {
        state == self.pseudo_root
    }

    pub fn isFinalState(&self, state: &State) -> (r: bool)
        ensures
            r == state.is_final,
    {
        state.is_final
    }

    pub fn isFinalStateId(&self, state: u32) -> (r: bool)
        requires
            self.valid_state(state),
        ensures
            r == self.state(state).is_final,
    {
        self.isFinalState(self.get_state_by_id(state))
    }

    /// An atomic state is a state that has no \<state\>, \<parallel\> or \<final\> children.
    pub fn isAtomicState(&self, state: &State) -> (r: bool)
        ensures
            r == (state.states@.len() == 0),
    {
        state.states.len() == 0
    }

    pub fn isAtomicStateId(&self, sid: &u32) -> (r: bool)
        requires
            self.valid_state(*sid),
        ensures
            r == (self.state(*sid).states@.len() == 0),
    {
        self.isAtomicState(self.get_state_by_id(*sid))
    }

    pub fn isCompoundState(&self, state: u32) -> (r: bool)
        requires
            state == 0 || self.valid_state(state),
        ensures
            r == self.is_compound(state),
    {
        if state != 0 {
            let s = self.get_state_by_id(state);
            !s.is_parallel && s.states.len() > 0
        } else {
            false
        }
    }

    pub fn isCompoundStateOrScxmlElement(&self, sid: u32) -> (r: bool)
        requires
            sid == self.pseudo_root || self.valid_state(sid),
        ensures
            r == (sid == self.pseudo_root || self.is_compound(sid)),
    {
        sid == self.pseudo_root || self.isCompoundState(sid)
    }

    pub fn isHistoryState(&self, state: u32) -> (r: bool)
        requires
            self.valid_state(state),
        ensures
            r == self.is_history(state),
    {
        self.get_state_by_id(state).history_type != HistoryType::Unset
    }

    /// #W3C says:
    /// function getChildStates(state1)
    /// Returns a list containing all \<state\>, \<final\>, and \<parallel\> children of state1.
    pub fn getChildStates(&self, state1: u32) -> (r: List<u32>)
        requires
            self.valid_state(state1),
        ensures
            r@ == self.state(state1).states@,
    {
        let children = &self.get_state_by_id(state1).states;
        let mut l: List<u32> = List::new();
        let mut i: usize = 0;
        while i < children.len()
            invariant
                i <= children@.len(),
                l@ == children@.take(i as int),
            decreases children@.len() - i,
        {
            l.push(children[i]);
            assert(children@.take(i + 1) =~= children@.take(i as int).push(children@[i as int]));
            i = i + 1;
        }
        assert(children@.take(children@.len() as int) =~= children@);
        l
    }

    // -----------------------------------------------------------------------
    // Final states.
    // -----------------------------------------------------------------------

    /// The W3C definition of `isInFinalState`, looking at most `fuel` levels down.
    pub open spec fn in_final(&self, conf: Seq<u32>, s: u32, fuel: nat) -> bool
        decreases fuel,
    {
        if fuel == 0 {
            false
        } else if self.is_compound(s) {
            exists|j: int|
                0 <= j < self.state(s).states@.len() && self.state(
                    #[trigger] self.state(s).states@[j],
                ).is_final && conf.contains(self.state(s).states@[j])
        } else if self.is_parallel(s) {
            forall|j: int|
                0 <= j < self.state(s).states@.len() ==> self.in_final(
                    conf,
                    #[trigger] self.state(s).states@[j],
                    (fuel - 1) as nat,
                )
        } else {
            false
        }
    }

    /// The state and the data of the algorithm fit together: every state named by the
    /// configuration or by a history value exists.
    pub open spec fn global_ok(&self, g: &GlobalData) -> bool {
        &&& forall|i: int|
            0 <= i < g.configuration@.len() ==> self.valid_state(#[trigger] g.configuration@[i])
        &&& forall|h: u32, i: int|
            g.historyValue@.contains_key(h) && 0 <= i < g.historyValue@[h].len()
                ==> self.valid_state(#[trigger] g.historyValue@[h][i])
    }

    fn in_final_state(&self, global: &GlobalData, state: u32, fuel: usize) -> (r: bool)
        requires
            self.wf(),
            self.global_ok(global),
            self.valid_state(state),
        ensures
            r == self.in_final(global.configuration@, state, fuel as nat),
        decreases fuel,
    {
        if fuel == 0 {
            return false;
        }
        let children = &self.get_state_by_id(state).states;
        proof {
            assert(self.state_ok(state - 1));
        }
        if self.isCompoundState(state) {
            let mut i: usize = 0;
            while i < children.len()
                invariant
                    self.wf(),
                    self.valid_state(state),
                    children@ == self.state(state).states@,
                    fuel > 0,
                    self.is_compound(state),
                    i <= children@.len(),
                    forall|j: int|
                        0 <= j < i ==> !(self.state(#[trigger] children@[j]).is_final
                            && global.configuration@.contains(children@[j])),
                decreases children@.len() - i,
            {
                let c = children[i];
                proof {
                    assert(self.state_ok(state - 1));
                    assert(self.valid_state(c));
                }
                if self.isFinalStateId(c) && global.configuration.isMember(&c) {
                    assert(self.state(self.state(state).states@[i as int]).is_final
                        && global.configuration@.contains(self.state(state).states@[i as int]));
                    return true;
                }
                i = i + 1;
            }
            false
        } else if self.isParallelState(state) {
            let mut i: usize = 0;
            while i < children.len()
                invariant
                    self.wf(),
                    self.global_ok(global),
                    self.valid_state(state),
                    children@ == self.state(state).states@,
                    fuel > 0,
                    !self.is_compound(state),
                    self.is_parallel(state),
                    i <= children@.len(),
                    forall|j: int|
                        0 <= j < i ==> self.in_final(
                            global.configuration@,
                            #[trigger] children@[j],
                            (fuel - 1) as nat,
                        ),
                decreases children@.len() - i,
            {
                let c = children[i];
                proof {
                    assert(self.state_ok(state - 1));
                    assert(self.valid_state(c));
                }
                if !self.in_final_state(global, c, fuel - 1) {
                    assert(!self.in_final(
                        global.configuration@,
                        self.state(state).states@[i as int],
                        (fuel - 1) as nat,
                    ));
                    return false;
                }
                i = i + 1;
            }
            true
        } else {
            false
        }
    }

    /// #W3C says:
    /// # procedure isInFinalState(s)
    /// Return true if s is a compound \<state\> and one of its children is an active
    /// \<final\> state (i.e. is a member of the current configuration), or if s is a
    /// \<parallel\> state and isInFinalState is true of all its children.
    /// #Actual implementation:
    /// A child is at least one level deeper than its parent, so looking as many levels
    /// down as there are states covers the whole tree.
    pub fn isInFinalState(&self, global: &GlobalData, state: u32) -> (r: bool)
        requires
            self.wf(),
            self.global_ok(global),
            self.valid_state(state),
        ensures
            r == self.in_final(global.configuration@, state, self.states@.len()),
    {
        self.in_final_state(global, state, self.states.len())
    }
}

impl Fsm {
    // -----------------------------------------------------------------------
    // Effective targets, transition domains and the least common compound ancestor.
    // -----------------------------------------------------------------------

    /// The targets of the default transition of the history state `h` (its first transition).
    pub open spec fn default_targets(&self, h: u32) -> Seq<u32> {
        self.transition(self.state(h).transitions@[0]).target@
    }

    /// #W3C says:
    /// Returns the states that will be the target when 'transition' is taken,
    /// dereferencing any history states.
    /// (Here for a list of targets, following history defaults at most `fuel` levels deep.)
    pub open spec fn eff_targets(&self, hv: Map<u32, Seq<u32>>, targets: Seq<u32>, fuel: nat) -> Seq<
        u32,
    >
        decreases fuel, targets.len(),
    {
        if targets.len() == 0 {
            Seq::empty()
        } else {
            let acc = self.eff_targets(hv, targets.drop_last(), fuel);
            let s = targets.last();
            if self.is_history(s) {
                if hv.contains_key(s) {
                    set_add_all(acc, hv[s])
                } else if fuel == 0 {
                    acc
                } else {
                    set_add_all(acc, self.eff_targets(hv, self.default_targets(s), (fuel - 1) as nat))
                }
            } else {
                set_add(acc, s)
            }
        }
    }

    /// Every history state without a history value that resolving `targets` meets has a
    /// default transition, and following those defaults ends within `fuel` levels.
    pub open spec fn resolves(&self, hv: Map<u32, Seq<u32>>, targets: Seq<u32>, fuel: nat) -> bool
        decreases fuel,
    {
        forall|i: int|
            0 <= i < targets.len() && self.is_history(#[trigger] targets[i]) && !hv.contains_key(
                targets[i],
            ) ==> fuel > 0 && self.state(targets[i]).transitions@.len() > 0 && self.resolves(
                hv,
                self.default_targets(targets[i]),
                (fuel - 1) as nat,
            )
    }

    /// All states of `ss` exist.
    pub open spec fn all_valid(&self, ss: Seq<u32>) -> bool {
        forall|i: int| 0 <= i < ss.len() ==> self.valid_state(#[trigger] ss[i])
    }

    proof fn lemma_eff_valid(&self, hv: Map<u32, Seq<u32>>, targets: Seq<u32>, fuel: nat)
        requires
            self.wf(),
            forall|h: u32, i: int|
                hv.contains_key(h) && 0 <= i < hv[h].len() ==> self.valid_state(#[trigger] hv[h][i]),
            self.all_valid(targets),
            self.resolves(hv, targets, fuel),
        ensures
            self.all_valid(self.eff_targets(hv, targets, fuel)),
        decreases fuel, targets.len(),
    {
        if targets.len() > 0 {
            let p = targets.drop_last();
            assert(self.all_valid(p)) by {
                assert forall|i: int| 0 <= i < p.len() implies self.valid_state(#[trigger] p[i]) by {
                    assert(p[i] == targets[i]);
                }
            }
            assert(self.resolves(hv, p, fuel)) by {
                assert forall|i: int|
                    0 <= i < p.len() && self.is_history(#[trigger] p[i]) && !hv.contains_key(
                        p[i],
                    ) implies fuel > 0 && self.state(p[i]).transitions@.len() > 0 && self.resolves(
                    hv,
                    self.default_targets(p[i]),
                    (fuel - 1) as nat,
                ) by {
                    assert(p[i] == targets[i]);
                }
            }
            self.lemma_eff_valid(hv, p, fuel);
            let acc = self.eff_targets(hv, p, fuel);
            let s = targets.last();
            assert(targets[targets.len() - 1] == s);
            if self.is_history(s) {
                if hv.contains_key(s) {
                    crate::collections::lemma_set_add_all_contains(acc, hv[s]);
                    let r = set_add_all(acc, hv[s]);
                    assert forall|i: int| 0 <= i < r.len() implies self.valid_state(#[trigger] r[i]) by {
                        assert(r.contains(r[i]));
                        if acc.contains(r[i]) {
                            let k = choose|k: int| 0 <= k < acc.len() && acc[k] == r[i];
                        } else {
                            let k = choose|k: int| 0 <= k < hv[s].len() && hv[s][k] == r[i];
                        }
                    }
                } else if fuel > 0 {
                    let h = self.state(s);
                    assert(self.state_ok(s - 1));
                    let tid = h.transitions@[0];
                    assert(self.valid_transition(tid));
                    assert(self.transition_ok(tid - 1));
                    let d = self.default_targets(s);
                    assert(self.all_valid(d));
                    self.lemma_eff_valid(hv, d, (fuel - 1) as nat);
                    let e = self.eff_targets(hv, d, (fuel - 1) as nat);
                    crate::collections::lemma_set_add_all_contains(acc, e);
                    let r = set_add_all(acc, e);
                    assert forall|i: int| 0 <= i < r.len() implies self.valid_state(#[trigger] r[i]) by {
                        assert(r.contains(r[i]));
                        if acc.contains(r[i]) {
                            let k = choose|k: int| 0 <= k < acc.len() && acc[k] == r[i];
                        } else {
                            let k = choose|k: int| 0 <= k < e.len() && e[k] == r[i];
                        }
                    }
                }
            } else {
                crate::collections::lemma_set_add_contains(acc, s);
                let r = set_add(acc, s);
                assert forall|i: int| 0 <= i < r.len() implies self.valid_state(#[trigger] r[i]) by {
                    assert(r.contains(r[i]));
                    if acc.contains(r[i]) {
                        let k = choose|k: int| 0 <= k < acc.len() && acc[k] == r[i];
                    }
                }
            }
        }
    }

    fn effective_targets(&self, global: &GlobalData, targets: &Vec<u32>, fuel: usize) -> (r:
        OrderedSet<u32>)
        requires
            self.wf(),
            self.global_ok(global),
            self.all_valid(targets@),
            self.resolves(global.historyValue@, targets@, fuel as nat),
        ensures
            r@ == self.eff_targets(global.historyValue@, targets@, fuel as nat),
        decreases fuel,
    {
        proof {
            broadcast use vstd::std_specs::hash::group_hash_axioms;
        }
        let ghost hv = global.historyValue@;
        let mut result: OrderedSet<u32> = OrderedSet::new();
        let mut i: usize = 0;
        while i < targets.len()
            invariant
                self.wf(),
                self.global_ok(global),
                hv == global.historyValue@,
                self.all_valid(targets@),
                self.resolves(hv, targets@, fuel as nat),
                i <= targets@.len(),
                result@ == self.eff_targets(hv, targets@.take(i as int), fuel as nat),
            decreases targets@.len() - i,
        {
            let sid = targets[i];
            proof {
                let t = targets@.take(i + 1);
                assert(t.drop_last() =~= targets@.take(i as int));
                assert(t.last() == sid);
                assert(self.valid_state(sid));
            }
            if self.isHistoryState(sid) {
                if global.historyValue.has(sid) {
                    result.union(global.historyValue.get(sid));
                } else {
                    let h = self.get_state_by_id(sid);
                    proof {
                        assert(targets@[i as int] == sid);
                        assert(self.state_ok(sid - 1));
                    }
                    let t = self.get_transition_by_id(h.transitions[0]);
                    proof {
                        assert(self.transition_ok(h.transitions@[0] - 1));
                        assert(self.all_valid(t.target@));
                    }
                    let sub = self.effective_targets(global, &t.target, fuel - 1);
                    result.union(&sub);
                }
            } else {
                result.add(sid);
            }
            i = i + 1;
        }
        assert(targets@.take(targets@.len() as int) =~= targets@);
        result
    }

    /// #W3C says:
    /// # function getEffectiveTargetStates(transition)
    /// Returns the states that will be the target when 'transition' is taken, dereferencing
    /// any history states.
    /// #Actual implementation:
    /// A chain of history defaults that ends meets each history state at most once, so
    /// following as many levels as there are states covers it.
    #[allow(non_snake_case)]
    pub fn getEffectiveTargetStates(&self, global: &GlobalData, transition: &Transition) -> (r:
        OrderedSet<u32>)
        requires
            self.wf(),
            self.global_ok(global),
            self.all_valid(transition.target@),
            self.resolves(global.historyValue@, transition.target@, self.states@.len()),
        ensures
            r@ == self.eff_targets(
                global.historyValue@,
                transition.target@,
                self.states@.len(),
            ),
    {
        self.effective_targets(global, &transition.target, self.states.len())
    }

    /// Every state of `ss` is a descendant of `a`.
    pub open spec fn all_descendants(&self, ss: Seq<u32>, a: u32) -> bool {
        forall|i: int| 0 <= i < ss.len() ==> self.is_descendant(#[trigger] ss[i], a)
    }

    /// The first of `ancs` that is a compound state or the \<scxml\> element and has every
    /// state of `rest` as a descendant; 0 if there is none.
    pub open spec fn first_lcca(&self, ancs: Seq<u32>, rest: Seq<u32>) -> u32
        decreases ancs.len(),
    {
        if ancs.len() == 0 {
            0
        } else if (ancs[0] == self.pseudo_root || self.is_compound(ancs[0]))
            && self.all_descendants(rest, ancs[0]) {
            ancs[0]
        } else {
            self.first_lcca(ancs.drop_first(), rest)
        }
    }

    /// #W3C says:
    /// The Least Common Compound Ancestor is the \<state\> or \<scxml\> element s such that
    /// s is a proper ancestor of all states on stateList and no descendant of s has this
    /// property.
    pub open spec fn lcca(&self, list: Seq<u32>) -> u32 {
        self.first_lcca(self.proper_ancestors(list[0], 0), list.drop_first())
    }

    /// When one of `ancs` qualifies, `first_lcca` picks a qualifying element of `ancs`.
    proof fn lemma_first_lcca_found(&self, ancs: Seq<u32>, rest: Seq<u32>, j: int)
        requires
            0 <= j < ancs.len(),
            ancs[j] == self.pseudo_root || self.is_compound(ancs[j]),
            self.all_descendants(rest, ancs[j]),
        ensures
            ancs.contains(self.first_lcca(ancs, rest)),
            self.first_lcca(ancs, rest) == self.pseudo_root || self.is_compound(
                self.first_lcca(ancs, rest),
            ),
            self.all_descendants(rest, self.first_lcca(ancs, rest)),
        decreases ancs.len(),
    {
        let a = ancs[0];
        if !((a == self.pseudo_root || self.is_compound(a)) && self.all_descendants(rest, a)) {
            let d = ancs.drop_first();
            assert(d[j - 1] == ancs[j]);
            self.lemma_first_lcca_found(d, rest, j - 1);
            let r = self.first_lcca(d, rest);
            let k = choose|k: int| 0 <= k < d.len() && d[k] == r;
            assert(ancs[k + 1] == r);
        } else {
            assert(ancs[0] == a);
        }
    }

    /// #W3C says:
    /// Note that there is guaranteed to be such an element since the \<scxml\> wrapper
    /// element is a common ancestor of all states.
    /// (When every state of the list is a descendant of the \<scxml\> element, the least
    /// common compound ancestor exists: it is the \<scxml\> element or a compound state, and
    /// every state of the list is a descendant of it.)
    pub proof fn lemma_lcca_common_ancestor(&self, list: Seq<u32>)
        requires
            self.wf(),
            list.len() > 0,
            self.valid_state(list[0]),
            forall|i: int| 0 <= i < list.len() ==> self.is_descendant(#[trigger] list[i], self.pseudo_root),
        ensures
            self.lcca(list) != 0,
            self.lcca(list) == self.pseudo_root || self.is_compound(self.lcca(list)),
            forall|i: int| 0 <= i < list.len() ==> self.is_descendant(#[trigger] list[i], self.lcca(list)),
    {
        let ancs = self.proper_ancestors(list[0], 0);
        let rest = list.drop_first();
        self.lemma_proper_ancestors_all(list[0], self.pseudo_root);
        assert(self.is_descendant(list[0], self.pseudo_root));
        let j = choose|j: int| 0 <= j < ancs.len() && ancs[j] == self.pseudo_root;
        assert forall|i: int| 0 <= i < rest.len() implies self.is_descendant(#[trigger] rest[i], self.pseudo_root) by {
            assert(rest[i] == list[i + 1]);
        }
        self.lemma_first_lcca_found(ancs, rest, j);
        let a = self.lcca(list);
        self.lemma_proper_ancestors_all(list[0], a);
        assert forall|i: int| 0 <= i < list.len() implies self.is_descendant(#[trigger] list[i], a) by {
            if i > 0 {
                assert(list[i] == rest[i - 1]);
            }
        }
    }

    /// The ancestors of `s`, nearest first: the `j`-th is `j + 1` levels above `s`.
    proof fn lemma_ancestors_until_index(&self, s: u32, fuel: nat)
        ensures
            forall|j: int|
                0 <= j < self.ancestors_until(s, 0, fuel).len() ==> #[trigger] self.ancestors_until(
                    s,
                    0,
                    fuel,
                )[j] == self.anc(s, (j + 1) as nat),
        decreases fuel,
    {
        if fuel > 0 {
            let p = self.parent_of(s);
            if p != 0 {
                self.lemma_ancestors_until_index(p, (fuel - 1) as nat);
                let r = self.ancestors_until(s, 0, fuel);
                let q = self.ancestors_until(p, 0, (fuel - 1) as nat);
                assert(r == seq![p] + q);
                assert(self.anc(s, 1) == p) by {
                    assert(self.anc(s, 0) == s);
                }
                assert forall|j: int| 0 <= j < r.len() implies #[trigger] r[j] == self.anc(
                    s,
                    (j + 1) as nat,
                ) by {
                    if j > 0 {
                        assert(r[j] == q[j - 1]);
                        self.lemma_anc_add(s, 1, j as nat);
                        assert(1 + j as nat == (j + 1) as nat);
                    }
                }
            }
        }
    }

    /// The element that `first_lcca` picks stands no later than any qualifying element.
    proof fn lemma_first_lcca_index(&self, ancs: Seq<u32>, rest: Seq<u32>, j: int)
        requires
            0 <= j < ancs.len(),
            ancs[j] == self.pseudo_root || self.is_compound(ancs[j]),
            self.all_descendants(rest, ancs[j]),
        ensures
            exists|i: int| 0 <= i <= j && ancs[i] == self.first_lcca(ancs, rest),
        decreases ancs.len(),
    {
        let a = ancs[0];
        if (a == self.pseudo_root || self.is_compound(a)) && self.all_descendants(rest, a) {
            assert(ancs[0] == self.first_lcca(ancs, rest));
        } else {
            let d = ancs.drop_first();
            assert(d[j - 1] == ancs[j]);
            self.lemma_first_lcca_index(d, rest, j - 1);
            let i = choose|i: int| 0 <= i <= j - 1 && d[i] == self.first_lcca(d, rest);
            assert(ancs[i + 1] == d[i]);
        }
    }

    /// #W3C says:
    /// The Least Common Compound Ancestor is the \<state\> or \<scxml\> element s such that
    /// s is a proper ancestor of all states on stateList and no descendant of s has this
    /// property.
    /// (No state that is a compound state or the \<scxml\> element and has every state of the
    /// list as a descendant is itself a descendant of the least common compound ancestor.)
    pub proof fn lemma_lcca_least(&self, list: Seq<u32>, y: u32)
        requires
            self.wf(),
            list.len() > 0,
            self.valid_state(list[0]),
            forall|i: int| 0 <= i < list.len() ==> self.is_descendant(#[trigger] list[i], self.pseudo_root),
            y == self.pseudo_root || self.is_compound(y),
            forall|i: int| 0 <= i < list.len() ==> self.is_descendant(#[trigger] list[i], y),
        ensures
            !self.is_descendant(y, self.lcca(list)),
    {
        let l0 = list[0];
        let n = self.states@.len();
        let ancs = self.proper_ancestors(l0, 0);
        let rest = list.drop_first();
        self.lemma_lcca_common_ancestor(list);
        let a = self.lcca(list);
        assert(self.is_descendant(list[0], y));
        self.lemma_proper_ancestors_all(l0, y);
        let jy = choose|j: int| 0 <= j < ancs.len() && ancs[j] == y;
        assert forall|i: int| 0 <= i < rest.len() implies self.is_descendant(#[trigger] rest[i], y) by {
            assert(rest[i] == list[i + 1]);
        }
        self.lemma_first_lcca_index(ancs, rest, jy);
        let jl = choose|i: int| 0 <= i <= jy && ancs[i] == self.first_lcca(ancs, rest);
        assert(ancs == self.ancestors_until(l0, 0, n));
        self.lemma_ancestors_until_index(l0, n);
        assert(ancs[jl] == self.anc(l0, (jl + 1) as nat));
        assert(ancs[jy] == self.anc(l0, (jy + 1) as nat));
        if self.is_descendant(y, a) {
            let m = choose|m: nat| m >= 1 && #[trigger] self.anc(y, m) == a;
            self.lemma_anc_add(l0, (jy + 1) as nat, m);
            let far = ((jy + 1) as nat + m) as nat;
            assert(self.anc(l0, far) == a);
            self.lemma_anc_distinct(l0, (jl + 1) as nat, far);
        }
    }

    proof fn lemma_ancestors_valid(&self, s: u32, stop: u32, fuel: nat)
        requires
            self.wf(),
            s == 0 || self.valid_state(s),
        ensures
            self.all_valid(self.ancestors_until(s, stop, fuel)),
        decreases fuel,
    {
        if fuel > 0 {
            let p = self.parent_of(s);
            if self.valid_state(s) {
                assert(self.state_ok(s - 1));
            }
            if p != 0 && p != stop {
                self.lemma_ancestors_valid(p, stop, (fuel - 1) as nat);
                let r = self.ancestors_until(s, stop, fuel);
                let q = self.ancestors_until(p, stop, (fuel - 1) as nat);
                assert(r == seq![p] + q);
                assert forall|i: int| 0 <= i < r.len() implies self.valid_state(#[trigger] r[i]) by {
                    if i > 0 {
                        assert(r[i] == q[i - 1]);
                    }
                }
            }
        }
    }

    /// Whether every state of `list`, from position 1 on, is a descendant of `a`.
    fn rest_descend_from(&self, list: &List<u32>, a: u32) -> (r: bool)
        requires
            self.wf(),
            list@.len() > 0,
            forall|i: int| 1 <= i < list@.len() ==> list@[i] == 0 || self.valid_state(#[trigger] list@[i]),
        ensures
            r == self.all_descendants(list@.drop_first(), a),
    {
        let mut i: usize = 1;
        while i < list.size()
            invariant
                self.wf(),
                list@.len() > 0,
                forall|i: int| 1 <= i < list@.len() ==> list@[i] == 0 || self.valid_state(#[trigger] list@[i]),
                1 <= i <= list@.len(),
                forall|j: int| 0 <= j < i - 1 ==> self.is_descendant(#[trigger] list@.drop_first()[j], a),
            decreases list@.len() - i,
        {
            let s = *list.get(i);
            if !self.isDescendant(s, a) {
                assert(list@.drop_first()[i - 1] == s);
                return false;
            }
            assert(list@.drop_first()[i - 1] == s);
            i = i + 1;
        }
        true
    }

    /// #W3C says:
    /// # function findLCCA(stateList)
    /// The Least Common Compound Ancestor is the \<state\> or \<scxml\> element s such that
    /// s is a proper ancestor of all states on stateList and no descendant of s has this
    /// property. Note that there is guaranteed to be such an element since the \<scxml\>
    /// wrapper element is a common ancestor of all states. Note also that since we are
    /// speaking of proper ancestor (parent or parent of a parent, etc.) the LCCA is never a
    /// member of stateList.
    #[allow(non_snake_case)]
    pub fn findLCCA(&self, stateList: &List<u32>) -> (r: u32)
        requires
            self.wf(),
            stateList@.len() > 0,
            self.valid_state(stateList@[0]),
            forall|i: int|
                1 <= i < stateList@.len() ==> stateList@[i] == 0 || self.valid_state(
                    #[trigger] stateList@[i],
                ),
        ensures
            r == self.lcca(stateList@),
    {
        let ancs = self.getProperAncestors(*stateList.head(), 0);
        proof {
            self.lemma_ancestors_valid(stateList@[0], 0, self.states@.len());
        }
        let ghost rest = stateList@.drop_first();
        assert(ancs@.skip(0) =~= ancs@);
        let mut i: usize = 0;
        while i < ancs.size()
            invariant
                self.wf(),
                stateList@.len() > 0,
                forall|i: int|
                    1 <= i < stateList@.len() ==> stateList@[i] == 0 || self.valid_state(
                        #[trigger] stateList@[i],
                    ),
                rest == stateList@.drop_first(),
                self.all_valid(ancs@),
                i <= ancs@.len(),
                self.lcca(stateList@) == self.first_lcca(ancs@.skip(i as int), rest),
            decreases ancs@.len() - i,
        {
            let a = *ancs.get(i);
            assert(ancs@.skip(i as int)[0] == a);
            assert(ancs@.skip(i as int).drop_first() =~= ancs@.skip(i + 1));
            if self.isCompoundStateOrScxmlElement(a) {
                if self.rest_descend_from(stateList, a) {
                    return a;
                }
            }
            i = i + 1;
        }
        0
    }

    /// #W3C says:
    /// # function getTransitionDomain(transition)
    /// Return the compound state such that
    /// 1) all states that are exited or entered as a result of taking 'transition' are
    ///    descendants of it
    /// 2) no descendant of it has this property.
    pub open spec fn domain(&self, hv: Map<u32, Seq<u32>>, t: Transition) -> u32 {
        let tstates = self.eff_targets(hv, t.target@, self.states@.len());
        if tstates.len() == 0 {
            0
        } else if t.transition_type == TransitionType::Internal && self.is_compound(t.source)
            && self.all_descendants(tstates, t.source) {
            t.source
        } else {
            self.lcca(seq![t.source] + tstates)
        }
    }

    /// Whether every state of `set` is a descendant of `a`.
    fn all_descend_from(&self, set: &OrderedSet<u32>, a: u32) -> (r: bool)
        requires
            self.wf(),
            self.all_valid(set@),
        ensures
            r == self.all_descendants(set@, a),
    {
        let mut i: usize = 0;
        while i < set.size()
            invariant
                self.wf(),
                self.all_valid(set@),
                i <= set@.len(),
                forall|j: int| 0 <= j < i ==> self.is_descendant(#[trigger] set@[j], a),
            decreases set@.len() - i,
        {
            let s = *set.get(i);
            if !self.isDescendant(s, a) {
                return false;
            }
            i = i + 1;
        }
        true
    }

    /// A transition of `self` whose targets resolve.
    pub open spec fn transition_resolves(&self, hv: Map<u32, Seq<u32>>, t: Transition) -> bool {
        &&& self.valid_state(t.source)
        &&& self.all_valid(t.target@)
        &&& self.resolves(hv, t.target@, self.states@.len())
    }

    /// #W3C says:
    /// # function getTransitionDomain(transition)
    /// Return the compound state such that
    /// 1) all states that are exited or entered as a result of taking 'transition' are
    ///    descendants of it
    /// 2) no descendant of it has this property.
    #[allow(non_snake_case)]
    pub fn getTransitionDomain(&self, global: &GlobalData, t: &Transition) -> (r: u32)
        requires
            self.wf(),
            self.global_ok(global),
            self.transition_resolves(global.historyValue@, *t),
        ensures
            r == self.domain(global.historyValue@, *t),
    {
        let tstates = self.getEffectiveTargetStates(global, t);
        proof {
            self.lemma_eff_valid(global.historyValue@, t.target@, self.states@.len());
        }
        if tstates.isEmpty() {
            0
        } else if t.transition_type == TransitionType::Internal && self.isCompoundState(t.source)
            && self.all_descend_from(&tstates, t.source) {
            t.source
        } else {
            let mut l: List<u32> = List::new();
            l.push(t.source);
            let list = l.appendSet(&tstates);
            assert(list@ == seq![t.source] + tstates@);
            assert(list@.drop_first() =~= tstates@);
            proof {
                assert forall|i: int| 1 <= i < list@.len() implies list@[i] == 0 || self.valid_state(
                    #[trigger] list@[i],
                ) by {
                    assert(list@[i] == tstates@[i - 1]);
                }
            }
            self.findLCCA(&list)
        }
    }
}

/// The elements of `s` with every element of `rs` deleted, one after the other.
pub open spec fn remove_each(s: Seq<u32>, rs: Seq<u32>) -> Seq<u32>
    decreases rs.len(),
{
    if rs.len() == 0 {
        s
    } else {
        crate::collections::remove_all(remove_each(s, rs.drop_last()), rs.last())
    }
}

impl Fsm {
    // -----------------------------------------------------------------------
    // Exit sets and conflicts between transitions.
    // -----------------------------------------------------------------------

    /// The states that are descendants of `d`.
    pub open spec fn below(&self, d: u32) -> spec_fn(u32) -> bool {
        |s: u32| self.is_descendant(s, d)
    }

    /// The states of the configuration that taking `t` exits: none for a targetless
    /// transition, else those that are descendants of the transition's domain.
    pub open spec fn exits_of(&self, hv: Map<u32, Seq<u32>>, conf: Seq<u32>, t: Transition) -> Seq<
        u32,
    > {
        if t.target@.len() == 0 {
            Seq::empty()
        } else {
            conf.filter(self.below(self.domain(hv, t)))
        }
    }

    /// #W3C says:
    /// For each transition t in enabledTransitions, if t is targetless then do nothing,
    /// else compute the transition's domain. Add to the statesToExit set all states in the
    /// configuration that are descendants of the domain.
    pub open spec fn exit_set(&self, hv: Map<u32, Seq<u32>>, conf: Seq<u32>, tids: Seq<u32>) -> Seq<
        u32,
    >
        decreases tids.len(),
    {
        if tids.len() == 0 {
            Seq::empty()
        } else {
            set_add_all(
                self.exit_set(hv, conf, tids.drop_last()),
                self.exits_of(hv, conf, self.transition(tids.last())),
            )
        }
    }

    /// `tid` is the id of a transition whose source and targets exist and whose targets
    /// resolve.
    pub open spec fn trans_ok(&self, hv: Map<u32, Seq<u32>>, tid: u32) -> bool {
        self.valid_transition(tid) && self.transition_resolves(hv, self.transition(tid))
    }

    /// Every element of `tids` passes `trans_ok`.
    pub open spec fn tids_ok(&self, hv: Map<u32, Seq<u32>>, tids: Seq<u32>) -> bool {
        forall|x: u32| tids.contains(x) ==> #[trigger] self.trans_ok(hv, x)
    }

    /// #W3C says:
    /// # procedure computeExitSet(enabledTransitions)
    /// For each transition t in enabledTransitions, if t is targetless then do nothing,
    /// else compute the transition's domain. (This will be the source state in the case of
    /// internal transitions) or the least common compound ancestor state of the source
    /// state and target states of t (in the case of external transitions. Add to the
    /// statesToExit set all states in the configuration that are descendants of the domain.
    #[allow(non_snake_case)]
    pub fn computeExitSet(&self, global: &GlobalData, transitions: &List<u32>) -> (r: OrderedSet<
        u32,
    >)
        requires
            self.wf(),
            self.global_ok(global),
            self.tids_ok(global.historyValue@, transitions@),
        ensures
            r@ == self.exit_set(global.historyValue@, global.configuration@, transitions@),
    {
        let ghost hv = global.historyValue@;
        let ghost conf = global.configuration@;
        let ghost tids = transitions@;
        let mut statesToExit: OrderedSet<u32> = OrderedSet::new();
        let mut i: usize = 0;
        while i < transitions.size()
            invariant
                self.wf(),
                self.global_ok(global),
                hv == global.historyValue@,
                conf == global.configuration@,
                tids == transitions@,
                self.tids_ok(hv, tids),
                i <= tids.len(),
                statesToExit@ == self.exit_set(hv, conf, tids.take(i as int)),
            decreases tids.len() - i,
        {
            let tid = *transitions.get(i);
            proof {
                assert(tids.contains(tid));
                assert(self.trans_ok(hv, tid));
                let tk = tids.take(i + 1);
                assert(tk.drop_last() =~= tids.take(i as int));
                assert(tk.last() == tid);
            }
            let t = self.get_transition_by_id(tid);
            if t.target.len() > 0 {
                let domain = self.getTransitionDomain(global, t);
                let ghost before = statesToExit@;
                let ghost pred = self.below(domain);
                let mut j: usize = 0;
                while j < global.configuration.size()
                    invariant
                        self.wf(),
                        self.global_ok(global),
                        conf == global.configuration@,
                        pred == self.below(domain),
                        j <= conf.len(),
                        statesToExit@ == set_add_all(before, conf.take(j as int).filter(pred)),
                    decreases conf.len() - j,
                {
                    let s = *global.configuration.get(j);
                    proof {
                        let c = conf.take(j + 1);
                        assert(c =~= conf.take(j as int).push(s));
                        conf.take(j as int).lemma_filter_push(s, pred);
                        let f = conf.take(j as int).filter(pred);
                        assert(f.push(s).drop_last() =~= f);
                    }
                    if self.isDescendant(s, domain) {
                        statesToExit.add(s);
                    }
                    j = j + 1;
                }
                assert(conf.take(conf.len() as int) =~= conf);
            } else {
                assert(self.exits_of(hv, conf, *t) =~= Seq::<u32>::empty());
                assert(set_add_all(statesToExit@, Seq::<u32>::empty()) == statesToExit@);
            }
            i = i + 1;
        }
        assert(tids.take(tids.len() as int) =~= tids);
        statesToExit
    }

    /// Taking `t1` and taking `t2` exit a common state.
    pub open spec fn conflict(&self, hv: Map<u32, Seq<u32>>, conf: Seq<u32>, t1: u32, t2: u32) -> bool {
        exists|x: u32|
            self.exit_set(hv, conf, seq![t1]).contains(x) && self.exit_set(
                hv,
                conf,
                seq![t2],
            ).contains(x)
    }

    /// Tests `t1` against the transitions already kept, in order: whether one of them
    /// preempts `t1`, and the ones that `t1` preempts (added to `removed`), up to the first
    /// that preempts `t1`.
    pub open spec fn scan(
        &self,
        hv: Map<u32, Seq<u32>>,
        conf: Seq<u32>,
        kept: Seq<u32>,
        t1: u32,
        removed: Seq<u32>,
    ) -> (bool, Seq<u32>)
        decreases kept.len(),
    {
        if kept.len() == 0 {
            (false, removed)
        } else {
            let t2 = kept[0];
            if self.conflict(hv, conf, t1, t2) {
                if self.is_descendant(self.transition(t1).source, self.transition(t2).source) {
                    self.scan(hv, conf, kept.drop_first(), t1, set_add(removed, t2))
                } else {
                    (true, removed)
                }
            } else {
                self.scan(hv, conf, kept.drop_first(), t1, removed)
            }
        }
    }

    /// One round of removeConflictingTransitions: unless a kept transition preempts `t1`,
    /// the transitions that `t1` preempts are removed and `t1` is added.
    pub open spec fn preempt_step(
        &self,
        hv: Map<u32, Seq<u32>>,
        conf: Seq<u32>,
        filtered: Seq<u32>,
        t1: u32,
    ) -> Seq<u32> {
        let (preempted, removed) = self.scan(hv, conf, filtered, t1, Seq::empty());
        if preempted {
            filtered
        } else {
            set_add(remove_each(filtered, removed), t1)
        }
    }

    /// The transitions of `enabled` that remain once conflicts are resolved.
    pub open spec fn without_conflicts(
        &self,
        hv: Map<u32, Seq<u32>>,
        conf: Seq<u32>,
        enabled: Seq<u32>,
    ) -> Seq<u32>
        decreases enabled.len(),
    {
        if enabled.len() == 0 {
            Seq::empty()
        } else {
            self.preempt_step(
                hv,
                conf,
                self.without_conflicts(hv, conf, enabled.drop_last()),
                enabled.last(),
            )
        }
    }

    proof fn lemma_remove_each_subset(s: Seq<u32>, rs: Seq<u32>, x: u32)
        requires
            remove_each(s, rs).contains(x),
        ensures
            s.contains(x),
        decreases rs.len(),
    {
        broadcast use vstd::seq_lib::group_filter_ensures;

        if rs.len() > 0 {
            let prev = remove_each(s, rs.drop_last());
            prev.lemma_filter_contains_rev(|y: u32| y != rs.last(), x);
            Self::lemma_remove_each_subset(s, rs.drop_last(), x);
        }
    }

    /// #W3C says:
    /// # function removeConflictingTransitions(enabledTransitions)
    /// enabledTransitions will contain multiple transitions only if a parallel state is
    /// active. In that case, we may have one transition selected for each of its children.
    /// These transitions may conflict with each other in the sense that they have
    /// incompatible target states. ... When such a conflict occurs, then if the source
    /// state of one of the transitions is a descendant of the source state of the other, we
    /// select the transition in the descendant. Otherwise we prefer the transition that was
    /// selected by the earlier state in document order and discard the other transition.
    /// Note that targetless transitions have empty exit sets and thus do not conflict with
    /// any other transitions.
    #[allow(non_snake_case)]
    pub fn removeConflictingTransitions(&self, global: &GlobalData, enabledTransitions: &OrderedSet<
        u32,
    >) -> (r: OrderedSet<u32>)
        requires
            self.wf(),
            self.global_ok(global),
            self.tids_ok(global.historyValue@, enabledTransitions@),
        ensures
            r@ == self.without_conflicts(
                global.historyValue@,
                global.configuration@,
                enabledTransitions@,
            ),
            self.tids_ok(global.historyValue@, r@),
    {
        let ghost hv = global.historyValue@;
        let ghost conf = global.configuration@;
        let ghost enabled = enabledTransitions@;
        let mut filteredTransitions: OrderedSet<u32> = OrderedSet::new();
        let enabledList = enabledTransitions.toList();
        let mut i: usize = 0;
        while i < enabledList.size()
            invariant
                self.wf(),
                self.global_ok(global),
                hv == global.historyValue@,
                conf == global.configuration@,
                enabled == enabledList@,
                self.tids_ok(hv, enabled),
                i <= enabled.len(),
                filteredTransitions@ == self.without_conflicts(hv, conf, enabled.take(i as int)),
                self.tids_ok(hv, filteredTransitions@),
            decreases enabled.len() - i,
        {
            let tid1 = *enabledList.get(i);
            proof {
                assert(enabled.contains(tid1));
                assert(self.trans_ok(hv, tid1));
                let tk = enabled.take(i + 1);
                assert(tk.drop_last() =~= enabled.take(i as int));
                assert(tk.last() == tid1);
            }
            let t1 = self.get_transition_by_id(tid1);
            let mut t1Preempted = false;
            let mut transitionsToRemove: OrderedSet<u32> = OrderedSet::new();
            let filteredTransitionList = filteredTransitions.toList();
            let ghost kept = filteredTransitionList@;
            let mut t1_list: List<u32> = List::new();
            t1_list.push(tid1);
            proof {
                assert(t1_list@ =~= seq![tid1]);
                assert forall|x: u32| t1_list@.contains(x) implies #[trigger] self.trans_ok(hv, x) by {
                    assert(t1_list@[0] == tid1);
                }
            }
            let exits1 = self.computeExitSet(global, &t1_list);
            let mut k: usize = 0;
            assert(kept.skip(0) =~= kept);
            while k < filteredTransitionList.size()
                invariant_except_break
                    !t1Preempted,
                    self.scan(hv, conf, kept, tid1, Seq::empty()) == self.scan(
                        hv,
                        conf,
                        kept.skip(k as int),
                        tid1,
                        transitionsToRemove@,
                    ),
                invariant
                    self.wf(),
                    self.global_ok(global),
                    hv == global.historyValue@,
                    conf == global.configuration@,
                    kept == filteredTransitionList@,
                    self.tids_ok(hv, kept),
                    self.trans_ok(hv, tid1),
                    *t1 == self.transition(tid1),
                    exits1@ == self.exit_set(hv, conf, seq![tid1]),
                    k <= kept.len(),
                ensures
                    t1Preempted ==> self.scan(hv, conf, kept, tid1, Seq::empty()).0,
                    !t1Preempted ==> self.scan(hv, conf, kept, tid1, Seq::empty()) == (
                    false,
                    transitionsToRemove@,
                    ),
                decreases kept.len() - k,
            {
                let tid2 = *filteredTransitionList.get(k);
                proof {
                    assert(kept.contains(tid2));
                    assert(self.trans_ok(hv, tid2));
                    assert(kept.skip(k as int)[0] == tid2);
                    assert(kept.skip(k as int).drop_first() =~= kept.skip(k + 1));
                }
                let mut t2_list: List<u32> = List::new();
                t2_list.push(tid2);
                proof {
                    assert(t2_list@ =~= seq![tid2]);
                    assert forall|x: u32| t2_list@.contains(x) implies #[trigger] self.trans_ok(hv, x) by {
                        assert(t2_list@[0] == tid2);
                    }
                }
                let exits2 = self.computeExitSet(global, &t2_list);
                if exits1.hasIntersection(&exits2) {
                    let t2 = self.get_transition_by_id(tid2);
                    if self.isDescendant(t1.source, t2.source) {
                        transitionsToRemove.add(tid2);
                    } else {
                        t1Preempted = true;
                        break;
                    }
                }
                k = k + 1;
                proof {
                    if k == kept.len() {
                        assert(kept.skip(k as int) =~= Seq::<u32>::empty());
                    }
                }
            }
            let ghost scanned = self.scan(hv, conf, kept, tid1, Seq::empty());
            if !t1Preempted {
                assert(scanned == (false, transitionsToRemove@));
                let removeList = transitionsToRemove.toList();
                let ghost start = filteredTransitions@;
                let mut m: usize = 0;
                while m < removeList.size()
                    invariant
                        m <= removeList@.len(),
                        filteredTransitions@ == remove_each(start, removeList@.take(m as int)),
                    decreases removeList@.len() - m,
                {
                    let t3 = removeList.get(m);
                    proof {
                        let rk = removeList@.take(m + 1);
                        assert(rk.drop_last() =~= removeList@.take(m as int));
                        assert(rk.last() == *t3);
                    }
                    filteredTransitions.delete(t3);
                    m = m + 1;
                }
                assert(removeList@.take(removeList@.len() as int) =~= removeList@);
                filteredTransitions.add(tid1);
                proof {
                    crate::collections::lemma_set_add_contains(remove_each(start, removeList@), tid1);
                    assert forall|x: u32| filteredTransitions@.contains(x) implies #[trigger] self.trans_ok(
                        hv,
                        x,
                    ) by {
                        if x != tid1 {
                            Self::lemma_remove_each_subset(start, removeList@, x);
                        }
                    }
                }
            }
            i = i + 1;
        }
        assert(enabled.take(enabled.len() as int) =~= enabled);
        filteredTransitions
    }
}

/// What deleting every element of `rs` from `s` keeps: the elements of `s` not in `rs`.
pub proof fn lemma_remove_each_contains(s: Seq<u32>, rs: Seq<u32>, x: u32)
    ensures
        remove_each(s, rs).contains(x) <==> (s.contains(x) && !rs.contains(x)),
    decreases rs.len(),
{
    broadcast use vstd::seq_lib::group_filter_ensures;

    if rs.len() > 0 {
        lemma_remove_each_contains(s, rs.drop_last(), x);
        let prev = remove_each(s, rs.drop_last());
        let pred = |y: u32| y != rs.last();
        if prev.filter(pred).contains(x) {
            prev.lemma_filter_contains_rev(pred, x);
        }
        if prev.contains(x) && x != rs.last() {
            let k = choose|k: int| 0 <= k < prev.len() && prev[k] == x;
            prev.lemma_filter_contains(pred, k);
        }
        if rs.contains(x) && !rs.drop_last().contains(x) {
            let k = choose|k: int| 0 <= k < rs.len() && rs[k] == x;
            if k < rs.len() - 1 {
                assert(rs.drop_last()[k] == x);
            }
        }
        if rs.drop_last().contains(x) {
            let k = choose|k: int| 0 <= k < rs.drop_last().len() && rs.drop_last()[k] == x;
            assert(rs[k] == x);
        }
        assert(rs[rs.len() - 1] == rs.last());
    }
}

impl Fsm {
    /// No two different transitions of `s` conflict.
    pub open spec fn conflict_free(&self, hv: Map<u32, Seq<u32>>, conf: Seq<u32>, s: Seq<u32>) -> bool {
        forall|x: u32, y: u32|
            s.contains(x) && s.contains(y) && x != y ==> !#[trigger] self.conflict(hv, conf, x, y)
    }

    /// When no kept transition preempts `t1`, every kept transition that conflicts with
    /// `t1` ends up among the ones to remove, and so does every one already there.
    proof fn lemma_scan_complete(
        &self,
        hv: Map<u32, Seq<u32>>,
        conf: Seq<u32>,
        kept: Seq<u32>,
        t1: u32,
        removed: Seq<u32>,
    )
        ensures
            !self.scan(hv, conf, kept, t1, removed).0 ==> (forall|y: u32|
                kept.contains(y) && self.conflict(hv, conf, t1, y) ==> #[trigger] self.scan(
                    hv,
                    conf,
                    kept,
                    t1,
                    removed,
                ).1.contains(y)),
            !self.scan(hv, conf, kept, t1, removed).0 ==> (forall|y: u32|
                removed.contains(y) ==> #[trigger] self.scan(hv, conf, kept, t1, removed).1.contains(
                    y,
                )),
        decreases kept.len(),
    {
        if kept.len() > 0 {
            let t2 = kept[0];
            let rest = kept.drop_first();
            if self.conflict(hv, conf, t1, t2) {
                if self.is_descendant(self.transition(t1).source, self.transition(t2).source) {
                    let r2 = set_add(removed, t2);
                    self.lemma_scan_complete(hv, conf, rest, t1, r2);
                    crate::collections::lemma_set_add_contains(removed, t2);
                    let fin = self.scan(hv, conf, rest, t1, r2);
                    assert(self.scan(hv, conf, kept, t1, removed) == fin);
                    assert forall|y: u32| removed.contains(y) && !fin.0 implies fin.1.contains(y) by {
                        assert(r2.contains(y));
                    }
                    if !fin.0 {
                        assert(r2.contains(t2));
                        assert(fin.1.contains(t2));
                    }
                    assert forall|y: u32| kept.contains(y) && y != t2 implies rest.contains(y) by {
                        let k = choose|k: int| 0 <= k < kept.len() && kept[k] == y;
                        assert(rest[k - 1] == y);
                    }
                }
            } else {
                self.lemma_scan_complete(hv, conf, rest, t1, removed);
                let fin = self.scan(hv, conf, rest, t1, removed);
                assert(self.scan(hv, conf, kept, t1, removed) == fin);
                assert forall|y: u32| kept.contains(y) && y != t2 implies rest.contains(y) by {
                    let k = choose|k: int| 0 <= k < kept.len() && kept[k] == y;
                    assert(rest[k - 1] == y);
                }
            }
        }
    }

    /// #W3C says:
    /// We start with a list of enabledTransitions and produce a conflict-free list of
    /// filteredTransitions.
    /// (No two different transitions that `removeConflictingTransitions` keeps exit a
    /// common state.)
    pub proof fn lemma_without_conflicts_conflict_free(
        &self,
        hv: Map<u32, Seq<u32>>,
        conf: Seq<u32>,
        enabled: Seq<u32>,
    )
        ensures
            self.conflict_free(hv, conf, self.without_conflicts(hv, conf, enabled)),
        decreases enabled.len(),
    {
        if enabled.len() > 0 {
            let f = self.without_conflicts(hv, conf, enabled.drop_last());
            self.lemma_without_conflicts_conflict_free(hv, conf, enabled.drop_last());
            let t1 = enabled.last();
            let (p, removed) = self.scan(hv, conf, f, t1, Seq::empty());
            if !p {
                self.lemma_scan_complete(hv, conf, f, t1, Seq::empty());
                let kept = remove_each(f, removed);
                let r = set_add(kept, t1);
                crate::collections::lemma_set_add_contains(kept, t1);
                assert forall|x: u32, y: u32|
                    r.contains(x) && r.contains(y) && x != y implies !#[trigger] self.conflict(
                    hv,
                    conf,
                    x,
                    y,
                ) by {
                    lemma_remove_each_contains(f, removed, x);
                    lemma_remove_each_contains(f, removed, y);
                    if x == t1 {
                        assert(f.contains(y) && !removed.contains(y));
                    } else if y == t1 {
                        assert(f.contains(x) && !removed.contains(x));
                        if self.conflict(hv, conf, x, y) {
                            let w = choose|w: u32|
                                self.exit_set(hv, conf, seq![x]).contains(w) && self.exit_set(
                                    hv,
                                    conf,
                                    seq![y],
                                ).contains(w);
                            assert(self.conflict(hv, conf, t1, x));
                        }
                    } else {
                        assert(f.contains(x) && f.contains(y));
                    }
                }
            }
        }
    }
}

/// Inserts `x` into `sorted` after every element whose key (first component) is at most
/// the key of `x`.
pub open spec fn insert_by_key(sorted: Seq<(u32, u32)>, x: (u32, u32)) -> Seq<(u32, u32)>
    decreases sorted.len(),
{
    if sorted.len() == 0 {
        seq![x]
    } else if sorted.last().0 <= x.0 {
        sorted.push(x)
    } else {
        insert_by_key(sorted.drop_last(), x).push(sorted.last())
    }
}

/// `s` sorted by key, keeping elements with equal keys in their order (a stable sort).
pub open spec fn sort_by_key(s: Seq<(u32, u32)>) -> Seq<(u32, u32)>
    decreases s.len(),
{
    if s.len() == 0 {
        Seq::empty()
    } else {
        insert_by_key(sort_by_key(s.drop_last()), s.last())
    }
}

/// The keys ascend.
pub open spec fn keys_sorted(s: Seq<(u32, u32)>) -> bool {
    forall|i: int, j: int| 0 <= i < j < s.len() ==> #[trigger] s[i].0 <= #[trigger] s[j].0
}

proof fn lemma_insert_by_key(sorted: Seq<(u32, u32)>, x: (u32, u32))
    requires
        keys_sorted(sorted),
    ensures
        keys_sorted(insert_by_key(sorted, x)),
        insert_by_key(sorted, x).to_multiset() == sorted.to_multiset().insert(x),
    decreases sorted.len(),
{
    broadcast use vstd::multiset::group_multiset_axioms;
    broadcast use vstd::seq_lib::group_to_multiset_ensures;

    if sorted.len() == 0 {
        assert(seq![x] =~= Seq::<(u32, u32)>::empty().push(x));
    } else if sorted.last().0 <= x.0 {
        let r = sorted.push(x);
        assert forall|i: int, j: int| 0 <= i < j < r.len() implies #[trigger] r[i].0 <= #[trigger] r[j].0 by {
            if j == r.len() - 1 && i < sorted.len() - 1 {
                assert(sorted[i].0 <= sorted[sorted.len() - 1].0);
            }
        }
    } else {
        let p = sorted.drop_last();
        assert forall|i: int, j: int| 0 <= i < j < p.len() implies #[trigger] p[i].0 <= #[trigger] p[j].0 by {
            assert(p[i] == sorted[i] && p[j] == sorted[j]);
        }
        lemma_insert_by_key(p, x);
        let q = insert_by_key(p, x);
        let r = q.push(sorted.last());
        assert forall|i: int, j: int| 0 <= i < j < r.len() implies #[trigger] r[i].0 <= #[trigger] r[j].0 by {
            if j == r.len() - 1 {
                let e = r[i];
                assert(q.contains(e));
                assert(q.to_multiset().count(e) > 0);
                if e == x {
                } else {
                    assert(p.to_multiset().count(e) > 0);
                    assert(p.contains(e));
                    let k = choose|k: int| 0 <= k < p.len() && p[k] == e;
                    assert(sorted[k] == e);
                    assert(sorted[k].0 <= sorted[sorted.len() - 1].0);
                }
            }
        }
        assert(sorted =~= p.push(sorted.last()));
    }
}

/// A stable sort gives the same elements with ascending keys.
pub proof fn lemma_sort_by_key(s: Seq<(u32, u32)>)
    ensures
        keys_sorted(sort_by_key(s)),
        sort_by_key(s).to_multiset() == s.to_multiset(),
    decreases s.len(),
{
    broadcast use vstd::multiset::group_multiset_axioms;
    broadcast use vstd::seq_lib::group_to_multiset_ensures;

    if s.len() > 0 {
        lemma_sort_by_key(s.drop_last());
        lemma_insert_by_key(sort_by_key(s.drop_last()), s.last());
        assert(s =~= s.drop_last().push(s.last()));
    }
}

/// Sorts pairs by their first component, keeping pairs with equal keys in their order.
pub fn sort_pairs_by_key(items: &Vec<(u32, u32)>) -> (r: Vec<(u32, u32)>)
    ensures
        r@ == sort_by_key(items@),
{
    let mut result: Vec<(u32, u32)> = Vec::new();
    let mut i: usize = 0;
    while i < items.len()
        invariant
            i <= items@.len(),
            result@ == sort_by_key(items@.take(i as int)),
        decreases items@.len() - i,
    {
        let x = items[i];
        let ghost sorted = result@;
        let mut j: usize = result.len();
        assert(sorted.take(j as int) =~= sorted);
        assert(sorted.skip(j as int) =~= Seq::<(u32, u32)>::empty());
        while j > 0 && result[j - 1].0 > x.0
            invariant
                result@ == sorted,
                j <= sorted.len(),
                insert_by_key(sorted, x) == insert_by_key(sorted.take(j as int), x) + sorted.skip(
                    j as int,
                ),
            decreases j,
        {
            let ghost t = sorted.take(j as int);
            assert(t.drop_last() =~= sorted.take(j - 1));
            assert(t.last() == sorted[j - 1]);
            assert(insert_by_key(t, x) == insert_by_key(t.drop_last(), x).push(t.last()));
            assert(insert_by_key(sorted.take(j - 1), x).push(sorted[j - 1]) + sorted.skip(j as int)
                =~= insert_by_key(sorted.take(j - 1), x) + sorted.skip(j - 1));
            j = j - 1;
        }
        proof {
            let t = sorted.take(j as int);
            if j > 0 {
                assert(t.last() == sorted[j - 1]);
            }
            assert(insert_by_key(t, x) == t.push(x));
            assert(t.push(x) + sorted.skip(j as int) =~= sorted.insert(j as int, x));
            let ti = items@.take(i + 1);
            assert(ti.drop_last() =~= items@.take(i as int));
            assert(ti.last() == x);
        }
        result.insert(j, x);
        i = i + 1;
    }
    assert(items@.take(items@.len() as int) =~= items@);
    result
}

/// The view of an optional name.
pub open spec fn opt_view(name: Option<&String>) -> Option<Seq<char>> {
    match name {
        Some(n) => Some(n@),
        None => None,
    }
}

/// The second components.
pub open spec fn seconds(p: Seq<(u32, u32)>) -> Seq<u32> {
    p.map_values(|x: (u32, u32)| x.1)
}

/// `g[k]` is the first element of `g` for which `f` returned true: it returned false for
/// the ones before.
pub open spec fn first_true<F: Fn(u32) -> bool>(g: Seq<u32>, k: int, f: F) -> bool {
    &&& 0 <= k < g.len()
    &&& f.ensures((g[k],), true)
    &&& forall|j: int| 0 <= j < k ==> f.ensures((#[trigger] g[j],), false)
}

/// `picks` holds, group by group, the first element for which `f` returned true, skipping
/// the groups where it returned false for every element.
pub open spec fn picks_from<F: Fn(u32) -> bool>(groups: Seq<Seq<u32>>, picks: Seq<u32>, f: F) -> bool
    decreases groups.len(),
{
    if groups.len() == 0 {
        picks.len() == 0
    } else {
        let g = groups.last();
        ||| (exists|k: int|
            first_true(g, k, f) && picks.len() > 0 && picks.last() == g[k] && picks_from(
                groups.drop_last(),
                picks.drop_last(),
                f,
            ))
        ||| ((forall|j: int| 0 <= j < g.len() ==> f.ensures((#[trigger] g[j],), false))
            && picks_from(groups.drop_last(), picks, f))
    }
}

impl Fsm {
    // -----------------------------------------------------------------------
    // Document order and the selection of transitions.
    // -----------------------------------------------------------------------

    /// The states `ids` in document order (by `doc_id`; equal ones keep their order).
    pub open spec fn states_in_doc_order(&self, ids: Seq<u32>) -> Seq<u32> {
        seconds(sort_by_key(ids.map_values(|s: u32| (self.state(s).doc_id, s))))
    }

    /// The transitions `ids` in document order (by `doc_id`; equal ones keep their order).
    pub open spec fn transitions_in_doc_order(&self, ids: Seq<u32>) -> Seq<u32> {
        seconds(sort_by_key(ids.map_values(|t: u32| (self.transition(t).doc_id, t))))
    }

    /// Transition `t` is one that `name` selects: for an event name, a transition with
    /// events among which is the name; for no name, an eventless transition.
    pub open spec fn matches_event(&self, t: u32, name: Option<Seq<char>>) -> bool {
        let ev = self.transition(t).events@;
        match name {
            Some(n) => ev.len() > 0 && exists|i: int| 0 <= i < ev.len() && #[trigger] ev[i]@ == n,
            None => ev.len() == 0,
        }
    }

    /// The transitions of state `s` that `name` selects, in document order.
    pub open spec fn state_candidates(&self, s: u32, name: Option<Seq<char>>) -> Seq<u32> {
        self.transitions_in_doc_order(self.state(s).transitions@).filter(
            |t: u32| self.matches_event(t, name),
        )
    }

    /// The candidates of the states `ss`, one state after the other.
    pub open spec fn candidates_of(&self, ss: Seq<u32>, name: Option<Seq<char>>) -> Seq<u32>
        decreases ss.len(),
    {
        if ss.len() == 0 {
            Seq::empty()
        } else {
            self.candidates_of(ss.drop_last(), name) + self.state_candidates(ss.last(), name)
        }
    }

    /// The atomic states of the configuration, in document order.
    pub open spec fn atomic_states(&self, conf: Seq<u32>) -> Seq<u32> {
        self.states_in_doc_order(conf.filter(|s: u32| self.state(s).states@.len() == 0))
    }

    /// For each atomic state of the configuration, in document order: the transitions that
    /// `name` selects of the state and then of each of its ancestors.
    pub open spec fn candidate_groups(&self, conf: Seq<u32>, name: Option<Seq<char>>) -> Seq<
        Seq<u32>,
    > {
        self.atomic_states(conf).map_values(
            |s: u32| self.candidates_of(seq![s] + self.proper_ancestors(s, 0), name),
        )
    }

    /// The states `ids` in document order.
    fn sort_states_by_document_order(&self, ids: &Vec<u32>) -> (r: Vec<u32>)
        requires
            self.all_valid(ids@),
        ensures
            r@ == self.states_in_doc_order(ids@),
    {
        let mut pairs: Vec<(u32, u32)> = Vec::new();
        let mut i: usize = 0;
        while i < ids.len()
            invariant
                self.all_valid(ids@),
                i <= ids@.len(),
                pairs@ == ids@.take(i as int).map_values(|s: u32| (self.state(s).doc_id, s)),
            decreases ids@.len() - i,
        {
            let s = ids[i];
            assert(self.valid_state(s));
            pairs.push((self.get_state_by_id(s).doc_id, s));
            assert(ids@.take(i + 1).map_values(|s: u32| (self.state(s).doc_id, s)) =~= ids@.take(
                i as int,
            ).map_values(|s: u32| (self.state(s).doc_id, s)).push((self.state(s).doc_id, s)));
            i = i + 1;
        }
        assert(ids@.take(ids@.len() as int) =~= ids@);
        let sorted = sort_pairs_by_key(&pairs);
        let mut r: Vec<u32> = Vec::new();
        let mut j: usize = 0;
        while j < sorted.len()
            invariant
                j <= sorted@.len(),
                r@ == seconds(sorted@.take(j as int)),
            decreases sorted@.len() - j,
        {
            r.push(sorted[j].1);
            assert(seconds(sorted@.take(j + 1)) =~= seconds(sorted@.take(j as int)).push(
                sorted@[j as int].1,
            ));
            j = j + 1;
        }
        assert(sorted@.take(sorted@.len() as int) =~= sorted@);
        r
    }

    /// The transitions `ids` in document order.
    fn sort_transitions_by_document_order(&self, ids: &Vec<u32>) -> (r: Vec<u32>)
        requires
            forall|i: int| 0 <= i < ids@.len() ==> self.valid_transition(#[trigger] ids@[i]),
        ensures
            r@ == self.transitions_in_doc_order(ids@),
    {
        let mut pairs: Vec<(u32, u32)> = Vec::new();
        let mut i: usize = 0;
        while i < ids.len()
            invariant
                forall|i: int| 0 <= i < ids@.len() ==> self.valid_transition(#[trigger] ids@[i]),
                i <= ids@.len(),
                pairs@ == ids@.take(i as int).map_values(|t: u32| (self.transition(t).doc_id, t)),
            decreases ids@.len() - i,
        {
            let t = ids[i];
            pairs.push((self.get_transition_by_id(t).doc_id, t));
            assert(ids@.take(i + 1).map_values(|t: u32| (self.transition(t).doc_id, t))
                =~= ids@.take(i as int).map_values(|t: u32| (self.transition(t).doc_id, t)).push(
                (self.transition(t).doc_id, t),
            ));
            i = i + 1;
        }
        assert(ids@.take(ids@.len() as int) =~= ids@);
        let sorted = sort_pairs_by_key(&pairs);
        let mut r: Vec<u32> = Vec::new();
        let mut j: usize = 0;
        while j < sorted.len()
            invariant
                j <= sorted@.len(),
                r@ == seconds(sorted@.take(j as int)),
            decreases sorted@.len() - j,
        {
            r.push(sorted[j].1);
            assert(seconds(sorted@.take(j + 1)) =~= seconds(sorted@.take(j as int)).push(
                sorted@[j as int].1,
            ));
            j = j + 1;
        }
        assert(sorted@.take(sorted@.len() as int) =~= sorted@);
        r
    }

    proof fn lemma_sorted_transitions_valid(&self, ids: Seq<u32>)
        requires
            forall|i: int| 0 <= i < ids.len() ==> self.valid_transition(#[trigger] ids[i]),
        ensures
            forall|i: int|
                0 <= i < self.transitions_in_doc_order(ids).len() ==> self.valid_transition(
                    #[trigger] self.transitions_in_doc_order(ids)[i],
                ),
    {
        broadcast use vstd::multiset::group_multiset_axioms;
        broadcast use vstd::seq_lib::group_to_multiset_ensures;

        let pairs = ids.map_values(|t: u32| (self.transition(t).doc_id, t));
        lemma_sort_by_key(pairs);
        let sorted = sort_by_key(pairs);
        let r = self.transitions_in_doc_order(ids);
        assert forall|i: int| 0 <= i < r.len() implies self.valid_transition(#[trigger] r[i]) by {
            let e = sorted[i];
            assert(sorted.contains(e));
            assert(sorted.to_multiset().count(e) > 0);
            assert(pairs.contains(e));
            let k = choose|k: int| 0 <= k < pairs.len() && pairs[k] == e;
            assert(pairs[k] == (self.transition(ids[k]).doc_id, ids[k]));
        }
    }

    /// The transitions of state `s` that `name` selects, in document order.
    fn state_candidates_of(&self, s: u32, name: Option<&String>) -> (r: Vec<u32>)
        requires
            self.wf(),
            self.valid_state(s),
        ensures
            r@ == self.state_candidates(
                s,
                opt_view(name),
            ),
    {
        let ghost nm = opt_view(name);
        let state = self.get_state_by_id(s);
        proof {
            assert(self.state_ok(s - 1));
            self.lemma_sorted_transitions_valid(state.transitions@);
        }
        let sorted = self.sort_transitions_by_document_order(&state.transitions);
        let ghost pred = |t: u32| self.matches_event(t, nm);
        let mut r: Vec<u32> = Vec::new();
        let mut i: usize = 0;
        while i < sorted.len()
            invariant
                self.wf(),
                pred == (|t: u32| self.matches_event(t, nm)),
                nm == opt_view(name),
                forall|i: int| 0 <= i < sorted@.len() ==> self.valid_transition(#[trigger] sorted@[i]),
                i <= sorted@.len(),
                r@ == sorted@.take(i as int).filter(pred),
            decreases sorted@.len() - i,
        {
            let tid = sorted[i];
            let t = self.get_transition_by_id(tid);
            let selected = match name {
                Some(n) => t.events.len() > 0 && self.nameMatch(&t.events, n),
                None => t.events.len() == 0,
            };
            proof {
                assert(sorted@.take(i + 1) =~= sorted@.take(i as int).push(tid));
                sorted@.take(i as int).lemma_filter_push(tid, pred);
                assert(selected == pred(tid));
            }
            if selected {
                r.push(tid);
            }
            i = i + 1;
        }
        assert(sorted@.take(sorted@.len() as int) =~= sorted@);
        r
    }

    /// The candidate transitions of an atomic state: those of the state, then those of
    /// each of its ancestors.
    fn candidates_for(&self, s: u32, name: Option<&String>) -> (r: Vec<u32>)
        requires
            self.wf(),
            self.valid_state(s),
        ensures
            r@ == self.candidates_of(
                seq![s] + self.proper_ancestors(s, 0),
                opt_view(name),
            ),
    {
        let ghost nm = opt_view(name);
        let ancestors = self.getProperAncestors(s, 0);
        proof {
            self.lemma_ancestors_valid(s, 0, self.states@.len());
        }
        let mut states: List<u32> = List::new();
        states.push(s);
        let all = states.appendSet(&ancestors);
        assert(all@ == seq![s] + ancestors@);
        let mut r: Vec<u32> = Vec::new();
        let mut i: usize = 0;
        while i < all.size()
            invariant
                self.wf(),
                nm == opt_view(name),
                self.valid_state(s),
                self.all_valid(ancestors@),
                all@ == seq![s] + ancestors@,
                i <= all@.len(),
                r@ == self.candidates_of(all@.take(i as int), nm),
            decreases all@.len() - i,
        {
            let a = *all.get(i);
            proof {
                if i > 0 {
                    assert(all@[i as int] == ancestors@[i - 1]);
                }
                let t = all@.take(i + 1);
                assert(t.drop_last() =~= all@.take(i as int));
                assert(t.last() == a);
            }
            let mine = self.state_candidates_of(a, name);
            let mut j: usize = 0;
            let ghost before = r@;
            while j < mine.len()
                invariant
                    j <= mine@.len(),
                    r@ == before + mine@.take(j as int),
                decreases mine@.len() - j,
            {
                r.push(mine[j]);
                assert(before + mine@.take(j + 1) =~= (before + mine@.take(j as int)).push(mine@[j as int]));
                j = j + 1;
            }
            assert(mine@.take(mine@.len() as int) =~= mine@);
            i = i + 1;
        }
        assert(all@.take(all@.len() as int) =~= all@);
        r
    }

    /// The candidate transitions of every atomic state of the configuration, in document
    /// order of the states.
    fn candidate_groups_of(&self, global: &GlobalData, name: Option<&String>) -> (r: Vec<Vec<u32>>)
        requires
            self.wf(),
            self.global_ok(global),
        ensures
            r@.len() == self.candidate_groups(
                global.configuration@,
                opt_view(name),
            ).len(),
            forall|i: int|
                0 <= i < r@.len() ==> #[trigger] r@[i]@ == self.candidate_groups(
                    global.configuration@,
                    opt_view(name),
                )[i],
    {
        let ghost nm = opt_view(name);
        let ghost conf = global.configuration@;
        let ghost pred = |s: u32| self.state(s).states@.len() == 0;
        let mut atomic: Vec<u32> = Vec::new();
        let mut i: usize = 0;
        while i < global.configuration.size()
            invariant
                self.wf(),
                self.global_ok(global),
                conf == global.configuration@,
                pred == (|s: u32| self.state(s).states@.len() == 0),
                i <= conf.len(),
                atomic@ == conf.take(i as int).filter(pred),
            decreases conf.len() - i,
        {
            let s = *global.configuration.get(i);
            proof {
                assert(conf.take(i + 1) =~= conf.take(i as int).push(s));
                conf.take(i as int).lemma_filter_push(s, pred);
            }
            if self.isAtomicStateId(&s) {
                atomic.push(s);
            }
            i = i + 1;
        }
        assert(conf.take(conf.len() as int) =~= conf);
        proof {
            broadcast use vstd::seq_lib::group_filter_ensures;

            assert forall|k: int| 0 <= k < atomic@.len() implies self.valid_state(#[trigger] atomic@[k]) by {
                assert(atomic@.contains(atomic@[k]));
                conf.lemma_filter_contains_rev(pred, atomic@[k]);
            }
        }
        let ordered = self.sort_states_by_document_order(&atomic);
        proof {
            broadcast use vstd::multiset::group_multiset_axioms;
            broadcast use vstd::seq_lib::group_to_multiset_ensures;

            let pairs = atomic@.map_values(|s: u32| (self.state(s).doc_id, s));
            lemma_sort_by_key(pairs);
            let sorted = sort_by_key(pairs);
            assert forall|k: int| 0 <= k < ordered@.len() implies self.valid_state(#[trigger] ordered@[k]) by {
                let e = sorted[k];
                assert(sorted.contains(e));
                assert(sorted.to_multiset().count(e) > 0);
                assert(pairs.contains(e));
                let m = choose|m: int| 0 <= m < pairs.len() && pairs[m] == e;
                assert(pairs[m] == (self.state(atomic@[m]).doc_id, atomic@[m]));
            }
        }
        let mut groups: Vec<Vec<u32>> = Vec::new();
        let mut j: usize = 0;
        while j < ordered.len()
            invariant
                self.wf(),
                nm == opt_view(name),
                ordered@ == self.atomic_states(conf),
                self.all_valid(ordered@),
                j <= ordered@.len(),
                groups@.len() == j,
                forall|k: int|
                    0 <= k < j ==> #[trigger] groups@[k]@ == self.candidates_of(
                        seq![ordered@[k]] + self.proper_ancestors(ordered@[k], 0),
                        nm,
                    ),
            decreases ordered@.len() - j,
        {
            let g = self.candidates_for(ordered[j], name);
            groups.push(g);
            j = j + 1;
        }
        groups
    }

    /// Picks, group by group, the first transition whose condition holds, and resolves the
    /// conflicts among the picks.
    fn select_with<F: Fn(u32) -> bool>(&self, global: &GlobalData, name: Option<&String>, conditionMatch: &F) -> (r: OrderedSet<u32>)
        requires
            self.wf(),
            self.global_ok(global),
            forall|t: u32| conditionMatch.requires((t,)),
            forall|i: int|
                0 <= i < self.candidate_groups(
                    global.configuration@,
                    opt_view(name),
                ).len() ==> self.tids_ok(
                    global.historyValue@,
                    #[trigger] self.candidate_groups(
                        global.configuration@,
                        opt_view(name),
                    )[i],
                ),
        ensures
            exists|picks: Seq<u32>|
                picks_from(
                    self.candidate_groups(
                        global.configuration@,
                        opt_view(name),
                    ),
                    picks,
                    *conditionMatch,
                ) && r@ == self.without_conflicts(
                    global.historyValue@,
                    global.configuration@,
                    set_add_all(Seq::empty(), picks),
                ),
            self.tids_ok(global.historyValue@, r@),
    {
        let ghost nm = opt_view(name);
        let ghost hv = global.historyValue@;
        let ghost all_groups = self.candidate_groups(global.configuration@, nm);
        let groups = self.candidate_groups_of(global, name);
        let mut enabledTransitions: OrderedSet<u32> = OrderedSet::new();
        let ghost mut picks: Seq<u32> = Seq::empty();
        let mut i: usize = 0;
        assert(all_groups.take(0) =~= Seq::<Seq<u32>>::empty());
        while i < groups.len()
            invariant
                forall|t: u32| conditionMatch.requires((t,)),
                groups@.len() == all_groups.len(),
                forall|k: int| 0 <= k < groups@.len() ==> #[trigger] groups@[k]@ == all_groups[k],
                forall|k: int| 0 <= k < all_groups.len() ==> self.tids_ok(hv, #[trigger] all_groups[k]),
                i <= groups@.len(),
                picks_from(all_groups.take(i as int), picks, *conditionMatch),
                enabledTransitions@ == set_add_all(Seq::empty(), picks),
                self.tids_ok(hv, picks),
            decreases groups@.len() - i,
        {
            let g = &groups[i];
            assert(g@ == all_groups[i as int]);
            let mut k: usize = 0;
            let mut found = false;
            while k < g.len()
                invariant
                    forall|t: u32| conditionMatch.requires((t,)),
                    k <= g@.len(),
                    !found ==> forall|j: int| 0 <= j < k ==> conditionMatch.ensures((#[trigger] g@[j],), false),
                    found ==> k < g@.len() && first_true(g@, k as int, *conditionMatch),
                ensures
                    found ==> k < g@.len() && first_true(g@, k as int, *conditionMatch),
                    !found ==> forall|j: int|
                        0 <= j < g@.len() ==> conditionMatch.ensures((#[trigger] g@[j],), false),
                decreases g@.len() - k + (if found { 0int } else { 1int }),
            {
                if found {
                    break;
                }
                let ct = g[k];
                if conditionMatch(ct) {
                    found = true;
                } else {
                    k = k + 1;
                }
            }
            proof {
                let prefix = all_groups.take(i + 1);
                assert(prefix.drop_last() =~= all_groups.take(i as int));
                assert(prefix.last() == g@);
            }
            if found {
                let ct = g[k];
                enabledTransitions.add(ct);
                proof {
                    let old_picks = picks;
                    picks = picks.push(ct);
                    assert(picks.drop_last() =~= old_picks);
                    assert(picks.last() == g@[k as int]);
                    let prefix = all_groups.take(i + 1);
                    assert(first_true(prefix.last(), k as int, *conditionMatch) && picks.len() > 0
                        && picks.last() == prefix.last()[k as int] && picks_from(
                        prefix.drop_last(),
                        picks.drop_last(),
                        *conditionMatch,
                    ));
                    assert(picks_from(prefix, picks, *conditionMatch));
                    assert(set_add_all(Seq::<u32>::empty(), picks) == set_add(set_add_all(Seq::<u32>::empty(), old_picks), ct));
                    assert(g@.contains(ct));
                    assert(self.trans_ok(hv, ct));
                    assert forall|x: u32| picks.contains(x) implies #[trigger] self.trans_ok(hv, x) by {
                        if x != ct {
                            let m = choose|m: int| 0 <= m < picks.len() && picks[m] == x;
                            assert(old_picks[m] == x);
                        }
                    }
                }
            }
            i = i + 1;
        }
        assert(all_groups.take(all_groups.len() as int) =~= all_groups);
        proof {
            crate::collections::lemma_set_add_all_contains(Seq::<u32>::empty(), picks);
            assert forall|x: u32| enabledTransitions@.contains(x) implies #[trigger] self.trans_ok(hv, x) by {
            }
        }
        self.removeConflictingTransitions(global, &enabledTransitions)
    }

    /// #W3C says:
    /// # function selectTransitions(event)
    /// The purpose of the selectTransitions()procedure is to collect the transitions that
    /// are enabled by this event in the current configuration.
    ///
    /// Create an empty set of enabledTransitions. For each atomic state , find a transition
    /// whose 'event' attribute matches event and whose condition evaluates to true. If
    /// multiple matching transitions are present, take the first in document order. If none
    /// are present, search in the state's ancestors in ancestry order until one is found. As
    /// soon as such a transition is found, add it to enabledTransitions, and proceed to the
    /// next atomic state in the configuration. If no such transition is found in the state
    /// or its ancestors, proceed to the next state in the configuration. When all atomic
    /// states have been visited and transitions selected, filter out any preempted
    /// transitions and return the resulting set.
    /// #Actual implementation:
    /// `conditionMatch` evaluates the condition of a transition with the data model.
    #[allow(non_snake_case)]
    pub fn selectTransitions<F: Fn(u32) -> bool>(&self, global: &GlobalData, event: &Event, conditionMatch: &F) -> (r: OrderedSet<u32>)
        requires
            self.wf(),
            self.global_ok(global),
            forall|t: u32| conditionMatch.requires((t,)),
            forall|i: int|
                0 <= i < self.candidate_groups(global.configuration@, Some(event.name@)).len()
                    ==> self.tids_ok(
                    global.historyValue@,
                    #[trigger] self.candidate_groups(global.configuration@, Some(event.name@))[i],
                ),
        ensures
            exists|picks: Seq<u32>|
                picks_from(
                    self.candidate_groups(global.configuration@, Some(event.name@)),
                    picks,
                    *conditionMatch,
                ) && r@ == self.without_conflicts(
                    global.historyValue@,
                    global.configuration@,
                    set_add_all(Seq::empty(), picks),
                ),
            self.tids_ok(global.historyValue@, r@),
    {
        self.select_with(global, Some(&event.name), conditionMatch)
    }

    /// #W3C says:
    /// # function selectEventlessTransitions()
    /// This function selects all transitions that are enabled in the current configuration
    /// that do not require an event trigger. First find a transition with no 'event'
    /// attribute whose condition evaluates to true. If multiple matching transitions are
    /// present, take the first in document order. If none are present, search in the
    /// state's ancestors in ancestry order until one is found. As soon as such a transition
    /// is found, add it to enabledTransitions, and proceed to the next atomic state in the
    /// configuration. If no such transition is found in the state or its ancestors, proceed
    /// to the next state in the configuration. When all atomic states have been visited and
    /// transitions selected, filter out any preempted transitions and return the resulting
    /// set.
    /// #Actual implementation:
    /// `conditionMatch` evaluates the condition of a transition with the data model.
    #[allow(non_snake_case)]
    pub fn selectEventlessTransitions<F: Fn(u32) -> bool>(&self, global: &GlobalData, conditionMatch: &F) -> (r: OrderedSet<u32>)
        requires
            self.wf(),
            self.global_ok(global),
            forall|t: u32| conditionMatch.requires((t,)),
            forall|i: int|
                0 <= i < self.candidate_groups(global.configuration@, None).len() ==> self.tids_ok(
                    global.historyValue@,
                    #[trigger] self.candidate_groups(global.configuration@, None)[i],
                ),
        ensures
            exists|picks: Seq<u32>|
                picks_from(self.candidate_groups(global.configuration@, None), picks, *conditionMatch)
                    && r@ == self.without_conflicts(
                    global.historyValue@,
                    global.configuration@,
                    set_add_all(Seq::empty(), picks),
                ),
            self.tids_ok(global.historyValue@, r@),
    {
        self.select_with(global, None, conditionMatch)
    }
}

impl Fsm {
    // -----------------------------------------------------------------------
    // Leaving states.
    // -----------------------------------------------------------------------

    /// #W3C says:
    /// if s has a deep history state h, set the history value of h to be the list of all
    /// atomic descendants of s that are members in the current configuration, else set its
    /// value to be the list of all immediate children of s that are members of the current
    /// configuration.
    pub open spec fn history_of(&self, conf: Seq<u32>, s: u32, h: u32) -> Seq<u32> {
        if self.state(h).history_type == HistoryType::Deep {
            set_add_all(
                Seq::empty(),
                conf.filter(|s0: u32| self.state(s0).states@.len() == 0 && self.is_descendant(s0, s)),
            )
        } else {
            set_add_all(Seq::empty(), conf.filter(|s0: u32| self.state(s0).parent == s))
        }
    }

    /// Records in `m` the history values of the history states `hs` of state `s`, in order.
    pub open spec fn record_histories(
        &self,
        m: Map<u32, Seq<u32>>,
        conf: Seq<u32>,
        s: u32,
        hs: Seq<u32>,
    ) -> Map<u32, Seq<u32>>
        decreases hs.len(),
    {
        if hs.len() == 0 {
            m
        } else {
            self.record_histories(m, conf, s, hs.drop_last()).insert(
                hs.last(),
                self.history_of(conf, s, hs.last()),
            )
        }
    }

    /// Records the history values of the history states of each of `states`, in order.
    pub open spec fn record_exits(&self, m: Map<u32, Seq<u32>>, conf: Seq<u32>, states: Seq<u32>) -> Map<
        u32,
        Seq<u32>,
    >
        decreases states.len(),
    {
        if states.len() == 0 {
            m
        } else {
            let prev = self.record_exits(m, conf, states.drop_last());
            self.record_histories(prev, conf, states.last(), self.state(states.last()).history@)
        }
    }

    /// The states that taking `transitions` exits, in exit order (document order).
    pub open spec fn exit_order(
        &self,
        hv: Map<u32, Seq<u32>>,
        conf: Seq<u32>,
        transitions: Seq<u32>,
    ) -> Seq<u32> {
        self.states_in_doc_order(self.exit_set(hv, conf, transitions))
    }

    /// Content ids in document order (ascending).
    pub open spec fn content_in_order(ids: Seq<u32>) -> Seq<u32> {
        seconds(sort_by_key(ids.map_values(|c: u32| (c, c))))
    }

    /// The contents run when the states are exited, in order: the onexit contents of each
    /// state in document order.
    pub open spec fn exit_contents(&self, states: Seq<u32>) -> Seq<u32>
        decreases states.len(),
    {
        if states.len() == 0 {
            Seq::empty()
        } else {
            self.exit_contents(states.drop_last()) + Self::content_in_order(
                self.state(states.last()).onexit@,
            )
        }
    }

    /// The contents of the transitions, in order; a transition without content runs none.
    pub open spec fn transition_contents(&self, tids: Seq<u32>) -> Seq<u32>
        decreases tids.len(),
    {
        if tids.len() == 0 {
            Seq::empty()
        } else {
            let c = self.transition(tids.last()).content;
            self.transition_contents(tids.drop_last()) + (if c > 0 {
                seq![c]
            } else {
                Seq::empty()
            })
        }
    }

    /// The contents run when the state `s` is entered: its onentry contents in document
    /// order, then the content of its initial transition if it is entered by default, then
    /// the default content of a history state of it; contents 0 are none.
    pub open spec fn state_entry_contents(&self, s: u32, es: EntrySets) -> Seq<u32> {
        nonzero(
            Self::content_in_order(self.state(s).onentry@) + (if es.default_entry.contains(s)
                && self.state(s).initial > 0 {
                seq![self.transition(self.state(s).initial).content]
            } else {
                Seq::empty()
            }) + (if es.history_content.contains_key(s) {
                seq![es.history_content[s]]
            } else {
                Seq::empty()
            }),
        )
    }

    /// The contents run when the states are entered, in order.
    pub open spec fn entry_contents(&self, states: Seq<u32>, es: EntrySets) -> Seq<u32>
        decreases states.len(),
    {
        if states.len() == 0 {
            Seq::empty()
        } else {
            self.entry_contents(states.drop_last(), es) + self.state_entry_contents(states.last(), es)
        }
    }

    /// Sorts content ids in ascending order.
    fn sort_content(ids: &Vec<u32>) -> (r: Vec<u32>)
        ensures
            r@ == Self::content_in_order(ids@),
    {
        let mut pairs: Vec<(u32, u32)> = Vec::new();
        let mut i: usize = 0;
        while i < ids.len()
            invariant
                i <= ids@.len(),
                pairs@ == ids@.take(i as int).map_values(|c: u32| (c, c)),
            decreases ids@.len() - i,
        {
            pairs.push((ids[i], ids[i]));
            assert(ids@.take(i + 1).map_values(|c: u32| (c, c)) =~= ids@.take(i as int).map_values(
                |c: u32| (c, c),
            ).push((ids@[i as int], ids@[i as int])));
            i = i + 1;
        }
        assert(ids@.take(ids@.len() as int) =~= ids@);
        let sorted = sort_pairs_by_key(&pairs);
        let mut r: Vec<u32> = Vec::new();
        let mut j: usize = 0;
        while j < sorted.len()
            invariant
                j <= sorted@.len(),
                r@ == seconds(sorted@.take(j as int)),
            decreases sorted@.len() - j,
        {
            r.push(sorted[j].1);
            assert(seconds(sorted@.take(j + 1)) =~= seconds(sorted@.take(j as int)).push(
                sorted@[j as int].1,
            ));
            j = j + 1;
        }
        assert(sorted@.take(sorted@.len() as int) =~= sorted@);
        r
    }

    /// The set of the states of the configuration that pass `keep`, in configuration order.
    fn history_value(&self, global: &GlobalData, s: u32, h: u32) -> (r: OrderedSet<u32>)
        requires
            self.wf(),
            self.global_ok(global),
            self.valid_state(s),
            self.valid_state(h),
        ensures
            r@ == self.history_of(global.configuration@, s, h),
    {
        let ghost conf = global.configuration@;
        let deep = self.get_state_by_id(h).history_type == HistoryType::Deep;
        let ghost pred = if deep {
            |s0: u32| self.state(s0).states@.len() == 0 && self.is_descendant(s0, s)
        } else {
            |s0: u32| self.state(s0).parent == s
        };
        let mut r: OrderedSet<u32> = OrderedSet::new();
        let mut i: usize = 0;
        assert(conf.take(0).filter(pred) =~= Seq::<u32>::empty());
        while i < global.configuration.size()
            invariant
                self.wf(),
                self.global_ok(global),
                self.valid_state(s),
                conf == global.configuration@,
                pred == (if deep {
                    |s0: u32| self.state(s0).states@.len() == 0 && self.is_descendant(s0, s)
                } else {
                    |s0: u32| self.state(s0).parent == s
                }),
                i <= conf.len(),
                r@ == set_add_all(Seq::empty(), conf.take(i as int).filter(pred)),
            decreases conf.len() - i,
        {
            let s0 = *global.configuration.get(i);
            proof {
                assert(conf.take(i + 1) =~= conf.take(i as int).push(s0));
                conf.take(i as int).lemma_filter_push(s0, pred);
                let f = conf.take(i as int).filter(pred);
                assert(f.push(s0).drop_last() =~= f);
            }
            let keep = if deep {
                self.isAtomicStateId(&s0) && self.isDescendant(s0, s)
            } else {
                self.get_state_by_id(s0).parent == s
            };
            assert(keep == pred(s0));
            if keep {
                r.add(s0);
            }
            i = i + 1;
        }
        assert(conf.take(conf.len() as int) =~= conf);
        r
    }

    /// #W3C says:
    /// # procedure exitStates(enabledTransitions)
    /// Compute the set of states to exit. Then remove all the states on statesToExit from
    /// the set of states that will have invoke processing done at the start of the next
    /// macrostep. Then convert statesToExit to a list and sort it in exitOrder.
    ///
    /// For each state s in the list, if s has a deep history state h, set the history value
    /// of h to be the list of all atomic descendants of s that are members in the current
    /// configuration, else set its value to be the list of all immediate children of s that
    /// are members of the current configuration. Again for each state s in the list, first
    /// execute any onexit handlers, then cancel any ongoing invocations, and finally remove
    /// s from the current configuration.
    /// #Actual implementation:
    /// `executeContent` runs executable content with the data model. Returns the states
    /// exited, in exit order.
    #[allow(non_snake_case)]
    pub fn exitStates<F: Fn(u32) -> bool>(
        &self,
        global: &mut GlobalData,
        enabledTransitions: &List<u32>,
        executeContent: &F,
        executed: &mut Vec<(u32, bool)>,
    ) -> (r: List<u32>)
        requires
            self.wf(),
            self.global_ok(old(global)),
            self.tids_ok(old(global).historyValue@, enabledTransitions@),
            forall|c: u32| executeContent.requires((c,)),
        ensures
            ran_after(final(executed)@, old(executed)@, self.exit_contents(r@), *executeContent),
            r@ == self.exit_order(
                old(global).historyValue@,
                old(global).configuration@,
                enabledTransitions@,
            ),
            final(global).statesToInvoke@ == remove_each(
                old(global).statesToInvoke@,
                self.exit_set(
                    old(global).historyValue@,
                    old(global).configuration@,
                    enabledTransitions@,
                ),
            ),
            final(global).historyValue@ == old(global).historyValue@.union_prefer_right(
                self.record_exits(Map::empty(), old(global).configuration@, r@),
            ),
            final(global).configuration@ == remove_each(old(global).configuration@, r@),
            final(global).running == old(global).running,
            self.global_ok(final(global)),
    {
        proof {
            broadcast use vstd::std_specs::hash::group_hash_axioms;
        }
        let ghost hv = global.historyValue@;
        let ghost conf = global.configuration@;
        let statesToExit = self.computeExitSet(global, enabledTransitions);
        proof {
            self.lemma_exit_set_valid(hv, conf, enabledTransitions@);
        }
        let mut i: usize = 0;
        let ghost invoke0 = global.statesToInvoke@;
        while i < statesToExit.size()
            invariant
                global.running == old(global).running,
                i <= statesToExit@.len(),
                global.statesToInvoke@ == remove_each(invoke0, statesToExit@.take(i as int)),
                global.configuration@ == conf,
                global.historyValue@ == hv,
            decreases statesToExit@.len() - i,
        {
            let s = statesToExit.get(i);
            proof {
                let t = statesToExit@.take(i + 1);
                assert(t.drop_last() =~= statesToExit@.take(i as int));
                assert(t.last() == *s);
            }
            global.statesToInvoke.delete(s);
            i = i + 1;
        }
        assert(statesToExit@.take(statesToExit@.len() as int) =~= statesToExit@);
        let ghost invoke1 = global.statesToInvoke@;
        assert(invoke1 == remove_each(old(global).statesToInvoke@, statesToExit@));
        let mut exitVec: Vec<u32> = Vec::new();
        let mut k: usize = 0;
        while k < statesToExit.size()
            invariant
                global.running == old(global).running,
                k <= statesToExit@.len(),
                exitVec@ == statesToExit@.take(k as int),
            decreases statesToExit@.len() - k,
        {
            exitVec.push(*statesToExit.get(k));
            assert(statesToExit@.take(k + 1) =~= statesToExit@.take(k as int).push(statesToExit@[k as int]));
            k = k + 1;
        }
        assert(statesToExit@.take(statesToExit@.len() as int) =~= statesToExit@);
        let sorted = self.sort_states_by_document_order(&exitVec);
        proof {
            self.lemma_doc_order_valid(exitVec@);
        }
        let mut ahistory: HashTable<u32, OrderedSet<u32>> = HashTable::new();
        let mut j: usize = 0;
        while j < sorted.len()
            invariant
                global.running == old(global).running,
                self.wf(),
                self.global_ok(global),
                global.configuration@ == conf,
                self.all_valid(sorted@),
                j <= sorted@.len(),
                ahistory@ == self.record_exits(Map::empty(), conf, sorted@.take(j as int)),
                global.statesToInvoke@ == invoke1,
                global.historyValue@ == hv,
                forall|h: u32, x: int|
                    ahistory@.contains_key(h) && 0 <= x < ahistory@[h].len() ==> self.valid_state(
                        #[trigger] ahistory@[h][x],
                    ),
            decreases sorted@.len() - j,
        {
            let sid = sorted[j];
            let s = self.get_state_by_id(sid);
            proof {
                assert(self.state_ok(sid - 1));
                let t = sorted@.take(j + 1);
                assert(t.drop_last() =~= sorted@.take(j as int));
                assert(t.last() == sid);
            }
            let ghost before = ahistory@;
            let mut m: usize = 0;
            while m < s.history.len()
                invariant
                    global.running == old(global).running,
                global.running == old(global).running,
                    self.wf(),
                    self.global_ok(global),
                    global.configuration@ == conf,
                    self.valid_state(sid),
                    *s == self.state(sid),
                    m <= s.history@.len(),
                    ahistory@ == self.record_histories(before, conf, sid, s.history@.take(m as int)),
                    global.statesToInvoke@ == invoke1,
                    global.historyValue@ == hv,
                    forall|h: u32, x: int|
                        ahistory@.contains_key(h) && 0 <= x < ahistory@[h].len() ==> self.valid_state(
                            #[trigger] ahistory@[h][x],
                        ),
                decreases s.history@.len() - m,
            {
                let hid = s.history[m];
                proof {
                    assert(self.state_ok(sid - 1));
                    let t = s.history@.take(m + 1);
                    assert(t.drop_last() =~= s.history@.take(m as int));
                    assert(t.last() == hid);
                }
                let value = self.history_value(global, sid, hid);
                proof {
                    self.lemma_history_of_valid(conf, sid, hid);
                }
                ahistory.putMove(hid, value);
                m = m + 1;
            }
            assert(s.history@.take(s.history@.len() as int) =~= s.history@);
            j = j + 1;
        }
        assert(sorted@.take(sorted@.len() as int) =~= sorted@);
        global.historyValue.putAll(&ahistory);
        let ghost hist1 = global.historyValue@;
        assert(hist1 == hv.union_prefer_right(self.record_exits(Map::empty(), conf, sorted@)));
        let ghost start = executed@;
        assert(executed@.take(start.len() as int) =~= start);
        assert(executed@.skip(start.len() as int) =~= Seq::<(u32, bool)>::empty());
        assert(sorted@.take(0) =~= Seq::<u32>::empty());
        let mut n: usize = 0;
        while n < sorted.len()
            invariant
                global.running == old(global).running,
                self.wf(),
                forall|c: u32| executeContent.requires((c,)),
                self.all_valid(sorted@),
                n <= sorted@.len(),
                global.configuration@ == remove_each(conf, sorted@.take(n as int)),
                global.statesToInvoke@ == invoke1,
                global.historyValue@ == hist1,
                ran_after(executed@, start, self.exit_contents(sorted@.take(n as int)), *executeContent),
            decreases sorted@.len() - n,
        {
            let sid = sorted[n];
            let exe = Self::sort_content(&self.get_state_by_id(sid).onexit);
            let ghost before = executed@;
            run_contents(&exe, false, executeContent, executed);
            proof {
                let t = sorted@.take(n + 1);
                assert(t.drop_last() =~= sorted@.take(n as int));
                assert(t.last() == sid);
                lemma_ran_after_step(executed@, before, start, self.exit_contents(sorted@.take(n as int)), exe@, *executeContent);
            }
            global.configuration.delete(&sid);
            n = n + 1;
        }
        assert(sorted@.take(sorted@.len() as int) =~= sorted@);
        proof {
            assert forall|x: int| 0 <= x < global.configuration@.len() implies self.valid_state(
                #[trigger] global.configuration@[x],
            ) by {
                let y = global.configuration@[x];
                assert(global.configuration@.contains(y));
                lemma_remove_each_contains(conf, sorted@, y);
                let q = choose|q: int| 0 <= q < conf.len() && conf[q] == y;
            }
        }
        let mut result: List<u32> = List::new();
        let mut q: usize = 0;
        while q < sorted.len()
            invariant
                global.running == old(global).running,
                q <= sorted@.len(),
                result@ == sorted@.take(q as int),
            decreases sorted@.len() - q,
        {
            result.push(sorted[q]);
            assert(sorted@.take(q + 1) =~= sorted@.take(q as int).push(sorted@[q as int]));
            q = q + 1;
        }
        assert(sorted@.take(sorted@.len() as int) =~= sorted@);
        result
    }

    proof fn lemma_exit_set_valid(&self, hv: Map<u32, Seq<u32>>, conf: Seq<u32>, tids: Seq<u32>)
        requires
            self.all_valid(conf),
        ensures
            self.all_valid(self.exit_set(hv, conf, tids)),
        decreases tids.len(),
    {
        broadcast use vstd::seq_lib::group_filter_ensures;

        if tids.len() > 0 {
            self.lemma_exit_set_valid(hv, conf, tids.drop_last());
            let acc = self.exit_set(hv, conf, tids.drop_last());
            let e = self.exits_of(hv, conf, self.transition(tids.last()));
            crate::collections::lemma_set_add_all_contains(acc, e);
            let r = set_add_all(acc, e);
            assert forall|i: int| 0 <= i < r.len() implies self.valid_state(#[trigger] r[i]) by {
                let y = r[i];
                assert(r.contains(y));
                if acc.contains(y) {
                    let k = choose|k: int| 0 <= k < acc.len() && acc[k] == y;
                } else {
                    assert(e.contains(y));
                    if self.transition(tids.last()).target@.len() > 0 {
                        conf.lemma_filter_contains_rev(self.below(self.domain(hv, self.transition(tids.last()))), y);
                    }
                    let k = choose|k: int| 0 <= k < conf.len() && conf[k] == y;
                }
            }
        }
    }

    proof fn lemma_doc_order_valid(&self, ids: Seq<u32>)
        requires
            self.all_valid(ids),
        ensures
            self.all_valid(self.states_in_doc_order(ids)),
    {
        broadcast use vstd::multiset::group_multiset_axioms;
        broadcast use vstd::seq_lib::group_to_multiset_ensures;

        let pairs = ids.map_values(|s: u32| (self.state(s).doc_id, s));
        lemma_sort_by_key(pairs);
        let sorted = sort_by_key(pairs);
        let r = self.states_in_doc_order(ids);
        assert forall|k: int| 0 <= k < r.len() implies self.valid_state(#[trigger] r[k]) by {
            let e = sorted[k];
            assert(sorted.contains(e));
            assert(sorted.to_multiset().count(e) > 0);
            assert(pairs.contains(e));
            let m = choose|m: int| 0 <= m < pairs.len() && pairs[m] == e;
            assert(pairs[m] == (self.state(ids[m]).doc_id, ids[m]));
        }
    }

    /// Every element of `ts` is the id of a transition.
    pub open spec fn all_transitions(&self, ts: Seq<u32>) -> bool {
        forall|i: int| 0 <= i < ts.len() ==> self.valid_transition(#[trigger] ts[i])
    }

    proof fn lemma_transition_order_valid(&self, ids: Seq<u32>)
        requires
            self.all_transitions(ids),
        ensures
            self.all_transitions(self.transitions_in_doc_order(ids)),
    {
        broadcast use vstd::multiset::group_multiset_axioms;
        broadcast use vstd::seq_lib::group_to_multiset_ensures;

        let pairs = ids.map_values(|t: u32| (self.transition(t).doc_id, t));
        lemma_sort_by_key(pairs);
        let sorted = sort_by_key(pairs);
        let r = self.transitions_in_doc_order(ids);
        assert forall|k: int| 0 <= k < r.len() implies self.valid_transition(#[trigger] r[k]) by {
            let e = sorted[k];
            assert(sorted.contains(e));
            assert(sorted.to_multiset().count(e) > 0);
            assert(pairs.contains(e));
            let m = choose|m: int| 0 <= m < pairs.len() && pairs[m] == e;
            assert(pairs[m] == (self.transition(ids[m]).doc_id, ids[m]));
        }
    }

    proof fn lemma_candidates_valid(&self, ss: Seq<u32>, name: Option<Seq<char>>)
        requires
            self.wf(),
            self.all_valid(ss),
        ensures
            self.all_transitions(self.candidates_of(ss, name)),
        decreases ss.len(),
    {
        broadcast use vstd::seq_lib::group_filter_ensures;

        if ss.len() > 0 {
            assert forall|i: int| 0 <= i < ss.drop_last().len() implies self.valid_state(
                #[trigger] ss.drop_last()[i],
            ) by {
                assert(ss.drop_last()[i] == ss[i]);
            }
            self.lemma_candidates_valid(ss.drop_last(), name);
            let s = ss.last();
            assert(self.valid_state(s));
            assert(self.state_ok(s - 1));
            let ts = self.state(s).transitions@;
            assert(self.all_transitions(ts));
            self.lemma_transition_order_valid(ts);
            let o = self.transitions_in_doc_order(ts);
            let pred = |t: u32| self.matches_event(t, name);
            let f = o.filter(pred);
            assert forall|k: int| 0 <= k < f.len() implies self.valid_transition(#[trigger] f[k]) by {
                assert(f.contains(f[k]));
                o.lemma_filter_contains_rev(pred, f[k]);
            }
            let a = self.candidates_of(ss.drop_last(), name);
            assert(self.candidates_of(ss, name) == a + f);
            assert forall|k: int| 0 <= k < (a + f).len() implies self.valid_transition(
                #[trigger] (a + f)[k],
            ) by {
                if k < a.len() {
                    assert((a + f)[k] == a[k]);
                } else {
                    assert((a + f)[k] == f[k - a.len()]);
                }
            }
        }
    }

    /// The candidate transitions of a configuration of states are transitions of the chart.
    proof fn lemma_candidate_groups_valid(&self, conf: Seq<u32>, name: Option<Seq<char>>)
        requires
            self.wf(),
            self.all_valid(conf),
        ensures
            forall|i: int|
                0 <= i < self.candidate_groups(conf, name).len() ==> self.all_transitions(
                    #[trigger] self.candidate_groups(conf, name)[i],
                ),
    {
        broadcast use vstd::seq_lib::group_filter_ensures;

        let pred = |s: u32| self.state(s).states@.len() == 0;
        let f = conf.filter(pred);
        assert forall|k: int| 0 <= k < f.len() implies self.valid_state(#[trigger] f[k]) by {
            assert(f.contains(f[k]));
            conf.lemma_filter_contains_rev(pred, f[k]);
        }
        self.lemma_doc_order_valid(f);
        let atoms = self.atomic_states(conf);
        assert(atoms == self.states_in_doc_order(f));
        let groups = self.candidate_groups(conf, name);
        assert forall|i: int| 0 <= i < groups.len() implies self.all_transitions(
            #[trigger] groups[i],
        ) by {
            let s = atoms[i];
            assert(self.valid_state(s));
            let n = self.states@.len();
            self.lemma_ancestors_valid(s, 0, n);
            let ancs = self.proper_ancestors(s, 0);
            assert(ancs == self.ancestors_until(s, 0, n));
            let ss = seq![s] + ancs;
            assert forall|k: int| 0 <= k < ss.len() implies self.valid_state(#[trigger] ss[k]) by {
                if k > 0 {
                    assert(ss[k] == ancs[k - 1]);
                }
            }
            self.lemma_candidates_valid(ss, name);
            assert(groups[i] == self.candidates_of(ss, name));
        }
    }

    proof fn lemma_history_of_valid(&self, conf: Seq<u32>, s: u32, h: u32)
        requires
            self.all_valid(conf),
        ensures
            self.all_valid(self.history_of(conf, s, h)),
    {
        broadcast use vstd::seq_lib::group_filter_ensures;

        let pred = if self.state(h).history_type == HistoryType::Deep {
            |s0: u32| self.state(s0).states@.len() == 0 && self.is_descendant(s0, s)
        } else {
            |s0: u32| self.state(s0).parent == s
        };
        let f = conf.filter(pred);
        assert(self.history_of(conf, s, h) == set_add_all(Seq::<u32>::empty(), f));
        crate::collections::lemma_set_add_all_contains(Seq::<u32>::empty(), f);
        let r = set_add_all(Seq::<u32>::empty(), f);
        assert forall|i: int| 0 <= i < r.len() implies self.valid_state(#[trigger] r[i]) by {
            let y = r[i];
            assert(r.contains(y));
            conf.lemma_filter_contains_rev(pred, y);
            let k = choose|k: int| 0 <= k < conf.len() && conf[k] == y;
        }
    }
}

/// The sets that computing the entry of states fills: the states to enter, the states
/// whose default initial states are entered, and the content of history defaults by
/// parent state.
pub struct EntrySets {
    pub to_enter: Seq<u32>,
    pub default_entry: Seq<u32>,
    pub history_content: Map<u32, u32>,
}

impl Fsm {
    // -----------------------------------------------------------------------
    // Entering states.
    //
    // The W3C procedures addDescendantStatesToEnter and addAncestorStatesToEnter call each
    // other; `fuel` bounds the depth of these calls. The spec functions give `None` where
    // the depth runs out, or where a history state without a recorded value has no
    // default transition.
    // -----------------------------------------------------------------------

    /// #W3C says:
    /// # procedure addDescendantStatesToEnter(state,statesToEnter,statesForDefaultEntry, defaultHistoryContent)
    /// The purpose of this procedure is to add to statesToEnter 'state' and any of its
    /// descendants that the state machine will end up entering when it enters 'state'.
    /// (N.B. If 'state' is a history pseudo-state, we dereference it and add the history
    /// value instead.)
    pub open spec fn add_desc(&self, hv: Map<u32, Seq<u32>>, sid: u32, e: EntrySets, fuel: nat) -> Option<
        EntrySets,
    >
        decreases fuel, 0nat, 0nat,
    {
        if fuel == 0 {
            None
        } else {
            let f = (fuel - 1) as nat;
            if self.is_history(sid) {
                let parent = self.state(sid).parent;
                if hv.contains_key(sid) {
                    match self.desc_from(hv, hv[sid], 0, e, f) {
                        Some(e1) => self.anc_from(hv, hv[sid], 0, parent, e1, f),
                        None => None,
                    }
                } else if self.state(sid).transitions@.len() == 0 {
                    None
                } else {
                    let dt = self.transition(self.state(sid).transitions@[0]);
                    let e1 = EntrySets {
                        history_content: e.history_content.insert(parent, dt.content),
                        ..e
                    };
                    match self.desc_from(hv, dt.target@, 0, e1, f) {
                        Some(e2) => self.anc_from(hv, dt.target@, 0, parent, e2, f),
                        None => None,
                    }
                }
            } else {
                let e1 = EntrySets { to_enter: set_add(e.to_enter, sid), ..e };
                if self.is_compound(sid) {
                    let e2 = EntrySets { default_entry: set_add(e1.default_entry, sid), ..e1 };
                    if self.state(sid).initial != 0 {
                        let it = self.transition(self.state(sid).initial);
                        match self.desc_from(hv, it.target@, 0, e2, f) {
                            Some(e3) => self.anc_from(hv, it.target@, 0, sid, e3, f),
                            None => None,
                        }
                    } else {
                        Some(e2)
                    }
                } else if self.is_parallel(sid) {
                    self.children_from(hv, self.state(sid).states@, 0, e1, f)
                } else {
                    Some(e1)
                }
            }
        }
    }

    /// `addDescendantStatesToEnter` for each of `list` from position `i` on.
    pub open spec fn desc_from(
        &self,
        hv: Map<u32, Seq<u32>>,
        list: Seq<u32>,
        i: int,
        e: EntrySets,
        fuel: nat,
    ) -> Option<EntrySets>
        decreases fuel, 1nat, list.len() - i,
    {
        if i < 0 || i >= list.len() {
            Some(e)
        } else {
            match self.add_desc(hv, list[i], e, fuel) {
                Some(e1) => self.desc_from(hv, list, i + 1, e1, fuel),
                None => None,
            }
        }
    }

    /// Some state to enter is a descendant of `child`.
    pub open spec fn has_descendant_in(&self, to_enter: Seq<u32>, child: u32) -> bool {
        exists|j: int| 0 <= j < to_enter.len() && self.is_descendant(#[trigger] to_enter[j], child)
    }

    /// The children of a parallel state from position `i` on: each that has no descendant
    /// among the states to enter is entered with `addDescendantStatesToEnter`.
    pub open spec fn children_from(
        &self,
        hv: Map<u32, Seq<u32>>,
        children: Seq<u32>,
        i: int,
        e: EntrySets,
        fuel: nat,
    ) -> Option<EntrySets>
        decreases fuel, 0nat, children.len() - i,
    {
        if i < 0 || i >= children.len() {
            Some(e)
        } else if self.has_descendant_in(e.to_enter, children[i]) {
            self.children_from(hv, children, i + 1, e, fuel)
        } else {
            match self.add_desc(hv, children[i], e, fuel) {
                Some(e1) => self.children_from(hv, children, i + 1, e1, fuel),
                None => None,
            }
        }
    }

    /// The proper ancestors from position `i` on: each is added to the states to enter,
    /// and the children of a parallel one are entered.
    pub open spec fn ancs_from(
        &self,
        hv: Map<u32, Seq<u32>>,
        ancs: Seq<u32>,
        i: int,
        e: EntrySets,
        fuel: nat,
    ) -> Option<EntrySets>
        decreases fuel, 1nat, ancs.len() - i,
    {
        if i < 0 || i >= ancs.len() {
            Some(e)
        } else {
            let anc = ancs[i];
            let e1 = EntrySets { to_enter: set_add(e.to_enter, anc), ..e };
            if self.is_parallel(anc) {
                match self.children_from(hv, self.state(anc).states@, 0, e1, fuel) {
                    Some(e2) => self.ancs_from(hv, ancs, i + 1, e2, fuel),
                    None => None,
                }
            } else {
                self.ancs_from(hv, ancs, i + 1, e1, fuel)
            }
        }
    }

    /// #W3C says:
    /// # procedure addAncestorStatesToEnter(state, ancestor, statesToEnter, statesForDefaultEntry, defaultHistoryContent)
    /// Add to statesToEnter any ancestors of 'state' up to, but not including, 'ancestor'
    /// that must be entered in order to enter 'state'. If any of these ancestor states is a
    /// parallel state, we must fill in its descendants as well.
    pub open spec fn add_anc(
        &self,
        hv: Map<u32, Seq<u32>>,
        s: u32,
        ancestor: u32,
        e: EntrySets,
        fuel: nat,
    ) -> Option<EntrySets>
        decreases fuel, 2nat, 0nat,
    {
        self.ancs_from(hv, self.proper_ancestors(s, ancestor), 0, e, fuel)
    }

    /// `addAncestorStatesToEnter` for each of `list` from position `i` on.
    pub open spec fn anc_from(
        &self,
        hv: Map<u32, Seq<u32>>,
        list: Seq<u32>,
        i: int,
        ancestor: u32,
        e: EntrySets,
        fuel: nat,
    ) -> Option<EntrySets>
        decreases fuel, 3nat, list.len() - i,
    {
        if i < 0 || i >= list.len() {
            Some(e)
        } else {
            match self.add_anc(hv, list[i], ancestor, e, fuel) {
                Some(e1) => self.anc_from(hv, list, i + 1, ancestor, e1, fuel),
                None => None,
            }
        }
    }

    /// #W3C says:
    /// # procedure computeEntrySet(transitions, statesToEnter, statesForDefaultEntry, defaultHistoryContent)
    /// Compute the complete set of states that will be entered as a result of taking
    /// 'transitions'. First gather up all the target states in 'transitions'. Then add
    /// them and, for all that are not atomic states, add all of their (default)
    /// descendants until we reach one or more atomic states. Then add any ancestors that
    /// will be entered within the domain of the transition.
    /// (Here for the transitions from position `i` on.)
    pub open spec fn entry_from(
        &self,
        hv: Map<u32, Seq<u32>>,
        tids: Seq<u32>,
        i: int,
        e: EntrySets,
        fuel: nat,
    ) -> Option<EntrySets>
        decreases tids.len() - i,
    {
        if i < 0 || i >= tids.len() {
            Some(e)
        } else {
            let t = self.transition(tids[i]);
            match self.desc_from(hv, t.target@, 0, e, fuel) {
                Some(e1) => {
                    let ancestor = self.domain(hv, t);
                    match self.anc_from(
                        hv,
                        self.eff_targets(hv, t.target@, self.states@.len()),
                        0,
                        ancestor,
                        e1,
                        fuel,
                    ) {
                        Some(e2) => self.entry_from(hv, tids, i + 1, e2, fuel),
                        None => None,
                    }
                },
                None => None,
            }
        }
    }
}

/// The entry sets as the spec functions see them.
/// The content ids other than 0, in order.
pub open spec fn nonzero(s: Seq<u32>) -> Seq<u32>
    decreases s.len(),
{
    if s.len() == 0 {
        Seq::empty()
    } else {
        nonzero(s.drop_last()) + (if s.last() > 0 {
            seq![s.last()]
        } else {
            Seq::empty()
        })
    }
}

/// `ran` records that `contents` were run, in order, by `f`: each entry is a content id and
/// a result that `f` may give for it.
pub open spec fn ran_as<F: Fn(u32) -> bool>(ran: Seq<(u32, bool)>, contents: Seq<u32>, f: F) -> bool {
    &&& ran.len() == contents.len()
    &&& forall|i: int|
        0 <= i < ran.len() ==> (#[trigger] ran[i]).0 == contents[i] && f.ensures((contents[i],), ran[i].1)
}

/// Records of runs follow one another.
pub proof fn lemma_ran_as_concat<F: Fn(u32) -> bool>(
    a: Seq<(u32, bool)>,
    c1: Seq<u32>,
    b: Seq<(u32, bool)>,
    c2: Seq<u32>,
    f: F,
)
    requires
        ran_as(a, c1, f),
        ran_as(b, c2, f),
    ensures
        ran_as(a + b, c1 + c2, f),
{
    assert forall|i: int| 0 <= i < (a + b).len() implies (#[trigger] (a + b)[i]).0 == (c1 + c2)[i]
        && f.ensures(((c1 + c2)[i],), (a + b)[i].1) by {
        if i >= a.len() {
            assert((a + b)[i] == b[i - a.len()]);
            assert((c1 + c2)[i] == c2[i - c1.len()]);
        } else {
            assert((a + b)[i] == a[i]);
            assert((c1 + c2)[i] == c1[i]);
        }
    }
}

/// The records added behind `old` run `contents`.
pub open spec fn ran_after<F: Fn(u32) -> bool>(
    new: Seq<(u32, bool)>,
    old: Seq<(u32, bool)>,
    contents: Seq<u32>,
    f: F,
) -> bool {
    &&& old.len() <= new.len()
    &&& new.take(old.len() as int) == old
    &&& ran_as(new.skip(old.len() as int), contents, f)
}

/// Runs recorded after `mid` follow those recorded after `start`.
pub proof fn lemma_ran_after_step<F: Fn(u32) -> bool>(
    new: Seq<(u32, bool)>,
    mid: Seq<(u32, bool)>,
    start: Seq<(u32, bool)>,
    c1: Seq<u32>,
    c2: Seq<u32>,
    f: F,
)
    requires
        ran_after(mid, start, c1, f),
        ran_after(new, mid, c2, f),
    ensures
        ran_after(new, start, c1 + c2, f),
{
    lemma_ran_as_concat(mid.skip(start.len() as int), c1, new.skip(mid.len() as int), c2, f);
    assert(mid.skip(start.len() as int) + new.skip(mid.len() as int) =~= new.skip(start.len() as int));
    assert(new.take(start.len() as int) =~= start);
}

/// Runs the contents (all, or those other than 0) with `executeContent`, in order, and
/// records each with its result behind `executed`.
fn run_contents<F: Fn(u32) -> bool>(
    exe: &Vec<u32>,
    skip_zero: bool,
    executeContent: &F,
    executed: &mut Vec<(u32, bool)>,
)
    requires
        forall|c: u32| executeContent.requires((c,)),
    ensures
        ran_after(
            final(executed)@,
            old(executed)@,
            if skip_zero {
                nonzero(exe@)
            } else {
                exe@
            },
            *executeContent,
        ),
{
    let ghost start = executed@;
    assert(executed@.take(start.len() as int) =~= start);
    assert(executed@.skip(start.len() as int) =~= Seq::<(u32, bool)>::empty());
    assert(exe@.take(0) =~= Seq::<u32>::empty());
    let mut c: usize = 0;
    while c < exe.len()
        invariant
            forall|c: u32| executeContent.requires((c,)),
            c <= exe@.len(),
            ran_after(
                executed@,
                start,
                if skip_zero {
                    nonzero(exe@.take(c as int))
                } else {
                    exe@.take(c as int)
                },
                *executeContent,
            ),
        decreases exe@.len() - c,
    {
        let ghost before = executed@;
        let id = exe[c];
        let ghost t = exe@.take(c + 1);
        proof {
            assert(t.drop_last() =~= exe@.take(c as int));
            assert(t.last() == id);
        }
        if !skip_zero || id > 0 {
            let o = executeContent(id);
            executed.push((id, o));
            proof {
                let prev = if skip_zero {
                    nonzero(exe@.take(c as int))
                } else {
                    exe@.take(c as int)
                };
                assert(before.skip(start.len() as int).push((id, o)) =~= executed@.skip(start.len() as int));
                lemma_ran_as_concat(before.skip(start.len() as int), prev, seq![(id, o)], seq![id], *executeContent);
                assert(before.skip(start.len() as int) + seq![(id, o)] =~= executed@.skip(start.len() as int));
                assert(executed@.take(start.len() as int) =~= start);
            }
        } else {
            proof {
                assert(nonzero(t) =~= nonzero(exe@.take(c as int)));
            }
        }
        c = c + 1;
    }
    assert(exe@.take(exe@.len() as int) =~= exe@);
}

pub open spec fn entry_view(
    ste: &OrderedSet<u32>,
    sde: &OrderedSet<u32>,
    dhc: &HashTable<u32, u32>,
) -> EntrySets {
    EntrySets { to_enter: ste@, default_entry: sde@, history_content: dhc@ }
}

impl Fsm {
    proof fn lemma_first_lcca_in(&self, ancs: Seq<u32>, rest: Seq<u32>)
        ensures
            self.first_lcca(ancs, rest) == 0 || ancs.contains(self.first_lcca(ancs, rest)),
        decreases ancs.len(),
    {
        if ancs.len() > 0 {
            self.lemma_first_lcca_in(ancs.drop_first(), rest);
            let r = self.first_lcca(ancs.drop_first(), rest);
            if r != 0 && r != ancs[0] {
                let k = choose|k: int| 0 <= k < ancs.drop_first().len() && ancs.drop_first()[k] == r;
                assert(ancs[k + 1] == r);
            }
        }
    }

    /// The domain of a transition is 0 or a state.
    proof fn lemma_domain_valid(&self, hv: Map<u32, Seq<u32>>, t: Transition)
        requires
            self.wf(),
            self.valid_state(t.source),
        ensures
            self.domain(hv, t) == 0 || self.valid_state(self.domain(hv, t)),
    {
        let ts = self.eff_targets(hv, t.target@, self.states@.len());
        let list = seq![t.source] + ts;
        assert(list[0] == t.source);
        let ancs = self.proper_ancestors(t.source, 0);
        self.lemma_ancestors_valid(t.source, 0, self.states@.len());
        self.lemma_first_lcca_in(ancs, list.drop_first());
        let r = self.first_lcca(ancs, list.drop_first());
        if r != 0 {
            let k = choose|k: int| 0 <= k < ancs.len() && ancs[k] == r;
        }
    }

    /// Whether some state to enter is a descendant of `child`.
    fn some_descendant(&self, statesToEnter: &OrderedSet<u32>, child: u32) -> (r: bool)
        requires
            self.wf(),
            self.all_valid(statesToEnter@),
        ensures
            r == self.has_descendant_in(statesToEnter@, child),
    {
        let mut i: usize = 0;
        while i < statesToEnter.size()
            invariant
                self.wf(),
                self.all_valid(statesToEnter@),
                i <= statesToEnter@.len(),
                forall|j: int| 0 <= j < i ==> !self.is_descendant(#[trigger] statesToEnter@[j], child),
            decreases statesToEnter@.len() - i,
        {
            if self.isDescendant(*statesToEnter.get(i), child) {
                return true;
            }
            i = i + 1;
        }
        false
    }

    proof fn lemma_set_add_valid(&self, s: Seq<u32>, x: u32)
        requires
            self.all_valid(s),
            self.valid_state(x),
        ensures
            self.all_valid(set_add(s, x)),
    {
        if !s.contains(x) {
            assert forall|i: int| 0 <= i < s.push(x).len() implies self.valid_state(#[trigger] s.push(x)[i]) by {
                if i < s.len() {
                    assert(s.push(x)[i] == s[i]);
                }
            }
        }
    }

    /// addDescendantStatesToEnter, looking at most `fuel` calls deep.
    fn add_descendant_states(
        &self,
        global: &GlobalData,
        sid: u32,
        statesToEnter: &mut OrderedSet<u32>,
        statesForDefaultEntry: &mut OrderedSet<u32>,
        defaultHistoryContent: &mut HashTable<u32, u32>,
        fuel: usize,
    )
        requires
            self.wf(),
            self.global_ok(global),
            self.valid_state(sid),
            self.all_valid(old(statesToEnter)@),
            self.add_desc(
                global.historyValue@,
                sid,
                entry_view(old(statesToEnter), old(statesForDefaultEntry), old(defaultHistoryContent)),
                fuel as nat,
            ) is Some,
        ensures
            Some(
                entry_view(final(statesToEnter), final(statesForDefaultEntry), final(defaultHistoryContent)),
            ) == self.add_desc(
                global.historyValue@,
                sid,
                entry_view(old(statesToEnter), old(statesForDefaultEntry), old(defaultHistoryContent)),
                fuel as nat,
            ),
            self.all_valid(final(statesToEnter)@),
        decreases fuel, 0nat,
    {
        proof {
            broadcast use vstd::std_specs::hash::group_hash_axioms;
        }
        let ghost hv = global.historyValue@;
        let f: usize = fuel - 1;
        let state = self.get_state_by_id(sid);
        proof {
            assert(self.state_ok(sid - 1));
        }
        if self.isHistoryState(sid) {
            let parent = state.parent;
            if global.historyValue.has(sid) {
                let values = global.historyValue.get(sid);
                let ghost list = values@;
                let ghost e0 = entry_view(statesToEnter, statesForDefaultEntry, defaultHistoryContent);
                proof {
                    assert forall|i: int| 0 <= i < list.len() implies self.valid_state(#[trigger] list[i]) by {
                        assert(self.valid_state(hv[sid][i]));
                    }
                }
                let mut i: usize = 0;
                while i < values.size()
                    invariant
                        fuel > 0,
                        f == fuel - 1,
                        self.wf(),
                        self.global_ok(global),
                        hv == global.historyValue@,
                        list == values@,
                        self.all_valid(list),
                        self.all_valid(statesToEnter@),
                        i <= list.len(),
                        self.desc_from(hv, list, 0, e0, f as nat) == self.desc_from(
                            hv,
                            list,
                            i as int,
                            entry_view(statesToEnter, statesForDefaultEntry, defaultHistoryContent),
                            f as nat,
                        ),
                        self.desc_from(hv, list, 0, e0, f as nat) is Some,
                    decreases list.len() - i,
                {
                    self.add_descendant_states(
                        global,
                        *values.get(i),
                        statesToEnter,
                        statesForDefaultEntry,
                        defaultHistoryContent,
                        f,
                    );
                    i = i + 1;
                }
                let ghost e1 = entry_view(statesToEnter, statesForDefaultEntry, defaultHistoryContent);
                let mut k: usize = 0;
                while k < values.size()
                    invariant
                        fuel > 0,
                        f == fuel - 1,
                        self.wf(),
                        self.global_ok(global),
                        hv == global.historyValue@,
                        list == values@,
                        self.all_valid(list),
                        self.all_valid(statesToEnter@),
                        parent == 0 || self.valid_state(parent),
                        k <= list.len(),
                        self.anc_from(hv, list, 0, parent, e1, f as nat) == self.anc_from(
                            hv,
                            list,
                            k as int,
                            parent,
                            entry_view(statesToEnter, statesForDefaultEntry, defaultHistoryContent),
                            f as nat,
                        ),
                        self.anc_from(hv, list, 0, parent, e1, f as nat) is Some,
                    decreases list.len() - k,
                {
                    self.add_ancestor_states(
                        global,
                        *values.get(k),
                        parent,
                        statesToEnter,
                        statesForDefaultEntry,
                        defaultHistoryContent,
                        f,
                    );
                    k = k + 1;
                }
            } else {
                let dt = self.get_transition_by_id(state.transitions[0]);
                proof {
                    assert(self.transition_ok(state.transitions@[0] - 1));
                }
                defaultHistoryContent.put(parent, &dt.content);
                let ghost list = dt.target@;
                let ghost e0 = entry_view(statesToEnter, statesForDefaultEntry, defaultHistoryContent);
                let mut i: usize = 0;
                while i < dt.target.len()
                    invariant
                        fuel > 0,
                        f == fuel - 1,
                        self.wf(),
                        self.global_ok(global),
                        hv == global.historyValue@,
                        list == dt.target@,
                        self.all_valid(list),
                        self.all_valid(statesToEnter@),
                        i <= list.len(),
                        self.desc_from(hv, list, 0, e0, f as nat) == self.desc_from(
                            hv,
                            list,
                            i as int,
                            entry_view(statesToEnter, statesForDefaultEntry, defaultHistoryContent),
                            f as nat,
                        ),
                        self.desc_from(hv, list, 0, e0, f as nat) is Some,
                    decreases list.len() - i,
                {
                    self.add_descendant_states(
                        global,
                        dt.target[i],
                        statesToEnter,
                        statesForDefaultEntry,
                        defaultHistoryContent,
                        f,
                    );
                    i = i + 1;
                }
                let ghost e1 = entry_view(statesToEnter, statesForDefaultEntry, defaultHistoryContent);
                let mut k: usize = 0;
                while k < dt.target.len()
                    invariant
                        fuel > 0,
                        f == fuel - 1,
                        self.wf(),
                        self.global_ok(global),
                        hv == global.historyValue@,
                        list == dt.target@,
                        self.all_valid(list),
                        self.all_valid(statesToEnter@),
                        parent == 0 || self.valid_state(parent),
                        k <= list.len(),
                        self.anc_from(hv, list, 0, parent, e1, f as nat) == self.anc_from(
                            hv,
                            list,
                            k as int,
                            parent,
                            entry_view(statesToEnter, statesForDefaultEntry, defaultHistoryContent),
                            f as nat,
                        ),
                        self.anc_from(hv, list, 0, parent, e1, f as nat) is Some,
                    decreases list.len() - k,
                {
                    self.add_ancestor_states(
                        global,
                        dt.target[k],
                        parent,
                        statesToEnter,
                        statesForDefaultEntry,
                        defaultHistoryContent,
                        f,
                    );
                    k = k + 1;
                }
            }
        } else {
            proof {
                self.lemma_set_add_valid(statesToEnter@, sid);
            }
            statesToEnter.add(sid);
            if self.isCompoundState(sid) {
                statesForDefaultEntry.add(sid);
                if state.initial != 0 {
                    let it = self.get_transition_by_id(state.initial);
                    proof {
                        assert(self.transition_ok(state.initial - 1));
                    }
                    let ghost list = it.target@;
                    let ghost e0 = entry_view(statesToEnter, statesForDefaultEntry, defaultHistoryContent);
                    let mut i: usize = 0;
                    while i < it.target.len()
                        invariant
                            fuel > 0,
                            f == fuel - 1,
                            self.wf(),
                            self.global_ok(global),
                            hv == global.historyValue@,
                            list == it.target@,
                            self.all_valid(list),
                            self.all_valid(statesToEnter@),
                            i <= list.len(),
                            self.desc_from(hv, list, 0, e0, f as nat) == self.desc_from(
                                hv,
                                list,
                                i as int,
                                entry_view(statesToEnter, statesForDefaultEntry, defaultHistoryContent),
                                f as nat,
                            ),
                            self.desc_from(hv, list, 0, e0, f as nat) is Some,
                        decreases list.len() - i,
                    {
                        self.add_descendant_states(
                            global,
                            it.target[i],
                            statesToEnter,
                            statesForDefaultEntry,
                            defaultHistoryContent,
                            f,
                        );
                        i = i + 1;
                    }
                    let ghost e1 = entry_view(statesToEnter, statesForDefaultEntry, defaultHistoryContent);
                    let mut k: usize = 0;
                    while k < it.target.len()
                        invariant
                            fuel > 0,
                            f == fuel - 1,
                            self.wf(),
                            self.global_ok(global),
                            hv == global.historyValue@,
                            list == it.target@,
                            self.all_valid(list),
                            self.all_valid(statesToEnter@),
                            self.valid_state(sid),
                            k <= list.len(),
                            self.anc_from(hv, list, 0, sid, e1, f as nat) == self.anc_from(
                                hv,
                                list,
                                k as int,
                                sid,
                                entry_view(statesToEnter, statesForDefaultEntry, defaultHistoryContent),
                                f as nat,
                            ),
                            self.anc_from(hv, list, 0, sid, e1, f as nat) is Some,
                        decreases list.len() - k,
                    {
                        self.add_ancestor_states(
                            global,
                            it.target[k],
                            sid,
                            statesToEnter,
                            statesForDefaultEntry,
                            defaultHistoryContent,
                            f,
                        );
                        k = k + 1;
                    }
                }
            } else if self.isParallelState(sid) {
                let children = &state.states;
                let ghost list = children@;
                let ghost e0 = entry_view(statesToEnter, statesForDefaultEntry, defaultHistoryContent);
                let mut i: usize = 0;
                while i < children.len()
                    invariant
                        fuel > 0,
                        f == fuel - 1,
                        self.wf(),
                        self.global_ok(global),
                        hv == global.historyValue@,
                        list == children@,
                        self.valid_state(sid),
                        list == self.state(sid).states@,
                        self.all_valid(statesToEnter@),
                        i <= list.len(),
                        self.children_from(hv, list, 0, e0, f as nat) == self.children_from(
                            hv,
                            list,
                            i as int,
                            entry_view(statesToEnter, statesForDefaultEntry, defaultHistoryContent),
                            f as nat,
                        ),
                        self.children_from(hv, list, 0, e0, f as nat) is Some,
                    decreases list.len() - i,
                {
                    let child = children[i];
                    proof {
                        assert(self.state_ok(sid - 1));
                    }
                    if !self.some_descendant(statesToEnter, child) {
                        self.add_descendant_states(
                            global,
                            child,
                            statesToEnter,
                            statesForDefaultEntry,
                            defaultHistoryContent,
                            f,
                        );
                    }
                    i = i + 1;
                }
            }
        }
    }

    /// addAncestorStatesToEnter, looking at most `fuel` calls deep.
    fn add_ancestor_states(
        &self,
        global: &GlobalData,
        state: u32,
        ancestor: u32,
        statesToEnter: &mut OrderedSet<u32>,
        statesForDefaultEntry: &mut OrderedSet<u32>,
        defaultHistoryContent: &mut HashTable<u32, u32>,
        fuel: usize,
    )
        requires
            self.wf(),
            self.global_ok(global),
            self.valid_state(state),
            ancestor == 0 || self.valid_state(ancestor),
            self.all_valid(old(statesToEnter)@),
            self.add_anc(
                global.historyValue@,
                state,
                ancestor,
                entry_view(old(statesToEnter), old(statesForDefaultEntry), old(defaultHistoryContent)),
                fuel as nat,
            ) is Some,
        ensures
            Some(
                entry_view(final(statesToEnter), final(statesForDefaultEntry), final(defaultHistoryContent)),
            ) == self.add_anc(
                global.historyValue@,
                state,
                ancestor,
                entry_view(old(statesToEnter), old(statesForDefaultEntry), old(defaultHistoryContent)),
                fuel as nat,
            ),
            self.all_valid(final(statesToEnter)@),
        decreases fuel, 1nat,
    {
        let ghost hv = global.historyValue@;
        let ancs = self.getProperAncestors(state, ancestor);
        let ghost list = ancs@;
        proof {
            self.lemma_ancestors_valid(state, ancestor, self.states@.len());
        }
        let ghost e0 = entry_view(statesToEnter, statesForDefaultEntry, defaultHistoryContent);
        let mut i: usize = 0;
        while i < ancs.size()
            invariant
                self.wf(),
                self.global_ok(global),
                hv == global.historyValue@,
                list == ancs@,
                self.all_valid(list),
                self.all_valid(statesToEnter@),
                i <= list.len(),
                self.ancs_from(hv, list, 0, e0, fuel as nat) == self.ancs_from(
                    hv,
                    list,
                    i as int,
                    entry_view(statesToEnter, statesForDefaultEntry, defaultHistoryContent),
                    fuel as nat,
                ),
                self.ancs_from(hv, list, 0, e0, fuel as nat) is Some,
            decreases list.len() - i,
        {
            let anc = *ancs.get(i);
            proof {
                self.lemma_set_add_valid(statesToEnter@, anc);
            }
            statesToEnter.add(anc);
            if self.isParallelState(anc) {
                let children = &self.get_state_by_id(anc).states;
                let ghost clist = children@;
                let ghost c0 = entry_view(statesToEnter, statesForDefaultEntry, defaultHistoryContent);
                let mut j: usize = 0;
                while j < children.len()
                    invariant
                        self.wf(),
                        self.global_ok(global),
                        hv == global.historyValue@,
                        self.valid_state(anc),
                        clist == children@,
                        clist == self.state(anc).states@,
                        self.all_valid(statesToEnter@),
                        j <= clist.len(),
                        self.children_from(hv, clist, 0, c0, fuel as nat) == self.children_from(
                            hv,
                            clist,
                            j as int,
                            entry_view(statesToEnter, statesForDefaultEntry, defaultHistoryContent),
                            fuel as nat,
                        ),
                        self.children_from(hv, clist, 0, c0, fuel as nat) is Some,
                    decreases clist.len() - j,
                {
                    let child = children[j];
                    proof {
                        assert(self.state_ok(anc - 1));
                    }
                    if !self.some_descendant(statesToEnter, child) {
                        self.add_descendant_states(
                            global,
                            child,
                            statesToEnter,
                            statesForDefaultEntry,
                            defaultHistoryContent,
                            fuel,
                        );
                    }
                    j = j + 1;
                }
            }
            i = i + 1;
        }
    }
}

/// What entering states changes: the configuration, the states to invoke, whether the
/// machine runs, and the done events raised (the state that is done, and whether the event
/// carries done data).
pub struct EnterState {
    pub configuration: Seq<u32>,
    pub to_invoke: Seq<u32>,
    pub running: bool,
    pub events: Seq<(u32, bool)>,
}

impl Fsm {
    /// The depth to which the procedures that compute the states to enter may call each
    /// other: as far as a `usize` counts.
    pub open spec fn entry_fuel() -> nat {
        usize::MAX as nat
    }

    /// #W3C says:
    /// # procedure addDescendantStatesToEnter(state,statesToEnter,statesForDefaultEntry, defaultHistoryContent)
    /// The purpose of this procedure is to add to statesToEnter 'state' and any of its
    /// descendants that the state machine will end up entering when it enters 'state'.
    /// (N.B. If 'state' is a history pseudo-state, we dereference it and add the history
    /// value instead.) Note that this procedure permanently modifies both statesToEnter and
    /// statesForDefaultEntry.
    #[allow(non_snake_case)]
    pub fn addDescendantStatesToEnter(
        &self,
        global: &GlobalData,
        sid: u32,
        statesToEnter: &mut OrderedSet<u32>,
        statesForDefaultEntry: &mut OrderedSet<u32>,
        defaultHistoryContent: &mut HashTable<u32, u32>,
    )
        requires
            self.wf(),
            self.global_ok(global),
            self.valid_state(sid),
            self.all_valid(old(statesToEnter)@),
            self.add_desc(
                global.historyValue@,
                sid,
                entry_view(old(statesToEnter), old(statesForDefaultEntry), old(defaultHistoryContent)),
                Self::entry_fuel(),
            ) is Some,
        ensures
            Some(
                entry_view(final(statesToEnter), final(statesForDefaultEntry), final(defaultHistoryContent)),
            ) == self.add_desc(
                global.historyValue@,
                sid,
                entry_view(old(statesToEnter), old(statesForDefaultEntry), old(defaultHistoryContent)),
                Self::entry_fuel(),
            ),
            self.all_valid(final(statesToEnter)@),
    {
        self.add_descendant_states(
            global,
            sid,
            statesToEnter,
            statesForDefaultEntry,
            defaultHistoryContent,
            usize::MAX,
        );
    }

    /// #W3C says:
    /// # procedure addAncestorStatesToEnter(state, ancestor, statesToEnter, statesForDefaultEntry, defaultHistoryContent)
    /// Add to statesToEnter any ancestors of 'state' up to, but not including, 'ancestor'
    /// that must be entered in order to enter 'state'. If any of these ancestor states is a
    /// parallel state, we must fill in its descendants as well.
    #[allow(non_snake_case)]
    pub fn addAncestorStatesToEnter(
        &self,
        global: &GlobalData,
        state: u32,
        ancestor: u32,
        statesToEnter: &mut OrderedSet<u32>,
        statesForDefaultEntry: &mut OrderedSet<u32>,
        defaultHistoryContent: &mut HashTable<u32, u32>,
    )
        requires
            self.wf(),
            self.global_ok(global),
            self.valid_state(state),
            ancestor == 0 || self.valid_state(ancestor),
            self.all_valid(old(statesToEnter)@),
            self.add_anc(
                global.historyValue@,
                state,
                ancestor,
                entry_view(old(statesToEnter), old(statesForDefaultEntry), old(defaultHistoryContent)),
                Self::entry_fuel(),
            ) is Some,
        ensures
            Some(
                entry_view(final(statesToEnter), final(statesForDefaultEntry), final(defaultHistoryContent)),
            ) == self.add_anc(
                global.historyValue@,
                state,
                ancestor,
                entry_view(old(statesToEnter), old(statesForDefaultEntry), old(defaultHistoryContent)),
                Self::entry_fuel(),
            ),
            self.all_valid(final(statesToEnter)@),
    {
        self.add_ancestor_states(
            global,
            state,
            ancestor,
            statesToEnter,
            statesForDefaultEntry,
            defaultHistoryContent,
            usize::MAX,
        );
    }

    /// #W3C says:
    /// # procedure computeEntrySet(transitions, statesToEnter, statesForDefaultEntry, defaultHistoryContent)
    /// Compute the complete set of states that will be entered as a result of taking
    /// 'transitions'. This value will be returned in 'statesToEnter' (which is modified by
    /// this procedure). Also place in 'statesForDefaultEntry' the set of all states whose
    /// default initial states were entered. First gather up all the target states in
    /// 'transitions'. Then add them and, for all that are not atomic states, add all of
    /// their (default) descendants until we reach one or more atomic states. Then add any
    /// ancestors that will be entered within the domain of the transition. (Ancestors
    /// outside of the domain of the transition will not have been exited.)
    #[allow(non_snake_case)]
    pub fn computeEntrySet(
        &self,
        global: &GlobalData,
        transitions: &List<u32>,
        statesToEnter: &mut OrderedSet<u32>,
        statesForDefaultEntry: &mut OrderedSet<u32>,
        defaultHistoryContent: &mut HashTable<u32, u32>,
    )
        requires
            self.wf(),
            self.global_ok(global),
            self.tids_ok(global.historyValue@, transitions@),
            self.all_valid(old(statesToEnter)@),
            self.entry_from(
                global.historyValue@,
                transitions@,
                0,
                entry_view(old(statesToEnter), old(statesForDefaultEntry), old(defaultHistoryContent)),
                Self::entry_fuel(),
            ) is Some,
        ensures
            Some(
                entry_view(final(statesToEnter), final(statesForDefaultEntry), final(defaultHistoryContent)),
            ) == self.entry_from(
                global.historyValue@,
                transitions@,
                0,
                entry_view(old(statesToEnter), old(statesForDefaultEntry), old(defaultHistoryContent)),
                Self::entry_fuel(),
            ),
            self.all_valid(final(statesToEnter)@),
    {
        let ghost hv = global.historyValue@;
        let ghost tids = transitions@;
        let ghost fuel = Self::entry_fuel();
        let ghost e0 = entry_view(statesToEnter, statesForDefaultEntry, defaultHistoryContent);
        let mut i: usize = 0;
        while i < transitions.size()
            invariant
                self.wf(),
                self.global_ok(global),
                hv == global.historyValue@,
                tids == transitions@,
                fuel == Self::entry_fuel(),
                self.tids_ok(hv, tids),
                self.all_valid(statesToEnter@),
                i <= tids.len(),
                self.entry_from(hv, tids, 0, e0, fuel) == self.entry_from(
                    hv,
                    tids,
                    i as int,
                    entry_view(statesToEnter, statesForDefaultEntry, defaultHistoryContent),
                    fuel,
                ),
                self.entry_from(hv, tids, 0, e0, fuel) is Some,
            decreases tids.len() - i,
        {
            let tid = *transitions.get(i);
            proof {
                assert(tids.contains(tid));
                assert(self.trans_ok(hv, tid));
            }
            let t = self.get_transition_by_id(tid);
            let ghost d0 = entry_view(statesToEnter, statesForDefaultEntry, defaultHistoryContent);
            let mut j: usize = 0;
            while j < t.target.len()
                invariant
                    self.wf(),
                    self.global_ok(global),
                    hv == global.historyValue@,
                    fuel == Self::entry_fuel(),
                    self.all_valid(t.target@),
                    self.all_valid(statesToEnter@),
                    j <= t.target@.len(),
                    self.desc_from(hv, t.target@, 0, d0, fuel) == self.desc_from(
                        hv,
                        t.target@,
                        j as int,
                        entry_view(statesToEnter, statesForDefaultEntry, defaultHistoryContent),
                        fuel,
                    ),
                    self.desc_from(hv, t.target@, 0, d0, fuel) is Some,
                decreases t.target@.len() - j,
            {
                self.add_descendant_states(
                    global,
                    t.target[j],
                    statesToEnter,
                    statesForDefaultEntry,
                    defaultHistoryContent,
                    usize::MAX,
                );
                j = j + 1;
            }
            let ancestor = self.getTransitionDomain(global, t);
            proof {
                self.lemma_domain_valid(hv, *t);
            }
            let targets = self.getEffectiveTargetStates(global, t);
            proof {
                self.lemma_eff_valid(hv, t.target@, self.states@.len());
            }
            let ghost a0 = entry_view(statesToEnter, statesForDefaultEntry, defaultHistoryContent);
            let mut k: usize = 0;
            while k < targets.size()
                invariant
                    self.wf(),
                    self.global_ok(global),
                    hv == global.historyValue@,
                    fuel == Self::entry_fuel(),
                    self.all_valid(targets@),
                    ancestor == 0 || self.valid_state(ancestor),
                    self.all_valid(statesToEnter@),
                    k <= targets@.len(),
                    self.anc_from(hv, targets@, 0, ancestor, a0, fuel) == self.anc_from(
                        hv,
                        targets@,
                        k as int,
                        ancestor,
                        entry_view(statesToEnter, statesForDefaultEntry, defaultHistoryContent),
                        fuel,
                    ),
                    self.anc_from(hv, targets@, 0, ancestor, a0, fuel) is Some,
                decreases targets@.len() - k,
            {
                self.add_ancestor_states(
                    global,
                    *targets.get(k),
                    ancestor,
                    statesToEnter,
                    statesForDefaultEntry,
                    defaultHistoryContent,
                    usize::MAX,
                );
                k = k + 1;
            }
            i = i + 1;
        }
    }
}

/// `e` is the done event of state `id`, with done data exactly when `data` is set.
pub open spec fn is_done_event(e: Event, id: u32, data: bool) -> bool {
    &&& e.name@ == "done.state."@ + decode_utf8(i64_text(id as i64))
    &&& e.etype == EventType::external
    &&& (e.data is Some) == data
}

impl Fsm {
    /// Entering state `s`: it joins the configuration and the states to invoke; a final
    /// state stops the machine if its parent is the \<scxml\> element, and otherwise raises
    /// the done event of its parent, and that of its grandparent when the grandparent is a
    /// parallel state all of whose children are in a final state.
    pub open spec fn enter_one(&self, es: EnterState, s: u32) -> EnterState {
        let conf = set_add(es.configuration, s);
        let inv = set_add(es.to_invoke, s);
        let st = self.state(s);
        if st.is_final {
            if st.parent == self.pseudo_root {
                EnterState { configuration: conf, to_invoke: inv, running: false, events: es.events }
            } else {
                let ev = es.events.push((st.parent, st.donedata is Some));
                let gp = self.state(st.parent).parent;
                if self.is_parallel(gp) && (forall|j: int|
                    0 <= j < self.state(gp).states@.len() ==> self.in_final(
                        conf,
                        #[trigger] self.state(gp).states@[j],
                        self.states@.len(),
                    )) {
                    EnterState {
                        configuration: conf,
                        to_invoke: inv,
                        running: es.running,
                        events: ev.push((gp, false)),
                    }
                } else {
                    EnterState { configuration: conf, to_invoke: inv, running: es.running, events: ev }
                }
            }
        } else {
            EnterState { configuration: conf, to_invoke: inv, running: es.running, events: es.events }
        }
    }

    /// Entering the states of `list`, in order.
    pub open spec fn enter_all(&self, es: EnterState, list: Seq<u32>) -> EnterState
        decreases list.len(),
    {
        if list.len() == 0 {
            es
        } else {
            self.enter_one(self.enter_all(es, list.drop_last()), list.last())
        }
    }

    /// The states that taking `tids` enters, in entry order (document order).
    pub open spec fn entry_order(&self, hv: Map<u32, Seq<u32>>, tids: Seq<u32>) -> Seq<u32> {
        let e = self.entry_from(
            hv,
            tids,
            0,
            EntrySets {
                to_enter: Seq::empty(),
                default_entry: Seq::empty(),
                history_content: Map::empty(),
            },
            Self::entry_fuel(),
        );
        self.states_in_doc_order(e->0.to_enter)
    }

    /// Whether every child of `gp` is in a final state.
    fn children_in_final(&self, global: &GlobalData, gp: u32) -> (r: bool)
        requires
            self.wf(),
            self.global_ok(global),
            self.valid_state(gp),
        ensures
            r == forall|j: int|
                0 <= j < self.state(gp).states@.len() ==> self.in_final(
                    global.configuration@,
                    #[trigger] self.state(gp).states@[j],
                    self.states@.len(),
                ),
    {
        let children = &self.get_state_by_id(gp).states;
        let mut i: usize = 0;
        while i < children.len()
            invariant
                self.wf(),
                self.global_ok(global),
                self.valid_state(gp),
                children@ == self.state(gp).states@,
                i <= children@.len(),
                forall|j: int|
                    0 <= j < i ==> self.in_final(
                        global.configuration@,
                        #[trigger] children@[j],
                        self.states@.len(),
                    ),
            decreases children@.len() - i,
        {
            proof {
                assert(self.state_ok(gp - 1));
            }
            if !self.isInFinalState(global, children[i]) {
                return false;
            }
            i = i + 1;
        }
        true
    }

    /// #W3C says:
    /// ## procedure enterStates(enabledTransitions)
    /// First, compute the list of all the states that will be entered as a result of taking
    /// the transitions in enabledTransitions. Add them to statesToInvoke so that invoke
    /// processing can be done at the start of the next macrostep. Convert statesToEnter to a
    /// list and sort it in entryOrder. For each state s in the list, first add s to the
    /// current configuration. Then if we are using late binding, and this is the first time
    /// we have entered s, initialize its data model. Then execute any onentry handlers. If
    /// s's initial state is being entered by default, execute any executable content in the
    /// initial transition. If a history state in s was the target of a transition, and s
    /// has not been entered before, execute the content inside the history state's default
    /// transition. Finally, if s is a final state, generate relevant Done events. If we have
    /// reached a top-level final state, set running to false as a signal to stop processing.
    /// #Actual implementation:
    /// `executeContent` runs executable content with the data model; done events go to
    /// `internalQueue`. The data model of a state is not part of this library, so there is
    /// no late binding initialization here.
    #[allow(non_snake_case)]
    pub fn enterStates<F: Fn(u32) -> bool>(
        &self,
        global: &mut GlobalData,
        enabledTransitions: &List<u32>,
        internalQueue: &mut Queue<Event>,
        executeContent: &F,
        executed: &mut Vec<(u32, bool)>,
    )
        requires
            self.wf(),
            self.global_ok(old(global)),
            self.tids_ok(old(global).historyValue@, enabledTransitions@),
            forall|c: u32| executeContent.requires((c,)),
            self.entry_from(
                old(global).historyValue@,
                enabledTransitions@,
                0,
                EntrySets {
                    to_enter: Seq::empty(),
                    default_entry: Seq::empty(),
                    history_content: Map::empty(),
                },
                Self::entry_fuel(),
            ) is Some,
            forall|i: int|
                0 <= i < self.entry_order(old(global).historyValue@, enabledTransitions@).len()
                    ==> (self.state(
                    #[trigger] self.entry_order(old(global).historyValue@, enabledTransitions@)[i],
                ).is_final ==> self.state(
                    self.entry_order(old(global).historyValue@, enabledTransitions@)[i],
                ).parent != 0),
        ensures
            ({
                let out = self.enter_all(
                    EnterState {
                        configuration: old(global).configuration@,
                        to_invoke: old(global).statesToInvoke@,
                        running: old(global).running,
                        events: Seq::empty(),
                    },
                    self.entry_order(old(global).historyValue@, enabledTransitions@),
                );
                &&& final(global).configuration@ == out.configuration
                &&& final(global).statesToInvoke@ == out.to_invoke
                &&& final(global).running == out.running
                &&& final(internalQueue)@.len() == old(internalQueue)@.len() + out.events.len()
                &&& forall|i: int|
                    0 <= i < old(internalQueue)@.len() ==> final(internalQueue)@[i] == old(
                        internalQueue,
                    )@[i]
                &&& forall|i: int|
                    0 <= i < out.events.len() ==> is_done_event(
                        #[trigger] final(internalQueue)@[old(internalQueue)@.len() + i],
                        out.events[i].0,
                        out.events[i].1,
                    )
            }),
            final(global).historyValue@ == old(global).historyValue@,
            self.global_ok(final(global)),
            ran_after(
                final(executed)@,
                old(executed)@,
                self.entry_contents(
                    self.entry_order(old(global).historyValue@, enabledTransitions@),
                    self.entry_from(
                        old(global).historyValue@,
                        enabledTransitions@,
                        0,
                        EntrySets {
                            to_enter: Seq::empty(),
                            default_entry: Seq::empty(),
                            history_content: Map::empty(),
                        },
                        Self::entry_fuel(),
                    )->0,
                ),
                *executeContent,
            ),
    {
        proof {
            broadcast use vstd::std_specs::hash::group_hash_axioms;
        }
        let ghost hv = global.historyValue@;
        let ghost tids = enabledTransitions@;
        let mut statesToEnter: OrderedSet<u32> = OrderedSet::new();
        let mut statesForDefaultEntry: OrderedSet<u32> = OrderedSet::new();
        let mut defaultHistoryContent: HashTable<u32, u32> = HashTable::new();
        proof {
            assert(entry_view(&statesToEnter, &statesForDefaultEntry, &defaultHistoryContent) == EntrySets {
                to_enter: Seq::empty(),
                default_entry: Seq::empty(),
                history_content: Map::empty(),
            });
        }
        self.computeEntrySet(
            global,
            enabledTransitions,
            &mut statesToEnter,
            &mut statesForDefaultEntry,
            &mut defaultHistoryContent,
        );
        let mut enterVec: Vec<u32> = Vec::new();
        let mut k: usize = 0;
        while k < statesToEnter.size()
            invariant
                k <= statesToEnter@.len(),
                enterVec@ == statesToEnter@.take(k as int),
            decreases statesToEnter@.len() - k,
        {
            enterVec.push(*statesToEnter.get(k));
            assert(statesToEnter@.take(k + 1) =~= statesToEnter@.take(k as int).push(statesToEnter@[k as int]));
            k = k + 1;
        }
        assert(statesToEnter@.take(statesToEnter@.len() as int) =~= statesToEnter@);
        let sorted = self.sort_states_by_document_order(&enterVec);
        proof {
            self.lemma_doc_order_valid(enterVec@);
            let e = self.entry_from(
                hv,
                tids,
                0,
                EntrySets {
                    to_enter: Seq::empty(),
                    default_entry: Seq::empty(),
                    history_content: Map::empty(),
                },
                Self::entry_fuel(),
            );
            assert(e->0.to_enter == statesToEnter@);
            assert(sorted@ == self.entry_order(hv, tids));
        }
        let ghost es0 = EnterState {
            configuration: global.configuration@,
            to_invoke: global.statesToInvoke@,
            running: global.running,
            events: Seq::empty(),
        };
        let ghost q0 = internalQueue@;
        let ghost es = self.entry_from(
            hv,
            tids,
            0,
            EntrySets {
                to_enter: Seq::empty(),
                default_entry: Seq::empty(),
                history_content: Map::empty(),
            },
            Self::entry_fuel(),
        )->0;
        let ghost start = executed@;
        assert(executed@.take(start.len() as int) =~= start);
        assert(executed@.skip(start.len() as int) =~= Seq::<(u32, bool)>::empty());
        assert(sorted@.take(0) =~= Seq::<u32>::empty());
        let mut n: usize = 0;
        while n < sorted.len()
            invariant
                self.wf(),
                self.global_ok(global),
                global.historyValue@ == hv,
                forall|c: u32| executeContent.requires((c,)),
                statesForDefaultEntry@ == es.default_entry,
                defaultHistoryContent@ == es.history_content,
                ran_after(executed@, start, self.entry_contents(sorted@.take(n as int), es), *executeContent),
                sorted@ == self.entry_order(hv, tids),
                self.all_valid(sorted@),
                forall|i: int|
                    0 <= i < sorted@.len() ==> (self.state(#[trigger] sorted@[i]).is_final
                        ==> self.state(sorted@[i]).parent != 0),
                n <= sorted@.len(),
                ({
                    let out = self.enter_all(es0, sorted@.take(n as int));
                    &&& global.configuration@ == out.configuration
                    &&& global.statesToInvoke@ == out.to_invoke
                    &&& global.running == out.running
                    &&& internalQueue@.len() == q0.len() + out.events.len()
                    &&& forall|i: int| 0 <= i < q0.len() ==> internalQueue@[i] == q0[i]
                    &&& forall|i: int|
                        0 <= i < out.events.len() ==> is_done_event(
                            #[trigger] internalQueue@[q0.len() + i],
                            out.events[i].0,
                            out.events[i].1,
                        )
                }),
            decreases sorted@.len() - n,
        {
            let sid = sorted[n];
            let ghost before = self.enter_all(es0, sorted@.take(n as int));
            proof {
                let t = sorted@.take(n + 1);
                assert(t.drop_last() =~= sorted@.take(n as int));
                assert(t.last() == sid);
                assert(self.valid_state(sid));
                self.lemma_set_add_valid(global.configuration@, sid);
            }
            global.configuration.add(sid);
            global.statesToInvoke.add(sid);
            let state = self.get_state_by_id(sid);
            proof {
                assert(self.state_ok(sid - 1));
            }
            let mut exe = Self::sort_content(&state.onentry);
            let ghost e1 = exe@;
            if statesForDefaultEntry.isMember(&sid) && state.initial > 0 {
                exe.push(self.get_transition_by_id(state.initial).content);
            }
            let ghost e2 = exe@;
            if defaultHistoryContent.has(sid) {
                exe.push(*defaultHistoryContent.get(sid));
            }
            proof {
                let di = if es.default_entry.contains(sid) && self.state(sid).initial > 0 {
                    seq![self.transition(self.state(sid).initial).content]
                } else {
                    Seq::<u32>::empty()
                };
                let hc = if es.history_content.contains_key(sid) {
                    seq![es.history_content[sid]]
                } else {
                    Seq::<u32>::empty()
                };
                assert(e2 =~= e1 + di);
                assert(exe@ =~= e1 + di + hc);
            }
            let ghost before = executed@;
            run_contents(&exe, true, executeContent, executed);
            proof {
                lemma_ran_after_step(executed@, before, start, self.entry_contents(sorted@.take(n as int), es), nonzero(exe@), *executeContent);
                assert(self.entry_contents(sorted@.take(n + 1), es) == self.entry_contents(sorted@.take(n as int), es) + self.state_entry_contents(sid, es));
            }
            if self.isFinalStateId(sid) {
                let parent = state.parent;
                if self.isSCXMLElement(parent) {
                    global.running = false;
                } else {
                    let ghost qlen = internalQueue@.len();
                    internalQueue.enqueue(Event::new("done.state.", parent, &state.donedata));
                    proof {
                        assert(internalQueue@[qlen as int] == internalQueue@.last());
                        assert(self.valid_state(parent));
                    }
                    let gp = self.get_state_by_id(parent).parent;
                    proof {
                        assert(self.state_ok(parent - 1));
                    }
                    if self.isParallelState(gp) {
                        if self.children_in_final(global, gp) {
                            internalQueue.enqueue(Event::new("done.state.", gp, &None));
                        }
                    }
                }
            }
            n = n + 1;
        }
        assert(sorted@.take(sorted@.len() as int) =~= sorted@);
    }
}

impl Fsm {
    /// #W3C says:
    /// # procedure executeTransitionContent(enabledTransitions)
    /// For each transition in the list of enabledTransitions, execute its executable
    /// content.
    #[allow(non_snake_case)]
    pub fn executeTransitionContent<F: Fn(u32) -> bool>(
        &self,
        enabledTransitions: &List<u32>,
        executeContent: &F,
        executed: &mut Vec<(u32, bool)>,
    )
        requires
            forall|i: int|
                0 <= i < enabledTransitions@.len() ==> self.valid_transition(
                    #[trigger] enabledTransitions@[i],
                ),
            forall|c: u32| executeContent.requires((c,)),
        ensures
            ran_after(
                final(executed)@,
                old(executed)@,
                self.transition_contents(enabledTransitions@),
                *executeContent,
            ),
    {
        let ghost start = executed@;
        let ghost tids = enabledTransitions@;
        assert(executed@.take(start.len() as int) =~= start);
        assert(executed@.skip(start.len() as int) =~= Seq::<(u32, bool)>::empty());
        assert(tids.take(0) =~= Seq::<u32>::empty());
        let mut i: usize = 0;
        while i < enabledTransitions.size()
            invariant
                tids == enabledTransitions@,
                forall|i: int|
                    0 <= i < enabledTransitions@.len() ==> self.valid_transition(
                        #[trigger] enabledTransitions@[i],
                    ),
                forall|c: u32| executeContent.requires((c,)),
                i <= enabledTransitions@.len(),
                ran_after(executed@, start, self.transition_contents(tids.take(i as int)), *executeContent),
            decreases enabledTransitions@.len() - i,
        {
            let ghost before = executed@;
            let tid = *enabledTransitions.get(i);
            let t = self.get_transition_by_id(tid);
            proof {
                let tk = tids.take(i + 1);
                assert(tk.drop_last() =~= tids.take(i as int));
                assert(tk.last() == tid);
            }
            if t.content > 0 {
                let o = executeContent(t.content);
                executed.push((t.content, o));
                proof {
                    lemma_ran_as_concat(
                        before.skip(start.len() as int),
                        self.transition_contents(tids.take(i as int)),
                        seq![(t.content, o)],
                        seq![t.content],
                        *executeContent,
                    );
                    assert(before.skip(start.len() as int) + seq![(t.content, o)] =~= executed@.skip(
                        start.len() as int,
                    ));
                    assert(executed@.take(start.len() as int) =~= start);
                }
            } else {
                proof {
                    assert(self.transition_contents(tids.take(i + 1)) =~= self.transition_contents(
                        tids.take(i as int),
                    ));
                }
            }
            i = i + 1;
        }
        assert(tids.take(tids.len() as int) =~= tids);
    }

    /// The history values after exiting the states that taking `tids` exits.
    pub open spec fn history_after_exit(
        &self,
        hv: Map<u32, Seq<u32>>,
        conf: Seq<u32>,
        tids: Seq<u32>,
    ) -> Map<u32, Seq<u32>> {
        hv.union_prefer_right(self.record_exits(Map::empty(), conf, self.exit_order(hv, conf, tids)))
    }

    /// The configuration after exiting the states that taking `tids` exits.
    pub open spec fn configuration_after_exit(
        &self,
        hv: Map<u32, Seq<u32>>,
        conf: Seq<u32>,
        tids: Seq<u32>,
    ) -> Seq<u32> {
        remove_each(conf, self.exit_order(hv, conf, tids))
    }

    /// #W3C says:
    /// # procedure microstep(enabledTransitions)
    /// The purpose of the microstep procedure is to process a single set of transitions.
    /// These may have been enabled by an external event, an internal event, or by the
    /// presence or absence of certain values in the data model at the current point in
    /// time. The processing of the enabled transitions must be done in parallel ('lock
    /// step') in the sense that their source states must first be exited, then their actions
    /// must be executed, and finally their target states entered.
    #[allow(non_snake_case)]
    pub fn microstep<F: Fn(u32) -> bool>(
        &self,
        global: &mut GlobalData,
        enabledTransitions: &List<u32>,
        internalQueue: &mut Queue<Event>,
        executeContent: &F,
        executed: &mut Vec<(u32, bool)>,
    )
        requires
            self.wf(),
            self.global_ok(old(global)),
            forall|c: u32| executeContent.requires((c,)),
            self.tids_ok(old(global).historyValue@, enabledTransitions@),
            ({
                let hv2 = self.history_after_exit(
                    old(global).historyValue@,
                    old(global).configuration@,
                    enabledTransitions@,
                );
                self.tids_ok(hv2, enabledTransitions@) && self.entry_ok(hv2, enabledTransitions@)
            }),
        ensures
            self.microstepped(
                *old(global),
                old(internalQueue)@,
                *final(global),
                final(internalQueue)@,
                enabledTransitions@,
            ),
            self.global_ok(final(global)),
            ran_after(
                final(executed)@,
                old(executed)@,
                self.microstep_contents(
                    old(global).historyValue@,
                    old(global).configuration@,
                    enabledTransitions@,
                ),
                *executeContent,
            ),
    {
        let ghost hv = global.historyValue@;
        let ghost conf = global.configuration@;
        let ghost inv = global.statesToInvoke@;
        let ghost running = global.running;
        let ghost start = executed@;
        let exited = self.exitStates(global, enabledTransitions, executeContent, executed);
        let ghost mid1 = executed@;
        proof {
            assert forall|i: int|
                0 <= i < enabledTransitions@.len() implies self.valid_transition(
                #[trigger] enabledTransitions@[i],
            ) by {
                assert(enabledTransitions@.contains(enabledTransitions@[i]));
                assert(self.trans_ok(hv, enabledTransitions@[i]));
            }
            assert(global.historyValue@ == self.history_after_exit(hv, conf, enabledTransitions@));
            assert(global.configuration@ == self.configuration_after_exit(hv, conf, enabledTransitions@));
            assert(global.running == running);
        }
        self.executeTransitionContent(enabledTransitions, executeContent, executed);
        let ghost mid2 = executed@;
        self.enterStates(global, enabledTransitions, internalQueue, executeContent, executed);
        proof {
            let tids = enabledTransitions@;
            let hv2 = self.history_after_exit(hv, conf, tids);
            let c1 = self.exit_contents(self.exit_order(hv, conf, tids));
            let c2 = self.transition_contents(tids);
            let c3 = self.entry_contents(self.entry_order(hv2, tids), self.entry_sets(hv2, tids));
            lemma_ran_after_step(mid2, mid1, start, c1, c2, *executeContent);
            lemma_ran_after_step(executed@, mid2, start, c1 + c2, c3, *executeContent);
        }
    }

    /// The entry sets that taking the transitions `tids` computes.
    pub open spec fn entry_sets(&self, hv: Map<u32, Seq<u32>>, tids: Seq<u32>) -> EntrySets {
        self.entry_from(
            hv,
            tids,
            0,
            EntrySets { to_enter: Seq::empty(), default_entry: Seq::empty(), history_content: Map::empty() },
            Self::entry_fuel(),
        )->0
    }

    /// The contents that a microstep runs, in order: the onexit contents of the states
    /// exited, in exit order; the contents of the transitions; the contents run on entering
    /// the states entered, in entry order.
    pub open spec fn microstep_contents(
        &self,
        hv: Map<u32, Seq<u32>>,
        conf: Seq<u32>,
        tids: Seq<u32>,
    ) -> Seq<u32> {
        let hv2 = self.history_after_exit(hv, conf, tids);
        self.exit_contents(self.exit_order(hv, conf, tids)) + self.transition_contents(tids)
            + self.entry_contents(self.entry_order(hv2, tids), self.entry_sets(hv2, tids))
    }

    /// The states recorded in the history values `hv` exist.
    pub open spec fn history_valid(&self, hv: Map<u32, Seq<u32>>) -> bool {
        forall|h: u32, i: int|
            hv.contains_key(h) && 0 <= i < hv[h].len() ==> self.valid_state(#[trigger] hv[h][i])
    }

    /// Entering the targets of `tids` with the history values `hv` succeeds: the entry
    /// sets resolve, and no final state entered is the root.
    pub open spec fn entry_ok(&self, hv: Map<u32, Seq<u32>>, tids: Seq<u32>) -> bool {
        &&& self.entry_from(
            hv,
            tids,
            0,
            EntrySets { to_enter: Seq::empty(), default_entry: Seq::empty(), history_content: Map::empty() },
            Self::entry_fuel(),
        ) is Some
        &&& forall|i: int|
            0 <= i < self.entry_order(hv, tids).len() ==> (self.state(
                #[trigger] self.entry_order(hv, tids)[i],
            ).is_final ==> self.state(self.entry_order(hv, tids)[i]).parent != 0)
    }

    /// The chart can be run: whatever history values the session has recorded, the
    /// targets of every transition resolve, and taking any set of such transitions enters
    /// its target states.
    pub open spec fn runs_safely(&self) -> bool {
        &&& forall|hv: Map<u32, Seq<u32>>, tid: u32|
            self.history_valid(hv) && self.valid_transition(tid) ==> #[trigger] self.trans_ok(hv, tid)
        &&& forall|hv: Map<u32, Seq<u32>>, tids: Seq<u32>|
            self.history_valid(hv) && self.tids_ok(hv, tids) ==> #[trigger] self.entry_ok(hv, tids)
    }

    /// The effect of a microstep that takes the transitions `tids`, from the data `g0` and
    /// the internal queue `q0` to the data `g1` and the queue `q1`: the history values are
    /// recorded and the states exited, then the target states entered, and the done events
    /// of the final states entered are queued, in entry order.
    pub open spec fn microstepped(
        &self,
        g0: GlobalData,
        q0: Seq<Event>,
        g1: GlobalData,
        q1: Seq<Event>,
        tids: Seq<u32>,
    ) -> bool {
        let hv2 = self.history_after_exit(g0.historyValue@, g0.configuration@, tids);
        let out = self.enter_all(
            EnterState {
                configuration: self.configuration_after_exit(
                    g0.historyValue@,
                    g0.configuration@,
                    tids,
                ),
                to_invoke: remove_each(
                    g0.statesToInvoke@,
                    self.exit_set(g0.historyValue@, g0.configuration@, tids),
                ),
                running: g0.running,
                events: Seq::empty(),
            },
            self.entry_order(hv2, tids),
        );
        &&& g1.historyValue@ == hv2
        &&& g1.configuration@ == out.configuration
        &&& g1.statesToInvoke@ == out.to_invoke
        &&& g1.running == out.running
        &&& q1.len() == q0.len() + out.events.len()
        &&& forall|i: int| 0 <= i < q0.len() ==> q1[i] == q0[i]
        &&& forall|i: int|
            0 <= i < out.events.len() ==> is_done_event(
                #[trigger] q1[q0.len() + i],
                out.events[i].0,
                out.events[i].1,
            )
    }

    /// `tids` is a result of selecting the enabled transitions in the configuration
    /// `conf` with the history values `hv`, for the event named `name` (`None`: the
    /// eventless transitions), when `f` decides the conditions.
    pub open spec fn selects<F: Fn(u32) -> bool>(
        &self,
        hv: Map<u32, Seq<u32>>,
        conf: Seq<u32>,
        name: Option<Seq<char>>,
        f: F,
        tids: Seq<u32>,
    ) -> bool {
        exists|picks: Seq<u32>|
            picks_from(self.candidate_groups(conf, name), picks, f) && tids
                == self.without_conflicts(hv, conf, set_add_all(Seq::empty(), picks))
    }

    /// A microstep that takes `tids` led from (`g0`, `q0`, `e0`) to (`g1`, `q1`, `e1`), the
    /// last being the record of the executable contents run.
    pub open spec fn took<G: Fn(u32) -> bool>(
        &self,
        g0: GlobalData,
        q0: Seq<Event>,
        e0: Seq<(u32, bool)>,
        g1: GlobalData,
        q1: Seq<Event>,
        e1: Seq<(u32, bool)>,
        tids: Seq<u32>,
        ec: G,
    ) -> bool {
        &&& self.microstepped(g0, q0, g1, q1, tids)
        &&& ran_after(
            e1,
            e0,
            self.microstep_contents(g0.historyValue@, g0.configuration@, tids),
            ec,
        )
    }

    /// An event named `name` (`None`: no event) was handled: the transitions it enables
    /// were selected and, unless there were none, taken in a microstep; with none, nothing
    /// changed.
    pub open spec fn event_step<F: Fn(u32) -> bool, G: Fn(u32) -> bool>(
        &self,
        g0: GlobalData,
        q0: Seq<Event>,
        e0: Seq<(u32, bool)>,
        g1: GlobalData,
        q1: Seq<Event>,
        e1: Seq<(u32, bool)>,
        name: Option<Seq<char>>,
        cm: F,
        ec: G,
    ) -> bool {
        exists|tids: Seq<u32>|
            #[trigger] self.selects(g0.historyValue@, g0.configuration@, name, cm, tids) && if tids.len()
                == 0 {
                g1 == g0 && q1 == q0 && e1 == e0
            } else {
                self.took(g0, q0, e0, g1, q1, e1, tids, ec)
            }
    }

    /// One round of a macrostep, from (`g0`, `q0`, `e0`) to (`g1`, `q1`, `e1`), answering
    /// `done`. A session that is not running is done and unchanged. Otherwise the eventless
    /// transitions come first: if any are enabled, they are taken. If none are, and the
    /// internal queue is empty, the macrostep is done. Else the first internal event is
    /// dequeued and handled.
    pub open spec fn macrostep_round_spec<F: Fn(u32) -> bool, G: Fn(u32) -> bool>(
        &self,
        g0: GlobalData,
        q0: Seq<Event>,
        e0: Seq<(u32, bool)>,
        g1: GlobalData,
        q1: Seq<Event>,
        e1: Seq<(u32, bool)>,
        cm: F,
        ec: G,
        done: bool,
    ) -> bool {
        let hv = g0.historyValue@;
        let conf = g0.configuration@;
        if !g0.running {
            done && g1 == g0 && q1 == q0 && e1 == e0
        } else {
            ||| !done && exists|tids: Seq<u32>|
                #[trigger] self.selects(hv, conf, None, cm, tids) && tids.len() > 0 && self.took(
                    g0,
                    q0,
                    e0,
                    g1,
                    q1,
                    e1,
                    tids,
                    ec,
                )
            ||| self.selects(hv, conf, None, cm, Seq::empty()) && if q0.len() == 0 {
                done && g1 == g0 && q1 == q0 && e1 == e0
            } else {
                !done && self.event_step(
                    g0,
                    q0.drop_first(),
                    e0,
                    g1,
                    q1,
                    e1,
                    Some(q0[0].name@),
                    cm,
                    ec,
                )
            }
        }
    }

    /// With `runs_safely`, every group of candidate transitions in a configuration of
    /// existing states can be selected from.
    proof fn lemma_safe_candidates(&self, hv: Map<u32, Seq<u32>>, conf: Seq<u32>, name: Option<Seq<char>>)
        requires
            self.wf(),
            self.runs_safely(),
            self.history_valid(hv),
            self.all_valid(conf),
        ensures
            forall|i: int|
                0 <= i < self.candidate_groups(conf, name).len() ==> self.tids_ok(
                    hv,
                    #[trigger] self.candidate_groups(conf, name)[i],
                ),
    {
        self.lemma_candidate_groups_valid(conf, name);
        assert forall|i: int| 0 <= i < self.candidate_groups(conf, name).len() implies self.tids_ok(
            hv,
            #[trigger] self.candidate_groups(conf, name)[i],
        ) by {
            let g = self.candidate_groups(conf, name)[i];
            assert(self.all_transitions(g));
            assert forall|x: u32| g.contains(x) implies #[trigger] self.trans_ok(hv, x) by {
                let k = choose|k: int| 0 <= k < g.len() && g[k] == x;
                assert(self.valid_transition(g[k]));
            }
        }
    }

    /// A microstep on a chart that `runs_safely`: its preconditions on the entry sets
    /// follow from that property.
    fn microstep_safely<G: Fn(u32) -> bool>(
        &self,
        global: &mut GlobalData,
        enabledTransitions: &List<u32>,
        internalQueue: &mut Queue<Event>,
        executeContent: &G,
        executed: &mut Vec<(u32, bool)>,
    )
        requires
            self.wf(),
            self.runs_safely(),
            self.global_ok(old(global)),
            forall|c: u32| executeContent.requires((c,)),
            self.tids_ok(old(global).historyValue@, enabledTransitions@),
        ensures
            self.took(
                *old(global),
                old(internalQueue)@,
                old(executed)@,
                *final(global),
                final(internalQueue)@,
                final(executed)@,
                enabledTransitions@,
                *executeContent,
            ),
            self.global_ok(final(global)),
    {
        let ghost hv = global.historyValue@;
        let ghost conf = global.configuration@;
        let ghost start = executed@;
        let exited = self.exitStates(global, enabledTransitions, executeContent, executed);
        let ghost mid1 = executed@;
        proof {
            let tids = enabledTransitions@;
            let hv2 = global.historyValue@;
            assert(hv2 == self.history_after_exit(hv, conf, tids));
            assert(self.history_valid(hv2));
            assert forall|x: u32| tids.contains(x) implies #[trigger] self.trans_ok(hv2, x) by {
                assert(self.trans_ok(hv, x));
            }
            assert(self.entry_ok(hv2, tids));
            assert forall|i: int| 0 <= i < tids.len() implies self.valid_transition(
                #[trigger] tids[i],
            ) by {
                assert(tids.contains(tids[i]));
                assert(self.trans_ok(hv, tids[i]));
            }
        }
        self.executeTransitionContent(enabledTransitions, executeContent, executed);
        let ghost mid2 = executed@;
        self.enterStates(global, enabledTransitions, internalQueue, executeContent, executed);
        proof {
            let tids = enabledTransitions@;
            let hv2 = self.history_after_exit(hv, conf, tids);
            let c1 = self.exit_contents(self.exit_order(hv, conf, tids));
            let c2 = self.transition_contents(tids);
            let c3 = self.entry_contents(self.entry_order(hv2, tids), self.entry_sets(hv2, tids));
            lemma_ran_after_step(mid2, mid1, start, c1, c2, *executeContent);
            lemma_ran_after_step(executed@, mid2, start, c1 + c2, c3, *executeContent);
        }
    }

    /// #W3C says:
    /// Here we handle eventless transitions and transitions triggered by internal events
    /// until macrostep is complete.
    /// #Actual implementation:
    /// One round of that loop: takes the enabled eventless transitions; if there are none,
    /// dequeues an internal event and takes the transitions it enables. Returns whether the
    /// macrostep is complete (no eventless transition enabled and the internal queue empty,
    /// or the session no longer running). The caller repeats it until it returns `true`.
    /// `conditionMatch` evaluates conditions and `executeContent` runs executable content
    /// with the data model; `executed` records each content run with its result.
    pub fn macrostep_round<F: Fn(u32) -> bool, G: Fn(u32) -> bool>(
        &self,
        global: &mut GlobalData,
        internalQueue: &mut Queue<Event>,
        conditionMatch: &F,
        executeContent: &G,
        executed: &mut Vec<(u32, bool)>,
    ) -> (done: bool)
        requires
            self.wf(),
            self.runs_safely(),
            self.global_ok(old(global)),
            forall|t: u32| conditionMatch.requires((t,)),
            forall|c: u32| executeContent.requires((c,)),
        ensures
            self.macrostep_round_spec(
                *old(global),
                old(internalQueue)@,
                old(executed)@,
                *final(global),
                final(internalQueue)@,
                final(executed)@,
                *conditionMatch,
                *executeContent,
                done,
            ),
            self.global_ok(final(global)),
    {
        if !global.running {
            return true;
        }
        let ghost g0 = *global;
        let ghost q0 = internalQueue@;
        let ghost e0 = executed@;
        proof {
            self.lemma_safe_candidates(global.historyValue@, global.configuration@, None);
        }
        let eventless = self.selectEventlessTransitions(global, conditionMatch);
        assert(self.selects(g0.historyValue@, g0.configuration@, None, *conditionMatch, eventless@));
        if !eventless.isEmpty() {
            self.microstep_safely(global, &eventless.toList(), internalQueue, executeContent, executed);
            return false;
        }
        assert(eventless@ =~= Seq::<u32>::empty());
        if internalQueue.isEmpty() {
            return true;
        }
        let ev = internalQueue.dequeue();
        proof {
            self.lemma_safe_candidates(global.historyValue@, global.configuration@, Some(ev.name@));
        }
        let enabled = self.selectTransitions(global, &ev, conditionMatch);
        assert(self.selects(g0.historyValue@, g0.configuration@, Some(ev.name@), *conditionMatch, enabled@));
        if !enabled.isEmpty() {
            self.microstep_safely(global, &enabled.toList(), internalQueue, executeContent, executed);
        }
        false
    }

    /// #W3C says:
    /// A blocking wait for an external event. Alternatively, if we have been invoked our
    /// parent session also might cancel us. The mechanism for this is platform specific,
    /// but here we assume it's a special event we receive.
    /// #Actual implementation:
    /// Handles the external event `event` once the caller has received it: a cancel event
    /// stops the session (returns `true`, nothing else changes); any other event selects
    /// the transitions it enables and takes them in a microstep.
    pub fn external_step<F: Fn(u32) -> bool, G: Fn(u32) -> bool>(
        &self,
        global: &mut GlobalData,
        internalQueue: &mut Queue<Event>,
        event: &Event,
        conditionMatch: &F,
        executeContent: &G,
        executed: &mut Vec<(u32, bool)>,
    ) -> (cancelled: bool)
        requires
            self.wf(),
            self.runs_safely(),
            self.global_ok(old(global)),
            forall|t: u32| conditionMatch.requires((t,)),
            forall|c: u32| executeContent.requires((c,)),
        ensures
            cancelled == is_cancel_name(event.name@),
            cancelled ==> {
                &&& !final(global).running
                &&& final(global).configuration@ == old(global).configuration@
                &&& final(global).historyValue@ == old(global).historyValue@
                &&& final(global).statesToInvoke@ == old(global).statesToInvoke@
                &&& final(internalQueue)@ == old(internalQueue)@
                &&& final(executed)@ == old(executed)@
            },
            !cancelled ==> self.event_step(
                *old(global),
                old(internalQueue)@,
                old(executed)@,
                *final(global),
                final(internalQueue)@,
                final(executed)@,
                Some(event.name@),
                *conditionMatch,
                *executeContent,
            ),
            self.global_ok(final(global)),
    {
        if self.isCancelEvent(event) {
            global.running = false;
            return true;
        }
        let ghost g0 = *global;
        proof {
            self.lemma_safe_candidates(global.historyValue@, global.configuration@, Some(event.name@));
        }
        let enabled = self.selectTransitions(global, event, conditionMatch);
        assert(self.selects(g0.historyValue@, g0.configuration@, Some(event.name@), *conditionMatch, enabled@));
        if !enabled.isEmpty() {
            self.microstep_safely(global, &enabled.toList(), internalQueue, executeContent, executed);
        } else {
            assert(enabled@ =~= Seq::<u32>::empty());
        }
        false
    }

    /// The done data of the top-level final states among `states`, in order.
    pub open spec fn top_level_done_data(&self, states: Seq<u32>) -> Seq<Option<DoneData>>
        decreases states.len(),
    {
        if states.len() == 0 {
            Seq::empty()
        } else {
            let prev = self.top_level_done_data(states.drop_last());
            let st = self.state(states.last());
            if st.is_final && st.parent == self.pseudo_root {
                prev.push(st.donedata)
            } else {
                prev
            }
        }
    }

    /// #W3C says:
    /// # procedure exitInterpreter()
    /// The purpose of this procedure is to exit the current SCXML process by exiting all
    /// active states. If the machine is in a top-level final state, a Done event is
    /// generated. (Note that in this case, the final state will be the only active state.)
    /// #Actual implementation:
    /// `executeContent` runs executable content with the data model. Returns the done data
    /// of the top-level final states exited, in exit order; returning the done event to the
    /// caller of the session is left to the caller of this function.
    #[allow(non_snake_case)]
    pub fn exitInterpreter<F: Fn(u32) -> bool>(
        &self,
        global: &mut GlobalData,
        executeContent: &F,
        executed: &mut Vec<(u32, bool)>,
    ) -> (r: Vec<Option<DoneData>>)
        requires
            self.wf(),
            self.global_ok(old(global)),
            forall|c: u32| executeContent.requires((c,)),
        ensures
            ran_after(
                final(executed)@,
                old(executed)@,
                self.exit_contents(self.states_in_doc_order(old(global).configuration@)),
                *executeContent,
            ),
            final(global).configuration@ == remove_each(
                old(global).configuration@,
                self.states_in_doc_order(old(global).configuration@),
            ),
            r@ == self.top_level_done_data(self.states_in_doc_order(old(global).configuration@)),
            final(global).historyValue@ == old(global).historyValue@,
            final(global).statesToInvoke@ == old(global).statesToInvoke@,
            final(global).running == old(global).running,
    {
        let ghost conf = global.configuration@;
        let mut confVec: Vec<u32> = Vec::new();
        let mut k: usize = 0;
        while k < global.configuration.size()
            invariant
                k <= conf.len(),
                conf == global.configuration@,
                confVec@ == conf.take(k as int),
            decreases conf.len() - k,
        {
            confVec.push(*global.configuration.get(k));
            assert(conf.take(k + 1) =~= conf.take(k as int).push(conf[k as int]));
            k = k + 1;
        }
        assert(conf.take(conf.len() as int) =~= conf);
        let sorted = self.sort_states_by_document_order(&confVec);
        proof {
            self.lemma_doc_order_valid(confVec@);
        }
        let mut done: Vec<Option<DoneData>> = Vec::new();
        let ghost start = executed@;
        assert(executed@.take(start.len() as int) =~= start);
        assert(executed@.skip(start.len() as int) =~= Seq::<(u32, bool)>::empty());
        assert(sorted@.take(0) =~= Seq::<u32>::empty());
        let mut n: usize = 0;
        while n < sorted.len()
            invariant
                self.wf(),
                forall|c: u32| executeContent.requires((c,)),
                ran_after(executed@, start, self.exit_contents(sorted@.take(n as int)), *executeContent),
                self.all_valid(sorted@),
                n <= sorted@.len(),
                global.configuration@ == remove_each(conf, sorted@.take(n as int)),
                done@ == self.top_level_done_data(sorted@.take(n as int)),
                global.historyValue@ == old(global).historyValue@,
                global.statesToInvoke@ == old(global).statesToInvoke@,
                global.running == old(global).running,
            decreases sorted@.len() - n,
        {
            let sid = sorted[n];
            proof {
                let t = sorted@.take(n + 1);
                assert(t.drop_last() =~= sorted@.take(n as int));
                assert(t.last() == sid);
            }
            let state = self.get_state_by_id(sid);
            let exe = Self::sort_content(&state.onexit);
            let ghost before = executed@;
            run_contents(&exe, false, executeContent, executed);
            proof {
                lemma_ran_after_step(executed@, before, start, self.exit_contents(sorted@.take(n as int)), exe@, *executeContent);
            }
            global.configuration.delete(&sid);
            if self.isFinalState(state) && self.isSCXMLElement(state.parent) {
                done.push(state.donedata);
            }
            n = n + 1;
        }
        assert(sorted@.take(sorted@.len() as int) =~= sorted@);
        done
    }
}

/// The ids of the invokes of `invs` whose invoke id is `invokeid`, in order.
pub open spec fn finalize_of(invs: Seq<Invoke>, invokeid: u32) -> Seq<u32>
    decreases invs.len(),
{
    if invs.len() == 0 {
        Seq::empty()
    } else {
        let prev = finalize_of(invs.drop_last(), invokeid);
        if invs.last().invokeid == invokeid {
            prev.push(invs.last().id)
        } else {
            prev
        }
    }
}

/// The ids of the invokes of `invs` that forward events automatically, in order.
pub open spec fn forward_of(invs: Seq<Invoke>) -> Seq<u32>
    decreases invs.len(),
{
    if invs.len() == 0 {
        Seq::empty()
    } else {
        let prev = forward_of(invs.drop_last());
        if invs.last().autoforward {
            prev.push(invs.last().id)
        } else {
            prev
        }
    }
}

/// The ids of the invokes of `invs`, in document order (by id).
pub open spec fn invokes_in_order(invs: Seq<Invoke>) -> Seq<u32> {
    seconds(sort_by_key(invs.map_values(|i: Invoke| (i.id, i.id))))
}

/// Appends to `out` the ids of the invokes of `invs` whose invoke id is `invokeid`.
fn push_finalize(invs: &Vec<Invoke>, invokeid: u32, out: &mut Vec<u32>)
    ensures
        final(out)@ == old(out)@ + finalize_of(invs@, invokeid),
{
    let ghost start = out@;
    let mut k: usize = 0;
    assert(invs@.take(0) =~= Seq::<Invoke>::empty());
    assert(start + Seq::<u32>::empty() =~= start);
    while k < invs.len()
        invariant
            k <= invs@.len(),
            out@ == start + finalize_of(invs@.take(k as int), invokeid),
        decreases invs@.len() - k,
    {
        assert(invs@.take(k + 1).drop_last() =~= invs@.take(k as int));
        if invs[k].invokeid == invokeid {
            out.push(invs[k].id);
            assert(start + finalize_of(invs@.take(k as int), invokeid).push(invs@[k as int].id)
                =~= (start + finalize_of(invs@.take(k as int), invokeid)).push(invs@[k as int].id));
        }
        k = k + 1;
    }
    assert(invs@.take(invs@.len() as int) =~= invs@);
}

/// Appends to `out` the ids of the invokes of `invs` that forward events automatically.
fn push_forward(invs: &Vec<Invoke>, out: &mut Vec<u32>)
    ensures
        final(out)@ == old(out)@ + forward_of(invs@),
{
    let ghost start = out@;
    let mut k: usize = 0;
    assert(invs@.take(0) =~= Seq::<Invoke>::empty());
    assert(start + Seq::<u32>::empty() =~= start);
    while k < invs.len()
        invariant
            k <= invs@.len(),
            out@ == start + forward_of(invs@.take(k as int)),
        decreases invs@.len() - k,
    {
        assert(invs@.take(k + 1).drop_last() =~= invs@.take(k as int));
        if invs[k].autoforward {
            out.push(invs[k].id);
            assert(start + forward_of(invs@.take(k as int)).push(invs@[k as int].id) =~= (start
                + forward_of(invs@.take(k as int))).push(invs@[k as int].id));
        }
        k = k + 1;
    }
    assert(invs@.take(invs@.len() as int) =~= invs@);
}

impl Fsm {
    /// The ids of the invokes of the states `ss` whose invoke id is `invokeid`, state by
    /// state.
    pub open spec fn finalize_in(&self, ss: Seq<u32>, invokeid: u32) -> Seq<u32>
        decreases ss.len(),
    {
        if ss.len() == 0 {
            Seq::empty()
        } else {
            self.finalize_in(ss.drop_last(), invokeid) + finalize_of(self.state(ss.last()).invoke@, invokeid)
        }
    }

    /// The ids of the invokes of the states `ss` that forward events, state by state.
    pub open spec fn forward_in(&self, ss: Seq<u32>) -> Seq<u32>
        decreases ss.len(),
    {
        if ss.len() == 0 {
            Seq::empty()
        } else {
            self.forward_in(ss.drop_last()) + forward_of(self.state(ss.last()).invoke@)
        }
    }

    /// The ids of the invokes of the states `ss`, state by state, each state's in document
    /// order.
    pub open spec fn start_in(&self, ss: Seq<u32>) -> Seq<u32>
        decreases ss.len(),
    {
        if ss.len() == 0 {
            Seq::empty()
        } else {
            self.start_in(ss.drop_last()) + invokes_in_order(self.state(ss.last()).invoke@)
        }
    }

    /// #W3C says:
    /// Here we invoke whatever needs to be invoked. The implementation of 'invoke' is
    /// platform-specific.
    /// #Actual implementation:
    /// The ids of the invokes to start, once a macrostep is complete: those of the states
    /// entered since (`statesToInvoke`), in entry order, each state's in document order. The
    /// set of states to invoke is cleared; starting the invokes is left to the caller.
    pub fn invokes_to_start(&self, global: &mut GlobalData) -> (r: Vec<u32>)
        requires
            self.wf(),
            self.all_valid(old(global).statesToInvoke@),
        ensures
            r@ == self.start_in(self.states_in_doc_order(old(global).statesToInvoke@)),
            final(global).statesToInvoke@.len() == 0,
            final(global).configuration@ == old(global).configuration@,
            final(global).historyValue@ == old(global).historyValue@,
            final(global).running == old(global).running,
    {
        let ghost inv = global.statesToInvoke@;
        let mut ids: Vec<u32> = Vec::new();
        let mut k: usize = 0;
        while k < global.statesToInvoke.size()
            invariant
                k <= inv.len(),
                inv == global.statesToInvoke@,
                ids@ == inv.take(k as int),
            decreases inv.len() - k,
        {
            ids.push(*global.statesToInvoke.get(k));
            assert(inv.take(k + 1) =~= inv.take(k as int).push(inv[k as int]));
            k = k + 1;
        }
        assert(inv.take(inv.len() as int) =~= inv);
        let sorted = self.sort_states_by_document_order(&ids);
        proof {
            self.lemma_doc_order_valid(ids@);
        }
        let mut r: Vec<u32> = Vec::new();
        let mut n: usize = 0;
        assert(sorted@.take(0) =~= Seq::<u32>::empty());
        while n < sorted.len()
            invariant
                self.wf(),
                self.all_valid(sorted@),
                n <= sorted@.len(),
                r@ == self.start_in(sorted@.take(n as int)),
            decreases sorted@.len() - n,
        {
            let sid = sorted[n];
            let state = self.get_state_by_id(sid);
            let mut pairs: Vec<(u32, u32)> = Vec::new();
            let mut j: usize = 0;
            while j < state.invoke.len()
                invariant
                    j <= state.invoke@.len(),
                    pairs@ == state.invoke@.take(j as int).map_values(|i: Invoke| (i.id, i.id)),
                decreases state.invoke@.len() - j,
            {
                let id = state.invoke[j].id;
                pairs.push((id, id));
                assert(state.invoke@.take(j + 1).map_values(|i: Invoke| (i.id, i.id)) =~= state.invoke@.take(
                    j as int,
                ).map_values(|i: Invoke| (i.id, i.id)).push((id, id)));
                j = j + 1;
            }
            assert(state.invoke@.take(state.invoke@.len() as int) =~= state.invoke@);
            let ordered = sort_pairs_by_key(&pairs);
            let ghost before = r@;
            let mut m: usize = 0;
            while m < ordered.len()
                invariant
                    m <= ordered@.len(),
                    r@ == before + seconds(ordered@.take(m as int)),
                decreases ordered@.len() - m,
            {
                r.push(ordered[m].1);
                assert(seconds(ordered@.take(m + 1)) =~= seconds(ordered@.take(m as int)).push(
                    ordered@[m as int].1,
                ));
                assert(before + seconds(ordered@.take(m + 1)) =~= (before + seconds(
                    ordered@.take(m as int),
                )).push(ordered@[m as int].1));
                m = m + 1;
            }
            assert(ordered@.take(ordered@.len() as int) =~= ordered@);
            assert(sorted@.take(n + 1).drop_last() =~= sorted@.take(n as int));
            n = n + 1;
        }
        assert(sorted@.take(sorted@.len() as int) =~= sorted@);
        global.statesToInvoke.clear();
        r
    }

    /// #W3C says:
    /// for state in configuration: for inv in state.invoke: if inv.invokeid ==
    /// externalEvent.invokeid: applyFinalize(inv, externalEvent); if inv.autoforward:
    /// send(inv.id, externalEvent)
    /// #Actual implementation:
    /// The ids of the invokes that an external event concerns, state by state in the
    /// order of the configuration: first those whose finalize content is applied (their
    /// invoke id is the event's), then those the event is forwarded to. Applying and
    /// forwarding are left to the caller.
    pub fn event_invokes(&self, global: &GlobalData, event: &Event) -> (r: (Vec<u32>, Vec<u32>))
        requires
            self.wf(),
            self.global_ok(global),
        ensures
            r.0@ == self.finalize_in(global.configuration@, event.invokeid),
            r.1@ == self.forward_in(global.configuration@),
    {
        let ghost conf = global.configuration@;
        let mut finalize: Vec<u32> = Vec::new();
        let mut forward: Vec<u32> = Vec::new();
        let mut k: usize = 0;
        assert(conf.take(0) =~= Seq::<u32>::empty());
        while k < global.configuration.size()
            invariant
                self.wf(),
                self.global_ok(global),
                conf == global.configuration@,
                k <= conf.len(),
                finalize@ == self.finalize_in(conf.take(k as int), event.invokeid),
                forward@ == self.forward_in(conf.take(k as int)),
            decreases conf.len() - k,
        {
            let sid = *global.configuration.get(k);
            assert(self.valid_state(conf[k as int]));
            let state = self.get_state_by_id(sid);
            push_finalize(&state.invoke, event.invokeid, &mut finalize);
            push_forward(&state.invoke, &mut forward);
            assert(conf.take(k + 1).drop_last() =~= conf.take(k as int));
            k = k + 1;
        }
        assert(conf.take(conf.len() as int) =~= conf);
        (finalize, forward)
    }
}

/// #W3C says:
/// ##Global variables
/// The following variables are global from the point of view of the algorithm.
/// Their values will be set in the procedure interpret().
#[allow(non_snake_case)]
pub struct GlobalData {
    pub configuration: OrderedSet<u32>,
    pub statesToInvoke: OrderedSet<u32>,
    pub historyValue: HashTable<u32, OrderedSet<u32>>,
    pub running: bool,
    pub binding: BindingType,
    pub version: String,
    pub statesNames: HashMap<String, u32>,
}

impl GlobalData {
    /// Empty global data: no configuration, no history, not running, early binding,
    /// version "1.0".
    pub fn new() -> (r: GlobalData)
        ensures
            r.configuration@.len() == 0,
            r.statesToInvoke@.len() == 0,
            r.historyValue@ == Map::<u32, Seq<u32>>::empty(),
            !r.running,
            r.binding == BindingType::Early,
            r.version@ == "1.0"@,
            r.statesNames@ == Map::<String, u32>::empty(),
    {
        GlobalData {
            configuration: OrderedSet::new(),
            version: String::from_str("1.0"),
            historyValue: HashTable::new(),
            running: false,
            statesToInvoke: OrderedSet::new(),
            binding: BindingType::Early,
            statesNames: HashMap::new(),
        }
    }
}

impl Fsm {
    // -----------------------------------------------------------------------
    // Laws of conflict resolution, candidate order and done events.
    // -----------------------------------------------------------------------

    /// A kept transition that conflicts with `t1` and whose source does not have the
    /// source of `t1` as a descendant preempts `t1`.
    proof fn lemma_scan_preempted(
        &self,
        hv: Map<u32, Seq<u32>>,
        conf: Seq<u32>,
        kept: Seq<u32>,
        t1: u32,
        removed: Seq<u32>,
        t2: u32,
    )
        requires
            kept.contains(t2),
            self.conflict(hv, conf, t1, t2),
            !self.is_descendant(self.transition(t1).source, self.transition(t2).source),
        ensures
            self.scan(hv, conf, kept, t1, removed).0,
        decreases kept.len(),
    {
        let k = choose|k: int| 0 <= k < kept.len() && kept[k] == t2;
        if k > 0 {
            let rest = kept.drop_first();
            assert(rest[k - 1] == t2);
            let k0 = kept[0];
            if self.conflict(hv, conf, t1, k0) {
                if self.is_descendant(self.transition(t1).source, self.transition(k0).source) {
                    self.lemma_scan_preempted(hv, conf, rest, t1, set_add(removed, k0), t2);
                }
            } else {
                self.lemma_scan_preempted(hv, conf, rest, t1, removed, t2);
            }
        }
    }

    /// One round of conflict resolution keeps only what it had and the transition it
    /// considers.
    proof fn lemma_preempt_step_subset(
        &self,
        hv: Map<u32, Seq<u32>>,
        conf: Seq<u32>,
        filtered: Seq<u32>,
        t1: u32,
        x: u32,
    )
        requires
            self.preempt_step(hv, conf, filtered, t1).contains(x),
        ensures
            filtered.contains(x) || x == t1,
    {
        let (p, removed) = self.scan(hv, conf, filtered, t1, Seq::empty());
        if !p {
            crate::collections::lemma_set_add_contains(remove_each(filtered, removed), t1);
            if x != t1 {
                Self::lemma_remove_each_subset(filtered, removed, x);
            }
        }
    }

    /// The transitions that conflict resolution keeps are among the enabled ones.
    proof fn lemma_without_conflicts_subset(
        &self,
        hv: Map<u32, Seq<u32>>,
        conf: Seq<u32>,
        enabled: Seq<u32>,
        x: u32,
    )
        requires
            self.without_conflicts(hv, conf, enabled).contains(x),
        ensures
            enabled.contains(x),
        decreases enabled.len(),
    {
        let f = self.without_conflicts(hv, conf, enabled.drop_last());
        self.lemma_preempt_step_subset(hv, conf, f, enabled.last(), x);
        if x != enabled.last() {
            self.lemma_without_conflicts_subset(hv, conf, enabled.drop_last(), x);
            let k = choose|k: int| 0 <= k < enabled.drop_last().len() && enabled.drop_last()[k] == x;
            assert(enabled[k] == x);
        } else {
            assert(enabled[enabled.len() - 1] == x);
        }
    }

    /// A transition that is out after its round stays out: the later rounds add only
    /// their own transitions.
    proof fn lemma_stays_out(
        &self,
        hv: Map<u32, Seq<u32>>,
        conf: Seq<u32>,
        enabled: Seq<u32>,
        i: int,
        k: int,
    )
        requires
            0 <= i < k <= enabled.len(),
            enabled.no_duplicates(),
            !self.without_conflicts(hv, conf, enabled.take(i + 1)).contains(enabled[i]),
        ensures
            !self.without_conflicts(hv, conf, enabled.take(k)).contains(enabled[i]),
        decreases k,
    {
        if k > i + 1 {
            self.lemma_stays_out(hv, conf, enabled, i, k - 1);
            let tk = enabled.take(k);
            assert(tk.drop_last() =~= enabled.take(k - 1));
            assert(tk.last() == enabled[k - 1]);
            if self.without_conflicts(hv, conf, tk).contains(enabled[i]) {
                self.lemma_preempt_step_subset(
                    hv,
                    conf,
                    self.without_conflicts(hv, conf, enabled.take(k - 1)),
                    enabled[k - 1],
                    enabled[i],
                );
            }
        }
    }

    /// #W3C says:
    /// When such a conflict occurs, then if the source state of one of the transitions is a
    /// descendant of the source state of the other, we select the transition in the
    /// descendant. Otherwise we prefer the transition that was selected by the earlier
    /// state in document order and discard the other transition.
    /// (A transition `enabled[i]` that conflicts with a transition `t2` kept from the ones
    /// before it, and whose source is not a descendant of the source of `t2`, is discarded:
    /// it is not in the result.)
    pub proof fn lemma_earlier_transition_wins_conflict(
        &self,
        hv: Map<u32, Seq<u32>>,
        conf: Seq<u32>,
        enabled: Seq<u32>,
        i: int,
        t2: u32,
    )
        requires
            0 <= i < enabled.len(),
            enabled.no_duplicates(),
            self.without_conflicts(hv, conf, enabled.take(i)).contains(t2),
            self.conflict(hv, conf, enabled[i], t2),
            !self.is_descendant(self.transition(enabled[i]).source, self.transition(t2).source),
        ensures
            !self.without_conflicts(hv, conf, enabled).contains(enabled[i]),
    {
        let t1 = enabled[i];
        let f = self.without_conflicts(hv, conf, enabled.take(i));
        self.lemma_scan_preempted(hv, conf, f, t1, Seq::empty(), t2);
        let ti = enabled.take(i + 1);
        assert(ti.drop_last() =~= enabled.take(i));
        assert(ti.last() == t1);
        assert(self.without_conflicts(hv, conf, ti) == f);
        if f.contains(t1) {
            self.lemma_without_conflicts_subset(hv, conf, enabled.take(i), t1);
            let k = choose|k: int| 0 <= k < enabled.take(i).len() && enabled.take(i)[k] == t1;
            assert(enabled[k] == enabled[i]);
        }
        self.lemma_stays_out(hv, conf, enabled, i, enabled.len() as int);
        assert(enabled.take(enabled.len() as int) =~= enabled);
    }

    /// Of two conflicting transitions, the earlier is kept and the later discarded unless
    /// the later one's source is a descendant of the earlier one's; then the later one is
    /// kept and the earlier discarded.
    pub proof fn lemma_two_conflicting_transitions(
        &self,
        hv: Map<u32, Seq<u32>>,
        conf: Seq<u32>,
        t2: u32,
        t1: u32,
    )
        requires
            t1 != t2,
            self.conflict(hv, conf, t1, t2),
        ensures
            !self.is_descendant(self.transition(t1).source, self.transition(t2).source)
                ==> self.without_conflicts(hv, conf, seq![t2, t1]) == seq![t2],
            self.is_descendant(self.transition(t1).source, self.transition(t2).source)
                ==> self.without_conflicts(hv, conf, seq![t2, t1]) == seq![t1],
    {
        let e = Seq::<u32>::empty();
        let one = seq![t2];
        assert(seq![t2].drop_last() =~= e);
        assert(self.without_conflicts(hv, conf, e) == e);
        assert(self.scan(hv, conf, e, t2, e) == (false, e));
        assert(remove_each(e, e) == e);
        assert(!e.contains(t2));
        assert(e.push(t2) =~= one);
        assert(self.without_conflicts(hv, conf, one) == one);
        let two = seq![t2, t1];
        assert(two.drop_last() =~= one);
        assert(two.last() == t1);
        assert(one.drop_first() =~= e);
        assert(one[0] == t2);
        if self.is_descendant(self.transition(t1).source, self.transition(t2).source) {
            let r = set_add(e, t2);
            assert(r =~= one);
            assert(self.scan(hv, conf, one, t1, e) == self.scan(hv, conf, e, t1, r));
            assert(self.scan(hv, conf, one, t1, e) == (false, one));
            assert(remove_each(one, one) == crate::collections::remove_all(remove_each(one, e), t2));
            assert(remove_each(one, one) =~= e) by {
                broadcast use vstd::seq_lib::group_filter_ensures;
                let rr = remove_each(one, one);
                if rr.len() > 0 {
                    assert(rr.contains(rr[0]));
                    lemma_remove_each_contains(one, one, rr[0]);
                }
            }
            assert(!e.contains(t1));
            assert(e.push(t1) =~= seq![t1]);
        }
    }

    /// The candidates of a list of states are those of its first part and then those of
    /// the rest: each state's transitions in the order of the states.
    pub proof fn lemma_candidates_concat(&self, a: Seq<u32>, b: Seq<u32>, name: Option<Seq<char>>)
        ensures
            self.candidates_of(a + b, name) == self.candidates_of(a, name) + self.candidates_of(b, name),
        decreases b.len(),
    {
        if b.len() == 0 {
            assert(a + b =~= a);
            assert(self.candidates_of(a, name) + Seq::<u32>::empty() =~= self.candidates_of(a, name));
        } else {
            assert((a + b).drop_last() =~= a + b.drop_last());
            assert((a + b).last() == b.last());
            self.lemma_candidates_concat(a, b.drop_last(), name);
            let ca = self.candidates_of(a, name);
            let cb = self.candidates_of(b.drop_last(), name);
            let sc = self.state_candidates(b.last(), name);
            assert((ca + cb) + sc =~= ca + (cb + sc));
        }
    }

    /// #W3C says:
    /// for s in atomicStates: loop: for state in [s].append(getProperAncestors(s, null)) ...
    /// (For each atomic state, the candidates are its own matching transitions first, then
    /// those of its proper ancestors, parent first.)
    pub proof fn lemma_own_transitions_first(&self, conf: Seq<u32>, name: Option<Seq<char>>, k: int)
        requires
            0 <= k < self.atomic_states(conf).len(),
        ensures
            ({
                let s = self.atomic_states(conf)[k];
                self.candidate_groups(conf, name)[k] == self.state_candidates(s, name) + self.candidates_of(
                    self.proper_ancestors(s, 0),
                    name,
                )
            }),
    {
        let s = self.atomic_states(conf)[k];
        self.lemma_candidates_concat(seq![s], self.proper_ancestors(s, 0), name);
        let one = seq![s];
        assert(one.drop_last() =~= Seq::<u32>::empty());
        assert(one.last() == s);
        assert(self.candidates_of(Seq::<u32>::empty(), name) == Seq::<u32>::empty());
        assert(self.candidates_of(one, name) == self.candidates_of(one.drop_last(), name) + self.state_candidates(s, name));
        assert(Seq::<u32>::empty() + self.state_candidates(s, name) =~= self.state_candidates(s, name));
        assert(self.candidate_groups(conf, name)[k] == self.candidates_of(one + self.proper_ancestors(s, 0), name));
    }

    /// #W3C says:
    /// Finally, if s is a final state, generate relevant Done events. If we have reached a
    /// top-level final state, set running to false.
    /// (Entering a final state `s`: where its parent is the \<scxml\> element, the machine
    /// stops and no event is raised; otherwise the done event of the parent is raised, and
    /// then, where the grandparent is a parallel state all of whose children are in a
    /// final state once `s` is entered, the done event of the grandparent.)
    pub proof fn lemma_final_state_done_events(&self, es: EnterState, s: u32)
        requires
            self.state(s).is_final,
        ensures
            ({
                let r = self.enter_one(es, s);
                let p = self.state(s).parent;
                let g = self.state(p).parent;
                let all_final = forall|j: int|
                    0 <= j < self.state(g).states@.len() ==> self.in_final(
                        r.configuration,
                        #[trigger] self.state(g).states@[j],
                        self.states@.len(),
                    );
                &&& r.configuration == set_add(es.configuration, s)
                &&& p == self.pseudo_root ==> !r.running && r.events == es.events
                &&& p != self.pseudo_root && self.is_parallel(g) && all_final ==> r.running == es.running
                    && r.events == es.events.push((p, self.state(s).donedata is Some)).push((g, false))
                &&& p != self.pseudo_root && !(self.is_parallel(g) && all_final) ==> r.running
                    == es.running && r.events == es.events.push((p, self.state(s).donedata is Some))
            }),
    {
    }
}

impl Fsm {
    /// Filtering keeps the order of document ids.
    proof fn lemma_filter_keeps_doc_order(&self, s: Seq<u32>, pred: spec_fn(u32) -> bool)
        requires
            forall|i: int, j: int|
                0 <= i < j < s.len() ==> self.transition(#[trigger] s[i]).doc_id <= self.transition(
                    #[trigger] s[j],
                ).doc_id,
        ensures
            forall|i: int, j: int|
                0 <= i < j < s.filter(pred).len() ==> self.transition(#[trigger] s.filter(pred)[i]).doc_id
                    <= self.transition(#[trigger] s.filter(pred)[j]).doc_id,
        decreases s.len(),
    {
        broadcast use vstd::seq_lib::group_filter_ensures;

        reveal(Seq::filter);
        if s.len() > 0 {
            let d = s.drop_last();
            assert forall|i: int, j: int|
                0 <= i < j < d.len() implies self.transition(#[trigger] d[i]).doc_id <= self.transition(
                #[trigger] d[j],
            ).doc_id by {
                assert(d[i] == s[i] && d[j] == s[j]);
            }
            self.lemma_filter_keeps_doc_order(d, pred);
            let sub = d.filter(pred);
            let f = s.filter(pred);
            if pred(s.last()) {
                assert(f == sub.push(s.last()));
                assert forall|i: int, j: int|
                    0 <= i < j < f.len() implies self.transition(#[trigger] f[i]).doc_id <= self.transition(
                    #[trigger] f[j],
                ).doc_id by {
                    if j == f.len() - 1 {
                        assert(sub[i] == f[i]);
                        assert(sub.contains(f[i]));
                        d.lemma_filter_contains_rev(pred, f[i]);
                        assert(d.contains(f[i]));
                        let k = choose|k: int| 0 <= k < d.len() && d[k] == f[i];
                        assert(s[k] == f[i]);
                        assert(s[s.len() - 1] == f[j]);
                    } else {
                        assert(f[i] == sub[i] && f[j] == sub[j]);
                    }
                }
            } else {
                assert(f == sub);
            }
        }
    }

    /// #W3C says:
    /// for t in sortInDocumentOrder(state.transition) if t.event and nameMatch(t.event, event.name)
    /// (The candidates of a state are exactly its transitions that the event selects, in
    /// document order.)
    pub proof fn lemma_state_candidates_in_document_order(&self, s: u32, name: Option<Seq<char>>)
        ensures
            forall|t: u32|
                #[trigger] self.state_candidates(s, name).contains(t) <==> (self.state(s).transitions@.contains(
                    t,
                ) && self.matches_event(t, name)),
            forall|i: int, j: int|
                0 <= i < j < self.state_candidates(s, name).len() ==> self.transition(
                    #[trigger] self.state_candidates(s, name)[i],
                ).doc_id <= self.transition(#[trigger] self.state_candidates(s, name)[j]).doc_id,
    {
        broadcast use vstd::seq_lib::group_filter_ensures;
        broadcast use vstd::multiset::group_multiset_axioms;
        broadcast use vstd::seq_lib::group_to_multiset_ensures;

        let ts = self.state(s).transitions@;
        let pairs = ts.map_values(|t: u32| (self.transition(t).doc_id, t));
        let sorted = sort_by_key(pairs);
        lemma_sort_by_key(pairs);
        let sec = seconds(sorted);
        let pred = |t: u32| self.matches_event(t, name);
        assert(self.state_candidates(s, name) == sec.filter(pred));
        assert forall|k: int| 0 <= k < sorted.len() implies #[trigger] sorted[k].0 == self.transition(
            sorted[k].1,
        ).doc_id && ts.contains(sorted[k].1) by {
            assert(sorted.to_multiset().count(sorted[k]) > 0);
            assert(pairs.contains(sorted[k]));
            let m = choose|m: int| 0 <= m < pairs.len() && pairs[m] == sorted[k];
            assert(ts[m] == sorted[k].1);
        }
        assert forall|t: u32| ts.contains(t) implies #[trigger] sec.contains(t) by {
            let m = choose|m: int| 0 <= m < ts.len() && ts[m] == t;
            assert(pairs[m] == (self.transition(t).doc_id, t));
            assert(pairs.to_multiset().count(pairs[m]) > 0);
            assert(sorted.contains(pairs[m]));
            let k = choose|k: int| 0 <= k < sorted.len() && sorted[k] == pairs[m];
            assert(sec[k] == t);
        }
        assert forall|t: u32| sec.contains(t) implies #[trigger] ts.contains(t) by {
            let k = choose|k: int| 0 <= k < sec.len() && sec[k] == t;
            assert(sorted[k].1 == t);
            assert(sorted[k].0 == self.transition(sorted[k].1).doc_id);
        }
        assert forall|i: int, j: int|
            0 <= i < j < sec.len() implies self.transition(#[trigger] sec[i]).doc_id <= self.transition(
            #[trigger] sec[j],
        ).doc_id by {
            assert(sorted[i].0 <= sorted[j].0);
            assert(sorted[i].0 == self.transition(sorted[i].1).doc_id);
            assert(sorted[j].0 == self.transition(sorted[j].1).doc_id);
        }
        self.lemma_filter_keeps_doc_order(sec, pred);
        assert forall|t: u32| #[trigger] sec.filter(pred).contains(t) implies (ts.contains(t) && self.matches_event(t, name)) by {
            sec.lemma_filter_contains_rev(pred, t);
            let k = choose|k: int| 0 <= k < sec.filter(pred).len() && sec.filter(pred)[k] == t;
            sec.lemma_filter_pred(pred, k);
        }
        assert forall|t: u32| ts.contains(t) && self.matches_event(t, name) implies #[trigger] sec.filter(pred).contains(t) by {
            assert(sec.contains(t));
            let k = choose|k: int| 0 <= k < sec.len() && sec[k] == t;
            sec.lemma_filter_contains(pred, k);
        }
    }
}

} // verus!
