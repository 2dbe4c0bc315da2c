//! The SCXML Event I/O Processor: I/O Processor implementation for type
//! "http://www.w3.org/TR/scxml/#SCXMLEventProcessor" (or short-cut "scxml").
//!
//! The processor decides where an event of a `<send>` goes; the session that runs it
//! performs that delivery.

use vstd::prelude::*;
use vstd::string::*;
use vstd::utf8::decode_utf8;
use crate::decimal::{i64_text, i64_to_string};
use crate::executable_content::{chars_num, is_digit_char, digit_val};
use crate::fsm::{Event, EventType, is_error_for, is_cancel_session_event};

verus! {

/// Where the target of a `<send>` points.
#[derive(PartialEq, Eq, Debug)]
pub enum SendTarget {
    /// No target: the external queue of the sending session.
    External,
    /// "#_internal": the internal queue of the sending session.
    Internal,
    /// "#_parent": the session that invoked the sending session.
    Parent,
    /// "#_scxml_<sessionid>": the session with that id.
    Session(u32),
    /// "#_<invokeid>": the session that the sending session created by `<invoke>`.
    Invoked(String),
    /// "#_scxml_" followed by text that is no session id.
    BadSession,
    /// Any other target.
    Malformed,
}

/// The text after an optional leading '+'.
pub open spec fn unsigned_digits(s: Seq<char>) -> Seq<char> {
    if s.len() > 0 && s[0] == '+' {
        s.drop_first()
    } else {
        s
    }
}

/// Every character is a decimal digit.
pub open spec fn all_digits(d: Seq<char>) -> bool {
    forall|i: int| 0 <= i < d.len() ==> is_digit_char(#[trigger] d[i])
}

/// The digits of a session id after an optional '+', as `u32` parses them.
pub open spec fn session_id_of(s: Seq<char>) -> Option<u32> {
    let d = unsigned_digits(s);
    if d.len() > 0 && all_digits(d) && chars_num(d) <= u32::MAX {
        Some(chars_num(d) as u32)
    } else {
        None
    }
}

/// The text `p` starts `t`.
pub open spec fn starts_with(t: Seq<char>, p: Seq<char>) -> bool {
    p.len() <= t.len() && t.take(p.len() as int) == p
}

/// "#_internal"
pub open spec fn internal_target() -> Seq<char> {
    seq!['#', '_', 'i', 'n', 't', 'e', 'r', 'n', 'a', 'l']
}

/// "#_parent"
pub open spec fn parent_target() -> Seq<char> {
    seq!['#', '_', 'p', 'a', 'r', 'e', 'n', 't']
}

/// "#_scxml_"
pub open spec fn session_prefix() -> Seq<char> {
    seq!['#', '_', 's', 'c', 'x', 'm', 'l', '_']
}

/// "#_"
pub open spec fn invoke_prefix() -> Seq<char> {
    seq!['#', '_']
}

/// The meaning of a target, by the rules of the SCXML Event I/O Processor.
pub open spec fn target_matches(t: Seq<char>, r: SendTarget) -> bool {
    if t.len() == 0 {
        r == SendTarget::External
    } else if t == internal_target() {
        r == SendTarget::Internal
    } else if t == parent_target() {
        r == SendTarget::Parent
    } else if starts_with(t, session_prefix()) {
        match session_id_of(t.skip(8)) {
            Some(id) => r == SendTarget::Session(id),
            None => r == SendTarget::BadSession,
        }
    } else if starts_with(t, invoke_prefix()) {
        r matches SendTarget::Invoked(id) && id@ == t.skip(2)
    } else {
        r == SendTarget::Malformed
    }
}

/// Parses a session id as `u32` does: an optional '+' and decimal digits that fit.
pub fn parse_session_id(s: &str) -> (r: Option<u32>)
    ensures
        r == session_id_of(s@),
{
    let n = s.unicode_len();
    let mut start: usize = 0;
    if n > 0 && s.get_char(0) == '+' {
        start = 1;
    }
    let ghost d = unsigned_digits(s@);
    assert(d =~= s@.skip(start as int));
    if start == n {
        return None;
    }
    let mut v: u64 = 0;
    let mut i: usize = start;
    while i < n
        invariant
            n == s@.len(),
            start <= i <= n,
            start < n,
            d == s@.skip(start as int),
            d == unsigned_digits(s@),
            forall|k: int| start <= k < i ==> is_digit_char(#[trigger] s@[k]),
            v == chars_num(s@.subrange(start as int, i as int)),
            v <= u32::MAX,
        decreases n - i,
    {
        let c = s.get_char(i);
        if !(c >= '0' && c <= '9') {
            proof {
                assert(d[i - start] == c);
                assert(!is_digit_char(d[i - start]));
            }
            return None;
        }
        let x = v * 10 + (c as u32 - '0' as u32) as u64;
        proof {
            let t = s@.subrange(start as int, i + 1);
            assert(t.drop_last() =~= s@.subrange(start as int, i as int));
            assert(t.last() == c);
            assert(x == chars_num(t));
        }
        if x > 0xFFFF_FFFFu64 {
            proof {
                assert(d.take(i + 1 - start) =~= s@.subrange(start as int, i + 1));
                if all_digits(d) {
                    lemma_chars_num_prefix_bound(d, (i + 1 - start) as nat);
                    assert(chars_num(d.take(i + 1 - start)) == x);
                    assert(chars_num(d) > u32::MAX);
                }
                assert(session_id_of(s@) is None);
            }
            return None;
        }
        v = x;
        i = i + 1;
    }
    proof {
        assert(s@.subrange(start as int, n as int) =~= d);
        assert forall|k: int| 0 <= k < d.len() implies is_digit_char(#[trigger] d[k]) by {
            assert(d[k] == s@[start + k]);
        }
    }
    Some(v as u32)
}

/// A number is at least each of its digit prefixes.
proof fn lemma_chars_num_prefix_bound(d: Seq<char>, k: nat)
    requires
        k <= d.len(),
        forall|i: int| 0 <= i < d.len() ==> is_digit_char(#[trigger] d[i]),
    ensures
        chars_num(d) >= chars_num(d.take(k as int)),
    decreases d.len(),
{
    if k < d.len() {
        assert(d.drop_last().take(k as int) =~= d.take(k as int));
        assert forall|i: int| 0 <= i < d.drop_last().len() implies is_digit_char(
            #[trigger] d.drop_last()[i],
        ) by {
            assert(d.drop_last()[i] == d[i]);
        }
        lemma_chars_num_prefix_bound(d.drop_last(), k);
        assert(chars_num(d) == chars_num(d.drop_last()) * 10 + digit_val(d.last()));
    } else {
        assert(d.take(k as int) =~= d);
    }
}

/// Whether the text `t` starts with `p`.
fn has_prefix(t: &str, p: &str) -> (r: bool)
    ensures
        r == starts_with(t@, p@),
{
    let n = p.unicode_len();
    if n > t.unicode_len() {
        return false;
    }
    let mut i: usize = 0;
    while i < n
        invariant
            n == p@.len(),
            n <= t@.len(),
            i <= n,
            forall|j: int| 0 <= j < i ==> t@[j] == p@[j],
        decreases n - i,
    {
        if t.get_char(i) != p.get_char(i) {
            assert(t@.take(n as int)[i as int] != p@[i as int]);
            return false;
        }
        i = i + 1;
    }
    assert(t@.take(n as int) =~= p@);
    true
}

/// Where the target of a `<send>` points: "" is the sending session, "#_internal" its
/// internal queue, "#_parent" its parent, "#_scxml_<id>" the session `id`, "#_<invokeid>" an
/// invoked session; anything else, and a session id that is no `u32`, is malformed.
pub fn send_target(target: &str) -> (r: SendTarget)
    ensures
        target_matches(target@, r),
{
    proof {
        reveal_strlit("#_internal");
        reveal_strlit("#_parent");
        reveal_strlit("#_scxml_");
        reveal_strlit("#_");
        assert("#_internal"@ =~= internal_target());
        assert("#_parent"@ =~= parent_target());
        assert("#_scxml_"@ =~= session_prefix());
        assert("#_"@ =~= invoke_prefix());
    }
    let n = target.unicode_len();
    if n == 0 {
        SendTarget::External
    } else if has_prefix(target, "#_internal") && n == 10 {
        assert(target@ =~= target@.take(10));
        SendTarget::Internal
    } else if has_prefix(target, "#_parent") && n == 8 {
        assert(target@ =~= target@.take(8));
        assert(target@ != internal_target());
        SendTarget::Parent
    } else if has_prefix(target, "#_scxml_") {
        assert(target@ != internal_target()) by {
            assert(target@[2] != internal_target()[2]);
        }
        assert(target@ != parent_target()) by {
            assert(target@[2] != parent_target()[2]);
        }
        let digits = target.substring_char(8, n);
        assert(digits@ =~= target@.skip(8));
        let id = parse_session_id(digits);
        match id {
            Some(v) => SendTarget::Session(v),
            None => SendTarget::BadSession,
        }
    } else if has_prefix(target, "#_") {
        proof {
            if target@ == internal_target() {
                assert(target@.take(10) =~= target@);
            }
            if target@ == parent_target() {
                assert(target@.take(8) =~= target@);
            }
        }
        let rest = target.substring_char(2, n);
        assert(rest@ =~= target@.skip(2));
        SendTarget::Invoked(String::from_str(rest))
    } else {
        proof {
            if target@ == internal_target() {
                assert(target@.take(2) =~= invoke_prefix());
            }
            if target@ == parent_target() {
                assert(target@.take(2) =~= invoke_prefix());
            }
            if starts_with(target@, session_prefix()) {
                assert(target@.take(2) =~= target@.take(8).take(2));
                assert(target@.take(2) =~= invoke_prefix());
            }
        }
        SendTarget::Malformed
    }
}

/// What the session does with an event that was sent.
#[derive(Debug)]
pub enum SendAction {
    /// Add the event to the external queue of the sending session.
    EnqueueExternal(Event),
    /// Add the event to the internal queue of the sending session.
    EnqueueInternal(Event),
    /// Send the event to the external queue of the session with that id.
    SendToSession(u32, Event),
}

/// Holds the ids of the sessions that are connected to an I/O Processor.
pub struct EventIOProcessorHandle {
    /// The sessions that are connected to this IO Processor.
    pub fsms: Vec<u32>,
}

impl EventIOProcessorHandle {
    /// A handle without sessions.
    pub fn new() -> (r: EventIOProcessorHandle)
        ensures
            r.fsms@.len() == 0,
    {
        EventIOProcessorHandle { fsms: Vec::new() }
    }

    /// Connects the session `id`; a session that is connected already stays connected once.
    pub fn add_fsm(&mut self, id: u32)
        ensures
            final(self).fsms@ == (if old(self).fsms@.contains(id) {
                old(self).fsms@
            } else {
                old(self).fsms@.push(id)
            }),
    {
        let mut i: usize = 0;
        while i < self.fsms.len()
            invariant
                i <= self.fsms@.len(),
                forall|j: int| 0 <= j < i ==> self.fsms@[j] != id,
            decreases self.fsms@.len() - i,
        {
            if self.fsms[i] == id {
                return;
            }
            i = i + 1;
        }
        self.fsms.push(id);
    }

    /// Shutting the processor down sends the cancel-session event once to each connected
    /// session: returns each session, in the order they were connected, with the event
    /// that goes to it. The connected sessions stay as they are.
    pub fn shutdown(&self) -> (r: Vec<(u32, Event)>)
        ensures
            r@.len() == self.fsms@.len(),
            forall|i: int|
                #![trigger r@[i]]
                0 <= i < r@.len() ==> r@[i].0 == self.fsms@[i] && is_cancel_session_event(r@[i].1),
    {
        let mut r: Vec<(u32, Event)> = Vec::new();
        let mut i: usize = 0;
        while i < self.fsms.len()
            invariant
                i <= self.fsms@.len(),
                r@.len() == i,
                forall|j: int|
                    #![trigger r@[j]]
                    0 <= j < i ==> r@[j].0 == self.fsms@[j] && is_cancel_session_event(r@[j].1),
            decreases self.fsms@.len() - i,
        {
            r.push((self.fsms[i], Event::cancel_session()));
            i = i + 1;
        }
        r
    }
}

/// The SCXML Event I/O Processor of a session.
pub struct ScxmlEventIOProcessor {
    pub location: String,
    pub handle: EventIOProcessorHandle,
}

/// The location of the processor for the session `id`: the location followed by the id.
pub open spec fn location_of(location: Seq<char>, id: u32) -> Seq<char> {
    location + decode_utf8(i64_text(id as i64))
}

/// "scxml"
pub open spec fn scxml_short_type() -> Seq<char> {
    seq!['s', 'c', 'x', 'm', 'l']
}

/// The event as this processor sends it from session `id`: origin type "scxml" and, where it
/// had none, the location of the processor as origin.
pub open spec fn stamped(e: Event, r: Event, location: Seq<char>, id: u32) -> bool {
    &&& r.name == e.name
    &&& r.sendid == e.sendid
    &&& r.invokeid == e.invokeid
    &&& r.data == e.data
    &&& r.origintype@ == scxml_short_type()
    &&& r.origin@ == (if e.origin@.len() == 0 {
        location_of(location, id)
    } else {
        e.origin@
    })
}

/// How the SCXML Event I/O Processor at `location` routes `event`, sent from session
/// `session_id` with parent `parent` and invoked sessions `children` to `target`: the
/// action `r`.
pub open spec fn routed(
    location: Seq<char>,
    session_id: u32,
    parent: Option<u32>,
    children: Seq<(String, u32)>,
    target: Seq<char>,
    event: Event,
    r: SendAction,
) -> bool {
            ({
                let loc = location;
                match r {
                    SendAction::EnqueueExternal(e) => target.len() == 0 && stamped(
                        event,
                        e,
                        loc,
                        session_id,
                    ) && e.etype == event.etype,
                    SendAction::EnqueueInternal(e) => if target == internal_target() {
                        stamped(event, e, loc, session_id) && e.etype == EventType::internal
                    } else {
                        forall|t: SendTarget| #[trigger]
                            target_matches(target, t) ==> (if t == SendTarget::Malformed {
                                is_error_for(event, e, execution_kind())
                            } else {
                                is_error_for(event, e, communication_kind()) && (t
                                    is BadSession || (t matches SendTarget::Invoked(id)
                                    && forall|k: int|
                                    0 <= k < children.len() ==> children[k].0@ != id@))
                            })
                    },
                    SendAction::SendToSession(to, e) => stamped(event, e, loc, session_id)
                        && e.etype == event.etype && (forall|t: SendTarget| #[trigger]
                        target_matches(target, t) ==> match t {
                            SendTarget::Parent => parent == Some(to),
                            SendTarget::Session(id) => to == id,
                            SendTarget::Invoked(id) => exists|k: int|
                                0 <= k < children.len() && children[k].0@ == id@
                                    && children[k].1 == to && forall|j: int|
                                    0 <= j < k ==> children[j].0@ != id@,
                            _ => false,
                        }),
                }
            })
}

impl ScxmlEventIOProcessor {
    /// The processor with location "#_scxml_" and no connected session: the location of a
    /// session is then the target "#_scxml_<sessionid>" that reaches it.
    pub fn new() -> (r: ScxmlEventIOProcessor)
        ensures
            r.location@ == session_prefix(),
            r.handle.fsms@.len() == 0,
    {
        proof {
            reveal_strlit("#_scxml_");
            assert("#_scxml_"@ =~= session_prefix());
        }
        ScxmlEventIOProcessor {
            location: String::from_str("#_scxml_"),
            handle: EventIOProcessorHandle::new(),
        }
    }

    /// Returns the location of this session and processor.
    pub fn get_location(&self, id: u32) -> (r: String)
        ensures
            r@ == location_of(self.location@, id),
    {
        let mut r = self.location.clone();
        let digits = i64_to_string(id as i64);
        r.append(digits.as_str());
        r
    }

    /// Decides where the event of a `<send>` from session `session_id` goes. The event gets
    /// the origin type "scxml" and, without an origin, the location of this processor. The
    /// target "" is the external queue of the session, "#_internal" its internal queue (as an
    /// internal event), "#_parent" the session `parent`, "#_scxml_<id>" the session `id`,
    /// "#_<invokeid>" the session that `children` names for that invoke id. An invoke id
    /// without a session puts "error.communication" on the internal queue, any other target
    /// "error.execution"; both carry the send id and invoke id of the event.
    #[verifier::loop_isolation(false)]
    pub fn send(
        &self,
        session_id: u32,
        parent: Option<u32>,
        children: &Vec<(String, u32)>,
        target: &str,
        event: Event,
    ) -> (r: SendAction)
        requires
            target@ == parent_target() ==> parent is Some,
        ensures
            routed(self.location@, session_id, parent, children@, target@, event, r),
    {
        let original = Event {
            name: String::new(),
            etype: event.etype,
            sendid: event.sendid,
            origin: String::new(),
            origintype: String::new(),
            invokeid: event.invokeid,
            data: None,
        };
        let mut event = event;
        event.origintype = String::from_str("scxml");
        proof {
            reveal_strlit("scxml");
            assert("scxml"@ =~= scxml_short_type());
        }
        if event.origin.unicode_len() == 0 {
            event.origin = self.get_location(session_id);
        }
        let t = send_target(target);
        proof {
            lemma_target_unique(target@, t);
        }
        match t {
            SendTarget::External => SendAction::EnqueueExternal(event),
            SendTarget::Internal => {
                event.etype = EventType::internal;
                SendAction::EnqueueInternal(event)
            },
            SendTarget::Parent => {
                assert(target@ == parent_target());
                match parent {
                    Some(p) => SendAction::SendToSession(p, event),
                    None => {
                        proof {
                            assert(false);
                        }
                        SendAction::EnqueueExternal(event)
                    },
                }
            },
            SendTarget::Session(id) => SendAction::SendToSession(id, event),
            SendTarget::Invoked(id) => {
                let mut k: usize = 0;
                while k < children.len()
                    invariant
                        k <= children@.len(),
                        forall|j: int| 0 <= j < k ==> children@[j].0@ != id@,
                    decreases children@.len() - k,
                {
                    if same_text(children[k].0.as_str(), id.as_str()) {
                        assert(children@[k as int].0@ == id@ && forall|j: int|
                            0 <= j < k ==> children@[j].0@ != id@);
                        return SendAction::SendToSession(children[k].1, event);
                    }
                    k = k + 1;
                }
                proof {
                    reveal_strlit("communication");
                    assert("communication"@ =~= communication_kind());
                }
                SendAction::EnqueueInternal(Event::error_for("communication", &original))
            },
            SendTarget::BadSession => {
                proof {
                    reveal_strlit("communication");
                    assert("communication"@ =~= communication_kind());
                }
                SendAction::EnqueueInternal(Event::error_for("communication", &original))
            },
            SendTarget::Malformed => {
                proof {
                    reveal_strlit("execution");
                    assert("execution"@ =~= execution_kind());
                }
                SendAction::EnqueueInternal(Event::error_for("execution", &original))
            },
        }
    }
}

/// Two meanings of one target are the same.
proof fn lemma_target_unique(t: Seq<char>, r: SendTarget)
    requires
        target_matches(t, r),
    ensures
        forall|u: SendTarget| #[trigger] target_matches(t, u) ==> (u == r || (u matches SendTarget::Invoked(a)
            && r matches SendTarget::Invoked(b) && a@ == b@)),
{
}

/// "communication"
pub open spec fn communication_kind() -> Seq<char> {
    seq!['c', 'o', 'm', 'm', 'u', 'n', 'i', 'c', 'a', 't', 'i', 'o', 'n']
}

/// "execution"
pub open spec fn execution_kind() -> Seq<char> {
    seq!['e', 'x', 'e', 'c', 'u', 't', 'i', 'o', 'n']
}

/// Whether two texts are equal.
fn same_text(a: &str, b: &str) -> (r: bool)
    ensures
        r == (a@ == b@),
{
    let n = a.unicode_len();
    if n != b.unicode_len() {
        return false;
    }
    let mut i: usize = 0;
    while i < n
        invariant
            n == a@.len(),
            n == b@.len(),
            i <= n,
            forall|j: int| 0 <= j < i ==> a@[j] == b@[j],
        decreases n - i,
    {
        if a.get_char(i) != b.get_char(i) {
            return false;
        }
        i = i + 1;
    }
    assert(a@ =~= b@);
    true
}

} // verus!
