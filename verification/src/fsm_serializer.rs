//! Writing and reading whole state machines in the binary protocol: the version, the
//! pseudo root, the states and the transitions, each made of the protocol's numbers,
//! strings and booleans. What a reader gives back of what a writer wrote is proved.

use vstd::prelude::*;
use vstd::utf8::*;
use crate::fsm::{DoneData, Fsm, HistoryType, Invoke, State, Transition, TransitionType};
use crate::protocol::{
    bool_bytes, lemma_boolean_roundtrip, lemma_string_roundtrip, lemma_uint_roundtrip,
    rv_read_boolean, rv_read_string, rv_read_uint, starts_with, string_bytes, string_writable,
    uint_bytes, DefaultProtocolReader, DefaultProtocolWriter, ReaderView,
    FSM_PROTOCOL_TYPE_PROTOCOL_VERSION,
};

verus! {

// ---------------------------------------------------------------------------
// The models of what is written.
// ---------------------------------------------------------------------------

/// An invoke as plain values.
pub struct InvokeModel {
    pub id: u32,
    pub doc_id: u32,
    pub name: Seq<char>,
    pub invokeid: u32,
    pub autoforward: bool,
}

/// A transition as plain values.
pub struct TransitionModel {
    pub id: u32,
    pub doc_id: u32,
    pub source: u32,
    pub target: Seq<u32>,
    pub events: Seq<Seq<char>>,
    pub transition_type: TransitionType,
    pub cond: Option<Seq<char>>,
    pub content: u32,
}

/// A state as plain values.
pub struct StateModel {
    pub id: u32,
    pub doc_id: u32,
    pub name: Seq<char>,
    pub history_type: HistoryType,
    pub is_final: bool,
    pub is_parallel: bool,
    pub has_donedata: bool,
    pub initial: u32,
    pub states: Seq<u32>,
    pub onentry: Seq<u32>,
    pub onexit: Seq<u32>,
    pub transitions: Seq<u32>,
    pub invoke: Seq<InvokeModel>,
    pub history: Seq<u32>,
    pub parent: u32,
}

/// A state machine as plain values.
pub struct FsmModel {
    pub pseudo_root: u32,
    pub states: Seq<StateModel>,
    pub transitions: Seq<TransitionModel>,
}

/// The model of an invoke.
pub open spec fn invoke_model(i: Invoke) -> InvokeModel {
    InvokeModel {
        id: i.id,
        doc_id: i.doc_id,
        name: i.name@,
        invokeid: i.invokeid,
        autoforward: i.autoforward,
    }
}

/// The model of a transition.
pub open spec fn transition_model(t: Transition) -> TransitionModel {
    TransitionModel {
        id: t.id,
        doc_id: t.doc_id,
        source: t.source,
        target: t.target@,
        events: t.events@.map_values(|e: String| e@),
        transition_type: t.transition_type,
        cond: match t.cond {
            Some(c) => Some(c@),
            None => None,
        },
        content: t.content,
    }
}

/// The model of a state.
pub open spec fn state_model(s: State) -> StateModel {
    StateModel {
        id: s.id,
        doc_id: s.doc_id,
        name: s.name@,
        history_type: s.history_type,
        is_final: s.is_final,
        is_parallel: s.is_parallel,
        has_donedata: s.donedata is Some,
        initial: s.initial,
        states: s.states@,
        onentry: s.onentry@,
        onexit: s.onexit@,
        transitions: s.transitions@,
        invoke: s.invoke@.map_values(|i: Invoke| invoke_model(i)),
        history: s.history@,
        parent: s.parent,
    }
}

/// The model of a state machine.
pub open spec fn fsm_model(f: Fsm) -> FsmModel {
    FsmModel {
        pseudo_root: f.pseudo_root,
        states: f.states@.map_values(|s: State| state_model(s)),
        transitions: f.transitions@.map_values(|t: Transition| transition_model(t)),
    }
}

// ---------------------------------------------------------------------------
// The bytes written.
// ---------------------------------------------------------------------------

/// The flag of a state with entry content.
pub open spec fn flag_on_entry() -> u64 {
    4
}

/// The flag of a state with exit content.
pub open spec fn flag_on_exit() -> u64 {
    8
}

/// The flag of a state with sub-states.
pub open spec fn flag_states() -> u64 {
    16
}

/// The flag of a final state.
pub open spec fn flag_is_final() -> u64 {
    32
}

/// The flag of a parallel state.
pub open spec fn flag_is_parallel() -> u64 {
    64
}

/// The flag of a state with done data.
pub open spec fn flag_done_data() -> u64 {
    128
}

/// The flag of a state with invokes.
pub open spec fn flag_invoke() -> u64 {
    256
}

/// The flag of a state with history states.
pub open spec fn flag_history() -> u64 {
    1024
}

/// The flag of a transition with a condition.
pub open spec fn flag_cond() -> u64 {
    4
}

/// The flag of a transition with executable content.
pub open spec fn flag_content() -> u64 {
    8
}

/// The number of a history type.
pub open spec fn history_code(h: HistoryType) -> u64 {
    match h {
        HistoryType::Unset => 0,
        HistoryType::Shallow => 1,
        HistoryType::Deep => 2,
    }
}

/// The history type of a number.
pub open spec fn history_of_code(c: u64) -> HistoryType {
    if c == 1 {
        HistoryType::Shallow
    } else if c == 2 {
        HistoryType::Deep
    } else {
        HistoryType::Unset
    }
}

/// The number of a transition type.
pub open spec fn type_code(t: TransitionType) -> u64 {
    match t {
        TransitionType::Internal => 0,
        TransitionType::External => 1,
    }
}

/// `bit` if `b`, else 0.
pub open spec fn bit_if(b: bool, bit: u64) -> u64 {
    if b {
        bit
    } else {
        0
    }
}

/// The flags of a state: its history type, and a bit for each part that follows.
#[verifier::opaque]
pub open spec fn state_flags(s: StateModel) -> u64 {
    history_code(s.history_type) | bit_if(s.onentry.len() > 0, flag_on_entry()) | bit_if(
        s.onexit.len() > 0,
        flag_on_exit(),
    ) | bit_if(s.states.len() > 0, flag_states()) | bit_if(s.is_final, flag_is_final())
        | bit_if(s.is_parallel, flag_is_parallel()) | bit_if(s.has_donedata, flag_done_data())
        | bit_if(s.invoke.len() > 0, flag_invoke()) | bit_if(s.history.len() > 0, flag_history())
}

/// The flags of a transition: its type, and a bit for each part that follows.
#[verifier::opaque]
pub open spec fn transition_flags(t: TransitionModel) -> u64 {
    type_code(t.transition_type) | bit_if(t.cond is Some, flag_cond()) | bit_if(
        t.content != 0,
        flag_content(),
    )
}

/// The bytes of the items of `s`, each written by `g`, in order.
pub open spec fn items_bytes<T>(s: Seq<T>, g: spec_fn(T) -> Seq<u8>) -> Seq<u8>
    decreases s.len(),
{
    if s.len() == 0 {
        Seq::empty()
    } else {
        g(s[0]) + items_bytes(s.drop_first(), g)
    }
}

/// The bytes of a list: its length, then its items.
pub open spec fn list_bytes<T>(s: Seq<T>, g: spec_fn(T) -> Seq<u8>) -> Seq<u8> {
    uint_bytes(s.len() as u64) + items_bytes(s, g)
}

/// The bytes of an id.
pub open spec fn id_bytes() -> spec_fn(u32) -> Seq<u8> {
    |v: u32| uint_bytes(v as u64)
}

/// The bytes of a text.
pub open spec fn text_bytes() -> spec_fn(Seq<char>) -> Seq<u8> {
    |s: Seq<char>| string_bytes(s)
}

/// The bytes of an invoke: id, document id, name, invoke id and whether it forwards.
pub open spec fn invoke_bytes() -> spec_fn(InvokeModel) -> Seq<u8> {
    |i: InvokeModel|
        uint_bytes(i.id as u64) + uint_bytes(i.doc_id as u64) + string_bytes(i.name) + uint_bytes(
            i.invokeid as u64,
        ) + bool_bytes(i.autoforward)
}

/// The bytes of a transition: id, document id, source, targets, events, flags, and the
/// condition and content where there are any.
pub open spec fn transition_bytes() -> spec_fn(TransitionModel) -> Seq<u8> {
    |t: TransitionModel|
        uint_bytes(t.id as u64) + uint_bytes(t.doc_id as u64) + uint_bytes(t.source as u64)
            + list_bytes(t.target, id_bytes()) + list_bytes(t.events, text_bytes()) + uint_bytes(
            transition_flags(t),
        ) + match t.cond {
            Some(c) => string_bytes(c),
            None => Seq::empty(),
        } + if t.content != 0 {
            uint_bytes(t.content as u64)
        } else {
            Seq::empty()
        }
}

/// `b` if `c`, else nothing.
pub open spec fn bytes_if(c: bool, b: Seq<u8>) -> Seq<u8> {
    if c {
        b
    } else {
        Seq::empty()
    }
}

/// The parts of a state after its flags: the initial transition and the sub-states, the
/// entry and exit contents where there are any; the transitions; the invokes and history
/// states where there are any; the parent.
pub open spec fn state_body_bytes(s: StateModel) -> Seq<u8> {
    bytes_if(s.states.len() > 0, uint_bytes(s.initial as u64) + list_bytes(s.states, id_bytes()))
        + bytes_if(s.onentry.len() > 0, list_bytes(s.onentry, id_bytes())) + bytes_if(
        s.onexit.len() > 0,
        list_bytes(s.onexit, id_bytes()),
    ) + list_bytes(s.transitions, id_bytes()) + bytes_if(
        s.invoke.len() > 0,
        list_bytes(s.invoke, invoke_bytes()),
    ) + bytes_if(s.history.len() > 0, list_bytes(s.history, id_bytes())) + uint_bytes(
        s.parent as u64,
    )
}

/// The bytes of a state: id, document id, name, flags, then the other parts.
pub open spec fn state_bytes() -> spec_fn(StateModel) -> Seq<u8> {
    |s: StateModel|
        uint_bytes(s.id as u64) + uint_bytes(s.doc_id as u64) + string_bytes(s.name) + uint_bytes(
            state_flags(s),
        ) + state_body_bytes(s)
}

/// The bytes of a state machine: the protocol version, the pseudo root, the states and
/// the transitions.
pub open spec fn fsm_bytes(m: FsmModel) -> Seq<u8> {
    string_bytes(FSM_PROTOCOL_TYPE_PROTOCOL_VERSION@) + uint_bytes(m.pseudo_root as u64) + list_bytes(
        m.states,
        state_bytes(),
    ) + list_bytes(m.transitions, transition_bytes())
}

// ---------------------------------------------------------------------------
// What can be read back.
// ---------------------------------------------------------------------------

/// A text that the protocol reads back: less than 4096 UTF-8 bytes.
pub open spec fn short_text(s: Seq<char>) -> bool {
    encode_utf8(s).len() < 4096
}

/// A length that the protocol reads back.
pub open spec fn short_len(n: nat) -> bool {
    n < 0x1000_0000_0000_0000
}

/// An invoke that reads back.
pub open spec fn invoke_writable(i: InvokeModel) -> bool {
    short_text(i.name)
}

/// A transition that reads back.
pub open spec fn transition_writable(t: TransitionModel) -> bool {
    &&& short_len(t.target.len())
    &&& short_len(t.events.len())
    &&& forall|k: int| 0 <= k < t.events.len() ==> short_text(#[trigger] t.events[k])
    &&& t.cond matches Some(c) ==> short_text(c)
}

/// A state that reads back: short texts and lists, and no initial transition without
/// sub-states.
pub open spec fn state_writable(s: StateModel) -> bool {
    &&& short_text(s.name)
    &&& s.states.len() == 0 ==> s.initial == 0
    &&& short_len(s.states.len())
    &&& short_len(s.onentry.len())
    &&& short_len(s.onexit.len())
    &&& short_len(s.transitions.len())
    &&& short_len(s.invoke.len())
    &&& short_len(s.history.len())
    &&& forall|k: int| 0 <= k < s.invoke.len() ==> invoke_writable(#[trigger] s.invoke[k])
}

/// A state machine that reads back.
pub open spec fn fsm_writable(m: FsmModel) -> bool {
    &&& short_len(m.states.len())
    &&& short_len(m.transitions.len())
    &&& forall|k: int| 0 <= k < m.states.len() ==> state_writable(#[trigger] m.states[k])
    &&& forall|k: int| 0 <= k < m.transitions.len() ==> transition_writable(
        #[trigger] m.transitions[k],
    )
}

// ---------------------------------------------------------------------------
// Reading.
// ---------------------------------------------------------------------------

/// Reading an id.
pub open spec fn rv_read_id(r: ReaderView) -> (u32, ReaderView) {
    (rv_read_uint(r).0 as u32, rv_read_uint(r).1)
}

/// Reading `n` items with `f`, in order; reading stops after an error.
pub open spec fn rv_items<T>(r: ReaderView, n: nat, f: spec_fn(ReaderView) -> (T, ReaderView)) -> (
    Seq<T>,
    ReaderView,
)
    decreases n,
{
    if n == 0 || !r.ok {
        (Seq::empty(), r)
    } else {
        let (x, r1) = f(r);
        let (rest, r2) = rv_items(r1, (n - 1) as nat, f);
        (seq![x] + rest, r2)
    }
}

/// Reading a list: its length, then its items.
pub open spec fn rv_list<T>(r: ReaderView, f: spec_fn(ReaderView) -> (T, ReaderView)) -> (
    Seq<T>,
    ReaderView,
) {
    let (n, r1) = rv_read_uint(r);
    rv_items(r1, n as nat, f)
}

/// The reader of an id.
pub open spec fn id_reader() -> spec_fn(ReaderView) -> (u32, ReaderView) {
    |r: ReaderView| rv_read_id(r)
}

/// The reader of a text.
pub open spec fn text_reader() -> spec_fn(ReaderView) -> (Seq<char>, ReaderView) {
    |r: ReaderView| rv_read_string(r)
}

/// Reading an invoke.
pub open spec fn rv_read_invoke(r: ReaderView) -> (InvokeModel, ReaderView) {
    let (id, r1) = rv_read_id(r);
    let (doc_id, r2) = rv_read_id(r1);
    let (name, r3) = rv_read_string(r2);
    let (invokeid, r4) = rv_read_id(r3);
    let (autoforward, r5) = rv_read_boolean(r4);
    (InvokeModel { id, doc_id, name, invokeid, autoforward }, r5)
}

/// The reader of an invoke.
pub open spec fn invoke_reader() -> spec_fn(ReaderView) -> (InvokeModel, ReaderView) {
    |r: ReaderView| rv_read_invoke(r)
}

/// The flag `bit` is set in `flags`.
pub open spec fn has_flag(flags: u64, bit: u64) -> bool {
    flags & bit != 0
}

/// The transition type of its flags.
pub open spec fn type_of_flags(flags: u64) -> TransitionType {
    if flags & 1 != 0 {
        TransitionType::External
    } else {
        TransitionType::Internal
    }
}

/// Reading a transition.
pub open spec fn rv_read_transition(r: ReaderView) -> (TransitionModel, ReaderView) {
    let (id, r1) = rv_read_id(r);
    let (doc_id, r2) = rv_read_id(r1);
    let (source, r3) = rv_read_id(r2);
    let (target, r4) = rv_list(r3, id_reader());
    let (events, r5) = rv_list(r4, text_reader());
    let (flags, r6) = rv_read_uint(r5);
    let (cond, r7) = if has_flag(flags, flag_cond()) {
        let (c, r) = rv_read_string(r6);
        (Some(c), r)
    } else {
        (None, r6)
    };
    let (content, r8) = if has_flag(flags, flag_content()) {
        rv_read_id(r7)
    } else {
        (0u32, r7)
    };
    (
        TransitionModel {
            id,
            doc_id,
            source,
            target,
            events,
            transition_type: type_of_flags(flags),
            cond,
            content,
        },
        r8,
    )
}

/// The reader of a transition.
pub open spec fn transition_reader() -> spec_fn(ReaderView) -> (TransitionModel, ReaderView) {
    |r: ReaderView| rv_read_transition(r)
}

/// Reading a list of ids where `present`, else nothing.
pub open spec fn rv_ids_if(r: ReaderView, present: bool) -> (Seq<u32>, ReaderView) {
    if present {
        rv_list(r, id_reader())
    } else {
        (Seq::empty(), r)
    }
}

/// The parts of a state after its flags.
pub struct StateParts {
    pub initial: u32,
    pub states: Seq<u32>,
    pub onentry: Seq<u32>,
    pub onexit: Seq<u32>,
    pub transitions: Seq<u32>,
    pub invoke: Seq<InvokeModel>,
    pub history: Seq<u32>,
    pub parent: u32,
}

/// Reading the parts of a state after its flags `flags`.
pub open spec fn rv_read_state_parts(r4: ReaderView, flags: u64) -> (StateParts, ReaderView) {
    let (initial, r5) = if has_flag(flags, flag_states()) {
        rv_read_id(r4)
    } else {
        (0u32, r4)
    };
    let (states, r6) = rv_ids_if(r5, has_flag(flags, flag_states()));
    let (onentry, r7) = rv_ids_if(r6, has_flag(flags, flag_on_entry()));
    let (onexit, r8) = rv_ids_if(r7, has_flag(flags, flag_on_exit()));
    let (transitions, r9) = rv_list(r8, id_reader());
    let (invoke, r10) = if has_flag(flags, flag_invoke()) {
        rv_list(r9, invoke_reader())
    } else {
        (Seq::empty(), r9)
    };
    let (history, r11) = rv_ids_if(r10, has_flag(flags, flag_history()));
    let (parent, r12) = rv_read_id(r11);
    (StateParts { initial, states, onentry, onexit, transitions, invoke, history, parent }, r12)
}

/// Reading a state.
pub open spec fn rv_read_state(r: ReaderView) -> (StateModel, ReaderView) {
    let (id, r1) = rv_read_id(r);
    let (doc_id, r2) = rv_read_id(r1);
    let (name, r3) = rv_read_string(r2);
    let (flags, r4) = rv_read_uint(r3);
    let (p, r12) = rv_read_state_parts(r4, flags);
    (
        StateModel {
            id,
            doc_id,
            name,
            history_type: history_of_code(flags & 3),
            is_final: has_flag(flags, flag_is_final()),
            is_parallel: has_flag(flags, flag_is_parallel()),
            has_donedata: has_flag(flags, flag_done_data()),
            initial: p.initial,
            states: p.states,
            onentry: p.onentry,
            onexit: p.onexit,
            transitions: p.transitions,
            invoke: p.invoke,
            history: p.history,
            parent: p.parent,
        },
        r12,
    )
}

/// The reader of a state.
pub open spec fn state_reader() -> spec_fn(ReaderView) -> (StateModel, ReaderView) {
    |r: ReaderView| rv_read_state(r)
}

/// Reading a state machine: the version must be this protocol's.
pub open spec fn rv_read_fsm(r: ReaderView) -> (FsmModel, ReaderView) {
    let (v, r0) = rv_read_string(r);
    let r1 = if v != FSM_PROTOCOL_TYPE_PROTOCOL_VERSION@ {
        crate::protocol::rv_error(r0)
    } else {
        r0
    };
    let (pseudo_root, r2) = rv_read_id(r1);
    let (states, r3) = rv_list(r2, state_reader());
    let (transitions, r4) = rv_list(r3, transition_reader());
    (FsmModel { pseudo_root, states, transitions }, r4)
}

// ---------------------------------------------------------------------------
// What a read gives back of a write.
// ---------------------------------------------------------------------------

/// Reading `res` from `r` gave `x` and went on over the bytes `b`, without error.
pub open spec fn reads_as<T>(r: ReaderView, res: (T, ReaderView), x: T, b: Seq<u8>) -> bool {
    &&& res.0 == x
    &&& res.1.ok
    &&& res.1.pos == r.pos + b.len()
    &&& res.1.bytes == r.bytes
}

/// The reader `f` reads back what `g` writes, for the items that pass `p`.
pub open spec fn reads_back<T>(
    f: spec_fn(ReaderView) -> (T, ReaderView),
    g: spec_fn(T) -> Seq<u8>,
    p: spec_fn(T) -> bool,
) -> bool {
    forall|r: ReaderView, x: T|
        #![trigger f(r), g(x)]
        r.ok && p(x) && starts_with(r, g(x)) ==> reads_as(r, f(r), x, g(x))
}

/// The bytes at `r` that start with `p + x` start with `p`.
proof fn lemma_prefix(r: ReaderView, p: Seq<u8>, x: Seq<u8>)
    requires
        starts_with(r, p + x),
    ensures
        starts_with(r, p),
{
    let w = r.bytes.subrange(r.pos as int, (r.pos + (p + x).len()) as int);
    assert(w == p + x);
    assert(r.bytes.subrange(r.pos as int, (r.pos + p.len()) as int) =~= w.subrange(0, p.len() as int));
    assert(w.subrange(0, p.len() as int) =~= p);
}

/// The bytes at `r` start with `p + x`; after `p`, they start with `x`.
proof fn lemma_after(r: ReaderView, p: Seq<u8>, x: Seq<u8>, rk: ReaderView)
    requires
        starts_with(r, p + x),
        rk.bytes == r.bytes,
        rk.pos == r.pos + p.len(),
    ensures
        starts_with(rk, x),
{
    let w = r.bytes.subrange(r.pos as int, (r.pos + (p + x).len()) as int);
    assert(w == p + x);
    assert(rk.bytes.subrange(rk.pos as int, (rk.pos + x.len()) as int) =~= w.subrange(
        p.len() as int,
        (p.len() + x.len()) as int,
    ));
    assert(w.subrange(p.len() as int, (p.len() + x.len()) as int) =~= x);
}

/// An id reads back.
proof fn lemma_id_roundtrip(r: ReaderView, v: u32)
    requires
        r.ok,
        starts_with(r, uint_bytes(v as u64)),
    ensures
        reads_as(r, rv_read_id(r), v, uint_bytes(v as u64)),
{
    lemma_uint_roundtrip(r, v as u64);
}

/// Ids read back.
proof fn lemma_id_reader()
    ensures
        reads_back(id_reader(), id_bytes(), |x: u32| true),
{
    assert forall|r: ReaderView, x: u32|
        #![trigger id_reader()(r), id_bytes()(x)]
        r.ok && (|x: u32| true)(x) && starts_with(r, id_bytes()(x)) implies reads_as(
        r,
        id_reader()(r),
        x,
        id_bytes()(x),
    ) by {
        lemma_id_roundtrip(r, x);
    }
}

/// Short texts read back.
proof fn lemma_text_reader()
    ensures
        reads_back(text_reader(), text_bytes(), |s: Seq<char>| short_text(s)),
{
    assert forall|r: ReaderView, x: Seq<char>|
        #![trigger text_reader()(r), text_bytes()(x)]
        r.ok && (|s: Seq<char>| short_text(s))(x) && starts_with(r, text_bytes()(x)) implies reads_as(
        r,
        text_reader()(r),
        x,
        text_bytes()(x),
    ) by {
        lemma_string_roundtrip(r, x);
    }
}

/// Items that each read back read back in order.
proof fn lemma_items_roundtrip<T>(
    r: ReaderView,
    s: Seq<T>,
    f: spec_fn(ReaderView) -> (T, ReaderView),
    g: spec_fn(T) -> Seq<u8>,
    p: spec_fn(T) -> bool,
)
    requires
        reads_back(f, g, p),
        forall|k: int| 0 <= k < s.len() ==> p(#[trigger] s[k]),
        r.ok,
        starts_with(r, items_bytes(s, g)),
    ensures
        reads_as(r, rv_items(r, s.len(), f), s, items_bytes(s, g)),
    decreases s.len(),
{
    if s.len() == 0 {
        assert(rv_items(r, 0, f).0 =~= s);
    } else {
        let rest = s.drop_first();
        lemma_prefix(r, g(s[0]), items_bytes(rest, g));
        assert(p(s[0]));
        assert(reads_as(r, f(r), s[0], g(s[0])));
        let r1 = f(r).1;
        lemma_after(r, g(s[0]), items_bytes(rest, g), r1);
        assert forall|k: int| 0 <= k < rest.len() implies p(#[trigger] rest[k]) by {
            assert(rest[k] == s[k + 1]);
        }
        lemma_items_roundtrip(r1, rest, f, g, p);
        assert(rest.len() == (s.len() - 1) as nat);
        assert(seq![s[0]] + rest =~= s);
    }
}

/// A list of items that each read back reads back.
proof fn lemma_list_roundtrip<T>(
    r: ReaderView,
    s: Seq<T>,
    f: spec_fn(ReaderView) -> (T, ReaderView),
    g: spec_fn(T) -> Seq<u8>,
    p: spec_fn(T) -> bool,
)
    requires
        reads_back(f, g, p),
        forall|k: int| 0 <= k < s.len() ==> p(#[trigger] s[k]),
        short_len(s.len()),
        r.ok,
        starts_with(r, list_bytes(s, g)),
    ensures
        reads_as(r, rv_list(r, f), s, list_bytes(s, g)),
{
    let n = uint_bytes(s.len() as u64);
    lemma_prefix(r, n, items_bytes(s, g));
    lemma_uint_roundtrip(r, s.len() as u64);
    let r1 = rv_read_uint(r).1;
    lemma_after(r, n, items_bytes(s, g), r1);
    lemma_items_roundtrip(r1, s, f, g, p);
}

/// An id list reads back.
proof fn lemma_ids_roundtrip(r: ReaderView, s: Seq<u32>)
    requires
        short_len(s.len()),
        r.ok,
        starts_with(r, list_bytes(s, id_bytes())),
    ensures
        reads_as(r, rv_list(r, id_reader()), s, list_bytes(s, id_bytes())),
{
    lemma_id_reader();
    lemma_list_roundtrip(r, s, id_reader(), id_bytes(), |x: u32| true);
}

/// The bits of the flags of a transition.
proof fn lemma_transition_flag_bits(c: u64, a: bool, b: bool)
    requires
        c <= 1,
    ensures
        ((c | (if a { 4u64 } else { 0u64 }) | (if b { 8u64 } else { 0u64 })) & 4u64 != 0) == a,
        ((c | (if a { 4u64 } else { 0u64 }) | (if b { 8u64 } else { 0u64 })) & 8u64 != 0) == b,
        ((c | (if a { 4u64 } else { 0u64 }) | (if b { 8u64 } else { 0u64 })) & 1u64 != 0) == (c
            == 1),
        (c | (if a { 4u64 } else { 0u64 }) | (if b { 8u64 } else { 0u64 })) < 16,
{
    assert(c <= 1 ==> ((c | (if a { 4u64 } else { 0u64 }) | (if b { 8u64 } else { 0u64 }))
        & 4u64 != 0) == a) by (bit_vector);
    assert(c <= 1 ==> ((c | (if a { 4u64 } else { 0u64 }) | (if b { 8u64 } else { 0u64 }))
        & 8u64 != 0) == b) by (bit_vector);
    assert(c <= 1 ==> ((c | (if a { 4u64 } else { 0u64 }) | (if b { 8u64 } else { 0u64 }))
        & 1u64 != 0) == (c == 1)) by (bit_vector);
    assert(c <= 1 ==> (c | (if a { 4u64 } else { 0u64 }) | (if b { 8u64 } else { 0u64 })) < 16)
        by (bit_vector);
}

/// A transition reads back.
proof fn lemma_transition_roundtrip(r: ReaderView, t: TransitionModel)
    requires
        transition_writable(t),
        r.ok,
        starts_with(r, transition_bytes()(t)),
    ensures
        reads_as(r, rv_read_transition(r), t, transition_bytes()(t)),
{
    let flags = transition_flags(t);
    lemma_transition_flags(t);
    let a1 = uint_bytes(t.id as u64);
    let a2 = uint_bytes(t.doc_id as u64);
    let a3 = uint_bytes(t.source as u64);
    let a4 = list_bytes(t.target, id_bytes());
    let a5 = list_bytes(t.events, text_bytes());
    let a6 = uint_bytes(flags);
    let a7 = match t.cond {
        Some(c) => string_bytes(c),
        None => Seq::empty(),
    };
    let a8 = if t.content != 0 {
        uint_bytes(t.content as u64)
    } else {
        Seq::empty()
    };
    let p1 = a1;
    let p2 = p1 + a2;
    let p3 = p2 + a3;
    let p4 = p3 + a4;
    let p5 = p4 + a5;
    let p6 = p5 + a6;
    let p7 = p6 + a7;
    let p8 = p7 + a8;
    assert(transition_bytes()(t) == p8);
    lemma_prefix(r, p7, a8);
    lemma_prefix(r, p6, a7);
    lemma_prefix(r, p5, a6);
    lemma_prefix(r, p4, a5);
    lemma_prefix(r, p3, a4);
    lemma_prefix(r, p2, a3);
    lemma_prefix(r, p1, a2);
    lemma_id_roundtrip(r, t.id);
    let r1 = rv_read_id(r).1;
    lemma_after(r, p1, a2, r1);
    lemma_id_roundtrip(r1, t.doc_id);
    let r2 = rv_read_id(r1).1;
    lemma_after(r, p2, a3, r2);
    lemma_id_roundtrip(r2, t.source);
    let r3 = rv_read_id(r2).1;
    lemma_after(r, p3, a4, r3);
    lemma_ids_roundtrip(r3, t.target);
    let r4 = rv_list(r3, id_reader()).1;
    lemma_after(r, p4, a5, r4);
    lemma_text_reader();
    lemma_list_roundtrip(r4, t.events, text_reader(), text_bytes(), |s: Seq<char>| short_text(s));
    let r5 = rv_list(r4, text_reader()).1;
    lemma_after(r, p5, a6, r5);
    lemma_uint_roundtrip(r5, flags);
    let r6 = rv_read_uint(r5).1;
    lemma_after(r, p6, a7, r6);
    let r7 = match t.cond {
        Some(c) => {
            lemma_string_roundtrip(r6, c);
            rv_read_string(r6).1
        },
        None => r6,
    };
    lemma_after(r, p7, a8, r7);
    if t.content != 0 {
        lemma_id_roundtrip(r7, t.content);
    }
}

/// Transitions read back.
proof fn lemma_transition_reader()
    ensures
        reads_back(transition_reader(), transition_bytes(), |t: TransitionModel| transition_writable(t)),
{
    assert forall|r: ReaderView, x: TransitionModel|
        #![trigger transition_reader()(r), transition_bytes()(x)]
        r.ok && (|t: TransitionModel| transition_writable(t))(x) && starts_with(
            r,
            transition_bytes()(x),
        ) implies reads_as(r, transition_reader()(r), x, transition_bytes()(x)) by {
        lemma_transition_roundtrip(r, x);
    }
}

/// The bits of the flags of a state.
proof fn lemma_state_flag_bits(h: u64, a: bool, b: bool, c: bool, d: bool, e: bool, g: bool, i: bool, j: bool)
    requires
        h <= 2,
    ensures
        ((h | (if a { 4u64 } else { 0u64 }) | (if b { 8u64 } else { 0u64 }) | (if c { 16u64 } else { 0u64 }) | (if d { 32u64 } else { 0u64 }) | (if e { 64u64 } else { 0u64 }) | (if g { 128u64 } else { 0u64 }) | (if i { 256u64 } else { 0u64 }) | (if j { 1024u64 } else { 0u64 })) & 4u64 != 0) == a,
        ((h | (if a { 4u64 } else { 0u64 }) | (if b { 8u64 } else { 0u64 }) | (if c { 16u64 } else { 0u64 }) | (if d { 32u64 } else { 0u64 }) | (if e { 64u64 } else { 0u64 }) | (if g { 128u64 } else { 0u64 }) | (if i { 256u64 } else { 0u64 }) | (if j { 1024u64 } else { 0u64 })) & 8u64 != 0) == b,
        ((h | (if a { 4u64 } else { 0u64 }) | (if b { 8u64 } else { 0u64 }) | (if c { 16u64 } else { 0u64 }) | (if d { 32u64 } else { 0u64 }) | (if e { 64u64 } else { 0u64 }) | (if g { 128u64 } else { 0u64 }) | (if i { 256u64 } else { 0u64 }) | (if j { 1024u64 } else { 0u64 })) & 16u64 != 0) == c,
        ((h | (if a { 4u64 } else { 0u64 }) | (if b { 8u64 } else { 0u64 }) | (if c { 16u64 } else { 0u64 }) | (if d { 32u64 } else { 0u64 }) | (if e { 64u64 } else { 0u64 }) | (if g { 128u64 } else { 0u64 }) | (if i { 256u64 } else { 0u64 }) | (if j { 1024u64 } else { 0u64 })) & 32u64 != 0) == d,
        ((h | (if a { 4u64 } else { 0u64 }) | (if b { 8u64 } else { 0u64 }) | (if c { 16u64 } else { 0u64 }) | (if d { 32u64 } else { 0u64 }) | (if e { 64u64 } else { 0u64 }) | (if g { 128u64 } else { 0u64 }) | (if i { 256u64 } else { 0u64 }) | (if j { 1024u64 } else { 0u64 })) & 64u64 != 0) == e,
        ((h | (if a { 4u64 } else { 0u64 }) | (if b { 8u64 } else { 0u64 }) | (if c { 16u64 } else { 0u64 }) | (if d { 32u64 } else { 0u64 }) | (if e { 64u64 } else { 0u64 }) | (if g { 128u64 } else { 0u64 }) | (if i { 256u64 } else { 0u64 }) | (if j { 1024u64 } else { 0u64 })) & 128u64 != 0) == g,
        ((h | (if a { 4u64 } else { 0u64 }) | (if b { 8u64 } else { 0u64 }) | (if c { 16u64 } else { 0u64 }) | (if d { 32u64 } else { 0u64 }) | (if e { 64u64 } else { 0u64 }) | (if g { 128u64 } else { 0u64 }) | (if i { 256u64 } else { 0u64 }) | (if j { 1024u64 } else { 0u64 })) & 256u64 != 0) == i,
        ((h | (if a { 4u64 } else { 0u64 }) | (if b { 8u64 } else { 0u64 }) | (if c { 16u64 } else { 0u64 }) | (if d { 32u64 } else { 0u64 }) | (if e { 64u64 } else { 0u64 }) | (if g { 128u64 } else { 0u64 }) | (if i { 256u64 } else { 0u64 }) | (if j { 1024u64 } else { 0u64 })) & 1024u64 != 0) == j,
        ((h | (if a { 4u64 } else { 0u64 }) | (if b { 8u64 } else { 0u64 }) | (if c { 16u64 } else { 0u64 }) | (if d { 32u64 } else { 0u64 }) | (if e { 64u64 } else { 0u64 }) | (if g { 128u64 } else { 0u64 }) | (if i { 256u64 } else { 0u64 }) | (if j { 1024u64 } else { 0u64 })) & 3u64) == h,
        (h | (if a { 4u64 } else { 0u64 }) | (if b { 8u64 } else { 0u64 }) | (if c { 16u64 } else { 0u64 }) | (if d { 32u64 } else { 0u64 }) | (if e { 64u64 } else { 0u64 }) | (if g { 128u64 } else { 0u64 }) | (if i { 256u64 } else { 0u64 }) | (if j { 1024u64 } else { 0u64 })) < 2048,
{
    assert(h <= 2 ==> ((h | (if a { 4u64 } else { 0u64 }) | (if b { 8u64 } else { 0u64 }) | (if c { 16u64 } else { 0u64 }) | (if d { 32u64 } else { 0u64 }) | (if e { 64u64 } else { 0u64 }) | (if g { 128u64 } else { 0u64 }) | (if i { 256u64 } else { 0u64 }) | (if j { 1024u64 } else { 0u64 })) & 4u64 != 0) == a) by (bit_vector);
    assert(h <= 2 ==> ((h | (if a { 4u64 } else { 0u64 }) | (if b { 8u64 } else { 0u64 }) | (if c { 16u64 } else { 0u64 }) | (if d { 32u64 } else { 0u64 }) | (if e { 64u64 } else { 0u64 }) | (if g { 128u64 } else { 0u64 }) | (if i { 256u64 } else { 0u64 }) | (if j { 1024u64 } else { 0u64 })) & 8u64 != 0) == b) by (bit_vector);
    assert(h <= 2 ==> ((h | (if a { 4u64 } else { 0u64 }) | (if b { 8u64 } else { 0u64 }) | (if c { 16u64 } else { 0u64 }) | (if d { 32u64 } else { 0u64 }) | (if e { 64u64 } else { 0u64 }) | (if g { 128u64 } else { 0u64 }) | (if i { 256u64 } else { 0u64 }) | (if j { 1024u64 } else { 0u64 })) & 16u64 != 0) == c) by (bit_vector);
    assert(h <= 2 ==> ((h | (if a { 4u64 } else { 0u64 }) | (if b { 8u64 } else { 0u64 }) | (if c { 16u64 } else { 0u64 }) | (if d { 32u64 } else { 0u64 }) | (if e { 64u64 } else { 0u64 }) | (if g { 128u64 } else { 0u64 }) | (if i { 256u64 } else { 0u64 }) | (if j { 1024u64 } else { 0u64 })) & 32u64 != 0) == d) by (bit_vector);
    assert(h <= 2 ==> ((h | (if a { 4u64 } else { 0u64 }) | (if b { 8u64 } else { 0u64 }) | (if c { 16u64 } else { 0u64 }) | (if d { 32u64 } else { 0u64 }) | (if e { 64u64 } else { 0u64 }) | (if g { 128u64 } else { 0u64 }) | (if i { 256u64 } else { 0u64 }) | (if j { 1024u64 } else { 0u64 })) & 64u64 != 0) == e) by (bit_vector);
    assert(h <= 2 ==> ((h | (if a { 4u64 } else { 0u64 }) | (if b { 8u64 } else { 0u64 }) | (if c { 16u64 } else { 0u64 }) | (if d { 32u64 } else { 0u64 }) | (if e { 64u64 } else { 0u64 }) | (if g { 128u64 } else { 0u64 }) | (if i { 256u64 } else { 0u64 }) | (if j { 1024u64 } else { 0u64 })) & 128u64 != 0) == g) by (bit_vector);
    assert(h <= 2 ==> ((h | (if a { 4u64 } else { 0u64 }) | (if b { 8u64 } else { 0u64 }) | (if c { 16u64 } else { 0u64 }) | (if d { 32u64 } else { 0u64 }) | (if e { 64u64 } else { 0u64 }) | (if g { 128u64 } else { 0u64 }) | (if i { 256u64 } else { 0u64 }) | (if j { 1024u64 } else { 0u64 })) & 256u64 != 0) == i) by (bit_vector);
    assert(h <= 2 ==> ((h | (if a { 4u64 } else { 0u64 }) | (if b { 8u64 } else { 0u64 }) | (if c { 16u64 } else { 0u64 }) | (if d { 32u64 } else { 0u64 }) | (if e { 64u64 } else { 0u64 }) | (if g { 128u64 } else { 0u64 }) | (if i { 256u64 } else { 0u64 }) | (if j { 1024u64 } else { 0u64 })) & 1024u64 != 0) == j) by (bit_vector);
    assert(h <= 2 ==> ((h | (if a { 4u64 } else { 0u64 }) | (if b { 8u64 } else { 0u64 }) | (if c { 16u64 } else { 0u64 }) | (if d { 32u64 } else { 0u64 }) | (if e { 64u64 } else { 0u64 }) | (if g { 128u64 } else { 0u64 }) | (if i { 256u64 } else { 0u64 }) | (if j { 1024u64 } else { 0u64 })) & 3u64) == h) by (bit_vector);
    assert(h <= 2 ==> (h | (if a { 4u64 } else { 0u64 }) | (if b { 8u64 } else { 0u64 }) | (if c { 16u64 } else { 0u64 }) | (if d { 32u64 } else { 0u64 }) | (if e { 64u64 } else { 0u64 }) | (if g { 128u64 } else { 0u64 }) | (if i { 256u64 } else { 0u64 }) | (if j { 1024u64 } else { 0u64 })) < 2048) by (bit_vector);
}

/// What the flags of a state say.
proof fn lemma_state_flags(x: StateModel)
    ensures
        has_flag(state_flags(x), flag_on_entry()) == (x.onentry.len() > 0),
        has_flag(state_flags(x), flag_on_exit()) == (x.onexit.len() > 0),
        has_flag(state_flags(x), flag_states()) == (x.states.len() > 0),
        has_flag(state_flags(x), flag_is_final()) == x.is_final,
        has_flag(state_flags(x), flag_is_parallel()) == x.is_parallel,
        has_flag(state_flags(x), flag_done_data()) == x.has_donedata,
        has_flag(state_flags(x), flag_invoke()) == (x.invoke.len() > 0),
        has_flag(state_flags(x), flag_history()) == (x.history.len() > 0),
        history_of_code(state_flags(x) & 3) == x.history_type,
        state_flags(x) < 2048,
{
    reveal(state_flags);
    lemma_state_flag_bits(
        history_code(x.history_type),
        x.onentry.len() > 0,
        x.onexit.len() > 0,
        x.states.len() > 0,
        x.is_final,
        x.is_parallel,
        x.has_donedata,
        x.invoke.len() > 0,
        x.history.len() > 0,
    );
}

/// What the flags of a transition say.
proof fn lemma_transition_flags(t: TransitionModel)
    ensures
        has_flag(transition_flags(t), flag_cond()) == (t.cond is Some),
        has_flag(transition_flags(t), flag_content()) == (t.content != 0),
        type_of_flags(transition_flags(t)) == t.transition_type,
        transition_flags(t) < 16,
{
    reveal(transition_flags);
    lemma_transition_flag_bits(type_code(t.transition_type), t.cond is Some, t.content != 0);
}

/// An invoke reads back.
proof fn lemma_invoke_roundtrip(r: ReaderView, x: InvokeModel)
    requires
        invoke_writable(x),
        r.ok,
        starts_with(r, invoke_bytes()(x)),
    ensures
        reads_as(r, rv_read_invoke(r), x, invoke_bytes()(x)),
{
    let a1 = uint_bytes(x.id as u64);
    let a2 = uint_bytes(x.doc_id as u64);
    let a3 = string_bytes(x.name);
    let a4 = uint_bytes(x.invokeid as u64);
    let a5 = bool_bytes(x.autoforward);
    let p1 = a1;
    let p2 = p1 + a2;
    let p3 = p2 + a3;
    let p4 = p3 + a4;
    let p5 = p4 + a5;
    assert(invoke_bytes()(x) == p5);
    lemma_prefix(r, p4, a5);
    lemma_prefix(r, p3, a4);
    lemma_prefix(r, p2, a3);
    lemma_prefix(r, p1, a2);
    lemma_id_roundtrip(r, x.id);
    let r1 = rv_read_id(r).1;
    lemma_after(r, p1, a2, r1);
    lemma_id_roundtrip(r1, x.doc_id);
    let r2 = rv_read_id(r1).1;
    lemma_after(r, p2, a3, r2);
    lemma_string_roundtrip(r2, x.name);
    let r3 = rv_read_string(r2).1;
    lemma_after(r, p3, a4, r3);
    lemma_id_roundtrip(r3, x.invokeid);
    let r4 = rv_read_id(r3).1;
    lemma_after(r, p4, a5, r4);
    lemma_boolean_roundtrip(r4, x.autoforward);
}

/// Invokes read back.
proof fn lemma_invoke_reader()
    ensures
        reads_back(invoke_reader(), invoke_bytes(), |x: InvokeModel| invoke_writable(x)),
{
    assert forall|r: ReaderView, x: InvokeModel|
        #![trigger invoke_reader()(r), invoke_bytes()(x)]
        r.ok && (|x: InvokeModel| invoke_writable(x))(x) && starts_with(r, invoke_bytes()(x)) implies reads_as(
        r,
        invoke_reader()(r),
        x,
        invoke_bytes()(x),
    ) by {
        lemma_invoke_roundtrip(r, x);
    }
}

/// An optional id list reads back.
proof fn lemma_ids_if_roundtrip(r: ReaderView, s: Seq<u32>)
    requires
        short_len(s.len()),
        r.ok,
        starts_with(r, bytes_if(s.len() > 0, list_bytes(s, id_bytes()))),
    ensures
        reads_as(r, rv_ids_if(r, s.len() > 0), s, bytes_if(s.len() > 0, list_bytes(s, id_bytes()))),
{
    if s.len() > 0 {
        lemma_ids_roundtrip(r, s);
    } else {
        assert(s =~= Seq::<u32>::empty());
    }
}

/// The parts of a state after its flags read back.
#[verifier::rlimit(50)]
proof fn lemma_state_parts_roundtrip(r4: ReaderView, x: StateModel, flags: u64)
    requires
        state_writable(x),
        r4.ok,
        starts_with(r4, state_body_bytes(x)),
        has_flag(flags, flag_states()) == (x.states.len() > 0),
        has_flag(flags, flag_on_entry()) == (x.onentry.len() > 0),
        has_flag(flags, flag_on_exit()) == (x.onexit.len() > 0),
        has_flag(flags, flag_invoke()) == (x.invoke.len() > 0),
        has_flag(flags, flag_history()) == (x.history.len() > 0),
    ensures
        reads_as(
            r4,
            rv_read_state_parts(r4, flags),
            StateParts {
                initial: x.initial,
                states: x.states,
                onentry: x.onentry,
                onexit: x.onexit,
                transitions: x.transitions,
                invoke: x.invoke,
                history: x.history,
                parent: x.parent,
            },
            state_body_bytes(x),
        ),
{
    let r = r4;
    let a5 = bytes_if(x.states.len() > 0, uint_bytes(x.initial as u64) + list_bytes(x.states, id_bytes()));
    let a6 = bytes_if(x.onentry.len() > 0, list_bytes(x.onentry, id_bytes()));
    let a7 = bytes_if(x.onexit.len() > 0, list_bytes(x.onexit, id_bytes()));
    let a8 = list_bytes(x.transitions, id_bytes());
    let a9 = bytes_if(x.invoke.len() > 0, list_bytes(x.invoke, invoke_bytes()));
    let a10 = bytes_if(x.history.len() > 0, list_bytes(x.history, id_bytes()));
    let a11 = uint_bytes(x.parent as u64);
    let p5 = a5;
    let p6 = p5 + a6;
    let p7 = p6 + a7;
    let p8 = p7 + a8;
    let p9 = p8 + a9;
    let p10 = p9 + a10;
    let p11 = p10 + a11;
    assert(state_body_bytes(x) == p11);
    lemma_prefix(r, p10, a11);
    lemma_prefix(r, p9, a10);
    lemma_prefix(r, p8, a9);
    lemma_prefix(r, p7, a8);
    lemma_prefix(r, p6, a7);
    lemma_prefix(r, p5, a6);
    let r6 = if x.states.len() > 0 {
        let b1 = uint_bytes(x.initial as u64);
        let b2 = list_bytes(x.states, id_bytes());
        lemma_prefix(r, b1, b2);
        lemma_id_roundtrip(r, x.initial);
        let r5 = rv_read_id(r).1;
        lemma_after(r, b1, b2, r5);
        lemma_ids_roundtrip(r5, x.states);
        rv_list(r5, id_reader()).1
    } else {
        assert(x.states =~= Seq::<u32>::empty());
        r
    };
    lemma_after(r, p5, a6, r6);
    lemma_ids_if_roundtrip(r6, x.onentry);
    let r7 = rv_ids_if(r6, x.onentry.len() > 0).1;
    lemma_after(r, p6, a7, r7);
    lemma_ids_if_roundtrip(r7, x.onexit);
    let r8 = rv_ids_if(r7, x.onexit.len() > 0).1;
    lemma_after(r, p7, a8, r8);
    lemma_ids_roundtrip(r8, x.transitions);
    let r9 = rv_list(r8, id_reader()).1;
    lemma_after(r, p8, a9, r9);
    let r10 = if x.invoke.len() > 0 {
        lemma_invoke_reader();
        assert forall|k: int| 0 <= k < x.invoke.len() implies (|y: InvokeModel| invoke_writable(y))(
            #[trigger] x.invoke[k],
        ) by {
            assert(invoke_writable(x.invoke[k]));
        }
        lemma_list_roundtrip(r9, x.invoke, invoke_reader(), invoke_bytes(), |y: InvokeModel| invoke_writable(y));
        rv_list(r9, invoke_reader()).1
    } else {
        assert(x.invoke =~= Seq::<InvokeModel>::empty());
        r9
    };
    lemma_after(r, p9, a10, r10);
    lemma_ids_if_roundtrip(r10, x.history);
    let r11 = rv_ids_if(r10, x.history.len() > 0).1;
    lemma_after(r, p10, a11, r11);
    lemma_id_roundtrip(r11, x.parent);
}

/// A state reads back.
#[verifier::spinoff_prover]
#[verifier::rlimit(60)]
proof fn lemma_state_roundtrip(r: ReaderView, x: StateModel)
    requires
        state_writable(x),
        r.ok,
        starts_with(r, state_bytes()(x)),
    ensures
        reads_as(r, rv_read_state(r), x, state_bytes()(x)),
{
    let flags = state_flags(x);
    lemma_state_flags(x);
    let a1 = uint_bytes(x.id as u64);
    let a2 = uint_bytes(x.doc_id as u64);
    let a3 = string_bytes(x.name);
    let a4 = uint_bytes(flags);
    let a5 = state_body_bytes(x);
    let p1 = a1;
    let p2 = p1 + a2;
    let p3 = p2 + a3;
    let p4 = p3 + a4;
    let p5 = p4 + a5;
    assert(state_bytes()(x) == p5);
    lemma_prefix(r, p4, a5);
    lemma_prefix(r, p3, a4);
    lemma_prefix(r, p2, a3);
    lemma_prefix(r, p1, a2);
    lemma_id_roundtrip(r, x.id);
    let r1 = rv_read_id(r).1;
    lemma_after(r, p1, a2, r1);
    lemma_id_roundtrip(r1, x.doc_id);
    let r2 = rv_read_id(r1).1;
    lemma_after(r, p2, a3, r2);
    lemma_string_roundtrip(r2, x.name);
    let r3 = rv_read_string(r2).1;
    lemma_after(r, p3, a4, r3);
    lemma_uint_roundtrip(r3, flags);
    let r4 = rv_read_uint(r3).1;
    lemma_after(r, p4, a5, r4);
    lemma_state_parts_roundtrip(r4, x, flags);
}

/// States read back.
proof fn lemma_state_reader()
    ensures
        reads_back(state_reader(), state_bytes(), |x: StateModel| state_writable(x)),
{
    assert forall|r: ReaderView, x: StateModel|
        #![trigger state_reader()(r), state_bytes()(x)]
        r.ok && (|x: StateModel| state_writable(x))(x) && starts_with(r, state_bytes()(x)) implies reads_as(
        r,
        state_reader()(r),
        x,
        state_bytes()(x),
    ) by {
        lemma_state_roundtrip(r, x);
    }
}

/// What `write_fsm` wrote, `read_fsm` reads back: a state machine whose texts have less
/// than 4096 bytes (and whose states without sub-states have no initial transition) is
/// read back as it was, and the reader ends right after it without error.
pub proof fn lemma_fsm_roundtrip(r: ReaderView, m: FsmModel)
    requires
        fsm_writable(m),
        r.ok,
        starts_with(r, fsm_bytes(m)),
    ensures
        rv_read_fsm(r).0 == m,
        rv_read_fsm(r).1.ok,
        rv_read_fsm(r).1.pos == r.pos + fsm_bytes(m).len(),
        rv_read_fsm(r).1.bytes == r.bytes,
{
    let a1 = string_bytes(FSM_PROTOCOL_TYPE_PROTOCOL_VERSION@);
    let a2 = uint_bytes(m.pseudo_root as u64);
    let a3 = list_bytes(m.states, state_bytes());
    let a4 = list_bytes(m.transitions, transition_bytes());
    let p1 = a1;
    let p2 = p1 + a2;
    let p3 = p2 + a3;
    let p4 = p3 + a4;
    assert(fsm_bytes(m) == p4);
    lemma_prefix(r, p3, a4);
    lemma_prefix(r, p2, a3);
    lemma_prefix(r, p1, a2);
    reveal_strlit("RUFSM1");
    assert(is_ascii_chars(FSM_PROTOCOL_TYPE_PROTOCOL_VERSION@));
    is_ascii_chars_encode_utf8(FSM_PROTOCOL_TYPE_PROTOCOL_VERSION@);
    lemma_string_roundtrip(r, FSM_PROTOCOL_TYPE_PROTOCOL_VERSION@);
    let r1 = rv_read_string(r).1;
    lemma_after(r, p1, a2, r1);
    lemma_id_roundtrip(r1, m.pseudo_root);
    let r2 = rv_read_id(r1).1;
    lemma_after(r, p2, a3, r2);
    lemma_state_reader();
    lemma_list_roundtrip(r2, m.states, state_reader(), state_bytes(), |x: StateModel| state_writable(x));
    let r3 = rv_list(r2, state_reader()).1;
    lemma_after(r, p3, a4, r3);
    lemma_transition_reader();
    lemma_list_roundtrip(
        r3,
        m.transitions,
        transition_reader(),
        transition_bytes(),
        |t: TransitionModel| transition_writable(t),
    );
}

// ---------------------------------------------------------------------------
// The writer.
// ---------------------------------------------------------------------------

/// The items of `s` from `i` on are the item at `i` and those after it.
proof fn lemma_items_step<T>(s: Seq<T>, i: int, g: spec_fn(T) -> Seq<u8>)
    requires
        0 <= i < s.len(),
    ensures
        items_bytes(s.skip(i), g) == g(s[i]) + items_bytes(s.skip(i + 1), g),
{
    assert(s.skip(i)[0] == s[i]);
    assert(s.skip(i).drop_first() =~= s.skip(i + 1));
}

/// The texts of a state machine can be written: each is a string that the protocol writes.
pub open spec fn fsm_texts_writable(f: Fsm) -> bool {
    &&& forall|i: int| 0 <= i < f.states@.len() ==> state_texts_writable(#[trigger] f.states@[i])
    &&& forall|i: int|
        0 <= i < f.transitions@.len() ==> transition_texts_writable(#[trigger] f.transitions@[i])
}

/// The texts of a state can be written.
pub open spec fn state_texts_writable(s: State) -> bool {
    &&& string_writable(s.name@)
    &&& forall|k: int| 0 <= k < s.invoke@.len() ==> string_writable(#[trigger] s.invoke@[k].name@)
}

/// The texts of a transition can be written.
pub open spec fn transition_texts_writable(t: Transition) -> bool {
    &&& forall|k: int| 0 <= k < t.events@.len() ==> string_writable(#[trigger] t.events@[k]@)
    &&& t.cond matches Some(c) ==> string_writable(c@)
}

/// Writes a list of ids.
fn write_ids(w: &mut DefaultProtocolWriter, ids: &Vec<u32>)
    ensures
        final(w)@ == old(w)@ + list_bytes(ids@, id_bytes()),
{
    let ghost w0 = w@;
    w.write_usize(ids.len());
    let ghost start = w@;
    let ghost s = ids@;
    assert(s.skip(0) =~= s);
    let mut i: usize = 0;
    while i < ids.len()
        invariant
            s == ids@,
            i <= s.len(),
            w@ + items_bytes(s.skip(i as int), id_bytes()) == start + items_bytes(s, id_bytes()),
        decreases s.len() - i,
    {
        proof {
            lemma_items_step(s, i as int, id_bytes());
        }
        let ghost before = w@;
        w.write_uint(ids[i] as u64);
        assert(w@ + items_bytes(s.skip(i + 1), id_bytes()) =~= before + items_bytes(s.skip(i as int), id_bytes()));
        i = i + 1;
    }
    assert(s.skip(s.len() as int) =~= Seq::<u32>::empty());
    assert(w@ == start + items_bytes(s, id_bytes()));
    assert(w@ =~= w0 + list_bytes(ids@, id_bytes()));
}

/// Writes a list of texts.
fn write_texts(w: &mut DefaultProtocolWriter, texts: &Vec<String>)
    requires
        forall|k: int| 0 <= k < texts@.len() ==> string_writable(#[trigger] texts@[k]@),
    ensures
        final(w)@ == old(w)@ + list_bytes(texts@.map_values(|e: String| e@), text_bytes()),
{
    let ghost w0 = w@;
    let ghost s = texts@.map_values(|e: String| e@);
    w.write_usize(texts.len());
    let ghost start = w@;
    assert(s.skip(0) =~= s);
    let mut i: usize = 0;
    while i < texts.len()
        invariant
            s == texts@.map_values(|e: String| e@),
            forall|k: int| 0 <= k < texts@.len() ==> string_writable(#[trigger] texts@[k]@),
            i <= s.len(),
            w@ + items_bytes(s.skip(i as int), text_bytes()) == start + items_bytes(s, text_bytes()),
        decreases s.len() - i,
    {
        proof {
            lemma_items_step(s, i as int, text_bytes());
        }
        let ghost before = w@;
        w.write_str(texts[i].as_str());
        assert(w@ + items_bytes(s.skip(i + 1), text_bytes()) =~= before + items_bytes(s.skip(i as int), text_bytes()));
        i = i + 1;
    }
    assert(s.skip(s.len() as int) =~= Seq::<Seq<char>>::empty());
    assert(w@ =~= w0 + list_bytes(s, text_bytes()));
}

/// Writes an invoke.
fn write_invoke(w: &mut DefaultProtocolWriter, i: &Invoke)
    requires
        string_writable(i.name@),
    ensures
        final(w)@ == old(w)@ + invoke_bytes()(invoke_model(*i)),
{
    let ghost w0 = w@;
    w.write_uint(i.id as u64);
    w.write_uint(i.doc_id as u64);
    w.write_str(i.name.as_str());
    w.write_uint(i.invokeid as u64);
    w.write_boolean(i.autoforward);
    assert(w@ =~= w0 + invoke_bytes()(invoke_model(*i)));
}

/// Writes a list of invokes.
fn write_invokes(w: &mut DefaultProtocolWriter, invs: &Vec<Invoke>)
    requires
        forall|k: int| 0 <= k < invs@.len() ==> string_writable(#[trigger] invs@[k].name@),
    ensures
        final(w)@ == old(w)@ + list_bytes(invs@.map_values(|i: Invoke| invoke_model(i)), invoke_bytes()),
{
    let ghost w0 = w@;
    let ghost s = invs@.map_values(|i: Invoke| invoke_model(i));
    w.write_usize(invs.len());
    let ghost start = w@;
    assert(s.skip(0) =~= s);
    let mut i: usize = 0;
    while i < invs.len()
        invariant
            s == invs@.map_values(|i: Invoke| invoke_model(i)),
            forall|k: int| 0 <= k < invs@.len() ==> string_writable(#[trigger] invs@[k].name@),
            i <= s.len(),
            w@ + items_bytes(s.skip(i as int), invoke_bytes()) == start + items_bytes(s, invoke_bytes()),
        decreases s.len() - i,
    {
        proof {
            lemma_items_step(s, i as int, invoke_bytes());
        }
        let ghost before = w@;
        write_invoke(w, &invs[i]);
        assert(w@ + items_bytes(s.skip(i + 1), invoke_bytes()) =~= before + items_bytes(s.skip(i as int), invoke_bytes()));
        i = i + 1;
    }
    assert(s.skip(s.len() as int) =~= Seq::<InvokeModel>::empty());
    assert(w@ =~= w0 + list_bytes(s, invoke_bytes()));
}

/// The number of a history type.
fn history_number(h: HistoryType) -> (r: u64)
    ensures
        r == history_code(h),
{
    match h {
        HistoryType::Unset => 0,
        HistoryType::Shallow => 1,
        HistoryType::Deep => 2,
    }
}

/// Concatenation is associative.
proof fn lemma_assoc(a: Seq<u8>, b: Seq<u8>, c: Seq<u8>)
    ensures
        (a + b) + c == a + (b + c),
{
    assert((a + b) + c =~= a + (b + c));
}

/// Writes the parts of a state after its flags.
fn write_state_body(w: &mut DefaultProtocolWriter, s: &State)
    requires
        state_texts_writable(*s),
    ensures
        final(w)@ == old(w)@ + state_body_bytes(state_model(*s)),
{
    let ghost w0 = w@;
    let ghost m = state_model(*s);
    let ghost a5 = bytes_if(m.states.len() > 0, uint_bytes(m.initial as u64) + list_bytes(m.states, id_bytes()));
    let ghost a6 = bytes_if(m.onentry.len() > 0, list_bytes(m.onentry, id_bytes()));
    let ghost a7 = bytes_if(m.onexit.len() > 0, list_bytes(m.onexit, id_bytes()));
    let ghost a8 = list_bytes(m.transitions, id_bytes());
    let ghost a9 = bytes_if(m.invoke.len() > 0, list_bytes(m.invoke, invoke_bytes()));
    let ghost a10 = bytes_if(m.history.len() > 0, list_bytes(m.history, id_bytes()));
    let ghost a11 = uint_bytes(m.parent as u64);
    if s.states.len() > 0 {
        w.write_uint(s.initial as u64);
        write_ids(w, &s.states);
        proof {
            lemma_assoc(w0, uint_bytes(m.initial as u64), list_bytes(m.states, id_bytes()));
        }
    } else {
        assert(w@ =~= w0 + a5);
    }
    assert(w@ == w0 + a5);
    let ghost w5 = w@;
    if s.onentry.len() > 0 {
        write_ids(w, &s.onentry);
    } else {
        assert(w@ =~= w5 + a6);
    }
    proof {
        lemma_assoc(w0, a5, a6);
    }
    let ghost w6 = w@;
    if s.onexit.len() > 0 {
        write_ids(w, &s.onexit);
    } else {
        assert(w@ =~= w6 + a7);
    }
    proof {
        lemma_assoc(w0, a5 + a6, a7);
    }
    let ghost w7 = w@;
    write_ids(w, &s.transitions);
    proof {
        lemma_assoc(w0, a5 + a6 + a7, a8);
    }
    let ghost w8 = w@;
    if s.invoke.len() > 0 {
        write_invokes(w, &s.invoke);
    } else {
        assert(w@ =~= w8 + a9);
    }
    proof {
        lemma_assoc(w0, a5 + a6 + a7 + a8, a9);
    }
    let ghost w9 = w@;
    if s.history.len() > 0 {
        write_ids(w, &s.history);
    } else {
        assert(w@ =~= w9 + a10);
    }
    proof {
        lemma_assoc(w0, a5 + a6 + a7 + a8 + a9, a10);
    }
    w.write_uint(s.parent as u64);
    proof {
        lemma_assoc(w0, a5 + a6 + a7 + a8 + a9 + a10, a11);
    }
}

/// Writes a state.
pub fn write_state(w: &mut DefaultProtocolWriter, s: &State)
    requires
        state_texts_writable(*s),
    ensures
        final(w)@ == old(w)@ + state_bytes()(state_model(*s)),
{
    let ghost w0 = w@;
    let ghost m = state_model(*s);
    let flags: u64 = history_number(s.history_type) | (if s.onentry.len() > 0 { 4u64 } else { 0u64 })
        | (if s.onexit.len() > 0 { 8u64 } else { 0u64 }) | (if s.states.len() > 0 { 16u64 } else { 0u64 })
        | (if s.is_final { 32u64 } else { 0u64 }) | (if s.is_parallel { 64u64 } else { 0u64 }) | (if s.donedata.is_some() { 128u64 } else { 0u64 })
        | (if s.invoke.len() > 0 { 256u64 } else { 0u64 }) | (if s.history.len() > 0 { 1024u64 } else { 0u64 });
    assert(flags == state_flags(m)) by {
        reveal(state_flags);
    }
    w.write_uint(s.id as u64);
    w.write_uint(s.doc_id as u64);
    w.write_str(s.name.as_str());
    w.write_uint(flags);
    let ghost head = w@;
    let ghost h = uint_bytes(m.id as u64) + uint_bytes(m.doc_id as u64) + string_bytes(m.name)
        + uint_bytes(state_flags(m));
    assert(head =~= w0 + h);
    write_state_body(w, s);
    proof {
        lemma_assoc(w0, h, state_body_bytes(m));
    }
}

/// Writes a transition.
pub fn write_transition(w: &mut DefaultProtocolWriter, t: &Transition)
    requires
        transition_texts_writable(*t),
    ensures
        final(w)@ == old(w)@ + transition_bytes()(transition_model(*t)),
{
    let ghost w0 = w@;
    let ghost m = transition_model(*t);
    let code: u64 = match t.transition_type {
        TransitionType::Internal => 0,
        TransitionType::External => 1,
    };
    let flags: u64 = code | (if t.cond.is_some() { 4u64 } else { 0u64 }) | (if t.content != 0 { 8u64 } else { 0u64 });
    assert(flags == transition_flags(m)) by {
        reveal(transition_flags);
    }
    w.write_uint(t.id as u64);
    w.write_uint(t.doc_id as u64);
    w.write_uint(t.source as u64);
    write_ids(w, &t.target);
    write_texts(w, &t.events);
    w.write_uint(flags);
    let ghost w6 = w@;
    assert(w6 =~= w0 + uint_bytes(m.id as u64) + uint_bytes(m.doc_id as u64) + uint_bytes(m.source as u64)
        + list_bytes(m.target, id_bytes()) + list_bytes(m.events, text_bytes()) + uint_bytes(transition_flags(m)));
    match &t.cond {
        Some(c) => {
            w.write_str(c.as_str());
        },
        None => {},
    }
    let ghost w7 = w@;
    if t.content != 0 {
        w.write_uint(t.content as u64);
    }
    proof {
        assert(w7 =~= w6 + match m.cond {
            Some(c) => string_bytes(c),
            None => Seq::empty(),
        });
        assert(w@ =~= w7 + if m.content != 0 {
            uint_bytes(m.content as u64)
        } else {
            Seq::empty()
        });
        assert(w@ =~= w0 + transition_bytes()(m));
    }
}

/// Writes a state machine: the protocol version, the pseudo root, the states and the
/// transitions.
#[verifier::spinoff_prover]
#[verifier::rlimit(60)]
pub fn write_fsm(w: &mut DefaultProtocolWriter, fsm: &Fsm)
    requires
        fsm_texts_writable(*fsm),
    ensures
        final(w)@ == old(w)@ + fsm_bytes(fsm_model(*fsm)),
{
    let ghost w0 = w@;
    let ghost m = fsm_model(*fsm);
    w.write_version();
    w.write_uint(fsm.pseudo_root as u64);
    let ghost w2 = w@;
    let ghost ss = m.states;
    w.write_usize(fsm.states.len());
    let ghost start = w@;
    assert(ss.skip(0) =~= ss);
    let mut i: usize = 0;
    while i < fsm.states.len()
        invariant
            ss == fsm.states@.map_values(|s: State| state_model(s)),
            fsm_texts_writable(*fsm),
            i <= ss.len(),
            w@ + items_bytes(ss.skip(i as int), state_bytes()) == start + items_bytes(ss, state_bytes()),
        decreases ss.len() - i,
    {
        proof {
            lemma_items_step(ss, i as int, state_bytes());
        }
        let ghost before = w@;
        assert(state_texts_writable(fsm.states@[i as int]));
        write_state(w, &fsm.states[i]);
        assert(w@ + items_bytes(ss.skip(i + 1), state_bytes()) =~= before + items_bytes(ss.skip(i as int), state_bytes()));
        i = i + 1;
    }
    assert(ss.skip(ss.len() as int) =~= Seq::<StateModel>::empty());
    let ghost w3 = w@;
    assert(w3 =~= w2 + list_bytes(ss, state_bytes()));
    let ghost ts = m.transitions;
    w.write_usize(fsm.transitions.len());
    let ghost start2 = w@;
    assert(ts.skip(0) =~= ts);
    let mut j: usize = 0;
    while j < fsm.transitions.len()
        invariant
            ts == fsm.transitions@.map_values(|t: Transition| transition_model(t)),
            fsm_texts_writable(*fsm),
            j <= ts.len(),
            w@ + items_bytes(ts.skip(j as int), transition_bytes()) == start2 + items_bytes(ts, transition_bytes()),
        decreases ts.len() - j,
    {
        proof {
            lemma_items_step(ts, j as int, transition_bytes());
        }
        let ghost before = w@;
        assert(transition_texts_writable(fsm.transitions@[j as int]));
        write_transition(w, &fsm.transitions[j]);
        assert(w@ + items_bytes(ts.skip(j + 1), transition_bytes()) =~= before + items_bytes(ts.skip(j as int), transition_bytes()));
        j = j + 1;
    }
    assert(ts.skip(ts.len() as int) =~= Seq::<TransitionModel>::empty());
    assert(w@ =~= w3 + list_bytes(ts, transition_bytes()));
    assert(w@ =~= w0 + fsm_bytes(m));
}

// ---------------------------------------------------------------------------
// The reader.
// ---------------------------------------------------------------------------

/// One more item read: the items so far and those still to read make up the list.
proof fn lemma_items_read<T>(
    acc: Seq<T>,
    cur: ReaderView,
    k: nat,
    f: spec_fn(ReaderView) -> (T, ReaderView),
)
    requires
        k > 0,
        cur.ok,
    ensures
        acc.push(f(cur).0) + rv_items(f(cur).1, (k - 1) as nat, f).0 == acc + rv_items(cur, k, f).0,
        rv_items(f(cur).1, (k - 1) as nat, f).1 == rv_items(cur, k, f).1,
{
    assert(acc.push(f(cur).0) + rv_items(f(cur).1, (k - 1) as nat, f).0 =~= acc + (seq![f(cur).0]
        + rv_items(f(cur).1, (k - 1) as nat, f).0));
}

/// Reads a list of ids.
fn read_ids(r: &mut DefaultProtocolReader) -> (v: Vec<u32>)
    ensures
        (v@, final(r)@) == rv_list(old(r)@, id_reader()),
{
    let n = r.read_uint();
    let ghost r1 = r@;
    let ghost all = rv_items(r1, n as nat, id_reader());
    let mut v: Vec<u32> = Vec::new();
    let mut i: u64 = 0;
    assert(v@ + rv_items(r@, (n - i) as nat, id_reader()).0 =~= all.0);
    while i < n && !r.has_error()
        invariant
            i <= n,
            v@ + rv_items(r@, (n - i) as nat, id_reader()).0 == all.0,
            rv_items(r@, (n - i) as nat, id_reader()).1 == all.1,
        decreases n - i,
    {
        let ghost cur = r@;
        let x = r.read_u32();
        proof {
            lemma_items_read(v@, cur, (n - i) as nat, id_reader());
        }
        v.push(x);
        i = i + 1;
    }
    assert(v@ =~= v@ + rv_items(r@, (n - i) as nat, id_reader()).0);
    v
}

/// Reads a list of texts.
fn read_texts(r: &mut DefaultProtocolReader) -> (v: Vec<String>)
    ensures
        (v@.map_values(|e: String| e@), final(r)@) == rv_list(old(r)@, text_reader()),
{
    let n = r.read_uint();
    let ghost r1 = r@;
    let ghost all = rv_items(r1, n as nat, text_reader());
    let mut v: Vec<String> = Vec::new();
    let mut i: u64 = 0;
    assert(v@.map_values(|e: String| e@) + rv_items(r@, (n - i) as nat, text_reader()).0 =~= all.0);
    while i < n && !r.has_error()
        invariant
            i <= n,
            v@.map_values(|e: String| e@) + rv_items(r@, (n - i) as nat, text_reader()).0 == all.0,
            rv_items(r@, (n - i) as nat, text_reader()).1 == all.1,
        decreases n - i,
    {
        let ghost cur = r@;
        let ghost before = v@.map_values(|e: String| e@);
        let x = r.read_string();
        proof {
            lemma_items_read(before, cur, (n - i) as nat, text_reader());
        }
        v.push(x);
        assert(v@.map_values(|e: String| e@) =~= before.push(x@));
        i = i + 1;
    }
    assert(v@.map_values(|e: String| e@) =~= v@.map_values(|e: String| e@) + rv_items(r@, (n - i) as nat, text_reader()).0);
    v
}

/// Reads an invoke.
fn read_invoke(r: &mut DefaultProtocolReader) -> (i: Invoke)
    ensures
        (invoke_model(i), final(r)@) == rv_read_invoke(old(r)@),
{
    let id = r.read_u32();
    let doc_id = r.read_u32();
    let name = r.read_string();
    let invokeid = r.read_u32();
    let autoforward = r.read_boolean();
    Invoke { doc_id, id, name, invokeid, autoforward }
}

/// Reads a list of invokes.
fn read_invokes(r: &mut DefaultProtocolReader) -> (v: Vec<Invoke>)
    ensures
        (v@.map_values(|i: Invoke| invoke_model(i)), final(r)@) == rv_list(old(r)@, invoke_reader()),
{
    let n = r.read_uint();
    let ghost r1 = r@;
    let ghost all = rv_items(r1, n as nat, invoke_reader());
    let mut v: Vec<Invoke> = Vec::new();
    let mut i: u64 = 0;
    assert(v@.map_values(|i: Invoke| invoke_model(i)) + rv_items(r@, (n - i) as nat, invoke_reader()).0 =~= all.0);
    while i < n && !r.has_error()
        invariant
            i <= n,
            v@.map_values(|i: Invoke| invoke_model(i)) + rv_items(r@, (n - i) as nat, invoke_reader()).0 == all.0,
            rv_items(r@, (n - i) as nat, invoke_reader()).1 == all.1,
        decreases n - i,
    {
        let ghost cur = r@;
        let ghost before = v@.map_values(|i: Invoke| invoke_model(i));
        let x = read_invoke(r);
        proof {
            lemma_items_read(before, cur, (n - i) as nat, invoke_reader());
        }
        let ghost xm = invoke_model(x);
        v.push(x);
        assert(v@.map_values(|i: Invoke| invoke_model(i)) =~= before.push(xm));
        i = i + 1;
    }
    assert(v@.map_values(|i: Invoke| invoke_model(i)) =~= v@.map_values(|i: Invoke| invoke_model(i)) + rv_items(r@, (n - i) as nat, invoke_reader()).0);
    v
}

/// Reads a transition.
pub fn read_transition(r: &mut DefaultProtocolReader) -> (t: Transition)
    ensures
        (transition_model(t), final(r)@) == rv_read_transition(old(r)@),
{
    let id = r.read_u32();
    let doc_id = r.read_u32();
    let source = r.read_u32();
    let target = read_ids(r);
    let events = read_texts(r);
    let flags = r.read_uint();
    let cond = if flags & 4 != 0 {
        Some(r.read_string())
    } else {
        None
    };
    let content = if flags & 8 != 0 {
        r.read_u32()
    } else {
        0
    };
    let transition_type = if flags & 1 != 0 {
        TransitionType::External
    } else {
        TransitionType::Internal
    };
    Transition { id, doc_id, events, cond, source, target, transition_type, content }
}

/// Reads a list of ids where `present`, else none.
fn read_ids_if(r: &mut DefaultProtocolReader, present: bool) -> (v: Vec<u32>)
    ensures
        (v@, final(r)@) == rv_ids_if(old(r)@, present),
{
    if present {
        read_ids(r)
    } else {
        Vec::new()
    }
}

/// Reads a state.
#[verifier::spinoff_prover]
#[verifier::rlimit(60)]
pub fn read_state(r: &mut DefaultProtocolReader) -> (s: State)
    ensures
        (state_model(s), final(r)@) == rv_read_state(old(r)@),
{
    let id = r.read_u32();
    let doc_id = r.read_u32();
    let name = r.read_string();
    let flags = r.read_uint();
    let ghost r4 = r@;
    let initial = if flags & 16 != 0 {
        r.read_u32()
    } else {
        0
    };
    let states = read_ids_if(r, flags & 16 != 0);
    let onentry = read_ids_if(r, flags & 4 != 0);
    let onexit = read_ids_if(r, flags & 8 != 0);
    let transitions = read_ids(r);
    let invoke = if flags & 256 != 0 {
        read_invokes(r)
    } else {
        Vec::new()
    };
    let history = read_ids_if(r, flags & 1024 != 0);
    let parent = r.read_u32();
    let code = flags & 3;
    let history_type = if code == 1 {
        HistoryType::Shallow
    } else if code == 2 {
        HistoryType::Deep
    } else {
        HistoryType::Unset
    };
    let s = State {
        id,
        doc_id,
        name,
        initial,
        states,
        is_parallel: flags & 64 != 0,
        is_final: flags & 32 != 0,
        history_type,
        onentry,
        onexit,
        transitions,
        history,
        parent,
        donedata: if flags & 128 != 0 {
            Some(DoneData {  })
        } else {
            None
        },
        invoke,
    };
    assert(s.invoke@.map_values(|i: Invoke| invoke_model(i)) =~= rv_read_state_parts(r4, flags).0.invoke);
    s
}

/// Reads a state machine that `write_fsm` wrote (see `rv_read_fsm`); `None` where the
/// bytes are not one.
pub fn read_fsm(r: &mut DefaultProtocolReader) -> (f: Option<Fsm>)
    ensures
        final(r)@ == rv_read_fsm(old(r)@).1,
        match f {
            Some(x) => rv_read_fsm(old(r)@).1.ok && fsm_model(x) == rv_read_fsm(old(r)@).0,
            None => !rv_read_fsm(old(r)@).1.ok,
        },
{
    r.verify_version();
    let pseudo_root = r.read_u32();
    let n = r.read_uint();
    let ghost r1 = r@;
    let ghost all = rv_items(r1, n as nat, state_reader());
    let mut states: Vec<State> = Vec::new();
    let mut i: u64 = 0;
    assert(states@.map_values(|s: State| state_model(s)) + rv_items(r@, (n - i) as nat, state_reader()).0 =~= all.0);
    while i < n && !r.has_error()
        invariant
            i <= n,
            states@.map_values(|s: State| state_model(s)) + rv_items(r@, (n - i) as nat, state_reader()).0 == all.0,
            rv_items(r@, (n - i) as nat, state_reader()).1 == all.1,
        decreases n - i,
    {
        let ghost cur = r@;
        let ghost before = states@.map_values(|s: State| state_model(s));
        let x = read_state(r);
        proof {
            lemma_items_read(before, cur, (n - i) as nat, state_reader());
        }
        let ghost xm = state_model(x);
        states.push(x);
        assert(states@.map_values(|s: State| state_model(s)) =~= before.push(xm));
        i = i + 1;
    }
    assert(states@.map_values(|s: State| state_model(s)) =~= states@.map_values(|s: State| state_model(s)) + rv_items(r@, (n - i) as nat, state_reader()).0);
    let m = r.read_uint();
    let ghost r2 = r@;
    let ghost all2 = rv_items(r2, m as nat, transition_reader());
    let mut transitions: Vec<Transition> = Vec::new();
    let mut j: u64 = 0;
    assert(transitions@.map_values(|t: Transition| transition_model(t)) + rv_items(r@, (m - j) as nat, transition_reader()).0 =~= all2.0);
    while j < m && !r.has_error()
        invariant
            j <= m,
            transitions@.map_values(|t: Transition| transition_model(t)) + rv_items(r@, (m - j) as nat, transition_reader()).0 == all2.0,
            rv_items(r@, (m - j) as nat, transition_reader()).1 == all2.1,
        decreases m - j,
    {
        let ghost cur = r@;
        let ghost before = transitions@.map_values(|t: Transition| transition_model(t));
        let x = read_transition(r);
        proof {
            lemma_items_read(before, cur, (m - j) as nat, transition_reader());
        }
        let ghost xm = transition_model(x);
        transitions.push(x);
        assert(transitions@.map_values(|t: Transition| transition_model(t)) =~= before.push(xm));
        j = j + 1;
    }
    assert(transitions@.map_values(|t: Transition| transition_model(t)) =~= transitions@.map_values(|t: Transition| transition_model(t)) + rv_items(r@, (m - j) as nat, transition_reader()).0);
    if r.has_error() {
        None
    } else {
        Some(Fsm { pseudo_root, states, transitions })
    }
}

} // verus!
