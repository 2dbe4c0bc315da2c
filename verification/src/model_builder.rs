//! Building the state machine model while the SCXML reader reads a document: the
//! `<scxml>`, `<state>`, `<parallel>`, `<final>` and `<history>` elements make states,
//! `<transition>` elements and `initial` attributes make transitions, and the names of
//! states that are referred to before they are declared make states that the declaration
//! completes later.

use vstd::prelude::*;
use vstd::string::*;
use vstd::utf8::decode_utf8;
use crate::decimal::{i64_text, i64_to_string};
use crate::fsm::{
    is_history_type, is_history_type_name, spells, spells_word, Fsm, HistoryType, State,
    Transition, TransitionType,
};
use crate::fsm_serializer::{fsm_model, state_model, transition_model, FsmModel, StateModel, TransitionModel};
use crate::reader::{attr_texts, attr_value, ReaderError, ReaderIssue, ReaderState};
use crate::common::same_text;

verus! {

// ---------------------------------------------------------------------------
// Words.
// ---------------------------------------------------------------------------

/// White space: ASCII white space (space, tab, line feed, form feed, carriage return)
/// where `ascii`, else the characters with the Unicode property White_Space.
pub open spec fn is_space(c: char, ascii: bool) -> bool {
    let u = c as u32;
    if ascii {
        u == 0x20 || u == 0x09 || u == 0x0A || u == 0x0C || u == 0x0D
    } else {
        (0x09 <= u <= 0x0D) || u == 0x20 || u == 0x85 || u == 0xA0 || u == 0x1680 || (0x2000
            <= u <= 0x200A) || u == 0x2028 || u == 0x2029 || u == 0x202F || u == 0x205F || u
            == 0x3000
    }
}

/// The number of leading characters of `s` that are no white space.
pub open spec fn lead_word(s: Seq<char>, ascii: bool) -> nat
    decreases s.len(),
{
    if s.len() == 0 || is_space(s[0], ascii) {
        0
    } else {
        1 + lead_word(s.drop_first(), ascii)
    }
}

/// The first word of `s` lies within `s`.
pub proof fn lemma_lead_word(s: Seq<char>, ascii: bool)
    ensures
        lead_word(s, ascii) <= s.len(),
    decreases s.len(),
{
    if s.len() > 0 && !is_space(s[0], ascii) {
        lemma_lead_word(s.drop_first(), ascii);
    }
}

/// The words of `s`: its maximal runs of characters that are no white space, in order.
pub open spec fn words(s: Seq<char>, ascii: bool) -> Seq<Seq<char>>
    decreases s.len(),
{
    if s.len() == 0 {
        Seq::empty()
    } else if is_space(s[0], ascii) {
        words(s.drop_first(), ascii)
    } else {
        let n = lead_word(s, ascii);
        proof {
            lemma_lead_word(s, ascii);
        }
        seq![s.take(n as int)] + words(s.skip(n as int), ascii)
    }
}

/// The views of texts.
pub open spec fn texts_of(v: Seq<String>) -> Seq<Seq<char>> {
    v.map_values(|w: String| w@)
}

/// std's `str::split_ascii_whitespace`: the words of the text, split at ASCII white space.
#[verifier::external_body]
fn split_ascii_words(s: &str) -> (r: Vec<String>)
    ensures
        texts_of(r@) == words(s@, true),
{
    s.split_ascii_whitespace().map(|w| w.to_string()).collect()
}

/// std's `str::split_whitespace`: the words of the text, split at Unicode white space.
#[verifier::external_body]
fn split_words(s: &str) -> (r: Vec<String>)
    ensures
        texts_of(r@) == words(s@, false),
{
    s.split_whitespace().map(|w| w.to_string()).collect()
}

// ---------------------------------------------------------------------------
// The model as it is built.
// ---------------------------------------------------------------------------

/// The largest number of states, transitions, generated names and document ids.
pub open spec fn limit() -> nat {
    0x7fff_ffff
}

/// What the builder holds: the model, the state of each open element (0 outside any
/// state), and the last generated name number and document id.
pub struct BuilderView {
    pub m: FsmModel,
    pub stack: Seq<u32>,
    pub ids: nat,
    pub docs: nat,
}

/// The state of the innermost open element, 0 where there is none.
pub open spec fn current(v: BuilderView) -> u32 {
    if v.stack.len() == 0 {
        0
    } else {
        v.stack.last()
    }
}

/// A state that only has a name yet.
pub open spec fn new_state(id: u32, name: Seq<char>, parallel: bool) -> StateModel {
    StateModel {
        id,
        doc_id: 0,
        name,
        history_type: HistoryType::Unset,
        is_final: false,
        is_parallel: parallel,
        has_donedata: false,
        initial: 0,
        states: Seq::empty(),
        onentry: Seq::empty(),
        onexit: Seq::empty(),
        transitions: Seq::empty(),
        invoke: Seq::empty(),
        history: Seq::empty(),
        parent: 0,
    }
}

/// `i` is the first index of a state named `name`.
pub open spec fn is_first(s: Seq<StateModel>, name: Seq<char>, i: int) -> bool {
    &&& 0 <= i < s.len()
    &&& s[i].name == name
    &&& forall|j: int| 0 <= j < i ==> s[j].name != name
}

/// The index of the first state named `name`.
pub open spec fn find_state(s: Seq<StateModel>, name: Seq<char>) -> Option<int> {
    if exists|i: int| is_first(s, name, i) {
        Some(choose|i: int| is_first(s, name, i))
    } else {
        None
    }
}

/// The model with the state at index `i` replaced.
pub open spec fn set_state(m: FsmModel, i: int, s: StateModel) -> FsmModel {
    FsmModel { pseudo_root: m.pseudo_root, states: m.states.update(i, s), transitions: m.transitions }
}

/// The state named `name`, made (parallel where `parallel`) if there is none; an existing
/// one becomes parallel where `parallel`. `None` where no more states fit.
pub open spec fn state_for(m: FsmModel, name: Seq<char>, parallel: bool) -> Option<(FsmModel, u32)> {
    match find_state(m.states, name) {
        Some(i) => Some(
            (
                if parallel {
                    set_state(m, i, StateModel { is_parallel: true, ..m.states[i] })
                } else {
                    m
                },
                (i + 1) as u32,
            ),
        ),
        None => if m.states.len() >= limit() {
            None
        } else {
            let id = (m.states.len() + 1) as u32;
            Some(
                (
                    FsmModel {
                        pseudo_root: m.pseudo_root,
                        states: m.states.push(new_state(id, name, parallel)),
                        transitions: m.transitions,
                    },
                    id,
                ),
            )
        },
    }
}

/// The states named `names`, in order (see `state_for`).
pub open spec fn states_for(m: FsmModel, names: Seq<Seq<char>>) -> Option<(FsmModel, Seq<u32>)>
    decreases names.len(),
{
    if names.len() == 0 {
        Some((m, Seq::empty()))
    } else {
        match state_for(m, names[0], false) {
            None => None,
            Some((m1, id)) => match states_for(m1, names.drop_first()) {
                None => None,
                Some((m2, rest)) => Some((m2, seq![id] + rest)),
            },
        }
    }
}

/// The name generated for the `n`-th state without id: "__id" and the number.
pub open spec fn generated_name(n: nat) -> Seq<char> {
    "__id"@ + decode_utf8(i64_text(n as i64))
}

/// The model with the transition `t` added.
pub open spec fn add_transition(m: FsmModel, t: TransitionModel) -> FsmModel {
    FsmModel { pseudo_root: m.pseudo_root, states: m.states, transitions: m.transitions.push(t) }
}

/// The name of a state element: its `id` attribute, or the next generated name; and the
/// number of generated names afterwards.
pub open spec fn state_name(attrs: Seq<(Seq<char>, Seq<char>)>, ids: nat) -> (Seq<char>, nat) {
    match attr_value(attrs, "id"@) {
        Some(n) => (n, ids),
        None => (generated_name(ids + 1), ids + 1),
    }
}

/// The initial transition that the `initial` attribute of the state `sid` makes (to the
/// states it names), with the document id after `docs`: the model, the last document id,
/// and the transition (0: none).
pub open spec fn initial_of(
    m1: FsmModel,
    attrs: Seq<(Seq<char>, Seq<char>)>,
    sid: u32,
    docs: nat,
) -> Option<(FsmModel, nat, u32)> {
    match attr_value(attrs, "initial"@) {
        None => Some((m1, docs, 0u32)),
        Some(refs) => match states_for(m1, words(refs, true)) {
            None => None,
            Some((m2, targets)) => if m2.transitions.len() >= limit() {
                None
            } else {
                let tid = (m2.transitions.len() + 1) as u32;
                Some(
                    (
                        add_transition(
                            m2,
                            TransitionModel {
                                id: tid,
                                doc_id: (docs + 1) as u32,
                                source: sid,
                                target: targets,
                                events: Seq::empty(),
                                transition_type: TransitionType::Internal,
                                cond: None,
                                content: 0,
                            },
                        ),
                        docs + 1,
                        tid,
                    ),
                )
            },
        },
    }
}

/// The state `sid` with its initial transition `tid` (where not 0), the document id after
/// `docs`, and the parent `parent` (where not 0), which holds it as a child.
pub open spec fn placed(m3: FsmModel, sid: u32, tid: u32, docs: nat, parent: u32) -> FsmModel {
    let st = m3.states[sid - 1];
    let m4 = set_state(
        m3,
        sid - 1,
        StateModel {
            initial: if tid != 0 {
                tid
            } else {
                st.initial
            },
            doc_id: (docs + 1) as u32,
            parent: if parent != 0 {
                parent
            } else {
                st.parent
            },
            ..st
        },
    );
    if parent != 0 && !m4.states[parent - 1].states.contains(sid) {
        set_state(
            m4,
            parent - 1,
            StateModel { states: m4.states[parent - 1].states.push(sid), ..m4.states[parent - 1] },
        )
    } else {
        m4
    }
}

/// The state of a state element with the attributes `attrs`, inside the state `parent`
/// (0: none): the state named by the `id` attribute (or a generated name), with its
/// initial transition where the `initial` attribute names its targets, and the next
/// document id; it becomes a child of `parent`.
pub open spec fn state_with_attributes(
    v: BuilderView,
    attrs: Seq<(Seq<char>, Seq<char>)>,
    parallel: bool,
    parent: u32,
) -> Option<(BuilderView, u32)> {
    let (name, ids1) = state_name(attrs, v.ids);
    if ids1 >= limit() || v.docs + 2 >= limit() {
        None
    } else {
        match state_for(v.m, name, parallel) {
            None => None,
            Some((m1, sid)) => match initial_of(m1, attrs, sid, v.docs) {
                None => None,
                Some((m3, docs3, tid)) => Some(
                    (
                        BuilderView {
                            m: placed(m3, sid, tid, docs3, parent),
                            stack: v.stack,
                            ids: ids1,
                            docs: docs3 + 1,
                        },
                        sid,
                    ),
                ),
            },
        }
    }
}

/// The builder after the element `sid` was opened on `v`.
pub open spec fn opened(v: BuilderView, sid: u32) -> BuilderView {
    BuilderView { m: v.m, stack: v.stack.push(sid), ids: v.ids, docs: v.docs }
}

/// The history type that the `type` attribute of a `<history>` names.
pub open spec fn history_type_of(t: Option<Seq<char>>) -> HistoryType {
    match t {
        None => HistoryType::Shallow,
        Some(x) => if spells_word(x, seq!['d', 'e', 'e', 'p']) {
            HistoryType::Deep
        } else if spells_word(x, seq!['s', 'h', 'a', 'l', 'l', 'o', 'w']) {
            HistoryType::Shallow
        } else {
            HistoryType::Unset
        },
    }
}

/// The transition that a `<transition>` element with the attributes `attrs` makes in the
/// state `source`, with the document id `doc` and the target states `targets`.
pub open spec fn transition_of(
    id: u32,
    doc: u32,
    source: u32,
    targets: Seq<u32>,
    attrs: Seq<(Seq<char>, Seq<char>)>,
) -> TransitionModel {
    TransitionModel {
        id,
        doc_id: doc,
        source,
        target: targets,
        events: match attr_value(attrs, "event"@) {
            Some(e) => words(e, false),
            None => Seq::empty(),
        },
        transition_type: match attr_value(attrs, "type"@) {
            Some(t) => if spells_word(t, seq!['i', 'n', 't', 'e', 'r', 'n', 'a', 'l']) {
                TransitionType::Internal
            } else {
                TransitionType::External
            },
            None => TransitionType::External,
        },
        cond: attr_value(attrs, "cond"@),
        content: 0,
    }
}

/// What the start tag `name` with the attributes `attrs`, inside an element with the tag
/// `parent_tag`, does to the model (its structure rules already checked).
pub open spec fn model_after_start(
    v: BuilderView,
    parent_tag: Seq<char>,
    name: Seq<char>,
    attrs: Seq<(Seq<char>, Seq<char>)>,
) -> Result<BuilderView, ReaderIssue> {
    let cur = current(v);
    if name == "scxml"@ || name == "state"@ || name == "parallel"@ || name == "final"@ {
        let parent = if name == "scxml"@ {
            0u32
        } else {
            cur
        };
        match state_with_attributes(v, attrs, name == "parallel"@, parent) {
            None => Err(ReaderIssue::TooLarge),
            Some((v1, sid)) => {
                let m = if name == "scxml"@ {
                    FsmModel { pseudo_root: sid, ..v1.m }
                } else if name == "final"@ {
                    set_state(v1.m, sid - 1, StateModel { is_final: true, ..v1.m.states[sid - 1] })
                } else {
                    v1.m
                };
                Ok(opened(BuilderView { m, ..v1 }, sid))
            },
        }
    } else if name == "history"@ {
        if attr_value(attrs, "type"@) matches Some(t) && !is_history_type_name(t) {
            Err(ReaderIssue::NotSupported("history"@, "type"@))
        } else {
            match state_with_attributes(v, attrs, false, 0) {
                None => Err(ReaderIssue::TooLarge),
                Some((v1, sid)) => {
                    let m1 = if cur != 0 {
                        set_state(
                            v1.m,
                            cur - 1,
                            StateModel { history: v1.m.states[cur - 1].history.push(sid), ..v1.m.states[cur - 1] },
                        )
                    } else {
                        v1.m
                    };
                    let m2 = set_state(
                        m1,
                        sid - 1,
                        StateModel {
                            parent: cur,
                            history_type: history_type_of(attr_value(attrs, "type"@)),
                            ..m1.states[sid - 1]
                        },
                    );
                    Ok(opened(BuilderView { m: m2, ..v1 }, sid))
                },
            }
        }
    } else if name == "initial"@ {
        if cur == 0 {
            Err(ReaderIssue::NoState)
        } else if v.m.states[cur - 1].initial > 0 {
            Err(ReaderIssue::InitialTwice)
        } else {
            Ok(opened(v, cur))
        }
    } else if name == "transition"@ {
        if cur == 0 {
            Err(ReaderIssue::NoState)
        } else if v.docs + 1 >= limit() {
            Err(ReaderIssue::TooLarge)
        } else {
            let targets = match attr_value(attrs, "target"@) {
                Some(t) => words(t, true),
                None => Seq::empty(),
            };
            match states_for(v.m, targets) {
                None => Err(ReaderIssue::TooLarge),
                Some((m1, tids)) => if m1.transitions.len() >= limit() {
                    Err(ReaderIssue::TooLarge)
                } else {
                    let tid = (m1.transitions.len() + 1) as u32;
                    let m2 = add_transition(m1, transition_of(tid, (v.docs + 1) as u32, cur, tids, attrs));
                    let st = m2.states[cur - 1];
                    if parent_tag == "initial"@ {
                        if st.initial > 0 {
                            Err(ReaderIssue::InitialTwice)
                        } else {
                            Ok(
                                opened(
                                    BuilderView {
                                        m: set_state(m2, cur - 1, StateModel { initial: tid, ..st }),
                                        stack: v.stack,
                                        ids: v.ids,
                                        docs: v.docs + 1,
                                    },
                                    cur,
                                ),
                            )
                        }
                    } else {
                        Ok(
                            opened(
                                BuilderView {
                                    m: set_state(
                                        m2,
                                        cur - 1,
                                        StateModel { transitions: st.transitions.push(tid), ..st },
                                    ),
                                    stack: v.stack,
                                    ids: v.ids,
                                    docs: v.docs + 1,
                                },
                                cur,
                            ),
                        )
                    }
                },
            }
        }
    } else {
        Ok(opened(v, cur))
    }
}

/// What an end tag does to the model: the enclosing element's state becomes current.
pub open spec fn model_after_end(v: BuilderView) -> BuilderView {
    BuilderView {
        m: v.m,
        stack: if v.stack.len() > 0 {
            v.stack.drop_last()
        } else {
            v.stack
        },
        ids: v.ids,
        docs: v.docs,
    }
}

/// The builder at the start of a document: no state, no transition, nothing open.
pub open spec fn initial_builder() -> BuilderView {
    BuilderView {
        m: FsmModel { pseudo_root: 0, states: Seq::empty(), transitions: Seq::empty() },
        stack: Seq::empty(),
        ids: 0,
        docs: 0,
    }
}

/// The state that `state_for` gives exists afterwards, and no state is lost.
proof fn lemma_state_for_len(m: FsmModel, name: Seq<char>, parallel: bool)
    requires
        m.states.len() <= limit(),
    ensures
        state_for(m, name, parallel) matches Some((m1, id)) ==> 1 <= id <= m1.states.len()
            && m1.states.len() >= m.states.len() && m1.states.len() <= limit(),
{
    if exists|i: int| is_first(m.states, name, i) {
        let i = choose|i: int| is_first(m.states, name, i);
        assert(is_first(m.states, name, i));
    }
}

/// `states_for` loses no state.
proof fn lemma_states_for_len(m: FsmModel, names: Seq<Seq<char>>)
    requires
        m.states.len() <= limit(),
    ensures
        states_for(m, names) matches Some((m2, _ids)) ==> m2.states.len() >= m.states.len(),
    decreases names.len(),
{
    if names.len() > 0 {
        lemma_state_for_len(m, names[0], false);
        if let Some((m1, _id)) = state_for(m, names[0], false) {
            lemma_states_for_len(m1, names.drop_first());
        }
    }
}

/// The state of a state element exists afterwards.
proof fn lemma_state_with_attributes_len(
    v: BuilderView,
    attrs: Seq<(Seq<char>, Seq<char>)>,
    parallel: bool,
    parent: u32,
)
    requires
        parent <= v.m.states.len(),
        v.m.states.len() <= limit(),
    ensures
        state_with_attributes(v, attrs, parallel, parent) matches Some((v1, sid)) ==> 1 <= sid
            <= v1.m.states.len() && v1.m.states.len() >= v.m.states.len(),
{
    let (name, ids1) = state_name(attrs, v.ids);
    lemma_state_for_len(v.m, name, parallel);
    if let Some((m1, sid)) = state_for(v.m, name, parallel) {
        if let Some(refs) = attr_value(attrs, "initial"@) {
            lemma_states_for_len(m1, words(refs, true));
        }
        if let Some((m3, docs3, tid)) = initial_of(m1, attrs, sid, v.docs) {
            assert(m3.states.len() >= m1.states.len());
            let p = placed(m3, sid, tid, docs3, parent);
            assert(p.states.len() == m3.states.len());
        }
    }
}

/// #W3C says:
/// type: "deep" or "shallow"; the default is "shallow".
/// (A `<history>` element makes the state that becomes current: a child of the state it
/// stands in, of the type that its `type` attribute names in any letter case, shallow
/// where the attribute is missing; the empty text leaves the type unset.)
pub proof fn lemma_history_type_of_element(
    v: BuilderView,
    parent_tag: Seq<char>,
    attrs: Seq<(Seq<char>, Seq<char>)>,
)
    requires
        builder_ok(v),
        model_after_start(v, parent_tag, "history"@, attrs) is Ok,
    ensures
        ({
            let v1 = model_after_start(v, parent_tag, "history"@, attrs)->Ok_0;
            let h = v1.m.states[current(v1) - 1];
            &&& 1 <= current(v1) <= v1.m.states.len()
            &&& h.parent == current(v)
            &&& attr_value(attrs, "type"@) is None ==> h.history_type == HistoryType::Shallow
            &&& attr_value(attrs, "type"@) matches Some(t) ==> (
                spells_word(t, seq!['d', 'e', 'e', 'p']) ==> h.history_type == HistoryType::Deep)
            &&& attr_value(attrs, "type"@) matches Some(t) ==> (
                spells_word(t, seq!['s', 'h', 'a', 'l', 'l', 'o', 'w']) ==> h.history_type == HistoryType::Shallow)
            &&& attr_value(attrs, "type"@) matches Some(t) ==> (t.len() == 0 ==> h.history_type
                == HistoryType::Unset)
        }),
{
    reveal_strlit("history");
    reveal_strlit("scxml");
    reveal_strlit("state");
    reveal_strlit("parallel");
    reveal_strlit("final");
    assert("history"@ != "scxml"@ && "history"@ != "state"@ && "history"@ != "parallel"@ && "history"@ != "final"@) by {
        assert("history"@[0] != "scxml"@[0]);
        assert("history"@[0] != "state"@[0]);
        assert("history"@[0] != "parallel"@[0]);
        assert("history"@[0] != "final"@[0]);
    }
    lemma_state_with_attributes_len(v, attrs, false, 0);
    let v1 = model_after_start(v, parent_tag, "history"@, attrs)->Ok_0;
    let (va, sid) = state_with_attributes(v, attrs, false, 0)->Some_0;
    assert(current(v1) == sid);
    if let Some(t) = attr_value(attrs, "type"@) {
        if t.len() == 0 {
            assert(!spells_word(t, seq!['d', 'e', 'e', 'p']));
            assert(!spells_word(t, seq!['s', 'h', 'a', 'l', 'l', 'o', 'w']));
        }
        if spells_word(t, seq!['s', 'h', 'a', 'l', 'l', 'o', 'w']) {
            assert(!spells_word(t, seq!['d', 'e', 'e', 'p']));
        }
    }
}

/// Every element that the builder opens is closed by its end: after the start of an
/// element and its end, the same elements are open as before, so the current state is
/// again that of the enclosing element.
pub proof fn lemma_end_closes_start(
    v: BuilderView,
    parent_tag: Seq<char>,
    name: Seq<char>,
    attrs: Seq<(Seq<char>, Seq<char>)>,
)
    requires
        model_after_start(v, parent_tag, name, attrs) is Ok,
    ensures
        model_after_end(model_after_start(v, parent_tag, name, attrs)->Ok_0).stack == v.stack,
        current(model_after_end(model_after_start(v, parent_tag, name, attrs)->Ok_0)) == current(v),
{
    let v1 = model_after_start(v, parent_tag, name, attrs)->Ok_0;
    assert(v1.stack.len() > 0);
    assert(v1.stack.drop_last() =~= v.stack);
}

/// The builder holds what it can work on: the states on the stack exist.
pub open spec fn builder_ok(v: BuilderView) -> bool {
    &&& v.m.states.len() <= limit()
    &&& v.m.transitions.len() <= limit()
    &&& v.ids < limit()
    &&& v.docs < limit()
    &&& forall|k: int| 0 <= k < v.stack.len() ==> #[trigger] v.stack[k] <= v.m.states.len()
}

// ---------------------------------------------------------------------------
// The builder.
// ---------------------------------------------------------------------------

/// The models of states follow an update of one state.
proof fn lemma_states_update(s: Seq<State>, i: int, x: State)
    requires
        0 <= i < s.len(),
    ensures
        s.update(i, x).map_values(|t: State| state_model(t)) == s.map_values(|t: State| state_model(t)).update(
            i,
            state_model(x),
        ),
{
    assert(s.update(i, x).map_values(|t: State| state_model(t)) =~= s.map_values(|t: State| state_model(t)).update(
        i,
        state_model(x),
    ));
}

/// The models of states follow a push.
proof fn lemma_states_push(s: Seq<State>, x: State)
    ensures
        s.push(x).map_values(|t: State| state_model(t)) == s.map_values(|t: State| state_model(t)).push(state_model(x)),
{
    assert(s.push(x).map_values(|t: State| state_model(t)) =~= s.map_values(|t: State| state_model(t)).push(state_model(x)));
}

/// The models of transitions follow a push.
proof fn lemma_transitions_push(s: Seq<Transition>, x: Transition)
    ensures
        s.push(x).map_values(|t: Transition| transition_model(t)) == s.map_values(|t: Transition| transition_model(t)).push(
            transition_model(x),
        ),
{
    assert(s.push(x).map_values(|t: Transition| transition_model(t)) =~= s.map_values(|t: Transition| transition_model(t)).push(
        transition_model(x),
    ));
}

/// Whether `v` holds `x`.
fn has_id(v: &Vec<u32>, x: u32) -> (r: bool)
    ensures
        r == v@.contains(x),
{
    let mut i: usize = 0;
    while i < v.len()
        invariant
            i <= v@.len(),
            forall|j: int| 0 <= j < i ==> v@[j] != x,
        decreases v@.len() - i,
    {
        if v[i] == x {
            assert(v@[i as int] == x);
            return true;
        }
        i = i + 1;
    }
    false
}

/// The state machine model as the reader builds it.
pub struct ModelBuilder {
    pub fsm: Fsm,
    /// The state of each open element.
    pub stack: Vec<u32>,
    /// The number of names generated.
    pub ids: u32,
    /// The last document id given.
    pub docs: u32,
}

impl ModelBuilder {
    /// What the builder holds.
    pub open spec fn view_of(&self) -> BuilderView {
        BuilderView { m: fsm_model(self.fsm), stack: self.stack@, ids: self.ids as nat, docs: self.docs as nat }
    }

    /// A builder at the start of a document: no state, no transition.
    pub fn new() -> (r: ModelBuilder)
        ensures
            r.view_of() == initial_builder(),
            builder_ok(r.view_of()),
    {
        let r = ModelBuilder {
            fsm: Fsm { pseudo_root: 0, states: Vec::new(), transitions: Vec::new() },
            stack: Vec::new(),
            ids: 0,
            docs: 0,
        };
        assert(r.view_of().m.states =~= Seq::<StateModel>::empty());
        assert(r.view_of().m.transitions =~= Seq::<TransitionModel>::empty());
        r
    }

    /// Replaces the state at index `i` by `x`.
    fn set_state_at(&mut self, i: usize, x: State)
        requires
            i < old(self).fsm.states@.len(),
        ensures
            final(self).view_of() == (BuilderView { m: set_state(old(self).view_of().m, i as int, state_model(x)), ..old(self).view_of() }),
            final(self).fsm.states@ == old(self).fsm.states@.update(i as int, x),
    {
        let ghost s0 = self.fsm.states@;
        self.fsm.states.remove(i);
        self.fsm.states.insert(i, x);
        assert(self.fsm.states@ =~= s0.update(i as int, x));
        proof {
            lemma_states_update(s0, i as int, x);
        }
    }

    /// The index of the first state named `name`.
    fn find(&self, name: &str) -> (r: Option<usize>)
        ensures
            match r {
                Some(i) => find_state(self.view_of().m.states, name@) == Some(i as int),
                None => find_state(self.view_of().m.states, name@) is None,
            },
    {
        let ghost ms = self.view_of().m.states;
        let mut i: usize = 0;
        while i < self.fsm.states.len()
            invariant
                i <= self.fsm.states@.len(),
                ms == self.fsm.states@.map_values(|t: State| state_model(t)),
                forall|j: int| 0 <= j < i ==> ms[j].name != name@,
            decreases self.fsm.states@.len() - i,
        {
            if same_text(self.fsm.states[i].name.as_str(), name) {
                assert(is_first(ms, name@, i as int));
                let ghost c = choose|k: int| is_first(ms, name@, k);
                assert(c == i) by {
                    if c < i {
                        assert(ms[c].name != name@);
                    } else if c > i {
                        assert(ms[i as int].name != name@);
                    }
                }
                return Some(i);
            }
            i = i + 1;
        }
        assert(!exists|k: int| is_first(ms, name@, k));
        None
    }

    /// The state named `name` (see `state_for`).
    fn state_for(&mut self, name: String, parallel: bool) -> (r: Option<u32>)
        requires
            old(self).fsm.states@.len() <= limit(),
        ensures
            match r {
                Some(id) => state_for(old(self).view_of().m, name@, parallel) == Some((final(self).view_of().m, id)),
                None => state_for(old(self).view_of().m, name@, parallel) is None,
            },
            final(self).stack == old(self).stack,
            final(self).ids == old(self).ids,
            final(self).docs == old(self).docs,
            final(self).fsm.states@.len() <= limit(),
            final(self).fsm.states@.len() >= old(self).fsm.states@.len(),
            final(self).fsm.transitions == old(self).fsm.transitions,
            r matches Some(id) ==> 1 <= id <= final(self).fsm.states@.len(),
    {
        match self.find(name.as_str()) {
            Some(i) => {
                if parallel {
                    let mut st = self.fsm.states.remove(i);
                    let ghost before = st;
                    st.is_parallel = true;
                    let ghost s0 = self.fsm.states@;
                    self.fsm.states.insert(i, st);
                    proof {
                        let orig = s0.insert(i as int, before);
                        assert(self.fsm.states@ =~= orig.update(i as int, st));
                        lemma_states_update(orig, i as int, st);
                        assert(orig =~= old(self).fsm.states@);
                    }
                }
                Some((i + 1) as u32)
            },
            None => {
                if self.fsm.states.len() >= 0x7fff_ffff {
                    return None;
                }
                let id = (self.fsm.states.len() + 1) as u32;
                let mut st = State::new(&name);
                st.id = id;
                st.is_parallel = parallel;
                proof {
                    lemma_states_push(self.fsm.states@, st);
                    assert(state_model(st) =~= new_state(id, name@, parallel)) by {
                        assert(st.states@ =~= Seq::<u32>::empty());
                        assert(st.onentry@ =~= Seq::<u32>::empty());
                        assert(st.onexit@ =~= Seq::<u32>::empty());
                        assert(st.transitions@ =~= Seq::<u32>::empty());
                        assert(st.history@ =~= Seq::<u32>::empty());
                        assert(st.invoke@.map_values(|i: crate::fsm::Invoke| crate::fsm_serializer::invoke_model(i)) =~= Seq::<crate::fsm_serializer::InvokeModel>::empty());
                    }
                }
                self.fsm.states.push(st);
                Some(id)
            },
        }
    }

    /// The states named `names` (see `states_for`).
    fn states_for(&mut self, names: &Vec<String>) -> (r: Option<Vec<u32>>)
        requires
            old(self).fsm.states@.len() <= limit(),
        ensures
            match r {
                Some(ids) => states_for(old(self).view_of().m, texts_of(names@)) == Some((final(self).view_of().m, ids@)),
                None => states_for(old(self).view_of().m, texts_of(names@)) is None,
            },
            final(self).stack == old(self).stack,
            final(self).ids == old(self).ids,
            final(self).docs == old(self).docs,
            final(self).fsm.states@.len() <= limit(),
            final(self).fsm.states@.len() >= old(self).fsm.states@.len(),
            final(self).fsm.transitions == old(self).fsm.transitions,
            r matches Some(ids) ==> forall|k: int| 0 <= k < ids@.len() ==> 1 <= #[trigger] ids@[k] <= final(self).fsm.states@.len(),
    {
        let ghost all = texts_of(names@);
        let ghost total = states_for(self.view_of().m, all);
        assert(total == states_for(old(self).view_of().m, all));
        let mut ids: Vec<u32> = Vec::new();
        let mut i: usize = 0;
        assert(all.skip(0) =~= all);
        while i < names.len()
            invariant
                all == texts_of(names@),
                total == states_for(old(self).view_of().m, all),
                i <= names@.len(),
                self.fsm.states@.len() <= limit(),
                self.fsm.states@.len() >= old(self).fsm.states@.len(),
                self.fsm.transitions == old(self).fsm.transitions,
                self.stack == old(self).stack,
                self.ids == old(self).ids,
                self.docs == old(self).docs,
                forall|k: int| 0 <= k < ids@.len() ==> 1 <= #[trigger] ids@[k] <= self.fsm.states@.len(),
                total == match states_for(self.view_of().m, all.skip(i as int)) {
                    None => None,
                    Some((m2, rest)) => Some((m2, ids@ + rest)),
                },
            decreases names@.len() - i,
        {
            let ghost m0 = self.view_of().m;
            let ghost rest = all.skip(i as int);
            assert(rest[0] == names@[i as int]@);
            assert(rest.drop_first() =~= all.skip(i + 1));
            match self.state_for(names[i].clone(), false) {
                None => {
                    assert(states_for(m0, rest) is None);
                    return None;
                },
                Some(id) => {
                    proof {
                        match states_for(self.view_of().m, all.skip(i + 1)) {
                            None => {},
                            Some((m2, r2)) => {
                                assert(ids@.push(id) + r2 =~= ids@ + (seq![id] + r2));
                            },
                        }
                    }
                    ids.push(id);
                },
            }
            i = i + 1;
        }
        assert(all.skip(names@.len() as int) =~= Seq::<Seq<char>>::empty());
        assert(ids@ + Seq::<u32>::empty() =~= ids@);
        Some(ids)
    }
}

impl ModelBuilder {
    /// The name of a state element (see `state_name`).
    fn name_of(attrs: &Vec<(String, String)>, ids: u32) -> (r: (String, u32))
        requires
            ids < limit(),
        ensures
            (r.0@, r.1 as nat) == state_name(attr_texts(attrs@), ids as nat),
    {
        match ReaderState::attribute(attrs, "id") {
            Some(n) => (n, ids),
            None => {
                let mut g = String::from_str("__id");
                let num = i64_to_string((ids + 1) as i64);
                g.append(num.as_str());
                proof {
                    reveal_strlit("__id");
                }
                (g, ids + 1)
            },
        }
    }

    /// The initial transition of the state `sid` (see `initial_of`).
    fn initial_transition(&mut self, attrs: &Vec<(String, String)>, sid: u32) -> (r: Option<(u32, u32)>)
        requires
            builder_ok(old(self).view_of()),
            old(self).docs + 2 < limit(),
            1 <= sid <= old(self).fsm.states@.len(),
        ensures
            match r {
                Some((tid, docs)) => initial_of(old(self).view_of().m, attr_texts(attrs@), sid, old(self).docs as nat)
                    == Some((final(self).view_of().m, docs as nat, tid)),
                None => initial_of(old(self).view_of().m, attr_texts(attrs@), sid, old(self).docs as nat) is None,
            },
            final(self).stack == old(self).stack,
            final(self).ids == old(self).ids,
            final(self).docs == old(self).docs,
            final(self).fsm.states@.len() <= limit(),
            final(self).fsm.states@.len() >= old(self).fsm.states@.len(),
            final(self).fsm.transitions@.len() <= limit(),
            r matches Some((tid, docs)) ==> docs <= old(self).docs + 1,
    {
        match ReaderState::attribute(attrs, "initial") {
            None => Some((0, self.docs)),
            Some(refs) => {
                let names = split_ascii_words(refs.as_str());
                let targets = match self.states_for(&names) {
                    None => {
                        return None;
                    },
                    Some(t) => t,
                };
                if self.fsm.transitions.len() >= 0x7fff_ffff {
                    return None;
                }
                let tid = (self.fsm.transitions.len() + 1) as u32;
                let docs = self.docs + 1;
                let t = Transition {
                    id: tid,
                    doc_id: docs,
                    events: Vec::new(),
                    cond: None,
                    source: sid,
                    target: targets,
                    transition_type: TransitionType::Internal,
                    content: 0,
                };
                proof {
                    lemma_transitions_push(self.fsm.transitions@, t);
                    assert(t.events@.map_values(|e: String| e@) =~= Seq::<Seq<char>>::empty());
                }
                self.fsm.transitions.push(t);
                Some((tid, docs))
            },
        }
    }

    /// Places the state `sid` (see `placed`).
    fn place(&mut self, sid: u32, tid: u32, docs: u32, parent: u32)
        requires
            1 <= sid <= old(self).fsm.states@.len(),
            parent <= old(self).fsm.states@.len(),
            docs + 1 < limit(),
        ensures
            final(self).view_of().m == placed(old(self).view_of().m, sid, tid, docs as nat, parent),
            final(self).fsm.states@.len() == old(self).fsm.states@.len(),
            final(self).fsm.transitions@.len() == old(self).fsm.transitions@.len(),
            final(self).stack == old(self).stack,
            final(self).ids == old(self).ids,
            final(self).docs == old(self).docs,
    {
        let si = (sid - 1) as usize;
        let ghost s3 = self.fsm.states@;
        let mut st = self.fsm.states.remove(si);
        if tid != 0 {
            st.initial = tid;
        }
        st.doc_id = docs + 1;
        if parent != 0 {
            st.parent = parent;
        }
        self.fsm.states.insert(si, st);
        proof {
            assert(self.fsm.states@ =~= s3.update(si as int, st));
            lemma_states_update(s3, si as int, st);
        }
        if parent != 0 {
            let pi = (parent - 1) as usize;
            if !has_id(&self.fsm.states[pi].states, sid) {
                let ghost s4 = self.fsm.states@;
                let mut ps = self.fsm.states.remove(pi);
                ps.states.push(sid);
                self.fsm.states.insert(pi, ps);
                proof {
                    assert(self.fsm.states@ =~= s4.update(pi as int, ps));
                    lemma_states_update(s4, pi as int, ps);
                }
            }
        }
    }

    /// The state of a state element (see `state_with_attributes`).
    fn state_with_attributes(&mut self, attrs: &Vec<(String, String)>, parallel: bool, parent: u32) -> (r: Option<u32>)
        requires
            builder_ok(old(self).view_of()),
            parent <= old(self).fsm.states@.len(),
        ensures
            match r {
                Some(sid) => state_with_attributes(old(self).view_of(), attr_texts(attrs@), parallel, parent)
                    == Some((final(self).view_of(), sid)),
                None => state_with_attributes(old(self).view_of(), attr_texts(attrs@), parallel, parent) is None,
            },
            r matches Some(sid) ==> builder_ok(final(self).view_of()) && 1 <= sid <= final(self).fsm.states@.len(),
    {
        let (name, ids1) = Self::name_of(attrs, self.ids);
        if ids1 >= 0x7fff_ffff || self.docs + 2 >= 0x7fff_ffff {
            return None;
        }
        let sid = match self.state_for(name, parallel) {
            None => {
                return None;
            },
            Some(x) => x,
        };
        let (tid, docs) = match self.initial_transition(attrs, sid) {
            None => {
                return None;
            },
            Some(x) => x,
        };
        self.place(sid, tid, docs, parent);
        self.ids = ids1;
        self.docs = docs + 1;
        Some(sid)
    }
}

impl ModelBuilder {
    /// The state of the innermost open element, 0 where there is none.
    fn current_state(&self) -> (r: u32)
        ensures
            r == current(self.view_of()),
    {
        if self.stack.len() == 0 {
            0
        } else {
            self.stack[self.stack.len() - 1]
        }
    }

    /// Marks the state `sid` as final.
    fn mark_final(&mut self, sid: u32)
        requires
            1 <= sid <= old(self).fsm.states@.len(),
        ensures
            final(self).view_of() == (BuilderView {
                m: set_state(
                    old(self).view_of().m,
                    sid - 1,
                    StateModel { is_final: true, ..old(self).view_of().m.states[sid - 1] },
                ),
                ..old(self).view_of()
            }),
            final(self).fsm.states@.len() == old(self).fsm.states@.len(),
            final(self).fsm.transitions@.len() == old(self).fsm.transitions@.len(),
    {
        let si = (sid - 1) as usize;
        let ghost s0 = self.fsm.states@;
        let mut st = self.fsm.states.remove(si);
        st.is_final = true;
        self.fsm.states.insert(si, st);
        proof {
            assert(self.fsm.states@ =~= s0.update(si as int, st));
            lemma_states_update(s0, si as int, st);
        }
    }

    /// A history state `sid` inside the state `cur`, of the type that `t` names.
    fn place_history(&mut self, sid: u32, cur: u32, t: &Option<String>)
        requires
            1 <= sid <= old(self).fsm.states@.len(),
            cur <= old(self).fsm.states@.len(),
        ensures
            ({
                let v1 = old(self).view_of();
                let m1 = if cur != 0 {
                    set_state(
                        v1.m,
                        cur - 1,
                        StateModel { history: v1.m.states[cur - 1].history.push(sid), ..v1.m.states[cur - 1] },
                    )
                } else {
                    v1.m
                };
                final(self).view_of() == (BuilderView {
                    m: set_state(
                        m1,
                        sid - 1,
                        StateModel {
                            parent: cur,
                            history_type: history_type_of(
                                match t {
                                    Some(x) => Some(x@),
                                    None => None,
                                },
                            ),
                            ..m1.states[sid - 1]
                        },
                    ),
                    ..v1
                })
            }),
            final(self).fsm.states@.len() == old(self).fsm.states@.len(),
            final(self).fsm.transitions@.len() == old(self).fsm.transitions@.len(),
    {
        if cur != 0 {
            let ci = (cur - 1) as usize;
            let ghost s0 = self.fsm.states@;
            let mut cs = self.fsm.states.remove(ci);
            cs.history.push(sid);
            self.fsm.states.insert(ci, cs);
            proof {
                assert(self.fsm.states@ =~= s0.update(ci as int, cs));
                lemma_states_update(s0, ci as int, cs);
            }
        }
        let history_type = match t {
            None => HistoryType::Shallow,
            Some(x) => {
                proof {
                    reveal_strlit("deep");
                    reveal_strlit("shallow");
                }
                if spells(x, "deep") {
                    HistoryType::Deep
                } else if spells(x, "shallow") {
                    HistoryType::Shallow
                } else {
                    HistoryType::Unset
                }
            },
        };
        let si = (sid - 1) as usize;
        let ghost s1 = self.fsm.states@;
        let mut st = self.fsm.states.remove(si);
        st.parent = cur;
        st.history_type = history_type;
        self.fsm.states.insert(si, st);
        proof {
            assert(self.fsm.states@ =~= s1.update(si as int, st));
            lemma_states_update(s1, si as int, st);
        }
    }

    /// A transition of the state `cur` made by a `<transition>` element (see
    /// `model_after_start`).
    #[verifier::spinoff_prover]
    #[verifier::rlimit(60)]
    fn add_transition_element(&mut self, parent_tag: &str, attrs: &Vec<(String, String)>, cur: u32) -> (r: Result<(), ReaderError>)
        requires
            builder_ok(old(self).view_of()),
            1 <= cur <= old(self).fsm.states@.len(),
            cur == current(old(self).view_of()),
        ensures
            match r {
                Ok(_) => model_after_start(old(self).view_of(), parent_tag@, "transition"@, attr_texts(attrs@))
                    == Ok::<BuilderView, ReaderIssue>(final(self).view_of()),
                Err(e) => model_after_start(old(self).view_of(), parent_tag@, "transition"@, attr_texts(attrs@))
                    == Err::<BuilderView, ReaderIssue>(e@),
            },
            r is Ok ==> builder_ok(final(self).view_of()),
    {
        proof {
            reveal_strlit("transition");
            reveal_strlit("scxml");
            reveal_strlit("state");
            reveal_strlit("parallel");
            reveal_strlit("final");
            reveal_strlit("history");
            reveal_strlit("initial");
            assert("transition"@[0] != "scxml"@[0]);
            assert("transition"@ != "state"@);
            assert("transition"@[0] != "parallel"@[0]);
            assert("transition"@[0] != "final"@[0]);
            assert("transition"@[0] != "history"@[0]);
            assert("transition"@[0] != "initial"@[0]);
        }
        if self.docs + 1 >= 0x7fff_ffff {
            return Err(ReaderError::TooLarge);
        }
        let names = match ReaderState::attribute(attrs, "target") {
            Some(t) => split_ascii_words(t.as_str()),
            None => Vec::new(),
        };
        assert(texts_of(names@) == match attr_value(attr_texts(attrs@), "target"@) {
            Some(t) => words(t, true),
            None => Seq::empty(),
        }) by {
            if attr_value(attr_texts(attrs@), "target"@) is None {
                assert(texts_of(names@) =~= Seq::<Seq<char>>::empty());
            }
        }
        let targets = match self.states_for(&names) {
            None => {
                return Err(ReaderError::TooLarge);
            },
            Some(t) => t,
        };
        if self.fsm.transitions.len() >= 0x7fff_ffff {
            return Err(ReaderError::TooLarge);
        }
        let tid = (self.fsm.transitions.len() + 1) as u32;
        let doc = self.docs + 1;
        let events = match ReaderState::attribute(attrs, "event") {
            Some(e) => split_words(e.as_str()),
            None => Vec::new(),
        };
        let transition_type = match ReaderState::attribute(attrs, "type") {
            Some(t) => {
                proof {
                    reveal_strlit("internal");
                }
                if spells(&t, "internal") {
                    TransitionType::Internal
                } else {
                    TransitionType::External
                }
            },
            None => TransitionType::External,
        };
        let cond = ReaderState::attribute(attrs, "cond");
        let t = Transition { id: tid, doc_id: doc, events, cond, source: cur, target: targets, transition_type, content: 0 };
        proof {
            lemma_transitions_push(self.fsm.transitions@, t);
            assert(transition_model(t) == transition_of(tid, doc, cur, t.target@, attr_texts(attrs@))) by {
                if attr_value(attr_texts(attrs@), "event"@) is None {
                    assert(t.events@.map_values(|e: String| e@) =~= Seq::<Seq<char>>::empty());
                } else {
                    assert(t.events@.map_values(|e: String| e@) =~= texts_of(t.events@));
                }
            }
        }
        self.fsm.transitions.push(t);
        let ci = (cur - 1) as usize;
        let ghost s0 = self.fsm.states@;
        if same_text(parent_tag, "initial") {
            if self.fsm.states[ci].initial > 0 {
                return Err(ReaderError::InitialTwice);
            }
            let mut st = self.fsm.states.remove(ci);
            st.initial = tid;
            self.fsm.states.insert(ci, st);
            proof {
                assert(self.fsm.states@ =~= s0.update(ci as int, st));
                lemma_states_update(s0, ci as int, st);
            }
        } else {
            let mut st = self.fsm.states.remove(ci);
            st.transitions.push(tid);
            self.fsm.states.insert(ci, st);
            proof {
                assert(self.fsm.states@ =~= s0.update(ci as int, st));
                lemma_states_update(s0, ci as int, st);
            }
        }
        self.docs = doc;
        self.stack.push(cur);
        Ok(())
    }
}


impl ModelBuilder {
    /// #Actual implementation:
    /// The start of the element `name` with the attributes `attrs`, inside an element
    /// with the tag `parent_tag` (see `model_after_start`): state elements make or
    /// complete their state, `<history>` makes a history state of its parent,
    /// `<initial>` opens the initial transition of its state, `<transition>` makes a
    /// transition; every element opens its state, or that of its parent.
    #[verifier::rlimit(40)]
    pub fn start_element(&mut self, parent_tag: &str, name: &str, attrs: &Vec<(String, String)>) -> (r: Result<(), ReaderError>)
        requires
            builder_ok(old(self).view_of()),
        ensures
            match r {
                Ok(_) => model_after_start(old(self).view_of(), parent_tag@, name@, attr_texts(attrs@))
                    == Ok::<BuilderView, ReaderIssue>(final(self).view_of()),
                Err(e) => model_after_start(old(self).view_of(), parent_tag@, name@, attr_texts(attrs@))
                    == Err::<BuilderView, ReaderIssue>(e@),
            },
            r is Ok ==> builder_ok(final(self).view_of()),
    {
        let cur = self.current_state();
        proof {
            reveal_strlit("scxml");
            reveal_strlit("state");
            reveal_strlit("parallel");
            reveal_strlit("final");
            reveal_strlit("history");
            reveal_strlit("initial");
            reveal_strlit("transition");
            if self.stack@.len() > 0 {
                assert(self.stack@[self.stack@.len() - 1] <= self.fsm.states@.len());
            }
        }
        let is_scxml = same_text(name, "scxml");
        let is_parallel = same_text(name, "parallel");
        let is_final = same_text(name, "final");
        if is_scxml || same_text(name, "state") || is_parallel || is_final {
            let parent = if is_scxml {
                0
            } else {
                cur
            };
            let sid = match self.state_with_attributes(attrs, is_parallel, parent) {
                None => {
                    return Err(ReaderError::TooLarge);
                },
                Some(s) => s,
            };
            if is_scxml {
                self.fsm.pseudo_root = sid;
            } else if is_final {
                self.mark_final(sid);
            }
            self.stack.push(sid);
            Ok(())
        } else if same_text(name, "history") {
            let t = ReaderState::attribute(attrs, "type");
            match &t {
                Some(x) => {
                    if !is_history_type(x) {
                        return Err(
                            ReaderError::NotSupported(String::from_str("history"), String::from_str("type")),
                        );
                    }
                },
                None => {},
            }
            let sid = match self.state_with_attributes(attrs, false, 0) {
                None => {
                    return Err(ReaderError::TooLarge);
                },
                Some(s) => s,
            };
            proof {
                if self.stack@.len() > 0 {
                    assert(self.stack@[self.stack@.len() - 1] <= self.fsm.states@.len());
                }
            }
            self.place_history(sid, cur, &t);
            self.stack.push(sid);
            Ok(())
        } else if same_text(name, "initial") {
            if cur == 0 {
                return Err(ReaderError::NoState);
            }
            if self.fsm.states[(cur - 1) as usize].initial > 0 {
                return Err(ReaderError::InitialTwice);
            }
            self.stack.push(cur);
            Ok(())
        } else if same_text(name, "transition") {
            if cur == 0 {
                return Err(ReaderError::NoState);
            }
            self.add_transition_element(parent_tag, attrs, cur)
        } else {
            self.stack.push(cur);
            Ok(())
        }
    }

    /// #Actual implementation:
    /// The end of an element: the enclosing element's state becomes current.
    pub fn end_element(&mut self)
        ensures
            final(self).view_of() == model_after_end(old(self).view_of()),
            builder_ok(old(self).view_of()) ==> builder_ok(final(self).view_of()),
    {
        if self.stack.len() > 0 {
            self.stack.pop();
        }
    }
}

} // verus!
