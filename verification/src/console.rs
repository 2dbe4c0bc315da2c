//! The commands of the interactive console: "tron <flag>" and "troff <flag>" control the
//! trace levels, "help" or an empty line asks for the usage, any other line is the name of
//! an event to send.

use vstd::prelude::*;
use vstd::string::*;
use vstd::utf8::{decode_utf8, encode_utf8, is_char_boundary};
use crate::fsm::{Event, EventType, spells_word};
use crate::tracer::{
    TraceMode, TraceRequest, mode_named, single_dot_at, trace_parts, trace_request,
    lemma_single_dot_unique,
};

verus! {

/// A line entered at the console.
#[derive(PartialEq, Eq, Debug)]
pub enum ConsoleCommand {
    /// Switch the trace flag on (`true`) or off (`false`).
    Trace(String, bool),
    /// Send the event with this name.
    Event(String),
    /// Print the usage.
    Help,
}

/// The text as `str::to_lowercase` gives it back.
pub uninterp spec fn lowercase_of(s: Seq<char>) -> Seq<char>;

/// `str::to_lowercase`: the lower case of the text, by the Unicode rules.
#[verifier::external_body]
fn to_lowercase(s: &str) -> (r: String)
    ensures
        r@ == lowercase_of(s@),
{
    s.to_lowercase()
}

/// The text `p` starts `t`.
pub open spec fn begins_with(t: Seq<char>, p: Seq<char>) -> bool {
    p.len() <= t.len() && t.take(p.len() as int) == p
}

/// The text after the first `n` bytes of the lower-case line, where `n` is a character
/// boundary.
pub open spec fn option_after(lc: Seq<char>, n: int) -> Seq<char> {
    let b = encode_utf8(lc);
    decode_utf8(b.subrange(n, b.len() as int))
}

/// What a console line asks for; `None` where the line cannot be cut after "tron " or
/// "troff " because a character of the lower-case line spans that byte.
pub open spec fn console_matches(line: Seq<char>, r: Option<ConsoleCommand>) -> bool {
    let lc = lowercase_of(line);
    let b = encode_utf8(lc);
    if begins_with(lc, seq!['t', 'r', 'o', 'n']) && encode_utf8(line).len() > 5 {
        if is_char_boundary(b, 5) {
            r matches Some(ConsoleCommand::Trace(o, true)) && o@ == option_after(lc, 5)
        } else {
            r is None
        }
    } else if begins_with(lc, seq!['t', 'r', 'o', 'f', 'f']) && b.len() > 6 {
        if is_char_boundary(b, 6) {
            r matches Some(ConsoleCommand::Trace(o, false)) && o@ == option_after(lc, 6)
        } else {
            r is None
        }
    } else if lc != seq!['h', 'e', 'l', 'p'] && line.len() > 0 {
        r matches Some(ConsoleCommand::Event(e)) && e@ == line
    } else {
        r == Some(ConsoleCommand::Help)
    }
}

/// Whether the text `t` starts with `p`.
fn text_begins_with(t: &str, p: &str) -> (r: bool)
    ensures
        r == begins_with(t@, p@),
{
    let n = p.unicode_len();
    if n > t.unicode_len() {
        return false;
    }
    let mut i: usize = 0;
    while i < n
        invariant
            n == p@.len(),
            n <= t@.len(),
            i <= n,
            forall|j: int| 0 <= j < i ==> t@[j] == p@[j],
        decreases n - i,
    {
        if t.get_char(i) != p.get_char(i) {
            assert(t@.take(n as int)[i as int] != p@[i as int]);
            return false;
        }
        i = i + 1;
    }
    assert(t@.take(n as int) =~= p@);
    true
}

/// Whether two texts are equal.
fn same_text(a: &str, b: &str) -> (r: bool)
    ensures
        r == (a@ == b@),
{
    let n = a.unicode_len();
    if n != b.unicode_len() {
        return false;
    }
    let mut i: usize = 0;
    while i < n
        invariant
            n == a@.len(),
            n == b@.len(),
            i <= n,
            forall|j: int| 0 <= j < i ==> a@[j] == b@[j],
        decreases n - i,
    {
        if a.get_char(i) != b.get_char(i) {
            return false;
        }
        i = i + 1;
    }
    assert(a@ =~= b@);
    true
}

/// The text of the lower-case line after its first `n` bytes.
fn cut_option(lc: &str, n: usize) -> (r: String)
    requires
        is_char_boundary(lc.spec_bytes(), n as int),
    ensures
        r@ == option_after(lc@, n as int),
{
    let (_, rest) = lc.split_at(n);
    proof {
        broadcast use vstd::utf8::encode_utf8_decode_utf8;
        assert(decode_utf8(encode_utf8(rest@)) == rest@);
    }
    String::from_str(rest)
}

/// Interprets a line entered at the console: "tron <flag>" and "troff <flag>" (in any
/// case) switch a trace flag, "help" and the empty line ask for the usage, any other line
/// is the name of an event. The flag is taken from the lower-case line after "tron " or
/// "troff "; where a character spans that cut, the line is refused with `None`.
pub fn console_command(line: &str) -> (r: Option<ConsoleCommand>)
    ensures
        console_matches(line@, r),
{
    proof {
        reveal_strlit("tron");
        reveal_strlit("troff");
        reveal_strlit("help");
        assert("tron"@ =~= seq!['t', 'r', 'o', 'n']);
        assert("troff"@ =~= seq!['t', 'r', 'o', 'f', 'f']);
        assert("help"@ =~= seq!['h', 'e', 'l', 'p']);
    }
    let lc = to_lowercase(line);
    let lcs = lc.as_str();
    if text_begins_with(lcs, "tron") && line.as_bytes().len() > 5 {
        if lcs.is_char_boundary(5) {
            Some(ConsoleCommand::Trace(cut_option(lcs, 5), true))
        } else {
            None
        }
    } else if text_begins_with(lcs, "troff") && lcs.as_bytes().len() > 6 {
        if lcs.is_char_boundary(6) {
            Some(ConsoleCommand::Trace(cut_option(lcs, 6), false))
        } else {
            None
        }
    } else if !same_text(lcs, "help") && !line.is_empty() {
        Some(ConsoleCommand::Event(String::from_str(line)))
    } else {
        Some(ConsoleCommand::Help)
    }
}

/// The name of the event that switches a trace flag: "trace.<flag>.on" or
/// "trace.<flag>.off".
pub open spec fn trace_event_name(flag: Seq<char>, enable: bool) -> Seq<char> {
    seq!['t', 'r', 'a', 'c', 'e', '.'] + flag + seq!['.'] + (if enable {
        seq!['o', 'n']
    } else {
        seq!['o', 'f', 'f']
    })
}

/// The event that switches the trace flag `opt` on or off, if `opt` names a trace mode (in
/// any letter case); `None` for an unknown flag, for which the usage of the flags is shown.
pub fn handle_trace(opt: &str, enable: bool) -> (r: Option<Event>)
    ensures
        match mode_named(opt@) {
            None => r is None,
            Some(_) => r matches Some(e) && e.name@ == trace_event_name(opt@, enable) && e.etype
                == EventType::platform && e.data is None,
        },
{
    match TraceMode::from_name(opt) {
        None => None,
        Some(_) => {
            let mut name = String::from_str("trace.");
            name.append(opt);
            name.append(".");
            if enable {
                name.append("on");
            } else {
                name.append("off");
            }
            proof {
                reveal_strlit("trace.");
                reveal_strlit(".");
                reveal_strlit("on");
                reveal_strlit("off");
                assert(name@ =~= trace_event_name(opt@, enable));
            }
            Some(
                Event {
                    name,
                    etype: EventType::platform,
                    sendid: 0,
                    origin: String::new(),
                    origintype: String::new(),
                    invokeid: 0,
                    data: None,
                },
            )
        },
    }
}

/// A word spelled by lower-case ASCII letters, in any case, has no '.'.
proof fn lemma_spelled_has_no_dot(s: Seq<char>, w: Seq<char>)
    requires
        spells_word(s, w),
        forall|i: int| 0 <= i < w.len() ==> 'a' <= #[trigger] w[i] <= 'z',
    ensures
        forall|i: int| 0 <= i < s.len() ==> #[trigger] s[i] != '.',
{
    assert forall|i: int| 0 <= i < s.len() implies #[trigger] s[i] != '.' by {
        assert('a' <= w[i] <= 'z');
    }
}

/// The name of a trace mode has no '.'.
proof fn lemma_mode_name_has_no_dot(opt: Seq<char>)
    requires
        mode_named(opt) is Some,
    ensures
        forall|i: int| 0 <= i < opt.len() ==> #[trigger] opt[i] != '.',
{
    let m = seq!['m', 'e', 't', 'h', 'o', 'd', 's'];
    let st = seq!['s', 't', 'a', 't', 'e', 's'];
    let ev = seq!['e', 'v', 'e', 'n', 't', 's'];
    let ar = seq!['a', 'r', 'g', 'u', 'm', 'e', 'n', 't', 's'];
    let re = seq!['r', 'e', 's', 'u', 'l', 't', 's'];
    let al = seq!['a', 'l', 'l'];
    assert forall|i: int| 0 <= i < m.len() implies 'a' <= #[trigger] m[i] <= 'z' by {}
    assert forall|i: int| 0 <= i < st.len() implies 'a' <= #[trigger] st[i] <= 'z' by {}
    assert forall|i: int| 0 <= i < ev.len() implies 'a' <= #[trigger] ev[i] <= 'z' by {}
    assert forall|i: int| 0 <= i < ar.len() implies 'a' <= #[trigger] ar[i] <= 'z' by {}
    assert forall|i: int| 0 <= i < re.len() implies 'a' <= #[trigger] re[i] <= 'z' by {}
    assert forall|i: int| 0 <= i < al.len() implies 'a' <= #[trigger] al[i] <= 'z' by {}
    if spells_word(opt, m) {
        lemma_spelled_has_no_dot(opt, m);
    } else if spells_word(opt, st) {
        lemma_spelled_has_no_dot(opt, st);
    } else if spells_word(opt, ev) {
        lemma_spelled_has_no_dot(opt, ev);
    } else if spells_word(opt, ar) {
        lemma_spelled_has_no_dot(opt, ar);
    } else if spells_word(opt, re) {
        lemma_spelled_has_no_dot(opt, re);
    } else {
        lemma_spelled_has_no_dot(opt, al);
    }
}

/// A trace command of the console reaches the tracer as what it asked for: the event of
/// `handle_trace` for a flag that names a mode is, to the tracer, the request to switch that
/// mode on or off.
#[verifier::spinoff_prover]
pub proof fn lemma_trace_command_request(opt: Seq<char>, enable: bool)
    requires
        mode_named(opt) is Some,
    ensures
        trace_request(trace_event_name(opt, enable)) == (if enable {
            TraceRequest::Enable(mode_named(opt)->0)
        } else {
            TraceRequest::Disable(mode_named(opt)->0)
        }),
{
    let flag = if enable {
        seq!['o', 'n']
    } else {
        seq!['o', 'f', 'f']
    };
    let name = trace_event_name(opt, enable);
    let rest = name.skip(6);
    assert(name.take(6) =~= seq!['t', 'r', 'a', 'c', 'e', '.']);
    assert(rest =~= opt + seq!['.'] + flag);
    lemma_mode_name_has_no_dot(opt);
    let j = opt.len() as int;
    assert forall|i: int| 0 <= i < rest.len() && i != j implies #[trigger] rest[i] != '.' by {
        if i < j {
            assert(rest[i] == opt[i]);
        } else {
            assert(rest[i] == flag[i - j - 1]);
        }
    }
    assert(single_dot_at(rest, j));
    lemma_single_dot_unique(rest, j);
    let c = choose|c: int| single_dot_at(rest, c);
    assert(c == j);
    assert(rest.take(j) =~= opt);
    assert(rest.skip(j + 1) =~= flag);
    assert(trace_parts(name) == Some((opt, flag)));
}

} // verus!
