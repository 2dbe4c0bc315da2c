//! The tracer of the test runs: it keeps the names of the active states, so that a test can
//! verify the final configuration of the state machine.

use vstd::prelude::*;
use vstd::string::*;
use crate::fsm::State;
use crate::tracer::{DefaultTracer, TraceMode};

verus! {

/// The texts of a sequence of strings.
pub open spec fn names_of(v: Seq<String>) -> Seq<Seq<char>> {
    v.map_values(|s: String| s@)
}

/// The texts joined with the separator between each two of them.
pub open spec fn joined(names: Seq<Seq<char>>, sep: char) -> Seq<char>
    decreases names.len(),
{
    if names.len() == 0 {
        Seq::empty()
    } else if names.len() == 1 {
        names[0]
    } else {
        joined(names.drop_last(), sep) + seq![sep] + names.last()
    }
}

/// The names kept are those of `from` other than `name`.
pub open spec fn kept_without(kept: Seq<Seq<char>>, from: Seq<Seq<char>>, name: Seq<char>) -> bool {
    forall|x: Seq<char>|
        #![trigger kept.contains(x)]
        #![trigger from.contains(x)]
        kept.contains(x) <==> (x != name && from.contains(x))
}

/// One more name looked at: it is kept when it differs from `name`.
proof fn lemma_keep_step(
    nb: Seq<Seq<char>>,
    nk: Seq<Seq<char>>,
    src: Seq<Seq<char>>,
    i: int,
    name: Seq<char>,
)
    requires
        0 <= i < src.len(),
        kept_without(nb, src.take(i), name),
        (src[i] != name && nk == nb.push(src[i])) || (src[i] == name && nk == nb),
    ensures
        kept_without(nk, src.take(i + 1), name),
{
    let t0 = src.take(i);
    let t1 = src.take(i + 1);
    assert forall|x: Seq<char>|
        #![trigger nk.contains(x)]
        #![trigger t1.contains(x)]
        nk.contains(x) <==> (x != name && t1.contains(x)) by {
        assert(nb.contains(x) <==> (x != name && t0.contains(x)));
        if t0.contains(x) {
            let k = choose|k: int| 0 <= k < t0.len() && #[trigger] t0[k] == x;
            assert(t1[k] == x);
        }
        if t1.contains(x) {
            let k = choose|k: int| 0 <= k < t1.len() && #[trigger] t1[k] == x;
            if k < i {
                assert(t0[k] == x);
            }
        }
        if nb.contains(x) {
            let k = choose|k: int| 0 <= k < nb.len() && #[trigger] nb[k] == x;
            assert(nk[k] == x);
        }
        if nk.contains(x) {
            let k = choose|k: int| 0 <= k < nk.len() && #[trigger] nk[k] == x;
            if k < nb.len() {
                assert(nb[k] == x);
            } else {
                assert(t1[i] == x);
            }
        }
        if x != name && x == src[i] {
            assert(nk[nb.len() as int] == x);
        }
    };
}

/// Whether the text `x` is one of `names`.
fn contains_name(names: &Vec<String>, x: &str) -> (r: bool)
    ensures
        r == names_of(names@).contains(x@),
{
    let mut i: usize = 0;
    while i < names.len()
        invariant
            i <= names@.len(),
            forall|j: int| 0 <= j < i ==> names@[j]@ != x@,
        decreases names@.len() - i,
    {
        if same_text(names[i].as_str(), x) {
            assert(names_of(names@)[i as int] == x@);
            return true;
        }
        i = i + 1;
    }
    proof {
        if names_of(names@).contains(x@) {
            let nn = names_of(names@);
            let k = choose|k: int| 0 <= k < nn.len() && #[trigger] nn[k] == x@;
            assert(names@[k]@ == x@);
        }
    }
    false
}

/// Whether two texts are equal.
fn same_text(a: &str, b: &str) -> (r: bool)
    ensures
        r == (a@ == b@),
{
    let n = a.unicode_len();
    if n != b.unicode_len() {
        return false;
    }
    let mut i: usize = 0;
    while i < n
        invariant
            n == a@.len(),
            n == b@.len(),
            i <= n,
            forall|j: int| 0 <= j < i ==> a@[j] == b@[j],
        decreases n - i,
    {
        if a.get_char(i) != b.get_char(i) {
            return false;
        }
        i = i + 1;
    }
    assert(a@ =~= b@);
    true
}

/// Trace implementation to protocol the current states.
/// Shall be used in test to verify the final FSM configuration.
pub struct TestTracer {
    /// The names of the states entered and not left since.
    pub current_config: Vec<String>,
    pub default_tracer: DefaultTracer,
}

impl TestTracer {
    /// The names of the active states.
    pub open spec fn config(&self) -> Set<Seq<char>> {
        names_of(self.current_config@).to_set()
    }

    /// A tracer with no active state and no trace mode.
    pub fn new() -> (r: TestTracer)
        ensures
            r.config() == Set::<Seq<char>>::empty(),
            r.default_tracer@ == Set::<TraceMode>::empty(),
    {
        let r = TestTracer { current_config: Vec::new(), default_tracer: DefaultTracer::new() };
        assert(r.config() =~= Set::<Seq<char>>::empty());
        r
    }

    /// The names of the active states.
    pub fn get_fsm_config(&self) -> (r: Vec<String>)
        ensures
            names_of(r@) == names_of(self.current_config@),
    {
        let mut r: Vec<String> = Vec::new();
        let mut i: usize = 0;
        while i < self.current_config.len()
            invariant
                i <= self.current_config@.len(),
                names_of(r@) == names_of(self.current_config@.take(i as int)),
            decreases self.current_config@.len() - i,
        {
            let ghost before = r@;
            let s = self.current_config[i].clone();
            r.push(s);
            proof {
                let c = self.current_config@;
                assert(c.take(i + 1) =~= c.take(i as int).push(c[i as int]));
                assert(names_of(c.take(i + 1)) =~= names_of(c.take(i as int)).push(c[i as int]@));
                assert(names_of(r@) =~= names_of(before).push(c[i as int]@));
            }
            i = i + 1;
        }
        assert(self.current_config@.take(i as int) =~= self.current_config@);
        r
    }

    /// Records that the state `s` became active.
    pub fn trace_enter_state(&mut self, s: &State)
        ensures
            final(self).config() == old(self).config().insert(s.name@),
            final(self).default_tracer == old(self).default_tracer,
    {
        if !contains_name(&self.current_config, s.name.as_str()) {
            let name = s.name.clone();
            self.current_config.push(name);
            let ghost before = names_of(old(self).current_config@);
            let ghost after = names_of(self.current_config@);
            assert(after =~= before.push(s.name@));
            assert forall|x: Seq<char>| after.contains(x) <==> (before.contains(x) || x == s.name@) by {
                if after.contains(x) {
                    let k = choose|k: int| 0 <= k < after.len() && #[trigger] after[k] == x;
                    if k < before.len() {
                        assert(before[k] == x);
                    }
                }
                if before.contains(x) {
                    let k = choose|k: int| 0 <= k < before.len() && #[trigger] before[k] == x;
                    assert(after[k] == x);
                }
                if x == s.name@ {
                    assert(after[before.len() as int] == x);
                }
            };
            assert(self.config() =~= old(self).config().insert(s.name@));
        } else {
            assert(self.config() =~= old(self).config().insert(s.name@));
        }
    }

    /// Records that the state `s` is no longer active.
    pub fn trace_exit_state(&mut self, s: &State)
        ensures
            final(self).config() == old(self).config().remove(s.name@),
            final(self).default_tracer == old(self).default_tracer,
    {
        let ghost old_names = names_of(self.current_config@);
        let mut kept: Vec<String> = Vec::new();
        let mut i: usize = 0;
        while i < self.current_config.len()
            invariant
                i <= self.current_config@.len(),
                old_names == names_of(self.current_config@),
                kept_without(names_of(kept@), old_names.take(i as int), s.name@),
            decreases self.current_config@.len() - i,
        {
            let ghost before = kept@;
            if !same_text(self.current_config[i].as_str(), s.name.as_str()) {
                let n = self.current_config[i].clone();
                kept.push(n);
            }
            proof {
                assert(old_names[i as int] == self.current_config@[i as int]@);
                if kept@.len() > before.len() {
                    assert(names_of(kept@) =~= names_of(before).push(old_names[i as int]));
                } else {
                    assert(names_of(kept@) =~= names_of(before));
                }
                lemma_keep_step(names_of(before), names_of(kept@), old_names, i as int, s.name@);
            }
            let ghost t_next = old_names.take(i + 1);
            i = i + 1;
            assert(old_names.take(i as int) == t_next);
        }
        assert(old_names.take(i as int) =~= old_names);
        self.current_config = kept;
        assert(self.config() =~= old(self).config().remove(s.name@));
    }

    /// Verifies that the configuration contains a number of expected states
    ///
    /// + expected_states - List of expected states, the FSM configuration must contain all of them.
    /// + fsm_config - The final FSM configuration to verify. May contain more than the required states.
    ///
    /// Returns the expected names joined by ",", or the first one that is missing.
    pub fn verify_final_configuration(expected_states: &Vec<String>, fsm_config: &Vec<String>) -> (r:
        Result<String, String>)
        ensures
            (r is Ok) <==> (forall|i: int|
                0 <= i < expected_states@.len() ==> names_of(fsm_config@).contains(
                    #[trigger] expected_states@[i]@,
                )),
            r matches Ok(s) ==> s@ == joined(names_of(expected_states@), ','),
            r matches Err(e) ==> exists|i: int|
                0 <= i < expected_states@.len() && e@ == expected_states@[i]@ && !names_of(
                    fsm_config@,
                ).contains(expected_states@[i]@) && forall|j: int|
                    0 <= j < i ==> names_of(fsm_config@).contains(#[trigger] expected_states@[j]@),
    {
        let mut i: usize = 0;
        while i < expected_states.len()
            invariant
                i <= expected_states@.len(),
                forall|j: int|
                    0 <= j < i ==> names_of(fsm_config@).contains(#[trigger] expected_states@[j]@),
            decreases expected_states@.len() - i,
        {
            if !contains_name(fsm_config, expected_states[i].as_str()) {
                return Err(expected_states[i].clone());
            }
            i = i + 1;
        }
        let mut joined_text = String::new();
        let ghost names = names_of(expected_states@);
        let mut k: usize = 0;
        while k < expected_states.len()
            invariant
                k <= expected_states@.len(),
                names == names_of(expected_states@),
                joined_text@ == joined(names.take(k as int), ','),
            decreases expected_states@.len() - k,
        {
            proof {
                reveal_strlit(",");
                assert(names.take(k + 1).drop_last() =~= names.take(k as int));
                assert(names.take(k + 1).last() == expected_states@[k as int]@);
                if k == 0 {
                    assert(names.take(k as int) =~= Seq::<Seq<char>>::empty());
                }
            }
            if k > 0 {
                joined_text.append(",");
            }
            joined_text.append(expected_states[k].as_str());
            k = k + 1;
        }
        assert(names.take(k as int) =~= names);
        Ok(joined_text)
    }

    /// Switches the trace mode on.
    pub fn enable_trace(&mut self, flag: TraceMode)
        ensures
            final(self).default_tracer@ == old(self).default_tracer@.insert(flag),
            final(self).current_config == old(self).current_config,
    {
        self.default_tracer.enable_trace(flag);
    }

    /// Switches the trace mode off.
    pub fn disable_trace(&mut self, flag: TraceMode)
        ensures
            final(self).default_tracer@ == old(self).default_tracer@.remove(flag),
            final(self).current_config == old(self).current_config,
    {
        self.default_tracer.disable_trace(flag);
    }

    /// Whether the mode, or all, is enabled.
    pub fn is_trace(&self, flag: TraceMode) -> (r: bool)
        ensures
            r == (self.default_tracer@.contains(flag) || self.default_tracer@.contains(
                TraceMode::ALL,
            )),
    {
        self.default_tracer.is_trace(flag)
    }
}

} // verus!
