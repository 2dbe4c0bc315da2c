//! Deciding whether a state machine is well formed: every relation names an existing
//! state or transition, and going up the parents from any state reaches the top.

use vstd::prelude::*;
use crate::fsm::Fsm;

verus! {

impl Fsm {
    /// Whether the states `ids` all exist.
    fn states_exist(&self, ids: &Vec<u32>) -> (r: bool)
        ensures
            r == forall|j: int| 0 <= j < ids@.len() ==> self.valid_state(#[trigger] ids@[j]),
    {
        let n = self.states.len();
        let mut j: usize = 0;
        while j < ids.len()
            invariant
                n == self.states@.len(),
                j <= ids@.len(),
                forall|k: int| 0 <= k < j ==> self.valid_state(#[trigger] ids@[k]),
            decreases ids@.len() - j,
        {
            if ids[j] < 1 || ids[j] as usize > n {
                return false;
            }
            j = j + 1;
        }
        true
    }

    /// Whether the transitions `ids` all exist.
    fn transitions_exist(&self, ids: &Vec<u32>) -> (r: bool)
        ensures
            r == forall|j: int| 0 <= j < ids@.len() ==> self.valid_transition(#[trigger] ids@[j]),
    {
        let n = self.transitions.len();
        let mut j: usize = 0;
        while j < ids.len()
            invariant
                n == self.transitions@.len(),
                j <= ids@.len(),
                forall|k: int| 0 <= k < j ==> self.valid_transition(#[trigger] ids@[k]),
            decreases ids@.len() - j,
        {
            if ids[j] < 1 || ids[j] as usize > n {
                return false;
            }
            j = j + 1;
        }
        true
    }

    /// Whether the children `ids` of the state `parent` all exist and name it as their
    /// parent.
    fn children_ok(&self, ids: &Vec<u32>, parent: u32) -> (r: bool)
        ensures
            r == forall|j: int|
                0 <= j < ids@.len() ==> self.valid_state(#[trigger] ids@[j]) && self.state(ids@[j]).parent
                    == parent,
    {
        let n = self.states.len();
        let mut j: usize = 0;
        while j < ids.len()
            invariant
                n == self.states@.len(),
                j <= ids@.len(),
                forall|k: int|
                    0 <= k < j ==> self.valid_state(#[trigger] ids@[k]) && self.state(ids@[k]).parent == parent,
            decreases ids@.len() - j,
        {
            let c = ids[j];
            if c < 1 || c as usize > n {
                return false;
            }
            if self.states[(c - 1) as usize].parent != parent {
                return false;
            }
            j = j + 1;
        }
        true
    }

    /// Whether the state at index `i` is well formed (`state_ok`).
    fn state_checks(&self, i: usize) -> (r: bool)
        requires
            i < self.states@.len(),
            self.states@.len() < u32::MAX,
        ensures
            r == self.state_ok(i as int),
    {
        let n = self.states.len();
        let s = &self.states[i];
        if s.id as usize != i + 1 {
            return false;
        }
        if s.parent != 0 && s.parent as usize > n {
            return false;
        }
        if s.initial != 0 && s.initial as usize > self.transitions.len() {
            return false;
        }
        self.children_ok(&s.states, s.id) && self.transitions_exist(&s.transitions) && self.states_exist(
            &s.history,
        )
    }

    /// Whether the transition at index `i` is well formed (`transition_ok`).
    fn transition_checks(&self, i: usize) -> (r: bool)
        requires
            i < self.transitions@.len(),
            self.transitions@.len() < u32::MAX,
        ensures
            r == self.transition_ok(i as int),
    {
        let t = &self.transitions[i];
        if t.id as usize != i + 1 {
            return false;
        }
        if t.source < 1 || t.source as usize > self.states.len() {
            return false;
        }
        self.states_exist(&t.target)
    }

    /// Whether going `self.states.len()` levels up from the state `s` reaches the top.
    fn reaches_top(&self, s: u32) -> (r: bool)
        requires
            self.states@.len() < u32::MAX,
            forall|i: int| 0 <= i < self.states@.len() ==> #[trigger] self.state_ok(i),
        ensures
            r == (self.anc(s, self.states@.len()) == 0),
    {
        let n = self.states.len();
        let mut p = s;
        let mut k: usize = 0;
        while k < n
            invariant
                n == self.states@.len(),
                k <= n,
                p == self.anc(s, k as nat),
                forall|i: int| 0 <= i < self.states@.len() ==> #[trigger] self.state_ok(i),
            decreases n - k,
        {
            if p >= 1 && (p as usize) <= n {
                p = self.states[(p - 1) as usize].parent;
            } else {
                p = 0;
            }
            k = k + 1;
        }
        p == 0
    }

    /// #Actual implementation:
    /// Whether the state machine is well formed (`wf`): the ids fit, every relation names
    /// an existing state or transition, and the parents form a forest.
    pub fn is_well_formed(&self) -> (r: bool)
        ensures
            r == self.wf(),
    {
        let n = self.states.len();
        if n >= 0xffff_ffff || self.transitions.len() >= 0xffff_ffff {
            return false;
        }
        if self.pseudo_root < 1 || self.pseudo_root as usize > n {
            return false;
        }
        let mut i: usize = 0;
        while i < n
            invariant
                n == self.states@.len(),
                n < u32::MAX,
                i <= n,
                forall|k: int| 0 <= k < i ==> #[trigger] self.state_ok(k),
            decreases n - i,
        {
            if !self.state_checks(i) {
                return false;
            }
            i = i + 1;
        }
        let m = self.transitions.len();
        let mut i: usize = 0;
        while i < m
            invariant
                m == self.transitions@.len(),
                m < u32::MAX,
                i <= m,
                forall|k: int| 0 <= k < i ==> #[trigger] self.transition_ok(k),
            decreases m - i,
        {
            if !self.transition_checks(i) {
                return false;
            }
            i = i + 1;
        }
        let mut s: usize = 1;
        while s <= n
            invariant
                n == self.states@.len(),
                n < u32::MAX,
                1 <= s <= n + 1,
                forall|k: int| 0 <= k < self.states@.len() ==> #[trigger] self.state_ok(k),
                forall|x: u32| 1 <= x < s ==> #[trigger] self.anc(x, n as nat) == 0,
            decreases n + 1 - s,
        {
            if !self.reaches_top(s as u32) {
                return false;
            }
            s = s + 1;
        }
        true
    }
}

} // verus!
