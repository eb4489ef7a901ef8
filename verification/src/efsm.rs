//! A small explicit-state matcher: a chain of states, one per pattern
//! character, walked over an input string. Each state maps input bytes to the
//! index of the next state; a missing transition falls back to the initial
//! state, which gets one more chance to consume the character.

use std::collections::HashMap;
use vstd::prelude::*;

verus! {

/// Index of the distinguished initial state.
pub const INIT_STATE_IDX: usize = 0;

enum Quantifier {
    ExactlyOnce(char),
}

/// Outcome markers for a failed transition lookup.
pub enum TsResult {
    NoTransition,
}

/// One state of the matcher: the character it stands for and its outgoing
/// transitions, keyed by input byte.
pub struct State {
    value: char,
    ts: HashMap<u8, usize>,
    quantifiers: Vec<Quantifier>,
}

impl State {
    /// The character this state stands for.
    pub closed spec fn symbol(self) -> char {
        self.value
    }

    /// The transition table: input byte to target state index.
    pub closed spec fn transitions(self) -> Map<u8, usize> {
        self.ts@
    }

    /// Where this state sends `input`: its transition for the input's byte,
    /// or the initial state when none exists.
    pub open spec fn next_spec(self, input: char) -> usize {
        if self.transitions().contains_key(input as u8) {
            self.transitions()[input as u8]
        } else {
            INIT_STATE_IDX
        }
    }

    /// The placeholder initial state: no symbol, no transitions.
    pub fn nil() -> (s: Self)
        ensures
            s.symbol() == '\0',
            s.transitions() == Map::<u8, usize>::empty(),
    {
        Self { value: 0u8 as char, ts: HashMap::new(), quantifiers: Vec::new() }
    }

    /// A state standing for the character `c`, with no transitions yet.
    pub fn new(c: char) -> (s: Self)
        ensures
            s.symbol() == c,
            s.transitions() == Map::<u8, usize>::empty(),
    {
        Self { value: c, ts: HashMap::new(), quantifiers: vec![Quantifier::ExactlyOnce(c)] }
    }

    /// Route the byte of `new_state_value` to the state at `new_state_idx`.
    pub fn add_transition(&mut self, new_state_value: char, new_state_idx: usize)
        ensures
            final(self).symbol() == old(self).symbol(),
            final(self).transitions() == old(self).transitions().insert(
                new_state_value as u8,
                new_state_idx,
            ),
    {
        self.ts.insert(new_state_value as u8, new_state_idx);
    }

    /// Look the byte of `input` up; fall back to the initial state.
    pub fn next_state(&self, input: char) -> (idx: usize)
        ensures
            idx == self.next_spec(input),
    {
        match self.ts.get(&(input as u8)) {
            Some(idx) => *idx,
            None => INIT_STATE_IDX,
        }
    }
}

/// The matcher: a vector of states. State 0 is the initial state; parsing a
/// pattern appends one state per character, chained in order.
pub struct Regex {
    pub states: Vec<State>,
}

/// The states appended for `pat` extend `pre` to `post`: the old states save
/// the last are untouched, every state keeps its symbol, the new states carry
/// the pattern's characters, and each state that precedes a new state points
/// at it through that state's symbol. The last appended state has no
/// transitions yet.
pub open spec fn extended_by(pre: Seq<State>, post: Seq<State>, pat: Seq<char>) -> bool {
    let n = pre.len() as int;
    &&& post.len() == pre.len() + pat.len()
    &&& (forall|i: int| 0 <= i < n - 1 ==> post[i] == pre[i])
    &&& (forall|i: int| 0 <= i < n ==> post[i].symbol() == pre[i].symbol())
    &&& (forall|k: int| 0 <= k < pat.len() ==> post[n + k].symbol() == pat[k])
    &&& (pat.len() == 0 ==> post == pre)
    &&& (pat.len() > 0 ==> post[n - 1].transitions() == pre[n - 1].transitions().insert(
        pat[0] as u8,
        n as usize,
    ))
    &&& (forall|k: int|
        1 <= k < pat.len() ==> post[n + k - 1].transitions() == Map::<u8, usize>::empty().insert(
            pat[k] as u8,
            (n + k) as usize,
        ))
    &&& (pat.len() > 0 ==> post.last().transitions() == Map::<u8, usize>::empty())
}

/// One step of the scan: where the matcher goes from `current` on `ch`. A
/// fallback to the initial state retries the character there.
pub open spec fn scan_step(states: Seq<State>, current: int, ch: char) -> int {
    let next = states[current].next_spec(ch) as int;
    if next == INIT_STATE_IDX {
        states[INIT_STATE_IDX as int].next_spec(ch) as int
    } else {
        next
    }
}

/// The scan of `input` starting at `current`: step through the characters in
/// order and stop as soon as the last state is reached.
pub open spec fn scan(states: Seq<State>, current: int, input: Seq<char>) -> int
    decreases input.len(),
{
    if input.len() == 0 {
        current
    } else {
        let next = scan_step(states, current, input.first());
        if next == states.len() - 1 {
            next
        } else {
            scan(states, next, input.drop_first())
        }
    }
}

impl Regex {
    /// The initial state exists and every transition target stays inside the
    /// state vector.
    pub open spec fn wf(self) -> bool {
        &&& self.states@.len() >= 1
        &&& forall|i: int, b: u8|
            0 <= i < self.states@.len() && #[trigger] self.states@[i].transitions().contains_key(b)
                ==> self.states@[i].transitions()[b] < self.states@.len()
    }

    /// A matcher holding only the initial state.
    pub fn new() -> (r: Self)
        ensures
            r.wf(),
            r.states@.len() == 1,
            r.states@[0].symbol() == '\0',
            r.states@[0].transitions() == Map::<u8, usize>::empty(),
    {
        Self { states: vec![State::nil()] }
    }

    /// Append `new_state` and point the previously last state at it through
    /// the new state's symbol.
    pub fn push_state(&mut self, new_state: State)
        requires
            old(self).states@.len() >= 1,
            old(self).states@.len() < usize::MAX,
        ensures
            final(self).states@.len() == old(self).states@.len() + 1,
            forall|i: int|
                0 <= i < old(self).states@.len() - 1 ==> final(self).states@[i] == old(self).states@[i],
            final(self).states@.last() == new_state,
            ({
                let p = old(self).states@.len() - 1;
                final(self).states@[p].symbol() == old(self).states@[p].symbol()
                    && final(self).states@[p].transitions() == old(self).states@[p].transitions().insert(
                    new_state.symbol() as u8,
                    old(self).states@.len() as usize,
                )
            }),
    {
        let new_state_idx = self.states.len();
        let new_state_value = new_state.value;
        let mut prev = self.states.pop().unwrap();
        prev.add_transition(new_state_value, new_state_idx);
        self.states.push(prev);
        self.states.push(new_state);
    }

    /// Append one state per character of `s`, chained in order.
    pub fn parse(&mut self, s: &str)
        requires
            old(self).states@.len() >= 1,
            old(self).states@.len() + s@.len() <= usize::MAX,
        ensures
            extended_by(old(self).states@, final(self).states@, s@),
            old(self).wf() ==> final(self).wf(),
    {
        let n = s.unicode_len();
        let mut i: usize = 0;
        while i < n
            invariant
                i <= n,
                n == s@.len(),
                old(self).states@.len() >= 1,
                old(self).states@.len() + n <= usize::MAX,
                self.states@.len() == old(self).states@.len() + i,
                extended_by(old(self).states@, self.states@, s@.take(i as int)),
                old(self).wf() ==> self.wf(),
            decreases n - i,
        {
            let ch = s.get_char(i);
            let ghost pre = self.states@;
            self.push_state(State::new(ch));
            proof {
                assert(s@.take(i + 1).drop_last() =~= s@.take(i as int));
                assert(s@.take(i + 1).last() == s@[i as int]);
                if old(self).wf() {
                    assert forall|j: int, b: u8|
                        0 <= j < self.states@.len() && #[trigger] self.states@[j].transitions().contains_key(b)
                    implies self.states@[j].transitions()[b] < self.states@.len() by {
                        if j < pre.len() - 1 {
                            assert(self.states@[j] == pre[j]);
                        } else if j == pre.len() - 1 {
                            assert(self.states@[j].transitions() == pre[j].transitions().insert(
                                s@[i as int] as u8,
                                pre.len() as usize,
                            ));
                        } else {
                            assert(self.states@[j].transitions() == Map::<u8, usize>::empty());
                        }
                    }
                }
            }
            i = i + 1;
        }
        proof {
            assert(s@.take(n as int) =~= s@);
        }
    }

    /// Scan `input` from the initial state, resetting on characters that
    /// have no transition, and report whether the last state was reached.
    pub fn test(&mut self, input: &str) -> (matched: bool)
        requires
            old(self).wf(),
        ensures
            *final(self) == *old(self),
            matched == (scan(old(self).states@, INIT_STATE_IDX as int, input@) == old(self).states@.len() - 1),
    {
        let mut current_idx: usize = INIT_STATE_IDX;
        let n = input.unicode_len();
        let mut i: usize = 0;
        proof {
            assert(input@.skip(0) =~= input@);
        }
        while i < n
            invariant_except_break
                i <= n,
                n == input@.len(),
                self.wf(),
                *self == *old(self),
                current_idx < self.states@.len(),
                scan(self.states@, current_idx as int, input@.skip(i as int)) == scan(
                    self.states@,
                    INIT_STATE_IDX as int,
                    input@,
                ),
            ensures
                *self == *old(self),
                current_idx < self.states@.len(),
                current_idx as int == scan(self.states@, INIT_STATE_IDX as int, input@),
            decreases n - i,
        {
            let ch = input.get_char(i);
            let ghost prev = current_idx as int;
            current_idx = self.states[current_idx].next_state(ch);
            if current_idx == INIT_STATE_IDX {
                current_idx = self.states[INIT_STATE_IDX].next_state(ch);
            }
            proof {
                assert(input@.skip(i as int).first() == input@[i as int]);
                assert(input@.skip(i as int).drop_first() =~= input@.skip(i + 1));
                assert(current_idx as int == scan_step(self.states@, prev, input@[i as int]));
            }
            if current_idx == self.states.len() - 1 {
                break ;
            }
            i = i + 1;
        }
        current_idx == self.states.len() - 1
    }
}

} // verus!
