use workpool::efsm::{Regex, State};

#[test]
fn state_transitions_route_by_byte() {
    let mut s = State::new('a');
    s.add_transition('b', 5);
    assert_eq!(s.next_state('b'), 5);
    assert_eq!(s.next_state('x'), 0);
}

#[test]
fn nil_state_has_no_transitions() {
    let s = State::nil();
    assert_eq!(s.next_state('a'), 0);
}

#[test]
fn pattern_matches_inside_longer_input() {
    let mut regex = Regex::new();
    regex.parse("abi");
    assert!(regex.test("aabii"));
}

#[test]
fn pattern_matches_itself() {
    let mut regex = Regex::new();
    regex.parse("abi");
    assert!(regex.test("abi"));
}

#[test]
fn pattern_rejects_unrelated_input() {
    let mut regex = Regex::new();
    regex.parse("abi");
    assert!(!regex.test("xyz"));
    assert!(!regex.test("ab"));
    assert!(!regex.test(""));
}

#[test]
fn reset_retries_the_failing_character() {
    let mut regex = Regex::new();
    regex.parse("ab");
    // the scan falls back to the initial state on 'x', then resumes
    assert!(regex.test("axab"));
}

#[test]
fn empty_pattern_matches_everything() {
    let mut regex = Regex::new();
    regex.parse("");
    assert!(regex.test(""));
    assert!(regex.test("anything"));
}

#[test]
fn push_state_chains_states() {
    let mut regex = Regex::new();
    regex.push_state(State::new('q'));
    assert_eq!(regex.states.len(), 2);
    assert_eq!(regex.states[0].next_state('q'), 1);
}
