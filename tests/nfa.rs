use automata::NFA;
use std::collections::HashSet;

#[test]
fn smoke() {
    let mut nfa = NFA::new();

    nfa.add_transition(1, "a", 1);

    nfa.add_transition(1, "a", 4);
    nfa.add_transition(4, "a", 4);
    nfa.add_transition(4, "b", 4);

    nfa.add_transition(1, "b", 2);
    nfa.add_transition(2, "b", 3);

    let input = &["a", "a", "a", "b"];
    let expected_result = {
        let mut set = HashSet::new();
        set.insert(2);
        set.insert(4);
        set
    };

    assert_eq!(nfa.simulate(1, input), expected_result);
}

#[test]
fn inaccessible() {
    let mut nfa = NFA::new();

    nfa.add_transition(1, "b", 2);

    let input = &["a", "a", "a", "b", "a"];
    let expected_result = HashSet::new();

    assert_eq!(nfa.simulate(1, input), expected_result);
}

#[test]
fn empty_word_stays_at_start() {
    let mut nfa = NFA::new();
    nfa.add_transition(1, "a", 2);
    let expected: HashSet<u64> = [7].into_iter().collect();
    assert_eq!(nfa.simulate(7, &[]), expected);
}

#[test]
fn duplicate_moves_reach_each_state_once() {
    let mut nfa = NFA::new();
    nfa.add_transition(1, "x", 2);
    nfa.add_transition(1, "x", 2);
    nfa.add_transition(1, "x", 3);
    nfa.add_transition(3, "y", 2);
    let expected: HashSet<u64> = [2, 3].into_iter().collect();
    assert_eq!(nfa.simulate(1, &["x"]), expected);
    let expected: HashSet<u64> = [2].into_iter().collect();
    assert_eq!(nfa.simulate(1, &["x", "y"]), expected);
}
