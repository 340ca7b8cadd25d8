use automata::{add_default_states, simulate, State, StateAllocator, DFA};
use std::collections::HashSet;

fn as_sets(r: Vec<(String, Vec<String>)>) -> Vec<(String, HashSet<String>)> {
    r.into_iter()
        .map(|(text, names)| (text, names.into_iter().collect()))
        .collect()
}

fn expect(items: &[(&str, &[&str])]) -> Vec<(String, HashSet<String>)> {
    items
        .iter()
        .map(|(text, names)| (text.to_string(), names.iter().map(|n| n.to_string()).collect()))
        .collect()
}

fn run_test(regexps: &[(&str, &str)], input: &str) -> Vec<(String, HashSet<String>)> {
    as_sets(simulate(regexps, input))
}

const KEYWORDS: &[&str] = &["ID", "FOR", "IF", "WHILE"];

#[test]
fn sim1() {
    let regexes_with_tokens: &[(&str, &str)] =
        &[("abc", "ABC"), ("<", "SMALLER"), ("<<", "DOUBLE SMALLER")];
    let got = run_test(regexes_with_tokens, "abc<<dd");
    assert_eq!(
        got,
        expect(&[
            ("abc", &["ID", "ABC"]),
            ("<<", &["DOUBLE SMALLER"]),
            ("dd", &["ID", "ABC"]),
        ])
    );
}

#[test]
fn sim2() {
    let regexes_with_tokens: &[(&str, &str)] = &[("<", "SMALLER")];
    let got = run_test(regexes_with_tokens, "<<<<<");
    let smaller: &[&str] = &["SMALLER"];
    assert_eq!(got, expect(&[("<", smaller); 5]));
}

#[test]
fn sim3() {
    let regexes_with_tokens: &[(&str, &str)] = &[
        ("for", "FOR"),
        ("if", "IF"),
        ("while", "WHILE"),
        (";", "SEMICOLON"),
        ("<", "SMALLER"),
        ("+", "PLUS"),
        ("++", "PLUSPLUS"),
        ("(", "ROUND_BRACE_OPEN"),
        (")", "ROUND_BRACE_CLOSE"),
        ("{", "CURLY_BRACE_OPEN"),
        ("}", "CURLY_BRACE_CLOSE"),
        ("=", "EQUALS"),
    ];
    let got = run_test(regexes_with_tokens, "for(i=0;i<10;i++){print(i);}");
    assert_eq!(
        got,
        expect(&[
            ("for", KEYWORDS),
            ("(", &["ROUND_BRACE_OPEN"]),
            ("i", KEYWORDS),
            ("=", &["EQUALS"]),
            ("0", &["NUM"]),
            (";", &["SEMICOLON"]),
            ("i", KEYWORDS),
            ("<", &["SMALLER"]),
            ("10", &["NUM"]),
            (";", &["SEMICOLON"]),
            ("i", KEYWORDS),
            ("++", &["PLUSPLUS"]),
            (")", &["ROUND_BRACE_CLOSE"]),
            ("{", &["CURLY_BRACE_OPEN"]),
            ("print", KEYWORDS),
            ("(", &["ROUND_BRACE_OPEN"]),
            ("i", KEYWORDS),
            (")", &["ROUND_BRACE_CLOSE"]),
            (";", &["SEMICOLON"]),
            ("}", &["CURLY_BRACE_CLOSE"]),
        ])
    );
}

#[test]
fn sim4() {
    let regexes_with_tokens: &[(&str, &str)] = &[
        ("for", "FOR"),
        ("if", "IF"),
        ("while", "WHILE"),
        (";", "SEMICOLON"),
        ("<", "SMALLER"),
        ("+", "PLUS"),
        ("++", "PLUSPLUS"),
        ("(", "ROUND_BRACE_OPEN"),
        (")", "ROUND_BRACE_CLOSE"),
        ("{", "CURLY_BRACE_OPEN"),
        ("}", "CURLY_BRACE_CLOSE"),
        ("=", "EQUALS"),
        (" ", "SPACE"),
        ("\t", "TAB"),
    ];
    let got = run_test(regexes_with_tokens, "for (i = 0; i < 10; i++) {\tprint(i); }");
    let space: &[&str] = &["SPACE"];
    assert_eq!(
        got,
        expect(&[
            ("for", KEYWORDS),
            (" ", space),
            ("(", &["ROUND_BRACE_OPEN"]),
            ("i", KEYWORDS),
            (" ", space),
            ("=", &["EQUALS"]),
            (" ", space),
            ("0", &["NUM"]),
            (";", &["SEMICOLON"]),
            (" ", space),
            ("i", KEYWORDS),
            (" ", space),
            ("<", &["SMALLER"]),
            (" ", space),
            ("10", &["NUM"]),
            (";", &["SEMICOLON"]),
            (" ", space),
            ("i", KEYWORDS),
            ("++", &["PLUSPLUS"]),
            (")", &["ROUND_BRACE_CLOSE"]),
            (" ", space),
            ("{", &["CURLY_BRACE_OPEN"]),
            ("\t", &["TAB"]),
            ("print", KEYWORDS),
            ("(", &["ROUND_BRACE_OPEN"]),
            ("i", KEYWORDS),
            (")", &["ROUND_BRACE_CLOSE"]),
            (";", &["SEMICOLON"]),
            (" ", space),
            ("}", &["CURLY_BRACE_CLOSE"]),
        ])
    );
}

fn bare(patterns: &[(&str, &str)]) -> DFA {
    let mut alloc = StateAllocator::new();
    let mut dfa = DFA::new(State::new(&mut alloc));
    for (p, t) in patterns {
        dfa.extend_with(&mut alloc, p, t);
    }
    dfa
}

#[test]
fn longest_match_prefers_double() {
    let dfa = bare(&[("<", "SMALLER"), ("<<", "DOUBLE_SMALLER")]);
    let got = as_sets(dfa.first_longest_match("<<<<<"));
    assert_eq!(
        got,
        expect(&[
            ("<<", &["DOUBLE_SMALLER"]),
            ("<<", &["DOUBLE_SMALLER"]),
            ("<", &["SMALLER"]),
        ])
    );
}

#[test]
fn identifier_pattern_reports_union() {
    let got = run_test(&[("abc", "ABC")], "abc");
    assert_eq!(got, expect(&[("abc", &["ID", "ABC"])]));
}

#[test]
fn digits_then_letters_fall_back_to_number() {
    let got = run_test(&[], "123abc");
    assert_eq!(got, expect(&[("123", &["NUM"]), ("abc", &["ID"])]));
}

#[test]
fn unmatched_symbol_truncates() {
    let dfa = bare(&[("abc", "ABC")]);
    let got = as_sets(dfa.first_longest_match("abc#"));
    assert_eq!(got, expect(&[("abc", &["ABC"])]));
}

#[test]
fn unmatched_first_symbol_gives_nothing() {
    let got = run_test(&[], "#abc");
    assert!(got.is_empty());
}

#[test]
fn partial_match_without_accept_aborts() {
    let dfa = bare(&[("abc", "ABC")]);
    assert!(dfa.first_longest_match("abx").is_empty());
}

#[test]
fn failed_extension_resumes_after_match() {
    let dfa = bare(&[("a", "A"), ("abc", "ABC"), ("b", "B")]);
    let got = as_sets(dfa.first_longest_match("abab"));
    assert_eq!(
        got,
        expect(&[("a", &["A"]), ("b", &["B"]), ("a", &["A"]), ("b", &["B"])])
    );
}

#[test]
fn rescan_is_identical() {
    let dfa = bare(&[("<", "SMALLER"), ("<<", "DOUBLE_SMALLER")]);
    let first = dfa.first_longest_match("<<<x");
    let second = dfa.first_longest_match("<<<x");
    assert_eq!(first, second);
    assert_eq!(as_sets(first), expect(&[("<<", &["DOUBLE_SMALLER"]), ("<", &["SMALLER"])]));
}

#[test]
fn empty_input_gives_empty_result() {
    let dfa = bare(&[("abc", "ABC")]);
    assert!(dfa.first_longest_match("").is_empty());
    assert!(run_test(&[("abc", "ABC")], "").is_empty());
}

#[test]
fn empty_pattern_marks_start() {
    let mut alloc = StateAllocator::new();
    let start = State::new(&mut alloc);
    let mut dfa = DFA::new(start);
    dfa.extend_with(&mut alloc, "", "EMPTY");
    dfa.extend_with(&mut alloc, "a", "A");
    assert_eq!(dfa.get_start_state(), start);
    let got = as_sets(dfa.first_longest_match("aa"));
    assert_eq!(got, expect(&[("a", &["A"]), ("a", &["A"])]));
}

#[test]
fn shared_prefix_in_either_order() {
    let one = bare(&[("ab", "AB"), ("ac", "AC")]);
    let two = bare(&[("ac", "AC"), ("ab", "AB")]);
    for input in ["ab", "ac", "abac", "aa", "acab"] {
        assert_eq!(
            as_sets(one.first_longest_match(input)),
            as_sets(two.first_longest_match(input))
        );
    }
    assert_eq!(
        as_sets(one.first_longest_match("acab")),
        expect(&[("ac", &["AC"]), ("ab", &["AB"])])
    );
}

#[test]
fn marks_accumulate_without_duplicates() {
    let mut alloc = StateAllocator::new();
    let start = State::new(&mut alloc);
    let s = State::new(&mut alloc);
    let mut dfa = DFA::new(start);
    dfa.add_transition(start, 'x', s);
    dfa.mark_end_state(s, "X");
    dfa.mark_end_state(s, "Y");
    dfa.mark_end_state(s, "X");
    let got = dfa.first_longest_match("x");
    assert_eq!(got.len(), 1);
    assert_eq!(got[0].1.len(), 2);
    assert_eq!(as_sets(got), expect(&[("x", &["X", "Y"])]));
}

#[test]
fn add_transition_replaces_move() {
    let mut alloc = StateAllocator::new();
    let start = State::new(&mut alloc);
    let s = State::new(&mut alloc);
    let t = State::new(&mut alloc);
    let mut dfa = DFA::new(start);
    dfa.mark_end_state(s, "S");
    dfa.mark_end_state(t, "T");
    dfa.add_transition(start, 'q', s);
    dfa.add_transition(start, 'q', t);
    assert_eq!(as_sets(dfa.first_longest_match("q")), expect(&[("q", &["T"])]));
}

#[test]
fn default_classes_alone() {
    let mut alloc = StateAllocator::new();
    let mut dfa = DFA::new(State::new(&mut alloc));
    add_default_states(&mut dfa, &mut alloc);
    let got = as_sets(dfa.first_longest_match("x1y2 42"));
    assert_eq!(got, expect(&[("x1y2", &["ID"])]));
    let got = as_sets(dfa.first_longest_match("42z7"));
    assert_eq!(got, expect(&[("42", &["NUM"]), ("z7", &["ID"])]));
}

#[test]
fn states_are_distinct() {
    let mut alloc = StateAllocator::new();
    let a = State::new(&mut alloc);
    let b = State::new(&mut alloc);
    assert_ne!(a, b);
}

#[test]
fn non_ascii_symbols() {
    let dfa = bare(&[("ä", "AE"), ("äö", "AEOE")]);
    let got = as_sets(dfa.first_longest_match("äöä"));
    assert_eq!(got, expect(&[("äö", &["AEOE"]), ("ä", &["AE"])]));
}
