use automata::{States, CLOSE, DOWN, EMERG, OPEN, UP};

fn run(start: States, input: &[u8]) -> States {
    input.iter().fold(start, |s, &w| s.step(w))
}

#[test]
fn start_is_end_state() {
    assert!(States::Start.is_end());
    assert!(States::Open3.is_end());
    assert!(!States::Closed0.is_end());
}

#[test]
fn first_opening_only_by_open() {
    assert_eq!(States::Start.step(EMERG), States::Start);
    assert_eq!(States::Start.step(UP), States::Start);
    assert_eq!(States::Start.step(OPEN), States::Open0);
}

#[test]
fn ride_up_and_down() {
    let s = run(States::Start, &[OPEN, CLOSE, UP, UP, OPEN]);
    assert_eq!(s, States::Open2);
    assert!(s.is_end());
    let s = run(s, &[UP, CLOSE, DOWN, EMERG]);
    assert_eq!(s, States::Open1);
}

#[test]
fn floors_are_bounded() {
    let s = run(States::Closed4, &[UP, UP]);
    assert_eq!(s, States::Closed4);
    let s = run(States::Closed0, &[DOWN]);
    assert_eq!(s, States::Closed0);
}

#[test]
fn door_must_be_closed_to_move() {
    assert_eq!(States::Open2.step(UP), States::Open2);
    assert_eq!(States::Open2.step(DOWN), States::Open2);
    assert_eq!(States::Open2.step(OPEN), States::Open2);
    assert_eq!(States::Closed2.step(CLOSE), States::Closed2);
}

#[test]
fn other_bytes_are_ignored() {
    assert_eq!(States::Closed3.step(b'x'), States::Closed3);
    assert_eq!(States::Closed3.step(5), States::Closed3);
}
