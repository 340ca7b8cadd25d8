//! Literal-pattern automata with first-longest-match scanning, together
//! with a small nondeterministic automaton and an elevator state machine.
pub mod classes;
pub mod confluence;
pub mod dfa;
pub mod elevator;
pub mod lemmas;
pub mod nfa;

pub use classes::{add_default_states, simulate};
pub use dfa::{State, StateAllocator, DFA};
pub use elevator::{States, CLOSE, DOWN, EMERG, OPEN, UP};
pub use nfa::NFA;
