//! Subset construction: converting a nondeterministic finite automaton
//! with epsilon transitions into an equivalent deterministic automaton.
//!
//! The crate models automata over single-character symbols, computes
//! epsilon-closures and symbol-move sets, and drives the classic powerset
//! exploration, assigning each distinct reachable subset of NFA states a
//! fresh numbered DFA state.

pub mod state;
pub mod state_set;
pub mod automaton;
pub mod closure;
pub mod counting;
pub mod construct;
