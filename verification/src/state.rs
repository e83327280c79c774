//! State identities: named states supplied with an externally built
//! automaton, and unnamed states synthesized during subset construction.

use vstd::prelude::*;

verus! {

/// Mathematical identity of a state: the label of a named state as a
/// character sequence, or the index of a synthesized state.
#[verifier::ext_equal]
pub enum StateId {
    Named(Seq<char>),
    Unnamed(int),
}

/// A state identity: either named by a text label, or unnamed and
/// carrying an index assigned during construction.
#[derive(Debug, Clone, PartialEq, Eq, Hash)]
pub enum State {
    Named(String),
    Unnamed(usize),
}

impl View for State {
    type V = StateId;

    open spec fn view(&self) -> StateId {
        match self {
            State::Named(label) => StateId::Named(label@),
            State::Unnamed(index) => StateId::Unnamed(*index as int),
        }
    }
}

impl State {
    /// Structural equality of identities: two states are the same exactly
    /// when their mathematical identities coincide.
    pub fn same_as(&self, other: &State) -> (r: bool)
        ensures
            r == (self@ == other@),
    {
        match (self, other) {
            (State::Named(a), State::Named(b)) => *a == *b,
            (State::Unnamed(i), State::Unnamed(j)) => *i == *j,
            _ => false,
        }
    }

    /// A fresh state value with the same identity.
    pub fn duplicate(&self) -> (r: State)
        ensures
            r@ == self@,
    {
        match self {
            State::Named(label) => State::Named(label.clone()),
            State::Unnamed(index) => State::Unnamed(*index),
        }
    }
}

} // verus!
