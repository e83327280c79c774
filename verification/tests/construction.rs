use nfa2dfa::automaton::{Dfa, Nfa, TransRow, Transition, EPSILON};
use nfa2dfa::closure::{epsilon_closure, epsilon_closure_set, move_states};
use nfa2dfa::construct::{nfa_to_dfa, subset_construction};
use nfa2dfa::state::State;
use nfa2dfa::state_set::StateSet;

fn named(label: &str) -> State {
    State::Named(label.to_string())
}

fn set_of(labels: &[&str]) -> StateSet {
    let mut s = StateSet::new();
    for l in labels {
        s.insert(named(l));
    }
    s
}

fn row(source: &str, arcs: Vec<(char, &str)>) -> TransRow {
    TransRow {
        source: named(source),
        arcs: arcs
            .into_iter()
            .map(|(symbol, target)| Transition { symbol, target: named(target) })
            .collect(),
    }
}

/// Thompson-style NFA for the pattern `a(b|c)*d`, built by hand: the
/// regex-to-NFA compiler is outside this crate's scope.
fn abc_star_d_nfa() -> Nfa {
    Nfa {
        states: set_of(&["q0", "q1", "q2", "q3", "q4", "q5", "q6", "q7", "q8"]),
        initial: named("q0"),
        finals: set_of(&["q8"]),
        transitions: vec![
            row("q0", vec![('a', "q1")]),
            row("q1", vec![(EPSILON, "q2")]),
            row("q2", vec![(EPSILON, "q3"), (EPSILON, "q5"), (EPSILON, "q7")]),
            row("q3", vec![('b', "q4")]),
            row("q4", vec![(EPSILON, "q2")]),
            row("q5", vec![('c', "q6")]),
            row("q6", vec![(EPSILON, "q2")]),
            row("q7", vec![('d', "q8")]),
        ],
    }
}

fn arcs_of<'a>(dfa: &'a Dfa, source: &State) -> &'a [Transition] {
    for r in &dfa.transitions {
        if r.source == *source {
            return &r.arcs;
        }
    }
    &[]
}

fn target_on(dfa: &Dfa, source: &State, symbol: char) -> Option<State> {
    for t in arcs_of(dfa, source) {
        if t.symbol == symbol {
            return Some(t.target.clone());
        }
    }
    None
}

#[test]
fn pattern_abc_star_d_initial_closure() {
    let nfa = abc_star_d_nfa();
    // The epsilon-closure of the `a`-consuming transition's target q1 must
    // reach everything connected to q1 by epsilon edges alone.
    let cl = epsilon_closure(&named("q1"), &nfa);
    for l in ["q1", "q2", "q3", "q5", "q7"] {
        assert!(cl.contains(&named(l)), "closure of q1 must hold {}", l);
    }
    assert_eq!(cl.len(), 5);
    // q4, q6, q8 need a non-epsilon symbol to be reached.
    assert!(!cl.contains(&named("q4")));
    assert!(!cl.contains(&named("q6")));
    assert!(!cl.contains(&named("q8")));
}

#[test]
fn pattern_abc_star_d_dfa_shape() {
    let nfa = abc_star_d_nfa();
    let dfa = nfa_to_dfa(&nfa);
    assert_eq!(dfa.initial, State::Unnamed(0));

    let s1 = target_on(&dfa, &dfa.initial, 'a').expect("initial must move on a");
    // Feeding b repeatedly returns to the same DFA state: a self-loop.
    let looped = target_on(&dfa, &s1, 'b').expect("must move on b");
    assert_eq!(target_on(&dfa, &looped, 'b'), Some(looped.clone()));
    // Feeding c repeatedly self-loops as well.
    let looped_c = target_on(&dfa, &s1, 'c').expect("must move on c");
    assert_eq!(target_on(&dfa, &looped_c, 'c'), Some(looped_c.clone()));
    // From the looped state, d reaches a final state without outgoing arcs.
    let fin = target_on(&dfa, &looped, 'd').expect("must move on d");
    assert!(dfa.finals.contains(&fin));
    assert!(arcs_of(&dfa, &fin).is_empty());
    // The pre-d states are not final.
    assert!(!dfa.finals.contains(&dfa.initial));
    assert!(!dfa.finals.contains(&s1));
    assert!(!dfa.finals.contains(&looped));
}

#[test]
fn no_epsilon_closure_is_singleton() {
    // An NFA with no epsilon transitions at all: the closure of each state
    // is exactly that state.
    let nfa = Nfa {
        states: set_of(&["x", "y", "z"]),
        initial: named("x"),
        finals: set_of(&["z"]),
        transitions: vec![row("x", vec![('a', "y")]), row("y", vec![('b', "z")])],
    };
    for l in ["x", "y", "z"] {
        let cl = epsilon_closure(&named(l), &nfa);
        assert_eq!(cl.len(), 1);
        assert!(cl.contains(&named(l)));
    }
}

#[test]
fn lone_final_initial_state() {
    // The initial state is also final and has no transitions: the DFA has
    // exactly one state, both initial and final, with zero outgoing arcs.
    let nfa = Nfa {
        states: set_of(&["only"]),
        initial: named("only"),
        finals: set_of(&["only"]),
        transitions: vec![],
    };
    let dfa = nfa_to_dfa(&nfa);
    assert_eq!(dfa.states.len(), 1);
    assert_eq!(dfa.initial, State::Unnamed(0));
    assert!(dfa.finals.contains(&State::Unnamed(0)));
    assert_eq!(dfa.finals.len(), 1);
    for r in &dfa.transitions {
        assert!(r.arcs.is_empty());
    }
}

#[test]
fn dfa_is_deterministic() {
    // At most one outgoing transition per symbol, and never epsilon.
    let dfa = nfa_to_dfa(&abc_star_d_nfa());
    for r in &dfa.transitions {
        for (i, a) in r.arcs.iter().enumerate() {
            assert_ne!(a.symbol, EPSILON);
            for b in &r.arcs[i + 1..] {
                assert_ne!(a.symbol, b.symbol);
            }
        }
    }
}

#[test]
fn discovered_subsets_are_distinct() {
    // No two discovered subsets collapse to one identity, and the count
    // stays under 2 to the number of NFA states.
    let nfa = abc_star_d_nfa();
    let (dfa, table) = subset_construction(&nfa);
    for i in 0..table.len() {
        for j in 0..table.len() {
            if i != j {
                assert!(!table[i].set_eq(&table[j]));
            }
        }
    }
    assert_eq!(dfa.states.len(), table.len());
    assert!(table.len() <= 1 << 9);
    // This run discovers exactly five subsets.
    assert_eq!(table.len(), 5);
}

#[test]
fn move_states_empty_exactly_without_transitions() {
    let nfa = abc_star_d_nfa();
    let from_initial = epsilon_closure(&named("q0"), &nfa);
    // q0 moves on a alone.
    assert!(!move_states(&from_initial, 'a', &nfa).is_empty());
    for c in ['b', 'c', 'd', 'e', 'z'] {
        assert!(move_states(&from_initial, c, &nfa).is_empty());
    }
    // The looped subset moves on b, c and d, on nothing else.
    let s1 = epsilon_closure(&named("q1"), &nfa);
    assert!(!move_states(&s1, 'b', &nfa).is_empty());
    assert!(!move_states(&s1, 'c', &nfa).is_empty());
    assert!(!move_states(&s1, 'd', &nfa).is_empty());
    assert!(move_states(&s1, 'a', &nfa).is_empty());
    let mv = move_states(&s1, 'b', &nfa);
    assert_eq!(mv.len(), 1);
    assert!(mv.contains(&named("q4")));
}

#[test]
fn closure_is_idempotent_on_closed_sets() {
    let nfa = abc_star_d_nfa();
    let once = epsilon_closure(&named("q1"), &nfa);
    let twice = epsilon_closure_set(&once, &nfa);
    assert!(once.set_eq(&twice));
}

#[test]
fn state_identity_equality() {
    assert!(named("a").same_as(&named("a")));
    assert!(!named("a").same_as(&named("b")));
    assert!(State::Unnamed(3).same_as(&State::Unnamed(3)));
    assert!(!State::Unnamed(3).same_as(&State::Unnamed(4)));
    assert!(!named("3").same_as(&State::Unnamed(3)));
}

#[test]
fn state_set_deduplicates() {
    let mut s = StateSet::new();
    assert!(s.is_empty());
    s.insert(named("a"));
    s.insert(named("a"));
    s.insert(State::Unnamed(1));
    assert_eq!(s.len(), 2);
    assert!(s.contains(&named("a")));
    assert!(s.contains(&State::Unnamed(1)));
    assert!(!s.contains(&named("b")));
}

#[test]
fn finality_matches_subset_intersection() {
    let nfa = abc_star_d_nfa();
    let (dfa, table) = subset_construction(&nfa);
    for (i, sub) in table.iter().enumerate() {
        let is_final = dfa.finals.contains(&State::Unnamed(i));
        assert_eq!(is_final, sub.intersects(&nfa.finals));
        assert_eq!(is_final, sub.contains(&named("q8")));
    }
}

#[test]
fn well_formedness_checker() {
    assert!(abc_star_d_nfa().is_well_formed());
    // A transition target missing from the declared state set.
    let dangling = Nfa {
        states: set_of(&["x"]),
        initial: named("x"),
        finals: StateSet::new(),
        transitions: vec![row("x", vec![('a', "y")])],
    };
    assert!(!dangling.is_well_formed());
    // An initial state missing from the declared state set.
    let foreign_initial = Nfa {
        states: set_of(&["x"]),
        initial: named("w"),
        finals: StateSet::new(),
        transitions: vec![],
    };
    assert!(!foreign_initial.is_well_formed());
}
