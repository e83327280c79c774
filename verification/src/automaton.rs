//! Automata over single-character symbols: the shared shape of NFA and DFA,
//! and the mathematical relations (edges, epsilon paths, closures, moves)
//! that the executable algorithms are specified against.

use vstd::prelude::*;
use crate::state::{State, StateId};
use crate::state_set::StateSet;

verus! {

/// The reserved sentinel symbol standing for the empty (epsilon) transition;
/// it is distinct from every alphabet symbol.
pub const EPSILON: char = '\0';

/// Mathematical content of a transition: symbol read and target identity.
pub struct ArcId {
    pub symbol: char,
    pub target: StateId,
}

/// An outgoing transition: an input symbol and the target state.
#[derive(Debug)]
pub struct Transition {
    pub symbol: char,
    pub target: State,
}

impl View for Transition {
    type V = ArcId;

    open spec fn view(&self) -> ArcId {
        ArcId { symbol: self.symbol, target: self.target@ }
    }
}

/// All outgoing transitions of one source state.
#[derive(Debug)]
pub struct TransRow {
    pub source: State,
    pub arcs: Vec<Transition>,
}

/// The transitions of a row, as mathematical arcs.
pub open spec fn arc_views(arcs: Seq<Transition>) -> Seq<ArcId> {
    arcs.map_values(|t: Transition| t@)
}

/// The arcs leaving `s`: those of the first table row whose source is `s`,
/// or none when no row carries `s`.
pub open spec fn arcs_of_rows(rows: Seq<TransRow>, s: StateId) -> Seq<ArcId>
    decreases rows.len(),
{
    if rows.len() == 0 {
        Seq::<ArcId>::empty()
    } else if rows[0].source@ == s {
        arc_views(rows[0].arcs@)
    } else {
        arcs_of_rows(rows.drop_first(), s)
    }
}

/// The targets of every arc of a row.
pub open spec fn row_targets(row: TransRow) -> Seq<StateId> {
    row.arcs@.map_values(|t: Transition| t@.target)
}

/// Every target mentioned anywhere in a transition table.
pub open spec fn targets_of_rows(rows: Seq<TransRow>) -> Seq<StateId>
    decreases rows.len(),
{
    if rows.len() == 0 {
        Seq::<StateId>::empty()
    } else {
        row_targets(rows[0]) + targets_of_rows(rows.drop_first())
    }
}

/// A nondeterministic finite automaton: a state may have any number of
/// transitions per symbol, and epsilon transitions may occur.
#[derive(Debug)]
pub struct Nfa {
    pub states: StateSet,
    pub initial: State,
    pub finals: StateSet,
    pub transitions: Vec<TransRow>,
}

/// A deterministic finite automaton: same shape, but construction
/// guarantees at most one transition per symbol and no epsilon arcs.
#[derive(Debug)]
pub struct Dfa {
    pub states: StateSet,
    pub initial: State,
    pub finals: StateSet,
    pub transitions: Vec<TransRow>,
}

impl Nfa {
    /// The arcs leaving state `s`.
    pub open spec fn arcs_of(&self, s: StateId) -> Seq<ArcId> {
        arcs_of_rows(self.transitions@, s)
    }

    /// There is a transition from `s` to `t` reading `c`.
    pub open spec fn edge(&self, s: StateId, c: char, t: StateId) -> bool {
        exists|j: int|
            0 <= j < self.arcs_of(s).len() && (#[trigger] self.arcs_of(s)[j]).symbol == c
                && self.arcs_of(s)[j].target == t
    }

    /// There is an epsilon transition from `s` to `t`.
    pub open spec fn eps_edge(&self, s: StateId, t: StateId) -> bool {
        self.edge(s, EPSILON, t)
    }

    /// `p` is a walk along epsilon transitions.
    pub open spec fn is_eps_path(&self, p: Seq<StateId>) -> bool
        decreases p.len(),
    {
        p.len() >= 1 && (p.len() == 1 || (self.eps_edge(p[0], p[1]) && self.is_eps_path(
            p.drop_first(),
        )))
    }

    /// `t` is reachable from `s` by zero or more epsilon transitions.
    #[verifier::opaque]
    pub open spec fn eps_reach(&self, s: StateId, t: StateId) -> bool {
        exists|p: Seq<StateId>| #[trigger] self.is_eps_path(p) && p.first() == s && p.last() == t
    }

    /// The epsilon-closure of one state: everything reachable from it by
    /// epsilon transitions alone, the state itself included.
    pub open spec fn eps_closure_of(&self, s: StateId) -> Set<StateId> {
        Set::new(|t: StateId| self.eps_reach(s, t))
    }

    /// The epsilon-closure of a set of states: the union of the closures
    /// of its members.
    pub open spec fn eps_closure_set(&self, ss: Set<StateId>) -> Set<StateId> {
        Set::new(|t: StateId| exists|s: StateId| ss.contains(s) && #[trigger] self.eps_reach(s, t))
    }

    /// `ss` is closed under epsilon transitions.
    pub open spec fn eps_closed(&self, ss: Set<StateId>) -> bool {
        forall|s: StateId, t: StateId|
            ss.contains(s) && #[trigger] self.eps_edge(s, t) ==> ss.contains(t)
    }

    /// All states reachable from a member of `ss` by exactly one
    /// transition reading `c`.
    pub open spec fn move_set(&self, ss: Set<StateId>, c: char) -> Set<StateId> {
        Set::new(|t: StateId| exists|s: StateId| ss.contains(s) && #[trigger] self.edge(s, c, t))
    }

    /// Some member of `ss` has a transition reading `c`.
    pub open spec fn has_move(&self, ss: Set<StateId>, c: char) -> bool {
        exists|t: StateId| #[trigger] self.move_set(ss, c).contains(t)
    }

    /// Every target mentioned in the transition table.
    pub open spec fn targets(&self) -> Set<StateId> {
        targets_of_rows(self.transitions@).to_set()
    }

    /// Well-formedness: the initial state and the final states belong to
    /// the state set, and every transition references declared states.
    pub open spec fn wf(&self) -> bool {
        &&& self.states.wf()
        &&& self.finals.wf()
        &&& self.states@.contains(self.initial@)
        &&& self.finals@.subset_of(self.states@)
        &&& forall|i: int|
            0 <= i < self.transitions@.len() ==> self.states@.contains(
                (#[trigger] self.transitions@[i]).source@,
            )
        &&& forall|i: int, j: int|
            0 <= i < self.transitions@.len() && 0 <= j < self.transitions@[i].arcs@.len()
                ==> self.states@.contains((#[trigger] self.transitions@[i].arcs@[j])@.target)
    }
}

impl Nfa {
    /// Decides well-formedness, so that a caller can validate an externally
    /// built automaton before construction.
    pub fn is_well_formed(&self) -> (r: bool)
        ensures
            r == self.wf(),
    {
        if !self.states.is_well_formed() {
            return false;
        }
        if !self.finals.is_well_formed() {
            return false;
        }
        if !self.states.contains(&self.initial) {
            return false;
        }
        if !self.finals.is_subset_of(&self.states) {
            return false;
        }
        let n = self.transitions.len();
        let mut i: usize = 0;
        while i < n
            invariant
                n == self.transitions@.len(),
                i <= n,
                forall|k: int|
                    0 <= k < i ==> self.states@.contains(
                        (#[trigger] self.transitions@[k]).source@,
                    ),
                forall|k: int, j: int|
                    0 <= k < i && 0 <= j < self.transitions@[k].arcs@.len()
                        ==> self.states@.contains(
                        (#[trigger] self.transitions@[k].arcs@[j])@.target,
                    ),
            decreases n - i,
        {
            if !self.states.contains(&self.transitions[i].source) {
                return false;
            }
            let m = self.transitions[i].arcs.len();
            let mut j: usize = 0;
            while j < m
                invariant
                    n == self.transitions@.len(),
                    i < n,
                    m == self.transitions@[i as int].arcs@.len(),
                    j <= m,
                    forall|jj: int|
                        0 <= jj < j ==> self.states@.contains(
                            (#[trigger] self.transitions@[i as int].arcs@[jj])@.target,
                        ),
                decreases m - j,
            {
                if !self.states.contains(&self.transitions[i].arcs[j].target) {
                    return false;
                }
                j += 1;
            }
            i += 1;
        }
        true
    }
}

/// A row's arcs carry no epsilon transition and no symbol twice.
pub open spec fn arcs_deterministic(arcs: Seq<ArcId>) -> bool {
    &&& forall|j: int| 0 <= j < arcs.len() ==> (#[trigger] arcs[j]).symbol != EPSILON
    &&& forall|j1: int, j2: int|
        0 <= j1 < arcs.len() && 0 <= j2 < arcs.len() && j1 != j2 ==> (#[trigger] arcs[j1]).symbol
            != (#[trigger] arcs[j2]).symbol
}

impl Dfa {
    /// The arcs leaving state `s`.
    pub open spec fn arcs_of(&self, s: StateId) -> Seq<ArcId> {
        arcs_of_rows(self.transitions@, s)
    }

    /// There is a transition from `s` to `t` reading `c`.
    pub open spec fn edge(&self, s: StateId, c: char, t: StateId) -> bool {
        exists|j: int|
            0 <= j < self.arcs_of(s).len() && (#[trigger] self.arcs_of(s)[j]).symbol == c
                && self.arcs_of(s)[j].target == t
    }

    /// Every state has at most one outgoing transition per symbol and no
    /// epsilon transition.
    pub open spec fn deterministic(&self) -> bool {
        forall|i: int|
            0 <= i < self.transitions@.len() ==> arcs_deterministic(
                arc_views((#[trigger] self.transitions@[i]).arcs@),
            )
    }
}

/// An arc found at a position of the table leaves its target among the
/// table's targets.
pub proof fn lemma_row_target_in_targets(rows: Seq<TransRow>, i: int, j: int)
    requires
        0 <= i < rows.len(),
        0 <= j < rows[i].arcs@.len(),
    ensures
        targets_of_rows(rows).contains(rows[i].arcs@[j]@.target),
    decreases i,
{
    let t = rows[i].arcs@[j]@.target;
    if i == 0 {
        assert(row_targets(rows[0])[j] == t);
        assert(targets_of_rows(rows)[j] == t);
    } else {
        lemma_row_target_in_targets(rows.drop_first(), i - 1, j);
        let rest = targets_of_rows(rows.drop_first());
        let k = choose|k: int| 0 <= k < rest.len() && rest[k] == t;
        assert(targets_of_rows(rows)[row_targets(rows[0]).len() + k] == t);
    }
}

/// The arcs that `arcs_of_rows` returns for `s` are those of some row, so
/// their targets stand among the table's targets.
pub proof fn lemma_arcs_of_rows_targets(rows: Seq<TransRow>, s: StateId, j: int)
    requires
        0 <= j < arcs_of_rows(rows, s).len(),
    ensures
        targets_of_rows(rows).contains(arcs_of_rows(rows, s)[j].target),
    decreases rows.len(),
{
    if rows.len() == 0 {
    } else if rows[0].source@ == s {
        assert(arcs_of_rows(rows, s)[j] == rows[0].arcs@[j]@);
        lemma_row_target_in_targets(rows, 0, j);
    } else {
        lemma_arcs_of_rows_targets(rows.drop_first(), s, j);
        let t = arcs_of_rows(rows, s)[j].target;
        let rest = targets_of_rows(rows.drop_first());
        let k = choose|k: int| 0 <= k < rest.len() && rest[k] == t;
        assert(targets_of_rows(rows)[row_targets(rows[0]).len() + k] == t);
    }
}

impl Nfa {
    /// Every edge's target stands in the target set.
    pub proof fn lemma_edge_target(&self, s: StateId, c: char, t: StateId)
        requires
            self.edge(s, c, t),
        ensures
            self.targets().contains(t),
    {
        let j = choose|j: int|
            0 <= j < self.arcs_of(s).len() && (#[trigger] self.arcs_of(s)[j]).symbol == c
                && self.arcs_of(s)[j].target == t;
        lemma_arcs_of_rows_targets(self.transitions@, s, j);
    }

    /// The target set is finite.
    pub proof fn lemma_targets_finite(&self)
        ensures
            self.targets().finite(),
    {
        broadcast use vstd::seq_lib::seq_to_set_is_finite;

    }

    /// Under well-formedness every target is a declared state.
    pub proof fn lemma_targets_in_states(&self)
        requires
            self.wf(),
        ensures
            self.targets().subset_of(self.states@),
    {
        assert forall|t: StateId| self.targets().contains(t) implies self.states@.contains(t) by {
            let k = choose|k: int|
                0 <= k < targets_of_rows(self.transitions@).len() && targets_of_rows(
                    self.transitions@,
                )[k] == t;
            lemma_targets_index_is_arc(self.transitions@, k);
        }
    }
}

/// Every position of the flattened target sequence comes from an arc of
/// some row.
pub proof fn lemma_targets_index_is_arc(rows: Seq<TransRow>, k: int)
    requires
        0 <= k < targets_of_rows(rows).len(),
    ensures
        exists|i: int, j: int|
            0 <= i < rows.len() && 0 <= j < rows[i].arcs@.len() && (#[trigger] rows[i].arcs@[j])@.target
                == targets_of_rows(rows)[k],
    decreases rows.len(),
{
    let head = row_targets(rows[0]);
    if k < head.len() {
        assert(targets_of_rows(rows)[k] == head[k]);
        assert(rows[0].arcs@[k]@.target == head[k]);
    } else {
        lemma_targets_index_is_arc(rows.drop_first(), k - head.len());
        let rest = rows.drop_first();
        let (i, j) = choose|i: int, j: int|
            0 <= i < rest.len() && 0 <= j < rest[i].arcs@.len() && (#[trigger] rest[i].arcs@[j])@.target
                == targets_of_rows(rest)[k - head.len()];
        assert(rows[i + 1].arcs@[j]@.target == targets_of_rows(rows)[k]);
    }
}

} // verus!
