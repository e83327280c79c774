//! The subset construction driver: explores the subsets of NFA states
//! reachable from the initial state's epsilon-closure, assigns each distinct
//! subset a fresh numbered DFA state, and assembles the resulting DFA.
//!
//! The successor of a subset on a symbol is the epsilon-closure of the whole
//! move set (the union of the closures of its members), the textbook rule.
//! The alphabet enumerated is the 26 lowercase letters, tried in
//! alphabetical order. Construction is total: an automaton whose initial
//! state or transition targets are missing from its declared state set is
//! still processed (such dangling identities are treated as states); only
//! the bound of `pow2(|states|)` on the number of discovered subsets is
//! stated for well-formed input.

use vstd::prelude::*;
use crate::state::{State, StateId};
use crate::state_set::StateSet;
use crate::automaton::{arc_views, ArcId, Dfa, Nfa, Transition, TransRow, EPSILON};
use crate::closure::{
    closure_universe, epsilon_closure, epsilon_closure_set, lemma_reach_in_targets, move_states,
};
use crate::counting::{lemma_distinct_subsets_bound, pow2};

verus! {

/// The subsets discovered by a run, as mathematical sets, in discovery
/// order: position `i` belongs to DFA state `Unnamed(i)`.
pub open spec fn views_of(table: Seq<StateSet>) -> Seq<Set<StateId>> {
    table.map_values(|ss: StateSet| ss@)
}

/// `c` is one of the 26 lowercase letters, the fixed alphabet that
/// construction enumerates.
pub open spec fn is_lower(c: char) -> bool {
    97 <= (c as u32) && (c as u32) <= 122
}

/// The subset intersects the NFA's final states.
pub open spec fn marks_final(nfa: Nfa, sub: Set<StateId>) -> bool {
    exists|t: StateId| #[trigger] sub.contains(t) && nfa.finals@.contains(t)
}

/// One recorded DFA transition is sound: its symbol is an alphabet letter
/// on which the source subset can move, and its target is the index of the
/// epsilon-closure of that move.
pub open spec fn arc_ok(nfa: Nfa, subs: Seq<Set<StateId>>, sub: Set<StateId>, arc: ArcId) -> bool {
    &&& is_lower(arc.symbol)
    &&& nfa.has_move(sub, arc.symbol)
    &&& exists|k: int|
        0 <= k < subs.len() && arc.target == StateId::Unnamed(k) && #[trigger] subs[k]
            == nfa.eps_closure_set(nfa.move_set(sub, arc.symbol))
}

/// A DFA state's outgoing transitions are exactly one per alphabet letter
/// on which its subset can move, in alphabetical order.
pub open spec fn row_ok(nfa: Nfa, subs: Seq<Set<StateId>>, sub: Set<StateId>, arcs: Seq<ArcId>) -> bool {
    &&& forall|j: int| 0 <= j < arcs.len() ==> arc_ok(nfa, subs, sub, #[trigger] arcs[j])
    &&& forall|j1: int, j2: int|
        0 <= j1 < j2 < arcs.len() ==> ((#[trigger] arcs[j1]).symbol as u32) < ((
        #[trigger] arcs[j2]).symbol as u32)
    &&& forall|c: char|
        is_lower(c) && #[trigger] nfa.has_move(sub, c) ==> exists|j: int|
            0 <= j < arcs.len() && (#[trigger] arcs[j]).symbol == c
}

/// Some arc of the sequence points at DFA state `kk`.
pub open spec fn arcs_hit(arcs: Seq<ArcId>, kk: int) -> bool {
    exists|j: int| 0 <= j < arcs.len() && (#[trigger] arcs[j]).target == StateId::Unnamed(kk)
}

/// Some row's arc points at DFA state `kk`.
pub open spec fn has_pred(rows: Seq<TransRow>, kk: int) -> bool {
    exists|i: int, j: int|
        0 <= i < rows.len() && 0 <= j < rows[i].arcs@.len() && (#[trigger] rows[i].arcs@[j])@.target
            == StateId::Unnamed(kk)
}

/// Everything a finished construction run guarantees, stated over the
/// subsets `subs` discovered (position `i` is DFA state `Unnamed(i)`).
pub open spec fn construction_ok(nfa: Nfa, dfa: Dfa, subs: Seq<Set<StateId>>) -> bool {
    let n = subs.len() as int;
    &&& n >= 1
    &&& subs[0] == nfa.eps_closure_of(nfa.initial@)
    &&& subs.no_duplicates()
    &&& dfa.initial@ == StateId::Unnamed(0)
    &&& dfa.states.wf()
    &&& dfa.states.ids() == Seq::new(n as nat, |i: int| StateId::Unnamed(i))
    &&& dfa.finals.wf()
    &&& dfa.finals@.subset_of(dfa.states@)
    &&& dfa.transitions@.len() == n
    &&& forall|i: int|
        0 <= i < n ==> (#[trigger] dfa.transitions@[i]).source@ == StateId::Unnamed(i)
    &&& forall|i: int|
        0 <= i < n ==> row_ok(nfa, subs, subs[i], arc_views((#[trigger] dfa.transitions@[i]).arcs@))
    &&& forall|i: int|
        0 <= i < n ==> (dfa.finals@.contains(StateId::Unnamed(i)) <==> marks_final(
            nfa,
            #[trigger] subs[i],
        ))
    &&& forall|kk: int| 1 <= kk < n ==> #[trigger] has_pred(dfa.transitions@, kk)
}

/// Widening the table of discovered subsets keeps every recorded row sound.
proof fn lemma_row_ok_extend(
    nfa: Nfa,
    subs1: Seq<Set<StateId>>,
    subs2: Seq<Set<StateId>>,
    sub: Set<StateId>,
    arcs: Seq<ArcId>,
)
    requires
        subs1.len() <= subs2.len(),
        forall|i: int| 0 <= i < subs1.len() ==> subs2[i] == subs1[i],
        row_ok(nfa, subs1, sub, arcs),
    ensures
        row_ok(nfa, subs2, sub, arcs),
{
    assert forall|j: int| 0 <= j < arcs.len() implies arc_ok(nfa, subs2, sub, #[trigger] arcs[j]) by {
        assert(arc_ok(nfa, subs1, sub, arcs[j]));
        let k = choose|k: int|
            0 <= k < subs1.len() && arcs[j].target == StateId::Unnamed(k) && #[trigger] subs1[k]
                == nfa.eps_closure_set(nfa.move_set(sub, arcs[j].symbol));
        assert(subs2[k] == subs1[k]);
    }
}

/// Looks the subset up in the table of discovered subsets.
fn find_in_table(table: &Vec<StateSet>, target: &StateSet) -> (r: Option<usize>)
    ensures
        match r {
            Some(i) => i < table@.len() && views_of(table@)[i as int] == target@,
            None => forall|i: int| 0 <= i < table@.len() ==> views_of(table@)[i] != target@,
        },
{
    let n = table.len();
    let mut i: usize = 0;
    while i < n
        invariant
            n == table@.len(),
            i <= n,
            forall|k: int| 0 <= k < i ==> views_of(table@)[k] != target@,
        decreases n - i,
    {
        if table[i].set_eq(target) {
            return Some(i);
        }
        i += 1;
    }
    None
}

/// Builds the outgoing transitions of one DFA state: tries every alphabet
/// letter in order, and records a transition to the (possibly freshly
/// discovered) subset reached on each letter that has a move.
#[verifier::rlimit(60)]
fn build_row(
    current: &StateSet,
    nfa: &Nfa,
    table: &mut Vec<StateSet>,
    Ghost(uni): Ghost<Set<StateId>>,
) -> (arcs: Vec<Transition>)
    requires
        uni == closure_universe(*nfa, uni),
        uni.finite(),
        current@.subset_of(uni),
        forall|i: int| 0 <= i < old(table)@.len() ==> (#[trigger] old(table)@[i]).wf(),
        views_of(old(table)@).no_duplicates(),
        forall|i: int| 0 <= i < old(table)@.len() ==> (#[trigger] old(table)@[i])@.subset_of(uni),
    ensures
        old(table)@.len() <= final(table)@.len(),
        forall|i: int| 0 <= i < old(table)@.len() ==> final(table)@[i] == old(table)@[i],
        forall|i: int| 0 <= i < final(table)@.len() ==> (#[trigger] final(table)@[i]).wf(),
        views_of(final(table)@).no_duplicates(),
        forall|i: int| 0 <= i < final(table)@.len() ==> (#[trigger] final(table)@[i])@.subset_of(uni),
        row_ok(*nfa, views_of(final(table)@), current@, arc_views(arcs@)),
        forall|kk: int|
            old(table)@.len() <= kk < final(table)@.len() ==> #[trigger] arcs_hit(
                arc_views(arcs@),
                kk,
            ),
{
    let mut arcs: Vec<Transition> = Vec::new();
    let mut c: u8 = 97;
    while c <= 122
        invariant
            uni == closure_universe(*nfa, uni),
            uni.finite(),
            current@.subset_of(uni),
            97 <= c <= 123,
            old(table)@.len() <= table@.len(),
            forall|i: int| 0 <= i < old(table)@.len() ==> table@[i] == old(table)@[i],
            forall|i: int| 0 <= i < table@.len() ==> (#[trigger] table@[i]).wf(),
            views_of(table@).no_duplicates(),
            forall|i: int| 0 <= i < table@.len() ==> (#[trigger] table@[i])@.subset_of(uni),
            forall|j: int|
                0 <= j < arcs@.len() ==> arc_ok(
                    *nfa,
                    views_of(table@),
                    current@,
                    (#[trigger] arcs@[j])@,
                ),
            forall|j: int|
                0 <= j < arcs@.len() ==> 97 <= ((#[trigger] arcs@[j])@.symbol as u32) < c as u32,
            forall|j1: int, j2: int|
                0 <= j1 < j2 < arcs@.len() ==> ((#[trigger] arcs@[j1])@.symbol as u32) < ((
                #[trigger] arcs@[j2])@.symbol as u32),
            forall|cc: char|
                is_lower(cc) && (cc as u32) < c as u32 && #[trigger] nfa.has_move(current@, cc)
                    ==> exists|j: int|
                    0 <= j < arcs@.len() && (#[trigger] arcs@[j])@.symbol == cc,
            forall|kk: int|
                old(table)@.len() <= kk < table@.len() ==> #[trigger] arcs_hit(
                    arc_views(arcs@),
                    kk,
                ),
        decreases 123 - c,
    {
        let sym = c as char;
        let mv = move_states(current, sym, nfa);
        if !mv.is_empty() {
            let cl = epsilon_closure_set(&mv, nfa);
            proof {
                assert forall|t: StateId| cl@.contains(t) implies uni.contains(t) by {
                    let s = choose|s: StateId|
                        mv@.contains(s) && #[trigger] nfa.eps_reach(s, t);
                    lemma_reach_in_targets(*nfa, s, t);
                    if t == s {
                        let s0 = choose|s0: StateId|
                            current@.contains(s0) && #[trigger] nfa.edge(s0, sym, s);
                        nfa.lemma_edge_target(s0, sym, s);
                    }
                }
            }
            let ghost pre_table = table@;
            let idx: usize;
            match find_in_table(table, &cl) {
                Some(i) => {
                    idx = i;
                },
                None => {
                    idx = table.len();
                    proof {
                        assert forall|i: int, j: int|
                            0 <= i < views_of(table@.push(cl)).len() && 0 <= j < views_of(
                                table@.push(cl),
                            ).len() && i != j implies views_of(table@.push(cl))[i] != views_of(
                            table@.push(cl),
                        )[j] by {
                            let nv = views_of(table@.push(cl));
                            if i < table@.len() && j < table@.len() {
                                assert(nv[i] == views_of(table@)[i]);
                                assert(nv[j] == views_of(table@)[j]);
                            } else if j == table@.len() {
                                assert(nv[i] == views_of(table@)[i] && nv[j] == cl@);
                            } else {
                                assert(nv[j] == views_of(table@)[j] && nv[i] == cl@);
                            }
                        }
                    }
                    table.push(cl);
                },
            }
            let ghost pre_arcs = arcs@;
            arcs.push(Transition { symbol: sym, target: State::Unnamed(idx) });
            proof {
                assert(arcs@ == pre_arcs.push(Transition { symbol: sym, target: State::Unnamed(idx) }));
                assert(arcs@[arcs@.len() - 1]@.symbol == sym && arcs@[arcs@.len() - 1]@.target
                    == StateId::Unnamed(idx as int));
                assert(sym as u32 == c as u32);
                assert(views_of(table@)[idx as int] == cl@);
                assert(arc_ok(*nfa, views_of(table@), current@, arcs@[arcs@.len() - 1]@));
                assert forall|kk: int|
                    old(table)@.len() <= kk < table@.len() implies #[trigger] arcs_hit(
                    arc_views(arcs@),
                    kk,
                ) by {
                    let na = arc_views(arcs@);
                    if kk < pre_table.len() {
                        assert(arcs_hit(arc_views(pre_arcs), kk));
                        let j = choose|j: int|
                            0 <= j < arc_views(pre_arcs).len() && (#[trigger] arc_views(
                                pre_arcs,
                            )[j]).target == StateId::Unnamed(kk);
                        assert(na[j] == arc_views(pre_arcs)[j]);
                    } else {
                        assert(na[na.len() - 1].target == StateId::Unnamed(kk));
                    }
                }
                assert forall|j: int|
                    0 <= j < pre_arcs.len() implies arc_ok(
                    *nfa,
                    views_of(table@),
                    current@,
                    (#[trigger] pre_arcs[j])@,
                ) by {
                    assert(arc_ok(*nfa, views_of(pre_table), current@, pre_arcs[j]@));
                    let k = choose|k: int|
                        0 <= k < views_of(pre_table).len() && pre_arcs[j]@.target
                            == StateId::Unnamed(k) && #[trigger] views_of(pre_table)[k]
                            == nfa.eps_closure_set(nfa.move_set(current@, pre_arcs[j]@.symbol));
                    assert(views_of(table@)[k] == views_of(pre_table)[k]);
                }
            }
            proof {
                assert forall|cc: char|
                    is_lower(cc) && (cc as u32) < c as u32 + 1 && #[trigger] nfa.has_move(
                        current@,
                        cc,
                    ) implies exists|j: int|
                    0 <= j < arcs@.len() && (#[trigger] arcs@[j])@.symbol == cc by {
                    if (cc as u32) == c as u32 {
                        assert(cc == sym) by {
                            assert(cc as u32 == sym as u32);
                        }
                        assert(arcs@[arcs@.len() - 1]@.symbol == cc);
                    } else {
                        let j = choose|j: int|
                            0 <= j < pre_arcs.len() && (#[trigger] pre_arcs[j])@.symbol == cc;
                        assert(arcs@[j] == pre_arcs[j]);
                    }
                }
            }
        } else {
            let ghost sym2 = c as char;
            proof {
                assert(!nfa.has_move(current@, sym2));
                assert forall|cc: char|
                    is_lower(cc) && (cc as u32) < c as u32 + 1 && #[trigger] nfa.has_move(
                        current@,
                        cc,
                    ) implies exists|j: int|
                    0 <= j < arcs@.len() && (#[trigger] arcs@[j])@.symbol == cc by {
                    if (cc as u32) == c as u32 {
                        assert(cc == sym2) by {
                            assert(cc as u32 == sym2 as u32);
                        }
                    }
                }
            }
        }
        c += 1;
    }
    proof {
        assert forall|cc: char| is_lower(cc) && #[trigger] nfa.has_move(current@, cc) implies exists|
            j: int,
        | 0 <= j < arc_views(arcs@).len() && (#[trigger] arc_views(arcs@)[j]).symbol == cc by {
            let j = choose|j: int| 0 <= j < arcs@.len() && (#[trigger] arcs@[j])@.symbol == cc;
            assert(arc_views(arcs@)[j] == arcs@[j]@);
        }
        assert forall|j: int| 0 <= j < arc_views(arcs@).len() implies arc_ok(
            *nfa,
            views_of(table@),
            current@,
            #[trigger] arc_views(arcs@)[j],
        ) by {
            assert(arc_views(arcs@)[j] == arcs@[j]@);
        }
        assert forall|j1: int, j2: int| 0 <= j1 < j2 < arc_views(arcs@).len() implies ((
        #[trigger] arc_views(arcs@)[j1]).symbol as u32) < ((#[trigger] arc_views(
            arcs@,
        )[j2]).symbol as u32) by {
            assert(arc_views(arcs@)[j1] == arcs@[j1]@ && arc_views(arcs@)[j2] == arcs@[j2]@);
        }
    }
    arcs
}


/// Converts the NFA into an equivalent DFA, returning beside it the table
/// of discovered subsets: position `i` holds the subset that DFA state
/// `Unnamed(i)` stands for. Construction never fails and always terminates:
/// the discovered subsets are pairwise distinct and, for a well-formed
/// input, at most `pow2(|states|)` of them exist.
#[verifier::rlimit(60)]
pub fn subset_construction(nfa: &Nfa) -> (res: (Dfa, Vec<StateSet>))
    ensures
        construction_ok(*nfa, res.0, views_of(res.1@)),
        forall|i: int| 0 <= i < res.1@.len() ==> (#[trigger] res.1@[i]).wf(),
        nfa.wf() ==> res.1@.len() <= pow2(nfa.states@.len()),
{
    let ghost uni = set![nfa.initial@].union(nfa.targets());
    proof {
        nfa.lemma_targets_finite();
        assert(uni =~= closure_universe(*nfa, uni));
        crate::counting::lemma_pow2_pos(uni.len());
    }
    let init = epsilon_closure(&nfa.initial, nfa);
    proof {
        assert forall|t: StateId| init@.contains(t) implies uni.contains(t) by {
            lemma_reach_in_targets(*nfa, nfa.initial@, t);
        }
    }
    let mut table: Vec<StateSet> = Vec::new();
    table.push(init);
    let mut rows: Vec<TransRow> = Vec::new();
    let mut finals = StateSet::new();
    let mut k: usize = 0;
    proof {
        assert(views_of(table@).len() == 1);
        assert(views_of(table@).no_duplicates());
        assert(views_of(table@)[0] == nfa.eps_closure_of(nfa.initial@));
    }
    while k < table.len()
        invariant
            uni == closure_universe(*nfa, uni),
            uni.finite(),
            k <= table@.len(),
            1 <= table@.len(),
            table@.len() <= pow2(uni.len()),
            rows@.len() == k,
            finals.wf(),
            forall|i: int| 0 <= i < table@.len() ==> (#[trigger] table@[i]).wf(),
            views_of(table@).no_duplicates(),
            forall|i: int| 0 <= i < table@.len() ==> (#[trigger] table@[i])@.subset_of(uni),
            views_of(table@)[0] == nfa.eps_closure_of(nfa.initial@),
            forall|i: int| 0 <= i < k ==> (#[trigger] rows@[i]).source@ == StateId::Unnamed(i),
            forall|i: int|
                0 <= i < k ==> row_ok(
                    *nfa,
                    views_of(table@),
                    views_of(table@)[i],
                    arc_views((#[trigger] rows@[i]).arcs@),
                ),
            forall|i: int|
                0 <= i < k ==> (finals@.contains(StateId::Unnamed(i)) <==> marks_final(
                    *nfa,
                    #[trigger] views_of(table@)[i],
                )),
            forall|t: StateId|
                finals@.contains(t) ==> exists|i: int| 0 <= i < k && t == StateId::Unnamed(i),
            forall|kk: int| 1 <= kk < table@.len() ==> #[trigger] has_pred(rows@, kk),
        decreases pow2(uni.len()) - k,
    {
        let current = table[k].duplicate();
        let ghost pre_table = table@;
        let ghost pre_rows = rows@;
        let arcs = build_row(&current, nfa, &mut table, Ghost(uni));
        let ghost new_arcs = arcs@;
        rows.push(TransRow { source: State::Unnamed(k), arcs });
        let is_final = current.intersects(&nfa.finals);
        let ghost pre_finals = finals@;
        if is_final {
            finals.insert(State::Unnamed(k));
        }
        proof {
            assert(views_of(table@).len() == table@.len());
            assert forall|i: int|
                0 <= i < pre_table.len() implies views_of(table@)[i] == views_of(pre_table)[i] by {
                assert(table@[i] == pre_table[i]);
            }
            lemma_distinct_subsets_bound(views_of(table@), uni);
            assert forall|i: int| 0 <= i < k + 1 implies row_ok(
                *nfa,
                views_of(table@),
                views_of(table@)[i],
                arc_views((#[trigger] rows@[i]).arcs@),
            ) by {
                if i < k {
                    assert(rows@[i] == pre_rows[i]);
                    lemma_row_ok_extend(
                        *nfa,
                        views_of(pre_table),
                        views_of(table@),
                        views_of(pre_table)[i as int],
                        arc_views(pre_rows[i].arcs@),
                    );
                } else {
                    assert(rows@[i].arcs@ == new_arcs);
                    assert(current@ == views_of(table@)[i]);
                }
            }
            assert(current@ == views_of(table@)[k as int]) by {
                assert(views_of(pre_table)[k as int] == pre_table[k as int]@);
            }
            assert(is_final == marks_final(*nfa, current@)) by {
                if is_final {
                    let t = choose|t: StateId|
                        current@.contains(t) && nfa.finals@.contains(t);
                    assert(current@.contains(t) && nfa.finals@.contains(t));
                }
                if marks_final(*nfa, current@) {
                    let t = choose|t: StateId|
                        #[trigger] current@.contains(t) && nfa.finals@.contains(t);
                }
            }
            assert forall|i: int| 0 <= i < k + 1 implies (finals@.contains(StateId::Unnamed(i))
                <==> marks_final(*nfa, #[trigger] views_of(table@)[i])) by {
                let fid = StateId::Unnamed(i);
                if i < k {
                    assert(fid != StateId::Unnamed(k as int));
                    assert(views_of(table@)[i] == views_of(pre_table)[i]);
                    assert(finals@.contains(fid) == pre_finals.contains(fid));
                    assert(pre_finals.contains(fid) <==> marks_final(
                        *nfa,
                        views_of(pre_table)[i],
                    ));
                } else {
                    assert(views_of(table@)[i] == current@);
                    if is_final {
                        assert(finals@.contains(fid));
                        assert(marks_final(*nfa, current@));
                    } else {
                        assert(!marks_final(*nfa, current@));
                        if finals@.contains(fid) {
                            let ii = choose|ii: int| 0 <= ii < k && fid == StateId::Unnamed(ii);
                            assert(false);
                        }
                    }
                }
            }
            assert forall|kk: int| 1 <= kk < table@.len() implies #[trigger] has_pred(
                rows@,
                kk,
            ) by {
                if kk < pre_table.len() {
                    assert(has_pred(pre_rows, kk));
                    let (i, j) = choose|i: int, j: int|
                        0 <= i < pre_rows.len() && 0 <= j < pre_rows[i].arcs@.len() && (
                        #[trigger] pre_rows[i].arcs@[j])@.target == StateId::Unnamed(kk);
                    assert(rows@[i] == pre_rows[i]);
                    assert(rows@[i].arcs@[j]@.target == StateId::Unnamed(kk));
                } else {
                    assert(arcs_hit(arc_views(new_arcs), kk));
                    let j = choose|j: int|
                        0 <= j < arc_views(new_arcs).len() && (#[trigger] arc_views(
                            new_arcs,
                        )[j]).target == StateId::Unnamed(kk);
                    assert(rows@[k as int].arcs@ == new_arcs);
                    assert(arc_views(new_arcs)[j] == new_arcs[j]@);
                    assert(rows@[k as int].arcs@[j]@.target == StateId::Unnamed(kk));
                }
            }
        }
        k += 1;
    }
    let n = table.len();
    let mut sts: Vec<State> = Vec::new();
    let mut i: usize = 0;
    while i < n
        invariant
            i <= n,
            sts@.len() == i,
            forall|j: int| 0 <= j < i ==> (#[trigger] sts@[j])@ == StateId::Unnamed(j),
        decreases n - i,
    {
        sts.push(State::Unnamed(i));
        i += 1;
    }
    let states = StateSet { elems: sts };
    proof {
        assert(states.ids() =~= Seq::new(n as nat, |j: int| StateId::Unnamed(j)));
        assert(states.wf()) by {
            assert forall|j1: int, j2: int|
                0 <= j1 < states.ids().len() && 0 <= j2 < states.ids().len() && j1 != j2
                implies states.ids()[j1] != states.ids()[j2] by {}
        }
        assert forall|t: StateId| finals@.contains(t) implies states@.contains(t) by {
            let j = choose|j: int| 0 <= j < k && t == StateId::Unnamed(j);
            assert(states.ids()[j] == t);
            assert(states.ids().contains(t));
        }
    }
    let dfa = Dfa { states, initial: State::Unnamed(0), finals, transitions: rows };
    proof {
        if nfa.wf() {
            nfa.lemma_targets_in_states();
            assert forall|i2: int| 0 <= i2 < views_of(table@).len() implies (
            #[trigger] views_of(table@)[i2]).subset_of(nfa.states@) by {
                assert(table@[i2]@.subset_of(uni));
                assert forall|t: StateId| uni.contains(t) implies nfa.states@.contains(t) by {}
            }
            lemma_distinct_subsets_bound(views_of(table@), nfa.states@);
        }
    }
    (dfa, table)
}

/// Determinism of the output: every DFA state that construction yields has
/// at most one outgoing transition per symbol, and none on epsilon.
pub proof fn lemma_construction_deterministic(nfa: Nfa, dfa: Dfa, subs: Seq<Set<StateId>>)
    requires
        construction_ok(nfa, dfa, subs),
    ensures
        dfa.deterministic(),
{
    assert forall|i: int| 0 <= i < dfa.transitions@.len() implies crate::automaton::arcs_deterministic(
        arc_views((#[trigger] dfa.transitions@[i]).arcs@),
    ) by {
        let arcs = arc_views(dfa.transitions@[i].arcs@);
        assert(row_ok(nfa, subs, subs[i], arcs));
        assert forall|j: int| 0 <= j < arcs.len() implies (#[trigger] arcs[j]).symbol != EPSILON by {
            assert(arc_ok(nfa, subs, subs[i], arcs[j]));
            assert(EPSILON as u32 == 0);
        }
        assert forall|j1: int, j2: int|
            0 <= j1 < arcs.len() && 0 <= j2 < arcs.len() && j1 != j2 implies (
        #[trigger] arcs[j1]).symbol != (#[trigger] arcs[j2]).symbol by {
            if j1 < j2 {
                assert((arcs[j1].symbol as u32) < (arcs[j2].symbol as u32));
            } else {
                assert((arcs[j2].symbol as u32) < (arcs[j1].symbol as u32));
            }
        }
    }
}

/// The subset-to-identity table is a bijection: distinct subsets get
/// distinct identities, and one subset is never entered twice.
pub proof fn lemma_subset_identity_bijection(
    nfa: Nfa,
    dfa: Dfa,
    subs: Seq<Set<StateId>>,
    i: int,
    j: int,
)
    requires
        construction_ok(nfa, dfa, subs),
        0 <= i < subs.len(),
        0 <= j < subs.len(),
        subs[i] == subs[j],
    ensures
        i == j,
{
}

/// Finality of the output: a DFA state is final exactly when its subset
/// intersects the NFA's final states.
pub proof fn lemma_finality(nfa: Nfa, dfa: Dfa, subs: Seq<Set<StateId>>, i: int)
    requires
        construction_ok(nfa, dfa, subs),
        0 <= i < subs.len(),
    ensures
        dfa.finals@.contains(StateId::Unnamed(i)) <==> marks_final(nfa, subs[i]),
{
}

/// Converts the NFA into an equivalent DFA by the classic subset
/// construction: the DFA's initial state is the epsilon-closure of the
/// NFA's initial state, and exploration proceeds over the 26 lowercase
/// letters in alphabetical order.
pub fn nfa_to_dfa(nfa: &Nfa) -> (dfa: Dfa)
    ensures
        exists|subs: Seq<Set<StateId>>|
            #[trigger] construction_ok(*nfa, dfa, subs) && (nfa.wf() ==> subs.len() <= pow2(
                nfa.states@.len(),
            )),
        dfa.deterministic(),
{
    let r = subset_construction(nfa);
    proof {
        let subs = views_of(r.1@);
        assert(construction_ok(*nfa, r.0, subs) && (nfa.wf() ==> subs.len() <= pow2(
            nfa.states@.len(),
        )));
        lemma_construction_deterministic(*nfa, r.0, subs);
    }
    r.0
}

} // verus!
