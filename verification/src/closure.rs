//! The state-set closure engine: epsilon-closures and symbol-move sets,
//! computed by fixed-point exploration and proved against the path-based
//! reachability relations of the automaton model.

use vstd::prelude::*;
use vstd::set_lib::lemma_len_subset;
use crate::state::{State, StateId};
use crate::state_set::StateSet;
use crate::automaton::{arc_views, arcs_of_rows, Nfa, Transition, EPSILON};

verus! {

/// Epsilon-reachability is reflexive: the one-state walk.
pub proof fn lemma_reach_refl(nfa: Nfa, s: StateId)
    ensures
        nfa.eps_reach(s, s),
{
    reveal(Nfa::eps_reach);
    let p = seq![s];
    assert(nfa.is_eps_path(p));
    assert(p.first() == s && p.last() == s);
}

/// A walk extended by one more epsilon transition is a walk.
proof fn lemma_path_push(nfa: Nfa, p: Seq<StateId>, u: StateId)
    requires
        nfa.is_eps_path(p),
        nfa.eps_edge(p.last(), u),
    ensures
        nfa.is_eps_path(p.push(u)),
    decreases p.len(),
{
    let q = p.push(u);
    if p.len() == 1 {
        assert(q[0] == p[0] && q[1] == u);
        assert(q.drop_first() =~= seq![u]);
        assert(nfa.is_eps_path(seq![u]));
        assert(nfa.eps_edge(q[0], q[1]));
    } else {
        assert(nfa.eps_edge(p[0], p[1]));
        assert(p.drop_first().last() == p.last());
        lemma_path_push(nfa, p.drop_first(), u);
        assert(q.drop_first() =~= p.drop_first().push(u));
        assert(q[0] == p[0] && q[1] == p[1]);
    }
}

/// A reachable state's epsilon successor is reachable: extend the walk.
pub proof fn lemma_reach_step(nfa: Nfa, s: StateId, t: StateId, u: StateId)
    requires
        nfa.eps_reach(s, t),
        nfa.eps_edge(t, u),
    ensures
        nfa.eps_reach(s, u),
{
    reveal(Nfa::eps_reach);
    let p = choose|p: Seq<StateId>| #[trigger] nfa.is_eps_path(p) && p.first() == s && p.last()
        == t;
    lemma_path_push(nfa, p, u);
    let q = p.push(u);
    assert(q.first() == s && q.last() == u);
}

/// A walk that starts inside an epsilon-closed set never leaves it.
proof fn lemma_path_in_closed(nfa: Nfa, ss: Set<StateId>, p: Seq<StateId>)
    requires
        nfa.is_eps_path(p),
        ss.contains(p.first()),
        nfa.eps_closed(ss),
    ensures
        ss.contains(p.last()),
    decreases p.len(),
{
    if p.len() > 1 {
        assert(nfa.eps_edge(p[0], p[1]));
        assert(ss.contains(p[1]));
        assert(p.drop_first().first() == p[1] && p.drop_first().last() == p.last());
        lemma_path_in_closed(nfa, ss, p.drop_first());
    }
}

/// An epsilon-closed set that holds `s` holds everything reachable from `s`.
pub proof fn lemma_closed_contains_reach(nfa: Nfa, ss: Set<StateId>, s: StateId, t: StateId)
    requires
        ss.contains(s),
        nfa.eps_closed(ss),
        nfa.eps_reach(s, t),
    ensures
        ss.contains(t),
{
    reveal(Nfa::eps_reach);
    let p = choose|p: Seq<StateId>| #[trigger] nfa.is_eps_path(p) && p.first() == s && p.last()
        == t;
    lemma_path_in_closed(nfa, ss, p);
}

/// The last state of a walk of two or more states is some transition's
/// target.
proof fn lemma_path_end_target(nfa: Nfa, p: Seq<StateId>)
    requires
        nfa.is_eps_path(p),
        p.len() > 1,
    ensures
        nfa.targets().contains(p.last()),
    decreases p.len(),
{
    if p.len() == 2 {
        assert(nfa.eps_edge(p[0], p[1]));
        nfa.lemma_edge_target(p[0], EPSILON, p[1]);
        assert(p.last() == p[1]);
    } else {
        assert(nfa.eps_edge(p[0], p[1]));
        lemma_path_end_target(nfa, p.drop_first());
        assert(p.drop_first().last() == p.last());
    }
}

/// A state reachable by epsilon transitions is the start itself or some
/// transition's target.
pub proof fn lemma_reach_in_targets(nfa: Nfa, s: StateId, t: StateId)
    requires
        nfa.eps_reach(s, t),
    ensures
        t == s || nfa.targets().contains(t),
{
    reveal(Nfa::eps_reach);
    let p = choose|p: Seq<StateId>| #[trigger] nfa.is_eps_path(p) && p.first() == s && p.last()
        == t;
    if p.len() > 1 {
        lemma_path_end_target(nfa, p);
    }
}

/// The epsilon-closure of a set contains the set and is epsilon-closed.
pub proof fn lemma_closure_set_basic(nfa: Nfa, ss: Set<StateId>)
    ensures
        ss.subset_of(nfa.eps_closure_set(ss)),
        nfa.eps_closed(nfa.eps_closure_set(ss)),
{
    let c = nfa.eps_closure_set(ss);
    assert forall|s: StateId| ss.contains(s) implies c.contains(s) by {
        lemma_reach_refl(nfa, s);
    }
    assert forall|t: StateId, u: StateId| c.contains(t) && #[trigger] nfa.eps_edge(t, u) implies c.contains(
        u,
    ) by {
        let s = choose|s: StateId| ss.contains(s) && #[trigger] nfa.eps_reach(s, t);
        lemma_reach_step(nfa, s, t, u);
    }
}

/// Closing an already epsilon-closed set gives the set back.
pub proof fn lemma_closure_of_closed(nfa: Nfa, ss: Set<StateId>)
    requires
        nfa.eps_closed(ss),
    ensures
        nfa.eps_closure_set(ss) == ss,
{
    lemma_closure_set_basic(nfa, ss);
    assert forall|t: StateId| nfa.eps_closure_set(ss).contains(t) implies ss.contains(t) by {
        let s = choose|s: StateId| ss.contains(s) && #[trigger] nfa.eps_reach(s, t);
        lemma_closed_contains_reach(nfa, ss, s, t);
    }
    assert(nfa.eps_closure_set(ss) =~= ss);
}

/// The epsilon-closure is a fixed point: closing twice is closing once.
pub proof fn lemma_closure_idempotent(nfa: Nfa, ss: Set<StateId>)
    ensures
        nfa.eps_closure_set(nfa.eps_closure_set(ss)) == nfa.eps_closure_set(ss),
{
    lemma_closure_set_basic(nfa, ss);
    lemma_closure_of_closed(nfa, nfa.eps_closure_set(ss));
}

/// In an automaton without epsilon transitions, every epsilon-closure is
/// the singleton of its seed.
pub proof fn lemma_closure_no_epsilon(nfa: Nfa, s: StateId)
    requires
        forall|a: StateId, b: StateId| !(#[trigger] nfa.eps_edge(a, b)),
    ensures
        nfa.eps_closure_of(s) == set![s],
{
    assert forall|t: StateId| nfa.eps_closure_of(s).contains(t) implies t == s by {
        reveal(Nfa::eps_reach);
        let p = choose|p: Seq<StateId>| #[trigger] nfa.is_eps_path(p) && p.first() == s && p.last()
            == t;
        if p.len() > 1 {
            assert(nfa.eps_edge(p[0], p[1]));
        }
    }
    lemma_reach_refl(nfa, s);
    assert(nfa.eps_closure_of(s) =~= set![s]);
}

/// The closure of a set is the closure of the single state when the set is
/// a singleton.
pub proof fn lemma_closure_of_singleton(nfa: Nfa, s: StateId)
    ensures
        nfa.eps_closure_set(set![s]) == nfa.eps_closure_of(s),
{
    assert forall|t: StateId| #![auto] nfa.eps_closure_set(set![s]).contains(t)
        <==> nfa.eps_closure_of(s).contains(t) by {
        if nfa.eps_closure_of(s).contains(t) {
            assert(set![s].contains(s));
        }
    }
    assert(nfa.eps_closure_set(set![s]) =~= nfa.eps_closure_of(s));
}

/// The table row of a state: the arcs of the first row whose source matches,
/// or nothing when no row does.
fn find_arcs<'a>(nfa: &'a Nfa, s: &State) -> (r: Option<&'a Vec<Transition>>)
    ensures
        match r {
            Some(arcs) => arc_views(arcs@) == nfa.arcs_of(s@),
            None => nfa.arcs_of(s@).len() == 0,
        },
{
    let n = nfa.transitions.len();
    proof {
        assert(nfa.transitions@.skip(0) =~= nfa.transitions@);
    }
    let mut i: usize = 0;
    while i < n
        invariant
            n == nfa.transitions@.len(),
            i <= n,
            nfa.arcs_of(s@) == arcs_of_rows(nfa.transitions@.skip(i as int), s@),
        decreases n - i,
    {
        let ghost rest = nfa.transitions@.skip(i as int);
        proof {
            assert(rest[0] == nfa.transitions@[i as int]);
        }
        if nfa.transitions[i].source.same_as(s) {
            proof {
                assert(arcs_of_rows(rest, s@) == arc_views(rest[0].arcs@));
            }
            return Some(&nfa.transitions[i].arcs);
        }
        proof {
            assert(arcs_of_rows(rest, s@) == arcs_of_rows(rest.drop_first(), s@));
            assert(rest.drop_first() =~= nfa.transitions@.skip(i as int + 1));
        }
        i += 1;
    }
    proof {
        assert(nfa.transitions@.skip(n as int) =~= Seq::<crate::automaton::TransRow>::empty());
    }
    None
}

/// All states directly reachable from a member of `states` by exactly one
/// transition reading `symbol`; epsilon transitions are not followed. The
/// result is empty exactly when no member has a transition on the symbol.
pub fn move_states(states: &StateSet, symbol: char, nfa: &Nfa) -> (r: StateSet)
    ensures
        r.wf(),
        r@ == nfa.move_set(states@, symbol),
        (r.ids().len() == 0) <==> !nfa.has_move(states@, symbol),
{
    let mut result = StateSet::new();
    let n = states.len();
    let mut i: usize = 0;
    while i < n
        invariant
            result.wf(),
            n == states.ids().len(),
            i <= n,
            result@.subset_of(nfa.move_set(states@, symbol)),
            forall|k: int, t: StateId|
                0 <= k < i && #[trigger] nfa.edge(states.ids()[k], symbol, t) ==> result@.contains(
                    t,
                ),
        decreases n - i,
    {
        let s = states.get(i);
        let ghost sid = states.ids()[i as int];
        match find_arcs(nfa, s) {
            Some(arcs) => {
                let m = arcs.len();
                let mut j: usize = 0;
                while j < m
                    invariant
                        result.wf(),
                        n == states.ids().len(),
                        i < n,
                        sid == states.ids()[i as int],
                        m == arcs@.len(),
                        arc_views(arcs@) == nfa.arcs_of(sid),
                        j <= m,
                        result@.subset_of(nfa.move_set(states@, symbol)),
                        forall|k: int, t: StateId|
                            0 <= k < i && #[trigger] nfa.edge(states.ids()[k], symbol, t)
                                ==> result@.contains(t),
                        forall|jj: int|
                            0 <= jj < j && (#[trigger] arcs@[jj])@.symbol == symbol
                                ==> result@.contains(arcs@[jj]@.target),
                    decreases m - j,
                {
                    if arcs[j].symbol == symbol {
                        proof {
                            assert(nfa.arcs_of(sid)[j as int] == arcs@[j as int]@);
                            assert(nfa.edge(sid, symbol, arcs@[j as int]@.target));
                            assert(states@.contains(sid)) by {
                                assert(states.ids().contains(sid));
                            }
                            assert(nfa.move_set(states@, symbol).contains(
                                arcs@[j as int]@.target,
                            ));
                        }
                        result.insert(arcs[j].target.duplicate());
                    }
                    j += 1;
                }
                proof {
                    assert forall|t: StateId| nfa.edge(sid, symbol, t) implies result@.contains(
                        t,
                    ) by {
                        let jj = choose|jj: int|
                            0 <= jj < nfa.arcs_of(sid).len() && (#[trigger] nfa.arcs_of(
                                sid,
                            )[jj]).symbol == symbol && nfa.arcs_of(sid)[jj].target == t;
                        assert(arcs@[jj]@ == nfa.arcs_of(sid)[jj]);
                    }
                }
            },
            None => {
                proof {
                    assert forall|t: StateId| !nfa.edge(sid, symbol, t) by {}
                }
            },
        }
        i += 1;
    }
    proof {
        assert forall|t: StateId| nfa.move_set(states@, symbol).contains(t) implies result@.contains(
            t,
        ) by {
            let s = choose|s: StateId| states@.contains(s) && #[trigger] nfa.edge(s, symbol, t);
            let k = choose|k: int| 0 <= k < states.ids().len() && states.ids()[k] == s;
            assert(nfa.edge(states.ids()[k], symbol, t));
        }
        assert(result@ =~= nfa.move_set(states@, symbol));
        if result.ids().len() == 0 {
            assert(result.ids().to_set() =~= Set::<StateId>::empty());
            assert(!nfa.has_move(states@, symbol));
        } else {
            assert(result.ids().contains(result.ids()[0]));
            assert(nfa.move_set(states@, symbol).contains(result.ids()[0]));
        }
    }
    result
}

/// The bound inside which a closure computation stays: its seeds together
/// with every transition target of the automaton.
pub open spec fn closure_universe(nfa: Nfa, seed: Set<StateId>) -> Set<StateId> {
    seed.union(nfa.targets())
}

/// There is a seed in `seed` from which `t` is epsilon-reachable.
pub open spec fn reached_from(nfa: Nfa, seed: Set<StateId>, t: StateId) -> bool {
    exists|s: StateId| seed.contains(s) && #[trigger] nfa.eps_reach(s, t)
}

/// The epsilon successors of one state: everything one epsilon transition
/// away.
pub open spec fn eps_targets(nfa: Nfa, s: StateId) -> Set<StateId> {
    Set::new(|t: StateId| nfa.eps_edge(s, t))
}

/// The epsilon targets among the first `j` arcs of a row.
spec fn eps_targets_prefix(arcs: Seq<crate::automaton::ArcId>, j: int) -> Set<StateId> {
    Set::new(
        |t: StateId|
            exists|jj: int|
                0 <= jj < j && (#[trigger] arcs[jj]).symbol == EPSILON && arcs[jj].target == t,
    )
}

/// Adds to `cl` every state one epsilon transition away from `s`, leaving
/// the elements already there in place.
fn add_eps_targets(cl: &mut StateSet, s: &State, nfa: &Nfa)
    requires
        old(cl).wf(),
    ensures
        final(cl).wf(),
        old(cl).ids().len() <= final(cl).ids().len(),
        forall|k: int| 0 <= k < old(cl).ids().len() ==> final(cl).ids()[k] == old(cl).ids()[k],
        final(cl)@ == old(cl)@.union(eps_targets(*nfa, s@)),
{
    match find_arcs(nfa, s) {
        Some(arcs) => {
            let m = arcs.len();
            let mut j: usize = 0;
            while j < m
                invariant
                    cl.wf(),
                    m == arcs@.len(),
                    arc_views(arcs@) == nfa.arcs_of(s@),
                    j <= m,
                    old(cl).ids().len() <= cl.ids().len(),
                    forall|k: int|
                        0 <= k < old(cl).ids().len() ==> cl.ids()[k] == old(cl).ids()[k],
                    cl@ == old(cl)@.union(eps_targets_prefix(arc_views(arcs@), j as int)),
                decreases m - j,
            {
                proof {
                    assert(arc_views(arcs@)[j as int] == arcs@[j as int]@);
                }
                let ghost pre = cl@;
                if arcs[j].symbol == EPSILON {
                    cl.insert(arcs[j].target.duplicate());
                }
                proof {
                    assert forall|t: StateId| #![auto] cl@.contains(t) <==> old(cl)@.union(
                        eps_targets_prefix(arc_views(arcs@), j as int + 1),
                    ).contains(t) by {
                        let av = arc_views(arcs@);
                        if eps_targets_prefix(av, j as int + 1).contains(t) {
                            let jj = choose|jj: int|
                                0 <= jj < j + 1 && (#[trigger] av[jj]).symbol == EPSILON
                                    && av[jj].target == t;
                            if jj < j {
                                assert(eps_targets_prefix(av, j as int).contains(t));
                            }
                        }
                        if cl@.contains(t) && !pre.contains(t) {
                            assert(av[j as int].symbol == EPSILON && av[j as int].target == t);
                        }
                    }
                    assert(cl@ =~= old(cl)@.union(
                        eps_targets_prefix(arc_views(arcs@), j as int + 1),
                    ));
                }
                j += 1;
            }
            proof {
                let av = arc_views(arcs@);
                assert forall|t: StateId| #![auto] eps_targets_prefix(av, m as int).contains(t)
                    <==> eps_targets(*nfa, s@).contains(t) by {
                    if eps_targets_prefix(av, m as int).contains(t) {
                        let jj = choose|jj: int|
                            0 <= jj < m && (#[trigger] av[jj]).symbol == EPSILON && av[jj].target
                                == t;
                        assert(nfa.arcs_of(s@)[jj] == av[jj]);
                        assert(nfa.eps_edge(s@, t));
                    }
                    if eps_targets(*nfa, s@).contains(t) {
                        let jj = choose|jj: int|
                            0 <= jj < nfa.arcs_of(s@).len() && (#[trigger] nfa.arcs_of(
                                s@,
                            )[jj]).symbol == EPSILON && nfa.arcs_of(s@)[jj].target == t;
                        assert(av[jj] == nfa.arcs_of(s@)[jj]);
                    }
                }
                assert(eps_targets_prefix(av, m as int) =~= eps_targets(*nfa, s@));
            }
        },
        None => {
            proof {
                assert forall|t: StateId| !eps_targets(*nfa, s@).contains(t) by {}
                assert(cl@ =~= old(cl)@.union(eps_targets(*nfa, s@)));
            }
        },
    }
}

/// Every state of a well-formed set holding exactly the seeds is reached
/// from a seed.
proof fn lemma_seed_reached(nfa: Nfa, seed: Set<StateId>, cl: StateSet)
    requires
        cl@ == seed,
    ensures
        forall|k: int|
            0 <= k < cl.ids().len() ==> reached_from(nfa, seed, #[trigger] cl.ids()[k]),
{
    assert forall|k: int| 0 <= k < cl.ids().len() implies reached_from(
        nfa,
        seed,
        #[trigger] cl.ids()[k],
    ) by {
        assert(cl.ids().contains(cl.ids()[k]));
        assert(cl@.contains(cl.ids()[k]));
        lemma_reach_refl(nfa, cl.ids()[k]);
    }
}

/// Expanding a reached state by its epsilon successors keeps every element
/// reached from a seed, and keeps the set inside the closure universe.
proof fn lemma_expand_maintains(
    nfa: Nfa,
    seed: Set<StateId>,
    pre: StateSet,
    post: StateSet,
    sid: StateId,
)
    requires
        pre.ids().len() <= post.ids().len(),
        forall|k: int| 0 <= k < pre.ids().len() ==> post.ids()[k] == pre.ids()[k],
        post@ == pre@.union(eps_targets(nfa, sid)),
        forall|k: int|
            0 <= k < pre.ids().len() ==> reached_from(nfa, seed, #[trigger] pre.ids()[k]),
        reached_from(nfa, seed, sid),
        pre@.subset_of(closure_universe(nfa, seed)),
    ensures
        forall|k: int|
            0 <= k < post.ids().len() ==> reached_from(nfa, seed, #[trigger] post.ids()[k]),
        post@.subset_of(closure_universe(nfa, seed)),
{
    assert forall|t: StateId| eps_targets(nfa, sid).contains(t) implies reached_from(
        nfa,
        seed,
        t,
    ) && closure_universe(nfa, seed).contains(t) by {
        let s0 = choose|s0: StateId| seed.contains(s0) && #[trigger] nfa.eps_reach(s0, sid);
        lemma_reach_step(nfa, s0, sid, t);
        nfa.lemma_edge_target(sid, EPSILON, t);
    }
    assert forall|k: int| 0 <= k < post.ids().len() implies reached_from(
        nfa,
        seed,
        #[trigger] post.ids()[k],
    ) by {
        if k >= pre.ids().len() {
            let t = post.ids()[k];
            assert(post.ids().contains(t));
            assert(post@.contains(t));
            if pre@.contains(t) {
                let kk = choose|kk: int| 0 <= kk < pre.ids().len() && pre.ids()[kk] == t;
                assert(reached_from(nfa, seed, pre.ids()[kk]));
            }
        }
    }
}

/// A well-formed set is epsilon-closed when each element's epsilon
/// successors stay inside it.
proof fn lemma_ids_closed(nfa: Nfa, cl: StateSet)
    requires
        forall|k: int, t: StateId|
            0 <= k < cl.ids().len() && #[trigger] nfa.eps_edge(cl.ids()[k], t) ==> cl@.contains(t),
    ensures
        nfa.eps_closed(cl@),
{
    assert forall|s: StateId, t: StateId|
        cl@.contains(s) && #[trigger] nfa.eps_edge(s, t) implies cl@.contains(t) by {
        let k = choose|k: int| 0 <= k < cl.ids().len() && cl.ids()[k] == s;
        assert(nfa.eps_edge(cl.ids()[k], t));
    }
}

/// Everything reached from a seed lies inside the closure of the seeds.
proof fn lemma_reached_below_closure(nfa: Nfa, seed: Set<StateId>, cl: StateSet)
    requires
        forall|k: int|
            0 <= k < cl.ids().len() ==> reached_from(nfa, seed, #[trigger] cl.ids()[k]),
    ensures
        cl@.subset_of(nfa.eps_closure_set(seed)),
{
    assert forall|t: StateId| cl@.contains(t) implies nfa.eps_closure_set(seed).contains(t) by {
        let k = choose|k: int| 0 <= k < cl.ids().len() && cl.ids()[k] == t;
        assert(reached_from(nfa, seed, cl.ids()[k]));
    }
}

/// An epsilon-closed superset of the seeds contains their closure.
proof fn lemma_closed_above_closure(nfa: Nfa, seed: Set<StateId>, ss: Set<StateId>)
    requires
        seed.subset_of(ss),
        nfa.eps_closed(ss),
    ensures
        nfa.eps_closure_set(seed).subset_of(ss),
{
    assert forall|t: StateId| nfa.eps_closure_set(seed).contains(t) implies ss.contains(t) by {
        let s = choose|s: StateId| seed.contains(s) && #[trigger] nfa.eps_reach(s, t);
        lemma_closed_contains_reach(nfa, ss, s, t);
    }
}

/// A set that holds the seeds, is epsilon-closed, and whose every element
/// is reached from a seed, is exactly the epsilon-closure of the seeds.
proof fn lemma_saturated_is_closure(nfa: Nfa, seed: Set<StateId>, cl: StateSet)
    requires
        seed.subset_of(cl@),
        forall|k: int|
            0 <= k < cl.ids().len() ==> reached_from(nfa, seed, #[trigger] cl.ids()[k]),
        forall|k: int, t: StateId|
            0 <= k < cl.ids().len() && #[trigger] nfa.eps_edge(cl.ids()[k], t) ==> cl@.contains(t),
    ensures
        cl@ == nfa.eps_closure_set(seed),
{
    lemma_ids_closed(nfa, cl);
    lemma_reached_below_closure(nfa, seed, cl);
    lemma_closed_above_closure(nfa, seed, cl@);
    assert(cl@ =~= nfa.eps_closure_set(seed));
}

/// The epsilon-closure of a set of states: the smallest superset closed
/// under epsilon transitions, computed by worklist saturation.
pub fn epsilon_closure_set(states: &StateSet, nfa: &Nfa) -> (r: StateSet)
    requires
        states.wf(),
    ensures
        r.wf(),
        r@ == nfa.eps_closure_set(states@),
{
    let ghost uni = closure_universe(*nfa, states@);
    proof {
        broadcast use vstd::seq_lib::seq_to_set_is_finite;

        nfa.lemma_targets_finite();
        assert(uni.finite());
    }
    let mut cl = states.duplicate();
    proof {
        cl.ids().unique_seq_to_set();
        lemma_len_subset(cl@, uni);
        lemma_seed_reached(*nfa, states@, cl);
    }
    let mut i: usize = 0;
    while i < cl.len()
        invariant
            cl.wf(),
            uni == closure_universe(*nfa, states@),
            uni.finite(),
            i <= cl.ids().len(),
            cl.ids().len() <= uni.len(),
            states@.subset_of(cl@),
            cl@.subset_of(uni),
            forall|k: int|
                0 <= k < cl.ids().len() ==> reached_from(*nfa, states@, #[trigger] cl.ids()[k]),
            forall|k: int, t: StateId|
                0 <= k < i && #[trigger] nfa.eps_edge(cl.ids()[k], t) ==> cl@.contains(t),
        decreases uni.len() - i,
    {
        let s_i = cl.get(i).duplicate();
        let ghost sid = cl.ids()[i as int];
        let ghost pre = cl;
        add_eps_targets(&mut cl, &s_i, nfa);
        proof {
            lemma_expand_maintains(*nfa, states@, pre, cl, sid);
            cl.ids().unique_seq_to_set();
            lemma_len_subset(cl@, uni);
        }
        i += 1;
    }
    proof {
        lemma_saturated_is_closure(*nfa, states@, cl);
    }
    cl
}

/// The epsilon-closure of one state: the smallest set containing it and
/// closed under epsilon transitions.
pub fn epsilon_closure(state: &State, nfa: &Nfa) -> (r: StateSet)
    ensures
        r.wf(),
        r@ == nfa.eps_closure_of(state@),
{
    let mut seed = StateSet::new();
    seed.insert(state.duplicate());
    let r = epsilon_closure_set(&seed, nfa);
    proof {
        assert(seed@ =~= set![state@]);
        lemma_closure_of_singleton(*nfa, state@);
    }
    r
}

} // verus!
