//! Counting distinct subsets of a finite set: the bound behind termination
//! of the powerset exploration.

use vstd::prelude::*;
use vstd::set_lib::{lemma_len_subset, lemma_len_union};

verus! {

/// Two to the n-th power.
pub open spec fn pow2(n: nat) -> nat
    decreases n,
{
    if n == 0 {
        1nat
    } else {
        2 * pow2((n - 1) as nat)
    }
}

/// Two to any power is positive.
pub proof fn lemma_pow2_pos(n: nat)
    ensures
        pow2(n) >= 1,
    decreases n,
{
    if n > 0 {
        lemma_pow2_pos((n - 1) as nat);
    }
}

/// The subsets of `s`, gathered into one set.
pub open spec fn subsets_of<A>(s: Set<A>) -> Set<Set<A>> {
    Set::new(|t: Set<A>| t.subset_of(s))
}

/// The image of a finite set is finite and no larger.
proof fn lemma_map_len<A, B>(s: Set<A>, f: spec_fn(A) -> B)
    requires
        s.finite(),
    ensures
        s.map(f).finite(),
        s.map(f).len() <= s.len(),
    decreases s.len(),
{
    if s.len() == 0 {
        s.lemma_len0_is_empty();
        assert(s.map(f) =~= Set::<B>::empty());
    } else {
        if !(exists|a: A| s.contains(a)) {
            assert(s =~= Set::<A>::empty());
        }
        let x = s.choose();
        let s0 = s.remove(x);
        lemma_map_len(s0, f);
        assert(s.map(f) =~= s0.map(f).insert(f(x))) by {
            assert forall|b: B| #![auto] s.map(f).contains(b) implies s0.map(f).insert(f(x)).contains(
                b,
            ) by {
                let a = choose|a: A| s.contains(a) && f(a) == b;
                if a != x {
                    assert(s0.contains(a));
                }
            }
            assert forall|b: B| #![auto] s0.map(f).insert(f(x)).contains(b) implies s.map(
                f,
            ).contains(b) by {
                if b == f(x) {
                    assert(s.contains(x) && f(x) == b);
                } else {
                    let a = choose|a: A| s0.contains(a) && f(a) == b;
                    assert(s.contains(a));
                }
            }
        }
    }
}

/// A finite set of `n` elements has at most `pow2(n)` subsets.
proof fn lemma_subsets_of_len<A>(s: Set<A>)
    requires
        s.finite(),
    ensures
        subsets_of(s).finite(),
        subsets_of(s).len() <= pow2(s.len()),
    decreases s.len(),
{
    if s.len() == 0 {
        s.lemma_len0_is_empty();
        assert(subsets_of(s) =~= Set::<Set<A>>::empty().insert(Set::<A>::empty())) by {
            assert forall|t: Set<A>| subsets_of(s).contains(t) implies t == Set::<A>::empty() by {
                assert(t =~= Set::<A>::empty());
            }
            assert(subsets_of(s).contains(Set::<A>::empty()));
        }
    } else {
        if !(exists|a: A| s.contains(a)) {
            assert(s =~= Set::<A>::empty());
        }
        let x = s.choose();
        let s0 = s.remove(x);
        lemma_subsets_of_len(s0);
        let with_x = subsets_of(s0).map(|t: Set<A>| t.insert(x));
        lemma_map_len(subsets_of(s0), |t: Set<A>| t.insert(x));
        let both = subsets_of(s0).union(with_x);
        lemma_len_union(subsets_of(s0), with_x);
        assert(subsets_of(s).subset_of(both)) by {
            assert forall|t: Set<A>| subsets_of(s).contains(t) implies both.contains(t) by {
                if t.contains(x) {
                    let t0 = t.remove(x);
                    assert(t0.subset_of(s0));
                    assert(subsets_of(s0).contains(t0));
                    assert(t0.insert(x) =~= t);
                    assert(with_x.contains(t));
                } else {
                    assert(t.subset_of(s0));
                }
            }
        }
        lemma_len_subset(subsets_of(s), both);
        assert(s0.len() == s.len() - 1);
        assert(pow2(s.len()) == 2 * pow2(s0.len()));
    }
}

/// A sequence of pairwise distinct subsets of a finite set of `n` elements
/// has at most `pow2(n)` entries.
pub proof fn lemma_distinct_subsets_bound<A>(subs: Seq<Set<A>>, s: Set<A>)
    requires
        s.finite(),
        subs.no_duplicates(),
        forall|i: int| 0 <= i < subs.len() ==> (#[trigger] subs[i]).subset_of(s),
    ensures
        subs.len() <= pow2(s.len()),
{
    subs.unique_seq_to_set();
    assert(subs.to_set().subset_of(subsets_of(s))) by {
        assert forall|t: Set<A>| subs.to_set().contains(t) implies subsets_of(s).contains(t) by {
            let i = choose|i: int| 0 <= i < subs.len() && subs[i] == t;
            assert(subs[i].subset_of(s));
        }
    }
    lemma_subsets_of_len(s);
    lemma_len_subset(subs.to_set(), subsets_of(s));
}

} // verus!
