//! Finite sets of state identities, kept as duplicate-free vectors so that
//! iteration order is deterministic (insertion order).

use vstd::prelude::*;
use crate::state::{State, StateId};

verus! {

/// A finite set of state identities. The elements are stored in insertion
/// order and, when the set is well-formed, no identity occurs twice.
#[derive(Debug)]
pub struct StateSet {
    pub elems: Vec<State>,
}

impl View for StateSet {
    type V = Set<StateId>;

    open spec fn view(&self) -> Set<StateId> {
        self.ids().to_set()
    }
}

impl StateSet {
    /// The identities held, in insertion order.
    pub open spec fn ids(&self) -> Seq<StateId> {
        self.elems@.map_values(|s: State| s@)
    }

    /// Well-formedness: no identity occurs twice.
    pub open spec fn wf(&self) -> bool {
        self.ids().no_duplicates()
    }

    /// The empty set.
    pub fn new() -> (r: StateSet)
        ensures
            r.wf(),
            r.ids() == Seq::<StateId>::empty(),
            r@ == Set::<StateId>::empty(),
    {
        let r = StateSet { elems: Vec::new() };
        proof {
            assert(r.ids() =~= Seq::<StateId>::empty());
            assert(r@ =~= Set::<StateId>::empty());
        }
        r
    }

    /// How many identities the set holds.
    pub fn len(&self) -> (n: usize)
        ensures
            n == self.ids().len(),
            self.wf() ==> n == self@.len(),
    {
        proof {
            if self.wf() {
                self.ids().unique_seq_to_set();
            }
        }
        self.elems.len()
    }

    /// Whether the set holds nothing.
    pub fn is_empty(&self) -> (r: bool)
        ensures
            r == (self.ids().len() == 0),
            r ==> self@ == Set::<StateId>::empty(),
            !r ==> self@.contains(self.ids()[0]),
    {
        proof {
            if self.elems.len() == 0 {
                assert(self@ =~= Set::<StateId>::empty());
            } else {
                assert(self.ids().contains(self.ids()[0]));
            }
        }
        self.elems.len() == 0
    }

    /// The state at a position of the insertion order.
    pub fn get(&self, i: usize) -> (r: &State)
        requires
            i < self.ids().len(),
        ensures
            r@ == self.ids()[i as int],
            self@.contains(r@),
    {
        proof {
            assert(self.ids().contains(self.ids()[i as int]));
        }
        &self.elems[i]
    }

    /// Membership test.
    pub fn contains(&self, s: &State) -> (r: bool)
        ensures
            r == self@.contains(s@),
    {
        let n = self.elems.len();
        let mut i: usize = 0;
        while i < n
            invariant
                n == self.ids().len(),
                i <= n,
                forall|k: int| 0 <= k < i ==> self.ids()[k] != s@,
            decreases n - i,
        {
            if self.elems[i].same_as(s) {
                proof {
                    assert(self.ids()[i as int] == s@);
                    assert(self.ids().contains(s@));
                }
                return true;
            }
            i += 1;
        }
        proof {
            assert(!self.ids().contains(s@));
        }
        false
    }

    /// Adds an identity; nothing changes when it is already present.
    pub fn insert(&mut self, s: State)
        ensures
            old(self).wf() ==> final(self).wf(),
            old(self)@.contains(s@) ==> final(self).ids() == old(self).ids(),
            !old(self)@.contains(s@) ==> final(self).ids() == old(self).ids().push(s@),
            final(self)@ == old(self)@.insert(s@),
    {
        if !self.contains(&s) {
            let ghost pre = self.ids();
            self.elems.push(s);
            proof {
                assert(self.ids() =~= pre.push(s@));
                assert(!pre.contains(s@));
                pre.lemma_push_to_set_commute(s@);
                assert(self@ =~= old(self)@.insert(s@));
                if pre.no_duplicates() {
                    assert forall|i: int, j: int|
                        0 <= i < self.ids().len() && 0 <= j < self.ids().len() && i != j
                        implies self.ids()[i] != self.ids()[j] by {
                        if i < pre.len() && j < pre.len() {
                            assert(pre[i] != pre[j]);
                        } else if j == pre.len() {
                            assert(self.ids()[i] == pre[i]);
                            assert(!pre.contains(pre[i]) ==> false);
                        } else {
                            assert(self.ids()[j] == pre[j]);
                            assert(!pre.contains(pre[j]) ==> false);
                        }
                    }
                }
            }
        } else {
            proof {
                assert(self.ids() =~= old(self).ids());
                assert(self@ =~= old(self)@.insert(s@));
            }
        }
    }

    /// A fresh set holding the same identities in the same order.
    pub fn duplicate(&self) -> (r: StateSet)
        ensures
            r.ids() == self.ids(),
            r@ == self@,
            r.wf() == self.wf(),
    {
        let n = self.elems.len();
        let mut elems: Vec<State> = Vec::new();
        let mut i: usize = 0;
        while i < n
            invariant
                n == self.ids().len(),
                i <= n,
                elems@.map_values(|s: State| s@) == self.ids().take(i as int),
            decreases n - i,
        {
            let ghost pre = elems@.map_values(|s: State| s@);
            elems.push(self.elems[i].duplicate());
            proof {
                assert(elems@.map_values(|s: State| s@) =~= pre.push(self.ids()[i as int]));
                assert(pre.push(self.ids()[i as int]) =~= self.ids().take(i as int + 1));
            }
            i += 1;
        }
        let r = StateSet { elems };
        proof {
            assert(r.ids() =~= self.ids());
        }
        r
    }

    /// Whether every identity here also stands in `other`.
    pub fn is_subset_of(&self, other: &StateSet) -> (r: bool)
        ensures
            r == self@.subset_of(other@),
    {
        let n = self.elems.len();
        let mut i: usize = 0;
        while i < n
            invariant
                n == self.ids().len(),
                i <= n,
                forall|k: int| 0 <= k < i ==> other@.contains(#[trigger] self.ids()[k]),
            decreases n - i,
        {
            if !other.contains(&self.elems[i]) {
                proof {
                    assert(self.ids().contains(self.ids()[i as int]));
                }
                return false;
            }
            i += 1;
        }
        proof {
            assert forall|t: StateId| self@.contains(t) implies other@.contains(t) by {
                let k = choose|k: int| 0 <= k < self.ids().len() && self.ids()[k] == t;
                assert(other@.contains(self.ids()[k]));
            }
        }
        true
    }

    /// Equality as sets of identities.
    pub fn set_eq(&self, other: &StateSet) -> (r: bool)
        ensures
            r == (self@ == other@),
    {
        let r = self.is_subset_of(other) && other.is_subset_of(self);
        proof {
            if r {
                assert(self@ =~= other@);
            }
        }
        r
    }

    /// Decides well-formedness: whether no identity occurs twice.
    pub fn is_well_formed(&self) -> (r: bool)
        ensures
            r == self.wf(),
    {
        let n = self.elems.len();
        let mut i: usize = 0;
        while i < n
            invariant
                n == self.ids().len(),
                i <= n,
                forall|k1: int, k2: int| 0 <= k1 < k2 < i ==> self.ids()[k1] != self.ids()[k2],
            decreases n - i,
        {
            let mut j: usize = 0;
            while j < i
                invariant
                    n == self.ids().len(),
                    j <= i,
                    i < n,
                    forall|k: int| 0 <= k < j ==> self.ids()[k] != self.ids()[i as int],
                decreases i - j,
            {
                if self.elems[j].same_as(&self.elems[i]) {
                    proof {
                        assert(self.ids()[j as int] == self.ids()[i as int]);
                        if self.wf() {
                            assert(self.ids()[j as int] != self.ids()[i as int]);
                        }
                    }
                    return false;
                }
                j += 1;
            }
            i += 1;
        }
        proof {
            assert forall|k1: int, k2: int|
                0 <= k1 < self.ids().len() && 0 <= k2 < self.ids().len() && k1 != k2
                implies self.ids()[k1] != self.ids()[k2] by {
                if k1 < k2 {
                    assert(self.ids()[k1] != self.ids()[k2]);
                } else {
                    assert(self.ids()[k2] != self.ids()[k1]);
                }
            }
        }
        true
    }

    /// Whether the two sets share an identity.
    pub fn intersects(&self, other: &StateSet) -> (r: bool)
        ensures
            r == exists|t: StateId| self@.contains(t) && other@.contains(t),
    {
        let n = self.elems.len();
        let mut i: usize = 0;
        while i < n
            invariant
                n == self.ids().len(),
                i <= n,
                forall|k: int| 0 <= k < i ==> !other@.contains(#[trigger] self.ids()[k]),
            decreases n - i,
        {
            if other.contains(&self.elems[i]) {
                proof {
                    assert(self.ids().contains(self.ids()[i as int]));
                    assert(self@.contains(self.ids()[i as int]));
                }
                return true;
            }
            i += 1;
        }
        proof {
            assert forall|t: StateId| self@.contains(t) implies !other@.contains(t) by {
                let k = choose|k: int| 0 <= k < self.ids().len() && self.ids()[k] == t;
            }
        }
        false
    }
}

} // verus!
