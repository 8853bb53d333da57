//! Sets of registers.

use crate::data_structures::Reg;
use crate::seq_facts::lemma_take_set;
use std::collections::HashSet;
use vstd::prelude::*;

verus! {

broadcast use vstd::std_specs::hash::group_hash_axioms;

/// A set of registers. It is walked in the order in which its elements came in.
pub struct SparseSet {
    elems: Vec<Reg>,
    members: HashSet<u32>,
}

impl View for SparseSet {
    type V = Set<Reg>;

    open spec fn view(&self) -> Set<Reg> {
        self.order().to_set()
    }
}

impl SparseSet {
    /// The elements in the order in which the set is walked.
    pub closed spec fn order(&self) -> Seq<Reg> {
        self.elems@
    }

    /// No element is listed twice, and the index holds exactly the listed elements.
    pub closed spec fn wf(&self) -> bool {
        &&& self.elems@.no_duplicates()
        &&& forall|r: Reg| self.elems@.contains(r) <==> #[trigger] self.members@.contains(r.bits)
    }

    /// The walk meets each element once.
    pub proof fn lemma_order(&self)
        requires
            self.wf(),
        ensures
            self.order().no_duplicates(),
            self@.finite(),
            self@.len() == self.order().len(),
    {
        self.elems@.unique_seq_to_set();
        vstd::seq_lib::seq_to_set_is_finite(self.elems@);
    }

    pub fn empty() -> (s: SparseSet)
        ensures
            s.wf(),
            s.order() == Seq::<Reg>::empty(),
            s@ == Set::<Reg>::empty(),
    {
        SparseSet { elems: Vec::new(), members: HashSet::new() }
    }

    pub fn contains(&self, r: Reg) -> (b: bool)
        requires
            self.wf(),
        ensures
            b == self@.contains(r),
    {
        self.members.contains(&r.bits)
    }

    /// Adds an element; true if it is new.
    pub fn insert(&mut self, r: Reg) -> (new: bool)
        requires
            old(self).wf(),
        ensures
            final(self).wf(),
            new == !old(self)@.contains(r),
            final(self).order() == (if new { old(self).order().push(r) } else { old(self).order() }),
            final(self)@ == old(self)@.insert(r),
    {
        let ghost before = self.elems@;
        if self.members.contains(&r.bits) {
            assert(before.to_set() =~= before.to_set().insert(r));
            return false;
        }
        self.elems.push(r);
        self.members.insert(r.bits);
        proof {
            assert(self.elems@ == before.push(r));
            assert(self.elems@[before.len() as int] == r);
            assert forall|x: Reg| self.elems@.contains(x) <==> (before.contains(x) || x == r) by {
                if before.contains(x) {
                    let j = choose|j: int| 0 <= j < before.len() && before[j] == x;
                    assert(self.elems@[j] == x);
                }
            }
            assert(self@ =~= before.to_set().insert(r));
        }
        true
    }

    /// The set of the elements of a vector, which may hold an element more than once.
    pub fn from_vec(v: Vec<Reg>) -> (s: SparseSet)
        ensures
            s.wf(),
            s@ == v@.to_set(),
    {
        let mut s = SparseSet::empty();
        let mut i: usize = 0;
        while i < v.len()
            invariant
                i <= v@.len(),
                s.wf(),
                s@ == v@.take(i as int).to_set(),
            decreases v@.len() - i,
        {
            s.insert(v[i]);
            proof {
                lemma_take_set(v@, i as int);
            }
            i += 1;
        }
        assert(v@.take(i as int) =~= v@);
        s
    }

    /// Whether every element is one of `other`.
    pub fn is_subset_of(&self, other: &SparseSet) -> (b: bool)
        requires
            self.wf(),
            other.wf(),
        ensures
            b == self@.subset_of(other@),
    {
        let mut i: usize = 0;
        while i < self.elems.len()
            invariant
                i <= self.elems@.len(),
                other.wf(),
                forall|j: int| 0 <= j < i ==> other@.contains(#[trigger] self.elems@[j]),
            decreases self.elems@.len() - i,
        {
            if !other.contains(self.elems[i]) {
                assert(self@.contains(self.elems@[i as int]));
                return false;
            }
            i += 1;
        }
        true
    }

    /// Adds all elements of `other`; true if one of them is new.
    pub fn union(&mut self, other: &SparseSet) -> (grew: bool)
        requires
            old(self).wf(),
            other.wf(),
        ensures
            final(self).wf(),
            final(self)@ == old(self)@.union(other@),
            grew == !other@.subset_of(old(self)@),
    {
        let mut grew = false;
        let mut i: usize = 0;
        while i < other.elems.len()
            invariant
                i <= other.elems@.len(),
                self.wf(),
                self@ == old(self)@.union(other.elems@.take(i as int).to_set()),
                grew == exists|j: int|
                    0 <= j < i && !old(self)@.contains(#[trigger] other.elems@[j]),
            decreases other.elems@.len() - i,
        {
            let ghost before = self@;
            let new = self.insert(other.elems[i]);
            proof {
                lemma_take_set(other.elems@, i as int);
                assert(self@ =~= old(self)@.union(other.elems@.take(i + 1).to_set()));
                if new {
                    assert(!old(self)@.contains(other.elems@[i as int]));
                }
                if !old(self)@.contains(other.elems@[i as int]) && !new {
                    let t = other.elems@.take(i as int);
                    let j = choose|j: int| 0 <= j < t.len() && t[j] == other.elems@[i as int];
                    assert(!old(self)@.contains(other.elems@[j]));
                }
            }
            grew = grew || new;
            i += 1;
        }
        proof {
            assert(other.elems@.take(i as int) =~= other.elems@);
            if grew {
                let j = choose|j: int|
                    0 <= j < i && !old(self)@.contains(#[trigger] other.elems@[j]);
                assert(other@.contains(other.elems@[j]));
            }
        }
        grew
    }

    /// The elements, in the order of the walk.
    pub fn elems(&self) -> (v: &Vec<Reg>)
        ensures
            v@ == self.order(),
    {
        &self.elems
    }
}

/// The sets of a vector.
pub open spec fn set_views(v: Seq<SparseSet>) -> Seq<Set<Reg>> {
    v.map_values(|s: SparseSet| s@)
}

/// All sets of a vector are well-formed.
pub open spec fn all_wf(v: Seq<SparseSet>) -> bool {
    forall|k: int| 0 <= k < v.len() ==> (#[trigger] v[k]).wf()
}

} // verus!
