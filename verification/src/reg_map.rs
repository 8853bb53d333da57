//! Maps keyed by registers.

use crate::data_structures::Reg;
use std::collections::HashMap;
use vstd::prelude::*;

verus! {

broadcast use vstd::std_specs::hash::group_hash_axioms;

/// A map from registers to values. It is walked in no particular order.
pub struct RegMap<V> {
    entries: HashMap<u32, V>,
}

impl<V> View for RegMap<V> {
    type V = Map<Reg, V>;

    closed spec fn view(&self) -> Map<Reg, V> {
        Map::new(
            |r: Reg| self.entries@.contains_key(r.bits),
            |r: Reg| self.entries@[r.bits],
        )
    }
}

impl<V> RegMap<V> {
    pub fn new() -> (m: Self)
        ensures
            m@ == Map::<Reg, V>::empty(),
    {
        RegMap { entries: HashMap::new() }
    }

    pub fn get(&self, r: Reg) -> (v: Option<&V>)
        ensures
            v == (if self@.contains_key(r) { Some(&self@[r]) } else { None }),
    {
        self.entries.get(&r.bits)
    }

    pub fn insert(&mut self, r: Reg, v: V)
        ensures
            final(self)@ == old(self)@.insert(r, v),
    {
        self.entries.insert(r.bits, v);
    }

    pub fn remove(&mut self, r: Reg) -> (v: Option<V>)
        ensures
            final(self)@ == old(self)@.remove(r),
            v == (if old(self)@.contains_key(r) { Some(old(self)@[r]) } else { None }),
    {
        self.entries.remove(&r.bits)
    }

    /// The registers that the map holds, each once.
    pub fn regs(&self) -> (regs: Vec<Reg>)
        ensures
            regs@.no_duplicates(),
            forall|r: Reg| regs@.contains(r) <==> self@.contains_key(r),
    {
        let mut regs: Vec<Reg> = Vec::new();
        let ghost keys = vstd::std_specs::iter::IteratorSpec::remaining(&self.entries.keys()).unref();
        for k in it: self.entries.keys()
            invariant
                it.seq().unref() == keys,
                it.seq().no_duplicates(),
                keys.to_set() == self.entries@.dom(),
                regs@.len() == it.index(),
                forall|j: int| 0 <= j < regs@.len() ==> (#[trigger] regs@[j]).bits == keys[j],
        {
            regs.push(Reg { bits: *k });
        }
        proof {
            assert forall|r: Reg| regs@.contains(r) <==> self@.contains_key(r) by {
                if regs@.contains(r) {
                    let j = choose|j: int| 0 <= j < regs@.len() && regs@[j] == r;
                    assert(keys.contains(keys[j]));
                    assert(keys.to_set().contains(r.bits));
                }
                if self@.contains_key(r) {
                    assert(keys.to_set().contains(r.bits));
                    let j = choose|j: int| 0 <= j < keys.len() && keys[j] == r.bits;
                    assert(regs@[j] == r);
                }
            }
        }
        regs
    }
}

} // verus!
