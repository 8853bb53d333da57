//! Short lists that live on the stack until they grow.
//!
//! What is said of them leaves out running out of memory, as with any collection.

use crate::data_structures::{RangeFragIx, Reg};
use crate::range_frags::{RangeFrag, RangeFragMetrics};
use smallvec::SmallVec;
use vstd::prelude::*;

verus! {

/// The fragment indices of one live range: a `smallvec::SmallVec` with room for four.
#[verifier::external_body]
pub struct FragIxList {
    inner: SmallVec<[RangeFragIx; 4]>,
}

/// What a [`FragIxList`] holds, first to last.
pub uninterp spec fn frag_ix_list_items(l: FragIxList) -> Seq<RangeFragIx>;

impl FragIxList {
    /// Calls `smallvec::SmallVec::new`, which makes an empty vector.
    #[verifier::external_body]
    pub(crate) fn new() -> (l: FragIxList)
        ensures
            frag_ix_list_items(l) == Seq::<RangeFragIx>::empty(),
    {
        FragIxList { inner: SmallVec::new() }
    }

    /// Calls `smallvec::SmallVec::push`, which appends an item and keeps those before it.
    #[verifier::external_body]
    pub(crate) fn push(&mut self, fix: RangeFragIx)
        ensures
            frag_ix_list_items(*final(self)) == frag_ix_list_items(*old(self)).push(fix),
    {
        self.inner.push(fix)
    }

    /// Calls `smallvec::SmallVec::as_slice`, which gives all items in their order.
    #[verifier::external_body]
    pub(crate) fn as_slice(&self) -> (s: &[RangeFragIx])
        ensures
            s@ == frag_ix_list_items(*self),
    {
        self.inner.as_slice()
    }
}

/// The finished fragments of one block: a `smallvec::SmallVec` with room for thirty-two.
#[verifier::external_body]
pub struct PendingFrags {
    inner: SmallVec<[(Reg, RangeFrag, RangeFragMetrics); 32]>,
}

/// What a [`PendingFrags`] holds, first to last.
pub uninterp spec fn pending_frags_items(l: PendingFrags) -> Seq<(Reg, RangeFrag, RangeFragMetrics)>;

impl PendingFrags {
    /// Calls `smallvec::SmallVec::new`, which makes an empty vector.
    #[verifier::external_body]
    pub(crate) fn new() -> (l: PendingFrags)
        ensures
            pending_frags_items(l) == Seq::<(Reg, RangeFrag, RangeFragMetrics)>::empty(),
    {
        PendingFrags { inner: SmallVec::new() }
    }

    /// Calls `smallvec::SmallVec::push`, which appends an item and keeps those before it.
    #[verifier::external_body]
    pub(crate) fn push(&mut self, item: (Reg, RangeFrag, RangeFragMetrics))
        ensures
            pending_frags_items(*final(self)) == pending_frags_items(*old(self)).push(item),
    {
        self.inner.push(item)
    }

    /// Calls `smallvec::SmallVec::into_vec`, which moves all items, in their order, to a `Vec`.
    #[verifier::external_body]
    pub(crate) fn into_vec(self) -> (v: Vec<(Reg, RangeFrag, RangeFragMetrics)>)
        ensures
            v@ == pending_frags_items(self),
    {
        self.inner.into_vec()
    }
}

} // verus!
