//! Sorting by an integer key.

use vstd::prelude::*;

verus! {

/// A value that is sorted by an integer.
pub trait SortKey {
    spec fn key(&self) -> int;

    fn sort_key(&self) -> (k: u64)
        ensures
            k == self.key(),
    ;
}

/// The keys never fall.
pub open spec fn sorted<T: SortKey>(s: Seq<T>) -> bool {
    forall|i: int, j: int| 0 <= i < j < s.len() ==> (#[trigger] s[i]).key() <= (#[trigger] s[j]).key()
}

/// Calls `sort_unstable_by_key` of the standard library, which rearranges the elements of a slice
/// so that their keys never fall. Elements with equal keys may end up in any order.
#[verifier::external_body]
pub(crate) fn sort_by_key<T: SortKey>(v: &mut Vec<T>)
    ensures
        final(v)@.to_multiset() == old(v)@.to_multiset(),
        sorted(final(v)@),
{
    v.sort_unstable_by_key(|x| x.sort_key())
}

} // verus!
