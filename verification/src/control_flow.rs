//! The control flow of a function.

use crate::data_structures::{BlockIx, InstIx, InstRange};
use crate::function::Function;
use vstd::prelude::*;

verus! {

/// What the control flow analysis finds out.
pub struct CFGInfo {
    /// The blocks that each block may jump to.
    pub succ_map: Vec<Vec<BlockIx>>,
    /// How many loops each block lies in.
    pub depth_map: Vec<u32>,
}

impl CFGInfo {
    /// The blocks that each block may jump to.
    pub open spec fn succs(&self) -> Seq<Seq<BlockIx>> {
        self.succ_map@.map_values(|v: Vec<BlockIx>| v@)
    }

    /// There are jumps and a loop depth for each of `n` blocks, and jumps stay among them.
    pub open spec fn ok(&self, n: nat) -> bool {
        &&& self.succ_map@.len() == n
        &&& self.depth_map@.len() == n
        &&& succs_ok(self.succs())
    }
}

/// Every jump leads to a block that exists.
pub open spec fn succs_ok(succs: Seq<Seq<BlockIx>>) -> bool {
    forall|b: int, k: int|
        0 <= b < succs.len() && 0 <= k < succs[b].len() ==> (#[trigger] succs[b][k]).ix
            < succs.len()
}

/// A map from instructions to the blocks that hold them.
pub struct InstIxToBlockIxMap {
    /// The instructions of each block.
    pub ranges: Vec<InstRange>,
}

impl InstIxToBlockIxMap {
    pub fn new<F: Function>(func: &F) -> (m: InstIxToBlockIxMap)
        requires
            func.model().ok(),
        ensures
            m.ranges@ == func.model().blocks,
    {
        let mut ranges: Vec<InstRange> = Vec::new();
        let num_blocks: u32 = func.blocks().len;
        let mut b: u32 = 0;
        while b < num_blocks
            invariant
                func.model().ok(),
                b <= num_blocks == func.model().blocks.len(),
                ranges@ == func.model().blocks.take(b as int),
            decreases num_blocks - b,
        {
            ranges.push(func.block_insns(BlockIx { ix: b }));
            b += 1;
        }
        assert(func.model().blocks.take(b as int) =~= func.model().blocks);
        InstIxToBlockIxMap { ranges }
    }

    /// The first block that holds the instruction.
    pub fn map(&self, iix: InstIx) -> (b: Option<BlockIx>)
        requires
            self.ranges@.len() <= u32::MAX,
        ensures
            match b {
                Some(b) => {
                    &&& b.ix < self.ranges@.len()
                    &&& self.ranges@[b.ix as int].lo() <= iix.ix < self.ranges@[b.ix as int].hi()
                    &&& forall|k: int|
                        0 <= k < b.ix ==> !((#[trigger] self.ranges@[k]).lo() <= iix.ix
                            < self.ranges@[k].hi())
                },
                None => forall|k: int|
                    0 <= k < self.ranges@.len() ==> !((#[trigger] self.ranges@[k]).lo() <= iix.ix
                        < self.ranges@[k].hi()),
            },
            b matches Some(b) ==> self.ranges@[b.ix as int].first.ix <= iix.ix
                < self.ranges@[b.ix as int].first.ix + self.ranges@[b.ix as int].len,
            forall|k: int|
                0 <= k < self.ranges@.len() && (#[trigger] self.ranges@[k]).first.ix <= iix.ix
                    < self.ranges@[k].first.ix + self.ranges@[k].len ==> b is Some && b->0.ix <= k,
    {
        let mut k: usize = 0;
        while k < self.ranges.len()
            invariant
                k <= self.ranges@.len() <= u32::MAX,
                forall|j: int|
                    0 <= j < k ==> !((#[trigger] self.ranges@[j]).lo() <= iix.ix
                        < self.ranges@[j].hi()),
            decreases self.ranges@.len() - k,
        {
            let range = self.ranges[k];
            if range.first.ix <= iix.ix && iix.ix - range.first.ix < range.len {
                return Some(BlockIx { ix: k as u32 });
            }
            k += 1;
        }
        None
    }
}

} // verus!
