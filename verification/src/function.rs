//! The functions that the analysis works on.

use crate::data_structures::{BlockIx, InstIx, InstRange, RealReg, Reg};
use vstd::prelude::*;

verus! {

/// The basic blocks of a function, numbered from zero.
#[derive(Clone, Copy, Debug, PartialEq, Eq, Structural)]
pub struct BlockRange {
    pub len: u32,
}

/// What the analysis reads of a function, besides the registers of its instructions.
pub struct FunctionModel {
    /// The instructions of each block.
    pub blocks: Seq<InstRange>,
    /// The block where execution starts.
    pub entry: int,
    /// The registers that hold values on entry.
    pub liveins: Set<Reg>,
    /// The registers whose values the caller reads after a return.
    pub liveouts: Set<Reg>,
    /// The instructions that return.
    pub rets: Set<int>,
}

impl FunctionModel {
    /// Every block holds an instruction, and the entry block exists.
    pub open spec fn ok(self) -> bool {
        &&& forall|b: int| 0 <= b < self.blocks.len() ==> (#[trigger] self.blocks[b]).ok()
        &&& 0 <= self.entry < self.blocks.len() <= u32::MAX
    }

    /// Instruction `i` lies in a block.
    pub open spec fn holds(self, i: int) -> bool {
        exists|b: int|
            0 <= b < self.blocks.len() && (#[trigger] self.blocks[b]).lo() <= i
                < self.blocks[b].hi()
    }

    /// The last instruction of the block returns.
    pub open spec fn ends_in_ret(self, b: int) -> bool {
        self.rets.contains(self.blocks[b].hi() - 1)
    }
}

/// The registers of a vector of real registers.
pub open spec fn reg_set(v: Seq<RealReg>) -> Set<Reg> {
    v.map_values(|r: RealReg| r.reg).to_set()
}

/// A function as the client of the allocator presents it.
pub trait Function {
    /// What the methods report.
    spec fn model(&self) -> FunctionModel;

    /// All blocks.
    fn blocks(&self) -> (r: BlockRange)
        requires
            self.model().ok(),
        ensures
            r.len == self.model().blocks.len(),
    ;

    /// The instructions of a block.
    fn block_insns(&self, bix: BlockIx) -> (r: InstRange)
        requires
            self.model().ok(),
            bix.ix < self.model().blocks.len(),
        ensures
            r == self.model().blocks[bix.ix as int],
    ;

    /// The block where execution starts.
    fn entry_block(&self) -> (b: BlockIx)
        requires
            self.model().ok(),
        ensures
            b.ix == self.model().entry,
    ;

    /// The real registers that hold values on entry.
    fn func_liveins(&self) -> (v: Vec<RealReg>)
        ensures
            reg_set(v@) == self.model().liveins,
            forall|r: Reg| #[trigger] self.model().liveins.contains(r) ==> r.spec_is_real(),
    ;

    /// The real registers whose values the caller reads after a return.
    fn func_liveouts(&self) -> (v: Vec<RealReg>)
        ensures
            reg_set(v@) == self.model().liveouts,
            forall|r: Reg| #[trigger] self.model().liveouts.contains(r) ==> r.spec_is_real(),
    ;

    /// Whether an instruction returns.
    fn is_ret(&self, iix: InstIx) -> (b: bool)
        ensures
            b == self.model().rets.contains(iix.ix as int),
    ;
}

} // verus!
