//! Registers, instructions, program points and the per-instruction register lists.

use crate::text::{append_decimal, decimal};
use vstd::prelude::*;

verus! {

/// Index of an instruction.
#[derive(Clone, Copy, Debug, Hash, PartialEq, Eq, PartialOrd, Ord, Structural)]
pub struct InstIx {
    pub ix: u32,
}

/// Index of a basic block.
#[derive(Clone, Copy, Debug, Hash, PartialEq, Eq, PartialOrd, Ord, Structural)]
pub struct BlockIx {
    pub ix: u32,
}

/// Index of a live-range fragment.
#[derive(Clone, Copy, Debug, Hash, PartialEq, Eq, PartialOrd, Ord, Structural)]
pub struct RangeFragIx {
    pub ix: u32,
}

/// A register, real or virtual, packed into one word.
///
/// The top bit tells virtual registers from real ones. The three bits below it hold the register
/// class. The low bits hold the index: eight bits of a real register, below its eight-bit
/// hardware encoding, and twenty-eight bits of a virtual one.
#[derive(Clone, Copy, Debug, Hash, PartialEq, Eq, PartialOrd, Ord, Structural)]
pub struct Reg {
    pub bits: u32,
}

/// A real (machine) register.
#[derive(Clone, Copy, Debug, Hash, PartialEq, Eq, PartialOrd, Ord, Structural)]
pub struct RealReg {
    pub reg: Reg,
}

/// A virtual register.
#[derive(Clone, Copy, Debug, Hash, PartialEq, Eq, PartialOrd, Ord, Structural)]
pub struct VirtualReg {
    pub reg: Reg,
}

impl Reg {
    /// Whether the register is real.
    pub open spec fn spec_is_real(self) -> bool {
        self.bits < 0x8000_0000
    }

    /// The index of a real register in the register universe.
    pub open spec fn real_index(self) -> int {
        self.bits as int % 256
    }

    /// Makes a real register.
    pub fn new_real(class: u8, encoding: u8, index: u8) -> (r: Reg)
        requires
            class < 8,
        ensures
            r.bits == class * 0x1000_0000 + encoding * 256 + index,
            r.spec_is_real(),
            r.real_index() == index,
    {
        Reg { bits: class as u32 * 0x1000_0000 + encoding as u32 * 256 + index as u32 }
    }

    /// Makes a virtual register.
    pub fn new_virtual(class: u8, index: u32) -> (r: Reg)
        requires
            class < 8,
            index < 0x1000_0000,
        ensures
            r.bits == 0x8000_0000 + class * 0x1000_0000 + index,
            !r.spec_is_real(),
    {
        Reg { bits: 0x8000_0000 + class as u32 * 0x1000_0000 + index }
    }

    pub fn is_real(self) -> (b: bool)
        ensures
            b == self.spec_is_real(),
            b == (self.bits < 0x8000_0000),
    {
        self.bits < 0x8000_0000
    }

    pub fn is_virtual(self) -> (b: bool)
        ensures
            b == !self.spec_is_real(),
            b == (self.bits >= 0x8000_0000),
    {
        self.bits >= 0x8000_0000
    }

    pub fn to_real_reg(self) -> (r: RealReg)
        requires
            self.spec_is_real(),
        ensures
            r.reg == self,
    {
        RealReg { reg: self }
    }

    pub fn to_virtual_reg(self) -> (r: VirtualReg)
        requires
            !self.spec_is_real(),
        ensures
            r.reg == self,
    {
        VirtualReg { reg: self }
    }
}

impl RealReg {
    pub fn to_reg(self) -> (r: Reg)
        ensures
            r == self.reg,
    {
        self.reg
    }

    /// The position of the register in the register universe.
    pub fn get_index(self) -> (i: usize)
        ensures
            i == self.reg.real_index(),
            i == self.reg.bits % 256,
    {
        (self.reg.bits % 256) as usize
    }
}

/// The machine registers, in the order of their indices, with their names.
pub struct RealRegUniverse {
    pub regs: Vec<(RealReg, String)>,
}

/// The point where instruction `i` reads its operands, as a number.
pub open spec fn use_point(i: int) -> int {
    4 * i + 1
}

/// The point where instruction `i` writes its results, as a number.
pub open spec fn def_point(i: int) -> int {
    4 * i + 2
}

/// A program point: the place of an instruction's reads or of its writes.
///
/// Points are ordered by instruction, and the reads of an instruction come before its writes.
#[derive(Clone, Copy, Debug, Hash, PartialEq, Eq, PartialOrd, Ord, Structural)]
pub struct InstPoint {
    pub bits: u64,
}

impl View for InstPoint {
    type V = int;

    open spec fn view(&self) -> int {
        self.bits as int
    }
}

impl InstPoint {
    pub fn new_use(iix: InstIx) -> (p: InstPoint)
        ensures
            p@ == use_point(iix.ix as int),
            p.bits == 4 * iix.ix + 1,
    {
        InstPoint { bits: 4 * iix.ix as u64 + 1 }
    }

    pub fn new_def(iix: InstIx) -> (p: InstPoint)
        ensures
            p@ == def_point(iix.ix as int),
            p.bits == 4 * iix.ix + 2,
    {
        InstPoint { bits: 4 * iix.ix as u64 + 2 }
    }

    /// What [`InstPoint::append_text`] appends.
    pub open spec fn text(self) -> Seq<char> {
        "InstPoint { bits: "@ + decimal(self.bits as nat) + " }"@
    }

    /// Appends the text of the point.
    pub fn append_text(self, s: &mut String)
        ensures
            final(s)@ == old(s)@ + self.text(),
            final(s)@ == old(s)@ + ("InstPoint { bits: "@ + decimal(self.bits as nat) + " }"@),
    {
        let ghost before = s@;
        s.append("InstPoint { bits: ");
        append_decimal(s, self.bits);
        s.append(" }");
        assert(s@ =~= before + self.text());
    }

    /// A point before all others.
    pub fn min_value() -> (p: InstPoint)
        ensures
            p@ == 0,
            p.bits == 0,
    {
        InstPoint { bits: 0 }
    }

    /// A point after all others.
    pub fn max_value() -> (p: InstPoint)
        ensures
            p@ == u64::MAX,
            p.bits == u64::MAX,
    {
        InstPoint { bits: u64::MAX }
    }

    /// The instruction that the point belongs to.
    pub fn iix(self) -> (i: InstIx)
        requires
            self@ < 4 * 0x1_0000_0000,
        ensures
            i.ix == self@ / 4,
            4 * i.ix <= self.bits < 4 * i.ix + 4,
    {
        InstIx { ix: (self.bits / 4) as u32 }
    }

    pub fn min(a: InstPoint, b: InstPoint) -> (p: InstPoint)
        ensures
            p == if a@ <= b@ { a } else { b },
            p.bits <= a.bits && p.bits <= b.bits,
            p == a || p == b,
    {
        if a.bits <= b.bits {
            a
        } else {
            b
        }
    }

    pub fn max(a: InstPoint, b: InstPoint) -> (p: InstPoint)
        ensures
            p == if b@ <= a@ { a } else { b },
            p.bits >= a.bits && p.bits >= b.bits,
            p == a || p == b,
    {
        if b.bits <= a.bits {
            a
        } else {
            b
        }
    }
}

/// How an instruction mentions a register.
#[derive(Clone, Copy, Debug, Hash, PartialEq, Eq, PartialOrd, Ord, Structural)]
pub struct Mention {
    pub used: bool,
    pub modified: bool,
    pub defined: bool,
}

impl Mention {
    pub fn new() -> (m: Mention)
        ensures
            m == (Mention { used: false, modified: false, defined: false }),
    {
        Mention { used: false, modified: false, defined: false }
    }

    pub fn add_use(&mut self)
        ensures
            *final(self) == (Mention { used: true, ..*old(self) }),
    {
        self.used = true;
    }

    pub fn add_mod(&mut self)
        ensures
            *final(self) == (Mention { modified: true, ..*old(self) }),
    {
        self.modified = true;
    }

    pub fn add_def(&mut self)
        ensures
            *final(self) == (Mention { defined: true, ..*old(self) }),
    {
        self.defined = true;
    }

    pub fn is_use(self) -> (b: bool)
        ensures
            b == self.used,
    {
        self.used
    }

    pub fn is_mod(self) -> (b: bool)
        ensures
            b == self.modified,
    {
        self.modified
    }

    pub fn is_def(self) -> (b: bool)
        ensures
            b == self.defined,
    {
        self.defined
    }
}

/// The mentions of a register, by instruction.
pub type MentionMap = Vec<(InstIx, Mention)>;

/// A run of consecutive instructions.
#[derive(Clone, Copy, Debug, PartialEq, Eq, Structural)]
pub struct InstRange {
    pub first: InstIx,
    pub len: u32,
}

impl InstRange {
    /// The range holds an instruction, and all its indices fit their type.
    pub open spec fn ok(self) -> bool {
        &&& self.len >= 1
        &&& self.first.ix + self.len <= 0x1_0000_0000
    }

    /// The index of the first instruction.
    pub open spec fn lo(self) -> int {
        self.first.ix as int
    }

    /// The index just past the last instruction.
    pub open spec fn hi(self) -> int {
        self.first.ix + self.len
    }

    pub fn first(self) -> (i: InstIx)
        ensures
            i == self.first,
    {
        self.first
    }

    pub fn last(self) -> (i: InstIx)
        requires
            self.ok(),
        ensures
            i.ix == self.hi() - 1,
            i.ix == self.first.ix + self.len - 1,
    {
        InstIx { ix: self.first.ix + (self.len - 1) }
    }

    pub fn len(self) -> (n: u32)
        ensures
            n == self.len,
    {
        self.len
    }
}

/// Where the three register lists of one instruction stand in the shared vectors.
#[derive(Clone, Copy, Debug, PartialEq, Eq, Structural)]
pub struct RegVecBounds {
    pub uses_start: u32,
    pub uses_len: u32,
    pub mods_start: u32,
    pub mods_len: u32,
    pub defs_start: u32,
    pub defs_len: u32,
}

/// The register lists of all instructions, end to end.
#[derive(Clone, Debug, PartialEq, Eq)]
pub struct RegVecs {
    pub uses: Vec<Reg>,
    pub mods: Vec<Reg>,
    pub defs: Vec<Reg>,
    pub sanitized: bool,
}

/// The registers that each instruction reads, modifies and writes.
#[derive(Clone, Debug, PartialEq, Eq)]
pub struct RegVecsAndBounds {
    pub vecs: RegVecs,
    pub bounds: Vec<RegVecBounds>,
}

/// The registers of one instruction: those it reads, those it reads and writes, and those it
/// only writes.
pub struct InsnRegs {
    pub uses: Seq<Reg>,
    pub mods: Seq<Reg>,
    pub defs: Seq<Reg>,
}

impl InsnRegs {
    /// The instruction reads the register.
    pub open spec fn reads(self, r: Reg) -> bool {
        self.uses.contains(r) || self.mods.contains(r)
    }

    /// The instruction writes the register.
    pub open spec fn writes(self, r: Reg) -> bool {
        self.mods.contains(r) || self.defs.contains(r)
    }

    /// The instruction mentions the register.
    pub open spec fn mentions(self, r: Reg) -> bool {
        self.uses.contains(r) || self.mods.contains(r) || self.defs.contains(r)
    }
}

impl RegVecsAndBounds {
    /// The bounds of instruction `i` lie inside the vectors.
    pub open spec fn bounds_ok(&self, i: int) -> bool {
        let b = self.bounds@[i];
        &&& b.uses_start + b.uses_len <= self.vecs.uses@.len()
        &&& b.mods_start + b.mods_len <= self.vecs.mods@.len()
        &&& b.defs_start + b.defs_len <= self.vecs.defs@.len()
    }

    /// There are lists for all instructions of a block, and their bounds lie inside the vectors.
    pub open spec fn ok_in(&self, block: InstRange) -> bool {
        &&& block.hi() <= self.bounds@.len()
        &&& forall|i: int| block.lo() <= i < block.hi() ==> #[trigger] self.bounds_ok(i)
    }

    /// Whether the lists hold only registers that the allocator may handle.
    pub fn is_sanitized(&self) -> (b: bool)
        ensures
            b == self.vecs.sanitized,
    {
        self.vecs.sanitized
    }
}

impl View for RegVecsAndBounds {
    type V = Seq<InsnRegs>;

    open spec fn view(&self) -> Seq<InsnRegs> {
        Seq::new(
            self.bounds@.len(),
            |i: int|
                {
                    let b = self.bounds@[i];
                    InsnRegs {
                        uses: self.vecs.uses@.subrange(
                            b.uses_start as int,
                            b.uses_start + b.uses_len,
                        ),
                        mods: self.vecs.mods@.subrange(
                            b.mods_start as int,
                            b.mods_start + b.mods_len,
                        ),
                        defs: self.vecs.defs@.subrange(
                            b.defs_start as int,
                            b.defs_start + b.defs_len,
                        ),
                    }
                },
        )
    }
}

} // verus!
