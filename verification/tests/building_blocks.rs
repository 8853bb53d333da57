//! Registers, points, collections, and the flow of data between blocks.

use linear_scan_analysis::control_flow::{CFGInfo, InstIxToBlockIxMap};
use linear_scan_analysis::data_flow::{calc_def_and_use, calc_livein_and_liveout};
use linear_scan_analysis::data_structures::{
    BlockIx, InstIx, InstPoint, InstRange, Mention, RealReg, Reg, RegVecBounds, RegVecs,
    RegVecsAndBounds,
};
use linear_scan_analysis::function::{BlockRange, Function, FunctionModel};
use linear_scan_analysis::reg_map::RegMap;
use linear_scan_analysis::sparse_set::SparseSet;
use linear_scan_analysis::union_find::UnionFind;

struct Insn {
    uses: Vec<Reg>,
    mods: Vec<Reg>,
    defs: Vec<Reg>,
    ret: bool,
}

fn insn(uses: &[Reg], mods: &[Reg], defs: &[Reg]) -> Insn {
    Insn { uses: uses.to_vec(), mods: mods.to_vec(), defs: defs.to_vec(), ret: false }
}

fn ret(uses: &[Reg]) -> Insn {
    Insn { uses: uses.to_vec(), mods: vec![], defs: vec![], ret: true }
}

struct Program {
    /// First instruction and length of each block.
    blocks: Vec<(u32, u32)>,
    insns: Vec<Insn>,
    liveins: Vec<RealReg>,
    liveouts: Vec<RealReg>,
}

impl Function for Program {
    fn model(&self) -> FunctionModel {
        unreachable!("the model is for proofs only")
    }

    fn blocks(&self) -> BlockRange {
        BlockRange { len: self.blocks.len() as u32 }
    }

    fn block_insns(&self, bix: BlockIx) -> InstRange {
        let (first, len) = self.blocks[bix.ix as usize];
        InstRange { first: InstIx { ix: first }, len }
    }

    fn entry_block(&self) -> BlockIx {
        BlockIx { ix: 0 }
    }

    fn func_liveins(&self) -> Vec<RealReg> {
        self.liveins.clone()
    }

    fn func_liveouts(&self) -> Vec<RealReg> {
        self.liveouts.clone()
    }

    fn is_ret(&self, iix: InstIx) -> bool {
        self.insns[iix.ix as usize].ret
    }
}

/// The register lists of a program.
fn reg_lists(p: &Program) -> RegVecsAndBounds {
    let mut vecs = RegVecs { uses: vec![], mods: vec![], defs: vec![], sanitized: true };
    let mut bounds = vec![];
    for i in p.insns.iter() {
        bounds.push(RegVecBounds {
            uses_start: vecs.uses.len() as u32,
            uses_len: i.uses.len() as u32,
            mods_start: vecs.mods.len() as u32,
            mods_len: i.mods.len() as u32,
            defs_start: vecs.defs.len() as u32,
            defs_len: i.defs.len() as u32,
        });
        vecs.uses.extend(i.uses.iter());
        vecs.mods.extend(i.mods.iter());
        vecs.defs.extend(i.defs.iter());
    }
    RegVecsAndBounds { vecs, bounds }
}

fn v(index: u32) -> Reg {
    Reg::new_virtual(0, index)
}

fn r(index: u8) -> Reg {
    Reg::new_real(0, index, index)
}

fn flow(succs: &[&[u32]]) -> CFGInfo {
    CFGInfo {
        succ_map: succs
            .iter()
            .map(|s| s.iter().map(|&ix| BlockIx { ix }).collect())
            .collect(),
        depth_map: vec![0; succs.len()],
    }
}

fn sorted(s: &SparseSet) -> Vec<Reg> {
    let mut regs = s.elems().clone();
    regs.sort();
    regs
}

#[test]
fn registers_are_real_or_virtual() {
    let real = Reg::new_real(1, 5, 17);
    assert_eq!(real.bits, 0x1000_0511);
    assert!(real.is_real() && !real.is_virtual());
    assert_eq!(real.to_real_reg().get_index(), 17);
    assert_eq!(real.to_real_reg().to_reg(), real);
    let virt = Reg::new_virtual(2, 300);
    assert_eq!(virt.bits, 0xa000_012c);
    assert!(virt.is_virtual() && !virt.is_real());
    assert_eq!(virt.to_virtual_reg().reg, virt);
}

#[test]
fn points_are_ordered_by_instruction() {
    let use3 = InstPoint::new_use(InstIx { ix: 3 });
    let def3 = InstPoint::new_def(InstIx { ix: 3 });
    let use4 = InstPoint::new_use(InstIx { ix: 4 });
    assert_eq!(use3.bits, 13);
    assert_eq!(def3.bits, 14);
    assert!(use3 < def3 && def3 < use4);
    assert_eq!(def3.iix(), InstIx { ix: 3 });
    assert_eq!(InstPoint::min(def3, use4), def3);
    assert_eq!(InstPoint::max(def3, use4), use4);
    let last = InstPoint::new_def(InstIx { ix: u32::MAX });
    assert!(InstPoint::min_value() < InstPoint::new_use(InstIx { ix: 0 }));
    assert!(last < InstPoint::max_value());
    assert_eq!(last.iix(), InstIx { ix: u32::MAX });
}

#[test]
fn mentions_collect_what_is_added() {
    let mut m = Mention::new();
    assert!(!m.is_use() && !m.is_mod() && !m.is_def());
    m.add_mod();
    assert!(!m.is_use() && m.is_mod() && !m.is_def());
    m.add_use();
    m.add_def();
    assert!(m.is_use() && m.is_mod() && m.is_def());
}

#[test]
fn ranges_know_their_ends() {
    let range = InstRange { first: InstIx { ix: 5 }, len: 3 };
    assert_eq!(range.first(), InstIx { ix: 5 });
    assert_eq!(range.last(), InstIx { ix: 7 });
    assert_eq!(range.len(), 3);
}

#[test]
fn sets_hold_each_element_once() {
    let mut s = SparseSet::from_vec(vec![v(1), r(0), v(1)]);
    assert_eq!(sorted(&s), vec![r(0), v(1)]);
    assert!(!s.insert(v(1)));
    assert!(s.insert(v(2)));
    assert!(s.contains(v(2)) && !s.contains(v(3)));
    let empty = SparseSet::empty();
    assert!(empty.is_subset_of(&s) && !s.is_subset_of(&empty));
    let other = SparseSet::from_vec(vec![v(2), v(3)]);
    assert!(!other.is_subset_of(&s));
    assert!(s.union(&other));
    assert!(!s.union(&other));
    assert!(other.is_subset_of(&s));
    assert_eq!(sorted(&s), vec![r(0), v(1), v(2), v(3)]);
}

#[test]
fn maps_hold_one_value_per_register() {
    let mut m: RegMap<u32> = RegMap::new();
    assert!(m.get(v(0)).is_none());
    m.insert(v(0), 1);
    m.insert(r(0), 2);
    m.insert(v(0), 3);
    assert_eq!(m.get(v(0)), Some(&3));
    let mut regs = m.regs();
    regs.sort();
    assert_eq!(regs, vec![r(0), v(0)]);
    assert_eq!(m.remove(v(0)), Some(3));
    assert_eq!(m.remove(v(0)), None);
    assert_eq!(m.regs(), vec![r(0)]);
}

#[test]
fn joined_elements_share_a_class() {
    let mut uf = UnionFind::new(7);
    uf.union(0, 3);
    uf.union(5, 6);
    uf.union(3, 6);
    uf.union(2, 2);
    let mut classes = uf.get_equiv_classes();
    classes.sort();
    assert_eq!(classes, vec![vec![0, 3, 5, 6], vec![1], vec![2], vec![4]]);
    assert!(UnionFind::new(0).get_equiv_classes().is_empty());
}

#[test]
fn instructions_are_found_in_their_blocks() {
    let p = Program {
        blocks: vec![(2, 2), (0, 1)],
        insns: vec![],
        liveins: vec![],
        liveouts: vec![],
    };
    let map = InstIxToBlockIxMap::new(&p);
    assert_eq!(map.map(InstIx { ix: 0 }), Some(BlockIx { ix: 1 }));
    assert_eq!(map.map(InstIx { ix: 1 }), None);
    assert_eq!(map.map(InstIx { ix: 2 }), Some(BlockIx { ix: 0 }));
    assert_eq!(map.map(InstIx { ix: 3 }), Some(BlockIx { ix: 0 }));
    assert_eq!(map.map(InstIx { ix: 4 }), None);
}

/// The registers in question, block by block.
fn program() -> Program {
    Program {
        blocks: vec![(0, 2), (2, 2), (4, 1)],
        insns: vec![
            insn(&[r(0)], &[], &[v(0)]),
            insn(&[], &[], &[v(1)]),
            insn(&[v(1)], &[v(0)], &[v(2)]),
            insn(&[v(2)], &[], &[v(1)]),
            ret(&[v(0)]),
        ],
        liveins: vec![],
        liveouts: vec![],
    }
}

#[test]
fn blocks_use_what_they_read_before_writing_it() {
    let p = program();
    let lists = reg_lists(&p);
    assert!(lists.is_sanitized());
    let (defs, uses) = calc_def_and_use(&p, &lists);
    assert_eq!(sorted(&defs[0]), vec![v(0), v(1)]);
    assert_eq!(sorted(&uses[0]), vec![r(0)]);
    // A modification reads and writes.
    assert_eq!(sorted(&defs[1]), vec![v(0), v(1), v(2)]);
    assert_eq!(sorted(&uses[1]), vec![v(0), v(1)]);
    assert_eq!(sorted(&defs[2]), vec![]);
    assert_eq!(sorted(&uses[2]), vec![v(0)]);
}

#[test]
fn liveness_satisfies_its_equations() {
    let p = program();
    let lists = reg_lists(&p);
    let (defs, uses) = calc_def_and_use(&p, &lists);
    let succs: &[&[u32]] = &[&[1], &[1, 2], &[]];
    let (ins, outs) = calc_livein_and_liveout(&defs, &uses, &flow(succs));
    assert_eq!(sorted(&ins[0]), vec![r(0)]);
    assert_eq!(sorted(&outs[0]), vec![v(0), v(1)]);
    assert_eq!(sorted(&ins[1]), vec![v(0), v(1)]);
    assert_eq!(sorted(&outs[1]), vec![v(0), v(1)]);
    assert_eq!(sorted(&ins[2]), vec![v(0)]);
    assert_eq!(sorted(&outs[2]), vec![]);
    for b in 0..3 {
        for reg in [r(0), r(1), v(0), v(1), v(2)] {
            let live_out = succs[b].iter().any(|&s| ins[s as usize].contains(reg));
            assert_eq!(outs[b].contains(reg), live_out);
            let live_in = uses[b].contains(reg) || live_out && !defs[b].contains(reg);
            assert_eq!(ins[b].contains(reg), live_in);
        }
    }
}

#[test]
fn liveness_does_not_arise_from_a_cycle_alone() {
    // Nothing reads the register, so it is live nowhere, though the blocks form a cycle.
    let p = Program {
        blocks: vec![(0, 1), (1, 1)],
        insns: vec![insn(&[], &[], &[v(0)]), insn(&[], &[], &[])],
        liveins: vec![],
        liveouts: vec![],
    };
    let (defs, uses) = calc_def_and_use(&p, &reg_lists(&p));
    let (ins, outs) = calc_livein_and_liveout(&defs, &uses, &flow(&[&[1], &[0, 1]]));
    for b in 0..2 {
        assert!(ins[b].elems().is_empty() && outs[b].elems().is_empty());
    }
}
