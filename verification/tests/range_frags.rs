//! The fragments of single blocks.

use linear_scan_analysis::data_structures::{
    BlockIx, InstIx, InstPoint, InstRange, Mention, RangeFragIx, RealReg, Reg, RegVecBounds,
    RegVecs, RegVecsAndBounds,
};
use linear_scan_analysis::function::{BlockRange, Function, FunctionModel};
use linear_scan_analysis::range_frags::{
    get_range_frags, get_range_frags_for_block, RangeFrag, RangeFragKind, RangeFragMetrics,
};
use linear_scan_analysis::reg_map::RegMap;
use linear_scan_analysis::sparse_set::SparseSet;

struct Insn {
    uses: Vec<Reg>,
    mods: Vec<Reg>,
    defs: Vec<Reg>,
    ret: bool,
}

fn insn(uses: &[Reg], mods: &[Reg], defs: &[Reg]) -> Insn {
    Insn { uses: uses.to_vec(), mods: mods.to_vec(), defs: defs.to_vec(), ret: false }
}

fn ret(uses: &[Reg]) -> Insn {
    Insn { uses: uses.to_vec(), mods: vec![], defs: vec![], ret: true }
}

struct Program {
    /// First instruction and length of each block.
    blocks: Vec<(u32, u32)>,
    insns: Vec<Insn>,
    liveins: Vec<RealReg>,
    liveouts: Vec<RealReg>,
}

impl Function for Program {
    fn model(&self) -> FunctionModel {
        unreachable!("the model is for proofs only")
    }

    fn blocks(&self) -> BlockRange {
        BlockRange { len: self.blocks.len() as u32 }
    }

    fn block_insns(&self, bix: BlockIx) -> InstRange {
        let (first, len) = self.blocks[bix.ix as usize];
        InstRange { first: InstIx { ix: first }, len }
    }

    fn entry_block(&self) -> BlockIx {
        BlockIx { ix: 0 }
    }

    fn func_liveins(&self) -> Vec<RealReg> {
        self.liveins.clone()
    }

    fn func_liveouts(&self) -> Vec<RealReg> {
        self.liveouts.clone()
    }

    fn is_ret(&self, iix: InstIx) -> bool {
        self.insns[iix.ix as usize].ret
    }
}

/// The register lists of a program.
fn reg_lists(p: &Program) -> RegVecsAndBounds {
    let mut vecs = RegVecs { uses: vec![], mods: vec![], defs: vec![], sanitized: true };
    let mut bounds = vec![];
    for i in p.insns.iter() {
        bounds.push(RegVecBounds {
            uses_start: vecs.uses.len() as u32,
            uses_len: i.uses.len() as u32,
            mods_start: vecs.mods.len() as u32,
            mods_len: i.mods.len() as u32,
            defs_start: vecs.defs.len() as u32,
            defs_len: i.defs.len() as u32,
        });
        vecs.uses.extend(i.uses.iter());
        vecs.mods.extend(i.mods.iter());
        vecs.defs.extend(i.defs.iter());
    }
    RegVecsAndBounds { vecs, bounds }
}

fn v(index: u32) -> Reg {
    Reg::new_virtual(0, index)
}

fn r(index: u8) -> Reg {
    Reg::new_real(0, index, index)
}

fn used(ix: u32) -> (InstIx, Mention) {
    (InstIx { ix }, Mention { used: true, modified: false, defined: false })
}

fn modified(ix: u32) -> (InstIx, Mention) {
    (InstIx { ix }, Mention { used: false, modified: true, defined: false })
}

fn defined(ix: u32) -> (InstIx, Mention) {
    (InstIx { ix }, Mention { used: false, modified: false, defined: true })
}

fn one_block(insns: Vec<Insn>) -> Program {
    Program { blocks: vec![(0, insns.len() as u32)], insns, liveins: vec![], liveouts: vec![] }
}

fn set(regs: &[Reg]) -> SparseSet {
    SparseSet::from_vec(regs.to_vec())
}

struct Found {
    map: RegMap<Vec<RangeFragIx>>,
    frags: Vec<RangeFrag>,
    metrics: Vec<RangeFragMetrics>,
}

impl Found {
    /// First point, last point and kind of each fragment of a register.
    fn of(&self, reg: Reg) -> Vec<(u64, u64, RangeFragKind)> {
        match self.map.get(reg) {
            None => vec![],
            Some(ixs) => ixs
                .iter()
                .map(|fix| {
                    let f = &self.frags[fix.ix as usize];
                    (f.first.bits, f.last.bits, self.metrics[fix.ix as usize].kind)
                })
                .collect(),
        }
    }

    fn mentions(&self, reg: Reg, k: usize) -> Vec<(InstIx, Mention)> {
        let fix = self.map.get(reg).unwrap()[k];
        self.frags[fix.ix as usize].mentions.clone()
    }
}

fn frags_of_block(p: &Program, livein: &[Reg], liveout: &[Reg]) -> Found {
    let mut found = Found { map: RegMap::new(), frags: vec![], metrics: vec![] };
    get_range_frags_for_block(
        p,
        BlockIx { ix: 0 },
        &set(livein),
        &set(liveout),
        &reg_lists(p),
        &mut found.map,
        &mut found.frags,
        &mut found.metrics,
    );
    found
}

#[test]
fn a_fragment_knows_its_kind() {
    let p = one_block(vec![insn(&[], &[], &[]), insn(&[], &[], &[]), insn(&[], &[], &[])]);
    let at = |bits: u64| InstPoint { bits };
    let kind = |first: u64, last: u64| {
        let (frag, metrics) =
            RangeFrag::new(&p, BlockIx { ix: 0 }, at(first), at(last), vec![used(1)]);
        assert_eq!(frag.first, at(first));
        assert_eq!(frag.last, at(last));
        assert_eq!(frag.mentions, vec![used(1)]);
        assert_eq!(metrics.bix, BlockIx { ix: 0 });
        metrics.kind
    };
    assert_eq!(kind(5, 6), RangeFragKind::Local);
    assert_eq!(kind(2, 9), RangeFragKind::Local);
    assert_eq!(kind(1, 9), RangeFragKind::LiveIn);
    assert_eq!(kind(2, 10), RangeFragKind::LiveOut);
    assert_eq!(kind(1, 10), RangeFragKind::Thru);
}

#[test]
fn a_fragment_contains_the_points_between_its_ends() {
    let p = one_block(vec![insn(&[], &[], &[]), insn(&[], &[], &[]), insn(&[], &[], &[])]);
    let first = InstPoint::new_def(InstIx { ix: 0 });
    let last = InstPoint::new_use(InstIx { ix: 2 });
    let (frag, _) = RangeFrag::new(&p, BlockIx { ix: 0 }, first, last, vec![]);
    assert!(!frag.contains(&InstPoint::new_use(InstIx { ix: 0 })));
    assert!(frag.contains(&first));
    assert!(frag.contains(&InstPoint::new_use(InstIx { ix: 1 })));
    assert!(frag.contains(&last));
    assert!(!frag.contains(&InstPoint::new_def(InstIx { ix: 2 })));
    assert!(!frag.contains(&InstPoint::min_value()));
    assert!(!frag.contains(&InstPoint::max_value()));
}

#[test]
fn reads_and_modifications_extend_a_fragment() {
    let p = one_block(vec![
        insn(&[], &[], &[v(0)]),
        insn(&[v(0)], &[], &[]),
        insn(&[], &[v(0)], &[]),
        insn(&[], &[], &[]),
    ]);
    let found = frags_of_block(&p, &[], &[]);
    assert_eq!(found.of(v(0)), vec![(2, 10, RangeFragKind::Local)]);
    assert_eq!(found.mentions(v(0), 0), vec![defined(0), used(1), modified(2)]);
}

#[test]
fn a_read_and_a_modification_by_one_instruction_share_a_mention() {
    let p = one_block(vec![insn(&[v(0)], &[v(0)], &[]), insn(&[], &[], &[])]);
    let found = frags_of_block(&p, &[v(0)], &[]);
    assert_eq!(found.of(v(0)), vec![(1, 2, RangeFragKind::LiveIn)]);
    let both = Mention { used: true, modified: true, defined: false };
    assert_eq!(found.mentions(v(0), 0), vec![(InstIx { ix: 0 }, both)]);
}

#[test]
fn a_write_ends_a_fragment_and_starts_one() {
    let p = one_block(vec![
        insn(&[], &[], &[v(0)]),
        insn(&[v(0)], &[], &[v(0)]),
        insn(&[v(0)], &[], &[]),
    ]);
    let found = frags_of_block(&p, &[], &[]);
    assert_eq!(
        found.of(v(0)),
        vec![(2, 5, RangeFragKind::Local), (6, 9, RangeFragKind::Local)]
    );
    assert_eq!(found.mentions(v(0), 0), vec![defined(0), used(1)]);
    assert_eq!(found.mentions(v(0), 1), vec![defined(1), used(2)]);
}

#[test]
fn live_in_registers_have_a_fragment_from_the_start() {
    let p = one_block(vec![insn(&[], &[], &[]), insn(&[v(0)], &[], &[]), insn(&[], &[], &[])]);
    let found = frags_of_block(&p, &[v(0), v(1)], &[v(1)]);
    assert_eq!(found.of(v(0)), vec![(1, 5, RangeFragKind::LiveIn)]);
    // A register that is only passed through is mentioned nowhere.
    assert_eq!(found.of(v(1)), vec![(1, 10, RangeFragKind::Thru)]);
    assert_eq!(found.mentions(v(1), 0), vec![]);
    // One that nobody reads ends at once.
    let found = frags_of_block(&p, &[v(0), v(2)], &[]);
    assert_eq!(found.of(v(2)), vec![(1, 1, RangeFragKind::LiveIn)]);
}

#[test]
fn live_out_registers_have_a_fragment_to_the_end() {
    let p = one_block(vec![insn(&[], &[], &[v(0)]), insn(&[], &[], &[]), insn(&[], &[], &[v(1)])]);
    let found = frags_of_block(&p, &[], &[v(0)]);
    assert_eq!(found.of(v(0)), vec![(2, 10, RangeFragKind::LiveOut)]);
    // A write at the end of the block reaches the end, read or not.
    assert_eq!(found.of(v(1)), vec![(10, 10, RangeFragKind::LiveOut)]);
}

#[test]
fn the_fragments_of_a_register_follow_each_other() {
    let p = one_block(vec![
        insn(&[v(0)], &[], &[v(0)]),
        insn(&[v(0)], &[], &[v(0)]),
        insn(&[], &[v(0)], &[]),
        insn(&[], &[], &[v(0)]),
    ]);
    let found = frags_of_block(&p, &[v(0)], &[v(0)]);
    let frags = found.of(v(0));
    assert_eq!(frags.len(), 4);
    for w in frags.windows(2) {
        assert!(w[0].1 < w[1].0);
    }
    assert_eq!(frags[0], (1, 1, RangeFragKind::LiveIn));
    assert_eq!(frags[3], (14, 14, RangeFragKind::LiveOut));
}

#[test]
fn fragments_come_in_the_order_in_which_they_end() {
    // Two that writes end, then the live-out ones in the order of their set, then the rest.
    let p = one_block(vec![
        insn(&[], &[], &[v(0), v(1)]),
        insn(&[], &[], &[v(1), v(0)]),
        insn(&[], &[], &[]),
    ]);
    let found = frags_of_block(&p, &[v(2), v(3)], &[v(3), v(1), v(0)]);
    let at = |reg: Reg| -> Vec<u32> {
        found.map.get(reg).unwrap().iter().map(|f| f.ix).collect()
    };
    assert_eq!(at(v(1)), vec![0, 3]);
    assert_eq!(at(v(0)), vec![1, 4]);
    assert_eq!(at(v(3)), vec![2]);
    assert_eq!(at(v(2)), vec![5]);
    assert_eq!(found.frags.len(), 6);
    assert_eq!(found.metrics.len(), 6);
}

#[test]
fn a_block_may_have_many_fragments() {
    // Two for each register: more than fit on the stack.
    let n = 50u32;
    let regs: Vec<Reg> = (0..n).map(|k| v(k)).collect();
    let p = one_block(vec![insn(&[], &[], &regs), insn(&regs, &[], &regs)]);
    let found = frags_of_block(&p, &[], &[]);
    assert_eq!(found.frags.len(), 2 * n as usize);
    for k in 0..n {
        assert_eq!(
            found.of(v(k)),
            vec![(2, 5, RangeFragKind::Local), (6, 6, RangeFragKind::LiveOut)]
        );
        // Those that writes end come in program order.
        assert_eq!(found.map.get(v(k)).unwrap()[0], RangeFragIx { ix: k });
    }
}

#[test]
fn new_fragments_are_appended() {
    let p = one_block(vec![insn(&[], &[], &[v(0)])]);
    let mut found = frags_of_block(&p, &[], &[]);
    get_range_frags_for_block(
        &p,
        BlockIx { ix: 0 },
        &set(&[v(1)]),
        &set(&[v(0)]),
        &reg_lists(&p),
        &mut found.map,
        &mut found.frags,
        &mut found.metrics,
    );
    assert_eq!(found.frags.len(), 3);
    assert_eq!(
        found.map.get(v(0)).unwrap(),
        &vec![RangeFragIx { ix: 0 }, RangeFragIx { ix: 1 }]
    );
    assert_eq!(found.map.get(v(1)).unwrap(), &vec![RangeFragIx { ix: 2 }]);
}

#[test]
fn all_blocks_are_visited() {
    let p = Program {
        blocks: vec![(0, 1), (1, 2)],
        insns: vec![insn(&[], &[], &[v(0)]), insn(&[v(0)], &[], &[r(1)]), ret(&[r(1)])],
        liveins: vec![],
        liveouts: vec![],
    };
    let liveins = vec![set(&[]), set(&[v(0)])];
    let liveouts = vec![set(&[v(0)]), set(&[])];
    let (map, frags, metrics) = get_range_frags(&p, &liveins, &liveouts, &reg_lists(&p));
    let found = Found { map, frags, metrics };
    assert_eq!(
        found.of(v(0)),
        vec![(2, 2, RangeFragKind::LiveOut), (5, 5, RangeFragKind::LiveIn)]
    );
    assert_eq!(found.of(r(1)), vec![(6, 9, RangeFragKind::Local)]);
    assert_eq!(found.of(v(1)), vec![]);
    let mut regs = found.map.regs();
    regs.sort();
    assert_eq!(regs, vec![r(1), v(0)]);
    let blocks: Vec<u32> =
        found.map.get(v(0)).unwrap().iter().map(|f| found.metrics[f.ix as usize].bix.ix).collect();
    assert_eq!(blocks, vec![0, 1]);
}

#[test]
fn a_fragment_has_a_text() {
    let p = one_block(vec![insn(&[], &[], &[]), insn(&[], &[], &[]), insn(&[], &[], &[])]);
    let first = InstPoint::new_def(InstIx { ix: 0 });
    let last = InstPoint::new_def(InstIx { ix: 2 });
    let (frag, _) = RangeFrag::new(&p, BlockIx { ix: 0 }, first, last, vec![used(1)]);
    assert_eq!(frag.debug_text(), "[InstPoint { bits: 2 }; InstPoint { bits: 10 }]");
    for bits in [0, 7, 90, 1234567890, u64::MAX] {
        let point = InstPoint { bits };
        let frag = RangeFrag { first: InstPoint { bits: 0 }, last: point, mentions: vec![] };
        assert_eq!(frag.debug_text(), format!("[{:?}; {:?}]", frag.first, frag.last));
    }
}
