//! The whole analysis, on small programs.

use linear_scan_analysis::analysis::{run, AnalysisError, AnalysisInfo};
use linear_scan_analysis::control_flow::CFGInfo;
use linear_scan_analysis::data_structures::{
    BlockIx, InstIx, InstRange, Mention, RealReg, RealRegUniverse, Reg, RegVecBounds, RegVecs,
    RegVecsAndBounds,
};
use linear_scan_analysis::function::{BlockRange, Function, FunctionModel};
use linear_scan_analysis::intervals::VirtualInterval;

struct Insn {
    uses: Vec<Reg>,
    mods: Vec<Reg>,
    defs: Vec<Reg>,
    ret: bool,
}

fn insn(uses: &[Reg], mods: &[Reg], defs: &[Reg]) -> Insn {
    Insn { uses: uses.to_vec(), mods: mods.to_vec(), defs: defs.to_vec(), ret: false }
}

fn ret(uses: &[Reg]) -> Insn {
    Insn { uses: uses.to_vec(), mods: vec![], defs: vec![], ret: true }
}

struct Program {
    /// First instruction and length of each block.
    blocks: Vec<(u32, u32)>,
    insns: Vec<Insn>,
    liveins: Vec<RealReg>,
    liveouts: Vec<RealReg>,
}

impl Function for Program {
    fn model(&self) -> FunctionModel {
        unreachable!("the model is for proofs only")
    }

    fn blocks(&self) -> BlockRange {
        BlockRange { len: self.blocks.len() as u32 }
    }

    fn block_insns(&self, bix: BlockIx) -> InstRange {
        let (first, len) = self.blocks[bix.ix as usize];
        InstRange { first: InstIx { ix: first }, len }
    }

    fn entry_block(&self) -> BlockIx {
        BlockIx { ix: 0 }
    }

    fn func_liveins(&self) -> Vec<RealReg> {
        self.liveins.clone()
    }

    fn func_liveouts(&self) -> Vec<RealReg> {
        self.liveouts.clone()
    }

    fn is_ret(&self, iix: InstIx) -> bool {
        self.insns[iix.ix as usize].ret
    }
}

/// The register lists of a program.
fn reg_lists(p: &Program) -> RegVecsAndBounds {
    let mut vecs = RegVecs { uses: vec![], mods: vec![], defs: vec![], sanitized: true };
    let mut bounds = vec![];
    for i in p.insns.iter() {
        bounds.push(RegVecBounds {
            uses_start: vecs.uses.len() as u32,
            uses_len: i.uses.len() as u32,
            mods_start: vecs.mods.len() as u32,
            mods_len: i.mods.len() as u32,
            defs_start: vecs.defs.len() as u32,
            defs_len: i.defs.len() as u32,
        });
        vecs.uses.extend(i.uses.iter());
        vecs.mods.extend(i.mods.iter());
        vecs.defs.extend(i.defs.iter());
    }
    RegVecsAndBounds { vecs, bounds }
}

fn v(index: u32) -> Reg {
    Reg::new_virtual(0, index)
}

fn r(index: u8) -> Reg {
    Reg::new_real(0, index, index)
}

fn flow(succs: &[&[u32]]) -> CFGInfo {
    CFGInfo {
        succ_map: succs
            .iter()
            .map(|s| s.iter().map(|&ix| BlockIx { ix }).collect())
            .collect(),
        depth_map: vec![0; succs.len()],
    }
}

fn used(ix: u32) -> (InstIx, Mention) {
    (InstIx { ix }, Mention { used: true, modified: false, defined: false })
}

fn modified(ix: u32) -> (InstIx, Mention) {
    (InstIx { ix }, Mention { used: false, modified: true, defined: false })
}

fn defined(ix: u32) -> (InstIx, Mention) {
    (InstIx { ix }, Mention { used: false, modified: false, defined: true })
}

fn universe(n: u8) -> RealRegUniverse {
    RealRegUniverse {
        regs: (0..n).map(|k| (RealReg { reg: r(k) }, format!("r{}", k))).collect(),
    }
}

fn analyse(p: &Program, cfg: CFGInfo) -> AnalysisInfo {
    let lists = reg_lists(p);
    match run(p, &universe(4), Ok(cfg), Ok(lists)) {
        Ok(info) => info,
        Err(e) => panic!("the analysis failed: {:?}", e),
    }
}

/// The intervals of a virtual register, in the order in which they start.
fn intervals_of(info: &AnalysisInfo, reg: Reg) -> Vec<&VirtualInterval> {
    let mut found: Vec<&VirtualInterval> =
        info.intervals.virtuals.iter().filter(|i| i.vreg.reg == reg).collect();
    found.sort_by_key(|i| i.start.bits);
    found
}

fn bounds_of(i: &VirtualInterval) -> (u64, u64) {
    (i.start.bits, i.end.bits)
}

/// The first and last points of the fragments of a real register.
fn fixed(info: &AnalysisInfo, k: usize) -> Vec<(u64, u64)> {
    info.intervals.fixeds[k].frags.iter().map(|f| (f.first.bits, f.last.bits)).collect()
}

/// What every result has in common, whatever the program is.
fn check_result(p: &Program, info: &AnalysisInfo) {
    // Intervals are numbered in their order, and are their own ancestors.
    for (k, i) in info.intervals.virtuals.iter().enumerate() {
        assert_eq!(i.id.id, k);
        assert_eq!(i.ancestor, Some(i.id));
        assert!(i.start <= i.end);
        for w in i.mentions.windows(2) {
            assert!(w[0].0 < w[1].0);
        }
        // What an interval notes does happen.
        for (iix, m) in i.mentions.iter() {
            let insn = &p.insns[iix.ix as usize];
            assert!(m.used || m.modified || m.defined);
            assert!(!m.used || insn.uses.contains(&i.vreg.reg));
            assert!(!m.modified || insn.mods.contains(&i.vreg.reg));
            assert!(!m.defined || insn.defs.contains(&i.vreg.reg));
        }
    }
    // What happens is noted.
    for (n, insn) in p.insns.iter().enumerate() {
        let use_point = 4 * n as u64 + 1;
        let def_point = 4 * n as u64 + 2;
        for reg in insn.uses.iter() {
            assert!(noted(info, *reg, n, use_point, |m| m.used));
        }
        for reg in insn.mods.iter() {
            assert!(noted(info, *reg, n, def_point, |m| m.modified));
        }
        for reg in insn.defs.iter() {
            assert!(noted(info, *reg, n, def_point, |m| m.defined));
        }
    }
    // The fragments of a fixed interval ascend and do not overlap.
    for f in info.intervals.fixeds.iter() {
        for w in f.frags.windows(2) {
            assert!(w[0].last < w[1].first);
        }
    }
}

fn noted(info: &AnalysisInfo, reg: Reg, n: usize, p: u64, sel: fn(&Mention) -> bool) -> bool {
    if reg.is_virtual() {
        intervals_of(info, reg).iter().any(|i| {
            i.start.bits <= p
                && p <= i.end.bits
                && i.mentions.iter().any(|(iix, m)| iix.ix as usize == n && sel(m))
        })
    } else {
        info.intervals.fixeds[reg.to_real_reg().get_index()].frags.iter().any(|f| {
            f.first.bits <= p
                && p <= f.last.bits
                && f.mentions.iter().any(|(iix, m)| iix.ix as usize == n && sel(m))
        })
    }
}

#[test]
fn straight_line_code_has_one_interval_per_register() {
    let p = Program {
        blocks: vec![(0, 4)],
        insns: vec![
            insn(&[], &[], &[v(0)]),
            insn(&[v(0)], &[], &[v(1)]),
            insn(&[], &[v(1)], &[]),
            ret(&[v(1)]),
        ],
        liveins: vec![],
        liveouts: vec![],
    };
    let info = analyse(&p, flow(&[&[]]));
    check_result(&p, &info);
    assert_eq!(info.intervals.virtuals.len(), 2);
    let i = intervals_of(&info, v(0));
    assert_eq!(bounds_of(i[0]), (2, 5));
    assert_eq!(i[0].mentions, vec![defined(0), used(1)]);
    let i = intervals_of(&info, v(1));
    assert_eq!(bounds_of(i[0]), (6, 13));
    assert_eq!(i[0].mentions, vec![defined(1), modified(2), used(3)]);
    assert_eq!(info.liveins[0].elems().len(), 0);
    assert_eq!(info.liveouts[0].elems().len(), 0);
    assert!(fixed(&info, 0).is_empty());
    assert_eq!(info.intervals.fixeds.len(), 4);
    assert_eq!(info.intervals.fixeds[3].reg.reg, r(3));
    assert_eq!(info._loop_depth, vec![0]);
    assert_eq!(info._inst_to_block_map.map(InstIx { ix: 3 }), Some(BlockIx { ix: 0 }));
    assert_eq!(info.reg_vecs_and_bounds, reg_lists(&p));
}

fn loop_program() -> Program {
    Program {
        blocks: vec![(0, 1), (1, 2), (3, 1)],
        insns: vec![
            insn(&[], &[], &[v(0)]),
            insn(&[v(0)], &[], &[v(1)]),
            insn(&[v(1)], &[], &[]),
            ret(&[v(0)]),
        ],
        liveins: vec![],
        liveouts: vec![],
    }
}

#[test]
fn a_value_that_lives_through_a_loop_has_one_interval() {
    let p = loop_program();
    let info = analyse(&p, flow(&[&[1], &[1, 2], &[]]));
    check_result(&p, &info);
    let i = intervals_of(&info, v(0));
    assert_eq!(i.len(), 1);
    assert_eq!(bounds_of(i[0]), (2, 13));
    assert_eq!(i[0].mentions, vec![defined(0), used(1), used(3)]);
    let i = intervals_of(&info, v(1));
    assert_eq!(i.len(), 1);
    assert_eq!(bounds_of(i[0]), (6, 9));
}

#[test]
fn live_sets_follow_the_jumps() {
    let info = analyse(&loop_program(), flow(&[&[1], &[1, 2], &[]]));
    let ins: Vec<bool> = info.liveins.iter().map(|s| s.contains(v(0))).collect();
    let outs: Vec<bool> = info.liveouts.iter().map(|s| s.contains(v(0))).collect();
    assert_eq!(ins, vec![false, true, true]);
    assert_eq!(outs, vec![true, true, false]);
    assert!(!info.liveins[1].contains(v(1)));
}

#[test]
fn a_jump_stays_in_one_interval() {
    let p = loop_program();
    let succs: &[&[u32]] = &[&[1], &[1, 2], &[]];
    let info = analyse(&p, flow(succs));
    for (from, tos) in succs.iter().enumerate() {
        for &to in tos.iter() {
            let (first, len) = p.blocks[from];
            let end = 4 * (first + len - 1) as u64 + 2;
            let start = 4 * p.blocks[to as usize].0 as u64 + 1;
            let spanning = intervals_of(&info, v(0))
                .iter()
                .filter(|i| {
                    i.start.bits <= end
                        && end <= i.end.bits
                        && i.start.bits <= start
                        && start <= i.end.bits
                })
                .count();
            assert_eq!(spanning, 1);
        }
    }
}

#[test]
fn unconnected_values_of_a_register_have_their_own_intervals() {
    let p = Program {
        blocks: vec![(0, 5)],
        insns: vec![
            insn(&[], &[], &[v(7)]),
            insn(&[v(7)], &[], &[]),
            insn(&[], &[], &[v(7)]),
            insn(&[v(7)], &[], &[]),
            ret(&[]),
        ],
        liveins: vec![],
        liveouts: vec![],
    };
    let info = analyse(&p, flow(&[&[]]));
    check_result(&p, &info);
    let i = intervals_of(&info, v(7));
    assert_eq!(i.len(), 2);
    assert_eq!(bounds_of(i[0]), (2, 5));
    assert_eq!(bounds_of(i[1]), (10, 13));
    assert_eq!(i[0].mentions, vec![defined(0), used(1)]);
    assert_eq!(i[1].mentions, vec![defined(2), used(3)]);
    // Values that touch no end of their block are numbered in their order.
    assert!(i[0].id.id < i[1].id.id);
}

#[test]
fn values_that_meet_share_an_interval() {
    // Both sides of a branch write the register that is read where they meet.
    let p = Program {
        blocks: vec![(0, 1), (1, 1), (2, 1), (3, 1)],
        insns: vec![
            insn(&[], &[], &[v(1)]),
            insn(&[], &[], &[v(0)]),
            insn(&[], &[], &[v(0)]),
            ret(&[v(0)]),
        ],
        liveins: vec![],
        liveouts: vec![],
    };
    let info = analyse(&p, flow(&[&[1, 2], &[3], &[3], &[]]));
    check_result(&p, &info);
    let i = intervals_of(&info, v(0));
    assert_eq!(i.len(), 1);
    assert_eq!(bounds_of(i[0]), (6, 13));
    assert_eq!(i[0].mentions, vec![defined(1), defined(2), used(3)]);
    // A value that is never read ends where it is written.
    let i = intervals_of(&info, v(1));
    assert_eq!(bounds_of(i[0]), (2, 2));
}

#[test]
fn real_registers_get_sorted_fragments() {
    let p = Program {
        blocks: vec![(0, 3)],
        insns: vec![
            insn(&[r(1)], &[], &[v(0)]),
            insn(&[v(0)], &[], &[r(1)]),
            ret(&[]),
        ],
        liveins: vec![RealReg { reg: r(1) }],
        liveouts: vec![RealReg { reg: r(1) }],
    };
    let info = analyse(&p, flow(&[&[]]));
    check_result(&p, &info);
    assert!(info.liveins[0].contains(r(1)));
    assert!(info.liveouts[0].contains(r(1)));
    assert_eq!(fixed(&info, 1), vec![(1, 1), (6, 10)]);
    assert_eq!(info.intervals.fixeds[1].frags[0].mentions, vec![used(0)]);
    assert_eq!(info.intervals.fixeds[1].frags[1].mentions, vec![defined(1)]);
    assert!(fixed(&info, 0).is_empty());
}

#[test]
fn fixed_fragments_are_sorted_even_if_blocks_are_not() {
    // The entry block holds the later instructions.
    let p = Program {
        blocks: vec![(3, 3), (0, 3)],
        insns: vec![
            insn(&[], &[], &[r(0)]),
            insn(&[r(0)], &[], &[]),
            ret(&[]),
            insn(&[], &[], &[r(0)]),
            insn(&[r(0)], &[], &[]),
            insn(&[], &[], &[]),
        ],
        liveins: vec![],
        liveouts: vec![],
    };
    let info = analyse(&p, flow(&[&[1], &[]]));
    check_result(&p, &info);
    assert_eq!(fixed(&info, 0), vec![(2, 5), (14, 17)]);
}

#[test]
fn results_live_on_in_every_block_that_returns() {
    let p = Program {
        blocks: vec![(0, 1), (1, 2), (3, 2)],
        insns: vec![
            insn(&[], &[], &[]),
            insn(&[], &[], &[r(2)]),
            ret(&[]),
            insn(&[], &[], &[r(2)]),
            ret(&[]),
        ],
        liveins: vec![],
        liveouts: vec![RealReg { reg: r(2) }],
    };
    let info = analyse(&p, flow(&[&[1, 2], &[], &[]]));
    check_result(&p, &info);
    let outs: Vec<bool> = info.liveouts.iter().map(|s| s.contains(r(2))).collect();
    assert_eq!(outs, vec![false, true, true]);
    assert_eq!(fixed(&info, 2), vec![(6, 10), (14, 18)]);
}

#[test]
fn a_read_of_nothing_is_refused() {
    let p = Program {
        blocks: vec![(0, 1)],
        insns: vec![ret(&[v(0)])],
        liveins: vec![RealReg { reg: r(0) }],
        liveouts: vec![],
    };
    match run(&p, &universe(4), Ok(flow(&[&[]])), Ok(reg_lists(&p))) {
        Err(e) => assert_eq!(e, AnalysisError::EntryLiveinValues),
        Ok(_) => panic!("a register without a value was accepted"),
    }
}

#[test]
fn a_read_of_an_argument_is_accepted() {
    let p = Program {
        blocks: vec![(0, 1)],
        insns: vec![ret(&[r(0)])],
        liveins: vec![RealReg { reg: r(0) }],
        liveouts: vec![],
    };
    let info = analyse(&p, flow(&[&[]]));
    check_result(&p, &info);
    assert_eq!(fixed(&info, 0), vec![(1, 1)]);
}

#[test]
fn a_modification_of_nothing_is_refused() {
    let p = Program {
        blocks: vec![(0, 1), (1, 1)],
        insns: vec![insn(&[], &[], &[]), insn(&[], &[v(3)], &[])],
        liveins: vec![],
        liveouts: vec![],
    };
    match run(&p, &universe(4), Ok(flow(&[&[1], &[]])), Ok(reg_lists(&p))) {
        Err(e) => assert_eq!(e, AnalysisError::EntryLiveinValues),
        Ok(_) => panic!("a register without a value was accepted"),
    }
}

#[test]
fn a_forbidden_register_is_reported() {
    let p = loop_program();
    let bad = RealReg { reg: r(3) };
    match run(&p, &universe(4), Ok(flow(&[&[1], &[1, 2], &[]])), Err(bad)) {
        Err(e) => assert_eq!(e, AnalysisError::IllegalRealReg(bad)),
        Ok(_) => panic!("a forbidden register was accepted"),
    }
}

#[test]
fn failures_of_the_control_flow_come_first() {
    let p = loop_program();
    let bad = RealReg { reg: r(3) };
    for e in [
        AnalysisError::UnreachableBlocks,
        AnalysisError::CriticalEdge { from: BlockIx { ix: 1 }, to: BlockIx { ix: 2 } },
    ] {
        match run(&p, &universe(4), Err(e), Err(bad)) {
            Err(found) => assert_eq!(found, e),
            Ok(_) => panic!("broken control flow was accepted"),
        }
        match run(&p, &universe(4), Err(e), Ok(reg_lists(&p))) {
            Err(found) => assert_eq!(found, e),
            Ok(_) => panic!("broken control flow was accepted"),
        }
    }
}

#[test]
fn a_long_chain_of_blocks_is_one_interval() {
    // More blocks than the fragments of a register are compared one by one for.
    let n = 400u32;
    let mut insns = vec![insn(&[], &[], &[v(0)])];
    for _ in 1..n - 1 {
        insns.push(insn(&[], &[], &[]));
    }
    insns.push(ret(&[v(0)]));
    let p = Program {
        blocks: (0..n).map(|b| (b, 1)).collect(),
        insns,
        liveins: vec![],
        liveouts: vec![],
    };
    let succs: Vec<Vec<u32>> = (0..n).map(|b| if b + 1 < n { vec![b + 1] } else { vec![] }).collect();
    let slices: Vec<&[u32]> = succs.iter().map(|s| s.as_slice()).collect();
    let info = analyse(&p, flow(&slices));
    check_result(&p, &info);
    let i = intervals_of(&info, v(0));
    assert_eq!(i.len(), 1);
    assert_eq!(bounds_of(i[0]), (2, 4 * (n as u64 - 1) + 1));
    assert_eq!(i[0].mentions, vec![defined(0), used(n - 1)]);
}

#[test]
fn a_failure_of_the_control_flow_needs_no_function() {
    let p = Program { blocks: vec![], insns: vec![], liveins: vec![], liveouts: vec![] };
    let lists = RegVecsAndBounds {
        vecs: RegVecs { uses: vec![], mods: vec![], defs: vec![], sanitized: false },
        bounds: vec![],
    };
    match run(&p, &universe(0), Err(AnalysisError::UnreachableBlocks), Ok(lists)) {
        Err(e) => assert_eq!(e, AnalysisError::UnreachableBlocks),
        Ok(_) => panic!("broken control flow was accepted"),
    }
}

#[test]
fn instructions_in_no_block_do_not_matter() {
    let p = Program {
        blocks: vec![(1, 2)],
        insns: vec![
            insn(&[v(5), v(5), r(99)], &[r(98)], &[]),
            insn(&[], &[], &[v(0)]),
            ret(&[v(0)]),
        ],
        liveins: vec![],
        liveouts: vec![],
    };
    let mut lists = reg_lists(&p);
    lists.bounds[0].uses_start = 1000;
    let info = match run(&p, &universe(2), Ok(flow(&[&[]])), Ok(lists)) {
        Ok(info) => info,
        Err(e) => panic!("the analysis failed: {:?}", e),
    };
    assert_eq!(info.intervals.virtuals.len(), 1);
    assert_eq!(bounds_of(&info.intervals.virtuals[0]), (6, 9));
    assert_eq!(info._loop_depth.len(), 1);
}

#[test]
fn an_event_is_noted_in_one_interval() {
    let p = loop_program();
    let info = analyse(&p, flow(&[&[1], &[1, 2], &[]]));
    for (n, insn) in p.insns.iter().enumerate() {
        for reg in insn.uses.iter() {
            let noting = intervals_of(&info, *reg)
                .iter()
                .filter(|i| i.mentions.iter().any(|(iix, m)| iix.ix as usize == n && m.used))
                .count();
            assert_eq!(noting, 1);
        }
    }
}

#[test]
fn a_virtual_register_is_never_live_on_entry() {
    // However many real registers hold values there.
    let p = Program {
        blocks: vec![(0, 1), (1, 1)],
        insns: vec![insn(&[], &[], &[]), ret(&[v(0)])],
        liveins: vec![RealReg { reg: r(0) }, RealReg { reg: r(1) }],
        liveouts: vec![],
    };
    match run(&p, &universe(2), Ok(flow(&[&[1], &[]])), Ok(reg_lists(&p))) {
        Err(e) => assert_eq!(e, AnalysisError::EntryLiveinValues),
        Ok(_) => panic!("a register without a value was accepted"),
    }
}
