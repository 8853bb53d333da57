//! The whole analysis.

use crate::block_model::{
    add_positions, item_frags, item_metrics, item_regs, lemma_positions, FragItem,
};
use crate::control_flow::{succs_ok, CFGInfo, InstIxToBlockIxMap};
use crate::data_flow::{
    calc_def_and_use, calc_livein_and_liveout, def_sets, is_live_path, lemma_live_in_step, live_in,
    live_out, use_sets, uses_up_to, writes_up_to,
};
use crate::data_structures::{
    BlockIx, InsnRegs, RangeFragIx, RealReg, RealRegUniverse, Reg, RegVecsAndBounds,
};
use crate::function::{reg_set, Function, FunctionModel};
use crate::intervals::{real_frags, FixedInterval, Intervals, Piece};
use crate::merging::{
    are_groups, are_intervals, are_virtuals, group_pieces, merge_range_frags, metrics_of,
    outflows_known, Group,
};
use crate::range_frags::{
    appended, are_items, block_code, block_ready, frag_count_before, frag_views, frags_ready,
    get_range_frags, item_placed, ix_lists, lemma_items_placed, RangeFrag,
};
use crate::seq_facts::lemma_same_elements_mapped;
use crate::sorting::{sort_by_key, sorted, SortKey};
use crate::sparse_set::{all_wf, set_views, SparseSet};
use vstd::prelude::*;

verus! {

/// Why a function cannot be analysed.
#[derive(Clone, Copy, Debug, PartialEq, Eq, Structural)]
pub enum AnalysisError {
    /// A jump leads from a block with several successors to one with several predecessors.
    CriticalEdge { from: BlockIx, to: BlockIx },
    /// The entry block reads a register that holds no value on entry.
    EntryLiveinValues,
    /// An instruction mentions a real register that it must not mention.
    IllegalRealReg(RealReg),
    /// Some blocks cannot be reached from the entry block.
    UnreachableBlocks,
}

/// What the analysis finds out about a function.
pub struct AnalysisInfo {
    /// The registers of each instruction.
    pub reg_vecs_and_bounds: RegVecsAndBounds,
    /// All intervals, fixed or virtual.
    pub intervals: Intervals,
    /// The registers that are live where each block starts.
    pub liveins: Vec<SparseSet>,
    /// The registers that are live where each block ends.
    pub liveouts: Vec<SparseSet>,
    /// How many loops each block lies in.
    pub _loop_depth: Vec<u32>,
    /// Which block each instruction is in.
    pub _inst_to_block_map: InstIxToBlockIxMap,
}

/// The registers that are live where each block starts.
pub open spec fn live_in_sets(
    model: FunctionModel,
    code: Seq<InsnRegs>,
    succs: Seq<Seq<BlockIx>>,
) -> Seq<Set<Reg>> {
    Seq::new(
        model.blocks.len(),
        |b: int|
            Set::new(
                |r: Reg| live_in(def_sets(model, code), use_sets(model, code), succs, b, r),
            ),
    )
}

/// The registers that are live where each block ends: those that are live where a successor
/// starts, and, where the function returns, those that the caller reads.
pub open spec fn live_out_sets(
    model: FunctionModel,
    code: Seq<InsnRegs>,
    succs: Seq<Seq<BlockIx>>,
) -> Seq<Set<Reg>> {
    Seq::new(
        model.blocks.len(),
        |b: int|
            Set::new(
                |r: Reg|
                    {
                        ||| live_out(def_sets(model, code), use_sets(model, code), succs, b, r)
                        ||| model.ends_in_ret(b) && model.liveouts.contains(r)
                    },
            ),
    )
}

/// Every register that is live on entry holds a value there.
pub open spec fn entry_ok(
    model: FunctionModel,
    code: Seq<InsnRegs>,
    succs: Seq<Seq<BlockIx>>,
) -> bool {
    live_in_sets(model, code, succs)[model.entry].subset_of(model.liveins)
}

/// The register lists fit the function: there is one for each instruction of a block, and no such
/// instruction lists a register twice among its reads.
pub open spec fn code_ok(model: FunctionModel, rvb: RegVecsAndBounds) -> bool {
    &&& rvb.vecs.sanitized
    &&& forall|b: int| 0 <= b < model.blocks.len() ==> rvb.ok_in(#[trigger] model.blocks[b])
    &&& forall|b: int, i: int|
        0 <= b < model.blocks.len() && (#[trigger] model.blocks[b]).lo() <= i < model.blocks[b].hi()
            ==> (#[trigger] rvb@[i]).uses.no_duplicates()
}

/// Every real register that an instruction of a block mentions is one of the universe.
pub open spec fn regs_known(
    model: FunctionModel,
    code: Seq<InsnRegs>,
    univ: RealRegUniverse,
) -> bool {
    forall|i: int, r: Reg|
        model.holds(i) && #[trigger] code[i].mentions(r) && r.spec_is_real() ==> r.real_index()
            < univ.regs@.len()
}

/// Where the function returns, the registers that the caller reads hold values.
pub open spec fn results_available(
    model: FunctionModel,
    code: Seq<InsnRegs>,
    succs: Seq<Seq<BlockIx>>,
) -> bool {
    forall|b: int, r: Reg|
        0 <= b < model.blocks.len() && model.ends_in_ret(b) && #[trigger] model.liveouts.contains(r)
            ==> (#[trigger] block_code(
            model,
            b,
            live_in_sets(model, code, succs)[b],
            code,
        )).available(r, model.blocks[b].hi())
}

/// The fragments of the function can be numbered.
pub open spec fn frags_countable(
    model: FunctionModel,
    code: Seq<InsnRegs>,
    succs: Seq<Seq<BlockIx>>,
) -> bool {
    frag_count_before(
        model,
        code,
        live_in_sets(model, code, succs),
        model.blocks.len() as int,
    ) <= u32::MAX
}

/// The indices of the fragments of each register.
pub open spec fn listing(items: Seq<FragItem>) -> Map<Reg, Seq<RangeFragIx>> {
    add_positions(Map::empty(), 0, item_regs(items))
}

impl SortKey for RangeFrag {
    open spec fn key(&self) -> int {
        self.first@
    }

    fn sort_key(&self) -> u64 {
        self.first.bits
    }
}

/// The intervals that some pieces make, with the fragments of each fixed interval in the order
/// in which they start.
pub open spec fn are_sorted_intervals(
    univ: RealRegUniverse,
    pieces: Seq<Piece>,
    intervals: Intervals,
) -> bool {
    &&& intervals.fixeds@.len() == univ.regs@.len()
    &&& forall|k: int|
        0 <= k < intervals.fixeds@.len() ==> is_sorted_fixed(
            univ,
            pieces,
            k,
            #[trigger] intervals.fixeds@[k],
        )
    &&& are_virtuals(pieces, intervals.virtuals@)
}

/// [`are_sorted_intervals`] for one real register.
pub open spec fn is_sorted_fixed(
    univ: RealRegUniverse,
    pieces: Seq<Piece>,
    k: int,
    fixed: FixedInterval,
) -> bool {
    &&& fixed.reg == univ.regs@[k].0
    &&& frag_views(fixed.frags@).to_multiset() == real_frags(pieces, k).to_multiset()
    &&& sorted(fixed.frags@)
}

/// `intervals` are the live intervals of a function, where the registers of `liveins` and
/// `liveouts` are live where its blocks start and end.
pub open spec fn are_intervals_of(
    model: FunctionModel,
    univ: RealRegUniverse,
    code: Seq<InsnRegs>,
    succs: Seq<Seq<BlockIx>>,
    liveins: Seq<SparseSet>,
    liveouts: Seq<SparseSet>,
    intervals: Intervals,
) -> bool {
    exists|items: Seq<FragItem>, groups: Seq<Group>|
        {
            &&& #[trigger] are_items(model, code, liveins, liveouts, items)
            &&& #[trigger] are_groups(listing(items), item_metrics(items), succs, groups)
            &&& are_sorted_intervals(
                univ,
                group_pieces(listing(items), item_frags(items), groups),
                intervals,
            )
        }
}

/// `info` is the result of the analysis.
pub open spec fn is_analysis(
    model: FunctionModel,
    univ: RealRegUniverse,
    cfg: CFGInfo,
    rvb: RegVecsAndBounds,
    info: AnalysisInfo,
) -> bool {
    &&& info.reg_vecs_and_bounds == rvb
    &&& all_wf(info.liveins@)
    &&& all_wf(info.liveouts@)
    &&& set_views(info.liveins@) == live_in_sets(model, rvb@, cfg.succs())
    &&& set_views(info.liveouts@) == live_out_sets(model, rvb@, cfg.succs())
    &&& are_intervals_of(
        model,
        univ,
        rvb@,
        cfg.succs(),
        info.liveins@,
        info.liveouts@,
        info.intervals,
    )
    &&& info._loop_depth == cfg.depth_map
    &&& info._inst_to_block_map.ranges@ == model.blocks
}

/// The set of the registers of a vector of real registers.
fn set_of_real_regs(v: Vec<RealReg>) -> (s: SparseSet)
    ensures
        s.wf(),
        s@ == reg_set(v@),
{
    let ghost f = |r: RealReg| r.reg;
    let mut regs: Vec<Reg> = Vec::with_capacity(v.len());
    let mut i: usize = 0;
    while i < v.len()
        invariant
            i <= v@.len(),
            f == (|r: RealReg| r.reg),
            regs@ == v@.take(i as int).map_values(f),
        decreases v@.len() - i,
    {
        regs.push(v[i].to_reg());
        assert(v@.take(i + 1).map_values(f) =~= v@.take(i as int).map_values(f).push(
            v@[i as int].reg,
        ));
        i += 1;
    }
    assert(v@.take(i as int) =~= v@);
    SparseSet::from_vec(regs)
}

/// Sorts the fragments of each fixed interval by their first points.
fn sort_fixed(fixeds: &mut Vec<FixedInterval>)
    ensures
        final(fixeds)@.len() == old(fixeds)@.len(),
        forall|k: int|
            0 <= k < old(fixeds)@.len() ==> {
                &&& (#[trigger] final(fixeds)@[k]).reg == old(fixeds)@[k].reg
                &&& frag_views(final(fixeds)@[k].frags@).to_multiset() == frag_views(
                    old(fixeds)@[k].frags@,
                ).to_multiset()
                &&& sorted(final(fixeds)@[k].frags@)
            },
{
    let ghost before = fixeds@;
    let mut i: usize = 0;
    while i < fixeds.len()
        invariant
            i <= fixeds@.len() == before.len(),
            forall|k: int|
                0 <= k < i ==> {
                    &&& (#[trigger] fixeds@[k]).reg == before[k].reg
                    &&& frag_views(fixeds@[k].frags@).to_multiset() == frag_views(
                        before[k].frags@,
                    ).to_multiset()
                    &&& sorted(fixeds@[k].frags@)
                },
            forall|k: int| i <= k < before.len() ==> #[trigger] fixeds@[k] == before[k],
        decreases fixeds@.len() - i,
    {
        sort_by_key(&mut fixeds[i].frags);
        proof {
            lemma_same_elements_mapped(
                fixeds@[i as int].frags@,
                before[i as int].frags@,
                |f: RangeFrag| f@,
            );
        }
        i += 1;
    }
}

/// A register that an instruction reads holds a value there, if all that is live where the block
/// starts does.
proof fn lemma_read_available(
    model: FunctionModel,
    code: Seq<InsnRegs>,
    succs: Seq<Seq<BlockIx>>,
    b: int,
    i: int,
    r: Reg,
)
    requires
        model.ok(),
        0 <= b < model.blocks.len() == succs.len(),
        succs_ok(succs),
        model.blocks[b].lo() <= i < model.blocks[b].hi(),
        code[i].reads(r),
    ensures
        block_code(model, b, live_in_sets(model, code, succs)[b], code).available(r, i),
    decreases i,
{
    let block = model.blocks[b];
    let c = block_code(model, b, live_in_sets(model, code, succs)[b], code);
    if writes_up_to(code, block, i, r) {
        let j = choose|j: int| block.lo() <= j < i && (#[trigger] code[j]).writes(r);
        if !code[j].defs.contains(r) {
            lemma_read_available(model, code, succs, b, j, r);
            if !c.livein.contains(r) {
                let k = choose|k: int|
                    block.lo() <= k < j && (#[trigger] c.code[k]).defs.contains(r);
                assert(c.code[k].defs.contains(r));
            }
        } else {
            assert(c.code[j].defs.contains(r));
        }
    } else {
        assert(uses_up_to(code, block, block.hi(), r));
        assert(use_sets(model, code)[b].contains(r));
        lemma_live_in_step(
            def_sets(model, code),
            use_sets(model, code),
            succs,
            BlockIx { ix: b as u32 },
            r,
        );
    }
}

/// A register that is live where a block ends holds a value there, if all that is live where the
/// block starts does.
proof fn lemma_live_out_available(
    model: FunctionModel,
    code: Seq<InsnRegs>,
    succs: Seq<Seq<BlockIx>>,
    b: int,
    r: Reg,
)
    requires
        model.ok(),
        0 <= b < model.blocks.len() == succs.len(),
        succs_ok(succs),
        live_out(def_sets(model, code), use_sets(model, code), succs, b, r),
    ensures
        block_code(model, b, live_in_sets(model, code, succs)[b], code).available(
            r,
            model.blocks[b].hi(),
        ),
{
    let block = model.blocks[b];
    let c = block_code(model, b, live_in_sets(model, code, succs)[b], code);
    lemma_live_in_step(
        def_sets(model, code),
        use_sets(model, code),
        succs,
        BlockIx { ix: b as u32 },
        r,
    );
    if def_sets(model, code)[b].contains(r) {
        assert(writes_up_to(code, block, block.hi(), r));
        let j = choose|j: int| block.lo() <= j < block.hi() && (#[trigger] code[j]).writes(r);
        if !code[j].defs.contains(r) {
            lemma_read_available(model, code, succs, b, j, r);
            if !c.livein.contains(r) {
                let k = choose|k: int|
                    block.lo() <= k < j && (#[trigger] c.code[k]).defs.contains(r);
                assert(c.code[k].defs.contains(r));
            }
        } else {
            assert(c.code[j].defs.contains(r));
        }
    }
}

/// The live sets allow fragments to be made.
pub proof fn lemma_frags_ready(
    model: FunctionModel,
    rvb: RegVecsAndBounds,
    succs: Seq<Seq<BlockIx>>,
    liveins: Seq<SparseSet>,
    liveouts: Seq<SparseSet>,
)
    requires
        model.ok(),
        code_ok(model, rvb),
        succs.len() == model.blocks.len(),
        succs_ok(succs),
        all_wf(liveins),
        all_wf(liveouts),
        set_views(liveins) == live_in_sets(model, rvb@, succs),
        set_views(liveouts) == live_out_sets(model, rvb@, succs),
        results_available(model, rvb@, succs),
        frags_countable(model, rvb@, succs),
    ensures
        frags_ready(model, rvb@, liveins, liveouts),
{
    let code = rvb@;
    assert(set_views(liveins).len() == model.blocks.len());
    assert(set_views(liveouts).len() == model.blocks.len());
    assert forall|b: int| 0 <= b < model.blocks.len() implies block_ready(
        #[trigger] block_code(model, b, liveins[b]@, code),
        liveins[b],
        liveouts[b],
    ) by {
        let c = block_code(model, b, liveins[b]@, code);
        assert(set_views(liveins)[b] == liveins[b]@);
        assert(set_views(liveouts)[b] == liveouts[b]@);
        assert(c == block_code(model, b, live_in_sets(model, code, succs)[b], code));
        assert(model.blocks[b].hi() <= code.len());
        assert forall|i: int, r: Reg|
            c.block.lo() <= i < c.block.hi() && #[trigger] c.code[i].reads(r) implies c.available(
            r,
            i,
        ) by {
            lemma_read_available(model, code, succs, b, i, r);
        }
        assert forall|r: Reg| #[trigger] liveouts[b]@.contains(r) implies c.available(
            r,
            c.block.hi(),
        ) by {
            assert(live_out_sets(model, code, succs)[b].contains(r));
            if live_out(def_sets(model, code), use_sets(model, code), succs, b, r) {
                lemma_live_out_available(model, code, succs, b, r);
            } else {
                assert(model.liveouts.contains(r));
            }
        }
    }
}

/// Every register that has a fragment is mentioned by an instruction.
pub proof fn lemma_item_regs_known(
    model: FunctionModel,
    rvb: RegVecsAndBounds,
    succs: Seq<Seq<BlockIx>>,
    liveins: Seq<SparseSet>,
    t: FragItem,
)
    requires
        model.ok(),
        code_ok(model, rvb),
        succs.len() == model.blocks.len() == liveins.len(),
        set_views(liveins) == live_in_sets(model, rvb@, succs),
        item_placed(model, rvb@, liveins, t),
    ensures
        exists|i: int| model.holds(i) && #[trigger] rvb@[i].mentions(t.reg),
{
    let code = rvb@;
    let r = t.reg;
    let b = t.metrics.bix.ix as int;
    let c = block_code(model, b, liveins[b]@, code);
    assert(set_views(liveins)[b] == liveins[b]@);
    assert(model.blocks[b].hi() <= code.len());
    if c.livein.contains(r) {
        let defs = def_sets(model, code);
        let uses = use_sets(model, code);
        assert(live_in(defs, uses, succs, b, r));
        let path = choose|path: Seq<BlockIx>| #[trigger]
            is_live_path(defs, uses, succs, r, path) && path[0].ix == b;
        let l = path[path.len() - 1].ix as int;
        assert(uses[l].contains(r));
        assert(uses_up_to(code, model.blocks[l], model.blocks[l].hi(), r));
        let i = choose|i: int|
            model.blocks[l].lo() <= i < model.blocks[l].hi() && (#[trigger] code[i]).reads(r)
                && !writes_up_to(code, model.blocks[l], i, r);
        assert(model.blocks[l].hi() <= code.len());
        assert(code[i].mentions(r));
    } else {
        let i = choose|i: int|
            c.block.lo() <= i < c.block.hi() && (#[trigger] c.code[i]).defs.contains(r);
        assert(code[i].mentions(r));
    }
}

/// Adds the registers that the caller reads to the live-out sets of all blocks that return.
fn add_func_liveouts<F: Function>(func: &F, liveouts: &mut Vec<SparseSet>)
    requires
        func.model().ok(),
        all_wf(old(liveouts)@),
        old(liveouts)@.len() == func.model().blocks.len(),
    ensures
        all_wf(final(liveouts)@),
        final(liveouts)@.len() == old(liveouts)@.len(),
        forall|b: int, r: Reg|
            0 <= b < old(liveouts)@.len() ==> (#[trigger] final(liveouts)@[b]@.contains(r) <==> {
                ||| old(liveouts)@[b]@.contains(r)
                ||| func.model().ends_in_ret(b) && func.model().liveouts.contains(r)
            }),
        forall|b: int, r: Reg|
            0 <= b < old(liveouts)@.len() && func.model().rets.contains(
                func.model().blocks[b].first.ix + func.model().blocks[b].len - 1,
            ) && func.model().liveouts.contains(r)
                ==> #[trigger] final(liveouts)@[b]@.contains(r),
{
    let ghost model = func.model();
    let ghost before = liveouts@;
    let func_liveouts = set_of_real_regs(func.func_liveouts());
    let num_blocks: u32 = func.blocks().len;
    let mut b: u32 = 0;
    while b < num_blocks
        invariant
            model == func.model(),
            model.ok(),
            b <= num_blocks == model.blocks.len() == before.len() == liveouts@.len(),
            func_liveouts.wf(),
            func_liveouts@ == model.liveouts,
            all_wf(liveouts@),
            forall|c: int, r: Reg|
                0 <= c < b ==> (#[trigger] liveouts@[c]@.contains(r) <==> {
                    ||| before[c]@.contains(r)
                    ||| model.ends_in_ret(c) && model.liveouts.contains(r)
                }),
            forall|c: int| b <= c < before.len() ==> #[trigger] liveouts@[c] == before[c],
        decreases num_blocks - b,
    {
        let last_iix = func.block_insns(BlockIx { ix: b }).last();
        let ghost mid = liveouts@;
        assert(model.blocks[b as int].ok());
        if func.is_ret(last_iix) {
            liveouts[b as usize].union(&func_liveouts);
        }
        proof {
            assert forall|c: int, r: Reg| 0 <= c < b + 1 implies (
            #[trigger] liveouts@[c]@.contains(r) <==> {
                ||| before[c]@.contains(r)
                ||| model.ends_in_ret(c) && model.liveouts.contains(r)
            }) by {
                if c < b {
                    assert(liveouts@[c] == mid[c]);
                } else {
                    assert(mid[c] == before[c]);
                }
            }
        }
        b += 1;
    }
}

/// The arguments of [`run`] are fit to be analysed.
pub open spec fn run_ready(
    model: FunctionModel,
    univ: RealRegUniverse,
    cfg_info: Result<CFGInfo, AnalysisError>,
    reg_uses: Result<RegVecsAndBounds, RealReg>,
) -> bool {
    &&& cfg_info matches Ok(cfg) ==> model.ok() && cfg.ok(model.blocks.len())
    &&& cfg_info matches Ok(cfg) ==> (reg_uses matches Ok(rvb) ==> code_ok(model, rvb))
    &&& cfg_info matches Ok(cfg) ==> (reg_uses matches Ok(rvb) ==> (entry_ok(
        model,
        rvb@,
        cfg.succs(),
    ) ==> {
        &&& regs_known(model, rvb@, univ)
        &&& results_available(model, rvb@, cfg.succs())
        &&& frags_countable(model, rvb@, cfg.succs())
    }))
}

/// What [`run`] gives: the failure of an earlier step, the complaint about the entry block, or the
/// analysis.
pub open spec fn run_gives(
    model: FunctionModel,
    univ: RealRegUniverse,
    cfg_info: Result<CFGInfo, AnalysisError>,
    reg_uses: Result<RegVecsAndBounds, RealReg>,
    r: Result<AnalysisInfo, AnalysisError>,
) -> bool {
    match cfg_info {
        Err(e) => r == Err::<AnalysisInfo, AnalysisError>(e),
        Ok(cfg) => match reg_uses {
            Err(reg) => r == Err::<AnalysisInfo, AnalysisError>(
                AnalysisError::IllegalRealReg(reg),
            ),
            Ok(rvb) => if entry_ok(model, rvb@, cfg.succs()) {
                r matches Ok(info) && is_analysis(model, univ, cfg, rvb, info)
            } else {
                r == Err::<AnalysisInfo, AnalysisError>(AnalysisError::EntryLiveinValues)
            },
        },
    }
}

/// Analyses a function: finds out which registers are live where, and gathers their live ranges
/// into intervals.
///
/// `cfg_info` is what the control flow analysis of the function gave, and `reg_uses` the
/// registers of its instructions, or the real register that one of them must not mention.
pub fn run<F: Function>(
    func: &F,
    reg_universe: &RealRegUniverse,
    cfg_info: Result<CFGInfo, AnalysisError>,
    reg_uses: Result<RegVecsAndBounds, RealReg>,
) -> (r: Result<AnalysisInfo, AnalysisError>)
    requires
        run_ready(func.model(), *reg_universe, cfg_info, reg_uses),
    ensures
        run_gives(func.model(), *reg_universe, cfg_info, reg_uses, r),
        // A virtual register never holds a value on entry.
        cfg_info matches Ok(cfg) ==> (reg_uses matches Ok(rvb) ==> (r is Ok ==> forall|x: Reg|
            #[trigger]
            live_in_sets(func.model(), rvb@, cfg.succs())[func.model().entry].contains(x)
                ==> x.spec_is_real())),
{
    let cfg_info = match cfg_info {
        Ok(cfg_info) => cfg_info,
        Err(e) => {
            return Err(e);
        },
    };
    let inst_to_block_map = InstIxToBlockIxMap::new(func);
    let reg_vecs_and_bounds = match reg_uses {
        Ok(rvb) => rvb,
        Err(reg) => {
            return Err(AnalysisError::IllegalRealReg(reg));
        },
    };
    let ghost model = func.model();
    let ghost code = reg_vecs_and_bounds@;
    let ghost succs = cfg_info.succs();

    let (def_sets_per_block, use_sets_per_block) = calc_def_and_use(func, &reg_vecs_and_bounds);
    proof {
        assert(set_views(def_sets_per_block@).len() == model.blocks.len());
        assert(set_views(use_sets_per_block@).len() == model.blocks.len());
    }
    let (livein_sets_per_block, liveout_sets_per_block) = calc_livein_and_liveout(
        &def_sets_per_block,
        &use_sets_per_block,
        &cfg_info,
    );
    let mut liveout_sets_per_block = liveout_sets_per_block;
    proof {
        let views = set_views(livein_sets_per_block@);
        let sets = live_in_sets(model, code, succs);
        assert forall|b: int| 0 <= b < views.len() implies views[b] == sets[b] by {
            assert forall|x: Reg| views[b].contains(x) <==> sets[b].contains(x) by {
                assert(livein_sets_per_block@[b]@.contains(x) == views[b].contains(x));
            }
            assert(views[b] =~= sets[b]);
        }
        assert(views =~= sets);
    }

    // What the entry block needs must be there on entry.
    let func_liveins = set_of_real_regs(func.func_liveins());
    let entry: usize = func.entry_block().ix as usize;
    proof {
        assert(set_views(livein_sets_per_block@)[entry as int]
            == livein_sets_per_block@[entry as int]@);
    }
    if !livein_sets_per_block[entry].is_subset_of(&func_liveins) {
        return Err(AnalysisError::EntryLiveinValues);
    }
    add_func_liveouts(func, &mut liveout_sets_per_block);
    proof {
        let views = set_views(liveout_sets_per_block@);
        let sets = live_out_sets(model, code, succs);
        assert forall|b: int| 0 <= b < views.len() implies views[b] == sets[b] by {
            assert forall|x: Reg| views[b].contains(x) <==> sets[b].contains(x) by {
                assert(liveout_sets_per_block@[b]@.contains(x) == views[b].contains(x));
            }
            assert(views[b] =~= sets[b]);
        }
        assert(views =~= sets);
        lemma_frags_ready(
            model,
            reg_vecs_and_bounds,
            succs,
            livein_sets_per_block@,
            liveout_sets_per_block@,
        );
    }
    let (frag_ixs_per_reg, frag_env, frag_metrics_env) = get_range_frags(
        func,
        &livein_sets_per_block,
        &liveout_sets_per_block,
        &reg_vecs_and_bounds,
    );
    let ghost items = choose|items: Seq<FragItem>|
        {
            &&& #[trigger] are_items(
                model,
                code,
                livein_sets_per_block@,
                liveout_sets_per_block@,
                items,
            )
            &&& appended(
                Map::empty(),
                Seq::empty(),
                Seq::empty(),
                items,
                ix_lists(frag_ixs_per_reg@),
                frag_views(frag_env@),
                frag_metrics_env@,
            )
        };
    proof {
        assert(frag_views(frag_env@) =~= item_frags(items));
        assert(frag_metrics_env@ =~= item_metrics(items));
        assert(ix_lists(frag_ixs_per_reg@) == listing(items));
        lemma_items_placed(
            model,
            code,
            livein_sets_per_block@,
            liveout_sets_per_block@,
            items,
        );
        let owners = item_regs(items);
        lemma_positions(owners);
        assert(frag_env@.len() == items.len());
        assert forall|reg: Reg, k: int|
            frag_ixs_per_reg@.contains_key(reg) && 0 <= k < frag_ixs_per_reg@[reg]@.len() implies (
        #[trigger] frag_ixs_per_reg@[reg]@[k]).ix < frag_env@.len() by {
            assert(listing(items).contains_key(reg));
            assert(listing(items)[reg][k] == frag_ixs_per_reg@[reg]@[k]);
        }
        assert forall|reg: Reg| #[trigger]
            frag_ixs_per_reg@.contains_key(reg) && reg.spec_is_real() implies reg.real_index()
            < reg_universe.regs@.len() by {
            assert(listing(items).contains_key(reg));
            assert(owners.contains(reg));
            let k = choose|k: int| 0 <= k < owners.len() && owners[k] == reg;
            assert(items[k].reg == reg);
            lemma_item_regs_known(
                model,
                reg_vecs_and_bounds,
                succs,
                livein_sets_per_block@,
                items[k],
            );
        }
        let n = cfg_info.succ_map@.len() as int;
        assert forall|reg: Reg| #[trigger] listing(items).contains_key(reg) implies outflows_known(
            metrics_of(item_metrics(items), listing(items)[reg]),
            n,
        ) by {
            let ms = metrics_of(item_metrics(items), listing(items)[reg]);
            assert forall|p: int| 0 <= p < ms.len() implies (#[trigger] ms[p]).bix.ix < n by {
                let x = listing(items)[reg][p].ix as int;
                assert(item_placed(model, code, livein_sets_per_block@, items[x]));
            }
        }
    }
    let (fixed_intervals, virtual_intervals) = merge_range_frags(
        reg_universe,
        &frag_ixs_per_reg,
        &frag_env,
        &frag_metrics_env,
        &cfg_info,
    );
    let ghost unsorted = fixed_intervals@;
    let ghost groups = choose|groups: Seq<Group>|
        {
            &&& #[trigger] are_groups(listing(items), item_metrics(items), succs, groups)
            &&& are_intervals(
                *reg_universe,
                group_pieces(listing(items), item_frags(items), groups),
                unsorted,
                virtual_intervals@,
            )
        };
    let mut fixed_intervals = fixed_intervals;
    sort_fixed(&mut fixed_intervals);
    let intervals = Intervals { virtuals: virtual_intervals, fixeds: fixed_intervals };
    proof {
        let pieces = group_pieces(listing(items), item_frags(items), groups);
        assert forall|k: int| 0 <= k < intervals.fixeds@.len() implies is_sorted_fixed(
            *reg_universe,
            pieces,
            k,
            #[trigger] intervals.fixeds@[k],
        ) by {
            assert(unsorted[k].reg == reg_universe.regs@[k].0);
        }
        assert(are_sorted_intervals(*reg_universe, pieces, intervals));
    }
    Ok(
        AnalysisInfo {
            reg_vecs_and_bounds,
            intervals,
            liveins: livein_sets_per_block,
            liveouts: liveout_sets_per_block,
            _loop_depth: cfg_info.depth_map,
            _inst_to_block_map: inst_to_block_map,
        },
    )
}

} // verus!
