//! What the live sets and the answers of the analysis are, told in plain words.

use crate::analysis::{
    code_ok, frags_countable, live_in_sets, results_available, run_gives, run_ready, AnalysisError,
    AnalysisInfo,
};
use crate::control_flow::{succs_ok, CFGInfo};
use crate::data_flow::{
    def_sets, is_live_path, lemma_live_in_step, live_in, live_out, use_sets, uses_up_to,
    writes_up_to,
};
use crate::data_structures::{BlockIx, RealReg, RealRegUniverse, Reg, RegVecsAndBounds};
use crate::function::{reg_set, FunctionModel};
use crate::plain::{
    at, code_fits, defs_at, defs_before, first_of, inputs_fit, is_way_to_read, last_of, lists,
    lists_fit, mentions_at, mods_at, reads_at, reads_first, regs_in_universe, results_held,
    untouched, uses_at, values_before, wanted, writes_at,
};
use crate::range_frags::{block_code, frag_count_before};
use crate::sparse_set::{set_views, SparseSet};
use vstd::prelude::*;

verus! {

proof fn lemma_sub(v: Seq<Reg>, start: int, len: int, r: Reg)
    requires
        0 <= start <= start + len <= v.len(),
    ensures
        v.subrange(start, start + len).contains(r) <==> lists(v, start, len, r),
{
    let s = v.subrange(start, start + len);
    if s.contains(r) {
        let j = choose|j: int| 0 <= j < s.len() && s[j] == r;
        assert(v[start + j] == r);
    }
    if lists(v, start, len, r) {
        let j = choose|j: int| start <= j < start + len && #[trigger] v[j] == r;
        assert(s[j - start] == r);
    }
}

/// The lists of an instruction hold the registers that stand between their bounds.
pub proof fn lemma_lists(rvb: RegVecsAndBounds, i: int, r: Reg)
    requires
        0 <= i < rvb.bounds@.len(),
        lists_fit(rvb, i),
    ensures
        rvb@.len() == rvb.bounds@.len(),
        rvb@[i].uses.contains(r) <==> uses_at(rvb, i, r),
        rvb@[i].mods.contains(r) <==> mods_at(rvb, i, r),
        rvb@[i].defs.contains(r) <==> defs_at(rvb, i, r),
        rvb@[i].defs.len() == rvb.bounds@[i].defs_len,
{
    let b = rvb.bounds@[i];
    lemma_sub(rvb.vecs.uses@, b.uses_start as int, b.uses_len as int, r);
    lemma_sub(rvb.vecs.mods@, b.mods_start as int, b.mods_len as int, r);
    lemma_sub(rvb.vecs.defs@, b.defs_start as int, b.defs_len as int, r);
}

/// The registers that a function takes or yields are those that it lists.
pub proof fn lemma_reg_set(v: Seq<RealReg>, r: Reg)
    ensures
        reg_set(v).contains(r) <==> exists|k: int| 0 <= k < v.len() && (#[trigger] v[k]).reg == r,
{
    let s = v.map_values(|x: RealReg| x.reg);
    if s.contains(r) {
        let k = choose|k: int| 0 <= k < s.len() && s[k] == r;
        assert(v[k].reg == r);
    }
    if exists|k: int| 0 <= k < v.len() && (#[trigger] v[k]).reg == r {
        let k = choose|k: int| 0 <= k < v.len() && (#[trigger] v[k]).reg == r;
        assert(s[k] == r);
    }
}

/// Blocks and register lists that fit together are accepted.
pub proof fn lemma_code_fits(model: FunctionModel, rvb: RegVecsAndBounds)
    requires
        code_fits(model, rvb),
    ensures
        model.ok(),
        code_ok(model, rvb),
{
    assert forall|b: int| 0 <= b < model.blocks.len() implies rvb.ok_in(
        #[trigger] model.blocks[b],
    ) by {
        assert forall|i: int|
            model.blocks[b].lo() <= i < model.blocks[b].hi() implies #[trigger] rvb.bounds_ok(
            i,
        ) by {
            assert(at(model, b, i));
        }
    }
    assert forall|b: int, i: int|
        0 <= b < model.blocks.len() && (#[trigger] model.blocks[b]).lo() <= i
            < model.blocks[b].hi() implies (#[trigger] rvb@[i]).uses.no_duplicates() by {
        assert(at(model, b, i));
        let u = rvb@[i].uses;
        let s = rvb.bounds@[i].uses_start as int;
        assert forall|j: int, k: int| 0 <= j < u.len() && 0 <= k < u.len() && j != k implies u[j]
            != u[k] by {
            assert(u[j] == rvb.vecs.uses@[s + j]);
            assert(u[k] == rvb.vecs.uses@[s + k]);
        }
    }
}

/// Inputs that fit are accepted.
pub proof fn lemma_inputs_fit(model: FunctionModel, cfg: CFGInfo, rvb: RegVecsAndBounds)
    requires
        inputs_fit(model, cfg, rvb),
    ensures
        model.ok(),
        cfg.ok(model.blocks.len()),
        code_ok(model, rvb),
        cfg.succs().len() == model.blocks.len(),
        succs_ok(cfg.succs()),
{
    lemma_code_fits(model, rvb);
    let succs = cfg.succs();
    assert forall|b: int, k: int|
        0 <= b < succs.len() && 0 <= k < succs[b].len() implies (#[trigger] succs[b][k]).ix
        < succs.len() by {
        assert(succs[b][k] == cfg.succ_map@[b]@[k]);
    }
}

/// Which registers the instructions of a block mention.
pub proof fn lemma_block_lists(
    model: FunctionModel,
    rvb: RegVecsAndBounds,
    b: int,
    i: int,
    r: Reg,
)
    requires
        code_fits(model, rvb),
        0 <= b < model.blocks.len(),
        first_of(model, b) <= i <= last_of(model, b),
    ensures
        rvb@.len() == rvb.bounds@.len(),
        0 <= i < rvb@.len(),
        model.holds(i),
        rvb@[i].uses.contains(r) <==> uses_at(rvb, i, r),
        rvb@[i].mods.contains(r) <==> mods_at(rvb, i, r),
        rvb@[i].defs.contains(r) <==> defs_at(rvb, i, r),
        rvb@[i].defs.len() == rvb.bounds@[i].defs_len,
{
    assert(at(model, b, i));
    lemma_lists(rvb, i, r);
}

proof fn lemma_untouched(
    model: FunctionModel,
    rvb: RegVecsAndBounds,
    b: int,
    end: int,
    r: Reg,
)
    requires
        code_fits(model, rvb),
        0 <= b < model.blocks.len(),
        end <= last_of(model, b) + 1,
    ensures
        writes_up_to(rvb@, model.blocks[b], end, r) <==> !untouched(model, rvb, b, end, r),
{
    if writes_up_to(rvb@, model.blocks[b], end, r) {
        let i = choose|i: int|
            model.blocks[b].lo() <= i < end && (#[trigger] rvb@[i]).writes(r);
        lemma_block_lists(model, rvb, b, i, r);
        assert(writes_at(rvb, i, r));
    }
    if !untouched(model, rvb, b, end, r) {
        let i = choose|i: int|
            first_of(model, b) <= i < end && #[trigger] writes_at(rvb, i, r);
        lemma_block_lists(model, rvb, b, i, r);
        assert(rvb@[i].writes(r));
    }
}

/// The registers that a block writes, and those that it reads before it writes them: a block
/// defines a register exactly if one of its instructions, however late, modifies or writes it, and
/// uses one exactly if an instruction reads or modifies it and none before modifies or writes it.
pub proof fn lemma_def_and_use(
    model: FunctionModel,
    rvb: RegVecsAndBounds,
    defs: Seq<SparseSet>,
    uses: Seq<SparseSet>,
    b: int,
    r: Reg,
)
    requires
        code_fits(model, rvb),
        set_views(defs) == def_sets(model, rvb@),
        set_views(uses) == use_sets(model, rvb@),
        0 <= b < model.blocks.len(),
    ensures
        defs.len() == model.blocks.len(),
        uses.len() == model.blocks.len(),
        defs[b]@.contains(r) <==> exists|i: int|
            {
                &&& model.blocks[b].first.ix <= i < model.blocks[b].first.ix + model.blocks[b].len
                &&& #[trigger] writes_at(rvb, i, r)
            },
        uses[b]@.contains(r) <==> exists|i: int|
            {
                &&& model.blocks[b].first.ix <= i < model.blocks[b].first.ix + model.blocks[b].len
                &&& #[trigger] reads_at(rvb, i, r)
                &&& forall|t: int|
                    model.blocks[b].first.ix <= t < i ==> !#[trigger] writes_at(rvb, t, r)
            },
{
    assert(set_views(defs).len() == model.blocks.len());
    assert(set_views(uses).len() == model.blocks.len());
    assert(set_views(defs)[b] == defs[b]@);
    assert(set_views(uses)[b] == uses[b]@);
    lemma_untouched(model, rvb, b, last_of(model, b) + 1, r);
    lemma_uses_first(model, rvb, b, r);
}

proof fn lemma_uses_first(
    model: FunctionModel,
    rvb: RegVecsAndBounds,
    b: int,
    r: Reg,
)
    requires
        code_fits(model, rvb),
        0 <= b < model.blocks.len(),
    ensures
        use_sets(model, rvb@)[b].contains(r) <==> reads_first(model, rvb, b, r),
        def_sets(model, rvb@)[b].contains(r) <==> !untouched(
            model,
            rvb,
            b,
            last_of(model, b) + 1,
            r,
        ),
{
    let block = model.blocks[b];
    lemma_untouched(model, rvb, b, last_of(model, b) + 1, r);
    if uses_up_to(rvb@, block, block.hi(), r) {
        let i = choose|i: int|
            block.lo() <= i < block.hi() && (#[trigger] rvb@[i]).reads(r) && !writes_up_to(
                rvb@,
                block,
                i,
                r,
            );
        lemma_block_lists(model, rvb, b, i, r);
        lemma_untouched(model, rvb, b, i, r);
        assert(reads_at(rvb, i, r));
    }
    if reads_first(model, rvb, b, r) {
        let i = choose|i: int|
            {
                &&& first_of(model, b) <= i <= last_of(model, b)
                &&& #[trigger] reads_at(rvb, i, r)
                &&& untouched(model, rvb, b, i, r)
            };
        lemma_block_lists(model, rvb, b, i, r);
        lemma_untouched(model, rvb, b, i, r);
        assert(rvb@[i].reads(r));
    }
}

/// What a block does with `r`, and where it jumps, in both ways of speaking.
spec fn block_read(
    model: FunctionModel,
    rvb: RegVecsAndBounds,
    succs: Seq<Seq<BlockIx>>,
    cfg: CFGInfo,
    c: int,
    r: Reg,
) -> bool {
    &&& use_sets(model, rvb@)[c].contains(r) == reads_first(model, rvb, c, r)
    &&& def_sets(model, rvb@)[c].contains(r) == !untouched(
        model,
        rvb,
        c,
        last_of(model, c) + 1,
        r,
    )
    &&& succs[c] == cfg.succ_map@[c]@
}

/// A register is live where a block starts exactly if some way from there leads to a read of it.
proof fn lemma_wanted(
    model: FunctionModel,
    cfg: CFGInfo,
    rvb: RegVecsAndBounds,
    b: int,
    r: Reg,
)
    requires
        inputs_fit(model, cfg, rvb),
        0 <= b < model.blocks.len(),
    ensures
        live_in_sets(model, rvb@, cfg.succs())[b].contains(r) <==> wanted(model, cfg, rvb, b, r),
{
    lemma_inputs_fit(model, cfg, rvb);
    let defs = def_sets(model, rvb@);
    let uses = use_sets(model, rvb@);
    let succs = cfg.succs();
    assert forall|c: int| 0 <= c < model.blocks.len() implies #[trigger] block_read(
        model,
        rvb,
        succs,
        cfg,
        c,
        r,
    ) by {
        lemma_uses_first(model, rvb, c, r);
    }
    if live_in(defs, uses, succs, b, r) {
        let path = choose|path: Seq<BlockIx>| #[trigger]
            is_live_path(defs, uses, succs, r, path) && path[0].ix == b;
        assert(path[path.len() - 1].ix < succs.len());
        assert(block_read(model, rvb, succs, cfg, path.last().ix as int, r));
        assert forall|k: int| 0 <= k < path.len() - 1 implies {
            &&& cfg.succ_map@[(#[trigger] path[k]).ix as int]@.contains(path[k + 1])
            &&& untouched(model, rvb, path[k].ix as int, last_of(model, path[k].ix as int) + 1, r)
        } by {
            assert(block_read(model, rvb, succs, cfg, path[k].ix as int, r));
        }
        assert(is_way_to_read(model, cfg, rvb, r, path));
    }
    if wanted(model, cfg, rvb, b, r) {
        let path = choose|path: Seq<BlockIx>| #[trigger]
            is_way_to_read(model, cfg, rvb, r, path) && path[0].ix == b;
        assert(path[path.len() - 1].ix < model.blocks.len());
        assert(block_read(model, rvb, succs, cfg, path.last().ix as int, r));
        assert forall|k: int| 0 <= k < path.len() - 1 implies {
            &&& succs[(#[trigger] path[k]).ix as int].contains(path[k + 1])
            &&& !defs[path[k].ix as int].contains(r)
        } by {
            assert(block_read(model, rvb, succs, cfg, path[k].ix as int, r));
        }
        assert(is_live_path(defs, uses, succs, r, path));
    }
}

/// Liveness as equations: a register is live where a block ends exactly if it is live where a
/// successor starts, and live where a block starts exactly if the block uses it, or it is live
/// where the block ends and the block does not define it.
pub proof fn lemma_liveness_equations(
    defs: Seq<SparseSet>,
    uses: Seq<SparseSet>,
    cfg: CFGInfo,
    ins: Seq<SparseSet>,
    outs: Seq<SparseSet>,
    b: int,
    r: Reg,
)
    requires
        defs.len() == uses.len() == ins.len() == outs.len() <= u32::MAX,
        cfg.succ_map@.len() == uses.len(),
        forall|a: int, k: int|
            0 <= a < cfg.succ_map@.len() && 0 <= k < cfg.succ_map@[a]@.len() ==> (
            #[trigger] cfg.succ_map@[a]@[k]).ix < uses.len(),
        forall|a: int, x: Reg|
            0 <= a < ins.len() ==> (#[trigger] ins[a]@.contains(x) <==> live_in(
                set_views(defs),
                set_views(uses),
                cfg.succs(),
                a,
                x,
            )),
        forall|a: int, x: Reg|
            0 <= a < outs.len() ==> (#[trigger] outs[a]@.contains(x) <==> live_out(
                set_views(defs),
                set_views(uses),
                cfg.succs(),
                a,
                x,
            )),
        0 <= b < ins.len(),
    ensures
        outs[b]@.contains(r) <==> exists|k: int|
            0 <= k < cfg.succ_map@[b]@.len() && ins[(
            #[trigger] cfg.succ_map@[b]@[k]).ix as int]@.contains(r),
        ins[b]@.contains(r) <==> {
            ||| uses[b]@.contains(r)
            ||| outs[b]@.contains(r) && !defs[b]@.contains(r)
        },
{
    let d = set_views(defs);
    let u = set_views(uses);
    let succs = cfg.succs();
    assert(succs[b] == cfg.succ_map@[b]@);
    assert forall|a: int, k: int|
        0 <= a < succs.len() && 0 <= k < succs[a].len() implies (#[trigger] succs[a][k]).ix
        < succs.len() by {
        assert(succs[a][k] == cfg.succ_map@[a]@[k]);
    }
    lemma_live_in_step(d, u, succs, BlockIx { ix: b as u32 }, r);
    assert(d[b] == defs[b]@ && u[b] == uses[b]@);
    if live_out(d, u, succs, b, r) {
        let s = choose|s: BlockIx| #[trigger]
            succs[b].contains(s) && live_in(d, u, succs, s.ix as int, r);
        let k = choose|k: int| 0 <= k < succs[b].len() && succs[b][k] == s;
        assert(cfg.succ_map@[b]@[k] == s);
        assert(ins[s.ix as int]@.contains(r));
    }
    if exists|k: int|
        0 <= k < cfg.succ_map@[b]@.len() && ins[(
        #[trigger] cfg.succ_map@[b]@[k]).ix as int]@.contains(r) {
        let k = choose|k: int|
            0 <= k < cfg.succ_map@[b]@.len() && ins[(
            #[trigger] cfg.succ_map@[b]@[k]).ix as int]@.contains(r);
        let s = cfg.succ_map@[b]@[k];
        assert(succs[b][k] == s);
        assert(succs[b].contains(s));
        assert(live_in(d, u, succs, s.ix as int, r));
    }
}

/// The sets hold what each block uses, and what a successor holds and the block does not define.
pub open spec fn carries_back(
    defs: Seq<SparseSet>,
    uses: Seq<SparseSet>,
    cfg: CFGInfo,
    sets: Seq<Set<Reg>>,
) -> bool {
    &&& sets.len() == uses.len()
    &&& forall|a: int, x: Reg|
        0 <= a < uses.len() && #[trigger] uses[a]@.contains(x) ==> sets[a].contains(x)
    &&& forall|a: int, k: int, x: Reg|
        0 <= a < uses.len() && 0 <= k < cfg.succ_map@[a]@.len() && sets[(
        #[trigger] cfg.succ_map@[a]@[k]).ix as int].contains(x) && !defs[a]@.contains(x)
            ==> #[trigger] sets[a].contains(x)
}

/// Nothing is live without need: whatever sets satisfy the equations hold all that is live.
pub proof fn lemma_liveness_least(
    defs: Seq<SparseSet>,
    uses: Seq<SparseSet>,
    cfg: CFGInfo,
    ins: Seq<SparseSet>,
    sets: Seq<Set<Reg>>,
    b: int,
    r: Reg,
)
    requires
        defs.len() == uses.len() == ins.len(),
        cfg.succ_map@.len() == uses.len(),
        forall|a: int, x: Reg|
            0 <= a < ins.len() ==> (#[trigger] ins[a]@.contains(x) <==> live_in(
                set_views(defs),
                set_views(uses),
                cfg.succs(),
                a,
                x,
            )),
        carries_back(defs, uses, cfg, sets),
        0 <= b < ins.len(),
        ins[b]@.contains(r),
    ensures
        sets[b].contains(r),
{
    let path = choose|path: Seq<BlockIx>| #[trigger]
        is_live_path(set_views(defs), set_views(uses), cfg.succs(), r, path) && path[0].ix == b;
    lemma_path_carried(defs, uses, cfg, sets, r, path, 0);
}

proof fn lemma_path_carried(
    defs: Seq<SparseSet>,
    uses: Seq<SparseSet>,
    cfg: CFGInfo,
    sets: Seq<Set<Reg>>,
    r: Reg,
    path: Seq<BlockIx>,
    at: int,
)
    requires
        defs.len() == uses.len(),
        cfg.succ_map@.len() == uses.len(),
        carries_back(defs, uses, cfg, sets),
        is_live_path(set_views(defs), set_views(uses), cfg.succs(), r, path),
        0 <= at < path.len(),
    ensures
        sets[path[at].ix as int].contains(r),
    decreases path.len() - at,
{
    let a = path[at].ix as int;
    assert(a < cfg.succs().len());
    assert(set_views(uses)[a] == uses[a]@ && set_views(defs)[a] == defs[a]@);
    if at == path.len() - 1 {
        assert(uses[a]@.contains(r));
    } else {
        lemma_path_carried(defs, uses, cfg, sets, r, path, at + 1);
        assert(cfg.succs()[a].contains(path[at + 1]));
        assert(cfg.succs()[a] == cfg.succ_map@[a]@);
        let k = choose|k: int|
            0 <= k < cfg.succ_map@[a]@.len() && cfg.succ_map@[a]@[k] == path[at + 1];
        assert(sets[cfg.succ_map@[a]@[k].ix as int].contains(r));
        assert(!defs[a]@.contains(r));
        assert(sets[a].contains(r));
    }
}

/// What the analysis says is live where: a register is live where a block starts exactly if some
/// way from there leads to a read of the value that it holds, and live where a block ends exactly
/// if it is live where a successor starts, or the last instruction of the block returns and the
/// caller reads the register.
pub proof fn lemma_live_sets(
    model: FunctionModel,
    univ: RealRegUniverse,
    cfg: CFGInfo,
    rvb: RegVecsAndBounds,
    info: AnalysisInfo,
    b: int,
    r: Reg,
)
    requires
        inputs_fit(model, cfg, rvb),
        run_gives(model, univ, Ok(cfg), Ok(rvb), Ok(info)),
        0 <= b < model.blocks.len(),
    ensures
        info.liveins@.len() == model.blocks.len(),
        info.liveouts@.len() == model.blocks.len(),
        info.liveins@[b]@.contains(r) <==> wanted(model, cfg, rvb, b, r),
        info.liveouts@[b]@.contains(r) <==> {
            ||| exists|k: int|
                0 <= k < cfg.succ_map@[b]@.len() && info.liveins@[(
                #[trigger] cfg.succ_map@[b]@[k]).ix as int]@.contains(r)
            ||| model.rets.contains(model.blocks[b].first.ix + model.blocks[b].len - 1)
                && model.liveouts.contains(r)
        },
{
    lemma_inputs_fit(model, cfg, rvb);
    let succs = cfg.succs();
    assert(set_views(info.liveins@).len() == model.blocks.len());
    assert(set_views(info.liveouts@).len() == model.blocks.len());
    assert forall|c: int| 0 <= c < model.blocks.len() implies (
    #[trigger] info.liveins@[c])@.contains(r) == live_in_sets(model, rvb@, succs)[c].contains(
        r,
    ) by {
        assert(set_views(info.liveins@)[c] == info.liveins@[c]@);
    }
    assert(set_views(info.liveouts@)[b] == info.liveouts@[b]@);
    lemma_wanted(model, cfg, rvb, b, r);
    let defs = def_sets(model, rvb@);
    let uses = use_sets(model, rvb@);
    assert(succs[b] == cfg.succ_map@[b]@);
    if live_out(defs, uses, succs, b, r) {
        let s = choose|s: BlockIx| #[trigger]
            succs[b].contains(s) && live_in(defs, uses, succs, s.ix as int, r);
        let k = choose|k: int| 0 <= k < succs[b].len() && succs[b][k] == s;
        assert(cfg.succ_map@[b]@[k] == s);
        assert(info.liveins@[s.ix as int]@.contains(r));
    }
    if exists|k: int|
        0 <= k < cfg.succ_map@[b]@.len() && info.liveins@[(
        #[trigger] cfg.succ_map@[b]@[k]).ix as int]@.contains(r) {
        let k = choose|k: int|
            0 <= k < cfg.succ_map@[b]@.len() && info.liveins@[(
            #[trigger] cfg.succ_map@[b]@[k]).ix as int]@.contains(r);
        let s = cfg.succ_map@[b]@[k];
        assert(succs[b][k] == s);
        assert(succs[b].contains(s));
        assert(live_in_sets(model, rvb@, succs)[s.ix as int].contains(r));
    }
}

/// A register is live where a block starts exactly if the block reads it before it writes it, or it
/// is live where a successor starts and no instruction of the block writes it.
pub proof fn lemma_live_in_by_block(
    model: FunctionModel,
    univ: RealRegUniverse,
    cfg: CFGInfo,
    rvb: RegVecsAndBounds,
    info: AnalysisInfo,
    b: int,
    r: Reg,
)
    requires
        inputs_fit(model, cfg, rvb),
        run_gives(model, univ, Ok(cfg), Ok(rvb), Ok(info)),
        0 <= b < model.blocks.len(),
    ensures
        info.liveins@[b]@.contains(r) <==> {
            ||| exists|i: int|
                {
                    &&& model.blocks[b].first.ix <= i < model.blocks[b].first.ix
                        + model.blocks[b].len
                    &&& #[trigger] reads_at(rvb, i, r)
                    &&& forall|t: int|
                        model.blocks[b].first.ix <= t < i ==> !#[trigger] writes_at(rvb, t, r)
                }
            ||| {
                &&& exists|k: int|
                    0 <= k < cfg.succ_map@[b]@.len() && info.liveins@[(
                    #[trigger] cfg.succ_map@[b]@[k]).ix as int]@.contains(r)
                &&& forall|t: int|
                    model.blocks[b].first.ix <= t < model.blocks[b].first.ix + model.blocks[b].len
                        ==> !#[trigger] writes_at(rvb, t, r)
            }
        },
{
    lemma_inputs_fit(model, cfg, rvb);
    let succs = cfg.succs();
    let defs = def_sets(model, rvb@);
    let uses = use_sets(model, rvb@);
    lemma_live_in_step(defs, uses, succs, BlockIx { ix: b as u32 }, r);
    lemma_uses_first(model, rvb, b, r);
    assert(set_views(info.liveins@).len() == model.blocks.len());
    assert(set_views(info.liveins@)[b] == info.liveins@[b]@);
    assert(live_in_sets(model, rvb@, succs)[b].contains(r) == live_in(defs, uses, succs, b, r));
    assert(reads_first(model, rvb, b, r) <==> exists|i: int|
        {
            &&& model.blocks[b].first.ix <= i < model.blocks[b].first.ix + model.blocks[b].len
            &&& #[trigger] reads_at(rvb, i, r)
            &&& forall|t: int|
                model.blocks[b].first.ix <= t < i ==> !#[trigger] writes_at(rvb, t, r)
        }) by {
        if reads_first(model, rvb, b, r) {
            let i = choose|i: int|
                {
                    &&& first_of(model, b) <= i <= last_of(model, b)
                    &&& #[trigger] reads_at(rvb, i, r)
                    &&& untouched(model, rvb, b, i, r)
                };
            assert(reads_at(rvb, i, r));
        }
    }
    lemma_successor_live(model, univ, cfg, rvb, info, b, r);
}

proof fn lemma_successor_live(
    model: FunctionModel,
    univ: RealRegUniverse,
    cfg: CFGInfo,
    rvb: RegVecsAndBounds,
    info: AnalysisInfo,
    b: int,
    r: Reg,
)
    requires
        inputs_fit(model, cfg, rvb),
        run_gives(model, univ, Ok(cfg), Ok(rvb), Ok(info)),
        0 <= b < model.blocks.len(),
    ensures
        live_out(def_sets(model, rvb@), use_sets(model, rvb@), cfg.succs(), b, r) <==> exists|k: int|
            0 <= k < cfg.succ_map@[b]@.len() && info.liveins@[(
            #[trigger] cfg.succ_map@[b]@[k]).ix as int]@.contains(r),
{
    lemma_inputs_fit(model, cfg, rvb);
    let succs = cfg.succs();
    let defs = def_sets(model, rvb@);
    let uses = use_sets(model, rvb@);
    assert(set_views(info.liveins@).len() == model.blocks.len());
    assert forall|c: int| 0 <= c < model.blocks.len() implies (
    #[trigger] info.liveins@[c])@.contains(r) == live_in_sets(model, rvb@, succs)[c].contains(
        r,
    ) by {
        assert(set_views(info.liveins@)[c] == info.liveins@[c]@);
    }
    assert(succs[b] == cfg.succ_map@[b]@);
    if live_out(defs, uses, succs, b, r) {
        let s = choose|s: BlockIx| #[trigger]
            succs[b].contains(s) && live_in(defs, uses, succs, s.ix as int, r);
        let k = choose|k: int| 0 <= k < succs[b].len() && succs[b][k] == s;
        assert(cfg.succ_map@[b]@[k] == s);
        assert(info.liveins@[s.ix as int]@.contains(r));
    }
    if exists|k: int|
        0 <= k < cfg.succ_map@[b]@.len() && info.liveins@[(
        #[trigger] cfg.succ_map@[b]@[k]).ix as int]@.contains(r) {
        let k = choose|k: int|
            0 <= k < cfg.succ_map@[b]@.len() && info.liveins@[(
            #[trigger] cfg.succ_map@[b]@[k]).ix as int]@.contains(r);
        let s = cfg.succ_map@[b]@[k];
        assert(succs[b][k] == s);
        assert(succs[b].contains(s));
        assert(live_in_sets(model, rvb@, succs)[s.ix as int].contains(r));
    }
}

/// A register that a block writes before it reads it is not live where the block starts, however
/// late the write comes.
pub proof fn lemma_written_first_not_live(
    model: FunctionModel,
    univ: RealRegUniverse,
    cfg: CFGInfo,
    rvb: RegVecsAndBounds,
    info: AnalysisInfo,
    b: int,
    i: int,
    r: Reg,
)
    requires
        inputs_fit(model, cfg, rvb),
        run_gives(model, univ, Ok(cfg), Ok(rvb), Ok(info)),
        0 <= b < model.blocks.len(),
        model.blocks[b].first.ix <= i < model.blocks[b].first.ix + model.blocks[b].len,
        defs_at(rvb, i, r),
        forall|t: int| model.blocks[b].first.ix <= t <= i ==> !#[trigger] reads_at(rvb, t, r),
    ensures
        !info.liveins@[b]@.contains(r),
{
    lemma_live_in_by_block(model, univ, cfg, rvb, info, b, r);
    assert(writes_at(rvb, i, r));
}

/// Every block whose last instruction returns, however short it is, keeps the registers alive that
/// the caller reads.
pub proof fn lemma_results_live_out(
    model: FunctionModel,
    univ: RealRegUniverse,
    cfg: CFGInfo,
    rvb: RegVecsAndBounds,
    info: AnalysisInfo,
    b: int,
    r: Reg,
)
    requires
        inputs_fit(model, cfg, rvb),
        run_gives(model, univ, Ok(cfg), Ok(rvb), Ok(info)),
        0 <= b < model.blocks.len(),
        model.rets.contains(model.blocks[b].first.ix + model.blocks[b].len - 1),
        model.liveouts.contains(r),
    ensures
        info.liveouts@[b]@.contains(r),
{
    lemma_live_sets(model, univ, cfg, rvb, info, b, r);
}

/// A function that reads, on some way from its start, a register that holds no value on entry, real
/// or virtual, is refused.
pub proof fn lemma_entry_refused(
    model: FunctionModel,
    univ: RealRegUniverse,
    cfg: CFGInfo,
    rvb: RegVecsAndBounds,
    result: Result<AnalysisInfo, AnalysisError>,
    way: Seq<BlockIx>,
    r: Reg,
)
    requires
        inputs_fit(model, cfg, rvb),
        run_gives(model, univ, Ok(cfg), Ok(rvb), result),
        is_way_to_read(model, cfg, rvb, r, way),
        way[0].ix == model.entry,
        !model.liveins.contains(r),
    ensures
        result == Err::<AnalysisInfo, AnalysisError>(AnalysisError::EntryLiveinValues),
{
    assert(wanted(model, cfg, rvb, model.entry, r));
    lemma_wanted(model, cfg, rvb, model.entry, r);
}

/// A function that reads, on all ways from its start, only registers that hold values on entry, is
/// analysed.
pub proof fn lemma_entry_accepted(
    model: FunctionModel,
    univ: RealRegUniverse,
    cfg: CFGInfo,
    rvb: RegVecsAndBounds,
    result: Result<AnalysisInfo, AnalysisError>,
)
    requires
        inputs_fit(model, cfg, rvb),
        run_gives(model, univ, Ok(cfg), Ok(rvb), result),
        forall|way: Seq<BlockIx>, r: Reg| #[trigger]
            is_way_to_read(model, cfg, rvb, r, way) && way[0].ix == model.entry
                ==> model.liveins.contains(r),
    ensures
        result is Ok,
{
    let live = live_in_sets(model, rvb@, cfg.succs())[model.entry];
    assert forall|r: Reg| live.contains(r) implies model.liveins.contains(r) by {
        lemma_wanted(model, cfg, rvb, model.entry, r);
    }
    assert(live.subset_of(model.liveins));
}

/// Failures of the earlier steps are handed on: that of the control flow first, and with it nothing
/// else is looked at.
pub proof fn lemma_failures(
    model: FunctionModel,
    univ: RealRegUniverse,
    cfg_info: Result<CFGInfo, AnalysisError>,
    reg_uses: Result<RegVecsAndBounds, RealReg>,
    result: Result<AnalysisInfo, AnalysisError>,
)
    requires
        run_gives(model, univ, cfg_info, reg_uses, result),
    ensures
        cfg_info is Err ==> result is Err && result->Err_0 == cfg_info->Err_0,
        cfg_info is Ok && reg_uses is Err ==> result is Err && result->Err_0
            == AnalysisError::IllegalRealReg(reg_uses->Err_0),
        cfg_info is Ok && reg_uses is Ok && result is Err ==> result->Err_0
            == AnalysisError::EntryLiveinValues,
{
}

/// What the analysis hands on unchanged.
pub proof fn lemma_handed_on(
    model: FunctionModel,
    univ: RealRegUniverse,
    cfg: CFGInfo,
    rvb: RegVecsAndBounds,
    info: AnalysisInfo,
)
    requires
        run_gives(model, univ, Ok(cfg), Ok(rvb), Ok(info)),
    ensures
        info.reg_vecs_and_bounds == rvb,
        info._loop_depth@ == cfg.depth_map@,
        info._inst_to_block_map.ranges@ == model.blocks,
{
}

proof fn lemma_values(model: FunctionModel, cfg: CFGInfo, rvb: RegVecsAndBounds, end: int)
    requires
        inputs_fit(model, cfg, rvb),
        0 <= end <= model.blocks.len(),
    ensures
        frag_count_before(model, rvb@, live_in_sets(model, rvb@, cfg.succs()), end)
            == values_before(model, cfg, rvb, end),
    decreases end,
{
    if end > 0 {
        lemma_values(model, cfg, rvb, end - 1);
        let b = end - 1;
        let sets = live_in_sets(model, rvb@, cfg.succs());
        let mine = Set::new(|r: Reg| wanted(model, cfg, rvb, b, r));
        assert forall|r: Reg| sets[b].contains(r) == mine.contains(r) by {
            lemma_wanted(model, cfg, rvb, b, r);
        }
        assert(sets[b] =~= mine);
        assert(model.blocks[b].len >= 1);
        lemma_defs(model, rvb, b, last_of(model, b) + 1, sets[b]);
    }
}

/// The writes of a block are those that its instructions list.
pub proof fn lemma_defs(
    model: FunctionModel,
    rvb: RegVecsAndBounds,
    b: int,
    end: int,
    livein: Set<Reg>,
)
    requires
        code_fits(model, rvb),
        0 <= b < model.blocks.len(),
        first_of(model, b) <= end <= last_of(model, b) + 1,
    ensures
        block_code(model, b, livein, rvb@).writes_before(end) == defs_before(model, rvb, b, end),
    decreases end - first_of(model, b),
{
    if end > first_of(model, b) {
        lemma_defs(model, rvb, b, end - 1, livein);
        lemma_block_lists(model, rvb, b, end - 1, Reg { bits: 0 });
    }
}

/// Every function is accepted whose parts fit together, whose real registers are known, whose
/// results hold values where it returns, and whose values can be numbered.
pub proof fn lemma_run_accepts(
    model: FunctionModel,
    univ: RealRegUniverse,
    cfg: CFGInfo,
    rvb: RegVecsAndBounds,
)
    requires
        inputs_fit(model, cfg, rvb),
        regs_in_universe(model, rvb, univ),
        results_held(model, cfg, rvb),
        values_before(model, cfg, rvb, model.blocks.len() as int) <= u32::MAX,
    ensures
        run_ready(model, univ, Ok(cfg), Ok(rvb)),
{
    lemma_results_fit(model, cfg, rvb);
    assert forall|i: int, r: Reg|
        model.holds(i) && #[trigger] rvb@[i].mentions(r) && r.spec_is_real() implies r.real_index()
        < univ.regs@.len() by {
        let b = choose|b: int|
            0 <= b < model.blocks.len() && (#[trigger] model.blocks[b]).lo() <= i
                < model.blocks[b].hi();
        assert(at(model, b, i));
        lemma_block_lists(model, rvb, b, i, r);
        assert(mentions_at(rvb, i, r));
    }
}

/// A function that is refused because of what it reads on entry needs no more than parts that fit
/// together.
pub proof fn lemma_run_accepts_refused(
    model: FunctionModel,
    univ: RealRegUniverse,
    cfg: CFGInfo,
    rvb: RegVecsAndBounds,
    way: Seq<BlockIx>,
    r: Reg,
)
    requires
        inputs_fit(model, cfg, rvb),
        is_way_to_read(model, cfg, rvb, r, way),
        way[0].ix == model.entry,
        !model.liveins.contains(r),
    ensures
        run_ready(model, univ, Ok(cfg), Ok(rvb)),
{
    lemma_inputs_fit(model, cfg, rvb);
    assert(wanted(model, cfg, rvb, model.entry, r));
    lemma_wanted(model, cfg, rvb, model.entry, r);
}

/// Where an earlier step failed, less is asked, and nothing of what it would have given.
pub proof fn lemma_run_accepts_failures(
    model: FunctionModel,
    univ: RealRegUniverse,
    cfg: CFGInfo,
    rvb: RegVecsAndBounds,
    e: AnalysisError,
    reg: RealReg,
    reg_uses: Result<RegVecsAndBounds, RealReg>,
)
    ensures
        run_ready(model, univ, Err(e), reg_uses),
        inputs_fit(model, cfg, rvb) ==> run_ready(model, univ, Ok(cfg), Err(reg)),
{
    if inputs_fit(model, cfg, rvb) {
        lemma_inputs_fit(model, cfg, rvb);
    }
}

/// Results that hold values are available, and values that can be numbered can be counted.
pub proof fn lemma_results_fit(model: FunctionModel, cfg: CFGInfo, rvb: RegVecsAndBounds)
    requires
        inputs_fit(model, cfg, rvb),
        results_held(model, cfg, rvb),
        values_before(model, cfg, rvb, model.blocks.len() as int) <= u32::MAX,
    ensures
        model.ok(),
        cfg.ok(model.blocks.len()),
        code_ok(model, rvb),
        results_available(model, rvb@, cfg.succs()),
        frags_countable(model, rvb@, cfg.succs()),
{
    lemma_inputs_fit(model, cfg, rvb);
    lemma_values(model, cfg, rvb, model.blocks.len() as int);
    assert forall|b: int, r: Reg|
        0 <= b < model.blocks.len() && model.ends_in_ret(b) && #[trigger] model.liveouts.contains(
            r,
        ) implies (#[trigger] block_code(
        model,
        b,
        live_in_sets(model, rvb@, cfg.succs())[b],
        rvb@,
    )).available(r, model.blocks[b].hi()) by {
        let c = block_code(model, b, live_in_sets(model, rvb@, cfg.succs())[b], rvb@);
        lemma_wanted(model, cfg, rvb, b, r);
        if !wanted(model, cfg, rvb, b, r) {
            let i = choose|i: int| at(model, b, i) && #[trigger] defs_at(rvb, i, r);
            lemma_block_lists(model, rvb, b, i, r);
            assert(c.code[i].defs.contains(r));
        }
    }
}

} // verus!
