//! What the inputs say, read straight off their fields.
//!
//! The laws of the analysis are told in these words. No function is specified with them.

use crate::block_model::{FragItem, FragView};
use crate::control_flow::CFGInfo;
use crate::data_structures::{BlockIx, InstIx, Mention, RealRegUniverse, Reg, RegVecsAndBounds};
use crate::function::FunctionModel;
use crate::range_frags::RangeFragKind;
use vstd::prelude::*;

verus! {

/// The register is one of the `len` that stand from `start` on.
pub open spec fn lists(v: Seq<Reg>, start: int, len: int, r: Reg) -> bool {
    exists|j: int| start <= j < start + len && #[trigger] v[j] == r
}

/// Instruction `i` reads `r`, and does not modify it on that account.
pub open spec fn uses_at(rvb: RegVecsAndBounds, i: int, r: Reg) -> bool {
    lists(
        rvb.vecs.uses@,
        rvb.bounds@[i].uses_start as int,
        rvb.bounds@[i].uses_len as int,
        r,
    )
}

/// Instruction `i` modifies `r`: it reads and writes it.
pub open spec fn mods_at(rvb: RegVecsAndBounds, i: int, r: Reg) -> bool {
    lists(
        rvb.vecs.mods@,
        rvb.bounds@[i].mods_start as int,
        rvb.bounds@[i].mods_len as int,
        r,
    )
}

/// Instruction `i` writes `r`, and does not read it on that account.
pub open spec fn defs_at(rvb: RegVecsAndBounds, i: int, r: Reg) -> bool {
    lists(
        rvb.vecs.defs@,
        rvb.bounds@[i].defs_start as int,
        rvb.bounds@[i].defs_len as int,
        r,
    )
}

/// Instruction `i` reads `r`.
pub open spec fn reads_at(rvb: RegVecsAndBounds, i: int, r: Reg) -> bool {
    uses_at(rvb, i, r) || mods_at(rvb, i, r)
}

/// Instruction `i` writes `r`.
pub open spec fn writes_at(rvb: RegVecsAndBounds, i: int, r: Reg) -> bool {
    mods_at(rvb, i, r) || defs_at(rvb, i, r)
}

/// Instruction `i` mentions `r`.
pub open spec fn mentions_at(rvb: RegVecsAndBounds, i: int, r: Reg) -> bool {
    uses_at(rvb, i, r) || mods_at(rvb, i, r) || defs_at(rvb, i, r)
}

/// The index of the first instruction of block `b`.
pub open spec fn first_of(model: FunctionModel, b: int) -> int {
    model.blocks[b].first.ix as int
}

/// The index of the last instruction of block `b`.
pub open spec fn last_of(model: FunctionModel, b: int) -> int {
    model.blocks[b].first.ix + model.blocks[b].len - 1
}

/// Instruction `i` is in block `b`.
pub open spec fn at(model: FunctionModel, b: int, i: int) -> bool {
    0 <= b < model.blocks.len() && first_of(model, b) <= i <= last_of(model, b)
}

/// Instruction `i` is in some block.
pub open spec fn is_insn(model: FunctionModel, i: int) -> bool {
    exists|b: int| #[trigger] at(model, b, i)
}

/// The blocks and the register lists fit together: no block is empty, and each instruction of a
/// block has lists.
pub open spec fn code_fits(model: FunctionModel, rvb: RegVecsAndBounds) -> bool {
    &&& 0 <= model.entry < model.blocks.len() <= u32::MAX
    &&& forall|b: int|
        0 <= b < model.blocks.len() ==> {
            &&& (#[trigger] model.blocks[b]).len >= 1
            &&& model.blocks[b].first.ix + model.blocks[b].len <= 0x1_0000_0000
            &&& model.blocks[b].first.ix + model.blocks[b].len <= rvb.bounds@.len()
        }
    &&& rvb.vecs.sanitized
    &&& forall|b: int, i: int| #[trigger]
        at(model, b, i) ==> lists_fit(rvb, i) && reads_once(rvb, i)
}

/// The blocks, the jumps and the register lists fit together.
pub open spec fn inputs_fit(model: FunctionModel, cfg: CFGInfo, rvb: RegVecsAndBounds) -> bool {
    &&& code_fits(model, rvb)
    &&& cfg.succ_map@.len() == model.blocks.len()
    &&& cfg.depth_map@.len() == model.blocks.len()
    &&& forall|b: int, k: int|
        0 <= b < cfg.succ_map@.len() && 0 <= k < cfg.succ_map@[b]@.len() ==> (
        #[trigger] cfg.succ_map@[b]@[k]).ix < model.blocks.len()
}

/// The lists of instruction `i` lie inside the vectors.
pub open spec fn lists_fit(rvb: RegVecsAndBounds, i: int) -> bool {
    &&& rvb.bounds@[i].uses_start + rvb.bounds@[i].uses_len <= rvb.vecs.uses@.len()
    &&& rvb.bounds@[i].mods_start + rvb.bounds@[i].mods_len <= rvb.vecs.mods@.len()
    &&& rvb.bounds@[i].defs_start + rvb.bounds@[i].defs_len <= rvb.vecs.defs@.len()
}

/// Instruction `i` lists no register twice among those that it reads.
pub open spec fn reads_once(rvb: RegVecsAndBounds, i: int) -> bool {
    forall|j: int, k: int|
        rvb.bounds@[i].uses_start <= j < k < rvb.bounds@[i].uses_start + rvb.bounds@[i].uses_len
            ==> #[trigger] rvb.vecs.uses@[j] != #[trigger] rvb.vecs.uses@[k]
}

/// Instruction `i` lists no register twice among those that it writes, and none of them also
/// among those that it modifies.
pub open spec fn writes_once_at(rvb: RegVecsAndBounds, i: int) -> bool {
    &&& forall|j: int, k: int|
        rvb.bounds@[i].defs_start <= j < k < rvb.bounds@[i].defs_start + rvb.bounds@[i].defs_len
            ==> #[trigger] rvb.vecs.defs@[j] != #[trigger] rvb.vecs.defs@[k]
    &&& forall|r: Reg| #[trigger] defs_at(rvb, i, r) ==> !mods_at(rvb, i, r)
}

/// No instruction writes a register in two ways, and no instruction is in two blocks.
pub open spec fn writes_plainly(model: FunctionModel, rvb: RegVecsAndBounds) -> bool {
    &&& forall|b: int, i: int| #[trigger] at(model, b, i) ==> writes_once_at(rvb, i)
    &&& forall|a: int, b: int, i: int| #[trigger]
        at(model, a, i) && #[trigger] at(model, b, i) ==> a == b
}

/// No instruction of block `b` before instruction `end` writes `r`.
pub open spec fn untouched(
    model: FunctionModel,
    rvb: RegVecsAndBounds,
    b: int,
    end: int,
    r: Reg,
) -> bool {
    forall|i: int| first_of(model, b) <= i < end ==> !#[trigger] writes_at(rvb, i, r)
}

/// Block `b` reads `r` before it writes it.
pub open spec fn reads_first(model: FunctionModel, rvb: RegVecsAndBounds, b: int, r: Reg) -> bool {
    exists|i: int|
        {
            &&& first_of(model, b) <= i <= last_of(model, b)
            &&& #[trigger] reads_at(rvb, i, r)
            &&& untouched(model, rvb, b, i, r)
        }
}

/// A way along jumps to a block that reads `r` before it writes it, past blocks that do not write
/// it.
pub open spec fn is_way_to_read(
    model: FunctionModel,
    cfg: CFGInfo,
    rvb: RegVecsAndBounds,
    r: Reg,
    way: Seq<BlockIx>,
) -> bool {
    &&& way.len() >= 1
    &&& forall|k: int| 0 <= k < way.len() ==> (#[trigger] way[k]).ix < model.blocks.len()
    &&& forall|k: int|
        0 <= k < way.len() - 1 ==> {
            &&& cfg.succ_map@[(#[trigger] way[k]).ix as int]@.contains(way[k + 1])
            &&& untouched(
                model,
                rvb,
                way[k].ix as int,
                last_of(model, way[k].ix as int) + 1,
                r,
            )
        }
    &&& reads_first(model, rvb, way.last().ix as int, r)
}

/// From the start of block `b`, some way leads to a read of the value that `r` holds there.
pub open spec fn wanted(
    model: FunctionModel,
    cfg: CFGInfo,
    rvb: RegVecsAndBounds,
    b: int,
    r: Reg,
) -> bool {
    exists|way: Seq<BlockIx>| #[trigger]
        is_way_to_read(model, cfg, rvb, r, way) && way[0].ix == b
}

/// Every real register that an instruction of a block mentions has an entry in the universe.
pub open spec fn regs_in_universe(
    model: FunctionModel,
    rvb: RegVecsAndBounds,
    univ: RealRegUniverse,
) -> bool {
    forall|b: int, i: int, r: Reg| #[trigger]
        at(model, b, i) && r.bits < 0x8000_0000 && #[trigger] mentions_at(rvb, i, r)
            ==> r.bits % 256 < univ.regs@.len()
}

/// Where a block returns, each register that the caller reads is written by the block, or wanted
/// where the block starts.
pub open spec fn results_held(
    model: FunctionModel,
    cfg: CFGInfo,
    rvb: RegVecsAndBounds,
) -> bool {
    forall|b: int, r: Reg|
        0 <= b < model.blocks.len() && model.rets.contains(last_of(model, b))
            && model.liveouts.contains(r) ==> {
            ||| #[trigger] wanted(model, cfg, rvb, b, r)
            ||| exists|i: int| at(model, b, i) && #[trigger] defs_at(rvb, i, r)
        }
}

/// How many registers the instructions of block `b` before `end` list among their writes.
pub open spec fn defs_before(
    model: FunctionModel,
    rvb: RegVecsAndBounds,
    b: int,
    end: int,
) -> int
    decreases end - first_of(model, b),
{
    if end <= first_of(model, b) {
        0
    } else {
        defs_before(model, rvb, b, end - 1) + rvb.bounds@[end - 1].defs_len
    }
}

/// How many values the blocks before `end` start with or write.
pub open spec fn values_before(
    model: FunctionModel,
    cfg: CFGInfo,
    rvb: RegVecsAndBounds,
    end: int,
) -> int
    decreases end,
{
    if end <= 0 {
        0
    } else {
        values_before(model, cfg, rvb, end - 1) + Set::new(
            |r: Reg| wanted(model, cfg, rvb, end - 1, r),
        ).len() + defs_before(model, rvb, end - 1, last_of(model, end - 1) + 1)
    }
}

/// A value of `r` starts at the point `s` of block `b`: where the block starts, if `r` is live
/// there, or where an instruction of the block writes it.
pub open spec fn starts(
    model: FunctionModel,
    rvb: RegVecsAndBounds,
    livein: Set<Reg>,
    b: int,
    r: Reg,
    s: int,
) -> bool {
    ||| s == 4 * first_of(model, b) + 1 && livein.contains(r)
    ||| exists|i: int| at(model, b, i) && #[trigger] defs_at(rvb, i, r) && s == 4 * i + 2
}

/// At the point `p` of block `b`, the value of `r` is the one that started at `s`.
pub open spec fn governs(
    model: FunctionModel,
    rvb: RegVecsAndBounds,
    livein: Set<Reg>,
    b: int,
    r: Reg,
    s: int,
    p: int,
) -> bool {
    &&& starts(model, rvb, livein, b, r, s)
    &&& s <= p
    &&& forall|i: int|
        at(model, b, i) && #[trigger] defs_at(rvb, i, r) ==> !(s < 4 * i + 2 <= p)
}

/// The mentions note that instruction `i` reads.
pub open spec fn notes_use(mentions: Seq<(InstIx, Mention)>, i: int) -> bool {
    exists|a: int|
        0 <= a < mentions.len() && (#[trigger] mentions[a]).0.ix == i && mentions[a].1.used
}

/// The mentions note that instruction `i` modifies.
pub open spec fn notes_mod(mentions: Seq<(InstIx, Mention)>, i: int) -> bool {
    exists|a: int|
        0 <= a < mentions.len() && (#[trigger] mentions[a]).0.ix == i && mentions[a].1.modified
}

/// The mentions note that instruction `i` writes.
pub open spec fn notes_def(mentions: Seq<(InstIx, Mention)>, i: int) -> bool {
    exists|a: int|
        0 <= a < mentions.len() && (#[trigger] mentions[a]).0.ix == i && mentions[a].1.defined
}

/// The mentions stand in ascending order, one for each instruction, and each says something.
pub open spec fn well_listed(mentions: Seq<(InstIx, Mention)>) -> bool {
    &&& forall|a: int, c: int|
        0 <= a < c < mentions.len() ==> (#[trigger] mentions[a]).0.ix < (
        #[trigger] mentions[c]).0.ix
    &&& forall|a: int|
        0 <= a < mentions.len() ==> (#[trigger] mentions[a]).1.used || mentions[a].1.modified
            || mentions[a].1.defined
}

/// The fragment is one value of its register in its block: it starts where the value does, notes
/// exactly what happens to that value, and ends with its last event, or where the block ends if the
/// value lives on. Its kind says which ends of the block it reaches.
pub open spec fn is_value(
    model: FunctionModel,
    rvb: RegVecsAndBounds,
    livein: Set<Reg>,
    liveout: Set<Reg>,
    b: int,
    r: Reg,
    f: FragView,
) -> bool {
    let end = 4 * last_of(model, b) + 2;
    &&& starts(model, rvb, livein, b, r, f.first)
    &&& well_listed(f.mentions)
    &&& forall|a: int|
        0 <= a < f.mentions.len() ==> at(model, b, (#[trigger] f.mentions[a]).0.ix as int)
    &&& forall|i: int|
        at(model, b, i) ==> (#[trigger] notes_use(f.mentions, i) <==> uses_at(rvb, i, r) && governs(
            model,
            rvb,
            livein,
            b,
            r,
            f.first,
            4 * i + 1,
        ))
    &&& forall|i: int|
        at(model, b, i) ==> (#[trigger] notes_mod(f.mentions, i) <==> mods_at(rvb, i, r) && governs(
            model,
            rvb,
            livein,
            b,
            r,
            f.first,
            4 * i + 2,
        ))
    &&& forall|i: int|
        at(model, b, i) ==> (#[trigger] notes_def(f.mentions, i) <==> defs_at(rvb, i, r) && f.first
            == 4 * i + 2)
    &&& f.first <= f.last <= end
    &&& forall|i: int| #[trigger] notes_use(f.mentions, i) ==> 4 * i + 1 <= f.last
    &&& forall|i: int| #[trigger] notes_mod(f.mentions, i) ==> 4 * i + 2 <= f.last
    &&& if liveout.contains(r) && governs(model, rvb, livein, b, r, f.first, end) {
        f.last == end
    } else {
        ||| f.last == f.first
        ||| exists|i: int| #[trigger] notes_use(f.mentions, i) && f.last == 4 * i + 1
        ||| exists|i: int| #[trigger] notes_mod(f.mentions, i) && f.last == 4 * i + 2
    }
}

/// The kind says which ends of the block a fragment between two points reaches.
pub open spec fn kind_fits(
    model: FunctionModel,
    b: int,
    kind: RangeFragKind,
    first: int,
    last: int,
) -> bool {
    match kind {
        RangeFragKind::Local => first != 4 * first_of(model, b) + 1 && last != 4 * last_of(model, b)
            + 2,
        RangeFragKind::LiveIn => first == 4 * first_of(model, b) + 1 && last != 4 * last_of(
            model,
            b,
        ) + 2,
        RangeFragKind::LiveOut => first != 4 * first_of(model, b) + 1 && last == 4 * last_of(
            model,
            b,
        ) + 2,
        RangeFragKind::Thru => first == 4 * first_of(model, b) + 1 && last == 4 * last_of(model, b)
            + 2,
    }
}

/// The items are all values of all registers in all blocks, each once.
pub open spec fn are_values(
    model: FunctionModel,
    rvb: RegVecsAndBounds,
    liveins: Seq<Set<Reg>>,
    liveouts: Seq<Set<Reg>>,
    items: Seq<FragItem>,
) -> bool {
    &&& forall|x: int|
        0 <= x < items.len() ==> {
            let b = (#[trigger] items[x]).metrics.bix.ix as int;
            &&& b < model.blocks.len()
            &&& is_value(model, rvb, liveins[b], liveouts[b], b, items[x].reg, items[x].frag)
            &&& kind_fits(
                model,
                b,
                items[x].metrics.kind,
                items[x].frag.first,
                items[x].frag.last,
            )
        }
    &&& forall|b: int, r: Reg, s: int|
        0 <= b < model.blocks.len() && #[trigger] starts(model, rvb, liveins[b], b, r, s)
            ==> has_value(items, b, r, s)
    &&& forall|x: int, y: int|
        0 <= x < y < items.len() && (#[trigger] items[x]).reg == (#[trigger] items[y]).reg
            ==> items[x].frag.first != items[y].frag.first
}

/// The value of `r` that starts at the point `s` of block `b` is among the items.
pub open spec fn has_value(items: Seq<FragItem>, b: int, r: Reg, s: int) -> bool {
    exists|x: int|
        {
            &&& 0 <= x < items.len()
            &&& (#[trigger] items[x]).reg == r
            &&& items[x].metrics.bix.ix == b
            &&& items[x].frag.first == s
        }
}

} // verus!
