//! What holds of every result of the analysis.

use crate::analysis::{
    are_sorted_intervals, code_ok, frags_countable, is_analysis, is_sorted_fixed,
    lemma_frags_ready, lemma_item_regs_known, listing, live_in_sets, live_out_sets,
    results_available, AnalysisInfo,
};
use crate::block_model::{
    item_frags, item_metrics, item_regs, lemma_positions, FragItem, FragView,
};
use crate::control_flow::CFGInfo;
use crate::data_structures::{
    def_point, use_point, BlockIx, InstIx, Mention, RealRegUniverse, Reg, RegVecsAndBounds,
};
use crate::fixed_properties::{
    blocks_disjoint, has_real_frag, is_real_with, lemma_fixed_complete, lemma_fixed_in_order,
    lemma_items_apart, writes_once,
};
use crate::frag_properties::records;
use crate::function::FunctionModel;
use crate::interval_properties::{
    has_item_in, item_ends, lemma_all_mentions, lemma_function_covers, lemma_function_records,
    lemma_group_frags, lemma_group_of_interval, lemma_interval_of_group, lemma_interval_of_item,
    lemma_interval_spans, lemma_interval_takes_in, lemma_items_end, lemma_jump_in_one_group,
    lemma_one_group, says, takes_in,
};
use crate::intervals::{
    all_mentions, greatest_last, is_interval, least_first, mentioned, noted, virtual_pieces,
    FixedInterval, VirtualInterval,
};
use crate::merging::{
    are_groups, flows_in, flows_out, group_ok, group_pieces, metrics_of, Group, MergeInput,
};
use crate::merging_properties::{lemma_virtual_at, virtual_at};
use crate::range_frags::{
    are_items, block_code, frag_views, frags_ready, item_placed, lemma_items_placed, RangeFrag,
};
use crate::sparse_set::set_views;
use vstd::prelude::*;

verus! {

/// The function, its control flow and its register lists fit together.
pub open spec fn inputs_ok(model: FunctionModel, cfg: CFGInfo, rvb: RegVecsAndBounds) -> bool {
    &&& model.ok()
    &&& cfg.ok(model.blocks.len())
    &&& code_ok(model, rvb)
    &&& results_available(model, rvb@, cfg.succs())
    &&& frags_countable(model, rvb@, cfg.succs())
}

/// The interval reaches over the point.
pub open spec fn spans(v: VirtualInterval, p: int) -> bool {
    v.start@ <= p <= v.end@
}

/// The mention of a register that is only read.
pub open spec fn only_used() -> Mention {
    Mention { used: true, modified: false, defined: false }
}

/// The mention of a register that is only modified.
pub open spec fn only_modified() -> Mention {
    Mention { used: false, modified: true, defined: false }
}

/// The mention of a register that is only written.
pub open spec fn only_defined() -> Mention {
    Mention { used: false, modified: false, defined: true }
}

/// An interval of `r` spans the point `p` and says of instruction `i` what `m` says.
pub open spec fn covered(
    virtuals: Seq<VirtualInterval>,
    r: Reg,
    i: int,
    m: Mention,
    p: int,
) -> bool {
    exists|k: int|
        {
            &&& 0 <= k < virtuals.len()
            &&& (#[trigger] virtuals[k]).vreg.reg == r
            &&& says(virtuals[k].mentions@, InstIx { ix: i as u32 }, m)
            &&& spans(virtuals[k], p)
        }
}

/// The fragments and live ranges behind a result.
pub proof fn lemma_witness(
    model: FunctionModel,
    univ: RealRegUniverse,
    cfg: CFGInfo,
    rvb: RegVecsAndBounds,
    info: AnalysisInfo,
) -> (w: (Seq<FragItem>, Seq<Group>))
    requires
        inputs_ok(model, cfg, rvb),
        is_analysis(model, univ, cfg, rvb, info),
    ensures
        frags_ready(model, rvb@, info.liveins@, info.liveouts@),
        are_items(model, rvb@, info.liveins@, info.liveouts@, w.0),
        are_groups(listing(w.0), item_metrics(w.0), cfg.succs(), w.1),
        are_sorted_intervals(
            univ,
            group_pieces(listing(w.0), item_frags(w.0), w.1),
            info.intervals,
        ),
        w.0.len() <= u32::MAX,
        forall|x: int|
            0 <= x < w.0.len() ==> item_placed(model, rvb@, info.liveins@, #[trigger] w.0[x]),
{
    lemma_frags_ready(model, rvb, cfg.succs(), info.liveins@, info.liveouts@);
    let (items, groups) = choose|items: Seq<FragItem>, groups: Seq<Group>|
        {
            &&& #[trigger] are_items(model, rvb@, info.liveins@, info.liveouts@, items)
            &&& #[trigger] are_groups(listing(items), item_metrics(items), cfg.succs(), groups)
            &&& are_sorted_intervals(
                univ,
                group_pieces(listing(items), item_frags(items), groups),
                info.intervals,
            )
        };
    lemma_items_placed(model, rvb@, info.liveins@, info.liveouts@, items);
    (items, groups)
}

proof fn lemma_covered(
    model: FunctionModel,
    univ: RealRegUniverse,
    cfg: CFGInfo,
    rvb: RegVecsAndBounds,
    info: AnalysisInfo,
    items: Seq<FragItem>,
    groups: Seq<Group>,
    b: int,
    i: int,
    r: Reg,
    sel: spec_fn(Mention) -> bool,
    m: Mention,
    p: int,
)
    requires
        frags_ready(model, rvb@, info.liveins@, info.liveouts@),
        are_items(model, rvb@, info.liveins@, info.liveouts@, items),
        are_groups(listing(items), item_metrics(items), cfg.succs(), groups),
        are_sorted_intervals(
            univ,
            group_pieces(listing(items), item_frags(items), groups),
            info.intervals,
        ),
        forall|x: int|
            0 <= x < items.len() ==> item_placed(model, rvb@, info.liveins@, #[trigger] items[x]),
        !r.spec_is_real(),
        has_item_in(items, b, r, |f: FragView| records(f, i, sel)),
        forall|n: Mention| #[trigger]
            sel(n) ==> (m.used ==> n.used) && (m.modified ==> n.modified) && (m.defined
                ==> n.defined),
        m == only_used() && p == use_point(i) || m == only_modified() && p == def_point(i) || m
            == only_defined() && p == def_point(i),
    ensures
        covered(info.intervals.virtuals@, r, i, m, p),
{
    let virtuals = info.intervals.virtuals@;
    let x = choose|x: int|
        0 <= x < items.len() && (#[trigger] items[x]).reg == r && items[x].metrics.bix.ix == b
            && records(items[x].frag, i, sel);
    let f = items[x].frag;
    let a = choose|a: int|
        0 <= a < f.mentions.len() && (#[trigger] f.mentions[a]).0.ix == i && sel(f.mentions[a].1);
    assert(item_placed(model, rvb@, info.liveins@, items[x]));
    let c = block_code(model, b, info.liveins@[b]@, rvb@);
    assert(c.mention_true(r, f, i, f.mentions[a].1));
    lemma_interval_of_item(
        model,
        rvb@,
        cfg.succs(),
        info.liveins@,
        info.liveouts@,
        items,
        groups,
        virtuals,
        x,
    );
    let k = choose|k: int|
        {
            &&& 0 <= k < virtuals.len()
            &&& (#[trigger] virtuals[k]).vreg.reg == items[x].reg
            &&& takes_in(virtuals[k], items[x].frag)
        };
    assert(says(virtuals[k].mentions@, f.mentions[a].0, f.mentions[a].1));
    assert(f.mentions[a].0 == (InstIx { ix: i as u32 }));
    assert(says(virtuals[k].mentions@, InstIx { ix: i as u32 }, m));
    assert(spans(virtuals[k], p));
}

/// Nothing that happens to a virtual register is lost: whatever an instruction reads, modifies or
/// writes is noted in an interval of that register, and the interval spans the point where it
/// happens.
pub proof fn lemma_mentions_covered(
    model: FunctionModel,
    univ: RealRegUniverse,
    cfg: CFGInfo,
    rvb: RegVecsAndBounds,
    info: AnalysisInfo,
    b: int,
    i: int,
    r: Reg,
)
    requires
        inputs_ok(model, cfg, rvb),
        is_analysis(model, univ, cfg, rvb, info),
        0 <= b < model.blocks.len(),
        model.blocks[b].lo() <= i < model.blocks[b].hi(),
        !r.spec_is_real(),
    ensures
        rvb@[i].uses.contains(r) ==> covered(
            info.intervals.virtuals@,
            r,
            i,
            only_used(),
            use_point(i),
        ),
        rvb@[i].mods.contains(r) ==> covered(
            info.intervals.virtuals@,
            r,
            i,
            only_modified(),
            def_point(i),
        ),
        rvb@[i].defs.contains(r) ==> covered(
            info.intervals.virtuals@,
            r,
            i,
            only_defined(),
            def_point(i),
        ),
{
    let (items, groups) = lemma_witness(model, univ, cfg, rvb, info);
    lemma_function_records(model, rvb@, info.liveins@, info.liveouts@, items, b, i, r);
    if rvb@[i].uses.contains(r) {
        lemma_covered(
            model,
            univ,
            cfg,
            rvb,
            info,
            items,
            groups,
            b,
            i,
            r,
            |m: Mention| m.used,
            only_used(),
            use_point(i),
        );
    }
    if rvb@[i].mods.contains(r) {
        lemma_covered(
            model,
            univ,
            cfg,
            rvb,
            info,
            items,
            groups,
            b,
            i,
            r,
            |m: Mention| m.modified,
            only_modified(),
            def_point(i),
        );
    }
    if rvb@[i].defs.contains(r) {
        lemma_covered(
            model,
            univ,
            cfg,
            rvb,
            info,
            items,
            groups,
            b,
            i,
            r,
            |m: Mention| m.defined,
            only_defined(),
            def_point(i),
        );
    }
}

proof fn lemma_noted_true(
    model: FunctionModel,
    univ: RealRegUniverse,
    cfg: CFGInfo,
    rvb: RegVecsAndBounds,
    info: AnalysisInfo,
    items: Seq<FragItem>,
    groups: Seq<Group>,
    g: int,
    k: int,
    i: InstIx,
    m: Mention,
)
    requires
        frags_ready(model, rvb@, info.liveins@, info.liveouts@),
        are_items(model, rvb@, info.liveins@, info.liveouts@, items),
        are_groups(listing(items), item_metrics(items), cfg.succs(), groups),
        items.len() <= u32::MAX,
        forall|x: int|
            0 <= x < items.len() ==> item_placed(model, rvb@, info.liveins@, #[trigger] items[x]),
        0 <= g < groups.len(),
        0 <= k < info.intervals.virtuals@.len(),
        is_interval(
            info.intervals.virtuals@[k],
            k,
            groups[g].reg,
            group_pieces(listing(items), item_frags(items), groups)[g].frags,
        ),
        all_mentions(
            group_pieces(listing(items), item_frags(items), groups)[g].frags,
        ).contains((i, m)),
    ensures
        m.used || m.modified || m.defined,
        m.used ==> rvb@[i.ix as int].uses.contains(groups[g].reg) && spans(
            info.intervals.virtuals@[k],
            use_point(i.ix as int),
        ),
        m.modified ==> rvb@[i.ix as int].mods.contains(groups[g].reg) && spans(
            info.intervals.virtuals@[k],
            def_point(i.ix as int),
        ),
        m.defined ==> rvb@[i.ix as int].defs.contains(groups[g].reg) && spans(
            info.intervals.virtuals@[k],
            def_point(i.ix as int),
        ),
{
    let pieces = group_pieces(listing(items), item_frags(items), groups);
    let frags = pieces[g].frags;
    let v = info.intervals.virtuals@[k];
    assert(group_ok(listing(items), groups[g]));
    lemma_all_mentions(frags);
    let (q, a) = choose|q: int, a: int|
        0 <= q < frags.len() && 0 <= a < frags[q].mentions.len()
            && #[trigger] frags[q].mentions[a] == (i, m);
    assert forall|c: int| 0 <= c < frags.len() implies 0 <= (#[trigger] frags[c]).first <= u64::MAX
        && 0 <= frags[c].last by {
        let x = lemma_group_frags(items, groups, g, c);
        assert(item_placed(model, rvb@, info.liveins@, items[x]));
        assert(model.blocks[items[x].metrics.bix.ix as int].ok());
    }
    lemma_interval_takes_in(v, k, groups[g].reg, frags);
    assert(takes_in(v, frags[q]));
    let x = lemma_group_frags(items, groups, g, q);
    assert(item_placed(model, rvb@, info.liveins@, items[x]));
    let b = items[x].metrics.bix.ix as int;
    let c = block_code(model, b, info.liveins@[b]@, rvb@);
    assert(items[x].frag == frags[q]);
    let f = items[x].frag;
    assert(c.mention_true(groups[g].reg, f, f.mentions[a].0.ix as int, f.mentions[a].1));
}

/// An interval notes nothing but what happens: what it says of an instruction is what the
/// instruction does to its register, and it spans the point where that happens. It says something
/// of every instruction that it notes, and notes each once, in ascending order.
pub proof fn lemma_mentions_true(
    model: FunctionModel,
    univ: RealRegUniverse,
    cfg: CFGInfo,
    rvb: RegVecsAndBounds,
    info: AnalysisInfo,
    k: int,
    j: int,
)
    requires
        inputs_ok(model, cfg, rvb),
        is_analysis(model, univ, cfg, rvb, info),
        0 <= k < info.intervals.virtuals@.len(),
        0 <= j < info.intervals.virtuals@[k].mentions@.len(),
    ensures
        ({
            let v = info.intervals.virtuals@[k];
            let i = v.mentions@[j].0.ix as int;
            let m = v.mentions@[j].1;
            &&& m.used || m.modified || m.defined
            &&& m.used ==> rvb@[i].uses.contains(v.vreg.reg) && spans(v, use_point(i))
            &&& m.modified ==> rvb@[i].mods.contains(v.vreg.reg) && spans(v, def_point(i))
            &&& m.defined ==> rvb@[i].defs.contains(v.vreg.reg) && spans(v, def_point(i))
            &&& j + 1 < v.mentions@.len() ==> i < v.mentions@[j + 1].0.ix
        }),
{
    let (items, groups) = lemma_witness(model, univ, cfg, rvb, info);
    let virtuals = info.intervals.virtuals@;
    let pieces = group_pieces(listing(items), item_frags(items), groups);
    lemma_group_of_interval(items, groups, virtuals, k);
    let g = choose|g: int|
        {
            &&& 0 <= g < groups.len()
            &&& !(#[trigger] groups[g]).reg.spec_is_real()
            &&& is_interval(virtuals[k], k, groups[g].reg, pieces[g].frags)
        };
    let all = all_mentions(pieces[g].frags);
    let (i, m) = virtuals[k].mentions@[j];
    assert(mentioned(all, i) && m == noted(all, i));
    let n = choose|n: Mention| #[trigger] all.contains((i, n));
    lemma_noted_true(model, univ, cfg, rvb, info, items, groups, g, k, i, n);
    if m.used {
        let n = choose|n: Mention| #[trigger] all.contains((i, n)) && n.used;
        lemma_noted_true(model, univ, cfg, rvb, info, items, groups, g, k, i, n);
    }
    if m.modified {
        let n = choose|n: Mention| #[trigger] all.contains((i, n)) && n.modified;
        lemma_noted_true(model, univ, cfg, rvb, info, items, groups, g, k, i, n);
    }
    if m.defined {
        let n = choose|n: Mention| #[trigger] all.contains((i, n)) && n.defined;
        lemma_noted_true(model, univ, cfg, rvb, info, items, groups, g, k, i, n);
    }
}

/// The fragment of an interval that notes of instruction `i` what `m` says: its number and its
/// place in the group.
proof fn lemma_noting_item(
    model: FunctionModel,
    rvb: RegVecsAndBounds,
    cfg: CFGInfo,
    info: AnalysisInfo,
    items: Seq<FragItem>,
    groups: Seq<Group>,
    g: int,
    v: VirtualInterval,
    id: int,
    i: InstIx,
    m: Mention,
    p: int,
) -> (w: (int, int))
    requires
        are_groups(listing(items), item_metrics(items), cfg.succs(), groups),
        items.len() <= u32::MAX,
        forall|x: int|
            0 <= x < items.len() ==> item_placed(model, rvb@, info.liveins@, #[trigger] items[x]),
        0 <= g < groups.len(),
        is_interval(
            v,
            id,
            groups[g].reg,
            group_pieces(listing(items), item_frags(items), groups)[g].frags,
        ),
        says(v.mentions@, i, m),
        m == only_used() && p == use_point(i.ix as int) || m == only_modified() && p == def_point(
            i.ix as int,
        ) || m == only_defined() && p == def_point(i.ix as int),
    ensures
        0 <= w.0 < items.len(),
        items[w.0].reg == groups[g].reg,
        items[w.0].frag.first <= p <= items[w.0].frag.last,
        0 <= w.1 < groups[g].members.len(),
        listing(items)[groups[g].reg][groups[g].members[w.1]].ix == w.0,
{
    let frags = group_pieces(listing(items), item_frags(items), groups)[g].frags;
    let all = all_mentions(frags);
    let j = choose|j: int|
        {
            &&& 0 <= j < v.mentions@.len()
            &&& (#[trigger] v.mentions@[j]).0 == i
            &&& m.used ==> v.mentions@[j].1.used
            &&& m.modified ==> v.mentions@[j].1.modified
            &&& m.defined ==> v.mentions@[j].1.defined
        };
    assert(v.mentions@[j].1 == noted(all, i));
    let n = if m == only_used() {
        choose|n: Mention| #[trigger] all.contains((i, n)) && n.used
    } else if m == only_modified() {
        choose|n: Mention| #[trigger] all.contains((i, n)) && n.modified
    } else {
        choose|n: Mention| #[trigger] all.contains((i, n)) && n.defined
    };
    assert(all.contains((i, n)));
    lemma_all_mentions(frags);
    let (q, a) = choose|q: int, a: int|
        0 <= q < frags.len() && 0 <= a < frags[q].mentions.len()
            && #[trigger] frags[q].mentions[a] == (i, n);
    assert(group_ok(listing(items), groups[g]));
    let x = lemma_group_frags(items, groups, g, q);
    assert(item_placed(model, rvb@, info.liveins@, items[x]));
    let b = items[x].metrics.bix.ix as int;
    let c = block_code(model, b, info.liveins@[b]@, rvb@);
    let f = items[x].frag;
    assert(f == frags[q]);
    assert(c.mention_true(groups[g].reg, f, f.mentions[a].0.ix as int, f.mentions[a].1));
    (x, q)
}

/// What happens to a virtual register is noted once: no two intervals of the register note that the
/// same instruction reads it, or modifies it, or writes it.
pub proof fn lemma_noted_once(
    model: FunctionModel,
    univ: RealRegUniverse,
    cfg: CFGInfo,
    rvb: RegVecsAndBounds,
    info: AnalysisInfo,
    i: InstIx,
    m: Mention,
    k: int,
    l: int,
)
    requires
        inputs_ok(model, cfg, rvb),
        is_analysis(model, univ, cfg, rvb, info),
        blocks_disjoint(model),
        writes_once(model, rvb@),
        0 <= k < info.intervals.virtuals@.len(),
        0 <= l < info.intervals.virtuals@.len(),
        info.intervals.virtuals@[k].vreg == info.intervals.virtuals@[l].vreg,
        m == only_used() || m == only_modified() || m == only_defined(),
        says(info.intervals.virtuals@[k].mentions@, i, m),
        says(info.intervals.virtuals@[l].mentions@, i, m),
    ensures
        k == l,
{
    let (items, groups) = lemma_witness(model, univ, cfg, rvb, info);
    let virtuals = info.intervals.virtuals@;
    let map = listing(items);
    let pieces = group_pieces(map, item_frags(items), groups);
    let input = MergeInput {
        lists: map,
        frags: item_frags(items),
        metrics: item_metrics(items),
        succs: cfg.succs(),
    };
    lemma_virtual_at(input, groups);
    let ats = virtual_at(groups);
    let g = ats[k];
    let h = ats[l];
    assert(ats.contains(g) && ats.contains(h));
    assert(is_interval(
        virtuals[k],
        k,
        virtual_pieces(pieces)[k].reg,
        virtual_pieces(pieces)[k].frags,
    ));
    assert(is_interval(
        virtuals[l],
        l,
        virtual_pieces(pieces)[l].reg,
        virtual_pieces(pieces)[l].frags,
    ));
    let p = if m == only_used() {
        use_point(i.ix as int)
    } else {
        def_point(i.ix as int)
    };
    let (x, a) = lemma_noting_item(
        model,
        rvb,
        cfg,
        info,
        items,
        groups,
        g,
        virtuals[k],
        k,
        i,
        m,
        p,
    );
    let (y, b) = lemma_noting_item(
        model,
        rvb,
        cfg,
        info,
        items,
        groups,
        h,
        virtuals[l],
        l,
        i,
        m,
        p,
    );
    lemma_items_apart(model, rvb@, info.liveins@, info.liveouts@, items);
    assert(items[x].reg == items[y].reg);
    assert(x == y);
    let r = groups[g].reg;
    assert(group_ok(map, groups[g]) && group_ok(map, groups[h]));
    lemma_positions(item_regs(items));
    let s = groups[g].members[a];
    let t = groups[h].members[b];
    if s < t {
        assert(map[r][s].ix < map[r][t].ix);
    } else if t < s {
        assert(map[r][t].ix < map[r][s].ix);
    }
    assert(groups[g].members.contains(s) && groups[h].members.contains(t));
    lemma_one_group(map, item_metrics(items), cfg.succs(), groups, r, s);
}

/// An interval of `r` spans both points.
pub open spec fn spanned(virtuals: Seq<VirtualInterval>, r: Reg, p: int, q: int) -> bool {
    exists|k: int|
        {
            &&& 0 <= k < virtuals.len()
            &&& (#[trigger] virtuals[k]).vreg.reg == r
            &&& spans(virtuals[k], p)
            &&& spans(virtuals[k], q)
        }
}

/// Where a virtual register is live, an interval spans the place: the start of each block where
/// it is live in, and the end of each block where it is live out.
pub proof fn lemma_live_spanned(
    model: FunctionModel,
    univ: RealRegUniverse,
    cfg: CFGInfo,
    rvb: RegVecsAndBounds,
    info: AnalysisInfo,
    b: int,
    r: Reg,
)
    requires
        inputs_ok(model, cfg, rvb),
        is_analysis(model, univ, cfg, rvb, info),
        0 <= b < model.blocks.len(),
        !r.spec_is_real(),
    ensures
        live_in_sets(model, rvb@, cfg.succs())[b].contains(r) ==> spanned(
            info.intervals.virtuals@,
            r,
            use_point(model.blocks[b].lo()),
            use_point(model.blocks[b].lo()),
        ),
        live_out_sets(model, rvb@, cfg.succs())[b].contains(r) ==> spanned(
            info.intervals.virtuals@,
            r,
            def_point(model.blocks[b].hi() - 1),
            def_point(model.blocks[b].hi() - 1),
        ),
{
    let (items, groups) = lemma_witness(model, univ, cfg, rvb, info);
    let virtuals = info.intervals.virtuals@;
    assert(set_views(info.liveins@)[b] == info.liveins@[b]@);
    assert(set_views(info.liveouts@)[b] == info.liveouts@[b]@);
    lemma_function_covers(model, rvb@, info.liveins@, info.liveouts@, items, b, r);
    if info.liveins@[b]@.contains(r) {
        let x = choose|x: int|
            0 <= x < items.len() && (#[trigger] items[x]).reg == r && items[x].metrics.bix.ix == b
                && items[x].frag.first == use_point(model.blocks[b].lo());
        assert(item_placed(model, rvb@, info.liveins@, items[x]));
        lemma_interval_of_item(
            model,
            rvb@,
            cfg.succs(),
            info.liveins@,
            info.liveouts@,
            items,
            groups,
            virtuals,
            x,
        );
    }
    if info.liveouts@[b]@.contains(r) {
        let x = choose|x: int|
            0 <= x < items.len() && (#[trigger] items[x]).reg == r && items[x].metrics.bix.ix == b
                && items[x].frag.last == def_point(model.blocks[b].hi() - 1);
        assert(item_placed(model, rvb@, info.liveins@, items[x]));
        lemma_interval_of_item(
            model,
            rvb@,
            cfg.succs(),
            info.liveins@,
            info.liveouts@,
            items,
            groups,
            virtuals,
            x,
        );
    }
}

/// A value that flows along a jump stays in one interval: where a virtual register is live at both
/// ends of a jump, one interval spans both the end of the block that jumps and the start of the
/// block that is jumped to.
pub proof fn lemma_jump_spanned(
    model: FunctionModel,
    univ: RealRegUniverse,
    cfg: CFGInfo,
    rvb: RegVecsAndBounds,
    info: AnalysisInfo,
    from: BlockIx,
    to: BlockIx,
    r: Reg,
)
    requires
        inputs_ok(model, cfg, rvb),
        is_analysis(model, univ, cfg, rvb, info),
        from.ix < model.blocks.len(),
        to.ix < model.blocks.len(),
        cfg.succs()[from.ix as int].contains(to),
        live_out_sets(model, rvb@, cfg.succs())[from.ix as int].contains(r),
        live_in_sets(model, rvb@, cfg.succs())[to.ix as int].contains(r),
        !r.spec_is_real(),
    ensures
        spanned(
            info.intervals.virtuals@,
            r,
            def_point(model.blocks[from.ix as int].hi() - 1),
            use_point(model.blocks[to.ix as int].lo()),
        ),
{
    let (items, groups) = lemma_witness(model, univ, cfg, rvb, info);
    let virtuals = info.intervals.virtuals@;
    assert(set_views(info.liveins@)[to.ix as int] == info.liveins@[to.ix as int]@);
    assert(set_views(info.liveouts@)[from.ix as int] == info.liveouts@[from.ix as int]@);
    lemma_jump_in_one_group(
        model,
        rvb@,
        cfg.succs(),
        info.liveins@,
        info.liveouts@,
        items,
        groups,
        from,
        to,
        r,
    );
    let ms = metrics_of(item_metrics(items), listing(items)[r]);
    let (g, p, q) = choose|g: int, p: int, q: int|
        {
            &&& 0 <= g < groups.len()
            &&& groups[g].reg == r
            &&& #[trigger] groups[g].members.contains(p)
            &&& #[trigger] groups[g].members.contains(q)
            &&& flows_out(ms[p]) && ms[p].bix == from
            &&& flows_in(ms[q]) && ms[q].bix == to
        };
    let a = choose|a: int| 0 <= a < groups[g].members.len() && groups[g].members[a] == p;
    let b = choose|b: int| 0 <= b < groups[g].members.len() && groups[g].members[b] == q;
    assert(group_ok(listing(items), groups[g]));
    let x = lemma_group_frags(items, groups, g, a);
    let y = lemma_group_frags(items, groups, g, b);
    assert(item_placed(model, rvb@, info.liveins@, items[x]));
    assert(item_placed(model, rvb@, info.liveins@, items[y]));
    lemma_interval_of_group(
        model,
        rvb@,
        cfg.succs(),
        info.liveins@,
        info.liveouts@,
        items,
        groups,
        virtuals,
        g,
    );
    let piece = group_pieces(listing(items), item_frags(items), groups)[g];
    let k = choose|k: int|
        {
            &&& 0 <= k < virtuals.len()
            &&& is_interval(#[trigger] virtuals[k], k, piece.reg, piece.frags)
            &&& forall|c: int|
                0 <= c < piece.frags.len() ==> takes_in(virtuals[k], #[trigger] piece.frags[c])
        };
    assert(takes_in(virtuals[k], piece.frags[a]));
    assert(takes_in(virtuals[k], piece.frags[b]));
}

/// Register `r` gets a value at the point `p`: an instruction writes it there, or a block starts
/// there where it is live.
pub open spec fn gets_value(
    model: FunctionModel,
    cfg: CFGInfo,
    rvb: RegVecsAndBounds,
    r: Reg,
    p: int,
) -> bool {
    ||| exists|i: int|
        model.holds(i) && (#[trigger] rvb@[i]).defs.contains(r) && p == def_point(i)
    ||| exists|b: int|
        {
            &&& 0 <= b < model.blocks.len()
            &&& (#[trigger] live_in_sets(model, rvb@, cfg.succs())[b]).contains(r)
            &&& p == use_point(model.blocks[b].lo())
        }
}

/// Register `r` is needed at the point `p`: an instruction reads or writes it there, or a block
/// starts or ends there where it is live.
pub open spec fn needed(
    model: FunctionModel,
    cfg: CFGInfo,
    rvb: RegVecsAndBounds,
    r: Reg,
    p: int,
) -> bool {
    ||| exists|i: int|
        model.holds(i) && (#[trigger] rvb@[i]).uses.contains(r) && p == use_point(i)
    ||| exists|i: int| model.holds(i) && (#[trigger] rvb@[i]).writes(r) && p == def_point(i)
    ||| exists|b: int|
        {
            &&& 0 <= b < model.blocks.len()
            &&& (#[trigger] live_in_sets(model, rvb@, cfg.succs())[b]).contains(r)
            &&& p == use_point(model.blocks[b].lo())
        }
    ||| exists|b: int|
        {
            &&& 0 <= b < model.blocks.len()
            &&& (#[trigger] live_out_sets(model, rvb@, cfg.succs())[b]).contains(r)
            &&& p == def_point(model.blocks[b].hi() - 1)
        }
}

/// An interval starts where its register gets a value, and ends where it is needed.
pub proof fn lemma_interval_ends(
    model: FunctionModel,
    univ: RealRegUniverse,
    cfg: CFGInfo,
    rvb: RegVecsAndBounds,
    info: AnalysisInfo,
    k: int,
)
    requires
        inputs_ok(model, cfg, rvb),
        is_analysis(model, univ, cfg, rvb, info),
        0 <= k < info.intervals.virtuals@.len(),
    ensures
        ({
            let v = info.intervals.virtuals@[k];
            &&& v.start@ <= v.end@
            &&& gets_value(model, cfg, rvb, v.vreg.reg, v.start@)
            &&& needed(model, cfg, rvb, v.vreg.reg, v.end@)
        }),
{
    let (items, groups) = lemma_witness(model, univ, cfg, rvb, info);
    let virtuals = info.intervals.virtuals@;
    let pieces = group_pieces(listing(items), item_frags(items), groups);
    lemma_group_of_interval(items, groups, virtuals, k);
    let g = choose|g: int|
        {
            &&& 0 <= g < groups.len()
            &&& !(#[trigger] groups[g]).reg.spec_is_real()
            &&& is_interval(virtuals[k], k, groups[g].reg, pieces[g].frags)
        };
    let r = groups[g].reg;
    let frags = pieces[g].frags;
    assert(group_ok(listing(items), groups[g]));
    assert forall|a: int| 0 <= a < frags.len() implies 0 <= (#[trigger] frags[a]).first <= u64::MAX
        && 0 <= frags[a].last by {
        let x = lemma_group_frags(items, groups, g, a);
        assert(item_placed(model, rvb@, info.liveins@, items[x]));
        assert(model.blocks[items[x].metrics.bix.ix as int].ok());
    }
    lemma_interval_spans(frags);
    let a = choose|a: int| 0 <= a < frags.len() && (#[trigger] frags[a]).first == least_first(frags);
    let x = lemma_group_frags(items, groups, g, a);
    assert(item_placed(model, rvb@, info.liveins@, items[x]));
    let b = items[x].metrics.bix.ix as int;
    let c = block_code(model, b, info.liveins@[b]@, rvb@);
    assert(c.starts_well(r, items[x].frag));
    assert forall|i: int| c.block.lo() <= i < c.block.hi() implies model.holds(i) by {
        assert(c.block == model.blocks[b]);
    }
    assert(set_views(info.liveins@)[b] == info.liveins@[b]@);
    let z = choose|z: int|
        0 <= z < frags.len() && (#[trigger] frags[z]).last == greatest_last(frags);
    let y = lemma_group_frags(items, groups, g, z);
    assert(item_placed(model, rvb@, info.liveins@, items[y]));
    lemma_items_end(model, rvb@, info.liveins@, info.liveouts@, items);
    assert(item_ends(model, rvb@, info.liveins@, info.liveouts@, items[y]));
    let d = items[y].metrics.bix.ix as int;
    assert forall|i: int| model.blocks[d].lo() <= i < model.blocks[d].hi() implies model.holds(
        i,
    ) by {}
    assert(set_views(info.liveins@)[d] == info.liveins@[d]@);
    assert(set_views(info.liveouts@)[d] == info.liveouts@[d]@);
}

/// A fragment of the interval spans the point and records of instruction `i` what `sel` asks for.
pub open spec fn recorded(
    frags: Seq<RangeFrag>,
    i: int,
    sel: spec_fn(Mention) -> bool,
    p: int,
) -> bool {
    exists|a: int|
        {
            &&& 0 <= a < frags.len()
            &&& records((#[trigger] frags[a])@, i, sel)
            &&& frags[a].first@ <= p <= frags[a].last@
        }
}

/// Every real register that an instruction of a block mentions is the one that the universe has
/// at its index.
pub open spec fn universe_fits(
    model: FunctionModel,
    rvb: RegVecsAndBounds,
    univ: RealRegUniverse,
) -> bool {
    forall|i: int, r: Reg|
        model.holds(i) && #[trigger] rvb@[i].mentions(r) && r.spec_is_real() ==> r.real_index()
            < univ.regs@.len() && univ.regs@[r.real_index()].0.reg == r
}

proof fn lemma_recorded(
    items: Seq<FragItem>,
    fixed: FixedInterval,
    b: int,
    i: int,
    r: Reg,
    sel: spec_fn(Mention) -> bool,
    p: int,
)
    requires
        forall|f: FragView| #[trigger]
            frag_views(fixed.frags@).contains(f) <==> has_real_frag(items, r.real_index(), f),
        r.spec_is_real(),
        has_item_in(items, b, r, |f: FragView| records(f, i, sel)),
        forall|x: int|
            0 <= x < items.len() && (#[trigger] items[x]).reg == r && records(
                items[x].frag,
                i,
                sel,
            ) ==> items[x].frag.first <= p <= items[x].frag.last,
    ensures
        recorded(fixed.frags@, i, sel, p),
{
    let views = frag_views(fixed.frags@);
    let x = choose|x: int|
        0 <= x < items.len() && (#[trigger] items[x]).reg == r && items[x].metrics.bix.ix == b
            && records(items[x].frag, i, sel);
    assert(is_real_with(items[x].reg, r.real_index()));
    assert(has_real_frag(items, r.real_index(), items[x].frag));
    assert(views.contains(items[x].frag));
    let a = choose|a: int| 0 <= a < views.len() && views[a] == items[x].frag;
    assert(fixed.frags@[a]@ == views[a]);
}

/// Nothing that happens to a real register is lost: whatever an instruction reads, modifies or
/// writes is recorded in a fragment of the register's interval, which spans the point where it
/// happens.
pub proof fn lemma_real_mentions_covered(
    model: FunctionModel,
    univ: RealRegUniverse,
    cfg: CFGInfo,
    rvb: RegVecsAndBounds,
    info: AnalysisInfo,
    b: int,
    i: int,
    r: Reg,
)
    requires
        inputs_ok(model, cfg, rvb),
        is_analysis(model, univ, cfg, rvb, info),
        0 <= b < model.blocks.len(),
        model.blocks[b].lo() <= i < model.blocks[b].hi(),
        r.spec_is_real(),
        r.real_index() < univ.regs@.len(),
    ensures
        rvb@[i].uses.contains(r) ==> recorded(
            info.intervals.fixeds@[r.real_index()].frags@,
            i,
            |m: Mention| m.used,
            use_point(i),
        ),
        rvb@[i].mods.contains(r) ==> recorded(
            info.intervals.fixeds@[r.real_index()].frags@,
            i,
            |m: Mention| m.modified,
            def_point(i),
        ),
        rvb@[i].defs.contains(r) ==> recorded(
            info.intervals.fixeds@[r.real_index()].frags@,
            i,
            |m: Mention| m.defined,
            def_point(i),
        ),
{
    let (items, groups) = lemma_witness(model, univ, cfg, rvb, info);
    lemma_function_records(model, rvb@, info.liveins@, info.liveouts@, items, b, i, r);
    let fixed = info.intervals.fixeds@[r.real_index()];
    let pieces = group_pieces(listing(items), item_frags(items), groups);
    assert(is_sorted_fixed(univ, pieces, r.real_index(), fixed));
    lemma_fixed_complete(univ, items, cfg.succs(), groups, r.real_index(), fixed);
    assert forall|x: int, a: int|
        0 <= x < items.len() && items[x].reg == r && 0 <= a < items[x].frag.mentions.len() && (
        #[trigger] items[x].frag.mentions[a]).0.ix == i implies {
        let f = items[x].frag;
        let m = f.mentions[a].1;
        &&& m.used ==> f.first <= use_point(i) <= f.last
        &&& m.modified || m.defined ==> f.first <= def_point(i) <= f.last
    } by {
        assert(item_placed(model, rvb@, info.liveins@, items[x]));
        let d = items[x].metrics.bix.ix as int;
        let c = block_code(model, d, info.liveins@[d]@, rvb@);
        let f = items[x].frag;
        assert(c.mention_true(r, f, f.mentions[a].0.ix as int, f.mentions[a].1));
    }
    if rvb@[i].uses.contains(r) {
        lemma_recorded(items, fixed, b, i, r, |m: Mention| m.used, use_point(i));
    }
    if rvb@[i].mods.contains(r) {
        lemma_recorded(items, fixed, b, i, r, |m: Mention| m.modified, def_point(i));
    }
    if rvb@[i].defs.contains(r) {
        lemma_recorded(items, fixed, b, i, r, |m: Mention| m.defined, def_point(i));
    }
}

/// The fragments of each fixed interval stand in the order of the program, and do not overlap.
pub proof fn lemma_fixed_sorted_apart(
    model: FunctionModel,
    univ: RealRegUniverse,
    cfg: CFGInfo,
    rvb: RegVecsAndBounds,
    info: AnalysisInfo,
    k: int,
)
    requires
        inputs_ok(model, cfg, rvb),
        is_analysis(model, univ, cfg, rvb, info),
        universe_fits(model, rvb, univ),
        blocks_disjoint(model),
        writes_once(model, rvb@),
        0 <= k < info.intervals.fixeds@.len(),
    ensures
        forall|a: int, b: int|
            0 <= a < b < info.intervals.fixeds@[k].frags@.len() ==> (
            #[trigger] info.intervals.fixeds@[k].frags@[a]).last@ < (
            #[trigger] info.intervals.fixeds@[k].frags@[b]).first@,
{
    let (items, groups) = lemma_witness(model, univ, cfg, rvb, info);
    let fixed = info.intervals.fixeds@[k];
    let pieces = group_pieces(listing(items), item_frags(items), groups);
    assert(is_sorted_fixed(univ, pieces, k, fixed));
    lemma_items_apart(model, rvb@, info.liveins@, info.liveouts@, items);
    assert forall|x: int| 0 <= x < items.len() implies (#[trigger] items[x]).frag.first
        <= items[x].frag.last by {
        assert(item_placed(model, rvb@, info.liveins@, items[x]));
    }
    assert forall|x: int|
        0 <= x < items.len() && is_real_with((#[trigger] items[x]).reg, k) implies items[x].reg
        == univ.regs@[k].0.reg by {
        assert(item_placed(model, rvb@, info.liveins@, items[x]));
        lemma_item_regs_known(
            model,
            rvb,
            cfg.succs(),
            info.liveins@,
            items[x],
        );
    }
    lemma_fixed_in_order(univ, items, cfg.succs(), groups, k, fixed);
}

} // verus!
