//! What the intervals of a function are, told in plain words.

use crate::analysis::{
    are_sorted_intervals, is_sorted_fixed, listing, run_gives, AnalysisInfo,
};
use crate::analysis_properties::{inputs_ok, lemma_fixed_sorted_apart, lemma_witness, universe_fits};
use crate::block_model::{item_frags, item_metrics, item_regs, lemma_positions, FragItem, FragView};
use crate::control_flow::CFGInfo;
use crate::data_structures::{BlockIx, RangeFragIx, RealRegUniverse, Reg, RegVecsAndBounds};
use crate::fixed_properties::{
    has_real_frag, is_real_with, lemma_fixed_complete, lemma_fixed_listing,
};
use crate::fragment_laws::{lemma_are_values, lemma_plainly};
use crate::function::FunctionModel;
use crate::interval_properties::lemma_position;
use crate::intervals::{FixedInterval, VirtualInterval};
use crate::liveness_laws::{lemma_block_lists, lemma_live_sets, lemma_results_fit};
use crate::merging::{group_pieces, metrics_of, outflows_known, Group, MergeInput};
use crate::merging_properties::{
    are_positions, frags_of, is_closed, is_hull, leads_to, lemma_grouped_virtuals, mentions_insn,
    some_mentions_insn, some_notes_def, some_notes_mod, some_notes_use, tells_interval,
};
use crate::order_laws::lemma_frag_order;
use crate::plain::{
    are_values, at, code_fits, defs_at, first_of, governs, has_value, inputs_fit, is_insn,
    is_value, kind_fits, last_of, mentions_at, mods_at, notes_def, notes_mod, notes_use,
    results_held, starts, uses_at, values_before, well_listed, writes_plainly,
};
use crate::range_frags::{are_items, frag_views, frags_ready, item_placed, RangeFrag};
use crate::sparse_set::set_views;
use crate::value_laws::{are_fragments, lemma_cut_all};
use vstd::prelude::*;

verus! {

/// The function can be analysed, and was: the parts fit together, registers are written plainly,
/// results hold values, values can be numbered, and `info` is the answer.
pub open spec fn was_analysed(
    model: FunctionModel,
    univ: RealRegUniverse,
    cfg: CFGInfo,
    rvb: RegVecsAndBounds,
    info: AnalysisInfo,
) -> bool {
    &&& inputs_fit(model, cfg, rvb)
    &&& writes_plainly(model, rvb)
    &&& results_held(model, cfg, rvb)
    &&& values_before(model, cfg, rvb, model.blocks.len() as int) <= u32::MAX
    &&& run_gives(model, univ, Ok(cfg), Ok(rvb), Ok(info))
}

/// A value of `r` starts at the point `s` of block `b`.
pub open spec fn value_starts(
    model: FunctionModel,
    rvb: RegVecsAndBounds,
    info: AnalysisInfo,
    b: int,
    r: Reg,
    s: int,
) -> bool {
    0 <= b < model.blocks.len() && starts(model, rvb, info.liveins@[b]@, b, r, s)
}

/// At the point `p` of block `b`, the value of `r` is the one that started at `s`.
pub open spec fn value_at(
    model: FunctionModel,
    rvb: RegVecsAndBounds,
    info: AnalysisInfo,
    b: int,
    r: Reg,
    s: int,
    p: int,
) -> bool {
    0 <= b < model.blocks.len() && governs(model, rvb, info.liveins@[b]@, b, r, s, p)
}

/// The value of `r` that started at the point `s` of block `b` lives on after the block.
pub open spec fn lives_on(
    model: FunctionModel,
    rvb: RegVecsAndBounds,
    info: AnalysisInfo,
    b: int,
    r: Reg,
    s: int,
) -> bool {
    info.liveouts@[b]@.contains(r) && value_at(
        model,
        rvb,
        info,
        b,
        r,
        s,
        4 * last_of(model, b) + 2,
    )
}

/// The value of `r` that started at the point `s` of block `b` is handed on to block `c`.
pub open spec fn is_handed_on(
    model: FunctionModel,
    cfg: CFGInfo,
    rvb: RegVecsAndBounds,
    info: AnalysisInfo,
    r: Reg,
    b: int,
    s: int,
    c: BlockIx,
) -> bool {
    &&& lives_on(model, rvb, info, b, r, s)
    &&& cfg.succ_map@[b]@.contains(c)
    &&& info.liveins@[c.ix as int]@.contains(r)
}

/// No value of `r` is handed on into the set of starting points, nor out of it.
pub open spec fn is_apart(
    model: FunctionModel,
    cfg: CFGInfo,
    rvb: RegVecsAndBounds,
    info: AnalysisInfo,
    r: Reg,
    set: Set<int>,
) -> bool {
    forall|b: int, s: int, c: BlockIx| #[trigger]
        is_handed_on(model, cfg, rvb, info, r, b, s, c) ==> (set.contains(s) <==> set.contains(
            4 * first_of(model, c.ix as int) + 1,
        ))
}

/// The fragments behind a result, and the interval of each.
proof fn lemma_behind_all(
    model: FunctionModel,
    univ: RealRegUniverse,
    cfg: CFGInfo,
    rvb: RegVecsAndBounds,
    info: AnalysisInfo,
) -> (w: (Seq<FragItem>, Seq<Group>, spec_fn(Reg, int) -> int))
    requires
        inputs_fit(model, cfg, rvb),
        results_held(model, cfg, rvb),
        values_before(model, cfg, rvb, model.blocks.len() as int) <= u32::MAX,
        run_gives(model, univ, Ok(cfg), Ok(rvb), Ok(info)),
    ensures
        inputs_ok(model, cfg, rvb),
        info.liveins@.len() == model.blocks.len(),
        info.liveouts@.len() == model.blocks.len(),
        w.0.len() <= u32::MAX,
        merge_input(cfg, w.0).ok(),
        frags_ready(model, rvb@, info.liveins@, info.liveouts@),
        are_items(model, rvb@, info.liveins@, info.liveouts@, w.0),
        merge_input(cfg, w.0).grouped(w.1),
        are_sorted_intervals(
            univ,
            group_pieces(listing(w.0), item_frags(w.0), w.1),
            info.intervals,
        ),
        tells_interval(merge_input(cfg, w.0), info.intervals.virtuals@, w.2),
{
    lemma_results_fit(model, cfg, rvb);
    let (items, groups) = lemma_witness(model, univ, cfg, rvb, info);
    assert(set_views(info.liveins@).len() == model.blocks.len());
    assert(set_views(info.liveouts@).len() == model.blocks.len());
    let input = merge_input(cfg, items);
    lemma_positions(item_regs(items));
    assert forall|x: int| 0 <= x < input.frags.len() implies {
        &&& 0 <= (#[trigger] input.frags[x]).first <= u64::MAX
        &&& 0 <= input.frags[x].last <= u64::MAX
    } by {
        assert(item_placed(model, rvb@, info.liveins@, items[x]));
        assert(model.blocks[items[x].metrics.bix.ix as int].ok());
    }
    assert forall|r: Reg, p: int|
        input.lists.contains_key(r) && 0 <= p < input.lists[r].len() implies (
    #[trigger] input.lists[r][p]).ix < input.frags.len() by {
        assert(item_regs(items)[listing(items)[r][p].ix as int] == r);
    }
    assert forall|r: Reg| #[trigger] input.lists.contains_key(r) implies outflows_known(
        metrics_of(input.metrics, input.lists[r]),
        input.succs.len() as int,
    ) by {
        let ms = metrics_of(input.metrics, input.lists[r]);
        assert forall|p: int| 0 <= p < ms.len() implies (#[trigger] ms[p]).bix.ix
            < input.succs.len() by {
            let x = input.lists[r][p].ix as int;
            assert(x < input.frags.len());
            assert(item_placed(model, rvb@, info.liveins@, items[x]));
        }
    }
    let of = lemma_grouped_virtuals(input, groups, info.intervals.virtuals@);
    (items, groups, of)
}

/// What is merged, if these are the fragments.
spec fn merge_input(cfg: CFGInfo, items: Seq<FragItem>) -> MergeInput {
    MergeInput {
        lists: listing(items),
        frags: item_frags(items),
        metrics: item_metrics(items),
        succs: cfg.succs(),
    }
}

/// The fragments behind a result, where registers are written plainly.
proof fn lemma_behind(
    model: FunctionModel,
    univ: RealRegUniverse,
    cfg: CFGInfo,
    rvb: RegVecsAndBounds,
    info: AnalysisInfo,
) -> (w: (Seq<FragItem>, MergeInput, spec_fn(Reg, int) -> int))
    requires
        was_analysed(model, univ, cfg, rvb, info),
    ensures
        inputs_ok(model, cfg, rvb),
        info.liveins@.len() == model.blocks.len(),
        info.liveouts@.len() == model.blocks.len(),
        w.0.len() <= u32::MAX,
        w.1 == merge_input(cfg, w.0),
        w.1.ok(),
        frags_ready(model, rvb@, info.liveins@, info.liveouts@),
        are_items(model, rvb@, info.liveins@, info.liveouts@, w.0),
        are_values(model, rvb, set_views(info.liveins@), set_views(info.liveouts@), w.0),
        tells_interval(w.1, info.intervals.virtuals@, w.2),
{
    let (items, groups, of) = lemma_behind_all(model, univ, cfg, rvb, info);
    lemma_are_values(model, rvb, info.liveins@, info.liveouts@, items);
    (items, merge_input(cfg, items), of)
}

/// The input of the merging holds these fragments: each with its block and kind, and with its
/// number in the list of its register, which ascends; and with these jumps.
pub open spec fn holds_fragments(cfg: CFGInfo, items: Seq<FragItem>, input: MergeInput) -> bool {
    &&& input.succs.len() == cfg.succ_map@.len()
    &&& forall|b: int| 0 <= b < input.succs.len() ==> #[trigger] input.succs[b] == cfg.succ_map@[b]@
    &&& input.frags.len() == items.len()
    &&& input.metrics.len() == items.len()
    &&& forall|x: int|
        0 <= x < items.len() ==> {
            &&& input.frags[x] == (#[trigger] items[x]).frag
            &&& input.metrics[x] == items[x].metrics
            &&& input.lists.contains_key(items[x].reg)
            &&& exists|p: int|
                0 <= p < input.lists[items[x].reg].len() && (
                #[trigger] input.lists[items[x].reg][p]).ix == x
        }
    &&& forall|r: Reg, p: int|
        input.lists.contains_key(r) && 0 <= p < input.lists[r].len() ==> (
        #[trigger] input.lists[r][p]).ix < items.len() && items[input.lists[r][p].ix as int].reg
            == r
    &&& forall|r: Reg, p: int, q: int|
        input.lists.contains_key(r) && 0 <= p < q < input.lists[r].len() ==> (
        #[trigger] input.lists[r][p]).ix < (#[trigger] input.lists[r][q]).ix
}

/// The fixed interval at index `k` belongs to the register that the universe has there, and holds
/// each fragment of each real register with that index once, in the order in which they start.
pub open spec fn is_fixed_of(
    univ: RealRegUniverse,
    items: Seq<FragItem>,
    fixeds: Seq<FixedInterval>,
    k: int,
) -> bool {
    &&& fixeds[k].reg == univ.regs@[k].0
    &&& forall|a: int, c: int|
        0 <= a < c < fixeds[k].frags@.len() ==> (#[trigger] fixeds[k].frags@[a]).first.bits <= (
        #[trigger] fixeds[k].frags@[c]).first.bits
    &&& exists|ixs: Seq<int>| #[trigger] are_real_at(items, k, ixs) && Seq::new(
        fixeds[k].frags@.len(),
        |a: int| frag_of(fixeds[k].frags@[a]),
    ).to_multiset() == Seq::new(ixs.len(), |j: int| items[ixs[j]].frag).to_multiset()
}

/// The numbers of the fragments of the real registers with index `k`, each once.
pub open spec fn are_real_at(items: Seq<FragItem>, k: int, ixs: Seq<int>) -> bool {
    &&& ixs.no_duplicates()
    &&& forall|x: int| #[trigger]
        ixs.contains(x) <==> 0 <= x < items.len() && items[x].reg.bits < 0x8000_0000
            && items[x].reg.bits % 256 == k
}

/// What the intervals of any function are: the fragments of its values, merged. Also where an
/// instruction writes a register in two ways.
pub proof fn lemma_intervals_all(
    model: FunctionModel,
    univ: RealRegUniverse,
    cfg: CFGInfo,
    rvb: RegVecsAndBounds,
    info: AnalysisInfo,
) -> (w: (Seq<FragItem>, MergeInput, spec_fn(Reg, int) -> int))
    requires
        inputs_fit(model, cfg, rvb),
        results_held(model, cfg, rvb),
        values_before(model, cfg, rvb, model.blocks.len() as int) <= u32::MAX,
        run_gives(model, univ, Ok(cfg), Ok(rvb), Ok(info)),
    ensures
        are_fragments(model, rvb, info.liveins@, info.liveouts@, w.0),
        holds_fragments(cfg, w.0, w.1),
        tells_interval(w.1, info.intervals.virtuals@, w.2),
        info.intervals.fixeds@.len() == univ.regs@.len(),
        forall|k: int|
            0 <= k < univ.regs@.len() ==> #[trigger] is_fixed_of(
                univ,
                w.0,
                info.intervals.fixeds@,
                k,
            ),
{
    let (items, groups, of) = lemma_behind_all(model, univ, cfg, rvb, info);
    let input = merge_input(cfg, items);
    lemma_cut_all(model, rvb, info.liveins@, info.liveouts@, items);
    let owners = item_regs(items);
    lemma_positions(owners);
    assert forall|b: int| 0 <= b < input.succs.len() implies #[trigger] input.succs[b]
        == cfg.succ_map@[b]@ by {}
    assert forall|x: int| 0 <= x < items.len() implies {
        &&& input.frags[x] == (#[trigger] items[x]).frag
        &&& input.metrics[x] == items[x].metrics
        &&& input.lists.contains_key(items[x].reg)
        &&& exists|p: int|
            0 <= p < input.lists[items[x].reg].len() && (
            #[trigger] input.lists[items[x].reg][p]).ix == x
    } by {
        assert(owners[x] == items[x].reg);
        assert(owners.contains(owners[x]));
        let l = input.lists[owners[x]];
        assert(l.contains(RangeFragIx { ix: x as u32 }));
        let p = choose|p: int| 0 <= p < l.len() && l[p] == (RangeFragIx { ix: x as u32 });
        assert(input.lists[items[x].reg][p].ix == x);
    }
    assert forall|r: Reg, p: int|
        input.lists.contains_key(r) && 0 <= p < input.lists[r].len() implies (
    #[trigger] input.lists[r][p]).ix < items.len() && items[input.lists[r][p].ix as int].reg
        == r by {
        assert(owners[input.lists[r][p].ix as int] == r);
    }
    let fixeds = info.intervals.fixeds@;
    let pieces = group_pieces(listing(items), item_frags(items), groups);
    assert forall|k: int| 0 <= k < univ.regs@.len() implies #[trigger] is_fixed_of(
        univ,
        items,
        fixeds,
        k,
    ) by {
        let fixed = fixeds[k];
        assert(is_sorted_fixed(univ, pieces, k, fixed));
        let ixs = lemma_fixed_listing(univ, items, cfg.succs(), groups, k, fixed);
        assert(are_real_at(items, k, ixs)) by {
            assert forall|x: int| #[trigger]
                ixs.contains(x) <==> 0 <= x < items.len() && items[x].reg.bits < 0x8000_0000
                    && items[x].reg.bits % 256 == k by {
                assert(ixs.contains(x) <==> 0 <= x < items.len() && is_real_with(items[x].reg, k));
            }
        }
        assert(Seq::new(fixed.frags@.len(), |a: int| frag_of(fixed.frags@[a])) =~= frag_views(
            fixed.frags@,
        ));
        assert(Seq::new(ixs.len(), |j: int| items[ixs[j]].frag) =~= ixs.map_values(
            |x: int| items[x].frag,
        ));
    }
    (items, input, of)
}

/// The position, in the list of `r`, of the value that starts at `s`.
spec fn pos_at(items: Seq<FragItem>, r: Reg, s: int) -> int {
    choose|p: int| #[trigger] is_pos(items, r, s, p)
}

/// The value at position `p` of the list of `r` starts at `s`.
spec fn is_pos(items: Seq<FragItem>, r: Reg, s: int, p: int) -> bool {
    &&& listing(items).contains_key(r)
    &&& 0 <= p < listing(items)[r].len()
    &&& items[listing(items)[r][p].ix as int].frag.first == s
}

/// Each value has one position.
proof fn lemma_pos(items: Seq<FragItem>, r: Reg, s: int, p: int)
    requires
        items.len() <= u32::MAX,
        forall|x: int, y: int|
            0 <= x < y < items.len() && (#[trigger] items[x]).reg == (#[trigger] items[y]).reg
                ==> items[x].frag.first != items[y].frag.first,
        is_pos(items, r, s, p),
    ensures
        pos_at(items, r, s) == p,
        0 <= listing(items)[r][p].ix < items.len(),
        items[listing(items)[r][p].ix as int].reg == r,
{
    let q = pos_at(items, r, s);
    assert(is_pos(items, r, s, q));
    let m = listing(items);
    let owners = item_regs(items);
    lemma_positions(owners);
    let x = m[r][p].ix as int;
    let y = m[r][q].ix as int;
    assert(owners[x] == r && owners[y] == r);
    assert(items[x].reg == r && items[y].reg == r);
    if p < q {
        assert(m[r][p].ix < m[r][q].ix);
    } else if q < p {
        assert(m[r][q].ix < m[r][p].ix);
    }
}

/// The value of `r` that starts at the point `s` of block `b`: its number.
proof fn lemma_value(
    model: FunctionModel,
    rvb: RegVecsAndBounds,
    info: AnalysisInfo,
    items: Seq<FragItem>,
    b: int,
    r: Reg,
    s: int,
) -> (x: int)
    requires
        info.liveins@.len() == model.blocks.len(),
        items.len() <= u32::MAX,
        are_values(model, rvb, set_views(info.liveins@), set_views(info.liveouts@), items),
        value_starts(model, rvb, info, b, r, s),
    ensures
        0 <= x < items.len(),
        items[x].reg == r,
        items[x].metrics.bix.ix == b,
        items[x].frag.first == s,
        is_pos(items, r, s, pos_at(items, r, s)),
        listing(items)[r][pos_at(items, r, s)].ix == x,
{
    assert(set_views(info.liveins@)[b] == info.liveins@[b]@);
    assert(has_value(items, b, r, s));
    let x = choose|x: int|
        {
            &&& 0 <= x < items.len()
            &&& (#[trigger] items[x]).reg == r
            &&& items[x].metrics.bix.ix == b
            &&& items[x].frag.first == s
        };
    let p = lemma_position(items, x);
    assert(is_pos(items, r, s, p));
    lemma_pos(items, r, s, p);
    x
}

/// A value that reaches the end of its block holds throughout.
proof fn lemma_reaches_end(
    model: FunctionModel,
    rvb: RegVecsAndBounds,
    livein: Set<Reg>,
    liveout: Set<Reg>,
    b: int,
    r: Reg,
    f: FragView,
)
    requires
        0 <= b < model.blocks.len(),
        is_value(model, rvb, livein, liveout, b, r, f),
        f.last == 4 * last_of(model, b) + 2,
    ensures
        governs(model, rvb, livein, b, r, f.first, f.last),
{
    let end = 4 * last_of(model, b) + 2;
    if !(liveout.contains(r) && governs(model, rvb, livein, b, r, f.first, end)) {
        if f.last != f.first {
            if exists|i: int| #[trigger] notes_mod(f.mentions, i) && f.last == 4 * i + 2 {
                let i = choose|i: int| #[trigger] notes_mod(f.mentions, i) && f.last == 4 * i + 2;
                let a = choose|a: int|
                    0 <= a < f.mentions.len() && (#[trigger] f.mentions[a]).0.ix == i
                        && f.mentions[a].1.modified;
                assert(at(model, b, f.mentions[a].0.ix as int));
            }
        }
    }
}

/// The interval of each value.
pub open spec fn tells_home(
    model: FunctionModel,
    cfg: CFGInfo,
    rvb: RegVecsAndBounds,
    info: AnalysisInfo,
    home: spec_fn(Reg, int) -> int,
) -> bool {
    let virtuals = info.intervals.virtuals@;
    &&& forall|b: int, r: Reg, s: int|
        r.bits >= 0x8000_0000 && #[trigger] value_starts(model, rvb, info, b, r, s) ==> {
            &&& 0 <= home(r, s) < virtuals.len()
            &&& virtuals[home(r, s)].vreg.reg == r
            &&& virtuals[home(r, s)].start.bits <= s <= virtuals[home(r, s)].end.bits
        }
    &&& forall|r: Reg, b: int, s: int, c: BlockIx|
        r.bits >= 0x8000_0000 && #[trigger] is_handed_on(model, cfg, rvb, info, r, b, s, c)
            ==> home(r, s) == home(r, 4 * first_of(model, c.ix as int) + 1)
    &&& forall|r: Reg, set: Set<int>, b: int, s: int, c: int, t: int|
        r.bits >= 0x8000_0000 && #[trigger] is_apart(model, cfg, rvb, info, r, set)
            && #[trigger] value_starts(model, rvb, info, b, r, s) && #[trigger] value_starts(
            model,
            rvb,
            info,
            c,
            r,
            t,
        ) && home(r, s) == home(r, t) ==> (set.contains(s) <==> set.contains(t))
    &&& forall|b: int, r: Reg, s: int, c: int, t: int|
        #![trigger value_starts(model, rvb, info, b, r, s), value_starts(model, rvb, info, c, r, t)]
        r.bits >= 0x8000_0000 && comes_first(model, rvb, info, r, b, s, c, t) ==> home(r, s)
            < home(r, t)
    &&& forall|j: int, k: int, l: int|
        0 <= j < k < l < virtuals.len() && (#[trigger] virtuals[j]).vreg.reg == (
        #[trigger] virtuals[l]).vreg.reg ==> (#[trigger] virtuals[k]).vreg.reg
            == virtuals[j].vreg.reg
}

/// The value of `r` that starts at the point `s` of block `b` touches no end of the block: it does
/// not start with the block, does not live on, and is not written or modified by the last
/// instruction.
pub open spec fn is_local(
    model: FunctionModel,
    rvb: RegVecsAndBounds,
    info: AnalysisInfo,
    b: int,
    r: Reg,
    s: int,
) -> bool {
    let end = 4 * last_of(model, b) + 2;
    &&& s != 4 * first_of(model, b) + 1
    &&& s != end
    &&& !lives_on(model, rvb, info, b, r, s)
    &&& !(mods_at(rvb, last_of(model, b), r) && value_at(model, rvb, info, b, r, s, end))
}

/// The interval of the first value stands before that of the second: the first touches no end of
/// its block, and if the second does not either, it comes later, block by block.
pub open spec fn comes_first(
    model: FunctionModel,
    rvb: RegVecsAndBounds,
    info: AnalysisInfo,
    r: Reg,
    b: int,
    s: int,
    c: int,
    t: int,
) -> bool {
    &&& value_starts(model, rvb, info, b, r, s)
    &&& value_starts(model, rvb, info, c, r, t)
    &&& s != t
    &&& is_local(model, rvb, info, b, r, s)
    &&& is_local(model, rvb, info, c, r, t) ==> b < c || b == c && s < t
}

/// Which fragments touch an end of their block.
proof fn lemma_local_kind(
    model: FunctionModel,
    rvb: RegVecsAndBounds,
    info: AnalysisInfo,
    items: Seq<FragItem>,
    x: int,
)
    requires
        code_fits(model, rvb),
        info.liveins@.len() == model.blocks.len(),
        info.liveouts@.len() == model.blocks.len(),
        are_values(model, rvb, set_views(info.liveins@), set_views(info.liveouts@), items),
        0 <= x < items.len(),
    ensures
        items[x].metrics.kind is Local <==> is_local(
            model,
            rvb,
            info,
            items[x].metrics.bix.ix as int,
            items[x].reg,
            items[x].frag.first,
        ),
{
    let b = items[x].metrics.bix.ix as int;
    let r = items[x].reg;
    let f = items[x].frag;
    let last = last_of(model, b);
    let end = 4 * last + 2;
    assert(kind_fits(model, b, items[x].metrics.kind, f.first, f.last));
    assert(model.blocks[b].len >= 1);
    assert(at(model, b, last));
    assert(set_views(info.liveins@)[b] == info.liveins@[b]@);
    assert(set_views(info.liveouts@)[b] == info.liveouts@[b]@);
    assert(is_value(model, rvb, info.liveins@[b]@, info.liveouts@[b]@, b, r, f));
    if mods_at(rvb, last, r) && value_at(model, rvb, info, b, r, f.first, end) {
        assert(notes_mod(f.mentions, last));
    }
    if f.last == end && f.first != end && !lives_on(model, rvb, info, b, r, f.first) {
        let i = choose|i: int| #[trigger] notes_mod(f.mentions, i) && f.last == 4 * i + 2;
        assert(i == last);
    }
}

/// The order of the homes.
proof fn lemma_comes_first(
    model: FunctionModel,
    rvb: RegVecsAndBounds,
    info: AnalysisInfo,
    items: Seq<FragItem>,
    input: MergeInput,
    of: spec_fn(Reg, int) -> int,
    r: Reg,
    b: int,
    s: int,
    c: int,
    t: int,
)
    requires
        code_fits(model, rvb),
        frags_ready(model, rvb@, info.liveins@, info.liveouts@),
        are_items(model, rvb@, info.liveins@, info.liveouts@, items),
        stands_behind(model, rvb, info, items, input, of),
        r.bits >= 0x8000_0000,
        comes_first(model, rvb, info, r, b, s, c, t),
    ensures
        of(r, pos_at(items, r, s)) < of(r, pos_at(items, r, t)),
{
    let x = lemma_value(model, rvb, info, items, b, r, s);
    let y = lemma_value(model, rvb, info, items, c, r, t);
    let p = pos_at(items, r, s);
    let q = pos_at(items, r, t);
    lemma_local_kind(model, rvb, info, items, x);
    lemma_local_kind(model, rvb, info, items, y);
    lemma_positions(item_regs(items));
    assert(input.has(r, p) && input.has(r, q));
    assert(input.metrics[input.lists[r][p].ix as int] == items[x].metrics);
    assert(input.metrics[input.lists[r][q].ix as int] == items[y].metrics);
    if items[y].metrics.kind is Local {
        if y < x {
            lemma_frag_order(model, rvb, info.liveins@, info.liveouts@, items, y, x);
            assert(is_value(
                model,
                rvb,
                set_views(info.liveins@)[c],
                set_views(info.liveouts@)[c],
                c,
                r,
                items[y].frag,
            ));
        }
        if q < p {
            assert(listing(items)[r][q].ix < listing(items)[r][p].ix);
        }
    }
    assert(of(r, p) < of(r, q));
}

/// What one interval says of its values, which `home` tells.
pub open spec fn is_interval_of_values(
    model: FunctionModel,
    rvb: RegVecsAndBounds,
    info: AnalysisInfo,
    home: spec_fn(Reg, int) -> int,
    k: int,
) -> bool {
    let v = info.intervals.virtuals@[k];
    let r = v.vreg.reg;
    &&& r.bits >= 0x8000_0000
    &&& v.id.id == k
    &&& v.ancestor == Some(v.id)
    &&& well_listed(v.mentions@)
    // It starts where the first of its values starts.
    &&& exists|b: int, s: int| #[trigger]
        value_starts(model, rvb, info, b, r, s) && home(r, s) == k && v.start.bits == s
    // It notes what happens to its values, and nothing else.
    &&& forall|a: int|
        0 <= a < v.mentions@.len() ==> is_insn(model, (#[trigger] v.mentions@[a]).0.ix as int)
    &&& forall|b: int, i: int| #[trigger]
        at(model, b, i) ==> (notes_use(v.mentions@, i) <==> uses_at(rvb, i, r) && exists|s: int|
            #[trigger] value_at(model, rvb, info, b, r, s, 4 * i + 1) && home(r, s) == k)
    &&& forall|b: int, i: int| #[trigger]
        at(model, b, i) ==> (notes_mod(v.mentions@, i) <==> mods_at(rvb, i, r) && exists|s: int|
            #[trigger] value_at(model, rvb, info, b, r, s, 4 * i + 2) && home(r, s) == k)
    &&& forall|b: int, i: int| #[trigger]
        at(model, b, i) ==> (notes_def(v.mentions@, i) <==> defs_at(rvb, i, r) && home(
            r,
            4 * i + 2,
        ) == k)
    // It ends with the last of what happens to its values, or with a block after which one lives
    // on.
    &&& forall|i: int| #[trigger] notes_use(v.mentions@, i) ==> 4 * i + 1 <= v.end.bits
    &&& forall|i: int| #[trigger] notes_mod(v.mentions@, i) ==> 4 * i + 2 <= v.end.bits
    &&& forall|b: int, s: int| #[trigger]
        lives_on(model, rvb, info, b, r, s) && home(r, s) == k ==> 4 * last_of(model, b) + 2
            <= v.end.bits
    &&& {
        ||| exists|b: int, s: int| #[trigger]
            value_starts(model, rvb, info, b, r, s) && home(r, s) == k && v.end.bits == s
        ||| exists|i: int| #[trigger] notes_use(v.mentions@, i) && v.end.bits == 4 * i + 1
        ||| exists|i: int| #[trigger] notes_mod(v.mentions@, i) && v.end.bits == 4 * i + 2
        ||| exists|b: int, s: int| #[trigger]
            lives_on(model, rvb, info, b, r, s) && home(r, s) == k && v.end.bits == 4 * last_of(
                model,
                b,
            ) + 2
    }
}

/// What stands behind a result.
spec fn stands_behind(
    model: FunctionModel,
    rvb: RegVecsAndBounds,
    info: AnalysisInfo,
    items: Seq<FragItem>,
    input: MergeInput,
    of: spec_fn(Reg, int) -> int,
) -> bool {
    &&& writes_plainly(model, rvb)
    &&& info.liveins@.len() == model.blocks.len()
    &&& info.liveouts@.len() == model.blocks.len()
    &&& items.len() <= u32::MAX
    &&& input.lists == listing(items)
    &&& input.frags == item_frags(items)
    &&& input.metrics == item_metrics(items)
    &&& are_values(model, rvb, set_views(info.liveins@), set_views(info.liveouts@), items)
    &&& tells_interval(input, info.intervals.virtuals@, of)
}

/// A fragment of an interval is a value that is at home there.
proof fn lemma_member_value(
    model: FunctionModel,
    rvb: RegVecsAndBounds,
    info: AnalysisInfo,
    items: Seq<FragItem>,
    input: MergeInput,
    of: spec_fn(Reg, int) -> int,
    r: Reg,
    p: int,
) -> (x: int)
    requires
        stands_behind(model, rvb, info, items, input, of),
        input.has(r, p),
    ensures
        x == input.lists[r][p].ix,
        0 <= x < items.len(),
        items[x].reg == r,
        input.frags[x] == items[x].frag,
        input.metrics[x] == items[x].metrics,
        items[x].metrics.bix.ix < model.blocks.len(),
        value_starts(
            model,
            rvb,
            info,
            items[x].metrics.bix.ix as int,
            r,
            items[x].frag.first,
        ),
        is_value(
            model,
            rvb,
            info.liveins@[items[x].metrics.bix.ix as int]@,
            info.liveouts@[items[x].metrics.bix.ix as int]@,
            items[x].metrics.bix.ix as int,
            r,
            items[x].frag,
        ),
        pos_at(items, r, items[x].frag.first) == p,
{
    let x = input.lists[r][p].ix as int;
    assert(is_pos(items, r, items[x].frag.first, p));
    lemma_pos(items, r, items[x].frag.first, p);
    let b = items[x].metrics.bix.ix as int;
    assert(set_views(info.liveins@)[b] == info.liveins@[b]@);
    assert(set_views(info.liveouts@)[b] == info.liveouts@[b]@);
    x
}

/// The fragments are the values of `r` that are at home in interval `k`; `blocks` tells the block
/// of each.
spec fn are_members(
    model: FunctionModel,
    rvb: RegVecsAndBounds,
    info: AnalysisInfo,
    home: spec_fn(Reg, int) -> int,
    r: Reg,
    k: int,
    frags: Seq<FragView>,
    blocks: Seq<int>,
) -> bool {
    &&& blocks.len() == frags.len() >= 1
    &&& forall|q: int|
        0 <= q < frags.len() ==> #[trigger] is_member(
            model,
            rvb,
            info,
            home,
            r,
            k,
            blocks[q],
            frags[q],
        )
    &&& forall|b: int, s: int| #[trigger]
        value_starts(model, rvb, info, b, r, s) && home(r, s) == k ==> has_member(
            frags,
            blocks,
            b,
            s,
        )
}

/// The fragment is a value of `r` in block `b`, at home in interval `k`.
spec fn is_member(
    model: FunctionModel,
    rvb: RegVecsAndBounds,
    info: AnalysisInfo,
    home: spec_fn(Reg, int) -> int,
    r: Reg,
    k: int,
    b: int,
    f: FragView,
) -> bool {
    &&& value_starts(model, rvb, info, b, r, f.first)
    &&& is_value(model, rvb, info.liveins@[b]@, info.liveouts@[b]@, b, r, f)
    &&& home(r, f.first) == k
}

/// A fragment of block `b` starts at `s`.
spec fn has_member(frags: Seq<FragView>, blocks: Seq<int>, b: int, s: int) -> bool {
    exists|q: int| 0 <= q < frags.len() && (#[trigger] frags[q]).first == s && blocks[q] == b
}

proof fn lemma_members(
    model: FunctionModel,
    rvb: RegVecsAndBounds,
    info: AnalysisInfo,
    items: Seq<FragItem>,
    input: MergeInput,
    of: spec_fn(Reg, int) -> int,
    home: spec_fn(Reg, int) -> int,
    k: int,
) -> (w: (Seq<FragView>, Seq<int>))
    requires
        stands_behind(model, rvb, info, items, input, of),
        forall|r: Reg, s: int| #[trigger] home(r, s) == of(r, pos_at(items, r, s)),
        0 <= k < info.intervals.virtuals@.len(),
    ensures
        are_members(
            model,
            rvb,
            info,
            home,
            info.intervals.virtuals@[k].vreg.reg,
            k,
            w.0,
            w.1,
        ),
        is_hull(info.intervals.virtuals@[k], w.0),
{
    let v = info.intervals.virtuals@[k];
    let r = v.vreg.reg;
    let ps = choose|ps: Seq<int>| #[trigger]
        are_positions(input, of, r, k, ps) && is_hull(v, frags_of(input, r, ps));
    let frags = frags_of(input, r, ps);
    let blocks = Seq::new(
        ps.len(),
        |q: int| items[input.lists[r][ps[q]].ix as int].metrics.bix.ix as int,
    );
    assert forall|q: int| 0 <= q < frags.len() implies #[trigger] is_member(
        model,
        rvb,
        info,
        home,
        r,
        k,
        blocks[q],
        frags[q],
    ) by {
        assert(input.has(r, ps[q]));
        let x = lemma_member_value(model, rvb, info, items, input, of, r, ps[q]);
        assert(ps.contains(ps[q]));
        assert(of(r, ps[q]) == k);
    }
    assert forall|b: int, s: int| #[trigger]
        value_starts(model, rvb, info, b, r, s) && home(r, s) == k implies has_member(
        frags,
        blocks,
        b,
        s,
    ) by {
        let x = lemma_value(model, rvb, info, items, b, r, s);
        let p = pos_at(items, r, s);
        assert(input.has(r, p));
        assert(of(r, p) == k);
        let q = choose|q: int| 0 <= q < ps.len() && ps[q] == p;
        assert(frags[q] == items[x].frag);
    }
    (frags, blocks)
}

/// A fragment that notes an instruction is in the block of that instruction.
proof fn lemma_same_block(
    model: FunctionModel,
    rvb: RegVecsAndBounds,
    info: AnalysisInfo,
    r: Reg,
    c: int,
    f: FragView,
    b: int,
    i: int,
)
    requires
        writes_plainly(model, rvb),
        at(model, b, i),
        is_value(model, rvb, info.liveins@[c]@, info.liveouts@[c]@, c, r, f),
        notes_use(f.mentions, i) || notes_mod(f.mentions, i) || notes_def(f.mentions, i),
    ensures
        c == b,
{
    let a = if notes_use(f.mentions, i) {
        choose|a: int|
            0 <= a < f.mentions.len() && (#[trigger] f.mentions[a]).0.ix == i
                && f.mentions[a].1.used
    } else if notes_mod(f.mentions, i) {
        choose|a: int|
            0 <= a < f.mentions.len() && (#[trigger] f.mentions[a]).0.ix == i
                && f.mentions[a].1.modified
    } else {
        choose|a: int|
            0 <= a < f.mentions.len() && (#[trigger] f.mentions[a]).0.ix == i
                && f.mentions[a].1.defined
    };
    assert(at(model, c, f.mentions[a].0.ix as int));
}

proof fn lemma_interval_uses(
    model: FunctionModel,
    rvb: RegVecsAndBounds,
    info: AnalysisInfo,
    home: spec_fn(Reg, int) -> int,
    r: Reg,
    k: int,
    frags: Seq<FragView>,
    blocks: Seq<int>,
    b: int,
    i: int,
)
    requires
        writes_plainly(model, rvb),
        are_members(model, rvb, info, home, r, k, frags, blocks),
        at(model, b, i),
    ensures
        some_notes_use(frags, i) <==> uses_at(rvb, i, r) && exists|s: int| #[trigger]
            value_at(model, rvb, info, b, r, s, 4 * i + 1) && home(r, s) == k,
{
    if some_notes_use(frags, i) {
        let q = choose|q: int|
            0 <= q < frags.len() && notes_use((#[trigger] frags[q]).mentions, i);
        assert(is_member(model, rvb, info, home, r, k, blocks[q], frags[q]));
        lemma_same_block(model, rvb, info, r, blocks[q], frags[q], b, i);
        assert(value_at(model, rvb, info, b, r, frags[q].first, 4 * i + 1));
    }
    if uses_at(rvb, i, r) && exists|s: int| #[trigger]
        value_at(model, rvb, info, b, r, s, 4 * i + 1) && home(r, s) == k {
        let s = choose|s: int| #[trigger]
            value_at(model, rvb, info, b, r, s, 4 * i + 1) && home(r, s) == k;
        assert(value_starts(model, rvb, info, b, r, s));
        let q = choose|q: int|
            0 <= q < frags.len() && (#[trigger] frags[q]).first == s && blocks[q] == b;
        assert(is_member(model, rvb, info, home, r, k, blocks[q], frags[q]));
        assert(notes_use(frags[q].mentions, i));
    }
}

proof fn lemma_interval_mods(
    model: FunctionModel,
    rvb: RegVecsAndBounds,
    info: AnalysisInfo,
    home: spec_fn(Reg, int) -> int,
    r: Reg,
    k: int,
    frags: Seq<FragView>,
    blocks: Seq<int>,
    b: int,
    i: int,
)
    requires
        writes_plainly(model, rvb),
        are_members(model, rvb, info, home, r, k, frags, blocks),
        at(model, b, i),
    ensures
        some_notes_mod(frags, i) <==> mods_at(rvb, i, r) && exists|s: int| #[trigger]
            value_at(model, rvb, info, b, r, s, 4 * i + 2) && home(r, s) == k,
{
    if some_notes_mod(frags, i) {
        let q = choose|q: int|
            0 <= q < frags.len() && notes_mod((#[trigger] frags[q]).mentions, i);
        assert(is_member(model, rvb, info, home, r, k, blocks[q], frags[q]));
        lemma_same_block(model, rvb, info, r, blocks[q], frags[q], b, i);
        assert(value_at(model, rvb, info, b, r, frags[q].first, 4 * i + 2));
    }
    if mods_at(rvb, i, r) && exists|s: int| #[trigger]
        value_at(model, rvb, info, b, r, s, 4 * i + 2) && home(r, s) == k {
        let s = choose|s: int| #[trigger]
            value_at(model, rvb, info, b, r, s, 4 * i + 2) && home(r, s) == k;
        assert(value_starts(model, rvb, info, b, r, s));
        let q = choose|q: int|
            0 <= q < frags.len() && (#[trigger] frags[q]).first == s && blocks[q] == b;
        assert(is_member(model, rvb, info, home, r, k, blocks[q], frags[q]));
        assert(notes_mod(frags[q].mentions, i));
    }
}

proof fn lemma_interval_defs(
    model: FunctionModel,
    rvb: RegVecsAndBounds,
    info: AnalysisInfo,
    home: spec_fn(Reg, int) -> int,
    r: Reg,
    k: int,
    frags: Seq<FragView>,
    blocks: Seq<int>,
    b: int,
    i: int,
)
    requires
        writes_plainly(model, rvb),
        are_members(model, rvb, info, home, r, k, frags, blocks),
        at(model, b, i),
    ensures
        some_notes_def(frags, i) <==> defs_at(rvb, i, r) && home(r, 4 * i + 2) == k,
{
    if some_notes_def(frags, i) {
        let q = choose|q: int|
            0 <= q < frags.len() && notes_def((#[trigger] frags[q]).mentions, i);
        assert(is_member(model, rvb, info, home, r, k, blocks[q], frags[q]));
        lemma_same_block(model, rvb, info, r, blocks[q], frags[q], b, i);
    }
    if defs_at(rvb, i, r) && home(r, 4 * i + 2) == k {
        assert(value_starts(model, rvb, info, b, r, 4 * i + 2));
        let q = choose|q: int|
            0 <= q < frags.len() && (#[trigger] frags[q]).first == 4 * i + 2 && blocks[q] == b;
        assert(is_member(model, rvb, info, home, r, k, blocks[q], frags[q]));
        assert(notes_def(frags[q].mentions, i));
    }
}

/// Every mention of an interval is of an instruction of a block, and says something.
proof fn lemma_interval_listed(
    model: FunctionModel,
    rvb: RegVecsAndBounds,
    info: AnalysisInfo,
    home: spec_fn(Reg, int) -> int,
    v: VirtualInterval,
    k: int,
    frags: Seq<FragView>,
    blocks: Seq<int>,
    a: int,
)
    requires
        are_members(model, rvb, info, home, v.vreg.reg, k, frags, blocks),
        is_hull(v, frags),
        0 <= a < v.mentions@.len(),
    ensures
        is_insn(model, v.mentions@[a].0.ix as int),
        v.mentions@[a].1.used || v.mentions@[a].1.modified || v.mentions@[a].1.defined,
{
    let ms = v.mentions@;
    let i = ms[a].0.ix as int;
    assert(mentions_insn(ms, i));
    assert(some_mentions_insn(frags, i));
    let q = choose|q: int|
        0 <= q < frags.len() && mentions_insn((#[trigger] frags[q]).mentions, i);
    let c = choose|c: int|
        0 <= c < frags[q].mentions.len() && (#[trigger] frags[q].mentions[c]).0.ix == i;
    let b = blocks[q];
    assert(is_member(model, rvb, info, home, v.vreg.reg, k, b, frags[q]));
    assert(at(model, b, frags[q].mentions[c].0.ix as int));
    let m = frags[q].mentions[c].1;
    assert(m.used || m.modified || m.defined);
    if m.used {
        assert(notes_use(frags[q].mentions, i));
        assert(some_notes_use(frags, i));
        assert(notes_use(ms, i));
        let d = choose|d: int|
            0 <= d < ms.len() && (#[trigger] ms[d]).0.ix == i && ms[d].1.used;
        assert(d == a);
    } else if m.modified {
        assert(notes_mod(frags[q].mentions, i));
        assert(some_notes_mod(frags, i));
        assert(notes_mod(ms, i));
        let d = choose|d: int|
            0 <= d < ms.len() && (#[trigger] ms[d]).0.ix == i && ms[d].1.modified;
        assert(d == a);
    } else {
        assert(notes_def(frags[q].mentions, i));
        assert(some_notes_def(frags, i));
        assert(notes_def(ms, i));
        let d = choose|d: int|
            0 <= d < ms.len() && (#[trigger] ms[d]).0.ix == i && ms[d].1.defined;
        assert(d == a);
    }
}

/// Where an interval ends.
spec fn end_told(
    model: FunctionModel,
    rvb: RegVecsAndBounds,
    info: AnalysisInfo,
    home: spec_fn(Reg, int) -> int,
    v: VirtualInterval,
    k: int,
) -> bool {
    let r = v.vreg.reg;
    &&& forall|i: int| #[trigger] notes_use(v.mentions@, i) ==> 4 * i + 1 <= v.end.bits
    &&& forall|i: int| #[trigger] notes_mod(v.mentions@, i) ==> 4 * i + 2 <= v.end.bits
    &&& forall|b: int, s: int| #[trigger]
        lives_on(model, rvb, info, b, r, s) && home(r, s) == k ==> 4 * last_of(model, b) + 2
            <= v.end.bits
    &&& {
        ||| exists|b: int, s: int| #[trigger]
            value_starts(model, rvb, info, b, r, s) && home(r, s) == k && v.end.bits == s
        ||| exists|i: int| #[trigger] notes_use(v.mentions@, i) && v.end.bits == 4 * i + 1
        ||| exists|i: int| #[trigger] notes_mod(v.mentions@, i) && v.end.bits == 4 * i + 2
        ||| exists|b: int, s: int| #[trigger]
            lives_on(model, rvb, info, b, r, s) && home(r, s) == k && v.end.bits == 4 * last_of(
                model,
                b,
            ) + 2
    }
}

proof fn lemma_interval_end(
    model: FunctionModel,
    rvb: RegVecsAndBounds,
    info: AnalysisInfo,
    home: spec_fn(Reg, int) -> int,
    v: VirtualInterval,
    k: int,
    frags: Seq<FragView>,
    blocks: Seq<int>,
)
    requires
        are_members(model, rvb, info, home, v.vreg.reg, k, frags, blocks),
        is_hull(v, frags),
    ensures
        end_told(model, rvb, info, home, v, k),
{
    let r = v.vreg.reg;
    let ms = v.mentions@;
    assert forall|i: int| #[trigger] notes_use(ms, i) implies 4 * i + 1 <= v.end.bits by {
        assert(some_notes_use(frags, i));
        let q = choose|q: int|
            0 <= q < frags.len() && notes_use((#[trigger] frags[q]).mentions, i);
        assert(is_member(model, rvb, info, home, r, k, blocks[q], frags[q]));
    }
    assert forall|i: int| #[trigger] notes_mod(ms, i) implies 4 * i + 2 <= v.end.bits by {
        assert(some_notes_mod(frags, i));
        let q = choose|q: int|
            0 <= q < frags.len() && notes_mod((#[trigger] frags[q]).mentions, i);
        assert(is_member(model, rvb, info, home, r, k, blocks[q], frags[q]));
    }
    assert forall|b: int, s: int| #[trigger]
        lives_on(model, rvb, info, b, r, s) && home(r, s) == k implies 4 * last_of(model, b) + 2
        <= v.end.bits by {
        assert(value_starts(model, rvb, info, b, r, s));
        let q = choose|q: int|
            0 <= q < frags.len() && (#[trigger] frags[q]).first == s && blocks[q] == b;
        assert(is_member(model, rvb, info, home, r, k, blocks[q], frags[q]));
        assert(frags[q].last == 4 * last_of(model, b) + 2);
    }
    let z = choose|q: int| 0 <= q < frags.len() && (#[trigger] frags[q]).last == v.end.bits;
    let b = blocks[z];
    let f = frags[z];
    assert(is_member(model, rvb, info, home, r, k, b, f));
    if lives_on(model, rvb, info, b, r, f.first) {
        assert(home(r, f.first) == k);
    } else if f.last == f.first {
        assert(value_starts(model, rvb, info, b, r, f.first));
    } else if exists|i: int| #[trigger] notes_use(f.mentions, i) && f.last == 4 * i + 1 {
        let i = choose|i: int| #[trigger] notes_use(f.mentions, i) && f.last == 4 * i + 1;
        assert(some_notes_use(frags, i));
        assert(notes_use(ms, i));
    } else {
        let i = choose|i: int| #[trigger] notes_mod(f.mentions, i) && f.last == 4 * i + 2;
        assert(some_notes_mod(frags, i));
        assert(notes_mod(ms, i));
    }
}

proof fn lemma_interval_of_values(
    model: FunctionModel,
    rvb: RegVecsAndBounds,
    info: AnalysisInfo,
    items: Seq<FragItem>,
    input: MergeInput,
    of: spec_fn(Reg, int) -> int,
    home: spec_fn(Reg, int) -> int,
    k: int,
)
    requires
        stands_behind(model, rvb, info, items, input, of),
        forall|r: Reg, s: int| #[trigger] home(r, s) == of(r, pos_at(items, r, s)),
        0 <= k < info.intervals.virtuals@.len(),
    ensures
        is_interval_of_values(model, rvb, info, home, k),
        forall|b: int, s: int|
            #[trigger] value_starts(
                model,
                rvb,
                info,
                b,
                info.intervals.virtuals@[k].vreg.reg,
                s,
            ) && home(info.intervals.virtuals@[k].vreg.reg, s) == k
                ==> info.intervals.virtuals@[k].start.bits <= s
                <= info.intervals.virtuals@[k].end.bits,
{
    let v = info.intervals.virtuals@[k];
    let r = v.vreg.reg;
    let ms = v.mentions@;
    let (frags, blocks) = lemma_members(model, rvb, info, items, input, of, home, k);
    let q0 = choose|q: int| 0 <= q < frags.len() && (#[trigger] frags[q]).first == v.start.bits;
    assert(is_member(model, rvb, info, home, r, k, blocks[q0], frags[q0]));
    assert(value_starts(model, rvb, info, blocks[q0], r, v.start.bits as int));
    assert forall|b: int, s: int| #[trigger]
        value_starts(model, rvb, info, b, r, s) && home(r, s) == k implies v.start.bits <= s
        <= v.end.bits by {
        let q = choose|q: int|
            0 <= q < frags.len() && (#[trigger] frags[q]).first == s && blocks[q] == b;
        assert(is_member(model, rvb, info, home, r, k, blocks[q], frags[q]));
    }
    assert forall|b: int, i: int| #[trigger] at(model, b, i) implies (notes_use(ms, i) <==> uses_at(
        rvb,
        i,
        r,
    ) && exists|s: int| #[trigger]
        value_at(model, rvb, info, b, r, s, 4 * i + 1) && home(r, s) == k) by {
        lemma_interval_uses(model, rvb, info, home, r, k, frags, blocks, b, i);
    }
    assert forall|b: int, i: int| #[trigger] at(model, b, i) implies (notes_mod(ms, i) <==> mods_at(
        rvb,
        i,
        r,
    ) && exists|s: int| #[trigger]
        value_at(model, rvb, info, b, r, s, 4 * i + 2) && home(r, s) == k) by {
        lemma_interval_mods(model, rvb, info, home, r, k, frags, blocks, b, i);
    }
    assert forall|b: int, i: int| #[trigger] at(model, b, i) implies (notes_def(ms, i) <==> defs_at(
        rvb,
        i,
        r,
    ) && home(r, 4 * i + 2) == k) by {
        lemma_interval_defs(model, rvb, info, home, r, k, frags, blocks, b, i);
    }
    assert forall|a: int| 0 <= a < ms.len() implies is_insn(
        model,
        (#[trigger] ms[a]).0.ix as int,
    ) && (ms[a].1.used || ms[a].1.modified || ms[a].1.defined) by {
        lemma_interval_listed(model, rvb, info, home, v, k, frags, blocks, a);
    }
    lemma_interval_end(model, rvb, info, home, v, k, frags, blocks);
    assert(well_listed(ms));
}

/// What the intervals of virtual registers are. Every value has one interval, its home, which
/// spans where the value starts. Values that are handed on along a jump share it with what they
/// are handed on to, and no others share one: two values that a set of values tells apart, into
/// which and out of which none is handed on, have different homes. An interval starts where its
/// first value starts, notes exactly what happens to its values, and ends with the last of that,
/// or where a block ends after which one of its values lives on. The intervals of one register
/// stand together, and first those of values that touch no end of their block, block by block and
/// in the order of the program.
pub proof fn lemma_intervals(
    model: FunctionModel,
    univ: RealRegUniverse,
    cfg: CFGInfo,
    rvb: RegVecsAndBounds,
    info: AnalysisInfo,
) -> (home: spec_fn(Reg, int) -> int)
    requires
        was_analysed(model, univ, cfg, rvb, info),
    ensures
        tells_home(model, cfg, rvb, info, home),
        forall|k: int|
            0 <= k < info.intervals.virtuals@.len() ==> #[trigger] is_interval_of_values(
                model,
                rvb,
                info,
                home,
                k,
            ),
{
    let (items, input, of) = lemma_behind(model, univ, cfg, rvb, info);
    let virtuals = info.intervals.virtuals@;
    let home = |r: Reg, s: int| of(r, pos_at(items, r, s));
    assert forall|k: int| 0 <= k < virtuals.len() implies #[trigger] is_interval_of_values(
        model,
        rvb,
        info,
        home,
        k,
    ) by {
        lemma_interval_of_values(model, rvb, info, items, input, of, home, k);
    }
    assert forall|b: int, r: Reg, s: int|
        r.bits >= 0x8000_0000 && #[trigger] value_starts(model, rvb, info, b, r, s) implies {
        &&& 0 <= home(r, s) < virtuals.len()
        &&& virtuals[home(r, s)].vreg.reg == r
        &&& virtuals[home(r, s)].start.bits <= s <= virtuals[home(r, s)].end.bits
    } by {
        let x = lemma_value(model, rvb, info, items, b, r, s);
        assert(input.has(r, pos_at(items, r, s)));
        assert(0 <= of(r, pos_at(items, r, s)) < virtuals.len());
        lemma_interval_of_values(model, rvb, info, items, input, of, home, home(r, s));
    }
    assert forall|r: Reg, b: int, s: int, c: BlockIx|
        r.bits >= 0x8000_0000 && #[trigger] is_handed_on(
            model,
            cfg,
            rvb,
            info,
            r,
            b,
            s,
            c,
        ) implies home(r, s) == home(r, 4 * first_of(model, c.ix as int) + 1) by {
        lemma_handed_on_joined(model, cfg, rvb, info, items, input, of, r, b, s, c);
    }
    assert forall|r: Reg, set: Set<int>, b: int, s: int, c: int, t: int|
        r.bits >= 0x8000_0000 && #[trigger] is_apart(model, cfg, rvb, info, r, set)
            && #[trigger] value_starts(model, rvb, info, b, r, s) && #[trigger] value_starts(
            model,
            rvb,
            info,
            c,
            r,
            t,
        ) && home(r, s) == home(r, t) implies (set.contains(s) <==> set.contains(t)) by {
        let x = lemma_value(model, rvb, info, items, b, r, s);
        let y = lemma_value(model, rvb, info, items, c, r, t);
        let p = pos_at(items, r, s);
        let q = pos_at(items, r, t);
        let places = Set::new(
            |u: int| set.contains(items[listing(items)[r][u].ix as int].frag.first),
        );
        lemma_apart_closed(model, univ, cfg, rvb, info, items, input, of, r, set, places);
        assert(input.has(r, p) && input.has(r, q));
        assert(of(r, p) == of(r, q));
        assert(places.contains(p) == set.contains(s));
        assert(places.contains(q) == set.contains(t));
    }
    assert forall|b: int, r: Reg, s: int, c: int, t: int|
        #![trigger value_starts(model, rvb, info, b, r, s), value_starts(model, rvb, info, c, r, t)]
        r.bits >= 0x8000_0000 && comes_first(model, rvb, info, r, b, s, c, t) implies home(r, s)
        < home(r, t) by {
        lemma_comes_first(model, rvb, info, items, input, of, r, b, s, c, t);
    }
    home
}

/// A value that is handed on and what it is handed on to have one home.
proof fn lemma_handed_on_joined(
    model: FunctionModel,
    cfg: CFGInfo,
    rvb: RegVecsAndBounds,
    info: AnalysisInfo,
    items: Seq<FragItem>,
    input: MergeInput,
    of: spec_fn(Reg, int) -> int,
    r: Reg,
    b: int,
    s: int,
    c: BlockIx,
)
    requires
        inputs_fit(model, cfg, rvb),
        stands_behind(model, rvb, info, items, input, of),
        input.succs == cfg.succs(),
        r.bits >= 0x8000_0000,
        is_handed_on(model, cfg, rvb, info, r, b, s, c),
    ensures
        of(r, pos_at(items, r, s)) == of(
            r,
            pos_at(items, r, 4 * first_of(model, c.ix as int) + 1),
        ),
{
    let k = choose|k: int| 0 <= k < cfg.succ_map@[b]@.len() && cfg.succ_map@[b]@[k] == c;
    assert(cfg.succ_map@[b]@[k].ix < model.blocks.len());
    let t = 4 * first_of(model, c.ix as int) + 1;
    assert(value_starts(model, rvb, info, b, r, s));
    assert(value_starts(model, rvb, info, c.ix as int, r, t));
    let x = lemma_value(model, rvb, info, items, b, r, s);
    let y = lemma_value(model, rvb, info, items, c.ix as int, r, t);
    let p = pos_at(items, r, s);
    let q = pos_at(items, r, t);
    assert(input.has(r, p) && input.has(r, q));
    assert(set_views(info.liveins@)[b] == info.liveins@[b]@);
    assert(set_views(info.liveouts@)[b] == info.liveouts@[b]@);
    let f = items[x].frag;
    assert(f.last == 4 * last_of(model, b) + 2);
    assert(kind_fits(model, b, items[x].metrics.kind, f.first, f.last));
    assert(kind_fits(
        model,
        c.ix as int,
        items[y].metrics.kind,
        items[y].frag.first,
        items[y].frag.last,
    ));
    assert(input.succs[b] == cfg.succ_map@[b]@);
    assert(input.metrics[x] == items[x].metrics && input.metrics[y] == items[y].metrics);
    assert(items[y].metrics.bix == c);
    assert(leads_to(input, r, p, q));
    assert(of(r, p) == of(r, q));
}

/// A set of values into which and out of which none is handed on is a closed set of fragments.
proof fn lemma_apart_closed(
    model: FunctionModel,
    univ: RealRegUniverse,
    cfg: CFGInfo,
    rvb: RegVecsAndBounds,
    info: AnalysisInfo,
    items: Seq<FragItem>,
    input: MergeInput,
    of: spec_fn(Reg, int) -> int,
    r: Reg,
    set: Set<int>,
    places: Set<int>,
)
    requires
        was_analysed(model, univ, cfg, rvb, info),
        stands_behind(model, rvb, info, items, input, of),
        input.succs == cfg.succs(),
        is_apart(model, cfg, rvb, info, r, set),
        forall|u: int| #[trigger]
            places.contains(u) == set.contains(items[listing(items)[r][u].ix as int].frag.first),
    ensures
        is_closed(input, r, places),
{
    assert forall|p: int, q: int| #[trigger]
        input.has(r, p) && #[trigger] input.has(r, q) && leads_to(input, r, p, q) implies (
    places.contains(p) <==> places.contains(q)) by {
        let x = lemma_member_value(model, rvb, info, items, input, of, r, p);
        let y = lemma_member_value(model, rvb, info, items, input, of, r, q);
        let b = items[x].metrics.bix.ix as int;
        let c = items[y].metrics.bix;
        let f = items[x].frag;
        let g = items[y].frag;
        assert(kind_fits(model, b, items[x].metrics.kind, f.first, f.last));
        assert(kind_fits(model, c.ix as int, items[y].metrics.kind, g.first, g.last));
        assert(f.last == 4 * last_of(model, b) + 2);
        assert(g.first == 4 * first_of(model, c.ix as int) + 1);
        lemma_reaches_end(model, rvb, info.liveins@[b]@, info.liveouts@[b]@, b, r, f);
        assert(starts(model, rvb, info.liveins@[c.ix as int]@, c.ix as int, r, g.first));
        assert(info.liveins@[c.ix as int]@.contains(r));
        assert(input.succs[b] == cfg.succ_map@[b]@);
        assert(cfg.succ_map@[b]@.contains(c));
        let k = choose|k: int| 0 <= k < cfg.succ_map@[b]@.len() && cfg.succ_map@[b]@[k] == c;
        assert(info.liveins@[cfg.succ_map@[b]@[k].ix as int]@.contains(r));
        lemma_live_sets(model, univ, cfg, rvb, info, b, r);
        assert(info.liveouts@[b]@.contains(r));
        assert(is_handed_on(model, cfg, rvb, info, r, b, f.first, c));
    }
}

/// One of two values of `r` is handed on to the other along a jump. A value is told by its block
/// and the point where it starts.
pub open spec fn touch(
    model: FunctionModel,
    cfg: CFGInfo,
    rvb: RegVecsAndBounds,
    info: AnalysisInfo,
    r: Reg,
    v: (int, int),
    w: (int, int),
) -> bool {
    ||| w.1 == 4 * first_of(model, w.0) + 1 && is_handed_on(
        model,
        cfg,
        rvb,
        info,
        r,
        v.0,
        v.1,
        BlockIx { ix: w.0 as u32 },
    )
    ||| v.1 == 4 * first_of(model, v.0) + 1 && is_handed_on(
        model,
        cfg,
        rvb,
        info,
        r,
        w.0,
        w.1,
        BlockIx { ix: v.0 as u32 },
    )
}

/// A chain of values of `r`, each joined to the next by a jump with `r` live at both ends.
pub open spec fn is_value_chain(
    model: FunctionModel,
    cfg: CFGInfo,
    rvb: RegVecsAndBounds,
    info: AnalysisInfo,
    r: Reg,
    chain: Seq<(int, int)>,
) -> bool {
    &&& chain.len() >= 1
    &&& forall|k: int|
        0 <= k < chain.len() ==> value_starts(
            model,
            rvb,
            info,
            (#[trigger] chain[k]).0,
            r,
            chain[k].1,
        )
    &&& forall|k: int|
        0 <= k < chain.len() - 1 ==> touch(
            model,
            cfg,
            rvb,
            info,
            r,
            #[trigger] chain[k],
            chain[k + 1],
        )
}

/// The chain leads from one value to a value that starts at `t`.
spec fn leads(
    model: FunctionModel,
    cfg: CFGInfo,
    rvb: RegVecsAndBounds,
    info: AnalysisInfo,
    r: Reg,
    v: (int, int),
    t: int,
    chain: Seq<(int, int)>,
) -> bool {
    is_value_chain(model, cfg, rvb, info, r, chain) && chain[0] == v && chain.last().1 == t
}

/// A value is in one block.
proof fn lemma_one_block(
    model: FunctionModel,
    cfg: CFGInfo,
    rvb: RegVecsAndBounds,
    info: AnalysisInfo,
    r: Reg,
    b: int,
    c: int,
    s: int,
)
    requires
        inputs_fit(model, cfg, rvb),
        writes_plainly(model, rvb),
        value_starts(model, rvb, info, b, r, s),
        value_starts(model, rvb, info, c, r, s),
    ensures
        b == c,
{
    assert(model.blocks[b].len >= 1 && model.blocks[c].len >= 1);
    assert(at(model, b, first_of(model, b)));
    assert(at(model, c, first_of(model, c)));
    let i = (s - 1) / 4;
    assert(at(model, b, i));
    assert(at(model, c, i));
}

/// A chain can be made longer by a jump.
proof fn lemma_longer(
    model: FunctionModel,
    cfg: CFGInfo,
    rvb: RegVecsAndBounds,
    info: AnalysisInfo,
    r: Reg,
    v: (int, int),
    t: int,
    chain: Seq<(int, int)>,
    w: (int, int),
)
    requires
        leads(model, cfg, rvb, info, r, v, t, chain),
        value_starts(model, rvb, info, w.0, r, w.1),
        touch(model, cfg, rvb, info, r, chain.last(), w),
    ensures
        leads(model, cfg, rvb, info, r, v, w.1, chain.push(w)),
{
    let more = chain.push(w);
    assert forall|k: int| 0 <= k < more.len() - 1 implies touch(
        model,
        cfg,
        rvb,
        info,
        r,
        #[trigger] more[k],
        more[k + 1],
    ) by {
        if k < chain.len() - 1 {
            assert(more[k] == chain[k] && more[k + 1] == chain[k + 1]);
        }
    }
}

/// Two values of a virtual register share an interval only if a chain of jumps connects them, each
/// with the register live at both ends.
pub proof fn lemma_joined_by_jumps(
    model: FunctionModel,
    univ: RealRegUniverse,
    cfg: CFGInfo,
    rvb: RegVecsAndBounds,
    info: AnalysisInfo,
    home: spec_fn(Reg, int) -> int,
    r: Reg,
    v: (int, int),
    w: (int, int),
) -> (chain: Seq<(int, int)>)
    requires
        was_analysed(model, univ, cfg, rvb, info),
        tells_home(model, cfg, rvb, info, home),
        r.bits >= 0x8000_0000,
        value_starts(model, rvb, info, v.0, r, v.1),
        value_starts(model, rvb, info, w.0, r, w.1),
        home(r, v.1) == home(r, w.1),
    ensures
        is_value_chain(model, cfg, rvb, info, r, chain),
        chain[0] == v,
        chain.last() == w,
{
    let set = Set::new(
        |t: int|
            exists|chain: Seq<(int, int)>| #[trigger]
                leads(model, cfg, rvb, info, r, v, t, chain),
    );
    assert forall|b: int, s: int, c: BlockIx| #[trigger]
        is_handed_on(model, cfg, rvb, info, r, b, s, c) implies (set.contains(s) <==> set.contains(
        4 * first_of(model, c.ix as int) + 1,
    )) by {
        let t = 4 * first_of(model, c.ix as int) + 1;
        let k = choose|k: int| 0 <= k < cfg.succ_map@[b]@.len() && cfg.succ_map@[b]@[k] == c;
        assert(cfg.succ_map@[b]@[k].ix < model.blocks.len());
        assert(value_starts(model, rvb, info, b, r, s));
        assert(value_starts(model, rvb, info, c.ix as int, r, t));
        assert(BlockIx { ix: (c.ix as int) as u32 } == c);
        if set.contains(s) {
            let chain = choose|chain: Seq<(int, int)>| #[trigger]
                leads(model, cfg, rvb, info, r, v, s, chain);
            let last = chain[chain.len() - 1];
            lemma_one_block(model, cfg, rvb, info, r, last.0, b, s);
            lemma_longer(model, cfg, rvb, info, r, v, s, chain, (c.ix as int, t));
        }
        if set.contains(t) {
            let chain = choose|chain: Seq<(int, int)>| #[trigger]
                leads(model, cfg, rvb, info, r, v, t, chain);
            let last = chain[chain.len() - 1];
            lemma_one_block(model, cfg, rvb, info, r, last.0, c.ix as int, t);
            lemma_longer(model, cfg, rvb, info, r, v, t, chain, (b, s));
        }
    }
    assert(is_apart(model, cfg, rvb, info, r, set));
    assert(leads(model, cfg, rvb, info, r, v, v.1, seq![v]));
    assert(set.contains(v.1));
    assert(set.contains(w.1));
    let chain = choose|chain: Seq<(int, int)>| #[trigger]
        leads(model, cfg, rvb, info, r, v, w.1, chain);
    let last = chain[chain.len() - 1];
    lemma_one_block(model, cfg, rvb, info, r, last.0, w.0, w.1);
    chain
}

/// Two writes of a virtual register are noted in one interval only if jumps connect their values:
/// whatever set of values holds one of the two, and lets no value be handed on into it or out of
/// it, holds the other. A value is handed on along a jump if it is the last of its register in the
/// block that jumps, and the register is live at both ends of the jump.
pub proof fn lemma_values_apart(
    model: FunctionModel,
    univ: RealRegUniverse,
    cfg: CFGInfo,
    rvb: RegVecsAndBounds,
    info: AnalysisInfo,
    k: int,
    a: int,
    i: int,
    b: int,
    j: int,
    set: Set<int>,
)
    requires
        was_analysed(model, univ, cfg, rvb, info),
        0 <= k < info.intervals.virtuals@.len(),
        at(model, a, i),
        at(model, b, j),
        notes_def(info.intervals.virtuals@[k].mentions@, i),
        notes_def(info.intervals.virtuals@[k].mentions@, j),
        is_apart(model, cfg, rvb, info, info.intervals.virtuals@[k].vreg.reg, set),
    ensures
        set.contains(4 * i + 2) <==> set.contains(4 * j + 2),
{
    let home = lemma_intervals(model, univ, cfg, rvb, info);
    assert(is_interval_of_values(model, rvb, info, home, k));
    let r = info.intervals.virtuals@[k].vreg.reg;
    assert(value_starts(model, rvb, info, a, r, 4 * i + 2));
    assert(value_starts(model, rvb, info, b, r, 4 * j + 2));
}

/// Two writes of a virtual register are noted in one interval only if a chain of jumps connects the
/// values that they start.
pub proof fn lemma_writes_joined(
    model: FunctionModel,
    univ: RealRegUniverse,
    cfg: CFGInfo,
    rvb: RegVecsAndBounds,
    info: AnalysisInfo,
    k: int,
    a: int,
    i: int,
    b: int,
    j: int,
) -> (chain: Seq<(int, int)>)
    requires
        was_analysed(model, univ, cfg, rvb, info),
        0 <= k < info.intervals.virtuals@.len(),
        at(model, a, i),
        at(model, b, j),
        notes_def(info.intervals.virtuals@[k].mentions@, i),
        notes_def(info.intervals.virtuals@[k].mentions@, j),
    ensures
        is_value_chain(model, cfg, rvb, info, info.intervals.virtuals@[k].vreg.reg, chain),
        chain[0] == (a, 4 * i + 2),
        chain.last() == (b, 4 * j + 2),
{
    let home = lemma_intervals(model, univ, cfg, rvb, info);
    assert(is_interval_of_values(model, rvb, info, home, k));
    let r = info.intervals.virtuals@[k].vreg.reg;
    assert(value_starts(model, rvb, info, a, r, 4 * i + 2));
    assert(value_starts(model, rvb, info, b, r, 4 * j + 2));
    lemma_joined_by_jumps(
        model,
        univ,
        cfg,
        rvb,
        info,
        home,
        r,
        (a, 4 * i + 2),
        (b, 4 * j + 2),
    )
}

/// A fragment, read off its fields.
pub open spec fn frag_of(f: RangeFrag) -> FragView {
    FragView { first: f.first.bits as int, last: f.last.bits as int, mentions: f.mentions@ }
}

/// What the fixed intervals are: there is one for each register of the universe; its fragments
/// stand in the order in which they start; each is a value of a real register with that index; and
/// every value of every such register is there.
pub proof fn lemma_fixed_intervals(
    model: FunctionModel,
    univ: RealRegUniverse,
    cfg: CFGInfo,
    rvb: RegVecsAndBounds,
    info: AnalysisInfo,
    k: int,
)
    requires
        was_analysed(model, univ, cfg, rvb, info),
        0 <= k < univ.regs@.len(),
    ensures
        info.intervals.fixeds@.len() == univ.regs@.len(),
        info.intervals.fixeds@[k].reg == univ.regs@[k].0,
        forall|a: int, c: int|
            0 <= a < c < info.intervals.fixeds@[k].frags@.len() ==> (
            #[trigger] info.intervals.fixeds@[k].frags@[a]).first.bits <= (
            #[trigger] info.intervals.fixeds@[k].frags@[c]).first.bits,
        forall|a: int|
            0 <= a < info.intervals.fixeds@[k].frags@.len() ==> is_real_value(
                model,
                rvb,
                info,
                k,
                frag_of(#[trigger] info.intervals.fixeds@[k].frags@[a]),
            ),
        forall|b: int, r: Reg, s: int|
            r.bits < 0x8000_0000 && r.bits % 256 == k && #[trigger] value_starts(
                model,
                rvb,
                info,
                b,
                r,
                s,
            ) ==> exists|a: int|
                {
                    &&& 0 <= a < info.intervals.fixeds@[k].frags@.len()
                    &&& (#[trigger] info.intervals.fixeds@[k].frags@[a]).first.bits == s
                    &&& is_value(
                        model,
                        rvb,
                        info.liveins@[b]@,
                        info.liveouts@[b]@,
                        b,
                        r,
                        frag_of(info.intervals.fixeds@[k].frags@[a]),
                    )
                },
{
    lemma_results_fit(model, cfg, rvb);
    let (items, groups) = lemma_witness(model, univ, cfg, rvb, info);
    lemma_are_values(model, rvb, info.liveins@, info.liveouts@, items);
    assert(set_views(info.liveins@).len() == model.blocks.len());
    assert(set_views(info.liveouts@).len() == model.blocks.len());
    let fixed = info.intervals.fixeds@[k];
    let pieces = group_pieces(listing(items), item_frags(items), groups);
    assert(is_sorted_fixed(univ, pieces, k, fixed));
    lemma_fixed_complete(univ, items, cfg.succs(), groups, k, fixed);
    let views = frag_views(fixed.frags@);
    assert forall|a: int| 0 <= a < fixed.frags@.len() implies is_real_value(
        model,
        rvb,
        info,
        k,
        frag_of(#[trigger] fixed.frags@[a]),
    ) by {
        assert(views[a] == frag_of(fixed.frags@[a]));
        assert(views.contains(views[a]));
        assert(has_real_frag(items, k, views[a]));
        let x = choose|x: int|
            0 <= x < items.len() && is_real_with((#[trigger] items[x]).reg, k) && items[x].frag
                == views[a];
        let b = items[x].metrics.bix.ix as int;
        assert(set_views(info.liveins@)[b] == info.liveins@[b]@);
        assert(set_views(info.liveouts@)[b] == info.liveouts@[b]@);
        assert(is_value(
            model,
            rvb,
            info.liveins@[b]@,
            info.liveouts@[b]@,
            b,
            items[x].reg,
            views[a],
        ));
    }
    assert forall|b: int, r: Reg, s: int|
        r.bits < 0x8000_0000 && r.bits % 256 == k && #[trigger] value_starts(
            model,
            rvb,
            info,
            b,
            r,
            s,
        ) implies exists|a: int|
        {
            &&& 0 <= a < fixed.frags@.len()
            &&& (#[trigger] fixed.frags@[a]).first.bits == s
            &&& is_value(
                model,
                rvb,
                info.liveins@[b]@,
                info.liveouts@[b]@,
                b,
                r,
                frag_of(fixed.frags@[a]),
            )
        } by {
        let x = lemma_value(model, rvb, info, items, b, r, s);
        assert(set_views(info.liveins@)[b] == info.liveins@[b]@);
        assert(set_views(info.liveouts@)[b] == info.liveouts@[b]@);
        assert(is_real_with(items[x].reg, k));
        assert(has_real_frag(items, k, items[x].frag));
        assert(views.contains(items[x].frag));
        let a = choose|a: int| 0 <= a < views.len() && views[a] == items[x].frag;
        assert(views[a] == frag_of(fixed.frags@[a]));
        assert(fixed.frags@[a].first.bits == s);
    }
}

/// The fragment is a value of a real register with index `k`.
pub open spec fn is_real_value(
    model: FunctionModel,
    rvb: RegVecsAndBounds,
    info: AnalysisInfo,
    k: int,
    f: FragView,
) -> bool {
    exists|b: int, r: Reg|
        {
            &&& 0 <= b < model.blocks.len()
            &&& r.bits < 0x8000_0000
            &&& r.bits % 256 == k
            &&& #[trigger] is_value(
                model,
                rvb,
                info.liveins@[b]@,
                info.liveouts@[b]@,
                b,
                r,
                f,
            )
        }
}

/// Where each real register is the one that the universe has at its index, no two fragments of a
/// fixed interval overlap, and none is there twice.
pub proof fn lemma_fixed_apart(
    model: FunctionModel,
    univ: RealRegUniverse,
    cfg: CFGInfo,
    rvb: RegVecsAndBounds,
    info: AnalysisInfo,
    k: int,
    a: int,
    c: int,
)
    requires
        was_analysed(model, univ, cfg, rvb, info),
        forall|b: int, i: int, r: Reg| #[trigger]
            at(model, b, i) && r.bits < 0x8000_0000 && #[trigger] mentions_at(rvb, i, r)
                ==> r.bits % 256 < univ.regs@.len() && univ.regs@[(r.bits % 256) as int].0.reg == r,
        0 <= k < info.intervals.fixeds@.len(),
        0 <= a < c < info.intervals.fixeds@[k].frags@.len(),
    ensures
        info.intervals.fixeds@[k].frags@[a].last.bits
            < info.intervals.fixeds@[k].frags@[c].first.bits,
{
    lemma_results_fit(model, cfg, rvb);
    lemma_plainly(model, rvb);
    assert forall|i: int, r: Reg|
        model.holds(i) && #[trigger] rvb@[i].mentions(r) && r.spec_is_real() implies r.real_index()
        < univ.regs@.len() && univ.regs@[r.real_index()].0.reg == r by {
        let b = choose|b: int|
            0 <= b < model.blocks.len() && (#[trigger] model.blocks[b]).lo() <= i
                < model.blocks[b].hi();
        assert(at(model, b, i));
        lemma_block_lists(model, rvb, b, i, r);
        assert(mentions_at(rvb, i, r));
    }
    assert(universe_fits(model, rvb, univ));
    lemma_fixed_sorted_apart(model, univ, cfg, rvb, info, k);
    assert(info.intervals.fixeds@[k].frags@[a].last@ < info.intervals.fixeds@[k].frags@[c].first@);
}

} // verus!
