//! What the fragments of a function are, told in plain words.

use crate::block_model::{
    add_positions, frag_kind, item_frags, item_metrics, item_regs, lemma_positions, FragItem,
    FragView,
};
use crate::data_structures::{Mention, RangeFragIx, Reg, RegVecsAndBounds};
use crate::fixed_properties::{
    all_apart, apart, blocks_disjoint, lemma_items_apart, writes_once,
};
use crate::frag_properties::{ends_at_event, ends_well, records};
use crate::function::FunctionModel;
use crate::interval_properties::{
    has_item_in, item_ends, lemma_function_covers, lemma_function_records, lemma_items_end,
};
use crate::liveness_laws::lemma_block_lists;
use crate::plain::{
    are_values, at, code_fits, defs_at, first_of, governs, has_value, is_value, kind_fits, last_of,
    mods_at, notes_def, notes_mod, notes_use, starts, uses_at, well_listed, writes_once_at,
    writes_plainly,
};
use crate::range_frags::{
    appended, are_items, block_code, frag_views, frags_ready, item_placed, ix_lists,
    lemma_items_placed, RangeFrag, RangeFragKind, RangeFragMetrics,
};
use crate::sparse_set::{set_views, SparseSet};
use vstd::prelude::*;

verus! {

/// What is known of the items of a function.
spec fn known(
    model: FunctionModel,
    rvb: RegVecsAndBounds,
    liveins: Seq<SparseSet>,
    liveouts: Seq<SparseSet>,
    items: Seq<FragItem>,
) -> bool {
    &&& code_fits(model, rvb)
    &&& writes_plainly(model, rvb)
    &&& frags_ready(model, rvb@, liveins, liveouts)
    &&& are_items(model, rvb@, liveins, liveouts, items)
    &&& forall|x: int|
        0 <= x < items.len() ==> item_placed(model, rvb@, liveins, #[trigger] items[x])
    &&& forall|x: int|
        0 <= x < items.len() ==> item_ends(model, rvb@, liveins, liveouts, #[trigger] items[x])
    &&& all_apart(items)
}

proof fn lemma_known(
    model: FunctionModel,
    rvb: RegVecsAndBounds,
    liveins: Seq<SparseSet>,
    liveouts: Seq<SparseSet>,
    items: Seq<FragItem>,
)
    requires
        code_fits(model, rvb),
        writes_plainly(model, rvb),
        frags_ready(model, rvb@, liveins, liveouts),
        are_items(model, rvb@, liveins, liveouts, items),
    ensures
        known(model, rvb, liveins, liveouts, items),
{
    lemma_plainly(model, rvb);
    lemma_items_placed(model, rvb@, liveins, liveouts, items);
    lemma_items_end(model, rvb@, liveins, liveouts, items);
    lemma_items_apart(model, rvb@, liveins, liveouts, items);
}

/// What writing plainly means for the lists.
pub proof fn lemma_plainly(model: FunctionModel, rvb: RegVecsAndBounds)
    requires
        code_fits(model, rvb),
        writes_plainly(model, rvb),
    ensures
        blocks_disjoint(model),
        writes_once(model, rvb@),
{
    assert forall|a: int, b: int| 0 <= a < b < model.blocks.len() implies (
    #[trigger] model.blocks[a]).hi() <= (#[trigger] model.blocks[b]).lo() || model.blocks[b].hi()
        <= model.blocks[a].lo() by {
        let i = if first_of(model, a) <= first_of(model, b) {
            first_of(model, b)
        } else {
            first_of(model, a)
        };
        if !(model.blocks[a].hi() <= model.blocks[b].lo() || model.blocks[b].hi()
            <= model.blocks[a].lo()) {
            assert(at(model, a, i) && at(model, b, i));
        }
    }
    assert forall|i: int| model.holds(i) implies {
        &&& (#[trigger] rvb@[i]).defs.no_duplicates()
        &&& forall|r: Reg| #[trigger] rvb@[i].defs.contains(r) ==> !rvb@[i].mods.contains(r)
    } by {
        let b = choose|b: int|
            0 <= b < model.blocks.len() && (#[trigger] model.blocks[b]).lo() <= i
                < model.blocks[b].hi();
        assert(at(model, b, i));
        assert(writes_once_at(rvb, i));
        lemma_block_lists(model, rvb, b, i, Reg { bits: 0 });
        let d = rvb@[i].defs;
        let s = rvb.bounds@[i].defs_start as int;
        assert forall|j: int, k: int| 0 <= j < d.len() && 0 <= k < d.len() && j != k implies d[j]
            != d[k] by {
            assert(d[j] == rvb.vecs.defs@[s + j]);
            assert(d[k] == rvb.vecs.defs@[s + k]);
        }
        assert forall|r: Reg| #[trigger] rvb@[i].defs.contains(r) implies !rvb@[i].mods.contains(
            r,
        ) by {
            lemma_block_lists(model, rvb, b, i, r);
            assert(defs_at(rvb, i, r));
        }
    }
}

/// A fragment starts where a value does.
proof fn lemma_starts(
    model: FunctionModel,
    rvb: RegVecsAndBounds,
    liveins: Seq<SparseSet>,
    t: FragItem,
)
    requires
        code_fits(model, rvb),
        item_placed(model, rvb@, liveins, t),
    ensures
        ({
            let b = t.metrics.bix.ix as int;
            &&& starts(model, rvb, liveins[b]@, b, t.reg, t.frag.first)
            &&& 4 * first_of(model, b) + 1 <= t.frag.first <= t.frag.last <= 4 * last_of(model, b)
                + 2
        }),
{
    let b = t.metrics.bix.ix as int;
    let c = block_code(model, b, liveins[b]@, rvb@);
    assert(c.starts_well(t.reg, t.frag));
    if !(t.frag.first == 4 * first_of(model, b) + 1 && liveins[b]@.contains(t.reg)) {
        let j = choose|j: int|
            c.block.lo() <= j < c.block.hi() && (#[trigger] c.code[j]).defs.contains(t.reg)
                && t.frag.first == 4 * j + 2;
        lemma_block_lists(model, rvb, b, j, t.reg);
        assert(at(model, b, j) && defs_at(rvb, j, t.reg));
    }
}

/// Where a value starts, a fragment starts.
proof fn lemma_start_item(
    model: FunctionModel,
    rvb: RegVecsAndBounds,
    liveins: Seq<SparseSet>,
    liveouts: Seq<SparseSet>,
    items: Seq<FragItem>,
    b: int,
    r: Reg,
    s: int,
) -> (x: int)
    requires
        known(model, rvb, liveins, liveouts, items),
        0 <= b < model.blocks.len(),
        starts(model, rvb, liveins[b]@, b, r, s),
    ensures
        0 <= x < items.len(),
        items[x].reg == r,
        items[x].metrics.bix.ix == b,
        items[x].frag.first == s,
        items[x].frag.first <= items[x].frag.last,
{
    if s == 4 * first_of(model, b) + 1 && liveins[b]@.contains(r) {
        lemma_function_covers(model, rvb@, liveins, liveouts, items, b, r);
        let x = choose|x: int|
            0 <= x < items.len() && (#[trigger] items[x]).reg == r && items[x].metrics.bix.ix == b
                && items[x].frag.first == 4 * model.blocks[b].lo() + 1;
        assert(item_placed(model, rvb@, liveins, items[x]));
        x
    } else {
        let i = choose|i: int|
            at(model, b, i) && #[trigger] defs_at(rvb, i, r) && s == 4 * i + 2;
        lemma_block_lists(model, rvb, b, i, r);
        lemma_function_records(model, rvb@, liveins, liveouts, items, b, i, r);
        let sel = |m: Mention| m.defined;
        let p = |f: FragView| records(f, i, sel);
        assert(has_item_in(items, b, r, p));
        let x = choose|x: int|
            0 <= x < items.len() && (#[trigger] items[x]).reg == r && items[x].metrics.bix.ix == b
                && p(items[x].frag);
        let f = items[x].frag;
        let a = choose|a: int|
            0 <= a < f.mentions.len() && (#[trigger] f.mentions[a]).0.ix == i && sel(
                f.mentions[a].1,
            );
        assert(item_placed(model, rvb@, liveins, items[x]));
        let c = block_code(model, b, liveins[b]@, rvb@);
        assert(c.mention_true(r, f, f.mentions[a].0.ix as int, f.mentions[a].1));
        x
    }
}

/// Fragments of a register that share a point are one.
proof fn lemma_one_fragment(items: Seq<FragItem>, x: int, y: int, p: int)
    requires
        all_apart(items),
        0 <= x < items.len(),
        0 <= y < items.len(),
        items[x].reg == items[y].reg,
        items[x].frag.first <= p <= items[x].frag.last,
        items[y].frag.first <= p <= items[y].frag.last,
    ensures
        x == y,
{
    if x < y {
        assert(apart(items[x].frag, items[y].frag));
    } else if y < x {
        assert(apart(items[y].frag, items[x].frag));
    }
}

/// A fragment holds one value throughout.
proof fn lemma_governed(
    model: FunctionModel,
    rvb: RegVecsAndBounds,
    liveins: Seq<SparseSet>,
    liveouts: Seq<SparseSet>,
    items: Seq<FragItem>,
    x: int,
    p: int,
)
    requires
        known(model, rvb, liveins, liveouts, items),
        0 <= x < items.len(),
        items[x].frag.first <= p <= items[x].frag.last,
    ensures
        ({
            let b = items[x].metrics.bix.ix as int;
            governs(model, rvb, liveins[b]@, b, items[x].reg, items[x].frag.first, p)
        }),
{
    let b = items[x].metrics.bix.ix as int;
    let r = items[x].reg;
    assert(item_placed(model, rvb@, liveins, items[x]));
    lemma_starts(model, rvb, liveins, items[x]);
    assert forall|i: int| at(model, b, i) && #[trigger] defs_at(rvb, i, r) implies !(
    items[x].frag.first < 4 * i + 2 <= p) by {
        if items[x].frag.first < 4 * i + 2 <= p {
            assert(starts(model, rvb, liveins[b]@, b, r, 4 * i + 2));
            let z = lemma_start_item(model, rvb, liveins, liveouts, items, b, r, 4 * i + 2);
            lemma_one_fragment(items, x, z, 4 * i + 2);
        }
    }
}

/// A fragment that shares its block with a point, where its value is the one of the point, is the
/// one that holds the point, if one does.
proof fn lemma_holder(
    model: FunctionModel,
    rvb: RegVecsAndBounds,
    liveins: Seq<SparseSet>,
    liveouts: Seq<SparseSet>,
    items: Seq<FragItem>,
    x: int,
    y: int,
    p: int,
)
    requires
        known(model, rvb, liveins, liveouts, items),
        0 <= x < items.len(),
        0 <= y < items.len(),
        items[x].reg == items[y].reg,
        items[x].metrics.bix == items[y].metrics.bix,
        governs(
            model,
            rvb,
            liveins[items[x].metrics.bix.ix as int]@,
            items[x].metrics.bix.ix as int,
            items[x].reg,
            items[x].frag.first,
            p,
        ),
        items[y].frag.first <= p <= items[y].frag.last,
    ensures
        x == y,
{
    let b = items[x].metrics.bix.ix as int;
    let r = items[x].reg;
    assert(item_placed(model, rvb@, liveins, items[x]));
    assert(item_placed(model, rvb@, liveins, items[y]));
    lemma_starts(model, rvb, liveins, items[x]);
    lemma_starts(model, rvb, liveins, items[y]);
    let s = items[x].frag.first;
    let t = items[y].frag.first;
    if t < s {
        lemma_one_fragment(items, x, y, s);
    } else if s < t {
        let i = choose|i: int|
            at(model, b, i) && #[trigger] defs_at(rvb, i, r) && t == 4 * i + 2;
        assert(defs_at(rvb, i, r));
    } else {
        lemma_one_fragment(items, x, y, s);
    }
}

/// What a mention in a fragment says.
proof fn lemma_mention(
    model: FunctionModel,
    rvb: RegVecsAndBounds,
    liveins: Seq<SparseSet>,
    t: FragItem,
    a: int,
)
    requires
        code_fits(model, rvb),
        item_placed(model, rvb@, liveins, t),
        0 <= a < t.frag.mentions.len(),
    ensures
        ({
            let b = t.metrics.bix.ix as int;
            let i = t.frag.mentions[a].0.ix as int;
            let m = t.frag.mentions[a].1;
            &&& at(model, b, i)
            &&& m.used || m.modified || m.defined
            &&& m.used ==> uses_at(rvb, i, t.reg) && t.frag.first <= 4 * i + 1 <= t.frag.last
            &&& m.modified ==> mods_at(rvb, i, t.reg) && t.frag.first <= 4 * i + 2 <= t.frag.last
            &&& m.defined ==> defs_at(rvb, i, t.reg) && t.frag.first == 4 * i + 2
        }),
{
    let b = t.metrics.bix.ix as int;
    let c = block_code(model, b, liveins[b]@, rvb@);
    let i = t.frag.mentions[a].0.ix as int;
    assert(c.mention_true(t.reg, t.frag, i, t.frag.mentions[a].1));
    lemma_block_lists(model, rvb, b, i, t.reg);
}

/// A fragment notes exactly what happens to its value.
proof fn lemma_notes(
    model: FunctionModel,
    rvb: RegVecsAndBounds,
    liveins: Seq<SparseSet>,
    liveouts: Seq<SparseSet>,
    items: Seq<FragItem>,
    x: int,
    i: int,
)
    requires
        known(model, rvb, liveins, liveouts, items),
        0 <= x < items.len(),
        at(model, items[x].metrics.bix.ix as int, i),
    ensures
        ({
            let b = items[x].metrics.bix.ix as int;
            let r = items[x].reg;
            let f = items[x].frag;
            &&& notes_use(f.mentions, i) <==> uses_at(rvb, i, r) && governs(
                model,
                rvb,
                liveins[b]@,
                b,
                r,
                f.first,
                4 * i + 1,
            )
            &&& notes_mod(f.mentions, i) <==> mods_at(rvb, i, r) && governs(
                model,
                rvb,
                liveins[b]@,
                b,
                r,
                f.first,
                4 * i + 2,
            )
            &&& notes_def(f.mentions, i) <==> defs_at(rvb, i, r) && f.first == 4 * i + 2
        }),
{
    let b = items[x].metrics.bix.ix as int;
    let r = items[x].reg;
    let f = items[x].frag;
    assert(item_placed(model, rvb@, liveins, items[x]));
    if notes_use(f.mentions, i) {
        let a = choose|a: int|
            0 <= a < f.mentions.len() && (#[trigger] f.mentions[a]).0.ix == i
                && f.mentions[a].1.used;
        lemma_mention(model, rvb, liveins, items[x], a);
        lemma_governed(model, rvb, liveins, liveouts, items, x, 4 * i + 1);
    }
    if notes_mod(f.mentions, i) {
        let a = choose|a: int|
            0 <= a < f.mentions.len() && (#[trigger] f.mentions[a]).0.ix == i
                && f.mentions[a].1.modified;
        lemma_mention(model, rvb, liveins, items[x], a);
        lemma_governed(model, rvb, liveins, liveouts, items, x, 4 * i + 2);
    }
    if notes_def(f.mentions, i) {
        let a = choose|a: int|
            0 <= a < f.mentions.len() && (#[trigger] f.mentions[a]).0.ix == i
                && f.mentions[a].1.defined;
        lemma_mention(model, rvb, liveins, items[x], a);
    }
    lemma_block_lists(model, rvb, b, i, r);
    lemma_function_records(model, rvb@, liveins, liveouts, items, b, i, r);
    if uses_at(rvb, i, r) && governs(model, rvb, liveins[b]@, b, r, f.first, 4 * i + 1) {
        let y = lemma_record_item(model, rvb, liveins, items, b, r, i, |m: Mention| m.used);
        let a = choose|a: int|
            0 <= a < items[y].frag.mentions.len() && (
            #[trigger] items[y].frag.mentions[a]).0.ix == i && items[y].frag.mentions[a].1.used;
        lemma_mention(model, rvb, liveins, items[y], a);
        lemma_holder(model, rvb, liveins, liveouts, items, x, y, 4 * i + 1);
    }
    if mods_at(rvb, i, r) && governs(model, rvb, liveins[b]@, b, r, f.first, 4 * i + 2) {
        let y = lemma_record_item(model, rvb, liveins, items, b, r, i, |m: Mention| m.modified);
        let a = choose|a: int|
            0 <= a < items[y].frag.mentions.len() && (
            #[trigger] items[y].frag.mentions[a]).0.ix == i && items[y].frag.mentions[a].1.modified;
        lemma_mention(model, rvb, liveins, items[y], a);
        lemma_holder(model, rvb, liveins, liveouts, items, x, y, 4 * i + 2);
    }
    if defs_at(rvb, i, r) && f.first == 4 * i + 2 {
        let y = lemma_record_item(model, rvb, liveins, items, b, r, i, |m: Mention| m.defined);
        let a = choose|a: int|
            0 <= a < items[y].frag.mentions.len() && (
            #[trigger] items[y].frag.mentions[a]).0.ix == i && items[y].frag.mentions[a].1.defined;
        lemma_mention(model, rvb, liveins, items[y], a);
        assert(item_placed(model, rvb@, liveins, items[y]));
        lemma_one_fragment(items, x, y, 4 * i + 2);
    }
}

proof fn lemma_record_item(
    model: FunctionModel,
    rvb: RegVecsAndBounds,
    liveins: Seq<SparseSet>,
    items: Seq<FragItem>,
    b: int,
    r: Reg,
    i: int,
    sel: spec_fn(Mention) -> bool,
) -> (y: int)
    requires
        has_item_in(items, b, r, |f: FragView| records(f, i, sel)),
        forall|x: int|
            0 <= x < items.len() ==> item_placed(model, rvb@, liveins, #[trigger] items[x]),
    ensures
        0 <= y < items.len(),
        items[y].reg == r,
        items[y].metrics.bix.ix == b,
        records(items[y].frag, i, sel),
        item_placed(model, rvb@, liveins, items[y]),
{
    let p = |f: FragView| records(f, i, sel);
    let y = choose|y: int|
        0 <= y < items.len() && (#[trigger] items[y]).reg == r && items[y].metrics.bix.ix == b && p(
            items[y].frag,
        );
    y
}

/// A fragment ends with the last event of its value, or where the block ends if it lives on.
proof fn lemma_last(
    model: FunctionModel,
    rvb: RegVecsAndBounds,
    liveins: Seq<SparseSet>,
    liveouts: Seq<SparseSet>,
    items: Seq<FragItem>,
    x: int,
)
    requires
        known(model, rvb, liveins, liveouts, items),
        0 <= x < items.len(),
    ensures
        ({
            let b = items[x].metrics.bix.ix as int;
            let r = items[x].reg;
            let f = items[x].frag;
            let end = 4 * last_of(model, b) + 2;
            if liveouts[b]@.contains(r) && governs(
                model,
                rvb,
                liveins[b]@,
                b,
                r,
                f.first,
                end,
            ) {
                f.last == end
            } else {
                ||| f.last == f.first
                ||| exists|i: int| #[trigger] notes_use(f.mentions, i) && f.last == 4 * i + 1
                ||| exists|i: int| #[trigger] notes_mod(f.mentions, i) && f.last == 4 * i + 2
            }
        }),
{
    let b = items[x].metrics.bix.ix as int;
    let r = items[x].reg;
    let f = items[x].frag;
    let end = 4 * last_of(model, b) + 2;
    let c = block_code(model, b, liveins[b]@, rvb@);
    assert(item_placed(model, rvb@, liveins, items[x]));
    assert(item_ends(model, rvb@, liveins, liveouts, items[x]));
    lemma_starts(model, rvb, liveins, items[x]);
    if liveouts[b]@.contains(r) && governs(model, rvb, liveins[b]@, b, r, f.first, end) {
        lemma_function_covers(model, rvb@, liveins, liveouts, items, b, r);
        let z = choose|z: int|
            0 <= z < items.len() && (#[trigger] items[z]).reg == r && items[z].metrics.bix.ix == b
                && items[z].frag.last == 4 * (model.blocks[b].hi() - 1) + 2;
        assert(item_placed(model, rvb@, liveins, items[z]));
        lemma_holder(model, rvb, liveins, liveouts, items, x, z, end);
    } else {
        assert(ends_well(c, liveouts[b].order(), r, f));
        if !ends_at_event(c, r, f) {
            assert(liveouts[b]@.contains(r) && f.last == end);
            lemma_governed(model, rvb, liveins, liveouts, items, x, end);
        } else if exists|i: int|
            c.block.lo() <= i < c.block.hi() && (#[trigger] c.code[i]).uses.contains(r) && f.last
                == 4 * i + 1 {
            let i = choose|i: int|
                c.block.lo() <= i < c.block.hi() && (#[trigger] c.code[i]).uses.contains(r)
                    && f.last == 4 * i + 1;
            lemma_block_lists(model, rvb, b, i, r);
            lemma_governed(model, rvb, liveins, liveouts, items, x, f.last);
            lemma_notes(model, rvb, liveins, liveouts, items, x, i);
            assert(notes_use(f.mentions, i));
        } else if exists|i: int|
            c.block.lo() <= i < c.block.hi() && (#[trigger] c.code[i]).writes(r) && f.last == 4 * i
                + 2 {
            let i = choose|i: int|
                c.block.lo() <= i < c.block.hi() && (#[trigger] c.code[i]).writes(r) && f.last == 4
                    * i + 2;
            lemma_block_lists(model, rvb, b, i, r);
            lemma_governed(model, rvb, liveins, liveouts, items, x, f.last);
            if mods_at(rvb, i, r) {
                lemma_notes(model, rvb, liveins, liveouts, items, x, i);
                assert(notes_mod(f.mentions, i));
            } else {
                assert(at(model, b, i) && defs_at(rvb, i, r));
            }
        }
    }
}

/// The fragments of a function are all values of all registers in all blocks, each once. Each
/// starts where the value does, notes what happens to it and nothing else, and ends with its last
/// event or, if it lives on, where the block ends; and its kind tells which ends of the block it
/// reaches, whatever the length of the block.
pub proof fn lemma_are_values(
    model: FunctionModel,
    rvb: RegVecsAndBounds,
    liveins: Seq<SparseSet>,
    liveouts: Seq<SparseSet>,
    items: Seq<FragItem>,
)
    requires
        code_fits(model, rvb),
        writes_plainly(model, rvb),
        frags_ready(model, rvb@, liveins, liveouts),
        are_items(model, rvb@, liveins, liveouts, items),
    ensures
        are_values(model, rvb, set_views(liveins), set_views(liveouts), items),
{
    lemma_known(model, rvb, liveins, liveouts, items);
    let ins = set_views(liveins);
    let outs = set_views(liveouts);
    assert forall|x: int| 0 <= x < items.len() implies {
        let b = (#[trigger] items[x]).metrics.bix.ix as int;
        &&& b < model.blocks.len()
        &&& is_value(model, rvb, ins[b], outs[b], b, items[x].reg, items[x].frag)
        &&& kind_fits(model, b, items[x].metrics.kind, items[x].frag.first, items[x].frag.last)
    } by {
        let b = items[x].metrics.bix.ix as int;
        let r = items[x].reg;
        let f = items[x].frag;
        assert(item_placed(model, rvb@, liveins, items[x]));
        assert(ins[b] == liveins[b]@ && outs[b] == liveouts[b]@);
        lemma_starts(model, rvb, liveins, items[x]);
        lemma_last(model, rvb, liveins, liveouts, items, x);
        assert forall|a: int| 0 <= a < f.mentions.len() implies at(
            model,
            b,
            (#[trigger] f.mentions[a]).0.ix as int,
        ) && (f.mentions[a].1.used || f.mentions[a].1.modified || f.mentions[a].1.defined) by {
            lemma_mention(model, rvb, liveins, items[x], a);
        }
        assert forall|i: int| at(model, b, i) implies (#[trigger] notes_use(f.mentions, i)
            <==> uses_at(rvb, i, r) && governs(model, rvb, ins[b], b, r, f.first, 4 * i + 1)) by {
            lemma_notes(model, rvb, liveins, liveouts, items, x, i);
        }
        assert forall|i: int| at(model, b, i) implies (#[trigger] notes_mod(f.mentions, i)
            <==> mods_at(rvb, i, r) && governs(model, rvb, ins[b], b, r, f.first, 4 * i + 2)) by {
            lemma_notes(model, rvb, liveins, liveouts, items, x, i);
        }
        assert forall|i: int| at(model, b, i) implies (#[trigger] notes_def(f.mentions, i)
            <==> defs_at(rvb, i, r) && f.first == 4 * i + 2) by {
            lemma_notes(model, rvb, liveins, liveouts, items, x, i);
        }
        assert forall|i: int| #[trigger] notes_use(f.mentions, i) implies 4 * i + 1 <= f.last by {
            let a = choose|a: int|
                0 <= a < f.mentions.len() && (#[trigger] f.mentions[a]).0.ix == i
                    && f.mentions[a].1.used;
            lemma_mention(model, rvb, liveins, items[x], a);
        }
        assert forall|i: int| #[trigger] notes_mod(f.mentions, i) implies 4 * i + 2 <= f.last by {
            let a = choose|a: int|
                0 <= a < f.mentions.len() && (#[trigger] f.mentions[a]).0.ix == i
                    && f.mentions[a].1.modified;
            lemma_mention(model, rvb, liveins, items[x], a);
        }
        assert(well_listed(f.mentions));
    }
    assert forall|b: int, r: Reg, s: int|
        0 <= b < model.blocks.len() && #[trigger] starts(model, rvb, ins[b], b, r, s) implies
        has_value(items, b, r, s) by {
        assert(ins[b] == liveins[b]@);
        let x = lemma_start_item(model, rvb, liveins, liveouts, items, b, r, s);
        assert(items[x].reg == r);
    }
    assert forall|x: int, y: int|
        0 <= x < y < items.len() && (#[trigger] items[x]).reg == (
        #[trigger] items[y]).reg implies items[x].frag.first != items[y].frag.first by {
        assert(item_placed(model, rvb@, liveins, items[x]));
        assert(item_placed(model, rvb@, liveins, items[y]));
        if items[x].frag.first == items[y].frag.first {
            lemma_one_fragment(items, x, y, items[x].frag.first);
        }
    }
}

/// The kind of a new fragment tells which ends of its block it reaches: one that starts after the
/// reads of the first instruction does not flow in, and one that ends before the writes of the last
/// instruction does not flow out, whatever the length of the block.
pub proof fn lemma_new_kind(
    model: FunctionModel,
    b: int,
    first: int,
    last: int,
    kind: RangeFragKind,
)
    requires
        0 <= b < model.blocks.len(),
        kind == frag_kind(model.blocks[b], first, last),
    ensures
        first != 4 * model.blocks[b].first.ix + 1 ==> kind is Local || kind is LiveOut,
        first == 4 * model.blocks[b].first.ix + 1 ==> kind is LiveIn || kind is Thru,
        last != 4 * (model.blocks[b].first.ix + model.blocks[b].len - 1) + 2 ==> kind is Local
            || kind is LiveIn,
        last == 4 * (model.blocks[b].first.ix + model.blocks[b].len - 1) + 2 ==> kind is LiveOut
            || kind is Thru,
{
}

/// Every fragment of a function has the kind that its ends ask for, whatever the function does.
pub proof fn lemma_all_kinds(
    model: FunctionModel,
    rvb: RegVecsAndBounds,
    liveins: Seq<SparseSet>,
    liveouts: Seq<SparseSet>,
    items: Seq<FragItem>,
    x: int,
)
    requires
        frags_ready(model, rvb@, liveins, liveouts),
        are_items(model, rvb@, liveins, liveouts, items),
        0 <= x < items.len(),
    ensures
        ({
            let block = model.blocks[items[x].metrics.bix.ix as int];
            let kind = items[x].metrics.kind;
            &&& items[x].metrics.bix.ix < model.blocks.len()
            &&& block.first.ix * 4 + 1 <= items[x].frag.first <= items[x].frag.last <= 4 * (
            block.first.ix + block.len - 1) + 2
            &&& items[x].frag.first != 4 * block.first.ix + 1 <==> kind is Local || kind is LiveOut
            &&& items[x].frag.last != 4 * (block.first.ix + block.len - 1) + 2 <==> kind is Local
                || kind is LiveIn
        }),
{
    lemma_items_placed(model, rvb@, liveins, liveouts, items);
    assert(item_placed(model, rvb@, liveins, items[x]));
}

/// What [`crate::range_frags::get_range_frags`] returns is one entry for each value, in all three
/// places: the fragment, its block and kind, and its number in the list of its register, which
/// ascends.
pub proof fn lemma_cut(
    model: FunctionModel,
    rvb: RegVecsAndBounds,
    liveins: Seq<SparseSet>,
    liveouts: Seq<SparseSet>,
    lists: Map<Reg, Vec<RangeFragIx>>,
    frags: Seq<RangeFrag>,
    metrics: Seq<RangeFragMetrics>,
) -> (items: Seq<FragItem>)
    requires
        code_fits(model, rvb),
        writes_plainly(model, rvb),
        frags_ready(model, rvb@, liveins, liveouts),
        exists|items: Seq<FragItem>|
            {
                &&& #[trigger] are_items(model, rvb@, liveins, liveouts, items)
                &&& appended(
                    Map::empty(),
                    Seq::empty(),
                    Seq::empty(),
                    items,
                    ix_lists(lists),
                    frag_views(frags),
                    metrics,
                )
            },
    ensures
        are_values(
            model,
            rvb,
            Seq::new(liveins.len(), |b: int| liveins[b]@),
            Seq::new(liveouts.len(), |b: int| liveouts[b]@),
            items,
        ),
        frags.len() == items.len(),
        metrics.len() == items.len(),
        forall|x: int|
            0 <= x < items.len() ==> {
                &&& (#[trigger] items[x]).frag.first == frags[x].first.bits
                &&& items[x].frag.last == frags[x].last.bits
                &&& items[x].frag.mentions == frags[x].mentions@
                &&& items[x].metrics == metrics[x]
                &&& lists.contains_key(items[x].reg)
                &&& exists|p: int|
                    0 <= p < lists[items[x].reg]@.len() && (
                    #[trigger] lists[items[x].reg]@[p]).ix == x
            },
        forall|r: Reg, p: int|
            lists.contains_key(r) && 0 <= p < lists[r]@.len() ==> (#[trigger] lists[r]@[p]).ix
                < items.len() && items[lists[r]@[p].ix as int].reg == r,
        forall|r: Reg, p: int, q: int|
            lists.contains_key(r) && 0 <= p < q < lists[r]@.len() ==> (#[trigger] lists[r]@[p]).ix
                < (#[trigger] lists[r]@[q]).ix,
{
    let items = choose|items: Seq<FragItem>|
        {
            &&& #[trigger] are_items(model, rvb@, liveins, liveouts, items)
            &&& appended(
                Map::empty(),
                Seq::empty(),
                Seq::empty(),
                items,
                ix_lists(lists),
                frag_views(frags),
                metrics,
            )
        };
    lemma_are_values(model, rvb, liveins, liveouts, items);
    assert(set_views(liveins) =~= Seq::new(liveins.len(), |b: int| liveins[b]@));
    assert(set_views(liveouts) =~= Seq::new(liveouts.len(), |b: int| liveouts[b]@));
    assert(frag_views(frags) =~= item_frags(items));
    assert(metrics =~= item_metrics(items));
    assert(frag_views(frags).len() == frags.len());
    lemma_items_placed(model, rvb@, liveins, liveouts, items);
    let owners = item_regs(items);
    lemma_positions(owners);
    let m = add_positions(Map::empty(), 0, owners);
    assert(ix_lists(lists) == m);
    assert forall|r: Reg| lists.contains_key(r) implies #[trigger] m.contains_key(r) && m[r]
        == lists[r]@ by {
        assert(ix_lists(lists).contains_key(r));
    }
    assert forall|x: int| 0 <= x < items.len() implies {
        &&& (#[trigger] items[x]).frag.first == frags[x].first.bits
        &&& items[x].frag.last == frags[x].last.bits
        &&& items[x].frag.mentions == frags[x].mentions@
        &&& items[x].metrics == metrics[x]
        &&& lists.contains_key(items[x].reg)
        &&& exists|p: int|
            0 <= p < lists[items[x].reg]@.len() && (#[trigger] lists[items[x].reg]@[p]).ix == x
    } by {
        assert(frag_views(frags)[x] == items[x].frag);
        assert(frag_views(frags)[x] == frags[x]@);
        assert(owners[x] == items[x].reg);
        assert(owners.contains(owners[x]));
        assert(m.contains_key(owners[x]));
        assert(ix_lists(lists).contains_key(items[x].reg));
        let l = m[owners[x]];
        assert(l.contains(RangeFragIx { ix: x as u32 }));
        let p = choose|p: int| 0 <= p < l.len() && l[p] == (RangeFragIx { ix: x as u32 });
        assert(lists[items[x].reg]@[p].ix == x);
    }
    assert forall|r: Reg, p: int|
        lists.contains_key(r) && 0 <= p < lists[r]@.len() implies (#[trigger] lists[r]@[p]).ix
        < items.len() && items[lists[r]@[p].ix as int].reg == r by {
        assert(m.contains_key(r) && m[r] == lists[r]@);
        assert(owners[m[r][p].ix as int] == r);
    }
    assert forall|r: Reg, p: int, q: int|
        lists.contains_key(r) && 0 <= p < q < lists[r]@.len() implies (
    #[trigger] lists[r]@[p]).ix < (#[trigger] lists[r]@[q]).ix by {
        assert(m.contains_key(r) && m[r] == lists[r]@);
        assert(m[r][p].ix < m[r][q].ix);
    }
    items
}

} // verus!
