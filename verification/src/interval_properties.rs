//! What the intervals of a function have in common.

use crate::analysis::listing;
use crate::block_model::{item_frags, item_metrics, item_regs, lemma_positions, FragItem, FragView};
use crate::data_structures::{
    def_point, use_point, BlockIx, InsnRegs, InstIx, Mention, RangeFragIx, Reg,
};
use crate::frag_properties::{
    ends_well, has_item, lemma_all_recorded, lemma_items_end_well, lemma_live_in_covered,
    lemma_live_out_covered, records,
};
use crate::function::FunctionModel;
use crate::intervals::{
    all_mentions, greatest_last, is_interval, is_merge, least_first, mentioned, noted,
    virtual_pieces, Piece, VirtualInterval,
};
use crate::merging::{
    are_groups, are_virtuals, connected, flows, flows_in, flows_out, group_ok, group_pieces,
    in_some_group, is_path, lemma_connected_linked, lemma_connected_refl, linked, metrics_of,
    Group,
};
use crate::range_frags::{
    are_items, are_rests, block_code, block_ready, frags_ready, item_placed, items_before,
    lemma_items_placed, lemma_live_outs_open, RangeFragMetrics,
};
use crate::sparse_set::SparseSet;
use vstd::prelude::*;

verus! {

/// An interval starts where the first of its fragments starts, and ends where the last one ends.
pub proof fn lemma_interval_spans(frags: Seq<FragView>)
    requires
        frags.len() >= 1,
        forall|k: int|
            0 <= k < frags.len() ==> 0 <= (#[trigger] frags[k]).first <= u64::MAX && 0
                <= frags[k].last,
    ensures
        forall|k: int|
            0 <= k < frags.len() ==> least_first(frags) <= (#[trigger] frags[k]).first
                && frags[k].last <= greatest_last(frags),
        exists|k: int| 0 <= k < frags.len() && (#[trigger] frags[k]).first == least_first(frags),
        exists|k: int| 0 <= k < frags.len() && (#[trigger] frags[k]).last == greatest_last(frags),
    decreases frags.len(),
{
    let rest = frags.drop_last();
    let n = frags.len() - 1;
    assert(frags[n] == frags.last());
    if rest.len() >= 1 {
        assert forall|k: int| 0 <= k < rest.len() implies 0 <= (#[trigger] rest[k]).first
            <= u64::MAX && 0 <= rest[k].last by {
            assert(rest[k] == frags[k]);
        }
        lemma_interval_spans(rest);
        let a = choose|k: int|
            0 <= k < rest.len() && (#[trigger] rest[k]).first == least_first(rest);
        let b = choose|k: int|
            0 <= k < rest.len() && (#[trigger] rest[k]).last == greatest_last(rest);
        assert(frags[a] == rest[a]);
        assert(frags[b] == rest[b]);
        assert forall|k: int| 0 <= k < frags.len() implies least_first(frags) <= (
        #[trigger] frags[k]).first && frags[k].last <= greatest_last(frags) by {
            if k < n {
                assert(rest[k] == frags[k]);
            }
        }
    } else {
        assert(least_first(rest) == u64::MAX);
        assert(greatest_last(rest) == 0);
    }
}

/// The same mentions always merge to the same list.
pub proof fn lemma_merge_unique(
    all: Seq<(InstIx, Mention)>,
    a: Seq<(InstIx, Mention)>,
    b: Seq<(InstIx, Mention)>,
)
    requires
        is_merge(all, a),
        is_merge(all, b),
    ensures
        a == b,
{
    lemma_merge_prefix(all, a, b, a.len() as int);
    lemma_merge_prefix(all, b, a, b.len() as int);
    assert(a =~= b);
}

proof fn lemma_merge_prefix(
    all: Seq<(InstIx, Mention)>,
    a: Seq<(InstIx, Mention)>,
    b: Seq<(InstIx, Mention)>,
    n: int,
)
    requires
        is_merge(all, a),
        is_merge(all, b),
        0 <= n <= a.len(),
    ensures
        n <= b.len(),
        forall|k: int| 0 <= k < n ==> #[trigger] a[k] == b[k],
    decreases n,
{
    if n > 0 {
        lemma_merge_prefix(all, a, b, n - 1);
        assert(mentioned(all, a[n - 1].0));
        let j = choose|j: int| 0 <= j < b.len() && (#[trigger] b[j]).0 == a[n - 1].0;
        if j < n - 1 {
            assert(a[j] == b[j]);
            assert(a[j].0.ix < a[n - 1].0.ix);
        }
        if j > n - 1 {
            assert(mentioned(all, b[n - 1].0));
            let i = choose|i: int| 0 <= i < a.len() && (#[trigger] a[i]).0 == b[n - 1].0;
            assert(b[n - 1].0.ix < b[j].0.ix);
            if i < n - 1 {
                assert(a[i] == b[i]);
                assert(b[i].0.ix < b[n - 1].0.ix);
            } else if i > n - 1 {
                assert(a[n - 1].0.ix < a[i].0.ix);
            }
        }
    }
}

/// One list of jumps holds those of the other, looked at from where they lead to.
pub open spec fn are_inverse(succs: Seq<Seq<BlockIx>>, preds: Seq<Seq<BlockIx>>) -> bool {
    &&& succs.len() == preds.len()
    &&& forall|a: BlockIx, b: BlockIx|
        a.ix < succs.len() && b.ix < succs.len() ==> (#[trigger] succs[a.ix as int].contains(b)
            <==> #[trigger] preds[b.ix as int].contains(a))
}

/// To look along jumps is enough: liveness flows from one fragment to another along a jump
/// exactly if it does when the jump is looked at from where it leads to.
pub proof fn lemma_flow_backwards(
    succs: Seq<Seq<BlockIx>>,
    preds: Seq<Seq<BlockIx>>,
    from: RangeFragMetrics,
    to: RangeFragMetrics,
)
    requires
        are_inverse(succs, preds),
        from.bix.ix < succs.len(),
        to.bix.ix < succs.len(),
    ensures
        flows(succs, from, to) <==> {
            &&& flows_out(from)
            &&& flows_in(to)
            &&& preds[to.bix.ix as int].contains(from.bix)
        },
{
    assert(succs[from.bix.ix as int].contains(to.bix) <==> preds[to.bix.ix as int].contains(
        from.bix,
    ));
}

/// A fragment is in exactly one group.
pub proof fn lemma_one_group(
    map: Map<Reg, Seq<RangeFragIx>>,
    env: Seq<RangeFragMetrics>,
    succs: Seq<Seq<BlockIx>>,
    groups: Seq<Group>,
    r: Reg,
    p: int,
)
    requires
        are_groups(map, env, succs, groups),
        map.contains_key(r),
        0 <= p < map[r].len(),
    ensures
        exists|k: int|
            0 <= k < groups.len() && (#[trigger] groups[k]).reg == r && groups[k].members.contains(
                p,
            ),
        forall|k: int, l: int|
            0 <= k < groups.len() && 0 <= l < groups.len() && (#[trigger] groups[k]).reg == r && (
            #[trigger] groups[l]).reg == r && groups[k].members.contains(p)
                && groups[l].members.contains(p) ==> k == l,
{
    assert(in_some_group(groups, r, p));
    assert forall|k: int, l: int|
        0 <= k < groups.len() && 0 <= l < groups.len() && (#[trigger] groups[k]).reg == r && (
        #[trigger] groups[l]).reg == r && groups[k].members.contains(p)
            && groups[l].members.contains(p) implies k == l by {
        let a = choose|a: int| 0 <= a < groups[k].members.len() && groups[k].members[a] == p;
        let b = choose|b: int| 0 <= b < groups[l].members.len() && groups[l].members[b] == p;
        lemma_connected_refl(succs, metrics_of(env, map[r]), p);
        assert(connected(
            succs,
            metrics_of(env, map[r]),
            groups[k].members[a],
            groups[l].members[b],
        ));
    }
}

/// Two fragments between which liveness flows are in the same group.
pub proof fn lemma_linked_in_one_group(
    map: Map<Reg, Seq<RangeFragIx>>,
    env: Seq<RangeFragMetrics>,
    succs: Seq<Seq<BlockIx>>,
    groups: Seq<Group>,
    r: Reg,
    p: int,
    q: int,
)
    requires
        are_groups(map, env, succs, groups),
        map.contains_key(r),
        0 <= p < map[r].len(),
        0 <= q < map[r].len(),
        linked(succs, metrics_of(env, map[r]), p, q),
    ensures
        exists|k: int|
            0 <= k < groups.len() && (#[trigger] groups[k]).reg == r && groups[k].members.contains(
                p,
            ) && groups[k].members.contains(q),
{
    let ms = metrics_of(env, map[r]);
    lemma_connected_linked(succs, ms, p, q);
    assert(in_some_group(groups, r, p));
    assert(in_some_group(groups, r, q));
    let k = choose|k: int|
        0 <= k < groups.len() && (#[trigger] groups[k]).reg == r && groups[k].members.contains(p);
    let l = choose|l: int|
        0 <= l < groups.len() && (#[trigger] groups[l]).reg == r && groups[l].members.contains(q);
    let a = choose|a: int| 0 <= a < groups[k].members.len() && groups[k].members[a] == p;
    let b = choose|b: int| 0 <= b < groups[l].members.len() && groups[l].members[b] == q;
    assert(connected(succs, ms, groups[k].members[a], groups[l].members[b]));
}

/// A fragment that touches no end of its block is alone in its group.
pub proof fn lemma_local_alone(
    map: Map<Reg, Seq<RangeFragIx>>,
    env: Seq<RangeFragMetrics>,
    succs: Seq<Seq<BlockIx>>,
    groups: Seq<Group>,
    k: int,
    p: int,
)
    requires
        are_groups(map, env, succs, groups),
        0 <= k < groups.len(),
        groups[k].members.contains(p),
        metrics_of(env, map[groups[k].reg])[p].kind is Local,
    ensures
        groups[k].members == seq![p],
{
    let g = groups[k];
    let ms = metrics_of(env, map[g.reg]);
    assert(group_ok(map, g));
    let a = choose|a: int| 0 <= a < g.members.len() && g.members[a] == p;
    assert forall|b: int| 0 <= b < g.members.len() implies g.members[b] == p by {
        assert(connected(succs, ms, groups[k].members[a], groups[k].members[b]));
        let path = choose|path: Seq<int>| #[trigger]
            is_path(succs, ms, path) && path[0] == p && path.last()
                == g.members[b];
        if path.len() > 1 {
            assert(linked(succs, ms, path[0], path[1]));
        }
    }
    if g.members.len() > 1 {
        assert(g.members[0] == g.members[1]);
    }
    assert(g.members =~= seq![p]);
}

/// The fragments of a block are among those of the function.
proof fn lemma_block_items_in(
    model: FunctionModel,
    code: Seq<InsnRegs>,
    liveins: Seq<SparseSet>,
    liveouts: Seq<SparseSet>,
    rests: Seq<Seq<Reg>>,
    n: int,
    b: int,
    p: spec_fn(FragItem) -> bool,
)
    requires
        0 <= b < n,
        exists|k: int|
            0 <= k < block_code(model, b, liveins[b]@, code).items(
                liveouts[b].order(),
                rests[b],
            ).len() && p(
                #[trigger] block_code(model, b, liveins[b]@, code).items(
                    liveouts[b].order(),
                    rests[b],
                )[k],
            ),
    ensures
        exists|k: int|
            0 <= k < items_before(model, code, liveins, liveouts, rests, n).len() && p(
                #[trigger] items_before(model, code, liveins, liveouts, rests, n)[k],
            ),
    decreases n,
{
    let before = items_before(model, code, liveins, liveouts, rests, n - 1);
    let now = items_before(model, code, liveins, liveouts, rests, n);
    let new = block_code(model, n - 1, liveins[n - 1]@, code).items(
        liveouts[n - 1].order(),
        rests[n - 1],
    );
    assert(now == before + new);
    if b < n - 1 {
        lemma_block_items_in(model, code, liveins, liveouts, rests, n - 1, b, p);
        let k = choose|k: int| 0 <= k < before.len() && p(#[trigger] before[k]);
        assert(now[k] == before[k]);
    } else {
        let k = choose|k: int| 0 <= k < new.len() && p(#[trigger] new[k]);
        assert(now[before.len() + k] == new[k]);
    }
}

/// A fragment of block `b` that belongs to `r` and has the given property is among the items of
/// the function.
pub open spec fn has_item_in(
    items: Seq<FragItem>,
    b: int,
    r: Reg,
    p: spec_fn(FragView) -> bool,
) -> bool {
    exists|k: int|
        0 <= k < items.len() && (#[trigger] items[k]).reg == r && items[k].metrics.bix.ix == b && p(
            items[k].frag,
        )
}

proof fn lemma_has_item_in(
    model: FunctionModel,
    code: Seq<InsnRegs>,
    liveins: Seq<SparseSet>,
    liveouts: Seq<SparseSet>,
    rests: Seq<Seq<Reg>>,
    b: int,
    r: Reg,
    p: spec_fn(FragView) -> bool,
)
    requires
        frags_ready(model, code, liveins, liveouts),
        rests.len() == model.blocks.len(),
        are_rests(model, code, liveins, liveouts, rests),
        0 <= b < model.blocks.len(),
        has_item(
            block_code(model, b, liveins[b]@, code).items(liveouts[b].order(), rests[b]),
            r,
            p,
        ),
    ensures
        has_item_in(
            items_before(model, code, liveins, liveouts, rests, model.blocks.len() as int),
            b,
            r,
            p,
        ),
{
    let c = block_code(model, b, liveins[b]@, code);
    let items = c.items(liveouts[b].order(), rests[b]);
    let q = |t: FragItem| t.reg == r && t.metrics.bix.ix == b && p(t.frag);
    let k = choose|k: int| 0 <= k < items.len() && (#[trigger] items[k]).reg == r && p(items[k].frag);
    assert(block_ready(c, liveins[b], liveouts[b]));
    assert(c.is_rest(liveouts[b].order(), rests[b]));
    lemma_live_outs_open(c, liveins[b], liveouts[b]);
    c.lemma_items_true(liveouts[b].order(), rests[b]);
    assert(c.item_true(items[k]));
    assert(q(items[k]));
    let n = model.blocks.len() as int;
    lemma_block_items_in(model, code, liveins, liveouts, rests, n, b, q);
    let all = items_before(model, code, liveins, liveouts, rests, n);
    let l = choose|l: int| 0 <= l < all.len() && q(#[trigger] all[l]);
    assert(all[l].reg == r);
}

/// Every read, every modification and every write of a register is recorded in one of its
/// fragments in that block.
pub proof fn lemma_function_records(
    model: FunctionModel,
    code: Seq<InsnRegs>,
    liveins: Seq<SparseSet>,
    liveouts: Seq<SparseSet>,
    items: Seq<FragItem>,
    b: int,
    i: int,
    r: Reg,
)
    requires
        frags_ready(model, code, liveins, liveouts),
        are_items(model, code, liveins, liveouts, items),
        0 <= b < model.blocks.len(),
        model.blocks[b].lo() <= i < model.blocks[b].hi(),
    ensures
        code[i].uses.contains(r) ==> has_item_in(
            items,
            b,
            r,
            |f: FragView| records(f, i, |m: Mention| m.used),
        ),
        code[i].mods.contains(r) ==> has_item_in(
            items,
            b,
            r,
            |f: FragView| records(f, i, |m: Mention| m.modified),
        ),
        code[i].defs.contains(r) ==> has_item_in(
            items,
            b,
            r,
            |f: FragView| records(f, i, |m: Mention| m.defined),
        ),
{
    let n = model.blocks.len() as int;
    let rests = choose|rests: Seq<Seq<Reg>>|
        {
            &&& rests.len() == model.blocks.len()
            &&& are_rests(model, code, liveins, liveouts, rests)
            &&& items == #[trigger] items_before(model, code, liveins, liveouts, rests, n)
        };
    let c = block_code(model, b, liveins[b]@, code);
    assert(block_ready(c, liveins[b], liveouts[b]));
    assert(c.is_rest(liveouts[b].order(), rests[b]));
    lemma_all_recorded(c, liveouts[b].order(), rests[b], r, i);
    let used = |f: FragView| records(f, i, |m: Mention| m.used);
    let modified = |f: FragView| records(f, i, |m: Mention| m.modified);
    let defined = |f: FragView| records(f, i, |m: Mention| m.defined);
    if code[i].uses.contains(r) {
        lemma_has_item_in(model, code, liveins, liveouts, rests, b, r, used);
    }
    if code[i].mods.contains(r) {
        lemma_has_item_in(model, code, liveins, liveouts, rests, b, r, modified);
    }
    if code[i].defs.contains(r) {
        lemma_has_item_in(model, code, liveins, liveouts, rests, b, r, defined);
    }
}

/// A register that is live where a block starts has a fragment from there on, and one that is live
/// where the block ends has a fragment up to there.
pub proof fn lemma_function_covers(
    model: FunctionModel,
    code: Seq<InsnRegs>,
    liveins: Seq<SparseSet>,
    liveouts: Seq<SparseSet>,
    items: Seq<FragItem>,
    b: int,
    r: Reg,
)
    requires
        frags_ready(model, code, liveins, liveouts),
        are_items(model, code, liveins, liveouts, items),
        0 <= b < model.blocks.len(),
    ensures
        liveins[b]@.contains(r) ==> has_item_in(
            items,
            b,
            r,
            |f: FragView| f.first == use_point(model.blocks[b].lo()),
        ),
        liveouts[b]@.contains(r) ==> has_item_in(
            items,
            b,
            r,
            |f: FragView| f.last == def_point(model.blocks[b].hi() - 1),
        ),
{
    let n = model.blocks.len() as int;
    let rests = choose|rests: Seq<Seq<Reg>>|
        {
            &&& rests.len() == model.blocks.len()
            &&& are_rests(model, code, liveins, liveouts, rests)
            &&& items == #[trigger] items_before(model, code, liveins, liveouts, rests, n)
        };
    let c = block_code(model, b, liveins[b]@, code);
    assert(block_ready(c, liveins[b], liveouts[b]));
    assert(c.is_rest(liveouts[b].order(), rests[b]));
    lemma_live_outs_open(c, liveins[b], liveouts[b]);
    let at_start = |f: FragView| f.first == use_point(model.blocks[b].lo());
    let at_end = |f: FragView| f.last == def_point(model.blocks[b].hi() - 1);
    if liveins[b]@.contains(r) {
        lemma_live_in_covered(c, liveouts[b].order(), rests[b], r);
        lemma_has_item_in(model, code, liveins, liveouts, rests, b, r, at_start);
    }
    if liveouts[b]@.contains(r) {
        assert(liveouts[b].order().contains(r));
        lemma_live_out_covered(c, liveouts[b].order(), rests[b], r);
        lemma_has_item_in(model, code, liveins, liveouts, rests, b, r, at_end);
    }
}

proof fn lemma_ends_before(
    model: FunctionModel,
    code: Seq<InsnRegs>,
    liveins: Seq<SparseSet>,
    liveouts: Seq<SparseSet>,
    rests: Seq<Seq<Reg>>,
    n: int,
)
    requires
        frags_ready(model, code, liveins, liveouts),
        rests.len() == model.blocks.len(),
        are_rests(model, code, liveins, liveouts, rests),
        0 <= n <= model.blocks.len(),
    ensures
        forall|k: int|
            0 <= k < items_before(model, code, liveins, liveouts, rests, n).len() ==> item_ends(
                model,
                code,
                liveins,
                liveouts,
                #[trigger] items_before(model, code, liveins, liveouts, rests, n)[k],
            ),
    decreases n,
{
    if n > 0 {
        lemma_ends_before(model, code, liveins, liveouts, rests, n - 1);
        let before = items_before(model, code, liveins, liveouts, rests, n - 1);
        let now = items_before(model, code, liveins, liveouts, rests, n);
        let c = block_code(model, n - 1, liveins[n - 1]@, code);
        let new = c.items(liveouts[n - 1].order(), rests[n - 1]);
        assert(now == before + new);
        assert(block_ready(c, liveins[n - 1], liveouts[n - 1]));
        assert(c.is_rest(liveouts[n - 1].order(), rests[n - 1]));
        lemma_live_outs_open(c, liveins[n - 1], liveouts[n - 1]);
        c.lemma_items_true(liveouts[n - 1].order(), rests[n - 1]);
        lemma_items_end_well(c, liveouts[n - 1].order(), rests[n - 1]);
        assert forall|k: int| 0 <= k < now.len() implies item_ends(
            model,
            code,
            liveins,
            liveouts,
            #[trigger] now[k],
        ) by {
            if k < before.len() {
                assert(now[k] == before[k]);
            } else {
                assert(now[k] == new[k - before.len()]);
                assert(c.item_true(new[k - before.len()]));
            }
        }
    }
}

/// The fragment ends at an event of its register, or where its block ends.
pub open spec fn item_ends(
    model: FunctionModel,
    code: Seq<InsnRegs>,
    liveins: Seq<SparseSet>,
    liveouts: Seq<SparseSet>,
    t: FragItem,
) -> bool {
    let b = t.metrics.bix.ix as int;
    ends_well(block_code(model, b, liveins[b]@, code), liveouts[b].order(), t.reg, t.frag)
}

/// No fragment of a function is longer than it has to be: each ends at an event of its register,
/// or, if the register lives on, where its block ends.
pub proof fn lemma_items_end(
    model: FunctionModel,
    code: Seq<InsnRegs>,
    liveins: Seq<SparseSet>,
    liveouts: Seq<SparseSet>,
    items: Seq<FragItem>,
)
    requires
        frags_ready(model, code, liveins, liveouts),
        are_items(model, code, liveins, liveouts, items),
    ensures
        forall|k: int|
            0 <= k < items.len() ==> item_ends(
                model,
                code,
                liveins,
                liveouts,
                #[trigger] items[k],
            ),
{
    let n = model.blocks.len() as int;
    let rests = choose|rests: Seq<Seq<Reg>>|
        {
            &&& rests.len() == model.blocks.len()
            &&& are_rests(model, code, liveins, liveouts, rests)
            &&& items == #[trigger] items_before(model, code, liveins, liveouts, rests, n)
        };
    lemma_ends_before(model, code, liveins, liveouts, rests, n);
}

/// The position of a fragment in the list of its register.
pub proof fn lemma_position(items: Seq<FragItem>, x: int) -> (p: int)
    requires
        items.len() <= u32::MAX,
        0 <= x < items.len(),
    ensures
        listing(items).contains_key(items[x].reg),
        0 <= p < listing(items)[items[x].reg].len(),
        listing(items)[items[x].reg][p].ix == x,
{
    let owners = item_regs(items);
    lemma_positions(owners);
    assert(owners[x] == items[x].reg);
    assert(owners.contains(owners[x]));
    let l = listing(items)[items[x].reg];
    assert(l.contains(RangeFragIx { ix: x as u32 }));
    choose|p: int| 0 <= p < l.len() && l[p] == (RangeFragIx { ix: x as u32 })
}

/// Where a register is live along a jump, one interval covers both sides: its fragment that
/// reaches the end of the block that jumps, and its fragment that reaches the start of the block
/// that is jumped to, are in one group.
pub proof fn lemma_jump_in_one_group(
    model: FunctionModel,
    code: Seq<InsnRegs>,
    succs: Seq<Seq<BlockIx>>,
    liveins: Seq<SparseSet>,
    liveouts: Seq<SparseSet>,
    items: Seq<FragItem>,
    groups: Seq<Group>,
    from: BlockIx,
    to: BlockIx,
    r: Reg,
)
    requires
        frags_ready(model, code, liveins, liveouts),
        are_items(model, code, liveins, liveouts, items),
        are_groups(listing(items), item_metrics(items), succs, groups),
        from.ix < model.blocks.len(),
        to.ix < model.blocks.len(),
        succs[from.ix as int].contains(to),
        liveouts[from.ix as int]@.contains(r),
        liveins[to.ix as int]@.contains(r),
    ensures
        exists|k: int, p: int, q: int|
            {
                let ms = metrics_of(item_metrics(items), listing(items)[r]);
                &&& 0 <= k < groups.len()
                &&& groups[k].reg == r
                &&& #[trigger] groups[k].members.contains(p)
                &&& #[trigger] groups[k].members.contains(q)
                &&& flows_out(ms[p]) && ms[p].bix == from
                &&& flows_in(ms[q]) && ms[q].bix == to
            },
{
    let a = from.ix as int;
    let b = to.ix as int;
    lemma_items_placed(model, code, liveins, liveouts, items);
    lemma_function_covers(model, code, liveins, liveouts, items, a, r);
    lemma_function_covers(model, code, liveins, liveouts, items, b, r);
    let at_end = |f: FragView| f.last == def_point(model.blocks[a].hi() - 1);
    let at_start = |f: FragView| f.first == use_point(model.blocks[b].lo());
    let x = choose|k: int|
        0 <= k < items.len() && (#[trigger] items[k]).reg == r && items[k].metrics.bix.ix == a
            && at_end(items[k].frag);
    let y = choose|k: int|
        0 <= k < items.len() && (#[trigger] items[k]).reg == r && items[k].metrics.bix.ix == b
            && at_start(items[k].frag);
    assert(item_placed(model, code, liveins, items[x]));
    assert(item_placed(model, code, liveins, items[y]));
    let p = lemma_position(items, x);
    let q = lemma_position(items, y);
    let ms = metrics_of(item_metrics(items), listing(items)[r]);
    assert(ms[p] == items[x].metrics);
    assert(ms[q] == items[y].metrics);
    assert(linked(succs, ms, p, q));
    lemma_linked_in_one_group(
        listing(items),
        item_metrics(items),
        succs,
        groups,
        r,
        p,
        q,
    );
    let k = choose|k: int|
        0 <= k < groups.len() && (#[trigger] groups[k]).reg == r && groups[k].members.contains(
            p,
        ) && groups[k].members.contains(q);
    assert(groups[k].members.contains(p) && groups[k].members.contains(q));
}

/// The mentions say of instruction `i` everything that `m` says.
pub open spec fn says(mentions: Seq<(InstIx, Mention)>, i: InstIx, m: Mention) -> bool {
    exists|j: int|
        {
            &&& 0 <= j < mentions.len()
            &&& (#[trigger] mentions[j]).0 == i
            &&& m.used ==> mentions[j].1.used
            &&& m.modified ==> mentions[j].1.modified
            &&& m.defined ==> mentions[j].1.defined
        }
}

/// The interval spans the fragment and says everything that its mentions say.
pub open spec fn takes_in(v: VirtualInterval, f: FragView) -> bool {
    &&& v.start@ <= f.first
    &&& f.last <= v.end@
    &&& forall|a: int|
        0 <= a < f.mentions.len() ==> says(
            v.mentions@,
            (#[trigger] f.mentions[a]).0,
            f.mentions[a].1,
        )
}

/// What the mentions of some fragments are.
pub proof fn lemma_all_mentions(frags: Seq<FragView>)
    ensures
        forall|q: int, a: int|
            0 <= q < frags.len() && 0 <= a < frags[q].mentions.len() ==> all_mentions(
                frags,
            ).contains(#[trigger] frags[q].mentions[a]),
        forall|e: (InstIx, Mention)| #[trigger]
            all_mentions(frags).contains(e) ==> exists|q: int, a: int|
                0 <= q < frags.len() && 0 <= a < frags[q].mentions.len()
                    && #[trigger] frags[q].mentions[a] == e,
    decreases frags.len(),
{
    if frags.len() > 0 {
        let rest = frags.drop_last();
        let n = frags.len() - 1;
        let prev = all_mentions(rest);
        let all = all_mentions(frags);
        lemma_all_mentions(rest);
        assert(all == prev + frags[n].mentions);
        assert forall|q: int, a: int|
            0 <= q < frags.len() && 0 <= a < frags[q].mentions.len() implies all.contains(
            #[trigger] frags[q].mentions[a],
        ) by {
            if q < n {
                assert(rest[q] == frags[q]);
                assert(prev.contains(rest[q].mentions[a]));
                let j = choose|j: int| 0 <= j < prev.len() && prev[j] == rest[q].mentions[a];
                assert(all[j] == prev[j]);
            } else {
                assert(all[prev.len() + a] == frags[n].mentions[a]);
            }
        }
        assert forall|e: (InstIx, Mention)| #[trigger] all.contains(e) implies exists|
            q: int,
            a: int,
        |
            0 <= q < frags.len() && 0 <= a < frags[q].mentions.len()
                && #[trigger] frags[q].mentions[a] == e by {
            let j = choose|j: int| 0 <= j < all.len() && all[j] == e;
            if j < prev.len() {
                assert(prev[j] == e);
                assert(prev.contains(e));
                let (q, a) = choose|q: int, a: int|
                    0 <= q < rest.len() && 0 <= a < rest[q].mentions.len()
                        && #[trigger] rest[q].mentions[a] == e;
                assert(rest[q] == frags[q]);
                assert(frags[q].mentions[a] == e);
            } else {
                assert(frags[n].mentions[j - prev.len()] == e);
            }
        }
    }
}

/// The pieces of virtual registers are pieces, and each of them is there.
proof fn lemma_virtual_pieces(pieces: Seq<Piece>)
    ensures
        forall|g: int|
            0 <= g < pieces.len() && !(#[trigger] pieces[g]).reg.spec_is_real()
                ==> virtual_pieces(pieces).contains(pieces[g]),
        forall|k: int|
            0 <= k < virtual_pieces(pieces).len() ==> {
                &&& pieces.contains(#[trigger] virtual_pieces(pieces)[k])
                &&& !virtual_pieces(pieces)[k].reg.spec_is_real()
            },
    decreases pieces.len(),
{
    if pieces.len() > 0 {
        let rest = pieces.drop_last();
        let n = pieces.len() - 1;
        let prev = virtual_pieces(rest);
        let all = virtual_pieces(pieces);
        lemma_virtual_pieces(rest);
        assert forall|g: int|
            0 <= g < pieces.len() && !(
            #[trigger] pieces[g]).reg.spec_is_real() implies all.contains(pieces[g]) by {
            if g < n {
                assert(rest[g] == pieces[g]);
                let j = choose|j: int| 0 <= j < prev.len() && prev[j] == rest[g];
                assert(all[j] == prev[j]);
            } else {
                assert(all[prev.len() as int] == pieces[n]);
            }
        }
        assert forall|k: int| 0 <= k < all.len() implies {
            &&& pieces.contains(#[trigger] all[k])
            &&& !all[k].reg.spec_is_real()
        } by {
            if k < prev.len() {
                assert(all[k] == prev[k]);
                let g = choose|g: int| 0 <= g < rest.len() && rest[g] == prev[k];
                assert(pieces[g] == all[k]);
            } else {
                assert(pieces[n] == all[k]);
            }
        }
    }
}

/// The interval that some fragments make takes in each of them.
pub proof fn lemma_interval_takes_in(v: VirtualInterval, id: int, r: Reg, frags: Seq<FragView>)
    requires
        is_interval(v, id, r, frags),
        frags.len() >= 1,
        forall|q: int|
            0 <= q < frags.len() ==> 0 <= (#[trigger] frags[q]).first <= u64::MAX && 0
                <= frags[q].last,
    ensures
        forall|q: int| 0 <= q < frags.len() ==> takes_in(v, #[trigger] frags[q]),
{
    lemma_interval_spans(frags);
    lemma_all_mentions(frags);
    let all = all_mentions(frags);
    assert forall|q: int| 0 <= q < frags.len() implies takes_in(v, #[trigger] frags[q]) by {
        let f = frags[q];
        assert forall|a: int| 0 <= a < f.mentions.len() implies says(
            v.mentions@,
            (#[trigger] f.mentions[a]).0,
            f.mentions[a].1,
        ) by {
            let (i, m) = frags[q].mentions[a];
            assert(all.contains((i, m)));
            assert(mentioned(all, i));
            let j = choose|j: int| 0 <= j < v.mentions@.len() && (#[trigger] v.mentions@[j]).0 == i;
            assert(v.mentions@[j].1 == noted(all, i));
        }
    }
}

/// The fragments of a group are fragments of its register.
pub proof fn lemma_group_frags(items: Seq<FragItem>, groups: Seq<Group>, g: int, a: int) -> (x: int)
    requires
        items.len() <= u32::MAX,
        0 <= g < groups.len(),
        group_ok(listing(items), groups[g]),
        0 <= a < groups[g].members.len(),
    ensures
        x == listing(items)[groups[g].reg][groups[g].members[a]].ix,
        0 <= x < items.len(),
        items[x].reg == groups[g].reg,
        group_pieces(listing(items), item_frags(items), groups)[g].frags[a] == items[x].frag,
        metrics_of(item_metrics(items), listing(items)[groups[g].reg])[groups[g].members[a]]
            == items[x].metrics,
{
    let l = listing(items)[groups[g].reg];
    lemma_positions(item_regs(items));
    assert(item_regs(items)[l[groups[g].members[a]].ix as int] == groups[g].reg);
    l[groups[g].members[a]].ix as int
}

/// Each live range of a virtual register has an interval, which takes in all its fragments.
pub proof fn lemma_interval_of_group(
    model: FunctionModel,
    code: Seq<InsnRegs>,
    succs: Seq<Seq<BlockIx>>,
    liveins: Seq<SparseSet>,
    liveouts: Seq<SparseSet>,
    items: Seq<FragItem>,
    groups: Seq<Group>,
    virtuals: Seq<VirtualInterval>,
    g: int,
)
    requires
        frags_ready(model, code, liveins, liveouts),
        are_items(model, code, liveins, liveouts, items),
        are_groups(listing(items), item_metrics(items), succs, groups),
        are_virtuals(group_pieces(listing(items), item_frags(items), groups), virtuals),
        0 <= g < groups.len(),
        !groups[g].reg.spec_is_real(),
    ensures
        exists|k: int|
            {
                let piece = group_pieces(listing(items), item_frags(items), groups)[g];
                &&& 0 <= k < virtuals.len()
                &&& is_interval(#[trigger] virtuals[k], k, piece.reg, piece.frags)
                &&& forall|a: int|
                    0 <= a < piece.frags.len() ==> takes_in(virtuals[k], #[trigger] piece.frags[a])
            },
{
    let pieces = group_pieces(listing(items), item_frags(items), groups);
    let piece = pieces[g];
    lemma_items_placed(model, code, liveins, liveouts, items);
    lemma_virtual_pieces(pieces);
    assert(piece.reg == groups[g].reg);
    assert(virtual_pieces(pieces).contains(pieces[g]));
    let k = choose|k: int|
        0 <= k < virtual_pieces(pieces).len() && virtual_pieces(pieces)[k] == pieces[g];
    assert(is_interval(virtuals[k], k, piece.reg, piece.frags));
    assert(group_ok(listing(items), groups[g]));
    assert forall|a: int| 0 <= a < piece.frags.len() implies 0 <= (
    #[trigger] piece.frags[a]).first <= u64::MAX && 0 <= piece.frags[a].last by {
        let x = lemma_group_frags(items, groups, g, a);
        assert(item_placed(model, code, liveins, items[x]));
        assert(model.blocks[items[x].metrics.bix.ix as int].ok());
    }
    lemma_interval_takes_in(virtuals[k], k, piece.reg, piece.frags);
}

/// Each interval of a virtual register is made of fragments of that register.
pub proof fn lemma_group_of_interval(
    items: Seq<FragItem>,
    groups: Seq<Group>,
    virtuals: Seq<VirtualInterval>,
    k: int,
)
    requires
        are_virtuals(group_pieces(listing(items), item_frags(items), groups), virtuals),
        0 <= k < virtuals.len(),
    ensures
        exists|g: int|
            {
                let pieces = group_pieces(listing(items), item_frags(items), groups);
                &&& 0 <= g < groups.len()
                &&& !(#[trigger] groups[g]).reg.spec_is_real()
                &&& is_interval(virtuals[k], k, groups[g].reg, pieces[g].frags)
            },
{
    let pieces = group_pieces(listing(items), item_frags(items), groups);
    lemma_virtual_pieces(pieces);
    let piece = virtual_pieces(pieces)[k];
    assert(is_interval(virtuals[k], k, piece.reg, piece.frags));
    let g = choose|g: int| 0 <= g < pieces.len() && pieces[g] == piece;
    assert(pieces[g].reg == groups[g].reg);
}

/// Every fragment of a virtual register is taken in by an interval of that register.
pub proof fn lemma_interval_of_item(
    model: FunctionModel,
    code: Seq<InsnRegs>,
    succs: Seq<Seq<BlockIx>>,
    liveins: Seq<SparseSet>,
    liveouts: Seq<SparseSet>,
    items: Seq<FragItem>,
    groups: Seq<Group>,
    virtuals: Seq<VirtualInterval>,
    x: int,
)
    requires
        frags_ready(model, code, liveins, liveouts),
        are_items(model, code, liveins, liveouts, items),
        are_groups(listing(items), item_metrics(items), succs, groups),
        are_virtuals(group_pieces(listing(items), item_frags(items), groups), virtuals),
        0 <= x < items.len(),
        !items[x].reg.spec_is_real(),
    ensures
        exists|k: int|
            {
                &&& 0 <= k < virtuals.len()
                &&& (#[trigger] virtuals[k]).vreg.reg == items[x].reg
                &&& takes_in(virtuals[k], items[x].frag)
            },
{
    let r = items[x].reg;
    lemma_items_placed(model, code, liveins, liveouts, items);
    let p = lemma_position(items, x);
    assert(in_some_group(groups, r, p));
    let g = choose|g: int|
        0 <= g < groups.len() && (#[trigger] groups[g]).reg == r && groups[g].members.contains(p);
    let a = choose|a: int| 0 <= a < groups[g].members.len() && groups[g].members[a] == p;
    assert(group_ok(listing(items), groups[g]));
    let y = lemma_group_frags(items, groups, g, a);
    assert(y == x);
    lemma_interval_of_group(model, code, succs, liveins, liveouts, items, groups, virtuals, g);
    let piece = group_pieces(listing(items), item_frags(items), groups)[g];
    let k = choose|k: int|
        {
            &&& 0 <= k < virtuals.len()
            &&& is_interval(#[trigger] virtuals[k], k, piece.reg, piece.frags)
            &&& forall|b: int|
                0 <= b < piece.frags.len() ==> takes_in(virtuals[k], #[trigger] piece.frags[b])
        };
    assert(takes_in(virtuals[k], piece.frags[a]));
}

} // verus!
