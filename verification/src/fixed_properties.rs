//! What the intervals of real registers have in common.

use crate::analysis::{is_sorted_fixed, listing};
use crate::block_model::{
    item_frags, item_metrics, item_regs, lemma_positions, FragItem, FragView,
};
use crate::data_structures::{BlockIx, InsnRegs, RangeFragIx, RealRegUniverse, Reg};
use crate::frag_properties::{lemma_items_in_order, writes_distinct};
use crate::function::FunctionModel;
use crate::interval_properties::lemma_position;
use crate::intervals::{real_frags, FixedInterval};
use crate::merging::{
    are_groups, connected, group_ok, group_pieces, in_some_group, lemma_connected_refl, metrics_of,
    Group,
};
use crate::range_frags::{
    are_items, are_rests, block_code, block_ready, frag_views, frags_ready, items_before,
    lemma_live_outs_open,
};
use crate::seq_facts::lemma_same_elements;
use crate::sparse_set::SparseSet;
use vstd::prelude::*;

verus! {

/// No instruction is in two blocks.
pub open spec fn blocks_disjoint(model: FunctionModel) -> bool {
    forall|a: int, b: int|
        0 <= a < b < model.blocks.len() ==> (#[trigger] model.blocks[a]).hi() <= (
        #[trigger] model.blocks[b]).lo() || model.blocks[b].hi() <= model.blocks[a].lo()
}

/// Each instruction of a block lists a register at most once among its writes, and not also among
/// its modifications.
pub open spec fn writes_once(model: FunctionModel, code: Seq<InsnRegs>) -> bool {
    forall|i: int|
        model.holds(i) ==> {
            &&& (#[trigger] code[i]).defs.no_duplicates()
            &&& forall|r: Reg| #[trigger] code[i].defs.contains(r) ==> !code[i].mods.contains(r)
        }
}

/// One of the fragments is over where the other starts.
pub open spec fn apart(f: FragView, g: FragView) -> bool {
    f.last < g.first || g.last < f.first
}

/// No two fragments of a register overlap.
pub open spec fn all_apart(items: Seq<FragItem>) -> bool {
    forall|j: int, k: int|
        0 <= j < k < items.len() && (#[trigger] items[j]).reg == (#[trigger] items[k]).reg
            ==> apart(items[j].frag, items[k].frag)
}

proof fn lemma_apart_before(
    model: FunctionModel,
    code: Seq<InsnRegs>,
    liveins: Seq<SparseSet>,
    liveouts: Seq<SparseSet>,
    rests: Seq<Seq<Reg>>,
    n: int,
)
    requires
        frags_ready(model, code, liveins, liveouts),
        blocks_disjoint(model),
        writes_once(model, code),
        rests.len() == model.blocks.len(),
        are_rests(model, code, liveins, liveouts, rests),
        0 <= n <= model.blocks.len(),
    ensures
        all_apart(items_before(model, code, liveins, liveouts, rests, n)),
        forall|k: int|
            0 <= k < items_before(model, code, liveins, liveouts, rests, n).len() ==> {
                let t = #[trigger] items_before(model, code, liveins, liveouts, rests, n)[k];
                let b = t.metrics.bix.ix as int;
                &&& b < n
                &&& block_code(model, b, liveins[b]@, code).item_true(t)
            },
    decreases n,
{
    if n > 0 {
        lemma_apart_before(model, code, liveins, liveouts, rests, n - 1);
        let before = items_before(model, code, liveins, liveouts, rests, n - 1);
        let now = items_before(model, code, liveins, liveouts, rests, n);
        let c = block_code(model, n - 1, liveins[n - 1]@, code);
        let new = c.items(liveouts[n - 1].order(), rests[n - 1]);
        assert(now == before + new);
        assert(block_ready(c, liveins[n - 1], liveouts[n - 1]));
        assert(c.is_rest(liveouts[n - 1].order(), rests[n - 1]));
        lemma_live_outs_open(c, liveins[n - 1], liveouts[n - 1]);
        liveouts[n - 1].lemma_order();
        c.lemma_items_true(liveouts[n - 1].order(), rests[n - 1]);
        assert(forall|i: int| c.block.lo() <= i < c.block.hi() ==> model.holds(i)) by {
            assert(c.block == model.blocks[n - 1]);
        }
        assert(writes_distinct(c));
        lemma_items_in_order(c, liveouts[n - 1].order(), rests[n - 1]);
        assert forall|k: int| 0 <= k < now.len() implies {
            let t = #[trigger] now[k];
            let b = t.metrics.bix.ix as int;
            &&& b < n
            &&& block_code(model, b, liveins[b]@, code).item_true(t)
            &&& k < before.len() ==> b < n - 1
            &&& k >= before.len() ==> b == n - 1
        } by {
            if k < before.len() {
                assert(now[k] == before[k]);
            } else {
                assert(now[k] == new[k - before.len()]);
                assert(c.item_true(new[k - before.len()]));
            }
        }
        assert forall|j: int, k: int|
            0 <= j < k < now.len() && (#[trigger] now[j]).reg == (
            #[trigger] now[k]).reg implies apart(now[j].frag, now[k].frag) by {
            if k < before.len() {
                assert(now[j] == before[j] && now[k] == before[k]);
            } else if j >= before.len() {
                assert(now[j] == new[j - before.len()] && now[k] == new[k - before.len()]);
            } else {
                let a = now[j].metrics.bix.ix as int;
                let b = now[k].metrics.bix.ix as int;
                assert(model.blocks[a].hi() <= model.blocks[b].lo() || model.blocks[b].hi()
                    <= model.blocks[a].lo());
            }
        }
    }
}

/// No two fragments of a register overlap anywhere in the function.
pub proof fn lemma_items_apart(
    model: FunctionModel,
    code: Seq<InsnRegs>,
    liveins: Seq<SparseSet>,
    liveouts: Seq<SparseSet>,
    items: Seq<FragItem>,
)
    requires
        frags_ready(model, code, liveins, liveouts),
        blocks_disjoint(model),
        writes_once(model, code),
        are_items(model, code, liveins, liveouts, items),
    ensures
        all_apart(items),
{
    let n = model.blocks.len() as int;
    let rests = choose|rests: Seq<Seq<Reg>>|
        {
            &&& rests.len() == n
            &&& are_rests(model, code, liveins, liveouts, rests)
            &&& items == #[trigger] items_before(model, code, liveins, liveouts, rests, n)
        };
    lemma_apart_before(model, code, liveins, liveouts, rests, n);
}

/// The register is the real one with index `k`.
pub open spec fn is_real_with(r: Reg, k: int) -> bool {
    r.spec_is_real() && r.real_index() == k
}

/// The numbers of the fragments of a group.
spec fn group_ixs(map: Map<Reg, Seq<RangeFragIx>>, g: Group) -> Seq<int> {
    g.members.map_values(|p: int| map[g.reg][p].ix as int)
}

/// The numbers of the fragments of all groups that belong to the real register with index `k`.
spec fn real_ixs(map: Map<Reg, Seq<RangeFragIx>>, groups: Seq<Group>, k: int) -> Seq<int>
    decreases groups.len(),
{
    if groups.len() == 0 {
        Seq::empty()
    } else if is_real_with(groups.last().reg, k) {
        real_ixs(map, groups.drop_last(), k) + group_ixs(map, groups.last())
    } else {
        real_ixs(map, groups.drop_last(), k)
    }
}

proof fn lemma_real_frags(
    map: Map<Reg, Seq<RangeFragIx>>,
    views: Seq<FragView>,
    groups: Seq<Group>,
    k: int,
)
    ensures
        real_frags(group_pieces(map, views, groups), k) == real_ixs(map, groups, k).map_values(
            |x: int| views[x],
        ),
    decreases groups.len(),
{
    let f = |x: int| views[x];
    let pieces = group_pieces(map, views, groups);
    if groups.len() > 0 {
        let rest = groups.drop_last();
        lemma_real_frags(map, views, rest, k);
        assert(pieces.drop_last() =~= group_pieces(map, views, rest));
        assert(pieces.last().reg == groups.last().reg);
        if is_real_with(groups.last().reg, k) {
            assert(pieces.last().frags =~= group_ixs(map, groups.last()).map_values(f));
            assert(real_frags(pieces, k) =~= real_ixs(map, groups, k).map_values(f));
        } else {
            assert(real_frags(pieces, k) =~= real_ixs(map, groups, k).map_values(f));
        }
    } else {
        assert(real_frags(pieces, k) =~= real_ixs(map, groups, k).map_values(f));
    }
}

/// The fragment with number `x` is in one of the first `n` groups, which belongs to the real
/// register with index `k`.
spec fn in_real_group(
    map: Map<Reg, Seq<RangeFragIx>>,
    groups: Seq<Group>,
    n: int,
    k: int,
    x: int,
) -> bool {
    exists|g: int, a: int|
        {
            &&& 0 <= g < n
            &&& is_real_with(groups[g].reg, k)
            &&& 0 <= a < groups[g].members.len()
            &&& map[groups[g].reg][#[trigger] groups[g].members[a]].ix == x
        }
}

proof fn lemma_real_ixs(
    items: Seq<FragItem>,
    succs: Seq<Seq<BlockIx>>,
    groups: Seq<Group>,
    n: int,
    k: int,
)
    requires
        items.len() <= u32::MAX,
        are_groups(listing(items), item_metrics(items), succs, groups),
        0 <= n <= groups.len(),
    ensures
        real_ixs(listing(items), groups.take(n), k).no_duplicates(),
        forall|x: int| #[trigger]
            real_ixs(listing(items), groups.take(n), k).contains(x) <==> in_real_group(
                listing(items),
                groups,
                n,
                k,
                x,
            ),
    decreases n,
{
    let map = listing(items);
    let now = real_ixs(map, groups.take(n), k);
    if n > 0 {
        lemma_real_ixs(items, succs, groups, n - 1, k);
        let prev = real_ixs(map, groups.take(n - 1), k);
        let last = groups[n - 1];
        assert(groups.take(n).drop_last() =~= groups.take(n - 1));
        assert(groups.take(n).last() == last);
        assert(group_ok(map, last));
        lemma_positions(item_regs(items));
        if is_real_with(last.reg, k) {
            let new = group_ixs(map, last);
            assert(now == prev + new);
            assert(new.no_duplicates()) by {
                assert forall|a: int, b: int|
                    0 <= a < new.len() && 0 <= b < new.len() && a != b implies new[a]
                    != new[b] by {
                    let p = last.members[a];
                    let q = last.members[b];
                    assert(p != q);
                    if p < q {
                        assert(map[last.reg][p].ix < map[last.reg][q].ix);
                    } else {
                        assert(map[last.reg][q].ix < map[last.reg][p].ix);
                    }
                }
            }
            assert forall|x: int| prev.contains(x) implies !new.contains(x) by {
                if new.contains(x) {
                    assert(in_real_group(map, groups, n - 1, k, x));
                    let (g, a) = choose|g: int, a: int|
                        {
                            &&& 0 <= g < n - 1
                            &&& is_real_with(groups[g].reg, k)
                            &&& 0 <= a < groups[g].members.len()
                            &&& map[groups[g].reg][#[trigger] groups[g].members[a]].ix == x
                        };
                    let b = choose|b: int| 0 <= b < new.len() && new[b] == x;
                    assert(group_ok(map, groups[g]));
                    let p = groups[g].members[a];
                    let q = groups[n - 1].members[b];
                    assert(item_regs(items)[map[groups[g].reg][p].ix as int] == groups[g].reg);
                    assert(item_regs(items)[map[last.reg][q].ix as int] == last.reg);
                    assert(groups[g].reg == last.reg);
                    if p < q {
                        assert(map[last.reg][p].ix < map[last.reg][q].ix);
                    } else if q < p {
                        assert(map[last.reg][q].ix < map[last.reg][p].ix);
                    }
                    let ms = metrics_of(item_metrics(items), map[last.reg]);
                    lemma_connected_refl(succs, ms, p);
                    assert(connected(succs, ms, groups[g].members[a], groups[n - 1].members[b]));
                }
            }
            assert(now.no_duplicates()) by {
                assert forall|i: int, j: int|
                    0 <= i < now.len() && 0 <= j < now.len() && i != j implies now[i]
                    != now[j] by {
                    if i < prev.len() && j >= prev.len() {
                        assert(prev.contains(prev[i]));
                        assert(new[j - prev.len()] == now[j]);
                    } else if j < prev.len() && i >= prev.len() {
                        assert(prev.contains(prev[j]));
                        assert(new[i - prev.len()] == now[i]);
                    }
                }
            }
            assert forall|x: int| #[trigger] now.contains(x) <==> in_real_group(
                map,
                groups,
                n,
                k,
                x,
            ) by {
                if now.contains(x) {
                    let i = choose|i: int| 0 <= i < now.len() && now[i] == x;
                    if i < prev.len() {
                        assert(prev[i] == x);
                        assert(prev.contains(x));
                        assert(in_real_group(map, groups, n - 1, k, x));
                    } else {
                        assert(map[groups[n - 1].reg][groups[n - 1].members[i - prev.len()]].ix
                            == x);
                    }
                }
                if in_real_group(map, groups, n, k, x) {
                    let (g, a) = choose|g: int, a: int|
                        {
                            &&& 0 <= g < n
                            &&& is_real_with(groups[g].reg, k)
                            &&& 0 <= a < groups[g].members.len()
                            &&& map[groups[g].reg][#[trigger] groups[g].members[a]].ix == x
                        };
                    if g < n - 1 {
                        assert(in_real_group(map, groups, n - 1, k, x));
                        assert(prev.contains(x));
                        let i = choose|i: int| 0 <= i < prev.len() && prev[i] == x;
                        assert(now[i] == x);
                    } else {
                        assert(new[a] == x);
                        assert(now[prev.len() + a] == x);
                    }
                }
            }
        } else {
            assert(now == prev);
            assert forall|x: int| #[trigger] now.contains(x) <==> in_real_group(
                map,
                groups,
                n,
                k,
                x,
            ) by {
                if in_real_group(map, groups, n, k, x) {
                    assert(in_real_group(map, groups, n - 1, k, x));
                }
            }
        }
    } else {
        assert(groups.take(n) =~= Seq::<Group>::empty());
    }
}

/// A fragment is in a group of a real register exactly if it belongs to that register.
proof fn lemma_in_real_group(
    items: Seq<FragItem>,
    succs: Seq<Seq<BlockIx>>,
    groups: Seq<Group>,
    k: int,
    x: int,
)
    requires
        items.len() <= u32::MAX,
        are_groups(listing(items), item_metrics(items), succs, groups),
    ensures
        in_real_group(listing(items), groups, groups.len() as int, k, x) <==> 0 <= x < items.len()
            && is_real_with(items[x].reg, k),
{
    let map = listing(items);
    lemma_positions(item_regs(items));
    if in_real_group(map, groups, groups.len() as int, k, x) {
        let (g, a) = choose|g: int, a: int|
            {
                &&& 0 <= g < groups.len()
                &&& is_real_with(groups[g].reg, k)
                &&& 0 <= a < groups[g].members.len()
                &&& map[groups[g].reg][#[trigger] groups[g].members[a]].ix == x
            };
        assert(group_ok(map, groups[g]));
        assert(item_regs(items)[map[groups[g].reg][groups[g].members[a]].ix as int]
            == groups[g].reg);
    }
    if 0 <= x < items.len() && is_real_with(items[x].reg, k) {
        let p = lemma_position(items, x);
        assert(in_some_group(groups, items[x].reg, p));
        let g = choose|g: int|
            0 <= g < groups.len() && (#[trigger] groups[g]).reg == items[x].reg
                && groups[g].members.contains(p);
        let a = choose|a: int| 0 <= a < groups[g].members.len() && groups[g].members[a] == p;
        assert(map[groups[g].reg][groups[g].members[a]].ix == x);
    }
}

/// A fragment of the real register with index `k` that looks like `f` is among the items.
pub open spec fn has_real_frag(items: Seq<FragItem>, k: int, f: FragView) -> bool {
    exists|x: int|
        0 <= x < items.len() && is_real_with((#[trigger] items[x]).reg, k) && items[x].frag == f
}

/// The fragments that the interval of a real register holds, by number: those of that register,
/// each once.
pub proof fn lemma_fixed_listing(
    univ: RealRegUniverse,
    items: Seq<FragItem>,
    succs: Seq<Seq<BlockIx>>,
    groups: Seq<Group>,
    k: int,
    fixed: FixedInterval,
) -> (ixs: Seq<int>)
    requires
        items.len() <= u32::MAX,
        are_groups(listing(items), item_metrics(items), succs, groups),
        is_sorted_fixed(
            univ,
            group_pieces(listing(items), item_frags(items), groups),
            k,
            fixed,
        ),
    ensures
        ixs.no_duplicates(),
        forall|x: int| #[trigger]
            ixs.contains(x) <==> 0 <= x < items.len() && is_real_with(items[x].reg, k),
        frag_views(fixed.frags@).to_multiset() == ixs.map_values(
            |x: int| items[x].frag,
        ).to_multiset(),
{
    let views = item_frags(items);
    let ixs = real_ixs(listing(items), groups, k);
    lemma_real_frags(listing(items), views, groups, k);
    assert(groups.take(groups.len() as int) =~= groups);
    lemma_real_ixs(items, succs, groups, groups.len() as int, k);
    assert forall|x: int| #[trigger] ixs.contains(x) <==> 0 <= x < items.len() && is_real_with(
        items[x].reg,
        k,
    ) by {
        lemma_in_real_group(items, succs, groups, k, x);
    }
    let ones = ixs.map_values(|x: int| views[x]);
    let others = ixs.map_values(|x: int| items[x].frag);
    assert(ones =~= others) by {
        assert forall|j: int| 0 <= j < ixs.len() implies ones[j] == #[trigger] others[j] by {
            assert(ixs.contains(ixs[j]));
        }
    }
    ixs
}

/// The interval of a real register holds all fragments of that register, and no others.
pub proof fn lemma_fixed_complete(
    univ: RealRegUniverse,
    items: Seq<FragItem>,
    succs: Seq<Seq<BlockIx>>,
    groups: Seq<Group>,
    k: int,
    fixed: FixedInterval,
)
    requires
        items.len() <= u32::MAX,
        are_groups(listing(items), item_metrics(items), succs, groups),
        is_sorted_fixed(
            univ,
            group_pieces(listing(items), item_frags(items), groups),
            k,
            fixed,
        ),
    ensures
        forall|f: FragView| #[trigger]
            frag_views(fixed.frags@).contains(f) <==> has_real_frag(items, k, f),
{
    let views = item_frags(items);
    let pieces = group_pieces(listing(items), views, groups);
    let ixs = real_ixs(listing(items), groups, k);
    let all = real_frags(pieces, k);
    lemma_real_frags(listing(items), views, groups, k);
    assert(groups.take(groups.len() as int) =~= groups);
    lemma_real_ixs(items, succs, groups, groups.len() as int, k);
    lemma_same_elements(frag_views(fixed.frags@), all);
    assert forall|f: FragView| #[trigger]
        frag_views(fixed.frags@).contains(f) <==> has_real_frag(items, k, f) by {
        if all.contains(f) {
            let j = choose|j: int| 0 <= j < all.len() && all[j] == f;
            assert(ixs.contains(ixs[j]));
            lemma_in_real_group(items, succs, groups, k, ixs[j]);
            assert(items[ixs[j]].frag == f);
        }
        if has_real_frag(items, k, f) {
            let x = choose|x: int|
                0 <= x < items.len() && is_real_with((#[trigger] items[x]).reg, k)
                    && items[x].frag == f;
            lemma_in_real_group(items, succs, groups, k, x);
            assert(ixs.contains(x));
            let j = choose|j: int| 0 <= j < ixs.len() && ixs[j] == x;
            assert(all[j] == f);
        }
    }
}

/// The fragments of the interval of a real register stand in the order of the program, and do
/// not overlap.
pub proof fn lemma_fixed_in_order(
    univ: RealRegUniverse,
    items: Seq<FragItem>,
    succs: Seq<Seq<BlockIx>>,
    groups: Seq<Group>,
    k: int,
    fixed: FixedInterval,
)
    requires
        items.len() <= u32::MAX,
        are_groups(listing(items), item_metrics(items), succs, groups),
        is_sorted_fixed(
            univ,
            group_pieces(listing(items), item_frags(items), groups),
            k,
            fixed,
        ),
        all_apart(items),
        forall|x: int|
            0 <= x < items.len() ==> (#[trigger] items[x]).frag.first <= items[x].frag.last,
        forall|x: int, y: int|
            0 <= x < items.len() && 0 <= y < items.len() && is_real_with(
                (#[trigger] items[x]).reg,
                k,
            ) && is_real_with((#[trigger] items[y]).reg, k) ==> items[x].reg == items[y].reg,
    ensures
        forall|a: int, b: int|
            0 <= a < b < fixed.frags@.len() ==> (#[trigger] fixed.frags@[a]).last@ < (
            #[trigger] fixed.frags@[b]).first@,
{
    let views = item_frags(items);
    let pieces = group_pieces(listing(items), views, groups);
    let ixs = real_ixs(listing(items), groups, k);
    let all = real_frags(pieces, k);
    let kept = frag_views(fixed.frags@);
    lemma_real_frags(listing(items), views, groups, k);
    assert(groups.take(groups.len() as int) =~= groups);
    lemma_real_ixs(items, succs, groups, groups.len() as int, k);
    assert forall|i: int, j: int| 0 <= i < j < all.len() implies apart(
        #[trigger] all[i],
        #[trigger] all[j],
    ) && all[i].first <= all[i].last && all[j].first <= all[j].last by {
        assert(ixs.contains(ixs[i]));
        assert(ixs.contains(ixs[j]));
        assert(ixs[i] != ixs[j]);
        lemma_in_real_group(items, succs, groups, k, ixs[i]);
        lemma_in_real_group(items, succs, groups, k, ixs[j]);
        assert(all[i] == items[ixs[i]].frag);
        assert(all[j] == items[ixs[j]].frag);
    }
    assert(all.no_duplicates()) by {
        assert forall|i: int, j: int|
            0 <= i < all.len() && 0 <= j < all.len() && i != j implies all[i] != all[j] by {
            if i < j {
                assert(apart(all[i], all[j]));
            } else {
                assert(apart(all[j], all[i]));
            }
        }
    }
    lemma_same_elements(all, kept);
    assert forall|a: int, b: int| 0 <= a < b < fixed.frags@.len() implies (
    #[trigger] fixed.frags@[a]).last@ < (#[trigger] fixed.frags@[b]).first@ by {
        assert(kept[a] == fixed.frags@[a]@);
        assert(kept[b] == fixed.frags@[b]@);
        assert(kept[a] != kept[b]);
        assert(all.contains(kept[a]) && all.contains(kept[b]));
        let i = choose|i: int| 0 <= i < all.len() && all[i] == kept[a];
        let j = choose|j: int| 0 <= j < all.len() && all[j] == kept[b];
        if i < j {
            assert(apart(all[i], all[j]));
        } else {
            assert(apart(all[j], all[i]));
        }
    }
}

} // verus!
