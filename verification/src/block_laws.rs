//! What the fragments of one block are, told in plain words.

use crate::block_model::{
    add_positions, item_frags, item_metrics, item_regs, listed, point_in_block, BlockCode,
    FragItem,
};
use crate::data_structures::{BlockIx, InstRange, RangeFragIx, Reg, RegVecsAndBounds};
use crate::fragment_laws::lemma_are_values;
use crate::function::FunctionModel;
use crate::liveness_laws::{lemma_block_lists, lemma_code_fits, lemma_defs};
use crate::plain::{
    at, code_fits, defs_at, defs_before, first_of, governs, has_value, is_value, kind_fits, last_of,
    mods_at, notes_def, notes_mod, notes_use, reads_at, starts, uses_at, writes_once_at,
    writes_plainly,
};
use crate::range_frags::{
    appended, are_items, are_rests, block_code, block_ready, frag_count_before, frag_views,
    frags_ready, items_before, ix_lists, RangeFrag, RangeFragMetrics,
};
use crate::seq_facts::lemma_push_contains;
use crate::sparse_set::{set_views, SparseSet};
use vstd::prelude::*;

verus! {

/// The items are all values of all registers in block `b`, each once.
pub open spec fn are_values_of(
    model: FunctionModel,
    rvb: RegVecsAndBounds,
    livein: Set<Reg>,
    liveout: Set<Reg>,
    b: int,
    items: Seq<FragItem>,
) -> bool {
    &&& forall|x: int|
        0 <= x < items.len() ==> {
            &&& (#[trigger] items[x]).metrics.bix.ix == b
            &&& is_value(model, rvb, livein, liveout, b, items[x].reg, items[x].frag)
            &&& kind_fits(
                model,
                b,
                items[x].metrics.kind,
                items[x].frag.first,
                items[x].frag.last,
            )
        }
    &&& forall|r: Reg, s: int| #[trigger]
        starts(model, rvb, livein, b, r, s) ==> has_value(items, b, r, s)
    &&& forall|x: int, y: int|
        0 <= x < y < items.len() && (#[trigger] items[x]).reg == (#[trigger] items[y]).reg
            ==> items[x].frag.first != items[y].frag.first
}

/// The function that has block `b` and no other.
spec fn alone(model: FunctionModel, b: int) -> FunctionModel {
    FunctionModel { blocks: seq![model.blocks[b]], entry: 0, ..model }
}

/// The item, moved to another block.
spec fn moved(bix: BlockIx, t: FragItem) -> FragItem {
    FragItem {
        reg: t.reg,
        frag: t.frag,
        metrics: RangeFragMetrics { bix, kind: t.metrics.kind },
    }
}

/// The blocks differ in their number alone.
spec fn alike(c: BlockCode, d: BlockCode) -> bool {
    c.code == d.code && c.block == d.block && c.livein == d.livein
}

proof fn lemma_open_alike(c: BlockCode, d: BlockCode, r: Reg, i: int)
    requires
        alike(c, d),
    ensures
        c.open_frag(r, i) == d.open_frag(r, i),
    decreases i - c.block.lo(),
{
    if i > c.block.lo() {
        lemma_open_alike(c, d, r, i - 1);
    }
}

proof fn lemma_ended_by_alike(c: BlockCode, d: BlockCode, i: int, k: int)
    requires
        alike(c, d),
    ensures
        c.ended_by_insn(i, k) == d.ended_by_insn(i, k).map_values(|t: FragItem| moved(c.bix, t)),
    decreases k,
{
    if k > 0 {
        lemma_ended_by_alike(c, d, i, k - 1);
        lemma_open_alike(c, d, c.code[i].defs[k - 1], i);
    }
    assert(c.ended_by_insn(i, k) =~= d.ended_by_insn(i, k).map_values(
        |t: FragItem| moved(c.bix, t),
    ));
}

proof fn lemma_ended_alike(c: BlockCode, d: BlockCode, i: int)
    requires
        alike(c, d),
    ensures
        c.ended_before(i) == d.ended_before(i).map_values(|t: FragItem| moved(c.bix, t)),
    decreases i - c.block.lo(),
{
    if i > c.block.lo() {
        lemma_ended_alike(c, d, i - 1);
        lemma_ended_by_alike(c, d, i - 1, c.code[i - 1].defs.len() as int);
    }
    assert(c.ended_before(i) =~= d.ended_before(i).map_values(|t: FragItem| moved(c.bix, t)));
}

proof fn lemma_items_alike(c: BlockCode, d: BlockCode, liveouts: Seq<Reg>, rest: Seq<Reg>)
    requires
        alike(c, d),
    ensures
        c.is_rest(liveouts, rest) ==> d.is_rest(liveouts, rest),
        c.items(liveouts, rest) == d.items(liveouts, rest).map_values(
            |t: FragItem| moved(c.bix, t),
        ),
{
    lemma_ended_alike(c, d, c.block.hi());
    assert forall|r: Reg| #[trigger] c.end_frag(r) == d.end_frag(r) by {
        lemma_open_alike(c, d, r, c.block.hi());
    }
    if c.is_rest(liveouts, rest) {
        assert forall|r: Reg| #[trigger] rest.contains(r) <==> d.end_frag(r) is Some
            && !liveouts.contains(r) by {
            assert(c.end_frag(r) == d.end_frag(r));
        }
    }
    let a = liveouts.map_values(|r: Reg| c.live_out_item(r));
    let b = liveouts.map_values(|r: Reg| d.live_out_item(r));
    assert(a =~= b.map_values(|t: FragItem| moved(c.bix, t))) by {
        assert forall|k: int| 0 <= k < a.len() implies a[k] == moved(c.bix, #[trigger] b[k]) by {
            assert(c.end_frag(liveouts[k]) == d.end_frag(liveouts[k]));
        }
    }
    let e = rest.map_values(|r: Reg| c.dead_item(r));
    let f = rest.map_values(|r: Reg| d.dead_item(r));
    assert(e =~= f.map_values(|t: FragItem| moved(c.bix, t))) by {
        assert forall|k: int| 0 <= k < e.len() implies e[k] == moved(c.bix, #[trigger] f[k]) by {
            assert(c.end_frag(rest[k]) == d.end_frag(rest[k]));
        }
    }
    assert(c.items(liveouts, rest) =~= d.items(liveouts, rest).map_values(
        |t: FragItem| moved(c.bix, t),
    ));
}

proof fn lemma_count_alike(c: BlockCode, d: BlockCode, i: int)
    requires
        alike(c, d),
    ensures
        c.writes_before(i) == d.writes_before(i),
    decreases i - c.block.lo(),
{
    if i > c.block.lo() {
        lemma_count_alike(c, d, i - 1);
    }
}

/// A block does the same alone as among others.
proof fn lemma_words_alone(model: FunctionModel, rvb: RegVecsAndBounds, livein: Set<Reg>, b: int)
    requires
        0 <= b < model.blocks.len(),
    ensures
        forall|i: int| #[trigger] at(alone(model, b), 0, i) <==> at(model, b, i),
        forall|r: Reg, s: int| #[trigger]
            starts(alone(model, b), rvb, livein, 0, r, s) <==> starts(
                model,
                rvb,
                livein,
                b,
                r,
                s,
            ),
        forall|r: Reg, s: int, p: int| #[trigger]
            governs(alone(model, b), rvb, livein, 0, r, s, p) <==> governs(
                model,
                rvb,
                livein,
                b,
                r,
                s,
                p,
            ),
{
    let m = alone(model, b);
    assert(m.blocks[0] == model.blocks[b]);
    assert forall|i: int| #[trigger] at(m, 0, i) <==> at(model, b, i) by {}
    assert forall|r: Reg, s: int| #[trigger]
        starts(m, rvb, livein, 0, r, s) <==> starts(model, rvb, livein, b, r, s) by {
        if starts(model, rvb, livein, b, r, s) && !(s == 4 * first_of(model, b) + 1
            && livein.contains(r)) {
            let i = choose|i: int|
                at(model, b, i) && #[trigger] defs_at(rvb, i, r) && s == 4 * i + 2;
            assert(at(m, 0, i));
        }
    }
    assert forall|r: Reg, s: int, p: int| #[trigger]
        governs(m, rvb, livein, 0, r, s, p) <==> governs(model, rvb, livein, b, r, s, p) by {
        assert(starts(m, rvb, livein, 0, r, s) <==> starts(model, rvb, livein, b, r, s));
        if governs(m, rvb, livein, 0, r, s, p) {
            assert forall|i: int| at(model, b, i) && #[trigger] defs_at(rvb, i, r) implies !(s < 4
                * i + 2 <= p) by {
                assert(at(m, 0, i));
            }
        }
        if governs(model, rvb, livein, b, r, s, p) {
            assert forall|i: int| at(m, 0, i) && #[trigger] defs_at(rvb, i, r) implies !(s < 4 * i
                + 2 <= p) by {
                assert(at(model, b, i));
            }
        }
    }
}

/// A value of a block alone is one of the block among others.
proof fn lemma_value_alone(
    model: FunctionModel,
    rvb: RegVecsAndBounds,
    livein: Set<Reg>,
    liveout: Set<Reg>,
    b: int,
    t: FragItem,
)
    requires
        0 <= b < model.blocks.len(),
        is_value(alone(model, b), rvb, livein, liveout, 0, t.reg, t.frag),
        kind_fits(alone(model, b), 0, t.metrics.kind, t.frag.first, t.frag.last),
    ensures
        is_value(model, rvb, livein, liveout, b, t.reg, t.frag),
        kind_fits(model, b, t.metrics.kind, t.frag.first, t.frag.last),
{
    let m = alone(model, b);
    let r = t.reg;
    let f = t.frag;
    lemma_words_alone(model, rvb, livein, b);
    assert(m.blocks[0] == model.blocks[b]);
    assert(first_of(m, 0) == first_of(model, b));
    assert(last_of(m, 0) == last_of(model, b));
    assert(starts(m, rvb, livein, 0, r, f.first));
    assert forall|a: int| 0 <= a < f.mentions.len() implies at(
        model,
        b,
        (#[trigger] f.mentions[a]).0.ix as int,
    ) by {
        assert(at(m, 0, f.mentions[a].0.ix as int));
    }
    assert forall|i: int| at(model, b, i) implies (#[trigger] notes_use(f.mentions, i) <==> uses_at(
        rvb,
        i,
        r,
    ) && governs(model, rvb, livein, b, r, f.first, 4 * i + 1)) by {
        assert(at(m, 0, i));
        assert(governs(m, rvb, livein, 0, r, f.first, 4 * i + 1) <==> governs(
            model,
            rvb,
            livein,
            b,
            r,
            f.first,
            4 * i + 1,
        ));
    }
    assert forall|i: int| at(model, b, i) implies (#[trigger] notes_mod(f.mentions, i) <==> mods_at(
        rvb,
        i,
        r,
    ) && governs(model, rvb, livein, b, r, f.first, 4 * i + 2)) by {
        assert(at(m, 0, i));
        assert(governs(m, rvb, livein, 0, r, f.first, 4 * i + 2) <==> governs(
            model,
            rvb,
            livein,
            b,
            r,
            f.first,
            4 * i + 2,
        ));
    }
    assert forall|i: int| at(model, b, i) implies (#[trigger] notes_def(f.mentions, i) <==> defs_at(
        rvb,
        i,
        r,
    ) && f.first == 4 * i + 2) by {
        assert(at(m, 0, i));
    }
    let end = 4 * last_of(model, b) + 2;
    assert(governs(m, rvb, livein, 0, r, f.first, end) <==> governs(
        model,
        rvb,
        livein,
        b,
        r,
        f.first,
        end,
    ));
}

/// A function of one block is fit for fragments if the block is.
proof fn lemma_ready_alone(
    model: FunctionModel,
    rvb: RegVecsAndBounds,
    b: int,
    livein: SparseSet,
    liveout: SparseSet,
    rest: Seq<Reg>,
)
    requires
        code_fits(model, rvb),
        writes_plainly(model, rvb),
        0 <= b < model.blocks.len(),
        block_ready(block_code(model, b, livein@, rvb@), livein, liveout),
        block_code(model, b, livein@, rvb@).frag_count() <= u32::MAX,
        block_code(model, b, livein@, rvb@).is_rest(liveout.order(), rest),
    ensures
        code_fits(alone(model, b), rvb),
        writes_plainly(alone(model, b), rvb),
        frags_ready(alone(model, b), rvb@, seq![livein], seq![liveout]),
        are_items(
            alone(model, b),
            rvb@,
            seq![livein],
            seq![liveout],
            block_code(alone(model, b), 0, livein@, rvb@).items(liveout.order(), rest),
        ),
{
    let m = alone(model, b);
    let c = block_code(model, b, livein@, rvb@);
    let d = block_code(m, 0, livein@, rvb@);
    assert(m.blocks[0] == model.blocks[b]);
    assert forall|a: int, i: int| #[trigger] at(m, a, i) implies a == 0 && at(model, b, i) by {}
    assert(code_fits(m, rvb));
    assert forall|a: int, i: int| #[trigger] at(m, a, i) implies writes_once_at(rvb, i) by {
        assert(at(model, b, i));
    }
    lemma_code_fits(m, rvb);
    lemma_items_alike(c, d, liveout.order(), rest);
    lemma_count_alike(c, d, c.block.hi());
    let ins = seq![livein];
    let outs = seq![liveout];
    assert(set_views(ins)[0] == livein@);
    assert(set_views(ins).len() == 1);
    reveal_with_fuel(frag_count_before, 2);
    assert(frag_count_before(m, rvb@, set_views(ins), 1) == d.frag_count());
    assert(d.reads_available()) by {
        assert forall|i: int, r: Reg|
            d.block.lo() <= i < d.block.hi() && #[trigger] d.code[i].reads(r) implies d.available(
            r,
            i,
        ) by {
            assert(c.code[i].reads(r));
            assert(c.available(r, i));
        }
    }
    assert forall|r: Reg| #[trigger] liveout@.contains(r) implies d.available(
        r,
        d.block.hi(),
    ) by {
        assert(c.available(r, c.block.hi()));
    }
    assert(block_ready(d, livein, liveout));
    assert forall|a: int| 0 <= a < m.blocks.len() implies block_ready(
        #[trigger] block_code(m, a, ins[a]@, rvb@),
        ins[a],
        outs[a],
    ) by {}
    let rests = seq![rest];
    reveal_with_fuel(items_before, 2);
    assert(are_rests(m, rvb@, ins, outs, rests));
    assert(items_before(m, rvb@, ins, outs, rests, 1) =~= d.items(liveout.order(), rest));
    assert(are_items(m, rvb@, ins, outs, items_before(m, rvb@, ins, outs, rests, 1)));
}

proof fn lemma_block_values(
    model: FunctionModel,
    rvb: RegVecsAndBounds,
    b: int,
    livein: SparseSet,
    liveout: SparseSet,
    rest: Seq<Reg>,
)
    requires
        code_fits(model, rvb),
        writes_plainly(model, rvb),
        0 <= b < model.blocks.len(),
        block_ready(block_code(model, b, livein@, rvb@), livein, liveout),
        block_code(model, b, livein@, rvb@).frag_count() <= u32::MAX,
        block_code(model, b, livein@, rvb@).is_rest(liveout.order(), rest),
    ensures
        are_values_of(
            model,
            rvb,
            livein@,
            liveout@,
            b,
            block_code(model, b, livein@, rvb@).items(liveout.order(), rest),
        ),
{
    let m = alone(model, b);
    let c = block_code(model, b, livein@, rvb@);
    let d = block_code(m, 0, livein@, rvb@);
    let items = c.items(liveout.order(), rest);
    let same = d.items(liveout.order(), rest);
    assert(m.blocks[0] == model.blocks[b]);
    lemma_ready_alone(model, rvb, b, livein, liveout, rest);
    lemma_items_alike(c, d, liveout.order(), rest);
    lemma_are_values(m, rvb, seq![livein], seq![liveout], same);
    lemma_words_alone(model, rvb, livein@, b);
    assert(set_views(seq![livein])[0] == livein@);
    assert(set_views(seq![liveout])[0] == liveout@);
    assert forall|x: int| 0 <= x < items.len() implies {
        &&& (#[trigger] items[x]).metrics.bix.ix == b
        &&& is_value(model, rvb, livein@, liveout@, b, items[x].reg, items[x].frag)
        &&& kind_fits(model, b, items[x].metrics.kind, items[x].frag.first, items[x].frag.last)
    } by {
        assert(items[x] == moved(c.bix, same[x]));
        assert(same[x].metrics.bix.ix == 0);
        lemma_value_alone(model, rvb, livein@, liveout@, b, same[x]);
    }
    assert forall|r: Reg, s: int| #[trigger]
        starts(model, rvb, livein@, b, r, s) implies has_value(items, b, r, s) by {
        assert(starts(m, rvb, set_views(seq![livein])[0], 0, r, s));
        assert(has_value(same, 0, r, s));
        let x = choose|x: int|
            {
                &&& 0 <= x < same.len()
                &&& (#[trigger] same[x]).reg == r
                &&& same[x].metrics.bix.ix == 0
                &&& same[x].frag.first == s
            };
        assert(items[x] == moved(c.bix, same[x]));
    }
    assert forall|x: int, y: int|
        0 <= x < y < items.len() && (#[trigger] items[x]).reg == (
        #[trigger] items[y]).reg implies items[x].frag.first != items[y].frag.first by {
        assert(items[x] == moved(c.bix, same[x]));
        assert(items[y] == moved(c.bix, same[y]));
    }
}

/// What listing more fragments does to the lists: each keeps what it had, and gets the numbers of
/// the new fragments of its register, in ascending order.
proof fn lemma_added(m: Map<Reg, Seq<RangeFragIx>>, base: int, owners: Seq<Reg>)
    requires
        0 <= base <= base + owners.len() <= u32::MAX,
    ensures
        ({
            let n = add_positions(m, base, owners);
            &&& forall|r: Reg| #[trigger]
                n.contains_key(r) <==> m.contains_key(r) || owners.contains(r)
            &&& forall|r: Reg| #[trigger]
                n.contains_key(r) ==> listed(m, r).len() <= n[r].len()
            &&& forall|r: Reg, a: int|
                n.contains_key(r) && 0 <= a < listed(m, r).len() ==> #[trigger] n[r][a] == listed(
                    m,
                    r,
                )[a]
            &&& forall|r: Reg, a: int|
                n.contains_key(r) && listed(m, r).len() <= a < n[r].len() ==> base <= (
                #[trigger] n[r][a]).ix < base + owners.len() && owners[n[r][a].ix - base] == r
            &&& forall|r: Reg, a: int, b: int|
                n.contains_key(r) && listed(m, r).len() <= a < b < n[r].len() ==> (
                #[trigger] n[r][a]).ix < (#[trigger] n[r][b]).ix
            &&& forall|k: int|
                0 <= k < owners.len() ==> n[#[trigger] owners[k]].contains(
                    RangeFragIx { ix: (base + k) as u32 },
                )
        }),
    decreases owners.len(),
{
    let n = add_positions(m, base, owners);
    if owners.len() > 0 {
        let rest = owners.drop_last();
        let last = owners.last();
        let top = base + owners.len() - 1;
        let fix = RangeFragIx { ix: top as u32 };
        lemma_added(m, base, rest);
        let prev = add_positions(m, base, rest);
        assert(owners =~= rest.push(last));
        lemma_push_contains(rest, last);
        assert(n[last] == listed(prev, last).push(fix));
        lemma_push_contains(listed(prev, last), fix);
        assert(listed(m, last).len() <= listed(prev, last).len()) by {
            if m.contains_key(last) {
                assert(prev.contains_key(last));
            }
        }
        assert forall|r: Reg, a: int|
            n.contains_key(r) && listed(m, r).len() <= a < n[r].len() implies base <= (
        #[trigger] n[r][a]).ix < base + owners.len() && owners[n[r][a].ix - base] == r && (n[r][a]
            == fix || prev.contains_key(r) && a < prev[r].len() && n[r][a] == prev[r][a]) by {
            if r == last && a == n[r].len() - 1 {
                assert(n[r][a] == fix);
            } else {
                assert(prev.contains_key(r));
                assert(n[r][a] == prev[r][a]);
                assert(owners[prev[r][a].ix - base] == rest[prev[r][a].ix - base]);
            }
        }
        assert forall|r: Reg, a: int, b: int|
            n.contains_key(r) && listed(m, r).len() <= a < b < n[r].len() implies (
        #[trigger] n[r][a]).ix < (#[trigger] n[r][b]).ix by {
            assert(n[r][a] == prev[r][a]);
            assert(prev[r][a].ix < base + rest.len());
            if r != last || b < n[r].len() - 1 {
                assert(n[r][b] == prev[r][b]);
            }
        }
        assert forall|r: Reg, a: int|
            n.contains_key(r) && 0 <= a < listed(m, r).len() implies #[trigger] n[r][a] == listed(
            m,
            r,
        )[a] by {
            assert(prev.contains_key(r));
            assert(n[r][a] == prev[r][a]);
        }
        assert forall|k: int| 0 <= k < owners.len() implies n[#[trigger] owners[k]].contains(
            RangeFragIx { ix: (base + k) as u32 },
        ) by {
            if k < owners.len() - 1 {
                assert(rest[k] == owners[k]);
                assert(prev[rest[k]].contains(RangeFragIx { ix: (base + k) as u32 }));
                assert(rest.contains(rest[k]));
                assert(prev.contains_key(rest[k]));
            }
        }
    }
}

/// What [`crate::range_frags::get_range_frags_for_block`] appends is one entry for each value of
/// the block, in all three places: the fragment, its block and kind, and its number in the list of
/// its register. What stood there before stays as it was.
pub proof fn lemma_cut_block(
    model: FunctionModel,
    rvb: RegVecsAndBounds,
    b: int,
    livein: SparseSet,
    liveout: SparseSet,
    old_lists: Map<Reg, Vec<RangeFragIx>>,
    old_frags: Seq<RangeFrag>,
    old_metrics: Seq<RangeFragMetrics>,
    lists: Map<Reg, Vec<RangeFragIx>>,
    frags: Seq<RangeFrag>,
    metrics: Seq<RangeFragMetrics>,
) -> (items: Seq<FragItem>)
    requires
        code_fits(model, rvb),
        writes_plainly(model, rvb),
        0 <= b < model.blocks.len(),
        block_ready(block_code(model, b, livein@, rvb@), livein, liveout),
        old_frags.len() == old_metrics.len(),
        old_frags.len() + block_code(model, b, livein@, rvb@).frag_count() <= u32::MAX,
        ({
            let c = block_code(model, b, livein@, rvb@);
            exists|rest: Seq<Reg>|
                {
                    &&& c.is_rest(liveout.order(), rest)
                    &&& appended(
                        ix_lists(old_lists),
                        frag_views(old_frags),
                        old_metrics,
                        #[trigger] c.items(liveout.order(), rest),
                        ix_lists(lists),
                        frag_views(frags),
                        metrics,
                    )
                }
        }),
    ensures
        are_values_of(model, rvb, livein@, liveout@, b, items),
        frags.len() == old_frags.len() + items.len(),
        metrics.len() == old_metrics.len() + items.len(),
        forall|x: int|
            0 <= x < old_frags.len() ==> {
                &&& (#[trigger] frags[x]).first.bits == old_frags[x].first.bits
                &&& frags[x].last.bits == old_frags[x].last.bits
                &&& frags[x].mentions@ == old_frags[x].mentions@
                &&& metrics[x] == old_metrics[x]
            },
        forall|x: int|
            0 <= x < items.len() ==> {
                let n = old_frags.len() + x;
                &&& (#[trigger] items[x]).frag.first == frags[n].first.bits
                &&& items[x].frag.last == frags[n].last.bits
                &&& items[x].frag.mentions == frags[n].mentions@
                &&& items[x].metrics == metrics[n]
                &&& lists.contains_key(items[x].reg)
                &&& exists|p: int|
                    0 <= p < lists[items[x].reg]@.len() && (
                    #[trigger] lists[items[x].reg]@[p]).ix == n
            },
        forall|r: Reg| #[trigger]
            old_lists.contains_key(r) ==> lists.contains_key(r) && old_lists[r]@.len()
                <= lists[r]@.len() && forall|p: int|
                0 <= p < old_lists[r]@.len() ==> #[trigger] lists[r]@[p] == old_lists[r]@[p],
        forall|r: Reg, p: int|
            #![trigger lists[r]@[p]]
            {
                let n = if old_lists.contains_key(r) {
                    old_lists[r]@.len() as int
                } else {
                    0
                };
                lists.contains_key(r) && n <= p < lists[r]@.len() ==> {
                    &&& old_frags.len() <= lists[r]@[p].ix < frags.len()
                    &&& items[lists[r]@[p].ix - old_frags.len()].reg == r
                    &&& p > n ==> lists[r]@[p - 1].ix < lists[r]@[p].ix
                }
            },
{
    let c = block_code(model, b, livein@, rvb@);
    let rest = choose|rest: Seq<Reg>|
        {
            &&& c.is_rest(liveout.order(), rest)
            &&& appended(
                ix_lists(old_lists),
                frag_views(old_frags),
                old_metrics,
                #[trigger] c.items(liveout.order(), rest),
                ix_lists(lists),
                frag_views(frags),
                metrics,
            )
        };
    let items = c.items(liveout.order(), rest);
    lemma_block_values(model, rvb, b, livein, liveout, rest);
    livein.lemma_order();
    liveout.lemma_order();
    assert forall|r: Reg| #[trigger] liveout.order().contains(r) implies c.end_frag(r) is Some by {
        assert(liveout@.contains(r));
        c.lemma_open_iff_available(r, c.block.hi());
    }
    c.lemma_item_count(liveout.order(), rest);
    let base = old_frags.len() as int;
    let owners = item_regs(items);
    assert(frag_views(frags) =~= frag_views(old_frags) + item_frags(items));
    assert(metrics =~= old_metrics + item_metrics(items));
    assert(frag_views(frags).len() == frags.len());
    assert(frag_views(old_frags).len() == old_frags.len());
    let m = ix_lists(old_lists);
    let n = ix_lists(lists);
    assert(n == add_positions(m, base, owners));
    lemma_added(m, base, owners);
    assert forall|x: int| 0 <= x < old_frags.len() implies {
        &&& (#[trigger] frags[x]).first.bits == old_frags[x].first.bits
        &&& frags[x].last.bits == old_frags[x].last.bits
        &&& frags[x].mentions@ == old_frags[x].mentions@
        &&& metrics[x] == old_metrics[x]
    } by {
        assert(frag_views(frags)[x] == frags[x]@);
        assert(frag_views(old_frags)[x] == old_frags[x]@);
    }
    assert forall|x: int| 0 <= x < items.len() implies {
        let k = old_frags.len() + x;
        &&& (#[trigger] items[x]).frag.first == frags[k].first.bits
        &&& items[x].frag.last == frags[k].last.bits
        &&& items[x].frag.mentions == frags[k].mentions@
        &&& items[x].metrics == metrics[k]
        &&& lists.contains_key(items[x].reg)
        &&& exists|p: int|
            0 <= p < lists[items[x].reg]@.len() && (#[trigger] lists[items[x].reg]@[p]).ix == k
    } by {
        let k = base + x;
        assert(frag_views(frags)[k] == items[x].frag);
        assert(frag_views(frags)[k] == frags[k]@);
        assert(owners[x] == items[x].reg);
        assert(owners.contains(owners[x]));
        assert(n.contains_key(owners[x]));
        let l = n[owners[x]];
        assert(l.contains(RangeFragIx { ix: k as u32 }));
        let p = choose|p: int| 0 <= p < l.len() && l[p] == (RangeFragIx { ix: k as u32 });
        assert(lists[items[x].reg]@[p].ix == k);
    }
    assert forall|r: Reg| #[trigger] old_lists.contains_key(r) implies lists.contains_key(r)
        && old_lists[r]@.len() <= lists[r]@.len() && forall|p: int|
        0 <= p < old_lists[r]@.len() ==> #[trigger] lists[r]@[p] == old_lists[r]@[p] by {
        assert(m.contains_key(r));
        assert(n.contains_key(r));
        assert(n[r] == lists[r]@);
        assert(listed(m, r) == old_lists[r]@);
        assert forall|p: int| 0 <= p < old_lists[r]@.len() implies #[trigger] lists[r]@[p]
            == old_lists[r]@[p] by {
            assert(n[r][p] == listed(m, r)[p]);
        }
    }
    assert forall|r: Reg, p: int|
        #![trigger lists[r]@[p]]
        {
            let o = if old_lists.contains_key(r) {
                old_lists[r]@.len() as int
            } else {
                0
            };
            lists.contains_key(r) && o <= p < lists[r]@.len() ==> {
                &&& old_frags.len() <= lists[r]@[p].ix < frags.len()
                &&& items[lists[r]@[p].ix - old_frags.len()].reg == r
                &&& p > o ==> lists[r]@[p - 1].ix < lists[r]@[p].ix
            }
        } by {
        if lists.contains_key(r) {
            assert(n.contains_key(r) && n[r] == lists[r]@);
            assert(m.contains_key(r) == old_lists.contains_key(r));
            let o = listed(m, r).len() as int;
            if o <= p < n[r].len() {
                assert(base <= n[r][p].ix < base + owners.len());
                assert(owners[n[r][p].ix - base] == r);
                if p > o {
                    assert(n[r][p - 1].ix < n[r][p].ix);
                }
            }
        }
    }
    items
}

/// Register `r` holds a value in block `b` just before instruction `end`.
pub open spec fn holds_value(
    model: FunctionModel,
    rvb: RegVecsAndBounds,
    livein: Set<Reg>,
    b: int,
    end: int,
    r: Reg,
) -> bool {
    ||| livein.contains(r)
    ||| exists|j: int| first_of(model, b) <= j < end && #[trigger] defs_at(rvb, j, r)
}

/// How many values the blocks before `end` start with or write.
pub open spec fn values_of(
    model: FunctionModel,
    rvb: RegVecsAndBounds,
    liveins: Seq<SparseSet>,
    end: int,
) -> int
    decreases end,
{
    if end <= 0 {
        0
    } else {
        values_of(model, rvb, liveins, end - 1) + liveins[end - 1]@.len() + defs_before(
            model,
            rvb,
            end - 1,
            last_of(model, end - 1) + 1,
        )
    }
}

/// The values of the blocks before `end` are as many as their fragments.
pub proof fn lemma_values_of(
    model: FunctionModel,
    rvb: RegVecsAndBounds,
    liveins: Seq<SparseSet>,
    end: int,
)
    requires
        code_fits(model, rvb),
        liveins.len() == model.blocks.len(),
        0 <= end <= model.blocks.len(),
    ensures
        frag_count_before(model, rvb@, set_views(liveins), end) == values_of(
            model,
            rvb,
            liveins,
            end,
        ),
    decreases end,
{
    if end > 0 {
        let b = end - 1;
        lemma_values_of(model, rvb, liveins, b);
        assert(set_views(liveins)[b] == liveins[b]@);
        assert(model.blocks[b].len >= 1);
        lemma_defs(model, rvb, b, last_of(model, b) + 1, liveins[b]@);
    }
}

/// A block is accepted whose reads and live-out registers find values.
pub proof fn lemma_block_accepted(
    model: FunctionModel,
    rvb: RegVecsAndBounds,
    b: int,
    livein: SparseSet,
    liveout: SparseSet,
)
    requires
        code_fits(model, rvb),
        0 <= b < model.blocks.len(),
        livein.wf(),
        liveout.wf(),
        forall|i: int, r: Reg| #[trigger]
            reads_at(rvb, i, r) && at(model, b, i) ==> holds_value(model, rvb, livein@, b, i, r),
        forall|r: Reg| #[trigger]
            liveout@.contains(r) ==> holds_value(
                model,
                rvb,
                livein@,
                b,
                last_of(model, b) + 1,
                r,
            ),
    ensures
        model.ok(),
        rvb.ok_in(model.blocks[b]),
        block_ready(block_code(model, b, livein@, rvb@), livein, liveout),
        block_code(model, b, livein@, rvb@).frag_count() == livein@.len() + defs_before(
            model,
            rvb,
            b,
            last_of(model, b) + 1,
        ),
{
    lemma_code_fits(model, rvb);
    let c = block_code(model, b, livein@, rvb@);
    assert(model.blocks[b].ok());
    lemma_defs(model, rvb, b, last_of(model, b) + 1, livein@);
    lemma_block_lists(model, rvb, b, first_of(model, b), Reg { bits: 0 });
    assert forall|i: int| c.block.lo() <= i < c.block.hi() implies (
    #[trigger] c.code[i]).uses.no_duplicates() by {
        assert(rvb@[i].uses.no_duplicates());
    }
    assert forall|i: int, r: Reg|
        c.block.lo() <= i < c.block.hi() && #[trigger] c.code[i].reads(r) implies c.available(
        r,
        i,
    ) by {
        lemma_block_lists(model, rvb, b, i, r);
        assert(at(model, b, i));
        assert(reads_at(rvb, i, r));
        lemma_held(model, rvb, livein@, b, i, r);
    }
    assert forall|r: Reg| #[trigger] liveout@.contains(r) implies c.available(
        r,
        c.block.hi(),
    ) by {
        lemma_held(model, rvb, livein@, b, last_of(model, b) + 1, r);
    }
}

proof fn lemma_held(
    model: FunctionModel,
    rvb: RegVecsAndBounds,
    livein: Set<Reg>,
    b: int,
    end: int,
    r: Reg,
)
    requires
        code_fits(model, rvb),
        0 <= b < model.blocks.len(),
        end <= last_of(model, b) + 1,
        holds_value(model, rvb, livein, b, end, r),
    ensures
        block_code(model, b, livein, rvb@).available(r, end),
{
    if !livein.contains(r) {
        let j = choose|j: int| first_of(model, b) <= j < end && #[trigger] defs_at(rvb, j, r);
        lemma_block_lists(model, rvb, b, j, r);
        assert(block_code(model, b, livein, rvb@).code[j].defs.contains(r));
    }
}

/// Every function is accepted whose reads and live-out registers find values, and whose values can
/// be numbered.
pub proof fn lemma_cut_accepts(
    model: FunctionModel,
    rvb: RegVecsAndBounds,
    liveins: Seq<SparseSet>,
    liveouts: Seq<SparseSet>,
)
    requires
        code_fits(model, rvb),
        liveins.len() == model.blocks.len(),
        liveouts.len() == model.blocks.len(),
        forall|b: int| 0 <= b < liveins.len() ==> (#[trigger] liveins[b]).wf(),
        forall|b: int| 0 <= b < liveouts.len() ==> (#[trigger] liveouts[b]).wf(),
        forall|b: int, i: int, r: Reg| #[trigger]
            reads_at(rvb, i, r) && #[trigger] at(model, b, i) ==> holds_value(
                model,
                rvb,
                liveins[b]@,
                b,
                i,
                r,
            ),
        forall|b: int, r: Reg|
            0 <= b < liveouts.len() && #[trigger] liveouts[b]@.contains(r) ==> holds_value(
                model,
                rvb,
                liveins[b]@,
                b,
                last_of(model, b) + 1,
                r,
            ),
        values_of(model, rvb, liveins, model.blocks.len() as int) <= u32::MAX,
    ensures
        forall|b: int| 0 <= b < model.blocks.len() ==> rvb.ok_in(#[trigger] model.blocks[b]),
        frags_ready(model, rvb@, liveins, liveouts),
{
    lemma_code_fits(model, rvb);
    lemma_values_of(model, rvb, liveins, model.blocks.len() as int);
    assert forall|b: int| 0 <= b < model.blocks.len() implies block_ready(
        #[trigger] block_code(model, b, liveins[b]@, rvb@),
        liveins[b],
        liveouts[b],
    ) by {
        lemma_block_accepted(model, rvb, b, liveins[b], liveouts[b]);
    }
}

/// A fragment can be made between any two points of a block.
pub proof fn lemma_new_accepts(block: InstRange, p: int)
    requires
        4 * block.first.ix <= p < 4 * (block.first.ix + block.len),
    ensures
        point_in_block(block, p),
{
}

} // verus!
