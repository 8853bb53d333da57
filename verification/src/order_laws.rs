//! In which order fragments and intervals stand, told in plain words.

use crate::block_model::{BlockCode, FragItem};
use crate::data_structures::{InsnRegs, InstRange, Reg, RegVecsAndBounds};
use crate::fixed_properties::writes_once;
use crate::frag_properties::{lemma_items_in_order, writes_distinct};
use crate::fragment_laws::lemma_plainly;
use crate::function::FunctionModel;
use crate::liveness_laws::lemma_block_lists;
use crate::plain::{at, code_fits, defs_at, writes_plainly};
use crate::range_frags::{
    are_items, are_rests, block_code, block_ready, frags_ready, items_before, lemma_live_outs_open,
};
use crate::sparse_set::SparseSet;
use vstd::prelude::*;

verus! {

/// In block `b`, instruction `i` writes `r` next after the value of `r` that starts at `s`.
pub open spec fn is_overwritten(
    model: FunctionModel,
    rvb: RegVecsAndBounds,
    b: int,
    r: Reg,
    s: int,
    i: int,
) -> bool {
    &&& at(model, b, i)
    &&& defs_at(rvb, i, r)
    &&& s < 4 * i + 2
    &&& forall|j: int| at(model, b, j) && #[trigger] defs_at(rvb, j, r) && j < i ==> 4 * j + 2 <= s
}

/// Instruction `i` of the block writes the register next after the fragment starts.
spec fn ended_at(code: Seq<InsnRegs>, block: InstRange, t: FragItem, i: int) -> bool {
    &&& block.lo() <= i < block.hi()
    &&& code[i].defs.contains(t.reg)
    &&& t.frag.first < 4 * i + 2
    &&& forall|j: int|
        block.lo() <= j < i && (#[trigger] code[j]).defs.contains(t.reg) ==> 4 * j + 2
            <= t.frag.first
}

/// An instruction before `n` writes the register next after the fragment starts.
spec fn ended_by(code: Seq<InsnRegs>, block: InstRange, t: FragItem, n: int) -> bool {
    exists|i: int| i < n && #[trigger] ended_at(code, block, t, i)
}

spec fn is_ended(code: Seq<InsnRegs>, block: InstRange, t: FragItem) -> bool {
    exists|i: int| ended_at(code, block, t, i)
}

/// The open fragment starts at the latest write.
proof fn lemma_open_latest(c: BlockCode, r: Reg, i: int, j: int)
    requires
        c.open_frag(r, i) is Some,
        c.block.lo() <= j < i,
        c.code[j].defs.contains(r),
    ensures
        4 * j + 2 <= c.open_frag(r, i).unwrap().first,
    decreases i - c.block.lo(),
{
    if !c.code[i - 1].defs.contains(r) {
        lemma_open_latest(c, r, i - 1, j);
    }
}

proof fn lemma_ended_by_insn(c: BlockCode, i: int, k: int)
    requires
        c.ok(),
        writes_distinct(c),
        c.block.lo() <= i < c.block.hi(),
        0 <= k <= c.code[i].defs.len(),
    ensures
        forall|x: int|
            0 <= x < c.ended_by_insn(i, k).len() ==> ended_at(
                c.code,
                c.block,
                #[trigger] c.ended_by_insn(i, k)[x],
                i,
            ),
    decreases k,
{
    if k > 0 {
        lemma_ended_by_insn(c, i, k - 1);
        let r = c.code[i].defs[k - 1];
        assert(c.code[i].defs.contains(r));
        assert(!c.code[i].defs.take(k - 1).contains(r)) by {
            if c.code[i].defs.take(k - 1).contains(r) {
                let a = choose|a: int|
                    0 <= a < k - 1 && #[trigger] c.code[i].defs.take(k - 1)[a] == r;
                assert(c.code[i].defs[a] == r);
            }
        }
        c.lemma_open_frag_shape(r, i);
        if c.write_frag(r, i, k - 1) is Some {
            let f = c.write_frag(r, i, k - 1).unwrap();
            let t = c.item(r, f);
            assert(f.first == c.open_frag(r, i).unwrap().first);
            assert forall|j: int|
                c.block.lo() <= j < i && (#[trigger] c.code[j]).defs.contains(t.reg) implies 4 * j
                + 2 <= t.frag.first by {
                lemma_open_latest(c, r, i, j);
            }
            assert(ended_at(c.code, c.block, t, i));
            assert forall|x: int| 0 <= x < c.ended_by_insn(i, k).len() implies ended_at(
                c.code,
                c.block,
                #[trigger] c.ended_by_insn(i, k)[x],
                i,
            ) by {
                if x < c.ended_by_insn(i, k - 1).len() {
                    assert(c.ended_by_insn(i, k)[x] == c.ended_by_insn(i, k - 1)[x]);
                }
            }
        }
    }
}

/// Some instruction before `n` ends the fragment, and each before it in the list is ended no later.
proof fn lemma_ended_before(c: BlockCode, n: int)
    requires
        c.ok(),
        writes_distinct(c),
        c.block.lo() <= n <= c.block.hi(),
    ensures
        forall|x: int|
            0 <= x < c.ended_before(n).len() ==> ended_by(
                c.code,
                c.block,
                #[trigger] c.ended_before(n)[x],
                n,
            ),
        forall|x: int, y: int, j: int|
            0 <= x < y < c.ended_before(n).len() && #[trigger] ended_at(
                c.code,
                c.block,
                c.ended_before(n)[y],
                j,
            ) ==> ended_by(c.code, c.block, #[trigger] c.ended_before(n)[x], j + 1),
    decreases n - c.block.lo(),
{
    if n > c.block.lo() {
        let m = n - 1;
        let k = c.code[m].defs.len() as int;
        lemma_ended_before(c, m);
        lemma_ended_by_insn(c, m, k);
        let before = c.ended_before(m);
        let new = c.ended_by_insn(m, k);
        let now = c.ended_before(n);
        assert(now == before + new);
        assert forall|x: int| 0 <= x < now.len() implies ended_by(
            c.code,
            c.block,
            #[trigger] now[x],
            n,
        ) by {
            if x < before.len() {
                assert(now[x] == before[x]);
                assert(ended_by(c.code, c.block, before[x], m));
            } else {
                assert(now[x] == new[x - before.len()]);
                assert(ended_at(c.code, c.block, now[x], m));
            }
        }
        assert forall|x: int, y: int, j: int|
            0 <= x < y < now.len() && #[trigger] ended_at(
                c.code,
                c.block,
                now[y],
                j,
            ) implies ended_by(c.code, c.block, #[trigger] now[x], j + 1) by {
            if y < before.len() {
                assert(now[x] == before[x] && now[y] == before[y]);
                assert(ended_at(c.code, c.block, before[y], j));
                assert(ended_by(c.code, c.block, before[x], j + 1));
            } else {
                assert(now[y] == new[y - before.len()]);
                assert(ended_at(c.code, c.block, now[y], m));
                assert(j == m) by {
                    if j < m {
                        assert(c.code[j].defs.contains(now[y].reg));
                    }
                    if m < j {
                        assert(c.code[m].defs.contains(now[y].reg));
                    }
                }
                assert(ended_by(c.code, c.block, now[x], n));
            }
        }
    }
}

/// No instruction ends a fragment that is open when the block ends.
proof fn lemma_not_ended(c: BlockCode, t: FragItem)
    requires
        c.end_frag(t.reg) is Some,
        t.frag.first == c.end_frag(t.reg).unwrap().first,
    ensures
        !is_ended(c.code, c.block, t),
{
    if is_ended(c.code, c.block, t) {
        let i = choose|i: int| ended_at(c.code, c.block, t, i);
        lemma_open_latest(c, t.reg, c.block.hi(), i);
    }
}

/// The fragment `s` may stand before `t`.
spec fn may_precede(
    model: FunctionModel,
    code: Seq<InsnRegs>,
    liveouts: Seq<SparseSet>,
    s: FragItem,
    t: FragItem,
) -> bool {
    let b = t.metrics.bix.ix as int;
    let block = model.blocks[b];
    &&& s.metrics.bix.ix <= b
    &&& s.metrics.bix.ix == b ==> {
        &&& s.reg == t.reg ==> s.frag.last < t.frag.first
        &&& forall|j: int| #[trigger]
            ended_at(code, block, t, j) ==> exists|i: int|
                i <= j && #[trigger] ended_at(code, block, s, i)
        &&& liveouts[b]@.contains(t.reg) && !is_ended(code, block, t) ==> is_ended(code, block, s)
            || liveouts[b]@.contains(s.reg)
    }
}

proof fn lemma_block_order(
    model: FunctionModel,
    code: Seq<InsnRegs>,
    liveins: Seq<SparseSet>,
    liveouts: Seq<SparseSet>,
    rest: Seq<Reg>,
    b: int,
    x: int,
    y: int,
)
    requires
        frags_ready(model, code, liveins, liveouts),
        writes_once(model, code),
        0 <= b < model.blocks.len(),
        block_code(model, b, liveins[b]@, code).is_rest(liveouts[b].order(), rest),
        0 <= x < y < block_code(model, b, liveins[b]@, code).items(
            liveouts[b].order(),
            rest,
        ).len(),
    ensures
        ({
            let items = block_code(model, b, liveins[b]@, code).items(liveouts[b].order(), rest);
            &&& items[x].metrics.bix.ix == b
            &&& items[y].metrics.bix.ix == b
            &&& may_precede(model, code, liveouts, items[x], items[y])
        }),
{
    let c = block_code(model, b, liveins[b]@, code);
    let order = liveouts[b].order();
    let items = c.items(order, rest);
    assert(block_ready(c, liveins[b], liveouts[b]));
    assert(forall|i: int| c.block.lo() <= i < c.block.hi() ==> model.holds(i)) by {
        assert(c.block == model.blocks[b]);
    }
    assert(writes_distinct(c));
    lemma_live_outs_open(c, liveins[b], liveouts[b]);
    liveouts[b].lemma_order();
    lemma_items_in_order(c, order, rest);
    c.lemma_items_true(order, rest);
    assert(c.item_true(items[x]) && c.item_true(items[y]));
    lemma_ended_before(c, c.block.hi());
    let ended = c.ended_before(c.block.hi());
    let n = ended.len() as int;
    let m = n + order.len();
    let s = items[x];
    let t = items[y];
    if y < n {
        assert(s == ended[x] && t == ended[y]);
        assert forall|j: int| #[trigger] ended_at(code, c.block, t, j) implies exists|i: int|
            i <= j && #[trigger] ended_at(code, c.block, s, i) by {
            assert(ended_at(c.code, c.block, ended[y], j));
            assert(ended_by(c.code, c.block, ended[x], j + 1));
        }
        assert(ended_by(c.code, c.block, ended[y], c.block.hi()));
        assert(is_ended(code, c.block, t));
    } else {
        if y < m {
            assert(t == c.live_out_item(order[y - n]));
            assert(order.contains(order[y - n]));
            lemma_not_ended(c, t);
        } else {
            assert(t == c.dead_item(rest[y - m]));
            assert(rest.contains(rest[y - m]));
            assert(!order.contains(t.reg));
            lemma_not_ended(c, t);
        }
        assert forall|j: int| #[trigger] ended_at(code, c.block, t, j) implies exists|i: int|
            i <= j && #[trigger] ended_at(code, c.block, s, i) by {
            assert(is_ended(code, c.block, t));
        }
        if x < n {
            assert(s == ended[x]);
            assert(ended_by(c.code, c.block, ended[x], c.block.hi()));
        } else if x < m {
            assert(s == c.live_out_item(order[x - n]));
            assert(order.contains(order[x - n]));
            assert(liveouts[b]@.contains(s.reg));
        } else {
            assert(!liveouts[b]@.contains(t.reg));
        }
    }
}

proof fn lemma_order_before(
    model: FunctionModel,
    code: Seq<InsnRegs>,
    liveins: Seq<SparseSet>,
    liveouts: Seq<SparseSet>,
    rests: Seq<Seq<Reg>>,
    n: int,
    x: int,
    y: int,
)
    requires
        frags_ready(model, code, liveins, liveouts),
        writes_once(model, code),
        rests.len() == model.blocks.len(),
        are_rests(model, code, liveins, liveouts, rests),
        0 <= n <= model.blocks.len(),
        0 <= x <= y < items_before(model, code, liveins, liveouts, rests, n).len(),
    ensures
        items_before(model, code, liveins, liveouts, rests, n)[y].metrics.bix.ix < n,
        x < y ==> may_precede(
            model,
            code,
            liveouts,
            items_before(model, code, liveins, liveouts, rests, n)[x],
            items_before(model, code, liveins, liveouts, rests, n)[y],
        ),
    decreases n,
{
    let b = n - 1;
    let before = items_before(model, code, liveins, liveouts, rests, b);
    let c = block_code(model, b, liveins[b]@, code);
    let new = c.items(liveouts[b].order(), rests[b]);
    let now = items_before(model, code, liveins, liveouts, rests, n);
    assert(now == before + new);
    let k = before.len() as int;
    if y < k {
        lemma_order_before(model, code, liveins, liveouts, rests, b, x, y);
        assert(now[x] == before[x] && now[y] == before[y]);
    } else {
        assert(c.is_rest(liveouts[b].order(), rests[b]));
        assert(block_ready(c, liveins[b], liveouts[b]));
        lemma_live_outs_open(c, liveins[b], liveouts[b]);
        liveouts[b].lemma_order();
        c.lemma_items_true(liveouts[b].order(), rests[b]);
        assert(now[y] == new[y - k]);
        assert(c.item_true(new[y - k]));
        if x < k {
            lemma_order_before(model, code, liveins, liveouts, rests, b, x, x);
            assert(now[x] == before[x]);
        } else {
            assert(now[x] == new[x - k]);
            if x < y {
                lemma_block_order(model, code, liveins, liveouts, rests[b], b, x - k, y - k);
            }
        }
    }
}

/// A value that some instruction overwrites is overwritten in both ways of speaking.
proof fn lemma_overwritten(
    model: FunctionModel,
    rvb: RegVecsAndBounds,
    b: int,
    t: FragItem,
    i: int,
)
    requires
        code_fits(model, rvb),
        0 <= b < model.blocks.len(),
    ensures
        ended_at(rvb@, model.blocks[b], t, i) <==> is_overwritten(
            model,
            rvb,
            b,
            t.reg,
            t.frag.first,
            i,
        ),
{
    let block = model.blocks[b];
    if ended_at(rvb@, block, t, i) {
        lemma_block_lists(model, rvb, b, i, t.reg);
        assert forall|j: int|
            at(model, b, j) && #[trigger] defs_at(rvb, j, t.reg) && j < i implies 4 * j + 2
            <= t.frag.first by {
            lemma_block_lists(model, rvb, b, j, t.reg);
            assert(rvb@[j].defs.contains(t.reg));
        }
    }
    if is_overwritten(model, rvb, b, t.reg, t.frag.first, i) {
        lemma_block_lists(model, rvb, b, i, t.reg);
        assert forall|j: int|
            block.lo() <= j < i && (#[trigger] rvb@[j]).defs.contains(t.reg) implies 4 * j + 2
            <= t.frag.first by {
            lemma_block_lists(model, rvb, b, j, t.reg);
            assert(at(model, b, j) && defs_at(rvb, j, t.reg));
        }
    }
}

/// The fragments of a function stand block by block. Those of one register in a block stand in the
/// order of the program, and do not overlap. Of all fragments of a block, those that a later write
/// ends come first, in the order of these writes; then come those of the registers that are live
/// out, and then the others.
pub proof fn lemma_frag_order(
    model: FunctionModel,
    rvb: RegVecsAndBounds,
    liveins: Seq<SparseSet>,
    liveouts: Seq<SparseSet>,
    items: Seq<FragItem>,
    x: int,
    y: int,
)
    requires
        code_fits(model, rvb),
        writes_plainly(model, rvb),
        frags_ready(model, rvb@, liveins, liveouts),
        are_items(model, rvb@, liveins, liveouts, items),
        0 <= x < y < items.len(),
    ensures
        items[x].metrics.bix.ix <= items[y].metrics.bix.ix < model.blocks.len(),
        items[x].metrics.bix == items[y].metrics.bix ==> {
            let b = items[y].metrics.bix.ix as int;
            &&& items[x].reg == items[y].reg ==> items[x].frag.last < items[y].frag.first
            &&& forall|j: int| #[trigger]
                is_overwritten(model, rvb, b, items[y].reg, items[y].frag.first, j)
                    ==> exists|i: int|
                    i <= j && #[trigger] is_overwritten(
                        model,
                        rvb,
                        b,
                        items[x].reg,
                        items[x].frag.first,
                        i,
                    )
            &&& liveouts[b]@.contains(items[y].reg) && !liveouts[b]@.contains(items[x].reg)
                && !(exists|j: int| #[trigger]
                is_overwritten(model, rvb, b, items[y].reg, items[y].frag.first, j))
                ==> exists|i: int| #[trigger]
                is_overwritten(model, rvb, b, items[x].reg, items[x].frag.first, i)
        },
{
    lemma_plainly(model, rvb);
    let n = model.blocks.len() as int;
    let rests = choose|rests: Seq<Seq<Reg>>|
        {
            &&& rests.len() == n
            &&& are_rests(model, rvb@, liveins, liveouts, rests)
            &&& items == #[trigger] items_before(model, rvb@, liveins, liveouts, rests, n)
        };
    lemma_order_before(model, rvb@, liveins, liveouts, rests, n, x, y);
    let s = items[x];
    let t = items[y];
    let b = t.metrics.bix.ix as int;
    let block = model.blocks[b];
    if s.metrics.bix == t.metrics.bix {
        assert forall|j: int| #[trigger]
            is_overwritten(model, rvb, b, t.reg, t.frag.first, j) implies exists|i: int|
            i <= j && #[trigger] is_overwritten(model, rvb, b, s.reg, s.frag.first, i) by {
            lemma_overwritten(model, rvb, b, t, j);
            assert(ended_at(rvb@, block, t, j));
            let i = choose|i: int| i <= j && #[trigger] ended_at(rvb@, block, s, i);
            lemma_overwritten(model, rvb, b, s, i);
        }
        if is_ended(rvb@, block, t) {
            let j = choose|j: int| ended_at(rvb@, block, t, j);
            lemma_overwritten(model, rvb, b, t, j);
        }
        if is_ended(rvb@, block, s) {
            let i = choose|i: int| ended_at(rvb@, block, s, i);
            lemma_overwritten(model, rvb, b, s, i);
        }
    }
}

} // verus!
