//! What the fragments of a block have in common: nothing that happens to a register is lost, and
//! the fragments of a register do not overlap.

use crate::block_model::{written, BlockCode, FragItem, FragView};
use crate::data_structures::{def_point, use_point, Mention, Reg};
use crate::seq_facts::lemma_take_contains;
use vstd::prelude::*;

verus! {

/// Fragment `g` goes on where `f` was: it starts at the same point, and holds the mentions of
/// `f` first.
pub open spec fn extends(f: FragView, g: FragView) -> bool {
    &&& f.first == g.first
    &&& f.mentions.len() <= g.mentions.len()
    &&& forall|a: int| 0 <= a < f.mentions.len() ==> f.mentions[a] == #[trigger] g.mentions[a]
}

/// A fragment of `r` with the given property is among the items.
pub open spec fn has_item(items: Seq<FragItem>, r: Reg, p: spec_fn(FragView) -> bool) -> bool {
    exists|k: int| 0 <= k < items.len() && (#[trigger] items[k]).reg == r && p(items[k].frag)
}

/// The property is kept when a fragment goes on.
pub open spec fn is_kept(p: spec_fn(FragView) -> bool) -> bool {
    forall|f: FragView, g: FragView| p(f) && #[trigger] extends(f, g) ==> p(g)
}

/// The fragment records of instruction `i` what `sel` asks for.
pub open spec fn records(f: FragView, i: int, sel: spec_fn(Mention) -> bool) -> bool {
    exists|a: int|
        0 <= a < f.mentions.len() && (#[trigger] f.mentions[a]).0.ix == i && sel(f.mentions[a].1)
}

proof fn lemma_has_item_append(
    a: Seq<FragItem>,
    b: Seq<FragItem>,
    r: Reg,
    p: spec_fn(FragView) -> bool,
)
    requires
        has_item(a, r, p) || has_item(b, r, p),
    ensures
        has_item(a + b, r, p),
{
    if has_item(a, r, p) {
        let k = choose|k: int|
            0 <= k < a.len() && (#[trigger] a[k]).reg == r && p(a[k].frag);
        assert((a + b)[k] == a[k]);
    } else {
        let k = choose|k: int|
            0 <= k < b.len() && (#[trigger] b[k]).reg == r && p(b[k].frag);
        assert((a + b)[a.len() + k] == b[k]);
    }
}

/// A write of `r` ends the fragment that was open before.
proof fn lemma_write_ends(c: BlockCode, r: Reg, i: int, k: int, p: spec_fn(FragView) -> bool)
    requires
        0 <= k <= c.code[i].defs.len(),
        c.code[i].defs.take(k).contains(r),
        c.read_frag(r, i) matches Some(f) && p(f),
    ensures
        has_item(c.ended_by_insn(i, k), r, p),
    decreases k,
{
    let defs = c.code[i].defs;
    if k > 0 {
        lemma_take_contains(defs, k - 1, r);
        let prev = c.ended_by_insn(i, k - 1);
        let now = c.ended_by_insn(i, k);
        if defs.take(k - 1).contains(r) {
            lemma_write_ends(c, r, i, k - 1, p);
            let j = choose|j: int|
                0 <= j < prev.len() && (#[trigger] prev[j]).reg == r && p(prev[j].frag);
            assert(now[j] == prev[j]);
        } else {
            assert(now[now.len() - 1].reg == r);
        }
    }
}

/// What is open between the reads and the writes of an instruction is still open at a later one,
/// or has been ended.
proof fn lemma_kept(c: BlockCode, r: Reg, i0: int, i: int, p: spec_fn(FragView) -> bool)
    requires
        is_kept(p),
        c.block.lo() <= i0 < i,
        c.read_frag(r, i0) matches Some(f) && p(f),
    ensures
        (c.open_frag(r, i) matches Some(f) && p(f)) || has_item(c.ended_before(i), r, p),
    decreases i,
{
    let n = c.code[i - 1].defs.len() as int;
    let prev = c.ended_before(i - 1);
    let new = c.ended_by_insn(i - 1, n);
    assert(c.code[i - 1].defs.take(n) =~= c.code[i - 1].defs);
    if i0 < i - 1 {
        lemma_kept(c, r, i0, i - 1, p);
    }
    if has_item(prev, r, p) {
        lemma_has_item_append(prev, new, r, p);
    } else if i0 < i - 1 {
        assert(extends(c.open_frag(r, i - 1).unwrap(), c.read_frag(r, i - 1).unwrap()));
    }
    if c.code[i - 1].defs.contains(r) && !has_item(prev, r, p) {
        lemma_write_ends(c, r, i - 1, n, p);
        lemma_has_item_append(prev, new, r, p);
    }
}

/// What is open where the block ends becomes an item.
proof fn lemma_end_kept(
    c: BlockCode,
    r: Reg,
    liveouts: Seq<Reg>,
    rest: Seq<Reg>,
    p: spec_fn(FragView) -> bool,
)
    requires
        is_kept(p),
        c.is_rest(liveouts, rest),
        (c.end_frag(r) matches Some(f) && p(f)) || has_item(c.ended_before(c.block.hi()), r, p),
    ensures
        has_item(c.items(liveouts, rest), r, p),
{
    let ended = c.ended_before(c.block.hi());
    let outs = liveouts.map_values(|r: Reg| c.live_out_item(r));
    let dead = rest.map_values(|r: Reg| c.dead_item(r));
    if !has_item(ended, r, p) {
        if liveouts.contains(r) {
            let k = choose|k: int| 0 <= k < liveouts.len() && liveouts[k] == r;
            assert(outs[k] == c.live_out_item(r));
            assert(extends(c.end_frag(r).unwrap(), outs[k].frag));
            assert(has_item(outs, r, p));
        } else {
            assert(rest.contains(r));
            let k = choose|k: int| 0 <= k < rest.len() && rest[k] == r;
            assert(dead[k] == c.dead_item(r));
            assert(has_item(dead, r, p));
        }
    }
    if has_item(ended, r, p) || has_item(outs, r, p) {
        lemma_has_item_append(ended, outs, r, p);
    }
    lemma_has_item_append(ended + outs, dead, r, p);
}

/// Every read, every modification and every write of a register is recorded in one of its
/// fragments.
pub proof fn lemma_all_recorded(
    c: BlockCode,
    liveouts: Seq<Reg>,
    rest: Seq<Reg>,
    r: Reg,
    i: int,
)
    requires
        c.ok(),
        c.reads_available(),
        c.is_rest(liveouts, rest),
        c.block.lo() <= i < c.block.hi(),
    ensures
        c.code[i].uses.contains(r) ==> has_item(
            c.items(liveouts, rest),
            r,
            |f: FragView| records(f, i, |m: Mention| m.used),
        ),
        c.code[i].mods.contains(r) ==> has_item(
            c.items(liveouts, rest),
            r,
            |f: FragView| records(f, i, |m: Mention| m.modified),
        ),
        c.code[i].defs.contains(r) ==> has_item(
            c.items(liveouts, rest),
            r,
            |f: FragView| records(f, i, |m: Mention| m.defined),
        ),
{
    let hi = c.block.hi();
    let used = |f: FragView| records(f, i, |m: Mention| m.used);
    let modified = |f: FragView| records(f, i, |m: Mention| m.modified);
    let defined = |f: FragView| records(f, i, |m: Mention| m.defined);
    lemma_records_kept(i, |m: Mention| m.used);
    lemma_records_kept(i, |m: Mention| m.modified);
    lemma_records_kept(i, |m: Mention| m.defined);
    if c.code[i].reads(r) {
        assert(c.available(r, i));
        c.lemma_open_iff_available(r, i);
        let g = c.read_frag(r, i).unwrap();
        let last = g.mentions.len() - 1;
        assert(g.mentions[last].0.ix == i);
        if c.code[i].uses.contains(r) {
            assert(used(g));
            lemma_kept(c, r, i, hi, used);
            lemma_end_kept(c, r, liveouts, rest, used);
        }
        if c.code[i].mods.contains(r) {
            assert(modified(g));
            lemma_kept(c, r, i, hi, modified);
            lemma_end_kept(c, r, liveouts, rest, modified);
        }
    }
    if c.code[i].defs.contains(r) {
        let w = written(i);
        assert(w.mentions[0].0.ix == i);
        assert(defined(w));
        assert(c.open_frag(r, i + 1) == Some(w));
        if i + 1 < hi {
            assert(extends(w, c.read_frag(r, i + 1).unwrap()));
            lemma_kept(c, r, i + 1, hi, defined);
        }
        lemma_end_kept(c, r, liveouts, rest, defined);
    }
}

proof fn lemma_records_kept(i: int, sel: spec_fn(Mention) -> bool)
    ensures
        is_kept(|f: FragView| records(f, i, sel)),
{
    let p = |f: FragView| records(f, i, sel);
    assert forall|f: FragView, g: FragView| p(f) && #[trigger] extends(f, g) implies p(g) by {
        let a = choose|a: int|
            0 <= a < f.mentions.len() && (#[trigger] f.mentions[a]).0.ix == i && sel(
                f.mentions[a].1,
            );
        assert(g.mentions[a] == f.mentions[a]);
    }
}

/// A register that is live where the block starts has a fragment that reaches that point, and no
/// other register has one.
pub proof fn lemma_live_in_covered(
    c: BlockCode,
    liveouts: Seq<Reg>,
    rest: Seq<Reg>,
    r: Reg,
)
    requires
        c.ok(),
        c.is_rest(liveouts, rest),
        forall|x: Reg| #[trigger] liveouts.contains(x) ==> c.end_frag(x) is Some,
    ensures
        c.livein.contains(r) <==> has_item(
            c.items(liveouts, rest),
            r,
            |f: FragView| f.first == use_point(c.block.lo()),
        ),
{
    let p = |f: FragView| f.first == use_point(c.block.lo());
    let lo = c.block.lo();
    let items = c.items(liveouts, rest);
    assert(is_kept(p));
    if c.livein.contains(r) {
        assert(p(c.read_frag(r, lo).unwrap()));
        lemma_kept(c, r, lo, c.block.hi(), p);
        lemma_end_kept(c, r, liveouts, rest, p);
    }
    if has_item(items, r, p) {
        let k = choose|k: int|
            0 <= k < items.len() && (#[trigger] items[k]).reg == r && p(items[k].frag);
        c.lemma_items_true(liveouts, rest);
        assert(c.item_true(items[k]));
        assert(c.starts_well(r, items[k].frag));
    }
}

/// A register that is live where the block ends has a fragment that reaches that point.
pub proof fn lemma_live_out_covered(
    c: BlockCode,
    liveouts: Seq<Reg>,
    rest: Seq<Reg>,
    r: Reg,
)
    requires
        liveouts.contains(r),
    ensures
        has_item(
            c.items(liveouts, rest),
            r,
            |f: FragView| f.last == def_point(c.block.hi() - 1),
        ),
{
    let k = choose|k: int| 0 <= k < liveouts.len() && liveouts[k] == r;
    let items = c.items(liveouts, rest);
    let at = c.ended_before(c.block.hi()).len() + k;
    assert(items[at] == c.live_out_item(r));
}

/// Each instruction lists a register at most once among its writes, and not also among its
/// modifications.
pub open spec fn writes_distinct(c: BlockCode) -> bool {
    forall|i: int|
        c.block.lo() <= i < c.block.hi() ==> {
            &&& (#[trigger] c.code[i]).defs.no_duplicates()
            &&& forall|r: Reg| #[trigger] c.code[i].defs.contains(r) ==> !c.code[i].mods.contains(r)
        }
}

/// The fragments of each register stand in the order of the program, and do not overlap.
pub open spec fn in_order(items: Seq<FragItem>) -> bool {
    forall|j: int, k: int|
        0 <= j < k < items.len() && (#[trigger] items[j]).reg == (#[trigger] items[k]).reg
            ==> items[j].frag.last < items[k].frag.first
}

/// All fragments of a register are over where its open fragment starts.
spec fn over_before(items: Seq<FragItem>, r: Reg, f: Option<FragView>) -> bool {
    forall|j: int|
        0 <= j < items.len() && (#[trigger] items[j]).reg == r ==> {
            &&& f is Some
            &&& items[j].frag.last < f.unwrap().first
        }
}

proof fn lemma_order_by_insn(c: BlockCode, i: int, k: int)
    requires
        c.ok(),
        writes_distinct(c),
        c.block.lo() <= i < c.block.hi(),
        0 <= k <= c.code[i].defs.len(),
        in_order(c.ended_before(i)),
        forall|r: Reg| #[trigger] over_before(c.ended_before(i), r, c.open_frag(r, i)),
    ensures
        in_order(c.ended_before(i) + c.ended_by_insn(i, k)),
        forall|r: Reg| #[trigger]
            over_before(c.ended_before(i) + c.ended_by_insn(i, k), r, c.write_frag(r, i, k)),
    decreases k,
{
    let prev = c.ended_before(i);
    let defs = c.code[i].defs;
    if k == 0 {
        assert(prev + c.ended_by_insn(i, 0) =~= prev);
        assert forall|r: Reg| #[trigger] over_before(prev, r, c.write_frag(r, i, 0)) by {
            assert(over_before(prev, r, c.open_frag(r, i)));
        }
    } else {
        lemma_order_by_insn(c, i, k - 1);
        let x = defs[k - 1];
        let old_items = prev + c.ended_by_insn(i, k - 1);
        let new_items = prev + c.ended_by_insn(i, k);
        assert(!defs.take(k - 1).contains(x));
        assert(defs.contains(x));
        let f = c.read_frag(x, i);
        assert(c.write_frag(x, i, k - 1) == f);
        assert(over_before(old_items, x, f));
        c.lemma_open_frag_shape(x, i);
        if f is Some {
            assert(new_items =~= old_items.push(c.item(x, f.unwrap())));
            assert(f.unwrap().last < def_point(i));
        } else {
            assert(new_items =~= old_items);
        }
        assert(in_order(new_items)) by {
            assert forall|j: int, l: int|
                0 <= j < l < new_items.len() && (#[trigger] new_items[j]).reg == (
                #[trigger] new_items[l]).reg implies new_items[j].frag.last
                < new_items[l].frag.first by {
                assert(new_items[j] == old_items[j]);
                if l < old_items.len() {
                    assert(new_items[l] == old_items[l]);
                }
            }
        }
        assert forall|r: Reg| #[trigger] over_before(new_items, r, c.write_frag(r, i, k)) by {
            lemma_take_contains(defs, k - 1, r);
            assert(over_before(old_items, r, c.write_frag(r, i, k - 1)));
            assert forall|j: int| 0 <= j < new_items.len() && (#[trigger] new_items[j]).reg
                == r implies c.write_frag(r, i, k) is Some && new_items[j].frag.last
                < c.write_frag(r, i, k).unwrap().first by {
                if j < old_items.len() {
                    assert(new_items[j] == old_items[j]);
                    if r == x {
                        c.lemma_open_frag_shape(x, i);
                        assert(old_items[j].frag.last < f.unwrap().first);
                    }
                }
            }
        }
    }
}

proof fn lemma_order_before(c: BlockCode, i: int)
    requires
        c.ok(),
        writes_distinct(c),
        c.block.lo() <= i <= c.block.hi(),
    ensures
        in_order(c.ended_before(i)),
        forall|r: Reg| #[trigger] over_before(c.ended_before(i), r, c.open_frag(r, i)),
    decreases i,
{
    if i > c.block.lo() {
        let n = c.code[i - 1].defs.len() as int;
        lemma_order_before(c, i - 1);
        lemma_order_by_insn(c, i - 1, n);
        assert(c.code[i - 1].defs.take(n) =~= c.code[i - 1].defs);
        assert forall|r: Reg| #[trigger] over_before(c.ended_before(i), r, c.open_frag(r, i)) by {
            assert(over_before(c.ended_before(i), r, c.write_frag(r, i - 1, n)));
        }
    }
}

/// The fragments of each register in a block stand in the order of the program, and do not
/// overlap.
pub proof fn lemma_items_in_order(c: BlockCode, liveouts: Seq<Reg>, rest: Seq<Reg>)
    requires
        c.ok(),
        writes_distinct(c),
        liveouts.no_duplicates(),
        forall|r: Reg| #[trigger] liveouts.contains(r) ==> c.end_frag(r) is Some,
        c.is_rest(liveouts, rest),
    ensures
        in_order(c.items(liveouts, rest)),
{
    let hi = c.block.hi();
    let ended = c.ended_before(hi);
    let items = c.items(liveouts, rest);
    lemma_order_before(c, hi);
    let a = ended.len() as int;
    let b = a + liveouts.len();
    assert forall|k: int| a <= k < items.len() implies {
        let r = (#[trigger] items[k]).reg;
        &&& k < b ==> r == liveouts[k - a]
        &&& k >= b ==> r == rest[k - b]
        &&& c.end_frag(r) is Some
        &&& items[k].frag.first == c.end_frag(r).unwrap().first
    } by {
        if k < b {
            assert(items[k] == c.live_out_item(liveouts[k - a]));
            assert(liveouts.contains(liveouts[k - a]));
        } else {
            assert(items[k] == c.dead_item(rest[k - b]));
            assert(rest.contains(rest[k - b]));
        }
    }
    assert forall|j: int, k: int|
        0 <= j < k < items.len() && (#[trigger] items[j]).reg == (
        #[trigger] items[k]).reg implies items[j].frag.last < items[k].frag.first by {
        let r = items[j].reg;
        if k < a {
            assert(items[j] == ended[j]);
            assert(items[k] == ended[k]);
        } else if j < a {
            assert(items[j] == ended[j]);
            assert(over_before(ended, r, c.open_frag(r, hi)));
        } else {
            if j < b {
                assert(liveouts.contains(liveouts[j - a]));
            }
            if k >= b {
                assert(rest.contains(rest[k - b]));
            }
        }
    }
}

/// The fragment ends where an instruction of the block reads, modifies or writes its register, or,
/// if no instruction has done so yet, where the block starts with a value in the register.
pub open spec fn ends_at_event(c: BlockCode, r: Reg, f: FragView) -> bool {
    ||| exists|i: int|
        c.block.lo() <= i < c.block.hi() && (#[trigger] c.code[i]).uses.contains(r) && f.last
            == use_point(i)
    ||| exists|i: int|
        c.block.lo() <= i < c.block.hi() && (#[trigger] c.code[i]).writes(r) && f.last
            == def_point(i)
    ||| c.livein.contains(r) && f.last == use_point(c.block.lo())
}

/// The fragment ends at an event of its register, or, if the register lives on, where the block
/// ends.
pub open spec fn ends_well(c: BlockCode, liveouts: Seq<Reg>, r: Reg, f: FragView) -> bool {
    ||| ends_at_event(c, r, f)
    ||| liveouts.contains(r) && f.last == def_point(c.block.hi() - 1)
}

proof fn lemma_touched_ends(c: BlockCode, r: Reg, i: int)
    requires
        c.block.lo() <= i < c.block.hi(),
        c.open_frag(r, i) matches Some(f) ==> ends_at_event(c, r, f),
    ensures
        c.read_frag(r, i) matches Some(f) ==> ends_at_event(c, r, f),
{
    if c.code[i].mods.contains(r) {
        assert(c.code[i].writes(r));
    } else if c.code[i].uses.contains(r) {
        assert(c.code[i].uses.contains(r));
    }
}

proof fn lemma_open_ends(c: BlockCode, r: Reg, i: int)
    requires
        c.block.lo() <= i <= c.block.hi(),
    ensures
        c.open_frag(r, i) matches Some(f) ==> ends_at_event(c, r, f),
    decreases i - c.block.lo(),
{
    if i > c.block.lo() {
        lemma_open_ends(c, r, i - 1);
        lemma_touched_ends(c, r, i - 1);
        if c.code[i - 1].defs.contains(r) {
            assert(c.code[i - 1].writes(r));
        }
    }
}

proof fn lemma_ended_by_insn_ends(c: BlockCode, i: int, k: int)
    requires
        c.block.lo() <= i < c.block.hi(),
        0 <= k <= c.code[i].defs.len(),
    ensures
        forall|j: int|
            0 <= j < c.ended_by_insn(i, k).len() ==> ends_at_event(
                c,
                (#[trigger] c.ended_by_insn(i, k)[j]).reg,
                c.ended_by_insn(i, k)[j].frag,
            ),
    decreases k,
{
    if k > 0 {
        lemma_ended_by_insn_ends(c, i, k - 1);
        let r = c.code[i].defs[k - 1];
        assert(c.code[i].defs.contains(r));
        assert(c.code[i].writes(r));
        lemma_open_ends(c, r, i);
        lemma_touched_ends(c, r, i);
        let prev = c.ended_by_insn(i, k - 1);
        let now = c.ended_by_insn(i, k);
        assert forall|j: int| 0 <= j < now.len() implies ends_at_event(
            c,
            (#[trigger] now[j]).reg,
            now[j].frag,
        ) by {
            if j < prev.len() {
                assert(now[j] == prev[j]);
            }
        }
    }
}

proof fn lemma_ended_ends(c: BlockCode, i: int)
    requires
        c.block.lo() <= i <= c.block.hi(),
    ensures
        forall|j: int|
            0 <= j < c.ended_before(i).len() ==> ends_at_event(
                c,
                (#[trigger] c.ended_before(i)[j]).reg,
                c.ended_before(i)[j].frag,
            ),
    decreases i - c.block.lo(),
{
    if i > c.block.lo() {
        let n = c.code[i - 1].defs.len() as int;
        lemma_ended_ends(c, i - 1);
        lemma_ended_by_insn_ends(c, i - 1, n);
        let prev = c.ended_before(i - 1);
        let new = c.ended_by_insn(i - 1, n);
        let now = c.ended_before(i);
        assert forall|j: int| 0 <= j < now.len() implies ends_at_event(
            c,
            (#[trigger] now[j]).reg,
            now[j].frag,
        ) by {
            if j < prev.len() {
                assert(now[j] == prev[j]);
            } else {
                assert(now[j] == new[j - prev.len()]);
            }
        }
    }
}

/// No fragment is longer than it has to be: each ends at an event of its register, or, if the
/// register lives on, where the block ends.
pub proof fn lemma_items_end_well(c: BlockCode, liveouts: Seq<Reg>, rest: Seq<Reg>)
    requires
        c.block.ok(),
        c.is_rest(liveouts, rest),
    ensures
        forall|k: int|
            0 <= k < c.items(liveouts, rest).len() ==> ends_well(
                c,
                liveouts,
                (#[trigger] c.items(liveouts, rest)[k]).reg,
                c.items(liveouts, rest)[k].frag,
            ),
{
    let items = c.items(liveouts, rest);
    let ended = c.ended_before(c.block.hi());
    lemma_ended_ends(c, c.block.hi());
    assert forall|k: int| 0 <= k < items.len() implies ends_well(
        c,
        liveouts,
        (#[trigger] items[k]).reg,
        items[k].frag,
    ) by {
        let a = ended.len() as int;
        let b = a + liveouts.len();
        if k < a {
            assert(items[k] == ended[k]);
        } else if k < b {
            assert(items[k] == c.live_out_item(liveouts[k - a]));
            assert(liveouts.contains(liveouts[k - a]));
        } else {
            let r = rest[k - b];
            assert(items[k] == c.dead_item(r));
            assert(rest.contains(r));
            lemma_open_ends(c, r, c.block.hi());
        }
    }
}

} // verus!
