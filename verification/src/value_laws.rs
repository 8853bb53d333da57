//! What the fragments of a function are, told in plain words, for all functions: also for those
//! that list a register twice among the writes of an instruction, or both modify and write it.

use crate::block_laws::{lemma_values_of, values_of};
use crate::block_model::{ascending, touched, written, BlockCode, FragItem, FragView};
use crate::data_structures::{InstIx, Mention, Reg, RegVecsAndBounds};
use crate::frag_properties::records;
use crate::function::FunctionModel;
use crate::interval_properties::{has_item_in, lemma_function_covers, lemma_function_records};
use crate::liveness_laws::{lemma_block_lists, lemma_code_fits};
use crate::plain::{
    at, code_fits, defs_at, first_of, has_value, kind_fits, last_of, mods_at, notes_def, notes_mod,
    notes_use, starts, uses_at, well_listed,
};
use crate::range_frags::{
    are_items, are_rests, block_code, block_ready, frags_ready, item_placed, items_before,
    lemma_items_placed, lemma_live_outs_open,
};
use crate::sparse_set::SparseSet;
use vstd::prelude::*;

verus! {

/// The fragment tells what happens to a value of `r` from its start on: up to instruction `end`,
/// which it leaves out. No instruction before `limit` writes `r` again.
pub open spec fn tells_value(
    model: FunctionModel,
    rvb: RegVecsAndBounds,
    livein: Set<Reg>,
    b: int,
    r: Reg,
    f: FragView,
    limit: int,
    end: int,
) -> bool {
    &&& starts(model, rvb, livein, b, r, f.first)
    &&& f.first < 4 * limit + 2
    &&& forall|j: int|
        at(model, b, j) && #[trigger] defs_at(rvb, j, r) && j < limit ==> 4 * j + 2 <= f.first
    &&& well_listed(f.mentions)
    &&& forall|a: int|
        0 <= a < f.mentions.len() ==> at(model, b, (#[trigger] f.mentions[a]).0.ix as int)
    &&& forall|j: int|
        at(model, b, j) ==> (#[trigger] notes_use(f.mentions, j) <==> uses_at(rvb, j, r) && f.first
            <= 4 * j + 1 && j < end)
    &&& forall|j: int|
        at(model, b, j) ==> (#[trigger] notes_mod(f.mentions, j) <==> mods_at(rvb, j, r) && f.first
            <= 4 * j + 1 && j < end)
    &&& forall|j: int|
        at(model, b, j) ==> (#[trigger] notes_def(f.mentions, j) <==> f.first == 4 * j + 2)
    &&& f.first <= f.last
    &&& forall|j: int| #[trigger] notes_use(f.mentions, j) ==> 4 * j + 1 <= f.last
    &&& forall|j: int| #[trigger] notes_mod(f.mentions, j) ==> 4 * j + 2 <= f.last
}

/// The fragment ends with the last of what it notes, or where it starts.
pub open spec fn ends_with_note(f: FragView) -> bool {
    ||| f.last == f.first
    ||| exists|j: int| #[trigger] notes_use(f.mentions, j) && f.last == 4 * j + 1
    ||| exists|j: int| #[trigger] notes_mod(f.mentions, j) && f.last == 4 * j + 2
}

/// Instruction `i` lists `r` twice among its writes.
pub open spec fn defs_twice_at(rvb: RegVecsAndBounds, i: int, r: Reg) -> bool {
    exists|j: int, k: int|
        rvb.bounds@[i].defs_start <= j < k < rvb.bounds@[i].defs_start + rvb.bounds@[i].defs_len
            && #[trigger] rvb.vecs.defs@[j] == r && #[trigger] rvb.vecs.defs@[k] == r
}

/// Instruction `i` of block `b` writes `r` and so ends the fragment. It has still read and modified
/// the value, unless the value is one that the same instruction has just written.
pub open spec fn is_ended_by(
    model: FunctionModel,
    rvb: RegVecsAndBounds,
    livein: Set<Reg>,
    b: int,
    r: Reg,
    f: FragView,
    i: int,
) -> bool {
    &&& at(model, b, i)
    &&& defs_at(rvb, i, r)
    &&& ends_with_note(f)
    &&& {
        ||| tells_value(model, rvb, livein, b, r, f, i, i + 1)
        ||| {
            &&& defs_twice_at(rvb, i, r)
            &&& f.first == 4 * i + 2
            &&& tells_value(model, rvb, livein, b, r, f, i + 1, i + 1)
        }
    }
}

/// The fragment tells what happens to a value of `r` in block `b`: until a write ends it, or until
/// the block ends. In the second case it reaches the end of the block exactly if `r` lives on, or
/// if its last event is there.
pub open spec fn tells_some_value(
    model: FunctionModel,
    rvb: RegVecsAndBounds,
    livein: Set<Reg>,
    liveout: Set<Reg>,
    b: int,
    r: Reg,
    f: FragView,
) -> bool {
    let hi = last_of(model, b) + 1;
    ||| exists|i: int| #[trigger] is_ended_by(model, rvb, livein, b, r, f, i)
    ||| {
        &&& tells_value(model, rvb, livein, b, r, f, hi, hi)
        &&& if liveout.contains(r) {
            f.last == 4 * last_of(model, b) + 2
        } else {
            ends_with_note(f)
        }
    }
}

/// [`tells_value`], told of the code of the block.
spec fn stretch(c: BlockCode, r: Reg, f: FragView, limit: int, end: int) -> bool {
    &&& c.starts_well(r, f)
    &&& f.first < 4 * limit + 2
    &&& forall|j: int|
        c.block.lo() <= j < limit && (#[trigger] c.code[j]).defs.contains(r) ==> 4 * j + 2
            <= f.first
    &&& ascending(f.mentions)
    &&& forall|a: int|
        0 <= a < f.mentions.len() ==> {
            &&& c.block.lo() <= (#[trigger] f.mentions[a]).0.ix < c.block.hi()
            &&& f.mentions[a].0.ix < end
            &&& f.mentions[a].1.used || f.mentions[a].1.modified || f.mentions[a].1.defined
        }
    &&& forall|j: int|
        c.block.lo() <= j < c.block.hi() ==> (#[trigger] notes_use(f.mentions, j)
            <==> c.code[j].uses.contains(r) && f.first <= 4 * j + 1 && j < end)
    &&& forall|j: int|
        c.block.lo() <= j < c.block.hi() ==> (#[trigger] notes_mod(f.mentions, j)
            <==> c.code[j].mods.contains(r) && f.first <= 4 * j + 1 && j < end)
    &&& forall|j: int|
        c.block.lo() <= j < c.block.hi() ==> (#[trigger] notes_def(f.mentions, j) <==> f.first == 4
            * j + 2)
    &&& f.first <= f.last
    &&& forall|j: int| #[trigger] notes_use(f.mentions, j) ==> 4 * j + 1 <= f.last
    &&& forall|j: int| #[trigger] notes_mod(f.mentions, j) ==> 4 * j + 2 <= f.last
}

/// What one more mention notes.
proof fn lemma_one_more(ms: Seq<(InstIx, Mention)>, x: (InstIx, Mention))
    ensures
        forall|j: int| #[trigger]
            notes_use(ms.push(x), j) <==> notes_use(ms, j) || x.0.ix == j && x.1.used,
        forall|j: int| #[trigger]
            notes_mod(ms.push(x), j) <==> notes_mod(ms, j) || x.0.ix == j && x.1.modified,
        forall|j: int| #[trigger]
            notes_def(ms.push(x), j) <==> notes_def(ms, j) || x.0.ix == j && x.1.defined,
{
    let more = ms.push(x);
    let n = ms.len() as int;
    assert(more[n] == x);
    assert forall|j: int| #[trigger]
        notes_use(more, j) <==> notes_use(ms, j) || x.0.ix == j && x.1.used by {
        if notes_use(ms, j) {
            let a = choose|a: int|
                0 <= a < ms.len() && (#[trigger] ms[a]).0.ix == j && ms[a].1.used;
            assert(more[a] == ms[a]);
        }
        if notes_use(more, j) && !(x.0.ix == j && x.1.used) {
            let a = choose|a: int|
                0 <= a < more.len() && (#[trigger] more[a]).0.ix == j && more[a].1.used;
            assert(more[a] == ms[a]);
        }
    }
    assert forall|j: int| #[trigger]
        notes_mod(more, j) <==> notes_mod(ms, j) || x.0.ix == j && x.1.modified by {
        if notes_mod(ms, j) {
            let a = choose|a: int|
                0 <= a < ms.len() && (#[trigger] ms[a]).0.ix == j && ms[a].1.modified;
            assert(more[a] == ms[a]);
        }
        if notes_mod(more, j) && !(x.0.ix == j && x.1.modified) {
            let a = choose|a: int|
                0 <= a < more.len() && (#[trigger] more[a]).0.ix == j && more[a].1.modified;
            assert(more[a] == ms[a]);
        }
    }
    assert forall|j: int| #[trigger]
        notes_def(more, j) <==> notes_def(ms, j) || x.0.ix == j && x.1.defined by {
        if notes_def(ms, j) {
            let a = choose|a: int|
                0 <= a < ms.len() && (#[trigger] ms[a]).0.ix == j && ms[a].1.defined;
            assert(more[a] == ms[a]);
        }
        if notes_def(more, j) && !(x.0.ix == j && x.1.defined) {
            let a = choose|a: int|
                0 <= a < more.len() && (#[trigger] more[a]).0.ix == j && more[a].1.defined;
            assert(more[a] == ms[a]);
        }
    }
}

/// What an instruction reads and modifies goes into the open fragment.
proof fn lemma_touched_stretch(c: BlockCode, r: Reg, f: FragView, i: int)
    requires
        c.block.ok(),
        c.block.lo() <= i < c.block.hi(),
        stretch(c, r, f, i, i),
        ends_with_note(f),
    ensures
        ({
            let g = touched(
                Some(f),
                i,
                c.code[i].uses.contains(r),
                c.code[i].mods.contains(r),
            ).unwrap();
            stretch(c, r, g, i, i + 1) && ends_with_note(g)
        }),
{
    let used = c.code[i].uses.contains(r);
    let modified = c.code[i].mods.contains(r);
    let g = touched(Some(f), i, used, modified).unwrap();
    if used || modified {
        let x = (InstIx { ix: i as u32 }, Mention { used, modified, defined: false });
        lemma_one_more(f.mentions, x);
        assert(g.mentions == f.mentions.push(x));
        assert(c.starts_well(r, g));
        assert(f.last <= 4 * i + 1) by {
            if f.last != f.first {
                if exists|j: int| #[trigger] notes_use(f.mentions, j) && f.last == 4 * j + 1 {
                    let j = choose|j: int|
                        #[trigger] notes_use(f.mentions, j) && f.last == 4 * j + 1;
                    let a = choose|a: int|
                        0 <= a < f.mentions.len() && (#[trigger] f.mentions[a]).0.ix == j
                            && f.mentions[a].1.used;
                    assert(f.mentions[a].0.ix < i);
                } else {
                    let j = choose|j: int|
                        #[trigger] notes_mod(f.mentions, j) && f.last == 4 * j + 2;
                    let a = choose|a: int|
                        0 <= a < f.mentions.len() && (#[trigger] f.mentions[a]).0.ix == j
                            && f.mentions[a].1.modified;
                    assert(f.mentions[a].0.ix < i);
                }
            } else if c.block.lo() <= i {
                lemma_start_before(c, r, f, i);
            }
        }
        lemma_start_before(c, r, f, i);
        assert(notes_use(g.mentions, i) || notes_mod(g.mentions, i));
        if modified {
            assert(notes_mod(g.mentions, i) && g.last == 4 * i + 2);
        } else {
            assert(notes_use(g.mentions, i) && g.last == 4 * i + 1);
        }
        assert forall|a: int, k: int| 0 <= a < k < g.mentions.len() implies (
        #[trigger] g.mentions[a]).0.ix < (#[trigger] g.mentions[k]).0.ix by {
            if k < f.mentions.len() {
                assert(g.mentions[k] == f.mentions[k]);
            }
            assert(g.mentions[a] == f.mentions[a]);
        }
        assert forall|a: int| 0 <= a < g.mentions.len() implies {
            &&& c.block.lo() <= (#[trigger] g.mentions[a]).0.ix < c.block.hi()
            &&& g.mentions[a].0.ix < i + 1
            &&& g.mentions[a].1.used || g.mentions[a].1.modified || g.mentions[a].1.defined
        } by {
            if a < f.mentions.len() {
                assert(g.mentions[a] == f.mentions[a]);
            }
        }
    }
}

/// A fragment that is open before an instruction starts before it reads.
proof fn lemma_start_before(c: BlockCode, r: Reg, f: FragView, i: int)
    requires
        c.block.lo() <= i < c.block.hi(),
        stretch(c, r, f, i, i),
    ensures
        f.first <= 4 * i + 1,
{
    if f.first != 4 * c.block.lo() + 1 {
        let j = choose|j: int|
            c.block.lo() <= j < c.block.hi() && (#[trigger] c.code[j]).defs.contains(r) && f.first
                == 4 * j + 2;
        assert(j < i);
    }
}

/// What a write starts.
proof fn lemma_written_stretch(c: BlockCode, r: Reg, i: int)
    requires
        c.block.ok(),
        c.block.lo() <= i < c.block.hi(),
        c.code[i].defs.contains(r),
    ensures
        stretch(c, r, written(i), i + 1, i + 1),
        ends_with_note(written(i)),
{
    let f = written(i);
    let x = (InstIx { ix: i as u32 }, Mention { used: false, modified: false, defined: true });
    let none = Seq::<(InstIx, Mention)>::empty();
    lemma_one_more(none, x);
    assert(f.mentions =~= none.push(x));
    assert(c.starts_well(r, f));
    assert forall|j: int| c.block.lo() <= j < c.block.hi() implies (#[trigger] notes_def(
        f.mentions,
        j,
    ) <==> f.first == 4 * j + 2) by {
        assert(notes_def(none.push(x), j) <==> notes_def(none, j) || x.0.ix == j && x.1.defined);
    }
    assert forall|j: int| c.block.lo() <= j < c.block.hi() implies (#[trigger] notes_use(
        f.mentions,
        j,
    ) <==> c.code[j].uses.contains(r) && f.first <= 4 * j + 1 && j < i + 1) by {
        assert(notes_use(none.push(x), j) <==> notes_use(none, j) || x.0.ix == j && x.1.used);
    }
    assert forall|j: int| c.block.lo() <= j < c.block.hi() implies (#[trigger] notes_mod(
        f.mentions,
        j,
    ) <==> c.code[j].mods.contains(r) && f.first <= 4 * j + 1 && j < i + 1) by {
        assert(notes_mod(none.push(x), j) <==> notes_mod(none, j) || x.0.ix == j && x.1.modified);
    }
    assert forall|j: int| #[trigger] notes_use(f.mentions, j) implies 4 * j + 1 <= f.last by {
        assert(notes_use(none.push(x), j) <==> notes_use(none, j) || x.0.ix == j && x.1.used);
    }
    assert forall|j: int| #[trigger] notes_mod(f.mentions, j) implies 4 * j + 2 <= f.last by {
        assert(notes_mod(none.push(x), j) <==> notes_mod(none, j) || x.0.ix == j && x.1.modified);
    }
}

/// What is open before an instruction.
proof fn lemma_open_stretch(c: BlockCode, r: Reg, i: int)
    requires
        c.block.ok(),
        c.block.lo() <= i <= c.block.hi(),
        c.open_frag(r, i) is Some,
    ensures
        stretch(c, r, c.open_frag(r, i).unwrap(), i, i),
        ends_with_note(c.open_frag(r, i).unwrap()),
    decreases i - c.block.lo(),
{
    if i > c.block.lo() {
        let m = i - 1;
        if c.code[m].defs.contains(r) {
            lemma_written_stretch(c, r, m);
        } else {
            lemma_open_stretch(c, r, m);
            lemma_touched_stretch(c, r, c.open_frag(r, m).unwrap(), m);
            let g = c.open_frag(r, i).unwrap();
            assert(stretch(c, r, g, m, i));
        }
    }
}

/// Instruction `i` ends the fragment.
spec fn ends_here(c: BlockCode, t: FragItem, i: int) -> bool {
    &&& c.block.lo() <= i < c.block.hi()
    &&& c.code[i].defs.contains(t.reg)
    &&& ends_with_note(t.frag)
    &&& {
        ||| stretch(c, t.reg, t.frag, i, i + 1)
        ||| {
            &&& exists|j: int, k: int|
                0 <= j < k < c.code[i].defs.len() && #[trigger] c.code[i].defs[j] == t.reg
                    && #[trigger] c.code[i].defs[k] == t.reg
            &&& t.frag.first == 4 * i + 2
            &&& stretch(c, t.reg, t.frag, i + 1, i + 1)
        }
    }
}

spec fn ends_somewhere(c: BlockCode, t: FragItem) -> bool {
    exists|i: int| #[trigger] ends_here(c, t, i)
}

proof fn lemma_ends_here(c: BlockCode, i: int, k: int)
    requires
        c.block.ok(),
        c.block.lo() <= i < c.block.hi(),
        0 <= k <= c.code[i].defs.len(),
    ensures
        forall|x: int|
            0 <= x < c.ended_by_insn(i, k).len() ==> ends_here(
                c,
                #[trigger] c.ended_by_insn(i, k)[x],
                i,
            ),
    decreases k,
{
    if k > 0 {
        lemma_ends_here(c, i, k - 1);
        let defs = c.code[i].defs;
        let r = defs[k - 1];
        let prev = c.ended_by_insn(i, k - 1);
        let now = c.ended_by_insn(i, k);
        assert(defs.contains(r));
        if c.write_frag(r, i, k - 1) is Some {
            let t = c.item(r, c.write_frag(r, i, k - 1).unwrap());
            if defs.take(k - 1).contains(r) {
                let j = choose|j: int| 0 <= j < k - 1 && #[trigger] defs.take(k - 1)[j] == r;
                assert(defs[j] == r);
                lemma_written_stretch(c, r, i);
                assert(t.frag == written(i));
            } else {
                lemma_open_stretch(c, r, i);
                lemma_touched_stretch(c, r, c.open_frag(r, i).unwrap(), i);
            }
            assert(ends_here(c, t, i));
            assert forall|x: int| 0 <= x < now.len() implies ends_here(
                c,
                #[trigger] now[x],
                i,
            ) by {
                if x < prev.len() {
                    assert(now[x] == prev[x]);
                }
            }
        }
    }
}

proof fn lemma_ends_somewhere(c: BlockCode, n: int)
    requires
        c.block.ok(),
        c.block.lo() <= n <= c.block.hi(),
    ensures
        forall|x: int|
            0 <= x < c.ended_before(n).len() ==> ends_somewhere(
                c,
                #[trigger] c.ended_before(n)[x],
            ),
    decreases n - c.block.lo(),
{
    if n > c.block.lo() {
        let m = n - 1;
        let k = c.code[m].defs.len() as int;
        lemma_ends_somewhere(c, m);
        lemma_ends_here(c, m, k);
        let before = c.ended_before(m);
        let new = c.ended_by_insn(m, k);
        let now = c.ended_before(n);
        assert(now == before + new);
        assert forall|x: int| 0 <= x < now.len() implies ends_somewhere(c, #[trigger] now[x]) by {
            if x < before.len() {
                assert(now[x] == before[x]);
            } else {
                assert(now[x] == new[x - before.len()]);
                assert(ends_here(c, now[x], m));
            }
        }
    }
}

/// The fragment tells some value of the block.
spec fn is_some_stretch(c: BlockCode, liveouts: Seq<Reg>, t: FragItem) -> bool {
    ||| ends_somewhere(c, t)
    ||| {
        &&& stretch(c, t.reg, t.frag, c.block.hi(), c.block.hi())
        &&& if liveouts.contains(t.reg) {
            t.frag.last == 4 * (c.block.hi() - 1) + 2
        } else {
            ends_with_note(t.frag)
        }
    }
}

proof fn lemma_items_stretch(c: BlockCode, liveouts: Seq<Reg>, rest: Seq<Reg>, x: int)
    requires
        c.block.ok(),
        forall|r: Reg| #[trigger] liveouts.contains(r) ==> c.end_frag(r) is Some,
        c.is_rest(liveouts, rest),
        0 <= x < c.items(liveouts, rest).len(),
    ensures
        is_some_stretch(c, liveouts, c.items(liveouts, rest)[x]),
{
    let ended = c.ended_before(c.block.hi());
    let n = ended.len() as int;
    let m = n + liveouts.len();
    let hi = c.block.hi();
    let t = c.items(liveouts, rest)[x];
    lemma_ends_somewhere(c, hi);
    if x < n {
        assert(t == ended[x]);
    } else if x < m {
        let r = liveouts[x - n];
        assert(t == c.live_out_item(r));
        assert(liveouts.contains(r));
        lemma_open_stretch(c, r, hi);
        c.lemma_open_frag_shape(r, hi);
        let f = c.end_frag(r).unwrap();
        let g = t.frag;
        assert(c.starts_well(r, g));
        assert(f.last <= g.last);
        assert(stretch(c, r, g, hi, hi));
    } else {
        let r = rest[x - m];
        assert(t == c.dead_item(r));
        assert(rest.contains(r));
        lemma_open_stretch(c, r, hi);
    }
}

/// A stretch of the code is told by a fragment in plain words.
proof fn lemma_stretch_plain(
    model: FunctionModel,
    rvb: RegVecsAndBounds,
    livein: Set<Reg>,
    b: int,
    r: Reg,
    f: FragView,
    limit: int,
    end: int,
)
    requires
        code_fits(model, rvb),
        0 <= b < model.blocks.len(),
        stretch(block_code(model, b, livein, rvb@), r, f, limit, end),
    ensures
        tells_value(model, rvb, livein, b, r, f, limit, end),
{
    let c = block_code(model, b, livein, rvb@);
    if f.first != 4 * first_of(model, b) + 1 {
        let j = choose|j: int|
            c.block.lo() <= j < c.block.hi() && (#[trigger] c.code[j]).defs.contains(r) && f.first
                == 4 * j + 2;
        lemma_block_lists(model, rvb, b, j, r);
        assert(at(model, b, j) && defs_at(rvb, j, r));
    }
    assert forall|j: int|
        at(model, b, j) && #[trigger] defs_at(rvb, j, r) && j < limit implies 4 * j + 2
        <= f.first by {
        lemma_block_lists(model, rvb, b, j, r);
        assert(c.code[j].defs.contains(r));
    }
    assert forall|j: int| at(model, b, j) implies (#[trigger] notes_use(f.mentions, j) <==> uses_at(
        rvb,
        j,
        r,
    ) && f.first <= 4 * j + 1 && j < end) by {
        lemma_block_lists(model, rvb, b, j, r);
    }
    assert forall|j: int| at(model, b, j) implies (#[trigger] notes_mod(f.mentions, j) <==> mods_at(
        rvb,
        j,
        r,
    ) && f.first <= 4 * j + 1 && j < end) by {
        lemma_block_lists(model, rvb, b, j, r);
    }
    assert(well_listed(f.mentions));
}

/// One fragment in plain words.
proof fn lemma_some_stretch_plain(
    model: FunctionModel,
    rvb: RegVecsAndBounds,
    livein: Set<Reg>,
    liveout: SparseSet,
    b: int,
    t: FragItem,
)
    requires
        code_fits(model, rvb),
        0 <= b < model.blocks.len(),
        is_some_stretch(block_code(model, b, livein, rvb@), liveout.order(), t),
    ensures
        tells_some_value(model, rvb, livein, liveout@, b, t.reg, t.frag),
{
    let c = block_code(model, b, livein, rvb@);
    let r = t.reg;
    let f = t.frag;
    if ends_somewhere(c, t) {
        let i = choose|i: int| #[trigger] ends_here(c, t, i);
        lemma_block_lists(model, rvb, b, i, r);
        if stretch(c, r, f, i, i + 1) {
            lemma_stretch_plain(model, rvb, livein, b, r, f, i, i + 1);
        } else {
            lemma_stretch_plain(model, rvb, livein, b, r, f, i + 1, i + 1);
            let defs = c.code[i].defs;
            let (j, k) = choose|j: int, k: int|
                0 <= j < k < defs.len() && #[trigger] defs[j] == r && #[trigger] defs[k] == r;
            let s = rvb.bounds@[i].defs_start as int;
            assert(at(model, b, i));
            assert(defs[j] == rvb.vecs.defs@[s + j]);
            assert(defs[k] == rvb.vecs.defs@[s + k]);
            assert(defs_twice_at(rvb, i, r));
        }
        assert(is_ended_by(model, rvb, livein, b, r, f, i));
    } else {
        lemma_stretch_plain(model, rvb, livein, b, r, f, c.block.hi(), c.block.hi());
        assert(liveout@.contains(r) <==> liveout.order().contains(r));
    }
}

proof fn lemma_function_stretch(
    model: FunctionModel,
    rvb: RegVecsAndBounds,
    liveins: Seq<SparseSet>,
    liveouts: Seq<SparseSet>,
    rests: Seq<Seq<Reg>>,
    n: int,
    x: int,
)
    requires
        code_fits(model, rvb),
        frags_ready(model, rvb@, liveins, liveouts),
        rests.len() == model.blocks.len(),
        are_rests(model, rvb@, liveins, liveouts, rests),
        0 <= n <= model.blocks.len(),
        0 <= x < items_before(model, rvb@, liveins, liveouts, rests, n).len(),
    ensures
        ({
            let t = items_before(model, rvb@, liveins, liveouts, rests, n)[x];
            let b = t.metrics.bix.ix as int;
            &&& b < n
            &&& tells_some_value(model, rvb, liveins[b]@, liveouts[b]@, b, t.reg, t.frag)
        }),
    decreases n,
{
    let b = n - 1;
    let before = items_before(model, rvb@, liveins, liveouts, rests, b);
    let c = block_code(model, b, liveins[b]@, rvb@);
    let new = c.items(liveouts[b].order(), rests[b]);
    let now = items_before(model, rvb@, liveins, liveouts, rests, n);
    assert(now == before + new);
    let k = before.len() as int;
    if x < k {
        lemma_function_stretch(model, rvb, liveins, liveouts, rests, b, x);
        assert(now[x] == before[x]);
    } else {
        assert(c.is_rest(liveouts[b].order(), rests[b]));
        assert(block_ready(c, liveins[b], liveouts[b]));
        lemma_live_outs_open(c, liveins[b], liveouts[b]);
        c.lemma_items_true(liveouts[b].order(), rests[b]);
        assert(now[x] == new[x - k]);
        assert(c.item_true(new[x - k]));
        lemma_items_stretch(c, liveouts[b].order(), rests[b], x - k);
        lemma_some_stretch_plain(model, rvb, liveins[b]@, liveouts[b], b, now[x]);
    }
}

/// The fragments of a function. Each tells what happens to one value of its register, and its kind
/// which ends of the block it reaches. Every value that a register holds where a block starts has
/// one, and so has every write; and there are as many as there are such values and listed writes
/// together.
pub open spec fn are_fragments(
    model: FunctionModel,
    rvb: RegVecsAndBounds,
    liveins: Seq<SparseSet>,
    liveouts: Seq<SparseSet>,
    items: Seq<FragItem>,
) -> bool {
    &&& items.len() == values_of(model, rvb, liveins, model.blocks.len() as int)
    &&& forall|x: int|
        0 <= x < items.len() ==> {
            let b = (#[trigger] items[x]).metrics.bix.ix as int;
            &&& b < model.blocks.len()
            &&& tells_some_value(
                model,
                rvb,
                liveins[b]@,
                liveouts[b]@,
                b,
                items[x].reg,
                items[x].frag,
            )
            &&& kind_fits(
                model,
                b,
                items[x].metrics.kind,
                items[x].frag.first,
                items[x].frag.last,
            )
        }
    &&& forall|b: int, r: Reg, s: int|
        0 <= b < model.blocks.len() && #[trigger] starts(model, rvb, liveins[b]@, b, r, s)
            ==> has_value(items, b, r, s)
}

/// What the fragments of any function are.
pub proof fn lemma_cut_all(
    model: FunctionModel,
    rvb: RegVecsAndBounds,
    liveins: Seq<SparseSet>,
    liveouts: Seq<SparseSet>,
    items: Seq<FragItem>,
)
    requires
        code_fits(model, rvb),
        frags_ready(model, rvb@, liveins, liveouts),
        are_items(model, rvb@, liveins, liveouts, items),
    ensures
        are_fragments(model, rvb, liveins, liveouts, items),
{
    let n = model.blocks.len() as int;
    lemma_code_fits(model, rvb);
    let rests = choose|rests: Seq<Seq<Reg>>|
        {
            &&& rests.len() == n
            &&& are_rests(model, rvb@, liveins, liveouts, rests)
            &&& items == #[trigger] items_before(model, rvb@, liveins, liveouts, rests, n)
        };
    lemma_items_placed(model, rvb@, liveins, liveouts, items);
    lemma_values_of(model, rvb, liveins, n);
    assert forall|x: int| 0 <= x < items.len() implies {
        let b = (#[trigger] items[x]).metrics.bix.ix as int;
        &&& b < model.blocks.len()
        &&& tells_some_value(
            model,
            rvb,
            liveins[b]@,
            liveouts[b]@,
            b,
            items[x].reg,
            items[x].frag,
        )
        &&& kind_fits(model, b, items[x].metrics.kind, items[x].frag.first, items[x].frag.last)
    } by {
        lemma_function_stretch(model, rvb, liveins, liveouts, rests, n, x);
        assert(item_placed(model, rvb@, liveins, items[x]));
    }
    assert forall|b: int, r: Reg, s: int|
        0 <= b < model.blocks.len() && #[trigger] starts(
            model,
            rvb,
            liveins[b]@,
            b,
            r,
            s,
        ) implies has_value(items, b, r, s) by {
        if s == 4 * first_of(model, b) + 1 && liveins[b]@.contains(r) {
            lemma_function_covers(model, rvb@, liveins, liveouts, items, b, r);
            let x = choose|x: int|
                0 <= x < items.len() && (#[trigger] items[x]).reg == r && items[x].metrics.bix.ix
                    == b && items[x].frag.first == 4 * model.blocks[b].lo() + 1;
            assert(items[x].frag.first == s);
        } else {
            let i = choose|i: int|
                at(model, b, i) && #[trigger] defs_at(rvb, i, r) && s == 4 * i + 2;
            lemma_block_lists(model, rvb, b, i, r);
            lemma_function_records(model, rvb@, liveins, liveouts, items, b, i, r);
            let p = |f: FragView| records(f, i, |m: Mention| m.defined);
            assert(has_item_in(items, b, r, p));
            let x = choose|x: int|
                0 <= x < items.len() && (#[trigger] items[x]).reg == r && items[x].metrics.bix.ix
                    == b && p(items[x].frag);
            assert(item_placed(model, rvb@, liveins, items[x]));
            let f = items[x].frag;
            let a = choose|a: int|
                0 <= a < f.mentions.len() && (#[trigger] f.mentions[a]).0.ix == i
                    && f.mentions[a].1.defined;
            let c = block_code(model, b, liveins[b]@, rvb@);
            assert(c.mention_true(r, f, f.mentions[a].0.ix as int, f.mentions[a].1));
            assert(f.first == s);
        }
    }
}

} // verus!
