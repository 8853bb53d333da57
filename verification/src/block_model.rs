//! What the fragments of a block are.

use crate::data_structures::{
    def_point, use_point, BlockIx, InsnRegs, InstIx, InstRange, Mention, RangeFragIx, Reg,
};
use crate::range_frags::{RangeFragKind, RangeFragMetrics};
use crate::seq_facts::{lemma_push_contains, lemma_take_contains};
use vstd::prelude::*;

verus! {

/// What a fragment is: its first and last point, and its mentions.
pub struct FragView {
    pub first: int,
    pub last: int,
    pub mentions: Seq<(InstIx, Mention)>,
}

/// The kind of a fragment of `block` between two points.
pub open spec fn frag_kind(block: InstRange, first: int, last: int) -> RangeFragKind {
    match (first == use_point(block.lo()), last == def_point(block.hi() - 1)) {
        (false, false) => RangeFragKind::Local,
        (false, true) => RangeFragKind::LiveOut,
        (true, false) => RangeFragKind::LiveIn,
        (true, true) => RangeFragKind::Thru,
    }
}

/// The point belongs to an instruction of the block.
pub open spec fn point_in_block(block: InstRange, p: int) -> bool {
    block.lo() <= p / 4 < block.hi()
}

/// The fragment that the write of a register by instruction `i` starts.
pub open spec fn written(i: int) -> FragView {
    FragView {
        first: def_point(i),
        last: def_point(i),
        mentions: seq![
            (InstIx { ix: i as u32 }, Mention { used: false, modified: false, defined: true }),
        ],
    }
}

/// An open fragment after instruction `i` has read its register, if it is `used`, and has
/// modified it, if it is `modified`: it reaches the point of the read or of the modification,
/// and holds one more mention.
pub open spec fn touched(f: Option<FragView>, i: int, used: bool, modified: bool) -> Option<
    FragView,
> {
    match f {
        None => None,
        Some(f) => if used || modified {
            Some(
                FragView {
                    first: f.first,
                    last: if modified {
                        def_point(i)
                    } else {
                        use_point(i)
                    },
                    mentions: f.mentions.push(
                        (InstIx { ix: i as u32 }, Mention { used, modified, defined: false }),
                    ),
                },
            )
        } else {
            Some(f)
        },
    }
}

/// A fragment with the register that it belongs to.
pub struct FragItem {
    pub reg: Reg,
    pub frag: FragView,
    pub metrics: RangeFragMetrics,
}

/// One block of a function: what its instructions do to registers, and which registers hold a
/// value when it starts.
pub struct BlockCode {
    pub code: Seq<InsnRegs>,
    pub bix: BlockIx,
    pub block: InstRange,
    pub livein: Set<Reg>,
}

impl BlockCode {
    /// The block is a range of the code, and no instruction lists a register twice among its
    /// reads.
    pub open spec fn ok(self) -> bool {
        &&& self.block.ok()
        &&& self.block.hi() <= self.code.len()
        &&& forall|i: int|
            self.block.lo() <= i < self.block.hi() ==> (
            #[trigger] self.code[i]).uses.no_duplicates()
    }

    /// The register holds a value just before instruction `i`: it did so when the block started,
    /// or an earlier instruction of the block has written it.
    pub open spec fn available(self, r: Reg, i: int) -> bool {
        self.livein.contains(r) || exists|j: int|
            self.block.lo() <= j < i && (#[trigger] self.code[j]).defs.contains(r)
    }

    /// Every register that an instruction reads holds a value there.
    pub open spec fn reads_available(self) -> bool {
        forall|i: int, r: Reg|
            self.block.lo() <= i < self.block.hi() && #[trigger] self.code[i].reads(r)
                ==> self.available(r, i)
    }

    /// The fragment of `r` that is open just before instruction `i`.
    ///
    /// It starts at the latest write of `r` before `i`, or at the start of the block, and each
    /// instruction since then that reads or modifies `r` has extended it.
    pub open spec fn open_frag(self, r: Reg, i: int) -> Option<FragView>
        decreases i - self.block.lo(),
    {
        if i <= self.block.lo() {
            if self.livein.contains(r) {
                Some(
                    FragView {
                        first: use_point(self.block.lo()),
                        last: use_point(self.block.lo()),
                        mentions: Seq::empty(),
                    },
                )
            } else {
                None
            }
        } else if self.code[i - 1].defs.contains(r) {
            Some(written(i - 1))
        } else {
            touched(
                self.open_frag(r, i - 1),
                i - 1,
                self.code[i - 1].uses.contains(r),
                self.code[i - 1].mods.contains(r),
            )
        }
    }

    /// The fragment of `r` that is open between the reads and modifications of instruction `i`
    /// and its writes.
    pub open spec fn read_frag(self, r: Reg, i: int) -> Option<FragView> {
        touched(
            self.open_frag(r, i),
            i,
            self.code[i].uses.contains(r),
            self.code[i].mods.contains(r),
        )
    }

    /// The fragment of `r` that is open once instruction `i` has done the first `k` of its
    /// writes.
    pub open spec fn write_frag(self, r: Reg, i: int, k: int) -> Option<FragView> {
        if self.code[i].defs.take(k).contains(r) {
            Some(written(i))
        } else {
            self.read_frag(r, i)
        }
    }

    /// A fragment of the block, with its kind.
    pub open spec fn item(self, r: Reg, f: FragView) -> FragItem {
        FragItem {
            reg: r,
            frag: f,
            metrics: RangeFragMetrics {
                bix: self.bix,
                kind: frag_kind(self.block, f.first, f.last),
            },
        }
    }

    /// The fragments that the first `k` writes of instruction `i` end: a write ends the open
    /// fragment of its register.
    pub open spec fn ended_by_insn(self, i: int, k: int) -> Seq<FragItem>
        decreases k,
    {
        if k <= 0 {
            Seq::empty()
        } else {
            let r = self.code[i].defs[k - 1];
            match self.write_frag(r, i, k - 1) {
                None => self.ended_by_insn(i, k - 1),
                Some(f) => self.ended_by_insn(i, k - 1).push(self.item(r, f)),
            }
        }
    }

    /// The fragments that the writes of the instructions before `i` end.
    pub open spec fn ended_before(self, i: int) -> Seq<FragItem>
        decreases i - self.block.lo(),
    {
        if i <= self.block.lo() {
            Seq::empty()
        } else {
            self.ended_before(i - 1) + self.ended_by_insn(i - 1, self.code[i - 1].defs.len() as int)
        }
    }

    /// The fragment of `r` that is open when the block ends.
    pub open spec fn end_frag(self, r: Reg) -> Option<FragView> {
        self.open_frag(r, self.block.hi())
    }

    /// The last fragment of a register that lives on after the block: it reaches the end of the
    /// block.
    pub open spec fn live_out_item(self, r: Reg) -> FragItem {
        self.item(
            r,
            FragView { last: def_point(self.block.hi() - 1), ..self.end_frag(r).unwrap() },
        )
    }

    /// The last fragment of a register that does not live on after the block.
    pub open spec fn dead_item(self, r: Reg) -> FragItem {
        self.item(r, self.end_frag(r).unwrap())
    }

    /// `rest` lists, in some order, the registers that hold a value when the block ends and are
    /// not live out.
    pub open spec fn is_rest(self, liveouts: Seq<Reg>, rest: Seq<Reg>) -> bool {
        &&& rest.no_duplicates()
        &&& forall|r: Reg| #[trigger]
            rest.contains(r) <==> self.end_frag(r) is Some && !liveouts.contains(r)
    }

    /// All fragments of the block: those that writes end, in program order, then the last ones
    /// of the registers that live on, then the last ones of the others.
    pub open spec fn items(self, liveouts: Seq<Reg>, rest: Seq<Reg>) -> Seq<FragItem> {
        self.ended_before(self.block.hi()) + liveouts.map_values(|r: Reg| self.live_out_item(r))
            + rest.map_values(|r: Reg| self.dead_item(r))
    }

    /// How many writes the instructions before `i` hold.
    pub open spec fn writes_before(self, i: int) -> int
        decreases i - self.block.lo(),
    {
        if i <= self.block.lo() {
            0
        } else {
            self.writes_before(i - 1) + self.code[i - 1].defs.len()
        }
    }

    /// There is never less than no write.
    pub proof fn lemma_writes_nonneg(self, i: int)
        ensures
            self.writes_before(i) >= 0,
        decreases i - self.block.lo(),
    {
        if i > self.block.lo() {
            self.lemma_writes_nonneg(i - 1);
        }
    }

    /// How many fragments the block has: each value that a register holds when the block starts,
    /// and each write, starts one.
    pub open spec fn frag_count(self) -> int {
        self.livein.len() + self.writes_before(self.block.hi())
    }
}

/// The mentions stand in ascending order, one for each instruction.
pub open spec fn ascending(m: Seq<(InstIx, Mention)>) -> bool {
    forall|a: int, b: int| 0 <= a < b < m.len() ==> (#[trigger] m[a]).0.ix < (#[trigger] m[b]).0.ix
}

impl BlockCode {
    /// What holds of every open fragment: it starts and ends in the block, its mentions ascend,
    /// and nothing in it lies at or after the instruction where it is looked at.
    pub open spec fn frag_before(self, f: FragView, i: int) -> bool {
        &&& use_point(self.block.lo()) <= f.first <= f.last
        &&& f.last <= def_point(i - 1) || f.last == use_point(self.block.lo())
        &&& ascending(f.mentions)
        &&& forall|k: int|
            0 <= k < f.mentions.len() ==> self.block.lo() <= (#[trigger] f.mentions[k]).0.ix < i
    }

    /// Every open fragment has the shape that [`BlockCode::frag_before`] describes.
    pub proof fn lemma_open_frag_shape(self, r: Reg, i: int)
        requires
            self.block.ok(),
            self.block.lo() <= i <= self.block.hi(),
        ensures
            self.open_frag(r, i) matches Some(f) ==> self.frag_before(f, i),
        decreases i - self.block.lo(),
    {
        if i > self.block.lo() {
            self.lemma_open_frag_shape(r, i - 1);
        }
    }

    /// A register has an open fragment exactly where it holds a value.
    pub proof fn lemma_open_iff_available(self, r: Reg, i: int)
        requires
            self.block.lo() <= i,
        ensures
            self.open_frag(r, i) is Some <==> self.available(r, i),
        decreases i - self.block.lo(),
    {
        if i > self.block.lo() {
            self.lemma_open_iff_available(r, i - 1);
            if self.available(r, i) && !self.available(r, i - 1) {
                let j = choose|j: int|
                    self.block.lo() <= j < i && (#[trigger] self.code[j]).defs.contains(r);
                assert(j == i - 1);
            }
            if self.code[i - 1].defs.contains(r) {
                assert(self.available(r, i));
            }
        }
    }
}

impl BlockCode {
    /// The registers that hold a value just before instruction `i`.
    pub open spec fn open_regs(self, i: int) -> Set<Reg> {
        Set::new(|r: Reg| self.open_frag(r, i) is Some)
    }

    proof fn lemma_ended_by_insn_count(self, i: int, k: int)
        requires
            self.open_regs(i).finite(),
            0 <= k <= self.code[i].defs.len(),
        ensures
            ({
                let open = Set::new(|r: Reg| self.write_frag(r, i, k) is Some);
                &&& open.finite()
                &&& self.ended_by_insn(i, k).len() + open.len() == self.open_regs(i).len() + k
            }),
        decreases k,
    {
        let defs = self.code[i].defs;
        let open = Set::new(|r: Reg| self.write_frag(r, i, k) is Some);
        if k == 0 {
            assert(open =~= self.open_regs(i));
        } else {
            let prev = Set::new(|r: Reg| self.write_frag(r, i, k - 1) is Some);
            self.lemma_ended_by_insn_count(i, k - 1);
            let x = defs[k - 1];
            assert forall|r: Reg| #[trigger] open.contains(r) <==> prev.insert(x).contains(r) by {
                lemma_take_contains(defs, k - 1, r);
            }
            assert(open =~= prev.insert(x));
        }
    }

    proof fn lemma_ended_count(self, i: int)
        requires
            self.livein.finite(),
            self.block.lo() <= i,
        ensures
            self.open_regs(i).finite(),
            self.ended_before(i).len() + self.open_regs(i).len() == self.livein.len()
                + self.writes_before(i),
        decreases i - self.block.lo(),
    {
        if i <= self.block.lo() {
            assert(self.open_regs(i) =~= self.livein);
        } else {
            let n = self.code[i - 1].defs.len() as int;
            self.lemma_ended_count(i - 1);
            self.lemma_ended_by_insn_count(i - 1, n);
            assert(self.code[i - 1].defs.take(n) =~= self.code[i - 1].defs);
            assert(self.open_regs(i) =~= Set::new(
                |r: Reg| self.write_frag(r, i - 1, n) is Some,
            ));
        }
    }

    /// Each value that a register holds when the block starts, and each write, has exactly one
    /// fragment.
    pub proof fn lemma_item_count(self, liveouts: Seq<Reg>, rest: Seq<Reg>)
        requires
            self.block.ok(),
            self.livein.finite(),
            liveouts.no_duplicates(),
            forall|r: Reg| #[trigger] liveouts.contains(r) ==> self.end_frag(r) is Some,
            self.is_rest(liveouts, rest),
        ensures
            self.items(liveouts, rest).len() == self.frag_count(),
    {
        self.lemma_ended_count(self.block.hi());
        let open = self.open_regs(self.block.hi());
        let both = liveouts + rest;
        assert forall|r: Reg| both.contains(r) <==> #[trigger] open.contains(r) by {
            if liveouts.contains(r) {
                let k = choose|k: int| 0 <= k < liveouts.len() && liveouts[k] == r;
                assert(both[k] == r);
            }
            if rest.contains(r) {
                let k = choose|k: int| 0 <= k < rest.len() && rest[k] == r;
                assert(both[liveouts.len() + k] == r);
            }
            if both.contains(r) && !liveouts.contains(r) {
                let k = choose|k: int| 0 <= k < both.len() && both[k] == r;
                assert(k >= liveouts.len());
                assert(rest[k - liveouts.len()] == r);
            }
        }
        assert(both.no_duplicates()) by {
            assert forall|a: int, b: int| 0 <= a < b < both.len() implies both[a] != both[b] by {
                if a < liveouts.len() <= b {
                    assert(liveouts.contains(both[a]));
                    assert(rest.contains(rest[b - liveouts.len()]));
                }
            }
        }
        both.unique_seq_to_set();
        assert(both.to_set() =~= open);
    }
}

/// The fragment indices that a map lists for a register.
pub open spec fn listed(m: Map<Reg, Seq<RangeFragIx>>, r: Reg) -> Seq<RangeFragIx> {
    if m.contains_key(r) {
        m[r]
    } else {
        Seq::empty()
    }
}

/// The map with the index of each new fragment appended to the list of its register. The new
/// fragments are numbered from `base` and belong to `owners`.
pub open spec fn add_positions(
    m: Map<Reg, Seq<RangeFragIx>>,
    base: int,
    owners: Seq<Reg>,
) -> Map<Reg, Seq<RangeFragIx>>
    decreases owners.len(),
{
    if owners.len() == 0 {
        m
    } else {
        let prev = add_positions(m, base, owners.drop_last());
        prev.insert(
            owners.last(),
            listed(prev, owners.last()).push(
                RangeFragIx { ix: (base + owners.len() - 1) as u32 },
            ),
        )
    }
}

/// The registers of some fragments.
pub open spec fn item_regs(items: Seq<FragItem>) -> Seq<Reg> {
    items.map_values(|t: FragItem| t.reg)
}

/// The fragments themselves.
pub open spec fn item_frags(items: Seq<FragItem>) -> Seq<FragView> {
    items.map_values(|t: FragItem| t.frag)
}

/// The blocks and kinds of some fragments.
pub open spec fn item_metrics(items: Seq<FragItem>) -> Seq<RangeFragMetrics> {
    items.map_values(|t: FragItem| t.metrics)
}

/// Listing some fragments and then others is listing them all.
pub proof fn lemma_add_positions_twice(
    m: Map<Reg, Seq<RangeFragIx>>,
    base: int,
    a: Seq<Reg>,
    b: Seq<Reg>,
)
    ensures
        add_positions(add_positions(m, base, a), base + a.len(), b) == add_positions(
            m,
            base,
            a + b,
        ),
    decreases b.len(),
{
    if b.len() == 0 {
        assert(a + b =~= a);
    } else {
        lemma_add_positions_twice(m, base, a, b.drop_last());
        assert((a + b).drop_last() =~= a + b.drop_last());
    }
}

/// What the listing of fragments by register is: each list ascends, and lists exactly the
/// fragments of its register.
pub proof fn lemma_positions(owners: Seq<Reg>)
    requires
        owners.len() <= u32::MAX,
    ensures
        ({
            let m = add_positions(Map::empty(), 0, owners);
            &&& forall|r: Reg| #[trigger] m.contains_key(r) <==> owners.contains(r)
            &&& forall|r: Reg, a: int|
                m.contains_key(r) && 0 <= a < m[r].len() ==> (#[trigger] m[r][a]).ix < owners.len()
                    && owners[m[r][a].ix as int] == r
            &&& forall|r: Reg, a: int, b: int|
                m.contains_key(r) && 0 <= a < b < m[r].len() ==> (#[trigger] m[r][a]).ix < (
                #[trigger] m[r][b]).ix
            &&& forall|k: int|
                0 <= k < owners.len() ==> m[#[trigger] owners[k]].contains(
                    RangeFragIx { ix: k as u32 },
                )
        }),
    decreases owners.len(),
{
    let m = add_positions(Map::empty(), 0, owners);
    if owners.len() > 0 {
        let rest = owners.drop_last();
        let last = owners.last();
        let n = owners.len() - 1;
        let fix = RangeFragIx { ix: n as u32 };
        lemma_positions(rest);
        let prev = add_positions(Map::empty(), 0, rest);
        assert(owners =~= rest.push(last));
        lemma_push_contains(rest, last);
        assert(m[last] == listed(prev, last).push(fix));
        lemma_push_contains(listed(prev, last), fix);
        assert forall|r: Reg, a: int|
            m.contains_key(r) && 0 <= a < m[r].len() implies (#[trigger] m[r][a]).ix
            < owners.len() && owners[m[r][a].ix as int] == r && (m[r][a] == fix || (
        prev.contains_key(r) && a < prev[r].len() && m[r][a] == prev[r][a])) by {
            if r == last && a == m[r].len() - 1 {
                assert(m[r][a] == fix);
            } else {
                assert(prev.contains_key(r));
                assert(m[r][a] == prev[r][a]);
                assert(owners[prev[r][a].ix as int] == rest[prev[r][a].ix as int]);
            }
        }
        assert forall|r: Reg, a: int, b: int|
            m.contains_key(r) && 0 <= a < b < m[r].len() implies (#[trigger] m[r][a]).ix < (
        #[trigger] m[r][b]).ix by {
            assert(m[r][a] == prev[r][a]);
            assert(prev[r][a].ix < rest.len());
            if r != last || b < m[r].len() - 1 {
                assert(m[r][b] == prev[r][b]);
            }
        }
        assert forall|k: int| 0 <= k < owners.len() implies m[#[trigger] owners[k]].contains(
            RangeFragIx { ix: k as u32 },
        ) by {
            if k < n {
                assert(rest[k] == owners[k]);
                assert(prev[rest[k]].contains(RangeFragIx { ix: k as u32 }));
                assert(rest.contains(rest[k]));
                assert(prev.contains_key(rest[k]));
            }
        }
    }
}

impl BlockCode {
    /// A fragment of `r` starts where the block does, and `r` is live there, or it starts at a
    /// write of `r`.
    pub open spec fn starts_well(self, r: Reg, f: FragView) -> bool {
        ||| f.first == use_point(self.block.lo()) && self.livein.contains(r)
        ||| exists|j: int|
            self.block.lo() <= j < self.block.hi() && (#[trigger] self.code[j]).defs.contains(r)
                && f.first == def_point(j)
    }

    /// The mention of instruction `i` in a fragment of `r` says what the instruction does to
    /// `r`, and the fragment spans the points where it does so.
    pub open spec fn mention_true(self, r: Reg, f: FragView, i: int, m: Mention) -> bool {
        &&& self.block.lo() <= i < self.block.hi()
        &&& m.used || m.modified || m.defined
        &&& m.used ==> self.code[i].uses.contains(r) && f.first <= use_point(i) <= f.last
        &&& m.modified ==> self.code[i].mods.contains(r) && f.first <= def_point(i) <= f.last
        &&& m.defined ==> self.code[i].defs.contains(r) && f.first == def_point(i)
    }

    /// What holds of every fragment of `r`: it lies in the block, it starts where `r` gets a
    /// value, and its mentions ascend and are true.
    pub open spec fn frag_true(self, r: Reg, f: FragView) -> bool {
        &&& use_point(self.block.lo()) <= f.first <= f.last <= def_point(self.block.hi() - 1)
        &&& self.starts_well(r, f)
        &&& ascending(f.mentions)
        &&& forall|a: int|
            0 <= a < f.mentions.len() ==> self.mention_true(
                r,
                f,
                (#[trigger] f.mentions[a]).0.ix as int,
                f.mentions[a].1,
            )
    }

    /// What holds of every fragment with its register and its metrics.
    pub open spec fn item_true(self, t: FragItem) -> bool {
        &&& t == self.item(t.reg, t.frag)
        &&& self.frag_true(t.reg, t.frag)
    }

    proof fn lemma_touched_true(self, r: Reg, i: int)
        requires
            self.block.ok(),
            self.block.lo() <= i < self.block.hi(),
            self.open_frag(r, i) matches Some(f) ==> self.frag_true(r, f),
        ensures
            self.read_frag(r, i) matches Some(f) ==> self.frag_true(r, f),
    {
        self.lemma_open_frag_shape(r, i);
        if let Some(f) = self.open_frag(r, i) {
            let g = self.read_frag(r, i).unwrap();
            assert(g.first == f.first);
            assert(f.first <= f.last <= g.last);
            assert(self.starts_well(r, g));
            assert forall|a: int| 0 <= a < g.mentions.len() implies self.mention_true(
                r,
                g,
                (#[trigger] g.mentions[a]).0.ix as int,
                g.mentions[a].1,
            ) by {
                if a < f.mentions.len() {
                    assert(g.mentions[a] == f.mentions[a]);
                    assert(self.mention_true(
                        r,
                        f,
                        f.mentions[a].0.ix as int,
                        f.mentions[a].1,
                    ));
                }
            }
        }
    }

    proof fn lemma_written_true(self, r: Reg, i: int)
        requires
            self.block.ok(),
            self.block.lo() <= i < self.block.hi(),
            self.code[i].defs.contains(r),
        ensures
            self.frag_true(r, written(i)),
    {
        assert(self.starts_well(r, written(i)));
    }

    proof fn lemma_open_true(self, r: Reg, i: int)
        requires
            self.block.ok(),
            self.block.lo() <= i <= self.block.hi(),
        ensures
            self.open_frag(r, i) matches Some(f) ==> self.frag_true(r, f),
        decreases i - self.block.lo(),
    {
        if i > self.block.lo() {
            self.lemma_open_true(r, i - 1);
            self.lemma_touched_true(r, i - 1);
            if self.code[i - 1].defs.contains(r) {
                self.lemma_written_true(r, i - 1);
            }
        }
    }

    proof fn lemma_ended_by_insn_true(self, i: int, k: int)
        requires
            self.block.ok(),
            self.block.lo() <= i < self.block.hi(),
            0 <= k <= self.code[i].defs.len(),
        ensures
            forall|j: int|
                0 <= j < self.ended_by_insn(i, k).len() ==> self.item_true(
                    #[trigger] self.ended_by_insn(i, k)[j],
                ),
        decreases k,
    {
        if k > 0 {
            self.lemma_ended_by_insn_true(i, k - 1);
            let r = self.code[i].defs[k - 1];
            assert(self.code[i].defs.contains(r));
            self.lemma_open_true(r, i);
            self.lemma_touched_true(r, i);
            self.lemma_written_true(r, i);
            let prev = self.ended_by_insn(i, k - 1);
            let now = self.ended_by_insn(i, k);
            assert forall|j: int| 0 <= j < now.len() implies self.item_true(
                #[trigger] now[j],
            ) by {
                if j < prev.len() {
                    assert(self.item_true(prev[j]));
                    assert(now[j] == prev[j]);
                }
            }
        }
    }

    proof fn lemma_ended_true(self, i: int)
        requires
            self.block.ok(),
            self.block.lo() <= i <= self.block.hi(),
        ensures
            forall|j: int|
                0 <= j < self.ended_before(i).len() ==> self.item_true(
                    #[trigger] self.ended_before(i)[j],
                ),
        decreases i - self.block.lo(),
    {
        if i > self.block.lo() {
            let n = self.code[i - 1].defs.len() as int;
            self.lemma_ended_true(i - 1);
            self.lemma_ended_by_insn_true(i - 1, n);
            assert forall|j: int| 0 <= j < self.ended_before(i).len() implies self.item_true(
                #[trigger] self.ended_before(i)[j],
            ) by {
                let m = self.ended_before(i - 1).len();
                if j < m {
                    assert(self.item_true(self.ended_before(i - 1)[j]));
                } else {
                    assert(self.item_true(self.ended_by_insn(i - 1, n)[j - m]));
                }
            }
        }
    }

    /// Every fragment of the block lies in it, starts where its register gets a value, and
    /// records only what the instructions do.
    pub proof fn lemma_items_true(self, liveouts: Seq<Reg>, rest: Seq<Reg>)
        requires
            self.block.ok(),
            forall|r: Reg| #[trigger] liveouts.contains(r) ==> self.end_frag(r) is Some,
            self.is_rest(liveouts, rest),
        ensures
            forall|k: int|
                0 <= k < self.items(liveouts, rest).len() ==> self.item_true(
                    #[trigger] self.items(liveouts, rest)[k],
                ),
    {
        let items = self.items(liveouts, rest);
        let ended = self.ended_before(self.block.hi());
        self.lemma_ended_true(self.block.hi());
        assert forall|k: int| 0 <= k < items.len() implies self.item_true(
            #[trigger] items[k],
        ) by {
            let a = ended.len() as int;
            let b = a + liveouts.len();
            if k < a {
                assert(items[k] == ended[k]);
            } else if k < b {
                let r = liveouts[k - a];
                assert(items[k] == self.live_out_item(r));
                assert(liveouts.contains(r));
                self.lemma_open_true(r, self.block.hi());
                let f = self.end_frag(r).unwrap();
                let g = items[k].frag;
                assert(self.starts_well(r, g));
                assert forall|j: int| 0 <= j < g.mentions.len() implies self.mention_true(
                    r,
                    g,
                    (#[trigger] g.mentions[j]).0.ix as int,
                    g.mentions[j].1,
                ) by {
                    assert(self.mention_true(
                        r,
                        f,
                        f.mentions[j].0.ix as int,
                        f.mentions[j].1,
                    ));
                }
            } else {
                let r = rest[k - b];
                assert(items[k] == self.dead_item(r));
                assert(rest.contains(r));
                self.lemma_open_true(r, self.block.hi());
            }
        }
    }
}

} // verus!
