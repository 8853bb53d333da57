//! Live-range fragments: the stretches of a block over which a register holds one value.

use crate::data_structures::{
    def_point, use_point, BlockIx, InsnRegs, InstIx, InstPoint, Mention, MentionMap, RangeFragIx, Reg,
    RegVecsAndBounds,
};
use crate::block_model::{
    add_positions, ascending, frag_kind, item_frags, item_metrics, item_regs, lemma_add_positions_twice, listed,
    point_in_block, touched, written, BlockCode, FragItem, FragView,
};
use crate::function::{Function, FunctionModel};
use crate::reg_map::RegMap;
use crate::small_lists::{pending_frags_items, PendingFrags};
use crate::seq_facts::lemma_take_contains;
use crate::sparse_set::{set_views, SparseSet};
use vstd::prelude::*;

verus! {

/// A live-range fragment: the points that it spans and the instructions that mention its
/// register, in ascending order.
#[derive(Hash, PartialEq, Eq, PartialOrd, Ord)]
pub struct RangeFrag {
    pub first: InstPoint,
    pub last: InstPoint,
    pub mentions: MentionMap,
}

/// How a fragment relates to the ends of its block.
#[derive(Clone, Copy, Debug, PartialEq, Eq, Structural)]
pub enum RangeFragKind {
    /// It touches neither end.
    Local,
    /// It reaches the start of the block only.
    LiveIn,
    /// It reaches the end of the block only.
    LiveOut,
    /// It spans the block.
    Thru,
}

/// The block and the kind of a fragment.
#[derive(Clone, Copy, Debug, PartialEq, Eq, Structural)]
pub struct RangeFragMetrics {
    pub bix: BlockIx,
    pub kind: RangeFragKind,
}

impl View for RangeFrag {
    type V = FragView;

    open spec fn view(&self) -> FragView {
        FragView { first: self.first@, last: self.last@, mentions: self.mentions@ }
    }
}

impl RangeFrag {
    /// Makes a fragment of block `bix` and works out its kind.
    pub fn new<F: Function>(
        func: &F,
        bix: BlockIx,
        first: InstPoint,
        last: InstPoint,
        mentions: MentionMap,
    ) -> (r: (Self, RangeFragMetrics))
        requires
            func.model().ok(),
            bix.ix < func.model().blocks.len(),
            point_in_block(func.model().blocks[bix.ix as int], first@),
            point_in_block(func.model().blocks[bix.ix as int], last@),
            first@ <= last@,
        ensures
            r.0@ == (FragView { first: first@, last: last@, mentions: mentions@ }),
            r.1 == (RangeFragMetrics {
                bix,
                kind: frag_kind(func.model().blocks[bix.ix as int], first@, last@),
            }),
            r.0.first == first,
            r.0.last == last,
            r.0.mentions == mentions,
            r.1.kind is LiveIn || r.1.kind is Thru <==> first.bits == 4
                * func.model().blocks[bix.ix as int].first.ix + 1,
            r.1.kind is LiveOut || r.1.kind is Thru <==> last.bits == 4 * (
            func.model().blocks[bix.ix as int].first.ix + func.model().blocks[bix.ix as int].len
                - 1) + 2,
    {
        let insns = func.block_insns(bix);
        let first_in_block = InstPoint::new_use(insns.first());
        let last_in_block = InstPoint::new_def(insns.last());
        let kind = match (first == first_in_block, last == last_in_block) {
            (false, false) => RangeFragKind::Local,
            (false, true) => RangeFragKind::LiveOut,
            (true, false) => RangeFragKind::LiveIn,
            (true, true) => RangeFragKind::Thru,
        };
        (RangeFrag { first, last, mentions }, RangeFragMetrics { bix, kind })
    }

    /// The text of the fragment: its first and last point.
    pub fn debug_text(&self) -> (s: String)
        ensures
            s@ == "["@ + self.first.text() + "; "@ + self.last.text() + "]"@,
    {
        let mut s = String::new();
        s.append("[");
        self.first.append_text(&mut s);
        s.append("; ");
        self.last.append_text(&mut s);
        s.append("]");
        assert(s@ =~= "["@ + self.first.text() + "; "@ + self.last.text() + "]"@);
        s
    }

    /// Whether the fragment spans a point.
    pub fn contains(&self, inst: &InstPoint) -> (b: bool)
        ensures
            b == (self@.first <= inst@ <= self@.last),
            b == (self.first.bits <= inst.bits <= self.last.bits),
    {
        self.first.bits <= inst.bits && inst.bits <= self.last.bits
    }
}

/// Copies a list of mentions.
fn copy_mentions(m: &MentionMap) -> (r: MentionMap)
    ensures
        r@ == m@,
{
    let mut r: MentionMap = Vec::with_capacity(m.len());
    let mut i: usize = 0;
    while i < m.len()
        invariant
            i <= m@.len(),
            r@ == m@.take(i as int),
        decreases m@.len() - i,
    {
        r.push(m[i]);
        i += 1;
    }
    assert(m@.take(i as int) =~= m@);
    r
}

impl Clone for RangeFrag {
    fn clone(&self) -> (r: RangeFrag)
        ensures
            r@ == self@,
    {
        RangeFrag { first: self.first, last: self.last, mentions: copy_mentions(&self.mentions) }
    }
}

/// Looks an instruction up in a list of ascending mentions: its position, or the position where
/// it belongs.
fn find_mention(mentions: &MentionMap, iix: InstIx) -> (r: Result<usize, usize>)
    requires
        ascending(mentions@),
    ensures
        match r {
            Ok(k) => k < mentions@.len() && mentions@[k as int].0 == iix,
            Err(k) => {
                &&& k <= mentions@.len()
                &&& forall|j: int| 0 <= j < k ==> (#[trigger] mentions@[j]).0.ix < iix.ix
                &&& forall|j: int|
                    k <= j < mentions@.len() ==> (#[trigger] mentions@[j]).0.ix > iix.ix
            },
        },
{
    let mut lo: usize = 0;
    let mut hi: usize = mentions.len();
    while lo < hi
        invariant
            lo <= hi <= mentions@.len(),
            ascending(mentions@),
            forall|j: int| 0 <= j < lo ==> (#[trigger] mentions@[j]).0.ix < iix.ix,
            forall|j: int| hi <= j < mentions@.len() ==> (#[trigger] mentions@[j]).0.ix > iix.ix,
        decreases hi - lo,
    {
        let mid: usize = lo + (hi - lo) / 2;
        let at: u32 = mentions[mid].0.ix;
        if at == iix.ix {
            return Ok(mid);
        }
        if at < iix.ix {
            lo = mid + 1;
        } else {
            hi = mid;
        }
    }
    Err(lo)
}

/// The fragment that the running state holds for a register.
spec fn held(state: Map<Reg, RangeFrag>, r: Reg) -> Option<FragView> {
    if state.contains_key(r) {
        Some(state[r]@)
    } else {
        None
    }
}

/// Extends the open fragments of the registers that an instruction reads to the point where it
/// reads them.
fn note_reads(
    state: &mut RegMap<RangeFrag>,
    rvb: &RegVecsAndBounds,
    iix: InstIx,
    Ghost(c): Ghost<BlockCode>,
)
    requires
        c.ok(),
        c.code == rvb@,
        rvb.ok_in(c.block),
        c.block.lo() <= iix.ix < c.block.hi(),
        c.reads_available(),
        forall|r: Reg| #[trigger] held(old(state)@, r) == c.open_frag(r, iix.ix as int),
    ensures
        forall|r: Reg| #[trigger]
            held(final(state)@, r) == touched(
                c.open_frag(r, iix.ix as int),
                iix.ix as int,
                c.code[iix.ix as int].uses.contains(r),
                false,
            ),
{
    let ghost i = iix.ix as int;
    let ghost uses = c.code[i].uses;
    let bounds = rvb.bounds[iix.ix as usize];
    assert(rvb.bounds_ok(i));
    let start: usize = bounds.uses_start as usize;
    let len: usize = bounds.uses_len as usize;
    let total: usize = rvb.vecs.uses.len();
    let mut j: usize = 0;
    while j < len
        invariant
            j <= len == uses.len(),
            start + len <= total == rvb.vecs.uses@.len(),
            uses == rvb.vecs.uses@.subrange(start as int, start + len),
            uses == c.code[i].uses,
            i == iix.ix,
            c.ok(),
            c.block.lo() <= i < c.block.hi(),
            c.reads_available(),
            forall|r: Reg| #[trigger]
                held(state@, r) == touched(
                    c.open_frag(r, i),
                    i,
                    uses.take(j as int).contains(r),
                    false,
                ),
        decreases len - j,
    {
        let r = rvb.vecs.uses[start + j];
        let ghost before = state@;
        proof {
            assert(r == uses[j as int]);
            assert(c.code[i].reads(r));
            c.lemma_open_iff_available(r, i);
            assert(held(before, r) is Some);
            assert(!uses.take(j as int).contains(r));
        }
        match state.remove(r) {
            Some(pf) => {
                let mut pf = pf;
                pf.last = InstPoint::new_use(iix);
                let mut mention_set = Mention::new();
                mention_set.add_use();
                pf.mentions.push((iix, mention_set));
                state.insert(r, pf);
            },
            None => {
                assert(false);
            },
        }
        proof {
            assert forall|x: Reg| #[trigger]
                held(state@, x) == touched(
                    c.open_frag(x, i),
                    i,
                    uses.take(j + 1).contains(x),
                    false,
                ) by {
                lemma_take_contains(uses, j as int, x);
                assert(held(before, x) == touched(
                    c.open_frag(x, i),
                    i,
                    uses.take(j as int).contains(x),
                    false,
                ));
            }
        }
        j += 1;
    }
    assert(uses.take(j as int) =~= uses);
}

/// Extends the open fragments of the registers that an instruction modifies to the point where
/// it writes them.
fn note_mods(
    state: &mut RegMap<RangeFrag>,
    rvb: &RegVecsAndBounds,
    iix: InstIx,
    Ghost(c): Ghost<BlockCode>,
)
    requires
        c.ok(),
        c.code == rvb@,
        rvb.ok_in(c.block),
        c.block.lo() <= iix.ix < c.block.hi(),
        c.reads_available(),
        forall|r: Reg| #[trigger]
            held(old(state)@, r) == touched(
                c.open_frag(r, iix.ix as int),
                iix.ix as int,
                c.code[iix.ix as int].uses.contains(r),
                false,
            ),
    ensures
        forall|r: Reg| #[trigger] held(final(state)@, r) == c.read_frag(r, iix.ix as int),
{
    let ghost i = iix.ix as int;
    let ghost mods = c.code[i].mods;
    let bounds = rvb.bounds[iix.ix as usize];
    assert(rvb.bounds_ok(i));
    let start: usize = bounds.mods_start as usize;
    let len: usize = bounds.mods_len as usize;
    let total: usize = rvb.vecs.mods.len();
    let mut j: usize = 0;
    while j < len
        invariant
            j <= len == mods.len(),
            start + len <= total == rvb.vecs.mods@.len(),
            mods == rvb.vecs.mods@.subrange(start as int, start + len),
            mods == c.code[i].mods,
            i == iix.ix,
            c.ok(),
            c.block.lo() <= i < c.block.hi(),
            c.reads_available(),
            forall|r: Reg| #[trigger]
                held(state@, r) == touched(
                    c.open_frag(r, i),
                    i,
                    c.code[i].uses.contains(r),
                    mods.take(j as int).contains(r),
                ),
        decreases len - j,
    {
        let r = rvb.vecs.mods[start + j];
        let ghost before = state@;
        let ghost f = c.open_frag(r, i).unwrap();
        proof {
            assert(r == mods[j as int]);
            assert(c.code[i].reads(r));
            c.lemma_open_iff_available(r, i);
            c.lemma_open_frag_shape(r, i);
            assert(held(before, r) is Some);
        }
        match state.remove(r) {
            Some(pf) => {
                let mut pf = pf;
                pf.last = InstPoint::new_def(iix);
                let ghost m0 = pf.mentions@;
                proof {
                    assert(m0 == f.mentions || (m0.len() == f.mentions.len() + 1
                        && m0.last().0 == iix && m0.drop_last() =~= f.mentions));
                    assert(ascending(m0));
                }
                match find_mention(&pf.mentions, iix) {
                    Ok(index) => {
                        proof {
                            assert(index == m0.len() - 1);
                        }
                        let mut mention_set = pf.mentions[index].1;
                        mention_set.add_mod();
                        pf.mentions.set(index, (iix, mention_set));
                        assert(pf.mentions@ =~= f.mentions.push((iix, mention_set)));
                    },
                    Err(index) => {
                        proof {
                            if m0 != f.mentions {
                                assert(m0[m0.len() - 1].0 == iix);
                            }
                            if index < m0.len() {
                                assert(m0[index as int].0.ix > iix.ix);
                            }
                        }
                        let mut mention_set = Mention::new();
                        mention_set.add_mod();
                        pf.mentions.insert(index, (iix, mention_set));
                        assert(pf.mentions@ =~= f.mentions.push((iix, mention_set)));
                    },
                }
                state.insert(r, pf);
            },
            None => {
                assert(false);
            },
        }
        proof {
            assert forall|x: Reg| #[trigger]
                held(state@, x) == touched(
                    c.open_frag(x, i),
                    i,
                    c.code[i].uses.contains(x),
                    mods.take(j + 1).contains(x),
                ) by {
                lemma_take_contains(mods, j as int, x);
                assert(held(before, x) == touched(
                    c.open_frag(x, i),
                    i,
                    c.code[i].uses.contains(x),
                    mods.take(j as int).contains(x),
                ));
            }
        }
        j += 1;
    }
    assert(mods.take(j as int) =~= mods);
}

/// The items of a list of fragments.
spec fn pending_view(l: PendingFrags) -> Seq<FragItem> {
    pending_frags_items(l).map_values(
        |t: (Reg, RangeFrag, RangeFragMetrics)| FragItem { reg: t.0, frag: t.1@, metrics: t.2 },
    )
}

/// Appends a fragment to the finished ones.
fn finish_frag<F: Function>(
    done: &mut PendingFrags,
    func: &F,
    bix: BlockIx,
    r: Reg,
    first: InstPoint,
    last: InstPoint,
    mentions: MentionMap,
    Ghost(c): Ghost<BlockCode>,
)
    requires
        func.model().ok(),
        bix == c.bix,
        c.bix.ix < func.model().blocks.len(),
        c.block == func.model().blocks[c.bix.ix as int],
        point_in_block(c.block, first@),
        point_in_block(c.block, last@),
        first@ <= last@,
    ensures
        pending_view(*final(done)) == pending_view(*old(done)).push(
            c.item(r, FragView { first: first@, last: last@, mentions: mentions@ }),
        ),
{
    let (frag, frag_metrics) = RangeFrag::new(func, bix, first, last, mentions);
    done.push((r, frag, frag_metrics));
    assert(pending_view(*done) =~= pending_view(*old(done)).push(
        c.item(r, FragView { first: first@, last: last@, mentions: mentions@ }),
    ));
}

/// Starts a fragment for each register that an instruction writes, and ends the fragment that
/// was open for it.
fn note_writes<F: Function>(
    state: &mut RegMap<RangeFrag>,
    done: &mut PendingFrags,
    func: &F,
    bix: BlockIx,
    rvb: &RegVecsAndBounds,
    iix: InstIx,
    Ghost(c): Ghost<BlockCode>,
)
    requires
        c.ok(),
        c.code == rvb@,
        rvb.ok_in(c.block),
        c.block.lo() <= iix.ix < c.block.hi(),
        func.model().ok(),
        bix == c.bix,
        c.bix.ix < func.model().blocks.len(),
        c.block == func.model().blocks[c.bix.ix as int],
        forall|r: Reg| #[trigger] held(old(state)@, r) == c.read_frag(r, iix.ix as int),
        pending_view(*old(done)) == c.ended_before(iix.ix as int),
    ensures
        forall|r: Reg| #[trigger] held(final(state)@, r) == c.open_frag(r, iix.ix + 1),
        pending_view(*final(done)) == c.ended_before(iix.ix + 1),
{
    let ghost i = iix.ix as int;
    let ghost defs = c.code[i].defs;
    let bounds = rvb.bounds[iix.ix as usize];
    assert(rvb.bounds_ok(i));
    let start: usize = bounds.defs_start as usize;
    let len: usize = bounds.defs_len as usize;
    let total: usize = rvb.vecs.defs.len();
    let mut j: usize = 0;
    proof {
        assert(c.ended_before(i) + c.ended_by_insn(i, 0) =~= c.ended_before(i));
    }
    while j < len
        invariant
            j <= len == defs.len(),
            start + len <= total == rvb.vecs.defs@.len(),
            defs == rvb.vecs.defs@.subrange(start as int, start + len),
            defs == c.code[i].defs,
            i == iix.ix,
            c.ok(),
            c.block.lo() <= i < c.block.hi(),
            func.model().ok(),
            bix == c.bix,
            c.bix.ix < func.model().blocks.len(),
            c.block == func.model().blocks[c.bix.ix as int],
            forall|r: Reg| #[trigger] held(state@, r) == c.write_frag(r, i, j as int),
            pending_view(*done) == c.ended_before(i) + c.ended_by_insn(i, j as int),
        decreases len - j,
    {
        let r = rvb.vecs.defs[start + j];
        let ghost before = state@;
        let ghost done_before = pending_view(*done);
        proof {
            assert(r == defs[j as int]);
            c.lemma_open_frag_shape(r, i);
            assert(held(before, r) == c.write_frag(r, i, j as int));
        }
        if let Some(pf) = state.remove(r) {
            finish_frag(done, func, bix, r, pf.first, pf.last, pf.mentions, Ghost(c));
        }
        let new_pt = InstPoint::new_def(iix);
        let mut mention_set = Mention::new();
        mention_set.add_def();
        let mut mentions: MentionMap = Vec::new();
        mentions.push((iix, mention_set));
        assert(mentions@ =~= written(i).mentions);
        state.insert(r, RangeFrag { first: new_pt, last: new_pt, mentions });
        proof {
            assert forall|x: Reg| #[trigger]
                held(state@, x) == c.write_frag(x, i, j + 1) by {
                lemma_take_contains(defs, j as int, x);
                assert(held(before, x) == c.write_frag(x, i, j as int));
            }
            assert(pending_view(*done) =~= c.ended_before(i) + c.ended_by_insn(i, j + 1));
        }
        j += 1;
    }
    assert(defs.take(j as int) =~= defs);
}

/// The fragments of a vector.
pub open spec fn frag_views(v: Seq<RangeFrag>) -> Seq<FragView> {
    v.map_values(|f: RangeFrag| f@)
}

/// The fragment indices that a map lists for each register.
pub open spec fn ix_lists(m: Map<Reg, Vec<RangeFragIx>>) -> Map<Reg, Seq<RangeFragIx>> {
    m.map_values(|v: Vec<RangeFragIx>| v@)
}

/// The block `bix` of a function, whose instructions have the registers `code`, and where the
/// registers of `livein` hold values at the start.
pub open spec fn block_code(
    model: FunctionModel,
    bix: int,
    livein: Set<Reg>,
    code: Seq<InsnRegs>,
) -> BlockCode {
    BlockCode { code, bix: BlockIx { ix: bix as u32 }, block: model.blocks[bix], livein }
}

/// The three vectors and maps that collect fragments hold `items` behind what they held before.
pub open spec fn appended(
    old_map: Map<Reg, Seq<RangeFragIx>>,
    old_frags: Seq<FragView>,
    old_metrics: Seq<RangeFragMetrics>,
    items: Seq<FragItem>,
    map: Map<Reg, Seq<RangeFragIx>>,
    frags: Seq<FragView>,
    metrics: Seq<RangeFragMetrics>,
) -> bool {
    &&& frags == old_frags + item_frags(items)
    &&& metrics == old_metrics + item_metrics(items)
    &&& map == add_positions(old_map, old_frags.len() as int, item_regs(items))
}

/// Works out all fragments of block `bix` and appends them to `out_frags`, their metrics to
/// `out_frag_metrics`, and their indices to the lists of their registers in `out_map`.
pub fn get_range_frags_for_block<F: Function>(
    func: &F,
    bix: BlockIx,
    livein: &SparseSet,
    liveout: &SparseSet,
    rvb: &RegVecsAndBounds,
    out_map: &mut RegMap<Vec<RangeFragIx>>,
    out_frags: &mut Vec<RangeFrag>,
    out_frag_metrics: &mut Vec<RangeFragMetrics>,
)
    requires
        func.model().ok(),
        bix.ix < func.model().blocks.len(),
        livein.wf(),
        liveout.wf(),
        rvb.ok_in(func.model().blocks[bix.ix as int]),
        ({
            let c = block_code(func.model(), bix.ix as int, livein@, rvb@);
            &&& c.ok()
            &&& c.reads_available()
            &&& forall|r: Reg| #[trigger]
                liveout@.contains(r) ==> c.available(r, c.block.hi())
            &&& old(out_frags)@.len() + c.frag_count() <= u32::MAX
        }),
        old(out_frags)@.len() == old(out_frag_metrics)@.len(),
    ensures
        ({
            let c = block_code(func.model(), bix.ix as int, livein@, rvb@);
            exists|rest: Seq<Reg>|
                {
                    &&& c.is_rest(liveout.order(), rest)
                    &&& appended(
                        ix_lists(old(out_map)@),
                        frag_views(old(out_frags)@),
                        old(out_frag_metrics)@,
                        #[trigger] c.items(liveout.order(), rest),
                        ix_lists(final(out_map)@),
                        frag_views(final(out_frags)@),
                        final(out_frag_metrics)@,
                    )
                }
        }),
{
    let ghost c = block_code(func.model(), bix.ix as int, livein@, rvb@);
    let insns = func.block_insns(bix);
    let first_pt_in_block = InstPoint::new_use(insns.first());
    let last_pt_in_block = InstPoint::new_def(insns.last());

    // The running state: the open fragment of each register that holds a value.
    let mut state: RegMap<RangeFrag> = RegMap::new();
    let mut done = PendingFrags::new();

    // Every register of `livein` counts as written just before the block.
    let entering = livein.elems();
    let mut k: usize = 0;
    while k < entering.len()
        invariant
            k <= entering@.len(),
            entering@ == livein.order(),
            first_pt_in_block@ == use_point(c.block.lo()),
            forall|r: Reg| #[trigger]
                held(state@, r) == (if livein.order().take(k as int).contains(r) {
                    Some(
                        FragView {
                            first: use_point(c.block.lo()),
                            last: use_point(c.block.lo()),
                            mentions: Seq::empty(),
                        },
                    )
                } else {
                    None
                }),
        decreases entering@.len() - k,
    {
        let ghost before = state@;
        let mentions: MentionMap = Vec::new();
        state.insert(
            entering[k],
            RangeFrag { first: first_pt_in_block, last: first_pt_in_block, mentions },
        );
        proof {
            assert forall|r: Reg| #[trigger]
                held(state@, r) == (if livein.order().take(k + 1).contains(r) {
                    Some(
                        FragView {
                            first: use_point(c.block.lo()),
                            last: use_point(c.block.lo()),
                            mentions: Seq::empty(),
                        },
                    )
                } else {
                    None
                }) by {
                lemma_take_contains(livein.order(), k as int, r);
                assert(held(before, r) is Some <==> livein.order().take(k as int).contains(r));
            }
        }
        k += 1;
    }
    proof {
        assert(livein.order().take(k as int) =~= livein.order());
        assert forall|r: Reg| #[trigger] held(state@, r) == c.open_frag(r, c.block.lo()) by {}
        assert(pending_view(done) =~= c.ended_before(c.block.lo()));
    }

    // Each instruction in turn: first its reads, then its modifications, then its writes.
    let mut n: u32 = 0;
    while n < insns.len()
        invariant
            n <= insns.len,
            insns == c.block,
            c.ok(),
            c.code == rvb@,
            rvb.ok_in(c.block),
            c.reads_available(),
            func.model().ok(),
            bix == c.bix,
            c.bix.ix < func.model().blocks.len(),
            c.block == func.model().blocks[c.bix.ix as int],
            forall|r: Reg| #[trigger] held(state@, r) == c.open_frag(r, c.block.lo() + n),
            pending_view(done) == c.ended_before(c.block.lo() + n),
        decreases insns.len - n,
    {
        let iix = InstIx { ix: insns.first().ix + n };
        note_reads(&mut state, rvb, iix, Ghost(c));
        note_mods(&mut state, rvb, iix, Ghost(c));
        note_writes(&mut state, &mut done, func, bix, rvb, iix, Ghost(c));
        n += 1;
    }

    // Every register of `liveout` counts as read just after the block.
    let leaving = liveout.elems();
    let mut k: usize = 0;
    proof {
        liveout.lemma_order();
        assert(c.ended_before(c.block.hi()) + liveout.order().take(0).map_values(
            |r: Reg| c.live_out_item(r),
        ) =~= c.ended_before(c.block.hi()));
    }
    while k < leaving.len()
        invariant
            k <= leaving@.len(),
            leaving@ == liveout.order(),
            liveout.order().no_duplicates(),
            last_pt_in_block@ == def_point(c.block.hi() - 1),
            c.block.ok(),
            func.model().ok(),
            bix == c.bix,
            c.bix.ix < func.model().blocks.len(),
            c.block == func.model().blocks[c.bix.ix as int],
            forall|r: Reg| #[trigger]
                liveout@.contains(r) ==> c.available(r, c.block.hi()),
            forall|r: Reg| #[trigger]
                held(state@, r) == (if liveout.order().take(k as int).contains(r) {
                    None
                } else {
                    c.end_frag(r)
                }),
            pending_view(done) == c.ended_before(c.block.hi()) + liveout.order().take(
                k as int,
            ).map_values(|r: Reg| c.live_out_item(r)),
        decreases leaving@.len() - k,
    {
        let r = leaving[k];
        let ghost before = state@;
        proof {
            assert(liveout@.contains(r));
            c.lemma_open_iff_available(r, c.block.hi());
            c.lemma_open_frag_shape(r, c.block.hi());
            assert(held(before, r) == c.end_frag(r));
        }
        match state.remove(r) {
            Some(pf) => {
                finish_frag(
                    &mut done,
                    func,
                    bix,
                    r,
                    pf.first,
                    last_pt_in_block,
                    pf.mentions,
                    Ghost(c),
                );
            },
            None => {
                assert(false);
            },
        }
        proof {
            assert forall|x: Reg| #[trigger]
                held(state@, x) == (if liveout.order().take(k + 1).contains(x) {
                    None
                } else {
                    c.end_frag(x)
                }) by {
                lemma_take_contains(liveout.order(), k as int, x);
                assert(held(before, x) == if liveout.order().take(k as int).contains(x) {
                    None
                } else {
                    c.end_frag(x)
                });
            }
            assert(pending_view(done) =~= c.ended_before(c.block.hi()) + liveout.order().take(
                k + 1,
            ).map_values(|r: Reg| c.live_out_item(r)));
        }
        k += 1;
    }

    // The other registers end where they were last mentioned.
    let others = state.regs();
    let ghost rest = others@;
    let ghost so_far = c.ended_before(c.block.hi()) + liveout.order().map_values(
        |r: Reg| c.live_out_item(r),
    );
    let mut k: usize = 0;
    proof {
        assert(liveout.order().take(leaving@.len() as int) =~= liveout.order());
        assert forall|r: Reg| #[trigger]
            rest.contains(r) <==> c.end_frag(r) is Some && !liveout.order().contains(r) by {
            assert(held(state@, r) is Some <==> state@.contains_key(r));
        }
        assert(so_far + rest.take(0).map_values(|r: Reg| c.dead_item(r)) =~= so_far);
    }
    while k < others.len()
        invariant
            k <= others@.len(),
            others@ == rest,
            c.is_rest(liveout.order(), rest),
            c.block.ok(),
            func.model().ok(),
            bix == c.bix,
            c.bix.ix < func.model().blocks.len(),
            c.block == func.model().blocks[c.bix.ix as int],
            forall|r: Reg| #[trigger]
                held(state@, r) == (if liveout.order().contains(r) || rest.take(
                    k as int,
                ).contains(r) {
                    None
                } else {
                    c.end_frag(r)
                }),
            pending_view(done) == so_far + rest.take(k as int).map_values(
                |r: Reg| c.dead_item(r),
            ),
        decreases others@.len() - k,
    {
        let r = others[k];
        let ghost before = state@;
        proof {
            assert(rest.contains(r));
            c.lemma_open_frag_shape(r, c.block.hi());
            assert(!rest.take(k as int).contains(r));
            assert(held(before, r) == c.end_frag(r));
        }
        if let Some(pf) = state.remove(r) {
            finish_frag(&mut done, func, bix, r, pf.first, pf.last, pf.mentions, Ghost(c));
        }
        proof {
            assert forall|x: Reg| #[trigger]
                held(state@, x) == (if liveout.order().contains(x) || rest.take(
                    k + 1,
                ).contains(x) {
                    None
                } else {
                    c.end_frag(x)
                }) by {
                lemma_take_contains(rest, k as int, x);
                assert(held(before, x) == if liveout.order().contains(x) || rest.take(
                    k as int,
                ).contains(x) {
                    None
                } else {
                    c.end_frag(x)
                });
            }
            assert(pending_view(done) =~= so_far + rest.take(k + 1).map_values(
                |r: Reg| c.dead_item(r),
            ));
        }
        k += 1;
    }
    let ghost items = c.items(liveout.order(), rest);
    proof {
        assert(rest.take(others@.len() as int) =~= rest);
        assert(pending_view(done) =~= items);
        livein.lemma_order();
        assert forall|r: Reg| #[trigger] liveout.order().contains(r) implies c.end_frag(
            r,
        ) is Some by {
            assert(liveout@.contains(r));
            c.lemma_open_iff_available(r, c.block.hi());
        }
        c.lemma_item_count(liveout.order(), rest);
    }
    record_frags(done, out_map, out_frags, out_frag_metrics);
}

/// Moves finished fragments to the collecting vectors, and lists their indices by register.
fn record_frags(
    done: PendingFrags,
    out_map: &mut RegMap<Vec<RangeFragIx>>,
    out_frags: &mut Vec<RangeFrag>,
    out_frag_metrics: &mut Vec<RangeFragMetrics>,
)
    requires
        old(out_frags)@.len() == old(out_frag_metrics)@.len(),
        old(out_frags)@.len() + pending_view(done).len() <= u32::MAX,
    ensures
        appended(
            ix_lists(old(out_map)@),
            frag_views(old(out_frags)@),
            old(out_frag_metrics)@,
            pending_view(done),
            ix_lists(final(out_map)@),
            frag_views(final(out_frags)@),
            final(out_frag_metrics)@,
        ),
{
    let ghost items = pending_view(done);
    let ghost map0 = ix_lists(out_map@);
    let ghost frags0 = frag_views(out_frags@);
    let ghost metrics0 = out_frag_metrics@;
    let list = done.into_vec();
    let ghost raw = list@;
    proof {
        assert(items.take(0) =~= Seq::<FragItem>::empty());
        assert(item_regs(items.take(0)) =~= Seq::<Reg>::empty());
        assert(frags0 + item_frags(items.take(0)) =~= frags0);
        assert(metrics0 + item_metrics(items.take(0)) =~= metrics0);
    }
    for t in it: list
        invariant
            it.seq() == raw,
            raw.len() == items.len(),
            forall|j: int|
                0 <= j < raw.len() ==> #[trigger] items[j] == (FragItem {
                    reg: raw[j].0,
                    frag: raw[j].1@,
                    metrics: raw[j].2,
                }),
            frags0.len() + items.len() <= u32::MAX,
            out_frags@.len() == frags0.len() + it.index(),
            appended(
                map0,
                frags0,
                metrics0,
                items.take(it.index()),
                ix_lists(out_map@),
                frag_views(out_frags@),
                out_frag_metrics@,
            ),
    {
        let ghost at = it.index();
        let ghost so_far = items.take(at);
        let ghost map1 = ix_lists(out_map@);
        let ghost frags1 = frag_views(out_frags@);
        let (r, frag, frag_metrics) = t;
        let ghost view = frag@;
        proof {
            assert(items.take(at + 1) =~= so_far.push(items[at]));
            assert(item_regs(items.take(at + 1)) =~= item_regs(so_far).push(r));
            assert(item_regs(items.take(at + 1)).drop_last() =~= item_regs(so_far));
        }
        out_frags.push(frag);
        out_frag_metrics.push(frag_metrics);
        let fix = RangeFragIx { ix: (out_frags.len() - 1) as u32 };
        let mut list_for_reg: Vec<RangeFragIx> = match out_map.remove(r) {
            Some(v) => v,
            None => Vec::new(),
        };
        assert(list_for_reg@ == listed(map1, r));
        list_for_reg.push(fix);
        out_map.insert(r, list_for_reg);
        proof {
            assert(ix_lists(out_map@) =~= map1.insert(r, listed(map1, r).push(fix)));
            assert(frag_views(out_frags@) =~= frags1.push(view));
            assert(item_frags(items.take(at + 1)) =~= item_frags(so_far).push(view));
            assert(frag_views(out_frags@) =~= frags0 + item_frags(items.take(at + 1)));
            assert(out_frag_metrics@ =~= metrics0 + item_metrics(items.take(at + 1)));
        }
    }
    assert(items.take(items.len() as int) =~= items);
}

/// The live-in and live-out sets of all blocks allow fragments to be made: every read finds a
/// value, every live-out register holds one, and the fragments can be numbered.
pub open spec fn frags_ready(
    model: FunctionModel,
    code: Seq<InsnRegs>,
    liveins: Seq<SparseSet>,
    liveouts: Seq<SparseSet>,
) -> bool {
    &&& model.ok()
    &&& liveins.len() == liveouts.len() == model.blocks.len()
    &&& forall|b: int|
        0 <= b < model.blocks.len() ==> block_ready(
            #[trigger] block_code(model, b, liveins[b]@, code),
            liveins[b],
            liveouts[b],
        )
    &&& frag_count_before(model, code, set_views(liveins), model.blocks.len() as int)
        <= u32::MAX
}

/// [`frags_ready`] for one block.
pub open spec fn block_ready(c: BlockCode, livein: SparseSet, liveout: SparseSet) -> bool {
    &&& livein.wf()
    &&& liveout.wf()
    &&& c.ok()
    &&& c.reads_available()
    &&& forall|r: Reg| #[trigger] liveout@.contains(r) ==> c.available(r, c.block.hi())
}

/// How many fragments the blocks before `b` have.
pub open spec fn frag_count_before(
    model: FunctionModel,
    code: Seq<InsnRegs>,
    liveins: Seq<Set<Reg>>,
    b: int,
) -> int
    decreases b,
{
    if b <= 0 {
        0
    } else {
        frag_count_before(model, code, liveins, b - 1) + block_code(
            model,
            b - 1,
            liveins[b - 1],
            code,
        ).frag_count()
    }
}

/// The fragments of the blocks before `b`, block by block. For each block, `rests` lists the
/// registers that hold a value at its end and are not live out.
pub open spec fn items_before(
    model: FunctionModel,
    code: Seq<InsnRegs>,
    liveins: Seq<SparseSet>,
    liveouts: Seq<SparseSet>,
    rests: Seq<Seq<Reg>>,
    b: int,
) -> Seq<FragItem>
    decreases b,
{
    if b <= 0 {
        Seq::empty()
    } else {
        items_before(model, code, liveins, liveouts, rests, b - 1) + block_code(
            model,
            b - 1,
            liveins[b - 1]@,
            code,
        ).items(liveouts[b - 1].order(), rests[b - 1])
    }
}

/// `rests` is a possible choice of orders for [`items_before`].
pub open spec fn are_rests(
    model: FunctionModel,
    code: Seq<InsnRegs>,
    liveins: Seq<SparseSet>,
    liveouts: Seq<SparseSet>,
    rests: Seq<Seq<Reg>>,
) -> bool {
    forall|b: int|
        0 <= b < rests.len() ==> block_code(model, b, liveins[b]@, code).is_rest(
            liveouts[b].order(),
            #[trigger] rests[b],
        )
}

/// `items` are all fragments of the function, in a possible order.
pub open spec fn are_items(
    model: FunctionModel,
    code: Seq<InsnRegs>,
    liveins: Seq<SparseSet>,
    liveouts: Seq<SparseSet>,
    items: Seq<FragItem>,
) -> bool {
    exists|rests: Seq<Seq<Reg>>|
        {
            &&& rests.len() == model.blocks.len()
            &&& are_rests(model, code, liveins, liveouts, rests)
            &&& items == #[trigger] items_before(
                model,
                code,
                liveins,
                liveouts,
                rests,
                model.blocks.len() as int,
            )
        }
}

proof fn lemma_items_before_prefix(
    model: FunctionModel,
    code: Seq<InsnRegs>,
    liveins: Seq<SparseSet>,
    liveouts: Seq<SparseSet>,
    rests: Seq<Seq<Reg>>,
    more: Seq<Seq<Reg>>,
    b: int,
)
    requires
        b <= rests.len() <= more.len(),
        forall|k: int| 0 <= k < rests.len() ==> rests[k] == more[k],
    ensures
        items_before(model, code, liveins, liveouts, rests, b) == items_before(
            model,
            code,
            liveins,
            liveouts,
            more,
            b,
        ),
    decreases b,
{
    if b > 0 {
        lemma_items_before_prefix(model, code, liveins, liveouts, rests, more, b - 1);
    }
}

proof fn lemma_count_monotone(
    model: FunctionModel,
    code: Seq<InsnRegs>,
    liveins: Seq<Set<Reg>>,
    a: int,
    b: int,
)
    requires
        a <= b,
    ensures
        frag_count_before(model, code, liveins, a) <= frag_count_before(model, code, liveins, b),
    decreases b,
{
    if a < b && b > 0 {
        let c = block_code(model, b - 1, liveins[b - 1], code);
        c.lemma_writes_nonneg(c.block.hi());
        lemma_count_monotone(model, code, liveins, a, b - 1);
    }
}

/// Works out the fragments of all blocks: their indices by register, the fragments, and their
/// metrics.
pub fn get_range_frags<F: Function>(
    func: &F,
    liveins: &Vec<SparseSet>,
    liveouts: &Vec<SparseSet>,
    rvb: &RegVecsAndBounds,
) -> (r: (RegMap<Vec<RangeFragIx>>, Vec<RangeFrag>, Vec<RangeFragMetrics>))
    requires
        forall|b: int|
            0 <= b < func.model().blocks.len() ==> rvb.ok_in(#[trigger] func.model().blocks[b]),
        rvb.vecs.sanitized,
        frags_ready(func.model(), rvb@, liveins@, liveouts@),
    ensures
        exists|items: Seq<FragItem>|
            {
                &&& #[trigger] are_items(func.model(), rvb@, liveins@, liveouts@, items)
                &&& appended(
                    Map::empty(),
                    Seq::empty(),
                    Seq::empty(),
                    items,
                    ix_lists(r.0@),
                    frag_views(r.1@),
                    r.2@,
                )
            },
{
    let ghost model = func.model();
    let mut result_map: RegMap<Vec<RangeFragIx>> = RegMap::new();
    let mut result_frags: Vec<RangeFrag> = Vec::new();
    let mut result_frag_metrics: Vec<RangeFragMetrics> = Vec::new();
    let num_blocks: u32 = func.blocks().len;
    let ghost mut rests: Seq<Seq<Reg>> = Seq::empty();
    let ghost mut items: Seq<FragItem> = Seq::empty();
    proof {
        assert(ix_lists(result_map@) =~= Map::empty());
        assert(frag_views(result_frags@) =~= Seq::<FragView>::empty());
        assert(item_frags(items) =~= Seq::<FragView>::empty());
        assert(item_metrics(items) =~= Seq::<RangeFragMetrics>::empty());
        assert(item_regs(items) =~= Seq::<Reg>::empty());
        assert(Seq::<FragView>::empty() + item_frags(items) =~= Seq::<FragView>::empty());
        assert(Seq::<RangeFragMetrics>::empty() + item_metrics(items) =~= Seq::<
            RangeFragMetrics,
        >::empty());
    }
    let mut b: u32 = 0;
    while b < num_blocks
        invariant
            model == func.model(),
            b <= num_blocks == model.blocks.len(),
            forall|b: int|
                0 <= b < model.blocks.len() ==> rvb.ok_in(#[trigger] model.blocks[b]),
            frags_ready(model, rvb@, liveins@, liveouts@),
            rests.len() == b,
            are_rests(model, rvb@, liveins@, liveouts@, rests),
            items == items_before(model, rvb@, liveins@, liveouts@, rests, b as int),
            items.len() == frag_count_before(model, rvb@, set_views(liveins@), b as int),
            appended(
                Map::empty(),
                Seq::empty(),
                Seq::empty(),
                items,
                ix_lists(result_map@),
                frag_views(result_frags@),
                result_frag_metrics@,
            ),
        decreases num_blocks - b,
    {
        let ghost c = block_code(model, b as int, liveins@[b as int]@, rvb@);
        let ghost map1 = ix_lists(result_map@);
        let ghost frags1 = frag_views(result_frags@);
        let ghost metrics1 = result_frag_metrics@;
        proof {
            assert(block_ready(c, liveins@[b as int], liveouts@[b as int]));
            lemma_count_monotone(model, rvb@, set_views(liveins@), b + 1, num_blocks as int);
        }
        get_range_frags_for_block(
            func,
            BlockIx { ix: b },
            &liveins[b as usize],
            &liveouts[b as usize],
            rvb,
            &mut result_map,
            &mut result_frags,
            &mut result_frag_metrics,
        );
        proof {
            let order = liveouts@[b as int].order();
            let rest = choose|rest: Seq<Reg>|
                {
                    &&& c.is_rest(order, rest)
                    &&& appended(
                        map1,
                        frags1,
                        metrics1,
                        #[trigger] c.items(order, rest),
                        ix_lists(result_map@),
                        frag_views(result_frags@),
                        result_frag_metrics@,
                    )
                };
            let new = c.items(order, rest);
            let more = rests.push(rest);
            lemma_items_before_prefix(model, rvb@, liveins@, liveouts@, rests, more, b as int);
            assert(are_rests(model, rvb@, liveins@, liveouts@, more)) by {
                assert forall|k: int| 0 <= k < more.len() implies block_code(
                    model,
                    k,
                    liveins@[k]@,
                    rvb@,
                ).is_rest(liveouts@[k].order(), #[trigger] more[k]) by {
                    if k < rests.len() {
                        assert(more[k] == rests[k]);
                    }
                }
            }
            lemma_appended_twice(
                items,
                new,
                map1,
                frags1,
                metrics1,
                ix_lists(result_map@),
                frag_views(result_frags@),
                result_frag_metrics@,
            );
            liveouts@[b as int].lemma_order();
            liveins@[b as int].lemma_order();
            lemma_live_outs_open(c, liveins@[b as int], liveouts@[b as int]);
            c.lemma_item_count(order, rest);
            rests = more;
            items = items + new;
        }
        b += 1;
    }
    assert(are_items(model, rvb@, liveins@, liveouts@, items));
    (result_map, result_frags, result_frag_metrics)
}

/// Appending some fragments and then others is appending them all.
proof fn lemma_appended_twice(
    a: Seq<FragItem>,
    b: Seq<FragItem>,
    map1: Map<Reg, Seq<RangeFragIx>>,
    frags1: Seq<FragView>,
    metrics1: Seq<RangeFragMetrics>,
    map2: Map<Reg, Seq<RangeFragIx>>,
    frags2: Seq<FragView>,
    metrics2: Seq<RangeFragMetrics>,
)
    requires
        appended(Map::empty(), Seq::empty(), Seq::empty(), a, map1, frags1, metrics1),
        appended(map1, frags1, metrics1, b, map2, frags2, metrics2),
    ensures
        appended(Map::empty(), Seq::empty(), Seq::empty(), a + b, map2, frags2, metrics2),
{
    assert(item_frags(a + b) =~= item_frags(a) + item_frags(b));
    assert(item_metrics(a + b) =~= item_metrics(a) + item_metrics(b));
    assert(item_regs(a + b) =~= item_regs(a) + item_regs(b));
    assert(frags2 =~= Seq::<FragView>::empty() + item_frags(a + b));
    assert(metrics2 =~= Seq::<RangeFragMetrics>::empty() + item_metrics(a + b));
    lemma_add_positions_twice(Map::empty(), 0, item_regs(a), item_regs(b));
}

/// Every fragment belongs to a block, and to a register that holds a value in that block.
proof fn lemma_items_before_regs(
    model: FunctionModel,
    code: Seq<InsnRegs>,
    liveins: Seq<SparseSet>,
    liveouts: Seq<SparseSet>,
    rests: Seq<Seq<Reg>>,
    b: int,
)
    requires
        frags_ready(model, code, liveins, liveouts),
        0 <= b <= rests.len() <= model.blocks.len(),
        are_rests(model, code, liveins, liveouts, rests),
    ensures
        forall|k: int|
            0 <= k < items_before(model, code, liveins, liveouts, rests, b).len()
                ==> item_placed(
                model,
                code,
                liveins,
                #[trigger] items_before(model, code, liveins, liveouts, rests, b)[k],
            ),
        items_before(model, code, liveins, liveouts, rests, b).len() == frag_count_before(
            model,
            code,
            set_views(liveins),
            b,
        ),
    decreases b,
{
    if b > 0 {
        lemma_items_before_regs(model, code, liveins, liveouts, rests, b - 1);
        let c = block_code(model, b - 1, liveins[b - 1]@, code);
        let order = liveouts[b - 1].order();
        let rest = rests[b - 1];
        assert(block_ready(c, liveins[b - 1], liveouts[b - 1]));
        assert(c.is_rest(order, rest));
        assert(c.block == model.blocks[b - 1]);
        lemma_live_outs_open(c, liveins[b - 1], liveouts[b - 1]);
        c.lemma_items_true(order, rest);
        liveins[b - 1].lemma_order();
        liveouts[b - 1].lemma_order();
        c.lemma_item_count(order, rest);
        let before = items_before(model, code, liveins, liveouts, rests, b - 1);
        let now = items_before(model, code, liveins, liveouts, rests, b);
        assert forall|k: int| 0 <= k < now.len() implies item_placed(
            model,
            code,
            liveins,
            #[trigger] now[k],
        ) by {
            if k < before.len() {
                assert(now[k] == before[k]);
            } else {
                let t = now[k];
                assert(t == c.items(order, rest)[k - before.len()]);
                assert(c.item_true(t));
                assert(c.starts_well(t.reg, t.frag));
                assert(c.available(t.reg, c.block.hi()));
            }
        }
    }
}

/// The fragment is a true one of a block that exists, and its register holds a value in that
/// block.
pub open spec fn item_placed(
    model: FunctionModel,
    code: Seq<InsnRegs>,
    liveins: Seq<SparseSet>,
    t: FragItem,
) -> bool {
    let b = t.metrics.bix.ix as int;
    let c = block_code(model, b, liveins[b]@, code);
    &&& 0 <= b < model.blocks.len()
    &&& c.item_true(t)
    &&& c.available(t.reg, model.blocks[b].hi())
}

/// Every fragment of a function lies in its block, starts where its register gets a value, and
/// records only what the instructions do. There is one for each value that a register holds when
/// a block starts, and one for each write.
pub proof fn lemma_items_placed(
    model: FunctionModel,
    code: Seq<InsnRegs>,
    liveins: Seq<SparseSet>,
    liveouts: Seq<SparseSet>,
    items: Seq<FragItem>,
)
    requires
        frags_ready(model, code, liveins, liveouts),
        are_items(model, code, liveins, liveouts, items),
    ensures
        forall|k: int|
            0 <= k < items.len() ==> item_placed(model, code, liveins, #[trigger] items[k]),
        items.len() == frag_count_before(
            model,
            code,
            set_views(liveins),
            model.blocks.len() as int,
        ),
{
    let n = model.blocks.len() as int;
    let rests = choose|rests: Seq<Seq<Reg>>|
        {
            &&& rests.len() == n
            &&& are_rests(model, code, liveins, liveouts, rests)
            &&& items == #[trigger] items_before(model, code, liveins, liveouts, rests, n)
        };
    lemma_items_before_regs(model, code, liveins, liveouts, rests, n);
}

/// A register that is live out has an open fragment where its block ends.
pub proof fn lemma_live_outs_open(c: BlockCode, livein: SparseSet, liveout: SparseSet)
    requires
        block_ready(c, livein, liveout),
    ensures
        forall|r: Reg| #[trigger] liveout.order().contains(r) ==> c.end_frag(r) is Some,
{
    assert forall|r: Reg| #[trigger] liveout.order().contains(r) implies c.end_frag(r) is Some by {
        assert(liveout@.contains(r));
        c.lemma_open_iff_available(r, c.block.hi());
    }
}

} // verus!
