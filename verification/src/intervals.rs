//! Live intervals, and how fragments are gathered into them.

use crate::block_model::{ascending, FragView};
use crate::data_structures::{
    InstIx, InstPoint, Mention, MentionMap, RangeFragIx, RealReg, Reg, VirtualReg,
};
use crate::range_frags::{frag_views, RangeFrag};
use crate::seq_facts::{lemma_same_elements, lemma_take_contains};
use crate::sorting::{sort_by_key, sorted, SortKey};
use vstd::prelude::*;

verus! {

/// The number of a virtual interval: its position among all of them.
#[derive(Clone, Copy, Debug, Hash, PartialEq, Eq, PartialOrd, Ord, Structural)]
pub struct IntId {
    pub id: usize,
}

/// The fragments of a real register.
pub struct FixedInterval {
    pub reg: RealReg,
    pub frags: Vec<RangeFrag>,
}

/// A live interval of a virtual register: one value, or several that flow into each other.
pub struct VirtualInterval {
    pub id: IntId,
    pub vreg: VirtualReg,
    pub start: InstPoint,
    pub end: InstPoint,
    pub mentions: MentionMap,
    /// The interval that this one was split from.
    pub ancestor: Option<IntId>,
}

/// All intervals of a function.
pub struct Intervals {
    pub virtuals: Vec<VirtualInterval>,
    pub fixeds: Vec<FixedInterval>,
}

impl VirtualInterval {
    pub fn new(
        id: IntId,
        vreg: VirtualReg,
        start: InstPoint,
        end: InstPoint,
        mentions: MentionMap,
    ) -> (v: VirtualInterval)
        ensures
            v == (VirtualInterval { id, vreg, start, end, mentions, ancestor: None }),
    {
        VirtualInterval { id, vreg, start, end, mentions, ancestor: None }
    }
}

/// The fragments with the given indices.
pub open spec fn picked(frags: Seq<FragView>, ixs: Seq<RangeFragIx>) -> Seq<FragView> {
    ixs.map_values(|f: RangeFragIx| frags[f.ix as int])
}

/// The mentions of some fragments, one fragment after the other.
pub open spec fn all_mentions(frags: Seq<FragView>) -> Seq<(InstIx, Mention)>
    decreases frags.len(),
{
    if frags.len() == 0 {
        Seq::empty()
    } else {
        all_mentions(frags.drop_last()) + frags.last().mentions
    }
}

/// The least first point, or `u64::MAX` if there is no fragment.
pub open spec fn least_first(frags: Seq<FragView>) -> int
    decreases frags.len(),
{
    if frags.len() == 0 {
        u64::MAX as int
    } else if least_first(frags.drop_last()) <= frags.last().first {
        least_first(frags.drop_last())
    } else {
        frags.last().first
    }
}

/// The greatest last point, or zero if there is no fragment.
pub open spec fn greatest_last(frags: Seq<FragView>) -> int
    decreases frags.len(),
{
    if frags.len() == 0 {
        0
    } else if frags.last().last <= greatest_last(frags.drop_last()) {
        greatest_last(frags.drop_last())
    } else {
        frags.last().last
    }
}

/// Some mention is of instruction `i`.
pub open spec fn mentioned(all: Seq<(InstIx, Mention)>, i: InstIx) -> bool {
    exists|m: Mention| #[trigger] all.contains((i, m))
}

/// Everything that the mentions of instruction `i` say.
pub open spec fn noted(all: Seq<(InstIx, Mention)>, i: InstIx) -> Mention {
    Mention {
        used: exists|m: Mention| #[trigger] all.contains((i, m)) && m.used,
        modified: exists|m: Mention| #[trigger] all.contains((i, m)) && m.modified,
        defined: exists|m: Mention| #[trigger] all.contains((i, m)) && m.defined,
    }
}

/// `merged` holds one mention for each instruction that is mentioned in `all`, in ascending
/// order, and it says everything that those of `all` say of that instruction.
pub open spec fn is_merge(all: Seq<(InstIx, Mention)>, merged: Seq<(InstIx, Mention)>) -> bool {
    &&& ascending(merged)
    &&& forall|k: int|
        0 <= k < merged.len() ==> {
            &&& mentioned(all, (#[trigger] merged[k]).0)
            &&& merged[k].1 == noted(all, merged[k].0)
        }
    &&& forall|i: InstIx| #[trigger]
        mentioned(all, i) ==> exists|k: int| 0 <= k < merged.len() && (#[trigger] merged[k]).0 == i
}

/// `v` is the interval number `id`, of register `reg`, that is made of the given fragments.
pub open spec fn is_interval(v: VirtualInterval, id: int, reg: Reg, frags: Seq<FragView>) -> bool {
    &&& v.id.id == id
    &&& v.vreg.reg == reg
    &&& v.start@ == least_first(frags)
    &&& v.end@ == greatest_last(frags)
    &&& is_merge(all_mentions(frags), v.mentions@)
    &&& v.ancestor == Some(v.id)
}

impl SortKey for (InstIx, Mention) {
    open spec fn key(&self) -> int {
        self.0.ix as int
    }

    fn sort_key(&self) -> u64 {
        self.0.ix as u64
    }
}

/// Merges the mentions of each instruction.
fn merge_mentions(mentions: MentionMap) -> (merged: MentionMap)
    ensures
        is_merge(mentions@, merged@),
{
    let ghost all = mentions@;
    let mut mentions = mentions;
    sort_by_key(&mut mentions);
    let ghost run = mentions@;
    let mut merged: MentionMap = Vec::with_capacity(mentions.len());
    let mut i: usize = 0;
    while i < mentions.len()
        invariant
            i <= mentions@.len(),
            mentions@ == run,
            sorted(run),
            is_merge(run.take(i as int), merged@),
            i > 0 ==> merged@.len() > 0 && merged@.last().0 == run[i - 1].0,
        decreases mentions@.len() - i,
    {
        let (iix, m) = mentions[i];
        let ghost before = merged@;
        let n: usize = merged.len();
        if n > 0 && merged[n - 1].0.ix == iix.ix {
            let mut kept = merged[n - 1].1;
            if m.is_use() {
                kept.add_use();
            }
            if m.is_mod() {
                kept.add_mod();
            }
            if m.is_def() {
                kept.add_def();
            }
            merged.set(n - 1, (iix, kept));
        } else {
            merged.push((iix, m));
        }
        proof {
            lemma_merge_one_more(run, i as int, before, merged@);
        }
        i += 1;
    }
    proof {
        assert(run.take(i as int) =~= run);
        lemma_same_elements(all, run);
        lemma_merge_of_same_elements(run, all, merged@);
    }
    merged
}

proof fn lemma_noted_same(a: Seq<(InstIx, Mention)>, b: Seq<(InstIx, Mention)>, i: InstIx)
    requires
        forall|m: Mention|
            #![trigger a.contains((i, m))]
            #![trigger b.contains((i, m))]
            a.contains((i, m)) == b.contains((i, m)),
    ensures
        mentioned(a, i) == mentioned(b, i),
        noted(a, i) == noted(b, i),
{
}

proof fn lemma_noted_one_more(
    a: Seq<(InstIx, Mention)>,
    b: Seq<(InstIx, Mention)>,
    i: InstIx,
    m: Mention,
)
    requires
        forall|y: Mention|
            #![trigger a.contains((i, y))]
            #![trigger b.contains((i, y))]
            b.contains((i, y)) == (a.contains((i, y)) || y == m),
    ensures
        noted(b, i).used == (noted(a, i).used || m.used),
        noted(b, i).modified == (noted(a, i).modified || m.modified),
        noted(b, i).defined == (noted(a, i).defined || m.defined),
        !mentioned(a, i) ==> noted(b, i) == m,
{
    assert(b.contains((i, m)));
}

/// What mentions merge to depends on which they are, not on their order or number.
pub proof fn lemma_merge_of_same_elements(
    a: Seq<(InstIx, Mention)>,
    b: Seq<(InstIx, Mention)>,
    merged: Seq<(InstIx, Mention)>,
)
    requires
        forall|e: (InstIx, Mention)| #[trigger] a.contains(e) <==> b.contains(e),
        is_merge(a, merged),
    ensures
        is_merge(b, merged),
{
    assert forall|i: InstIx|
        #![trigger mentioned(b, i)]
        mentioned(a, i) == mentioned(b, i) && noted(a, i) == noted(b, i) by {
        lemma_noted_same(a, b, i);
    }
}

proof fn lemma_merge_one_more(
    run: Seq<(InstIx, Mention)>,
    i: int,
    before: Seq<(InstIx, Mention)>,
    after: Seq<(InstIx, Mention)>,
)
    requires
        0 <= i < run.len(),
        sorted(run),
        is_merge(run.take(i), before),
        i > 0 ==> before.len() > 0 && before.last().0 == run[i - 1].0,
        ({
            let (iix, m) = run[i];
            if before.len() > 0 && before.last().0 == iix {
                let k = before.last().1;
                after == before.update(
                    before.len() - 1,
                    (
                        iix,
                        Mention {
                            used: k.used || m.used,
                            modified: k.modified || m.modified,
                            defined: k.defined || m.defined,
                        },
                    ),
                )
            } else {
                after == before.push((iix, m))
            }
        }),
    ensures
        is_merge(run.take(i + 1), after),
        after.len() > 0,
        after.last().0 == run[i].0,
{
    let a = run.take(i);
    let b = run.take(i + 1);
    let (iix, m) = run[i];
    assert forall|e: (InstIx, Mention)| #[trigger] b.contains(e) <==> a.contains(e) || e == run[i] by {
        lemma_take_contains(run, i, e);
    }
    assert forall|x: InstIx| x != iix implies #[trigger] mentioned(b, x) == mentioned(a, x) && noted(
        b,
        x,
    ) == noted(a, x) by {
        lemma_noted_same(a, b, x);
    }
    assert(b.contains((iix, m)));
    assert(mentioned(b, iix));
    lemma_noted_one_more(a, b, iix, m);
    // No earlier mention is of a later instruction.
    assert forall|x: InstIx| mentioned(a, x) implies x.ix <= iix.ix by {
        let y = choose|y: Mention| #[trigger] a.contains((x, y));
        let k = choose|k: int| 0 <= k < a.len() && a[k] == (x, y);
        assert(run[k].key() <= run[i].key());
    }
    if before.len() > 0 && before.last().0 == iix {
        let k = before.len() - 1;
        assert(before[k].1 == noted(a, iix));
    } else {
        // The instruction is not mentioned yet.
        if mentioned(a, iix) {
            let k = choose|k: int| 0 <= k < before.len() && (#[trigger] before[k]).0 == iix;
            assert(before[before.len() - 1].0 == run[i - 1].0);
            assert(run[i - 1].key() <= run[i].key());
            assert(k == before.len() - 1);
        }
        assert forall|k: int| 0 <= k < before.len() implies (#[trigger] before[k]).0.ix
            < iix.ix by {
            assert(mentioned(a, before[k].0));
        }
    }
    assert forall|k: int| 0 <= k < after.len() implies {
        &&& mentioned(b, (#[trigger] after[k]).0)
        &&& after[k].1 == noted(b, after[k].0)
    } by {
        if k < after.len() - 1 {
            assert(after[k] == before[k]);
            assert(mentioned(a, before[k].0));
            assert(before[k].0.ix < iix.ix);
            assert(mentioned(b, before[k].0));
        } else {
            assert(after[k].0 == iix);
            assert(after[k].1.used == noted(b, iix).used);
            assert(after[k].1.modified == noted(b, iix).modified);
            assert(after[k].1.defined == noted(b, iix).defined);
        }
    }
    assert forall|x: InstIx| #[trigger] mentioned(b, x) implies exists|k: int|
        0 <= k < after.len() && (#[trigger] after[k]).0 == x by {
        if x == iix {
            assert(after[after.len() - 1].0 == x);
        } else {
            let k = choose|k: int| 0 <= k < before.len() && (#[trigger] before[k]).0 == x;
            assert(after[k].0 == x);
        }
    }
}

/// What [`flush_interval`] does to the intervals of real registers: it appends the fragments to
/// those of the register.
pub open spec fn real_flushed(
    before: Seq<FixedInterval>,
    reg: Reg,
    new: Seq<FragView>,
    after: Seq<FixedInterval>,
) -> bool {
    &&& after.len() == before.len()
    &&& forall|k: int|
        0 <= k < before.len() ==> if k == reg.real_index() {
            &&& (#[trigger] after[k]).reg == before[k].reg
            &&& frag_views(after[k].frags@) == frag_views(before[k].frags@) + new
        } else {
            after[k] == before[k]
        }
}

/// What [`flush_interval`] does: for a real register, the fragments join its fixed interval, and
/// for a virtual one, they become one more interval.
pub open spec fn is_flush(
    real0: Seq<FixedInterval>,
    virt0: Seq<VirtualInterval>,
    reg: Reg,
    new: Seq<FragView>,
    real1: Seq<FixedInterval>,
    virt1: Seq<VirtualInterval>,
) -> bool {
    &&& reg.spec_is_real() ==> {
        &&& virt1 == virt0
        &&& real_flushed(real0, reg, new, real1)
    }
    &&& !reg.spec_is_real() ==> {
        &&& real1 == real0
        &&& virt1.len() == virt0.len() + 1
        &&& virt1.drop_last() == virt0
        &&& is_interval(virt1.last(), virt0.len() as int, reg, new)
    }
}

/// Makes one interval of the given fragments of a register. For a real register, they join the
/// fixed interval of that register, in no particular order. For a virtual one, they become a new
/// interval, which spans them all.
pub fn flush_interval(
    result_real: &mut Vec<FixedInterval>,
    result_virtual: &mut Vec<VirtualInterval>,
    reg: Reg,
    frag_ixs: &[RangeFragIx],
    frags: &Vec<RangeFrag>,
)
    requires
        forall|k: int| 0 <= k < frag_ixs@.len() ==> (#[trigger] frag_ixs@[k]).ix < frags@.len(),
        reg.spec_is_real() ==> reg.real_index() < old(result_real)@.len(),
    ensures
        is_flush(
            old(result_real)@,
            old(result_virtual)@,
            reg,
            picked(frag_views(frags@), frag_ixs@),
            final(result_real)@,
            final(result_virtual)@,
        ),
{
    let ghost views = frag_views(frags@);
    let ghost chosen = picked(views, frag_ixs@);
    if reg.is_real() {
        let at: usize = reg.to_real_reg().get_index();
        let ghost before = result_real@;
        let ghost frags0 = frag_views(before[at as int].frags@);
        assert(frags0 + chosen.take(0) =~= frags0);
        let mut i: usize = 0;
        while i < frag_ixs.len()
            invariant
                i <= frag_ixs@.len(),
                views == frag_views(frags@),
                chosen == picked(views, frag_ixs@),
                forall|k: int|
                    0 <= k < frag_ixs@.len() ==> (#[trigger] frag_ixs@[k]).ix < frags@.len(),
                at == reg.real_index(),
                at < result_real@.len() == before.len(),
                frags0 == frag_views(before[at as int].frags@),
                result_real@[at as int].reg == before[at as int].reg,
                frag_views(result_real@[at as int].frags@) == frags0 + chosen.take(i as int),
                forall|k: int| 0 <= k < before.len() && k != at ==> result_real@[k] == before[k],
            decreases frag_ixs@.len() - i,
        {
            let frag = frags[frag_ixs[i].ix as usize].clone();
            let ghost now = frag_views(result_real@[at as int].frags@);
            result_real[at].frags.push(frag);
            proof {
                assert(frag@ == chosen[i as int]);
                assert(frag_views(result_real@[at as int].frags@) =~= now.push(chosen[i as int]));
                assert(frags0 + chosen.take(i + 1) =~= (frags0 + chosen.take(i as int)).push(
                    chosen[i as int],
                ));
            }
            i += 1;
        }
        assert(chosen.take(i as int) =~= chosen);
        return ;
    }
    let mut start = InstPoint::max_value();
    let mut end = InstPoint::min_value();
    let mut mentions: MentionMap = Vec::new();
    let mut i: usize = 0;
    while i < frag_ixs.len()
        invariant
            i <= frag_ixs@.len(),
            views == frag_views(frags@),
            chosen == picked(views, frag_ixs@),
            forall|k: int|
                0 <= k < frag_ixs@.len() ==> (#[trigger] frag_ixs@[k]).ix < frags@.len(),
            start@ == least_first(chosen.take(i as int)),
            end@ == greatest_last(chosen.take(i as int)),
            mentions@ == all_mentions(chosen.take(i as int)),
        decreases frag_ixs@.len() - i,
    {
        let frag = &frags[frag_ixs[i].ix as usize];
        proof {
            assert(frag@ == chosen[i as int]);
            assert(chosen.take(i + 1).drop_last() =~= chosen.take(i as int));
            assert(chosen.take(i + 1).last() == frag@);
        }
        append_mentions(&mut mentions, &frag.mentions);
        start = InstPoint::min(start, frag.first);
        end = InstPoint::max(end, frag.last);
        i += 1;
    }
    assert(chosen.take(i as int) =~= chosen);
    let mentions = merge_mentions(mentions);
    let id = IntId { id: result_virtual.len() };
    let mut interval = VirtualInterval::new(id, reg.to_virtual_reg(), start, end, mentions);
    interval.ancestor = Some(id);
    let ghost virtuals = result_virtual@;
    result_virtual.push(interval);
    assert(result_virtual@.drop_last() =~= virtuals);
}

/// Copies mentions to the end of a list.
fn append_mentions(to: &mut MentionMap, from: &MentionMap)
    ensures
        final(to)@ == old(to)@ + from@,
{
    let ghost before = to@;
    let mut i: usize = 0;
    assert(before + from@.take(0) =~= before);
    while i < from.len()
        invariant
            i <= from@.len(),
            to@ == before + from@.take(i as int),
        decreases from@.len() - i,
    {
        to.push(from[i]);
        assert(before + from@.take(i + 1) =~= (before + from@.take(i as int)).push(
            from@[i as int],
        ));
        i += 1;
    }
    assert(from@.take(i as int) =~= from@);
}

/// Some fragments of a register that make up one live range.
pub struct Piece {
    pub reg: Reg,
    pub frags: Seq<FragView>,
}

/// The pieces that belong to virtual registers.
pub open spec fn virtual_pieces(pieces: Seq<Piece>) -> Seq<Piece>
    decreases pieces.len(),
{
    if pieces.len() == 0 {
        Seq::empty()
    } else if pieces.last().reg.spec_is_real() {
        virtual_pieces(pieces.drop_last())
    } else {
        virtual_pieces(pieces.drop_last()).push(pieces.last())
    }
}

/// The fragments of all pieces that belong to the real register with index `k`.
pub open spec fn real_frags(pieces: Seq<Piece>, k: int) -> Seq<FragView>
    decreases pieces.len(),
{
    if pieces.len() == 0 {
        Seq::empty()
    } else if pieces.last().reg.spec_is_real() && pieces.last().reg.real_index() == k {
        real_frags(pieces.drop_last(), k) + pieces.last().frags
    } else {
        real_frags(pieces.drop_last(), k)
    }
}

/// What flushing some pieces, one after the other, does to the intervals.
pub open spec fn flushed_all(
    real0: Seq<FixedInterval>,
    virt0: Seq<VirtualInterval>,
    pieces: Seq<Piece>,
    real1: Seq<FixedInterval>,
    virt1: Seq<VirtualInterval>,
) -> bool {
    &&& real1.len() == real0.len()
    &&& forall|k: int|
        0 <= k < real0.len() ==> {
            &&& (#[trigger] real1[k]).reg == real0[k].reg
            &&& frag_views(real1[k].frags@) == frag_views(real0[k].frags@) + real_frags(pieces, k)
        }
    &&& virt1.len() == virt0.len() + virtual_pieces(pieces).len()
    &&& forall|k: int| 0 <= k < virt0.len() ==> #[trigger] virt1[k] == virt0[k]
    &&& forall|k: int|
        virt0.len() <= k < virt1.len() ==> is_interval(
            #[trigger] virt1[k],
            k,
            virtual_pieces(pieces)[k - virt0.len()].reg,
            virtual_pieces(pieces)[k - virt0.len()].frags,
        )
}

proof fn lemma_pieces_append(a: Seq<Piece>, b: Seq<Piece>, k: int)
    ensures
        virtual_pieces(a + b) == virtual_pieces(a) + virtual_pieces(b),
        real_frags(a + b, k) == real_frags(a, k) + real_frags(b, k),
    decreases b.len(),
{
    if b.len() == 0 {
        assert(a + b =~= a);
        assert(virtual_pieces(a) + virtual_pieces(b) =~= virtual_pieces(a));
        assert(real_frags(a, k) + real_frags(b, k) =~= real_frags(a, k));
    } else {
        lemma_pieces_append(a, b.drop_last(), k);
        assert((a + b).drop_last() =~= a + b.drop_last());
        assert(virtual_pieces(a + b) =~= virtual_pieces(a) + virtual_pieces(b));
        assert(real_frags(a + b, k) =~= real_frags(a, k) + real_frags(b, k));
    }
}

/// Flushing some pieces and then others is flushing them all.
pub proof fn lemma_flushed_append(
    real0: Seq<FixedInterval>,
    virt0: Seq<VirtualInterval>,
    a: Seq<Piece>,
    real1: Seq<FixedInterval>,
    virt1: Seq<VirtualInterval>,
    b: Seq<Piece>,
    real2: Seq<FixedInterval>,
    virt2: Seq<VirtualInterval>,
)
    requires
        flushed_all(real0, virt0, a, real1, virt1),
        flushed_all(real1, virt1, b, real2, virt2),
    ensures
        flushed_all(real0, virt0, a + b, real2, virt2),
{
    lemma_pieces_append(a, b, 0);
    assert forall|k: int| 0 <= k < real0.len() implies {
        &&& (#[trigger] real2[k]).reg == real0[k].reg
        &&& frag_views(real2[k].frags@) == frag_views(real0[k].frags@) + real_frags(a + b, k)
    } by {
        lemma_pieces_append(a, b, k);
        assert(real1[k].reg == real0[k].reg);
        assert(frag_views(real2[k].frags@) =~= frag_views(real0[k].frags@) + real_frags(a + b, k));
    }
    let v = virtual_pieces(a + b);
    assert forall|k: int| virt0.len() <= k < virt2.len() implies is_interval(
        #[trigger] virt2[k],
        k,
        v[k - virt0.len()].reg,
        v[k - virt0.len()].frags,
    ) by {
        if k < virt1.len() {
            assert(virt2[k] == virt1[k]);
            assert(v[k - virt0.len()] == virtual_pieces(a)[k - virt0.len()]);
        } else {
            assert(v[k - virt0.len()] == virtual_pieces(b)[k - virt1.len()]);
        }
    }
    assert forall|k: int| 0 <= k < virt0.len() implies #[trigger] virt2[k] == virt0[k] by {
        assert(virt1[k] == virt0[k]);
    }
}

/// Flushing nothing changes nothing.
pub proof fn lemma_flushed_none(fixed: Seq<FixedInterval>, virt: Seq<VirtualInterval>)
    ensures
        flushed_all(fixed, virt, Seq::empty(), fixed, virt),
{
    assert forall|k: int| 0 <= k < fixed.len() implies frag_views((#[trigger] fixed[k]).frags@)
        == frag_views(fixed[k].frags@) + real_frags(Seq::empty(), k) by {
        assert(frag_views(fixed[k].frags@) + real_frags(Seq::empty(), k) =~= frag_views(
            fixed[k].frags@,
        ));
    }
}

/// What [`flush_interval`] does is to flush one piece.
pub proof fn lemma_flushed_one(
    real0: Seq<FixedInterval>,
    virt0: Seq<VirtualInterval>,
    piece: Piece,
    real1: Seq<FixedInterval>,
    virt1: Seq<VirtualInterval>,
)
    requires
        piece.reg.spec_is_real() ==> {
            &&& virt1 == virt0
            &&& real_flushed(real0, piece.reg, piece.frags, real1)
        },
        !piece.reg.spec_is_real() ==> {
            &&& real1 == real0
            &&& virt1.len() == virt0.len() + 1
            &&& virt1.drop_last() == virt0
            &&& is_interval(virt1.last(), virt0.len() as int, piece.reg, piece.frags)
        },
    ensures
        flushed_all(real0, virt0, seq![piece], real1, virt1),
{
    reveal_with_fuel(real_frags, 2);
    reveal_with_fuel(virtual_pieces, 2);
    let pieces = seq![piece];
    assert(pieces.drop_last() =~= Seq::<Piece>::empty());
    assert forall|k: int| 0 <= k < real0.len() implies {
        &&& (#[trigger] real1[k]).reg == real0[k].reg
        &&& frag_views(real1[k].frags@) == frag_views(real0[k].frags@) + real_frags(pieces, k)
    } by {
        assert(real_frags(pieces, k) =~= if piece.reg.spec_is_real() && piece.reg.real_index()
            == k {
            piece.frags
        } else {
            Seq::empty()
        });
        assert(frag_views(real1[k].frags@) =~= frag_views(real0[k].frags@) + real_frags(pieces, k));
    }
    if !piece.reg.spec_is_real() {
        assert(virtual_pieces(pieces) =~= pieces);
        assert forall|k: int| 0 <= k < virt0.len() implies #[trigger] virt1[k] == virt0[k] by {
            assert(virt1.drop_last()[k] == virt0[k]);
        }
    } else {
        assert(virtual_pieces(pieces) =~= Seq::<Piece>::empty());
    }
}

} // verus!
