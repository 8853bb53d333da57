//! How the intervals depend on what there is to merge.

use crate::block_model::FragView;
use crate::data_structures::{BlockIx, InstIx, Mention, RangeFragIx, RealRegUniverse, Reg};
use crate::fixed_properties::is_real_with;
use crate::interval_properties::{
    are_inverse, lemma_all_mentions, lemma_interval_spans, lemma_merge_unique, says,
};
use crate::intervals::{
    all_mentions, greatest_last, is_flush, is_interval, least_first, lemma_merge_of_same_elements,
    mentioned, noted, picked, real_frags, virtual_pieces, FixedInterval, VirtualInterval,
};
use crate::merging::{
    are_groups, are_intervals, are_merged, are_virtuals, connected, flows, flows_in, flows_known,
    flows_out, group_ok, group_pieces, in_some_group, is_path, lemma_connected_linked,
    lemma_connected_refl, lemma_connected_trans, linked, locals_first, metrics_of, outflows_known,
    Group, MergeInput,
};
use crate::plain::{notes_def, notes_mod, notes_use};
use crate::range_frags::{frag_views, RangeFrag, RangeFragKind, RangeFragMetrics};
use crate::seq_facts::{is_injection, is_rearrangement, lemma_injected, lemma_rearranged};
use vstd::prelude::*;

verus! {

/// What an interval of a virtual register says, besides its number.
pub struct IntervalView {
    pub reg: Reg,
    pub start: int,
    pub end: int,
    pub mentions: Seq<(InstIx, Mention)>,
}

/// What some intervals say.
pub open spec fn interval_views(virtuals: Seq<VirtualInterval>) -> Seq<IntervalView> {
    virtuals.map_values(
        |v: VirtualInterval|
            IntervalView {
                reg: v.vreg.reg,
                start: v.start@,
                end: v.end@,
                mentions: v.mentions@,
            },
    )
}

/// The fixed intervals are those of the same registers, with the same fragments in any order.
pub open spec fn same_fixeds(a: Seq<FixedInterval>, b: Seq<FixedInterval>) -> bool {
    &&& a.len() == b.len()
    &&& forall|k: int|
        0 <= k < a.len() ==> {
            &&& (#[trigger] a[k]).reg == b[k].reg
            &&& frag_views(a[k].frags@).to_multiset() == frag_views(b[k].frags@).to_multiset()
        }
}

impl MergeInput {
    /// The listed fragments exist, their points fit their type, and they are in blocks that exist
    /// if liveness flows out of them.
    pub open spec fn ok(self) -> bool {
        &&& self.frags.len() == self.metrics.len()
        &&& forall|r: Reg, p: int|
            self.lists.contains_key(r) && 0 <= p < self.lists[r].len() ==> (
            #[trigger] self.lists[r][p]).ix < self.frags.len()
        &&& forall|x: int|
            0 <= x < self.frags.len() ==> {
                &&& 0 <= (#[trigger] self.frags[x]).first <= u64::MAX
                &&& 0 <= self.frags[x].last <= u64::MAX
            }
        &&& flows_known(self.lists, self.metrics, self.succs.len() as int)
    }

    /// There is a fragment at position `p` of the list of `r`.
    pub open spec fn has(self, r: Reg, p: int) -> bool {
        self.lists.contains_key(r) && 0 <= p < self.lists[r].len()
    }

    /// The fragment at position `p` of the list of `r`.
    pub open spec fn frag(self, r: Reg, p: int) -> FragView {
        self.frags[self.lists[r][p].ix as int]
    }

    /// The blocks and kinds of the fragments of `r`.
    pub open spec fn ms(self, r: Reg) -> Seq<RangeFragMetrics> {
        metrics_of(self.metrics, self.lists[r])
    }

    /// The fragments at positions `p` and `q` of the list of `r` belong to one live range.
    pub open spec fn joined(self, r: Reg, p: int, q: int) -> bool {
        connected(self.succs, self.ms(r), p, q)
    }

    /// The groups are the live ranges.
    pub open spec fn grouped(self, groups: Seq<Group>) -> bool {
        are_groups(self.lists, self.metrics, self.succs, groups)
    }
}

/// Member `w.1` of group `w.0` is position `p` of the list of `r`.
spec fn is_slot(groups: Seq<Group>, r: Reg, p: int, w: (int, int)) -> bool {
    &&& 0 <= w.0 < groups.len()
    &&& groups[w.0].reg == r
    &&& 0 <= w.1 < groups[w.0].members.len()
    &&& groups[w.0].members[w.1] == p
}

/// Where a position is among the groups.
spec fn slot(groups: Seq<Group>, r: Reg, p: int) -> (int, int) {
    choose|w: (int, int)| #[trigger] is_slot(groups, r, p, w)
}

proof fn lemma_slot(input: MergeInput, groups: Seq<Group>, r: Reg, p: int)
    requires
        input.grouped(groups),
        input.has(r, p),
    ensures
        is_slot(groups, r, p, slot(groups, r, p)),
{
    assert(in_some_group(groups, r, p));
    let g = choose|g: int|
        0 <= g < groups.len() && (#[trigger] groups[g]).reg == r && groups[g].members.contains(p);
    let a = choose|a: int| 0 <= a < groups[g].members.len() && groups[g].members[a] == p;
    assert(is_slot(groups, r, p, (g, a)));
}

/// A member of a group is a position of its register.
proof fn lemma_member(input: MergeInput, groups: Seq<Group>, g: int, a: int)
    requires
        input.grouped(groups),
        0 <= g < groups.len(),
        0 <= a < groups[g].members.len(),
    ensures
        input.has(groups[g].reg, groups[g].members[a]),
        group_pieces(input.lists, input.frags, groups)[g].reg == groups[g].reg,
        group_pieces(input.lists, input.frags, groups)[g].frags.len() == groups[g].members.len(),
        group_pieces(input.lists, input.frags, groups)[g].frags[a] == input.frag(
            groups[g].reg,
            groups[g].members[a],
        ),
{
    assert(group_ok(input.lists, groups[g]));
}

/// Two members are in one group exactly if they are joined.
proof fn lemma_members_joined(input: MergeInput, groups: Seq<Group>, g: int, a: int, h: int, b: int)
    requires
        input.grouped(groups),
        0 <= g < groups.len(),
        0 <= a < groups[g].members.len(),
        0 <= h < groups.len(),
        0 <= b < groups[h].members.len(),
        groups[g].reg == groups[h].reg,
    ensures
        input.joined(groups[g].reg, groups[g].members[a], groups[h].members[b]) <==> g == h,
{
    assert(connected(
        input.succs,
        metrics_of(input.metrics, input.lists[groups[g].reg]),
        groups[g].members[a],
        groups[h].members[b],
    ) <==> g == h);
}

/// A position is in one place only.
proof fn lemma_slot_unique(
    input: MergeInput,
    groups: Seq<Group>,
    r: Reg,
    p: int,
    v: (int, int),
    w: (int, int),
)
    requires
        input.grouped(groups),
        is_slot(groups, r, p, v),
        is_slot(groups, r, p, w),
    ensures
        v == w,
{
    lemma_member(input, groups, v.0, v.1);
    lemma_connected_refl(input.succs, input.ms(r), p);
    lemma_members_joined(input, groups, v.0, v.1, w.0, w.1);
    assert(group_ok(input.lists, groups[v.0]));
}

/// The members of all groups that belong to the real register with index `k`.
spec fn real_at(groups: Seq<Group>, k: int) -> Seq<(int, int)>
    decreases groups.len(),
{
    if groups.len() == 0 {
        Seq::empty()
    } else if is_real_with(groups.last().reg, k) {
        real_at(groups.drop_last(), k) + Seq::new(
            groups.last().members.len(),
            |a: int| (groups.len() - 1, a),
        )
    } else {
        real_at(groups.drop_last(), k)
    }
}

/// The fragment of a member of a group.
spec fn member_frag(input: MergeInput, groups: Seq<Group>, w: (int, int)) -> FragView {
    input.frag(groups[w.0].reg, groups[w.0].members[w.1])
}

/// `w` is a member of a group of the real register with index `k`.
spec fn is_real_member(groups: Seq<Group>, k: int, w: (int, int)) -> bool {
    &&& 0 <= w.0 < groups.len()
    &&& is_real_with(groups[w.0].reg, k)
    &&& 0 <= w.1 < groups[w.0].members.len()
}

proof fn lemma_real_at(input: MergeInput, groups: Seq<Group>, k: int)
    ensures
        real_frags(group_pieces(input.lists, input.frags, groups), k).len() == real_at(
            groups,
            k,
        ).len(),
        forall|j: int|
            0 <= j < real_at(groups, k).len() ==> real_frags(
                group_pieces(input.lists, input.frags, groups),
                k,
            )[j] == member_frag(input, groups, #[trigger] real_at(groups, k)[j]),
        real_at(groups, k).no_duplicates(),
        forall|w: (int, int)| #[trigger]
            real_at(groups, k).contains(w) <==> is_real_member(groups, k, w),
    decreases groups.len(),
{
    let pieces = group_pieces(input.lists, input.frags, groups);
    let now = real_at(groups, k);
    if groups.len() > 0 {
        let n = groups.len() - 1;
        let rest = groups.drop_last();
        lemma_real_at(input, rest, k);
        let prev = real_at(rest, k);
        assert(pieces.drop_last() =~= group_pieces(input.lists, input.frags, rest));
        assert(pieces.last().reg == groups[n].reg);
        assert forall|w: (int, int)| #[trigger] prev.contains(w) implies w.0 < n && member_frag(
            input,
            rest,
            w,
        ) == member_frag(input, groups, w) by {
            assert(is_real_member(rest, k, w));
        }
        assert forall|j: int| 0 <= j < prev.len() implies (#[trigger] prev[j]).0 < n && member_frag(
            input,
            rest,
            prev[j],
        ) == member_frag(input, groups, prev[j]) by {
            assert(prev.contains(prev[j]));
        }
        if is_real_with(groups[n].reg, k) {
            let new = Seq::new(groups[n].members.len(), |a: int| (n, a));
            assert(now =~= prev + new);
            assert forall|j: int| 0 <= j < now.len() implies real_frags(pieces, k)[j]
                == member_frag(input, groups, #[trigger] now[j]) by {
                if j < prev.len() {
                    assert(now[j] == prev[j]);
                } else {
                    assert(now[j] == new[j - prev.len()]);
                }
            }
            assert forall|w: (int, int)| #[trigger]
                now.contains(w) <==> is_real_member(groups, k, w) by {
                if now.contains(w) {
                    let j = choose|j: int| 0 <= j < now.len() && now[j] == w;
                    if j < prev.len() {
                        assert(prev[j] == w);
                        assert(prev.contains(w));
                        assert(is_real_member(rest, k, w));
                    } else {
                        assert(new[j - prev.len()] == w);
                    }
                }
                if is_real_member(groups, k, w) {
                    if w.0 < n {
                        assert(is_real_member(rest, k, w));
                        assert(prev.contains(w));
                        let j = choose|j: int| 0 <= j < prev.len() && prev[j] == w;
                        assert(now[j] == w);
                    } else {
                        assert(new[w.1] == w);
                        assert(now[prev.len() + w.1] == w);
                    }
                }
            }
        } else {
            assert(now == prev);
            assert forall|w: (int, int)| #[trigger]
                now.contains(w) <==> is_real_member(groups, k, w) by {
                assert(prev.contains(w) <==> is_real_member(rest, k, w));
            }
        }
    }
}

/// The groups that belong to virtual registers.
pub open spec fn virtual_at(groups: Seq<Group>) -> Seq<int>
    decreases groups.len(),
{
    if groups.len() == 0 {
        Seq::empty()
    } else if groups.last().reg.spec_is_real() {
        virtual_at(groups.drop_last())
    } else {
        virtual_at(groups.drop_last()).push(groups.len() - 1)
    }
}

/// The pieces of virtual registers are those of the groups that belong to them, each once.
pub proof fn lemma_virtual_at(input: MergeInput, groups: Seq<Group>)
    ensures
        virtual_pieces(group_pieces(input.lists, input.frags, groups)).len() == virtual_at(
            groups,
        ).len(),
        forall|j: int|
            0 <= j < virtual_at(groups).len() ==> virtual_pieces(
                group_pieces(input.lists, input.frags, groups),
            )[j] == group_pieces(input.lists, input.frags, groups)[#[trigger] virtual_at(groups)[j]],
        virtual_at(groups).no_duplicates(),
        forall|g: int| #[trigger]
            virtual_at(groups).contains(g) <==> 0 <= g < groups.len()
                && !groups[g].reg.spec_is_real(),
    decreases groups.len(),
{
    let pieces = group_pieces(input.lists, input.frags, groups);
    let now = virtual_at(groups);
    if groups.len() > 0 {
        let n = groups.len() - 1;
        let rest = groups.drop_last();
        lemma_virtual_at(input, rest);
        let prev = virtual_at(rest);
        assert(pieces.drop_last() =~= group_pieces(input.lists, input.frags, rest));
        assert(pieces.last().reg == groups[n].reg);
        assert forall|j: int| 0 <= j < prev.len() implies 0 <= #[trigger] prev[j] < n by {
            assert(prev.contains(prev[j]));
        }
        assert forall|g: int| #[trigger]
            now.contains(g) <==> 0 <= g < groups.len() && !groups[g].reg.spec_is_real() by {
            assert(prev.contains(g) <==> 0 <= g < n && !rest[g].reg.spec_is_real());
            if now.contains(g) {
                let j = choose|j: int| 0 <= j < now.len() && now[j] == g;
                if j < prev.len() {
                    assert(prev[j] == g);
                }
            }
            if prev.contains(g) {
                let j = choose|j: int| 0 <= j < prev.len() && prev[j] == g;
                assert(now[j] == g);
            }
            if g == n && !groups[n].reg.spec_is_real() {
                assert(now[prev.len() as int] == g);
            }
        }
    }
}

/// `f` takes each position of `from` to one of `to` that holds the same fragment, and different
/// positions to different ones.
spec fn carries(from: MergeInput, to: MergeInput, f: spec_fn(Reg, int) -> int) -> bool {
    &&& forall|r: Reg, p: int|
        from.has(r, p) ==> {
            &&& to.has(r, #[trigger] f(r, p))
            &&& to.frag(r, f(r, p)) == from.frag(r, p)
        }
    &&& forall|r: Reg, p: int, q: int|
        from.has(r, p) && from.has(r, q) && p != q ==> #[trigger] f(r, p) != #[trigger] f(r, q)
}

/// Fragments that can be found again are in the fixed intervals at least as often.
proof fn lemma_fixed_carried(
    from: MergeInput,
    groups: Seq<Group>,
    to: MergeInput,
    new_groups: Seq<Group>,
    f: spec_fn(Reg, int) -> int,
    k: int,
)
    requires
        from.grouped(groups),
        to.grouped(new_groups),
        carries(from, to, f),
    ensures
        ({
            let a = real_frags(group_pieces(from.lists, from.frags, groups), k);
            let b = real_frags(group_pieces(to.lists, to.frags, new_groups), k);
            forall|x: FragView| #[trigger] a.to_multiset().count(x) <= b.to_multiset().count(x)
        }),
{
    let a = real_frags(group_pieces(from.lists, from.frags, groups), k);
    let b = real_frags(group_pieces(to.lists, to.frags, new_groups), k);
    let ats = real_at(groups, k);
    let bts = real_at(new_groups, k);
    lemma_real_at(from, groups, k);
    lemma_real_at(to, new_groups, k);
    let reg_of = |i: int| groups[ats[i].0].reg;
    let pos_of = |i: int| groups[ats[i].0].members[ats[i].1];
    let go = |i: int| bts.index_of(slot(new_groups, reg_of(i), f(reg_of(i), pos_of(i))));
    assert forall|i: int| 0 <= i < a.len() implies {
        &&& 0 <= #[trigger] go(i) < b.len()
        &&& a[i] == b[go(i)]
        &&& bts[go(i)] == slot(new_groups, reg_of(i), f(reg_of(i), pos_of(i)))
        &&& from.has(reg_of(i), pos_of(i))
        &&& is_slot(
            new_groups,
            reg_of(i),
            f(reg_of(i), pos_of(i)),
            slot(new_groups, reg_of(i), f(reg_of(i), pos_of(i))),
        )
    } by {
        assert(ats.contains(ats[i]));
        assert(is_real_member(groups, k, ats[i]));
        lemma_member(from, groups, ats[i].0, ats[i].1);
        let q = f(reg_of(i), pos_of(i));
        assert(to.has(reg_of(i), q));
        lemma_slot(to, new_groups, reg_of(i), q);
        let w = slot(new_groups, reg_of(i), q);
        assert(is_real_member(new_groups, k, w));
        assert(bts.contains(w));
        assert(bts[bts.index_of(w)] == w);
        assert(a[i] == member_frag(from, groups, ats[i]));
        assert(b[go(i)] == member_frag(to, new_groups, bts[go(i)]));
    }
    assert forall|i: int, j: int| 0 <= i < j < a.len() implies #[trigger] go(i) != #[trigger] go(
        j,
    ) by {
        assert(0 <= go(i) < b.len() && 0 <= go(j) < b.len());
        if go(i) == go(j) {
            assert(reg_of(i) == reg_of(j));
            assert(f(reg_of(i), pos_of(i)) == f(reg_of(j), pos_of(j)));
            assert(pos_of(i) == pos_of(j));
            assert(ats.contains(ats[i]) && ats.contains(ats[j]));
            assert(is_slot(groups, reg_of(i), pos_of(i), ats[i]));
            assert(is_slot(groups, reg_of(i), pos_of(i), ats[j]));
            lemma_slot_unique(from, groups, reg_of(i), pos_of(i), ats[i], ats[j]);
        }
    }
    lemma_injected(a, b, go);
}

/// The fixed intervals depend only on which fragments each register has.
proof fn lemma_fixeds_same(
    univ: RealRegUniverse,
    a: MergeInput,
    a_groups: Seq<Group>,
    a_fixeds: Seq<FixedInterval>,
    a_virtuals: Seq<VirtualInterval>,
    b: MergeInput,
    b_groups: Seq<Group>,
    b_fixeds: Seq<FixedInterval>,
    b_virtuals: Seq<VirtualInterval>,
    f: spec_fn(Reg, int) -> int,
    g: spec_fn(Reg, int) -> int,
)
    requires
        a.grouped(a_groups),
        b.grouped(b_groups),
        are_intervals(univ, group_pieces(a.lists, a.frags, a_groups), a_fixeds, a_virtuals),
        are_intervals(univ, group_pieces(b.lists, b.frags, b_groups), b_fixeds, b_virtuals),
        carries(a, b, f),
        carries(b, a, g),
    ensures
        same_fixeds(a_fixeds, b_fixeds),
{
    assert forall|k: int| 0 <= k < a_fixeds.len() implies {
        &&& (#[trigger] a_fixeds[k]).reg == b_fixeds[k].reg
        &&& frag_views(a_fixeds[k].frags@).to_multiset() == frag_views(
            b_fixeds[k].frags@,
        ).to_multiset()
    } by {
        lemma_fixed_carried(a, a_groups, b, b_groups, f, k);
        lemma_fixed_carried(b, b_groups, a, a_groups, g, k);
        let x = real_frags(group_pieces(a.lists, a.frags, a_groups), k);
        let y = real_frags(group_pieces(b.lists, b.frags, b_groups), k);
        assert(frag_views(a_fixeds[k].frags@) == x);
        assert(b_fixeds[k].reg == univ.regs@[k].0);
        assert(frag_views(b_fixeds[k].frags@) == y);
        assert forall|e: FragView| x.to_multiset().count(e) == y.to_multiset().count(e) by {
            assert(x.to_multiset().count(e) <= y.to_multiset().count(e));
            assert(y.to_multiset().count(e) <= x.to_multiset().count(e));
        }
        assert(x.to_multiset() =~= y.to_multiset());
    }
}

/// The points of the fragments fit their type.
spec fn points_fit(frags: Seq<FragView>) -> bool {
    forall|q: int|
        0 <= q < frags.len() ==> 0 <= (#[trigger] frags[q]).first <= u64::MAX && 0 <= frags[q].last
}

/// An interval with some of the fragments of another lies inside it: it starts no earlier, ends no
/// later, and says nothing that the other does not say.
pub open spec fn lies_inside(v: VirtualInterval, w: VirtualInterval) -> bool {
    &&& v.vreg == w.vreg
    &&& w.start@ <= v.start@
    &&& v.end@ <= w.end@
    &&& forall|j: int|
        0 <= j < v.mentions@.len() ==> says(
            w.mentions@,
            (#[trigger] v.mentions@[j]).0,
            v.mentions@[j].1,
        )
}

proof fn lemma_inside(
    v: VirtualInterval,
    id: int,
    few: Seq<FragView>,
    w: VirtualInterval,
    id2: int,
    many: Seq<FragView>,
    r: Reg,
)
    requires
        is_interval(v, id, r, few),
        is_interval(w, id2, r, many),
        few.len() >= 1,
        points_fit(few),
        points_fit(many),
        forall|q: int| 0 <= q < few.len() ==> many.contains(#[trigger] few[q]),
    ensures
        lies_inside(v, w),
        forall|e: (InstIx, Mention)| #[trigger]
            all_mentions(few).contains(e) ==> all_mentions(many).contains(e),
{
    lemma_wider_span(few, many);
    lemma_all_mentions(few);
    lemma_all_mentions(many);
    let all = all_mentions(few);
    let more = all_mentions(many);
    assert forall|e: (InstIx, Mention)| #[trigger] all.contains(e) implies more.contains(e) by {
        let (q, c) = choose|q: int, c: int|
            0 <= q < few.len() && 0 <= c < few[q].mentions.len()
                && #[trigger] few[q].mentions[c] == e;
        assert(many.contains(few[q]));
        let z = choose|z: int| 0 <= z < many.len() && many[z] == few[q];
        assert(more.contains(many[z].mentions[c]));
    }
    assert forall|j: int| 0 <= j < v.mentions@.len() implies says(
        w.mentions@,
        (#[trigger] v.mentions@[j]).0,
        v.mentions@[j].1,
    ) by {
        let (i, m) = v.mentions@[j];
        assert(mentioned(all, i) && m == noted(all, i));
        let n = choose|n: Mention| #[trigger] all.contains((i, n));
        assert(more.contains((i, n)));
        assert(mentioned(more, i));
        let l = choose|l: int| 0 <= l < w.mentions@.len() && (#[trigger] w.mentions@[l]).0 == i;
        assert(w.mentions@[l].1 == noted(more, i));
        if m.used {
            let n = choose|n: Mention| #[trigger] all.contains((i, n)) && n.used;
            assert(more.contains((i, n)));
        }
        if m.modified {
            let n = choose|n: Mention| #[trigger] all.contains((i, n)) && n.modified;
            assert(more.contains((i, n)));
        }
        if m.defined {
            let n = choose|n: Mention| #[trigger] all.contains((i, n)) && n.defined;
            assert(more.contains((i, n)));
        }
    }
}

/// Intervals of the same fragments say the same.
proof fn lemma_same_interval(
    v: VirtualInterval,
    id: int,
    a: Seq<FragView>,
    w: VirtualInterval,
    id2: int,
    b: Seq<FragView>,
    r: Reg,
)
    requires
        is_interval(v, id, r, a),
        is_interval(w, id2, r, b),
        a.len() >= 1,
        b.len() >= 1,
        points_fit(a),
        points_fit(b),
        forall|q: int| 0 <= q < a.len() ==> b.contains(#[trigger] a[q]),
        forall|q: int| 0 <= q < b.len() ==> a.contains(#[trigger] b[q]),
    ensures
        v.vreg == w.vreg,
        v.start@ == w.start@,
        v.end@ == w.end@,
        v.mentions@ == w.mentions@,
{
    lemma_inside(v, id, a, w, id2, b, r);
    lemma_inside(w, id2, b, v, id, a, r);
    lemma_merge_of_same_elements(all_mentions(a), all_mentions(b), v.mentions@);
    lemma_merge_unique(all_mentions(b), v.mentions@, w.mentions@);
}

/// The fragments of a group fit.
proof fn lemma_group_fits(input: MergeInput, groups: Seq<Group>, g: int)
    requires
        input.ok(),
        input.grouped(groups),
        0 <= g < groups.len(),
    ensures
        group_pieces(input.lists, input.frags, groups)[g].frags.len() == groups[g].members.len()
            >= 1,
        points_fit(group_pieces(input.lists, input.frags, groups)[g].frags),
{
    let frags = group_pieces(input.lists, input.frags, groups)[g].frags;
    assert(group_ok(input.lists, groups[g]));
    lemma_member(input, groups, g, 0);
    assert forall|q: int| 0 <= q < frags.len() implies 0 <= (#[trigger] frags[q]).first <= u64::MAX
        && 0 <= frags[q].last by {
        lemma_member(input, groups, g, q);
        assert(input.lists[groups[g].reg][groups[g].members[q]].ix < input.frags.len());
    }
}

/// `f` keeps apart what is apart, and together what is together.
spec fn keeps_joined(from: MergeInput, to: MergeInput, f: spec_fn(Reg, int) -> int) -> bool {
    forall|r: Reg, p: int, q: int|
        from.has(r, p) && from.has(r, q) ==> (from.joined(r, p, q) <==> to.joined(
            r,
            #[trigger] f(r, p),
            #[trigger] f(r, q),
        ))
}

/// The group that the fragments of a group go to.
spec fn goes_to(
    groups: Seq<Group>,
    new_groups: Seq<Group>,
    f: spec_fn(Reg, int) -> int,
    g: int,
) -> int {
    slot(new_groups, groups[g].reg, f(groups[g].reg, groups[g].members[0])).0
}

proof fn lemma_goes_to(
    from: MergeInput,
    groups: Seq<Group>,
    to: MergeInput,
    new_groups: Seq<Group>,
    f: spec_fn(Reg, int) -> int,
    g: int,
)
    requires
        from.grouped(groups),
        to.grouped(new_groups),
        carries(from, to, f),
        0 <= g < groups.len(),
    ensures
        ({
            let h = goes_to(groups, new_groups, f, g);
            let w = slot(new_groups, groups[g].reg, f(groups[g].reg, groups[g].members[0]));
            &&& groups[g].members.len() >= 1
            &&& w.0 == h
            &&& is_slot(new_groups, groups[g].reg, f(groups[g].reg, groups[g].members[0]), w)
            &&& from.has(groups[g].reg, groups[g].members[0])
        }),
{
    assert(group_ok(from.lists, groups[g]));
    lemma_member(from, groups, g, 0);
    let q = f(groups[g].reg, groups[g].members[0]);
    assert(to.has(groups[g].reg, q));
    lemma_slot(to, new_groups, groups[g].reg, q);
}

/// The fragments of a group are among those of the group that they go to, if what is together
/// stays together.
proof fn lemma_group_carried(
    from: MergeInput,
    groups: Seq<Group>,
    to: MergeInput,
    new_groups: Seq<Group>,
    f: spec_fn(Reg, int) -> int,
    g: int,
)
    requires
        from.grouped(groups),
        to.grouped(new_groups),
        carries(from, to, f),
        forall|r: Reg, p: int, q: int|
            from.has(r, p) && from.has(r, q) && from.joined(r, p, q) ==> to.joined(
                r,
                #[trigger] f(r, p),
                #[trigger] f(r, q),
            ),
        0 <= g < groups.len(),
    ensures
        ({
            let h = goes_to(groups, new_groups, f, g);
            let a = group_pieces(from.lists, from.frags, groups)[g].frags;
            let b = group_pieces(to.lists, to.frags, new_groups)[h].frags;
            forall|i: int| 0 <= i < a.len() ==> b.contains(#[trigger] a[i])
        }),
{
    let h = goes_to(groups, new_groups, f, g);
    let r = groups[g].reg;
    let a = group_pieces(from.lists, from.frags, groups)[g].frags;
    let b = group_pieces(to.lists, to.frags, new_groups)[h].frags;
    lemma_goes_to(from, groups, to, new_groups, f, g);
    let w = slot(new_groups, r, f(r, groups[g].members[0]));
    lemma_member(from, groups, g, 0);
    assert forall|i: int| 0 <= i < a.len() implies b.contains(#[trigger] a[i]) by {
        lemma_member(from, groups, g, i);
        let p = groups[g].members[i];
        let q = f(r, p);
        lemma_members_joined(from, groups, g, 0, g, i);
        assert(to.joined(r, f(r, groups[g].members[0]), f(r, p)));
        lemma_slot(to, new_groups, r, q);
        let z = slot(new_groups, r, q);
        lemma_members_joined(to, new_groups, h, w.1, z.0, z.1);
        lemma_member(to, new_groups, h, z.1);
        assert(b[z.1] == a[i]);
    }
}

/// Groups that are apart go to different groups, if what is apart stays apart.
proof fn lemma_goes_apart(
    from: MergeInput,
    groups: Seq<Group>,
    to: MergeInput,
    new_groups: Seq<Group>,
    f: spec_fn(Reg, int) -> int,
    g: int,
    h: int,
)
    requires
        from.grouped(groups),
        to.grouped(new_groups),
        carries(from, to, f),
        forall|r: Reg, p: int, q: int|
            from.has(r, p) && from.has(r, q) && to.joined(
                r,
                #[trigger] f(r, p),
                #[trigger] f(r, q),
            ) ==> from.joined(r, p, q),
        0 <= g < groups.len(),
        0 <= h < groups.len(),
        goes_to(groups, new_groups, f, g) == goes_to(groups, new_groups, f, h),
    ensures
        g == h,
{
    lemma_goes_to(from, groups, to, new_groups, f, g);
    lemma_goes_to(from, groups, to, new_groups, f, h);
    let r = groups[g].reg;
    let v = slot(new_groups, r, f(r, groups[g].members[0]));
    let w = slot(new_groups, groups[h].reg, f(groups[h].reg, groups[h].members[0]));
    assert(groups[h].reg == r);
    lemma_members_joined(to, new_groups, v.0, v.1, w.0, w.1);
    assert(to.joined(r, f(r, groups[g].members[0]), f(r, groups[h].members[0])));
    lemma_members_joined(from, groups, g, 0, h, 0);
}

/// The interval of a virtual register that the fragments of an interval go to.
spec fn interval_goes_to(
    groups: Seq<Group>,
    new_groups: Seq<Group>,
    f: spec_fn(Reg, int) -> int,
    k: int,
) -> int {
    virtual_at(new_groups).index_of(goes_to(groups, new_groups, f, virtual_at(groups)[k]))
}

proof fn lemma_interval_goes_to(
    univ: RealRegUniverse,
    from: MergeInput,
    groups: Seq<Group>,
    to: MergeInput,
    new_groups: Seq<Group>,
    f: spec_fn(Reg, int) -> int,
    fixeds: Seq<FixedInterval>,
    virtuals: Seq<VirtualInterval>,
    new_fixeds: Seq<FixedInterval>,
    new_virtuals: Seq<VirtualInterval>,
    k: int,
)
    requires
        from.grouped(groups),
        to.grouped(new_groups),
        carries(from, to, f),
        are_intervals(univ, group_pieces(from.lists, from.frags, groups), fixeds, virtuals),
        are_intervals(
            univ,
            group_pieces(to.lists, to.frags, new_groups),
            new_fixeds,
            new_virtuals,
        ),
        0 <= k < virtuals.len(),
    ensures
        ({
            let l = interval_goes_to(groups, new_groups, f, k);
            let g = virtual_at(groups)[k];
            let h = goes_to(groups, new_groups, f, g);
            let a = group_pieces(from.lists, from.frags, groups)[g];
            let b = group_pieces(to.lists, to.frags, new_groups)[h];
            &&& 0 <= g < groups.len()
            &&& 0 <= h < new_groups.len()
            &&& 0 <= l < new_virtuals.len()
            &&& virtual_at(groups).len() == virtuals.len()
            &&& virtual_at(new_groups).len() == new_virtuals.len()
            &&& virtual_at(new_groups)[l] == h
            &&& is_interval(virtuals[k], k, groups[g].reg, a.frags)
            &&& is_interval(new_virtuals[l], l, groups[g].reg, b.frags)
        }),
{
    lemma_virtual_at(from, groups);
    lemma_virtual_at(to, new_groups);
    let ats = virtual_at(groups);
    let bts = virtual_at(new_groups);
    let g = ats[k];
    assert(ats.contains(g));
    lemma_goes_to(from, groups, to, new_groups, f, g);
    let h = goes_to(groups, new_groups, f, g);
    assert(bts.contains(h));
    let l = bts.index_of(h);
    assert(bts[l] == h);
    assert(is_interval(
        virtuals[k],
        k,
        virtual_pieces(group_pieces(from.lists, from.frags, groups))[k].reg,
        virtual_pieces(group_pieces(from.lists, from.frags, groups))[k].frags,
    ));
    assert(is_interval(
        new_virtuals[l],
        l,
        virtual_pieces(group_pieces(to.lists, to.frags, new_groups))[l].reg,
        virtual_pieces(group_pieces(to.lists, to.frags, new_groups))[l].frags,
    ));
}

/// Intervals whose fragments can be found again, together and apart, are there at least as often.
proof fn lemma_virtuals_carried(
    univ: RealRegUniverse,
    from: MergeInput,
    groups: Seq<Group>,
    to: MergeInput,
    new_groups: Seq<Group>,
    f: spec_fn(Reg, int) -> int,
    back: spec_fn(Reg, int) -> int,
    fixeds: Seq<FixedInterval>,
    virtuals: Seq<VirtualInterval>,
    new_fixeds: Seq<FixedInterval>,
    new_virtuals: Seq<VirtualInterval>,
)
    requires
        from.ok(),
        to.ok(),
        from.grouped(groups),
        to.grouped(new_groups),
        carries(from, to, f),
        carries(to, from, back),
        forall|r: Reg, p: int| from.has(r, p) ==> back(r, #[trigger] f(r, p)) == p,
        keeps_joined(from, to, f),
        keeps_joined(to, from, back),
        are_intervals(univ, group_pieces(from.lists, from.frags, groups), fixeds, virtuals),
        are_intervals(
            univ,
            group_pieces(to.lists, to.frags, new_groups),
            new_fixeds,
            new_virtuals,
        ),
    ensures
        forall|x: IntervalView| #[trigger]
            interval_views(virtuals).to_multiset().count(x) <= interval_views(
                new_virtuals,
            ).to_multiset().count(x),
{
    let a = interval_views(virtuals);
    let b = interval_views(new_virtuals);
    let go = |k: int| interval_goes_to(groups, new_groups, f, k);
    assert forall|k: int| 0 <= k < a.len() implies 0 <= #[trigger] go(k) < b.len() && a[k]
        == b[go(k)] by {
        lemma_interval_goes_to(
            univ,
            from,
            groups,
            to,
            new_groups,
            f,
            fixeds,
            virtuals,
            new_fixeds,
            new_virtuals,
            k,
        );
        let g = virtual_at(groups)[k];
        let h = goes_to(groups, new_groups, f, g);
        let r = groups[g].reg;
        lemma_goes_to(from, groups, to, new_groups, f, g);
        lemma_goes_to(to, new_groups, from, groups, back, h);
        lemma_group_carried(from, groups, to, new_groups, f, g);
        lemma_group_carried(to, new_groups, from, groups, back, h);
        // The way back leads to the same group.
        let w = slot(new_groups, r, f(r, groups[g].members[0]));
        lemma_members_joined(to, new_groups, h, 0, h, w.1);
        let z = slot(groups, r, back(r, new_groups[h].members[0]));
        assert(from.joined(
            r,
            back(r, new_groups[h].members[0]),
            back(r, f(r, groups[g].members[0])),
        ));
        lemma_members_joined(from, groups, z.0, z.1, g, 0);
        lemma_group_fits(from, groups, g);
        lemma_group_fits(to, new_groups, h);
        lemma_same_interval(
            virtuals[k],
            k,
            group_pieces(from.lists, from.frags, groups)[g].frags,
            new_virtuals[go(k)],
            go(k),
            group_pieces(to.lists, to.frags, new_groups)[h].frags,
            r,
        );
    }
    assert forall|i: int, j: int| 0 <= i < j < a.len() implies #[trigger] go(i) != #[trigger] go(
        j,
    ) by {
        if go(i) == go(j) {
            lemma_interval_goes_to(
                univ,
                from,
                groups,
                to,
                new_groups,
                f,
                fixeds,
                virtuals,
                new_fixeds,
                new_virtuals,
                i,
            );
            lemma_interval_goes_to(
                univ,
                from,
                groups,
                to,
                new_groups,
                f,
                fixeds,
                virtuals,
                new_fixeds,
                new_virtuals,
                j,
            );
            lemma_virtual_at(from, groups);
            lemma_goes_apart(
                from,
                groups,
                to,
                new_groups,
                f,
                virtual_at(groups)[i],
                virtual_at(groups)[j],
            );
        }
    }
    lemma_injected(a, b, go);
}

/// The positions of two inputs correspond, and the fragments and what is joined are the same.
spec fn correspond(
    a: MergeInput,
    b: MergeInput,
    f: spec_fn(Reg, int) -> int,
    g: spec_fn(Reg, int) -> int,
) -> bool {
    &&& carries(a, b, f)
    &&& carries(b, a, g)
    &&& forall|r: Reg, p: int| a.has(r, p) ==> g(r, #[trigger] f(r, p)) == p
    &&& forall|r: Reg, p: int| b.has(r, p) ==> f(r, #[trigger] g(r, p)) == p
    &&& keeps_joined(a, b, f)
    &&& keeps_joined(b, a, g)
}

/// Inputs that correspond give the same intervals.
proof fn lemma_correspond(
    univ: RealRegUniverse,
    a: MergeInput,
    a_fixeds: Seq<FixedInterval>,
    a_virtuals: Seq<VirtualInterval>,
    b: MergeInput,
    b_fixeds: Seq<FixedInterval>,
    b_virtuals: Seq<VirtualInterval>,
    f: spec_fn(Reg, int) -> int,
    g: spec_fn(Reg, int) -> int,
)
    requires
        a.ok(),
        b.ok(),
        are_merged(univ, a, a_fixeds, a_virtuals),
        are_merged(univ, b, b_fixeds, b_virtuals),
        correspond(a, b, f, g),
    ensures
        interval_views(a_virtuals).to_multiset() == interval_views(b_virtuals).to_multiset(),
        same_fixeds(a_fixeds, b_fixeds),
{
    let ag = choose|groups: Seq<Group>|
        {
            &&& #[trigger] are_groups(a.lists, a.metrics, a.succs, groups)
            &&& are_intervals(univ, group_pieces(a.lists, a.frags, groups), a_fixeds, a_virtuals)
        };
    let bg = choose|groups: Seq<Group>|
        {
            &&& #[trigger] are_groups(b.lists, b.metrics, b.succs, groups)
            &&& are_intervals(univ, group_pieces(b.lists, b.frags, groups), b_fixeds, b_virtuals)
        };
    lemma_fixeds_same(univ, a, ag, a_fixeds, a_virtuals, b, bg, b_fixeds, b_virtuals, f, g);
    lemma_virtuals_carried(
        univ,
        a,
        ag,
        b,
        bg,
        f,
        g,
        a_fixeds,
        a_virtuals,
        b_fixeds,
        b_virtuals,
    );
    lemma_virtuals_carried(
        univ,
        b,
        bg,
        a,
        ag,
        g,
        f,
        b_fixeds,
        b_virtuals,
        a_fixeds,
        a_virtuals,
    );
    let x = interval_views(a_virtuals);
    let y = interval_views(b_virtuals);
    assert forall|e: IntervalView| x.to_multiset().count(e) == y.to_multiset().count(e) by {
        assert(x.to_multiset().count(e) <= y.to_multiset().count(e));
        assert(y.to_multiset().count(e) <= x.to_multiset().count(e));
    }
    assert(x.to_multiset() =~= y.to_multiset());
}

/// What is joined stays joined where all links are kept.
proof fn lemma_connected_carried(
    succs: Seq<Seq<BlockIx>>,
    ms: Seq<RangeFragMetrics>,
    new_succs: Seq<Seq<BlockIx>>,
    new_ms: Seq<RangeFragMetrics>,
    f: spec_fn(int) -> int,
    p: int,
    q: int,
)
    requires
        connected(succs, ms, p, q),
        forall|x: int| 0 <= x < ms.len() ==> 0 <= #[trigger] f(x) < new_ms.len(),
        forall|x: int, y: int|
            0 <= x < ms.len() && 0 <= y < ms.len() && linked(succs, ms, x, y) ==> linked(
                new_succs,
                new_ms,
                #[trigger] f(x),
                #[trigger] f(y),
            ),
    ensures
        connected(new_succs, new_ms, f(p), f(q)),
{
    let path = choose|path: Seq<int>| #[trigger]
        is_path(succs, ms, path) && path[0] == p && path.last() == q;
    let new_path = path.map_values(f);
    assert forall|k: int| 0 <= k < new_path.len() implies 0 <= #[trigger] new_path[k]
        < new_ms.len() by {
        assert(0 <= path[k] < ms.len());
        assert(new_path[k] == f(path[k]));
    }
    assert forall|k: int| 0 <= k < new_path.len() - 1 implies linked(
        new_succs,
        new_ms,
        #[trigger] new_path[k],
        new_path[k + 1],
    ) by {
        assert(linked(succs, ms, path[k], path[k + 1]));
        assert(new_path[k] == f(path[k]) && new_path[k + 1] == f(path[k + 1]));
    }
    assert(is_path(new_succs, new_ms, new_path));
    assert(new_path[0] == f(p));
    assert(new_path.last() == f(q));
}

/// How the first list was rearranged to the second.
spec fn moves(a: Seq<RangeFragIx>, b: Seq<RangeFragIx>) -> (Seq<int>, Seq<int>) {
    choose|w: (Seq<int>, Seq<int>)| #[trigger] is_rearrangement(a, b, w.0, w.1)
}

/// The order in which the fragments of a register are listed does not matter: the intervals are the
/// same but for their order and numbers, and the fixed intervals but for the order of their
/// fragments.
pub proof fn lemma_list_order_irrelevant(
    univ: RealRegUniverse,
    a: MergeInput,
    a_fixeds: Seq<FixedInterval>,
    a_virtuals: Seq<VirtualInterval>,
    b: MergeInput,
    b_fixeds: Seq<FixedInterval>,
    b_virtuals: Seq<VirtualInterval>,
)
    requires
        a.ok(),
        b.ok(),
        are_merged(univ, a, a_fixeds, a_virtuals),
        are_merged(univ, b, b_fixeds, b_virtuals),
        a.frags == b.frags,
        a.metrics == b.metrics,
        a.succs == b.succs,
        a.lists.dom() == b.lists.dom(),
        forall|r: Reg| #[trigger]
            a.lists.contains_key(r) ==> a.lists[r].to_multiset() == b.lists[r].to_multiset(),
    ensures
        interval_views(a_virtuals).to_multiset() == interval_views(b_virtuals).to_multiset(),
        same_fixeds(a_fixeds, b_fixeds),
{
    let f = |r: Reg, p: int| moves(a.lists[r], b.lists[r]).0[p];
    let g = |r: Reg, p: int| moves(a.lists[r], b.lists[r]).1[p];
    assert forall|r: Reg| a.lists.contains_key(r) == #[trigger] b.lists.contains_key(r) by {
        assert(a.lists.dom().contains(r) == b.lists.dom().contains(r));
    }
    assert forall|r: Reg| #[trigger] a.lists.contains_key(r) implies is_rearrangement(
        a.lists[r],
        b.lists[r],
        moves(a.lists[r], b.lists[r]).0,
        moves(a.lists[r], b.lists[r]).1,
    ) by {
        let w = lemma_rearranged(a.lists[r], b.lists[r]);
        assert(is_rearrangement(a.lists[r], b.lists[r], w.0, w.1));
    }
    assert forall|r: Reg, p: int| a.has(r, p) implies {
        &&& b.has(r, #[trigger] f(r, p))
        &&& b.lists[r][f(r, p)] == a.lists[r][p]
        &&& g(r, f(r, p)) == p
    } by {
        assert(b.lists.contains_key(r));
        let w = moves(a.lists[r], b.lists[r]);
        assert(0 <= w.0[p] < b.lists[r].len());
    }
    assert forall|r: Reg, p: int| b.has(r, p) implies {
        &&& a.has(r, #[trigger] g(r, p))
        &&& b.lists[r][p] == a.lists[r][g(r, p)]
        &&& f(r, g(r, p)) == p
    } by {
        assert(a.lists.contains_key(r));
        let w = moves(a.lists[r], b.lists[r]);
        assert(0 <= w.1[p] < a.lists[r].len());
        assert(w.0[w.1[p]] == p);
        assert(0 <= w.0[w.1[p]] < b.lists[r].len());
    }
    assert forall|r: Reg, p: int, q: int|
        a.has(r, p) && a.has(r, q) && p != q implies #[trigger] f(r, p) != #[trigger] f(r, q) by {
        assert(g(r, f(r, p)) == p && g(r, f(r, q)) == q);
    }
    assert forall|r: Reg, p: int, q: int|
        b.has(r, p) && b.has(r, q) && p != q implies #[trigger] g(r, p) != #[trigger] g(r, q) by {
        assert(f(r, g(r, p)) == p && f(r, g(r, q)) == q);
    }
    assert(carries(a, b, f));
    assert(carries(b, a, g));
    assert forall|r: Reg, p: int, q: int| a.has(r, p) && a.has(r, q) implies (a.joined(r, p, q)
        <==> b.joined(r, #[trigger] f(r, p), #[trigger] f(r, q))) by {
        lemma_list_order_joined(a, b, r, |x: int| f(r, x), |x: int| g(r, x), p, q);
    }
    assert forall|r: Reg, p: int, q: int| b.has(r, p) && b.has(r, q) implies (b.joined(r, p, q)
        <==> a.joined(r, #[trigger] g(r, p), #[trigger] g(r, q))) by {
        lemma_list_order_joined(b, a, r, |x: int| g(r, x), |x: int| f(r, x), p, q);
    }
    assert(correspond(a, b, f, g));
    lemma_correspond(univ, a, a_fixeds, a_virtuals, b, b_fixeds, b_virtuals, f, g);
}

proof fn lemma_list_order_joined(
    a: MergeInput,
    b: MergeInput,
    r: Reg,
    f: spec_fn(int) -> int,
    g: spec_fn(int) -> int,
    p: int,
    q: int,
)
    requires
        a.metrics == b.metrics,
        a.succs == b.succs,
        a.has(r, p),
        a.has(r, q),
        forall|x: int|
            a.has(r, x) ==> {
                &&& b.has(r, #[trigger] f(x))
                &&& b.lists[r][f(x)] == a.lists[r][x]
                &&& g(f(x)) == x
            },
        forall|x: int|
            b.has(r, x) ==> {
                &&& a.has(r, #[trigger] g(x))
                &&& b.lists[r][x] == a.lists[r][g(x)]
            },
    ensures
        a.joined(r, p, q) <==> b.joined(r, f(p), f(q)),
{
    let ms = a.ms(r);
    let new_ms = b.ms(r);
    assert forall|x: int| 0 <= x < ms.len() implies 0 <= #[trigger] f(x) < new_ms.len() && new_ms[f(
        x,
    )] == ms[x] by {
        assert(a.has(r, x));
        assert(b.has(r, f(x)));
    }
    if a.lists.contains_key(r) {
        assert forall|x: int| 0 <= x < new_ms.len() implies 0 <= #[trigger] g(x) < ms.len()
            && ms[g(x)] == new_ms[x] by {
            assert(b.has(r, f(p)));
            assert(b.has(r, x));
        }
    }
    if a.joined(r, p, q) {
        lemma_connected_carried(a.succs, ms, b.succs, new_ms, f, p, q);
    }
    if b.joined(r, f(p), f(q)) {
        lemma_connected_carried(b.succs, new_ms, a.succs, ms, g, f(p), f(q));
        assert(g(f(p)) == p && g(f(q)) == q);
    }
}

/// The kind of a fragment when the program is read backwards.
pub open spec fn turned_kind(kind: RangeFragKind) -> RangeFragKind {
    match kind {
        RangeFragKind::Local => RangeFragKind::Local,
        RangeFragKind::LiveIn => RangeFragKind::LiveOut,
        RangeFragKind::LiveOut => RangeFragKind::LiveIn,
        RangeFragKind::Thru => RangeFragKind::Thru,
    }
}

impl MergeInput {
    /// The same fragments, with all jumps and kinds turned around.
    pub open spec fn turned(self, preds: Seq<Seq<BlockIx>>) -> MergeInput {
        MergeInput {
            metrics: self.metrics.map_values(
                |m: RangeFragMetrics| RangeFragMetrics { bix: m.bix, kind: turned_kind(m.kind) },
            ),
            succs: preds,
            ..self
        }
    }
}

proof fn lemma_turned_joined(a: MergeInput, preds: Seq<Seq<BlockIx>>, r: Reg, p: int, q: int)
    requires
        a.ok(),
        a.turned(preds).ok(),
        are_inverse(a.succs, preds),
        a.has(r, p),
        a.has(r, q),
    ensures
        a.joined(r, p, q) <==> a.turned(preds).joined(r, p, q),
{
    let b = a.turned(preds);
    let ms = a.ms(r);
    let new_ms = b.ms(r);
    if ms.len() == 1 {
        lemma_connected_refl(a.succs, ms, p);
        lemma_connected_refl(b.succs, new_ms, p);
    } else {
        let f = |x: int| x;
        assert(outflows_known(ms, a.succs.len() as int));
        assert(outflows_known(new_ms, b.succs.len() as int));
        assert forall|x: int| 0 <= x < ms.len() implies {
            let m = #[trigger] ms[x];
            &&& new_ms[x] == RangeFragMetrics { bix: m.bix, kind: turned_kind(m.kind) }
            &&& flows_out(new_ms[x]) <==> flows_in(ms[x])
            &&& flows_in(new_ms[x]) <==> flows_out(ms[x])
        } by {
            assert(a.lists[r][x].ix < a.frags.len());
        }
        assert forall|x: int, y: int|
            #![trigger ms[x], ms[y]]
            0 <= x < ms.len() && 0 <= y < ms.len() implies (linked(a.succs, ms, x, y) <==> linked(
            b.succs,
            new_ms,
            x,
            y,
        )) by {
            lemma_turned_flows(a, b, ms, new_ms, x, y);
            lemma_turned_flows(a, b, ms, new_ms, y, x);
        }
        if a.joined(r, p, q) {
            assert forall|x: int, y: int|
                0 <= x < ms.len() && 0 <= y < ms.len() && linked(a.succs, ms, x, y) implies linked(
                b.succs,
                new_ms,
                #[trigger] f(x),
                #[trigger] f(y),
            ) by {
                assert(ms[x] == ms[f(x)] && ms[y] == ms[f(y)]);
            }
            lemma_connected_carried(a.succs, ms, b.succs, new_ms, f, p, q);
        }
        if b.joined(r, p, q) {
            assert forall|x: int, y: int|
                0 <= x < ms.len() && 0 <= y < ms.len() && linked(
                    b.succs,
                    new_ms,
                    x,
                    y,
                ) implies linked(a.succs, ms, #[trigger] f(x), #[trigger] f(y)) by {
                assert(ms[x] == ms[f(x)] && ms[y] == ms[f(y)]);
            }
            lemma_connected_carried(b.succs, new_ms, a.succs, ms, f, p, q);
        }
    }
}

proof fn lemma_turned_flows(
    a: MergeInput,
    b: MergeInput,
    ms: Seq<RangeFragMetrics>,
    new_ms: Seq<RangeFragMetrics>,
    x: int,
    y: int,
)
    requires
        are_inverse(a.succs, b.succs),
        ms.len() == new_ms.len() >= 2,
        0 <= x < ms.len(),
        0 <= y < ms.len(),
        outflows_known(ms, a.succs.len() as int),
        outflows_known(new_ms, b.succs.len() as int),
        new_ms[x].bix == ms[x].bix,
        new_ms[y].bix == ms[y].bix,
        flows_in(new_ms[x]) <==> flows_out(ms[x]),
        flows_out(new_ms[y]) <==> flows_in(ms[y]),
    ensures
        flows(a.succs, ms[x], ms[y]) <==> flows(b.succs, new_ms[y], new_ms[x]),
{
    if flows_out(ms[x]) && flows_out(new_ms[y]) {
        assert(a.succs[ms[x].bix.ix as int].contains(ms[y].bix)
            <==> b.succs[ms[y].bix.ix as int].contains(ms[x].bix));
    }
}

/// To look along jumps is enough: merging along the successors of each block, and merging along its
/// predecessors, with the start and the end of each block exchanged, give the same intervals.
pub proof fn lemma_merge_backwards(
    univ: RealRegUniverse,
    input: MergeInput,
    preds: Seq<Seq<BlockIx>>,
    fixeds: Seq<FixedInterval>,
    virtuals: Seq<VirtualInterval>,
    new_fixeds: Seq<FixedInterval>,
    new_virtuals: Seq<VirtualInterval>,
)
    requires
        input.ok(),
        input.turned(preds).ok(),
        are_inverse(input.succs, preds),
        are_merged(univ, input, fixeds, virtuals),
        are_merged(univ, input.turned(preds), new_fixeds, new_virtuals),
    ensures
        interval_views(virtuals).to_multiset() == interval_views(new_virtuals).to_multiset(),
        same_fixeds(fixeds, new_fixeds),
{
    let other = input.turned(preds);
    let f = |r: Reg, p: int| p;
    assert forall|r: Reg, p: int, q: int| input.has(r, p) && input.has(r, q) implies (input.joined(
        r,
        p,
        q,
    ) <==> other.joined(r, #[trigger] f(r, p), #[trigger] f(r, q))) by {
        lemma_turned_joined(input, preds, r, p, q);
    }
    assert forall|r: Reg, p: int, q: int| other.has(r, p) && other.has(r, q) implies (other.joined(
        r,
        p,
        q,
    ) <==> input.joined(r, #[trigger] f(r, p), #[trigger] f(r, q))) by {
        lemma_turned_joined(input, preds, r, p, q);
    }
    assert(correspond(input, other, f, f));
    lemma_correspond(univ, input, fixeds, virtuals, other, new_fixeds, new_virtuals, f, f);
}

/// Every jump of the first function is one of the second.
pub open spec fn has_more_jumps(succs: Seq<Seq<BlockIx>>, more: Seq<Seq<BlockIx>>) -> bool {
    &&& succs.len() == more.len()
    &&& forall|b: int, c: BlockIx|
        0 <= b < succs.len() && #[trigger] succs[b].contains(c) ==> more[b].contains(c)
}

/// Some interval has the given one inside it.
pub open spec fn inside_some(v: VirtualInterval, virtuals: Seq<VirtualInterval>) -> bool {
    exists|l: int| 0 <= l < virtuals.len() && lies_inside(v, #[trigger] virtuals[l])
}

proof fn lemma_more_jumps_joined(a: MergeInput, b: MergeInput, r: Reg, p: int, q: int)
    requires
        a.ok(),
        a.lists == b.lists,
        a.metrics == b.metrics,
        has_more_jumps(a.succs, b.succs),
        a.has(r, p),
        a.has(r, q),
        a.joined(r, p, q),
    ensures
        b.joined(r, p, q),
{
    let ms = a.ms(r);
    if ms.len() == 1 {
        lemma_connected_refl(b.succs, ms, p);
    } else {
        let f = |x: int| x;
        assert(outflows_known(ms, a.succs.len() as int));
        assert forall|x: int, y: int|
            0 <= x < ms.len() && 0 <= y < ms.len() && linked(a.succs, ms, x, y) implies linked(
            b.succs,
            ms,
            #[trigger] f(x),
            #[trigger] f(y),
        ) by {
            if flows(a.succs, ms[x], ms[y]) {
                assert(a.succs[ms[x].bix.ix as int].contains(ms[y].bix));
            } else {
                assert(a.succs[ms[y].bix.ix as int].contains(ms[x].bix));
            }
        }
        lemma_connected_carried(a.succs, ms, b.succs, ms, f, p, q);
    }
}

/// More jumps only make intervals grow together: there are no more of them, each old one lies
/// inside a new one of its register, and the fixed intervals keep their fragments.
pub proof fn lemma_more_jumps(
    univ: RealRegUniverse,
    a: MergeInput,
    a_fixeds: Seq<FixedInterval>,
    a_virtuals: Seq<VirtualInterval>,
    b: MergeInput,
    b_fixeds: Seq<FixedInterval>,
    b_virtuals: Seq<VirtualInterval>,
)
    requires
        a.ok(),
        b.ok(),
        are_merged(univ, a, a_fixeds, a_virtuals),
        are_merged(univ, b, b_fixeds, b_virtuals),
        a.lists == b.lists,
        a.frags == b.frags,
        a.metrics == b.metrics,
        has_more_jumps(a.succs, b.succs),
    ensures
        b_virtuals.len() <= a_virtuals.len(),
        forall|k: int| 0 <= k < a_virtuals.len() ==> inside_some(#[trigger] a_virtuals[k], b_virtuals),
        same_fixeds(a_fixeds, b_fixeds),
{
    let ag = choose|groups: Seq<Group>|
        {
            &&& #[trigger] are_groups(a.lists, a.metrics, a.succs, groups)
            &&& are_intervals(univ, group_pieces(a.lists, a.frags, groups), a_fixeds, a_virtuals)
        };
    let bg = choose|groups: Seq<Group>|
        {
            &&& #[trigger] are_groups(b.lists, b.metrics, b.succs, groups)
            &&& are_intervals(univ, group_pieces(b.lists, b.frags, groups), b_fixeds, b_virtuals)
        };
    let f = |r: Reg, p: int| p;
    assert(carries(a, b, f));
    assert(carries(b, a, f));
    lemma_fixeds_same(univ, a, ag, a_fixeds, a_virtuals, b, bg, b_fixeds, b_virtuals, f, f);
    assert forall|r: Reg, p: int, q: int|
        a.has(r, p) && a.has(r, q) && a.joined(r, p, q) implies b.joined(
        r,
        #[trigger] f(r, p),
        #[trigger] f(r, q),
    ) by {
        lemma_more_jumps_joined(a, b, r, p, q);
    }
    assert forall|k: int| 0 <= k < a_virtuals.len() implies inside_some(
        #[trigger] a_virtuals[k],
        b_virtuals,
    ) by {
        lemma_interval_goes_to(
            univ,
            a,
            ag,
            b,
            bg,
            f,
            a_fixeds,
            a_virtuals,
            b_fixeds,
            b_virtuals,
            k,
        );
        let l = interval_goes_to(ag, bg, f, k);
        let g = virtual_at(ag)[k];
        let h = goes_to(ag, bg, f, g);
        lemma_group_carried(a, ag, b, bg, f, g);
        lemma_group_fits(a, ag, g);
        lemma_group_fits(b, bg, h);
        lemma_inside(
            a_virtuals[k],
            k,
            group_pieces(a.lists, a.frags, ag)[g].frags,
            b_virtuals[l],
            l,
            group_pieces(b.lists, b.frags, bg)[h].frags,
            ag[g].reg,
        );
        assert(lies_inside(a_virtuals[k], b_virtuals[l]));
    }
    let go = |k: int| interval_goes_to(bg, ag, f, k);
    assert forall|k: int| 0 <= k < b_virtuals.len() implies 0 <= #[trigger] go(k)
        < a_virtuals.len() by {
        lemma_interval_goes_to(
            univ,
            b,
            bg,
            a,
            ag,
            f,
            b_fixeds,
            b_virtuals,
            a_fixeds,
            a_virtuals,
            k,
        );
    }
    assert forall|i: int, j: int| 0 <= i < j < b_virtuals.len() implies #[trigger] go(i)
        != #[trigger] go(j) by {
        if go(i) == go(j) {
            lemma_interval_goes_to(
                univ,
                b,
                bg,
                a,
                ag,
                f,
                b_fixeds,
                b_virtuals,
                a_fixeds,
                a_virtuals,
                i,
            );
            lemma_interval_goes_to(
                univ,
                b,
                bg,
                a,
                ag,
                f,
                b_fixeds,
                b_virtuals,
                a_fixeds,
                a_virtuals,
                j,
            );
            lemma_virtual_at(b, bg);
            lemma_goes_apart(b, bg, a, ag, f, virtual_at(bg)[i], virtual_at(bg)[j]);
        }
    }
    lemma_no_more(b_virtuals.len() as int, a_virtuals.len() as int, go);
}

/// Numbers that go to different numbers are not more than those.
proof fn lemma_no_more(n: int, m: int, f: spec_fn(int) -> int)
    requires
        0 <= n,
        0 <= m,
        is_injection(f, n, m),
    ensures
        n <= m,
{
    let a = Seq::new(n as nat, |i: int| true);
    let b = Seq::new(m as nat, |i: int| true);
    assert forall|i: int| 0 <= i < a.len() implies a[i] == b[#[trigger] f(i)] by {}
    lemma_injected(a, b, f);
}

/// A register has `n` fragments, one in each of `n` blocks: the first reaches the end of its block,
/// the last the start of its own, and all others pass through.
pub open spec fn is_chain(input: MergeInput, r: Reg, n: int) -> bool {
    &&& 2 <= n <= u32::MAX
    &&& !r.spec_is_real()
    &&& input.lists == Map::<Reg, Seq<RangeFragIx>>::empty().insert(
        r,
        Seq::new(n as nat, |i: int| RangeFragIx { ix: i as u32 }),
    )
    &&& input.frags.len() == input.metrics.len() == input.succs.len() == n
    &&& forall|i: int|
        0 <= i < n ==> (#[trigger] input.metrics[i]) == (RangeFragMetrics {
            bix: BlockIx { ix: i as u32 },
            kind: if i == 0 {
                RangeFragKind::LiveOut
            } else if i == n - 1 {
                RangeFragKind::LiveIn
            } else {
                RangeFragKind::Thru
            },
        })
}

proof fn lemma_chain_ms(input: MergeInput, r: Reg, n: int)
    requires
        is_chain(input, r, n),
    ensures
        input.ms(r).len() == n,
        forall|i: int| 0 <= i < n ==> #[trigger] input.ms(r)[i] == input.metrics[i],
        forall|i: int| #[trigger] input.has(r, i) <==> 0 <= i < n,
        forall|i: int| 0 <= i < n ==> #[trigger] input.frag(r, i) == input.frags[i],
{
    assert forall|i: int| 0 <= i < n implies #[trigger] input.ms(r)[i] == input.metrics[i] by {
        assert(input.lists[r][i].ix == i);
    }
    assert forall|i: int| 0 <= i < n implies #[trigger] input.frag(r, i) == input.frags[i] by {
        assert(input.lists[r][i].ix == i);
    }
}

proof fn lemma_chain_joined(input: MergeInput, r: Reg, n: int, p: int)
    requires
        is_chain(input, r, n),
        forall|i: int, c: BlockIx|
            0 <= i < n ==> (#[trigger] input.succs[i].contains(c) <==> c.ix == i + 1 && i + 1 < n),
        0 <= p < n,
    ensures
        input.joined(r, 0, p),
    decreases p,
{
    lemma_chain_ms(input, r, n);
    let ms = input.ms(r);
    if p == 0 {
        lemma_connected_refl(input.succs, ms, 0);
    } else {
        lemma_chain_joined(input, r, n, p - 1);
        assert(ms[p - 1] == input.metrics[p - 1]);
        assert(ms[p] == input.metrics[p]);
        assert(input.succs[p - 1].contains(ms[p].bix));
        assert(flows(input.succs, ms[p - 1], ms[p]));
        lemma_connected_linked(input.succs, ms, p - 1, p);
        lemma_connected_trans(input.succs, ms, 0, p - 1, p);
    }
}

/// A chain of fragments, however long, is one interval if each block jumps to the next: it starts
/// where the first of them starts, and ends where the last one ends.
pub proof fn lemma_chain(
    univ: RealRegUniverse,
    input: MergeInput,
    r: Reg,
    n: int,
    fixeds: Seq<FixedInterval>,
    virtuals: Seq<VirtualInterval>,
)
    requires
        input.ok(),
        is_chain(input, r, n),
        forall|i: int, c: BlockIx|
            0 <= i < n ==> (#[trigger] input.succs[i].contains(c) <==> c.ix == i + 1 && i + 1 < n),
        are_merged(univ, input, fixeds, virtuals),
    ensures
        virtuals.len() == 1,
        virtuals[0].vreg.reg == r,
        virtuals[0].start@ == least_first(input.frags),
        virtuals[0].end@ == greatest_last(input.frags),
{
    let groups = choose|groups: Seq<Group>|
        {
            &&& #[trigger] are_groups(input.lists, input.metrics, input.succs, groups)
            &&& are_intervals(
                univ,
                group_pieces(input.lists, input.frags, groups),
                fixeds,
                virtuals,
            )
        };
    lemma_chain_ms(input, r, n);
    assert(input.has(r, 0));
    lemma_slot(input, groups, r, 0);
    let w = slot(groups, r, 0);
    assert forall|g: int| 0 <= g < groups.len() implies g == w.0 && (#[trigger] groups[g]).reg
        == r by {
        assert(group_ok(input.lists, groups[g]));
        assert(groups[g].reg == r);
        lemma_member(input, groups, g, 0);
        assert(input.has(r, groups[g].members[0]));
        lemma_chain_joined(input, r, n, groups[g].members[0]);
        lemma_members_joined(input, groups, w.0, w.1, g, 0);
    }
    assert(groups.len() == 1) by {
        if groups.len() >= 2 {
            assert(groups[0].reg == r && groups[1].reg == r);
        }
    }
    assert(groups[0].reg == r);
    lemma_virtual_at(input, groups);
    let ats = virtual_at(groups);
    assert(ats.contains(0));
    assert(ats.len() == 1) by {
        if ats.len() >= 2 {
            assert(ats.contains(ats[0]) && ats.contains(ats[1]));
        }
    }
    assert(ats.contains(ats[0]));
    let pieces = group_pieces(input.lists, input.frags, groups);
    let frags = pieces[0].frags;
    assert(is_interval(
        virtuals[0],
        0,
        virtual_pieces(pieces)[0].reg,
        virtual_pieces(pieces)[0].frags,
    ));
    assert(virtual_pieces(pieces)[0] == pieces[ats[0]]);
    lemma_group_fits(input, groups, 0);
    lemma_member(input, groups, 0, 0);
    assert forall|q: int| 0 <= q < frags.len() implies input.frags.contains(
        #[trigger] frags[q],
    ) by {
        lemma_member(input, groups, 0, q);
        assert(frags[q] == input.frags[groups[0].members[q]]);
    }
    assert forall|p: int| 0 <= p < input.frags.len() implies frags.contains(
        #[trigger] input.frags[p],
    ) by {
        assert(input.has(r, p));
        lemma_slot(input, groups, r, p);
        let z = slot(groups, r, p);
        lemma_member(input, groups, z.0, z.1);
        assert(frags[z.1] == input.frag(r, p));
    }
    lemma_same_span(frags, input.frags);
}

/// The same fragments span the same points.
proof fn lemma_same_span(a: Seq<FragView>, b: Seq<FragView>)
    requires
        a.len() >= 1,
        b.len() >= 1,
        points_fit(a),
        points_fit(b),
        forall|q: int| 0 <= q < a.len() ==> b.contains(#[trigger] a[q]),
        forall|q: int| 0 <= q < b.len() ==> a.contains(#[trigger] b[q]),
    ensures
        least_first(a) == least_first(b),
        greatest_last(a) == greatest_last(b),
{
    lemma_wider_span(a, b);
    lemma_wider_span(b, a);
}

proof fn lemma_wider_span(few: Seq<FragView>, many: Seq<FragView>)
    requires
        few.len() >= 1,
        points_fit(few),
        points_fit(many),
        forall|q: int| 0 <= q < few.len() ==> many.contains(#[trigger] few[q]),
    ensures
        least_first(many) <= least_first(few),
        greatest_last(few) <= greatest_last(many),
{
    assert(many.contains(few[0]));
    lemma_interval_spans(few);
    lemma_interval_spans(many);
    let a = choose|a: int| 0 <= a < few.len() && (#[trigger] few[a]).first == least_first(few);
    let b = choose|b: int| 0 <= b < few.len() && (#[trigger] few[b]).last == greatest_last(few);
    assert(many.contains(few[a]) && many.contains(few[b]));
    let x = choose|x: int| 0 <= x < many.len() && many[x] == few[a];
    let y = choose|y: int| 0 <= y < many.len() && many[y] == few[b];
    assert(least_first(many) <= many[x].first);
    assert(many[y].last <= greatest_last(many));
}

/// Without jumps, every fragment of a chain, however long, is an interval of its own.
pub proof fn lemma_chain_cut(
    univ: RealRegUniverse,
    input: MergeInput,
    r: Reg,
    n: int,
    fixeds: Seq<FixedInterval>,
    virtuals: Seq<VirtualInterval>,
)
    requires
        input.ok(),
        is_chain(input, r, n),
        forall|i: int| 0 <= i < n ==> (#[trigger] input.succs[i]).len() == 0,
        are_merged(univ, input, fixeds, virtuals),
    ensures
        virtuals.len() == n,
{
    let groups = choose|groups: Seq<Group>|
        {
            &&& #[trigger] are_groups(input.lists, input.metrics, input.succs, groups)
            &&& are_intervals(
                univ,
                group_pieces(input.lists, input.frags, groups),
                fixeds,
                virtuals,
            )
        };
    lemma_chain_ms(input, r, n);
    let ms = input.ms(r);
    assert forall|p: int, q: int| #[trigger] input.joined(r, p, q) implies p == q by {
        let path = choose|path: Seq<int>| #[trigger]
            is_path(input.succs, ms, path) && path[0] == p && path.last() == q;
        if path.len() > 1 {
            assert(linked(input.succs, ms, path[0], path[1]));
            assert(0 <= path[0] < n && 0 <= path[1] < n);
            assert(ms[path[0]] == input.metrics[path[0]]);
            assert(ms[path[1]] == input.metrics[path[1]]);
            assert(input.succs[path[0]].len() == 0);
            assert(input.succs[path[1]].len() == 0);
        }
    }
    lemma_virtual_at(input, groups);
    let ats = virtual_at(groups);
    let up = |p: int| ats.index_of(slot(groups, r, p).0);
    assert forall|p: int| 0 <= p < n implies {
        &&& 0 <= #[trigger] up(p) < virtuals.len()
        &&& ats[up(p)] == slot(groups, r, p).0
        &&& is_slot(groups, r, p, slot(groups, r, p))
    } by {
        assert(input.has(r, p));
        lemma_slot(input, groups, r, p);
        assert(ats.contains(slot(groups, r, p).0));
    }
    assert forall|p: int, q: int| 0 <= p < q < n implies #[trigger] up(p) != #[trigger] up(q) by {
        if up(p) == up(q) {
            let v = slot(groups, r, p);
            let w = slot(groups, r, q);
            lemma_members_joined(input, groups, v.0, v.1, w.0, w.1);
            assert(input.joined(r, p, q));
        }
    }
    lemma_no_more(n, virtuals.len() as int, up);
    let down = |k: int| groups[ats[k]].members[0];
    assert forall|k: int| 0 <= k < virtuals.len() implies {
        &&& 0 <= #[trigger] down(k) < n
        &&& 0 <= ats[k] < groups.len()
        &&& groups[ats[k]].reg == r
        &&& groups[ats[k]].members.len() >= 1
    } by {
        assert(ats.contains(ats[k]));
        assert(group_ok(input.lists, groups[ats[k]]));
        lemma_member(input, groups, ats[k], 0);
        assert(input.has(r, groups[ats[k]].members[0]));
    }
    assert forall|i: int, j: int| 0 <= i < j < virtuals.len() implies #[trigger] down(i)
        != #[trigger] down(j) by {
        if down(i) == down(j) {
            lemma_connected_refl(input.succs, ms, down(i));
            lemma_members_joined(input, groups, ats[i], 0, ats[j], 0);
        }
    }
    lemma_no_more(virtuals.len() as int, n, down);
}

/// An instruction is mentioned.
pub open spec fn mentions_insn(mentions: Seq<(InstIx, Mention)>, i: int) -> bool {
    exists|a: int| 0 <= a < mentions.len() && (#[trigger] mentions[a]).0.ix == i
}

/// Some fragment notes that instruction `i` reads.
pub open spec fn some_notes_use(frags: Seq<FragView>, i: int) -> bool {
    exists|q: int| 0 <= q < frags.len() && notes_use((#[trigger] frags[q]).mentions, i)
}

/// Some fragment notes that instruction `i` modifies.
pub open spec fn some_notes_mod(frags: Seq<FragView>, i: int) -> bool {
    exists|q: int| 0 <= q < frags.len() && notes_mod((#[trigger] frags[q]).mentions, i)
}

/// Some fragment notes that instruction `i` writes.
pub open spec fn some_notes_def(frags: Seq<FragView>, i: int) -> bool {
    exists|q: int| 0 <= q < frags.len() && notes_def((#[trigger] frags[q]).mentions, i)
}

/// Some fragment mentions instruction `i`.
pub open spec fn some_mentions_insn(frags: Seq<FragView>, i: int) -> bool {
    exists|q: int| 0 <= q < frags.len() && mentions_insn((#[trigger] frags[q]).mentions, i)
}

/// The interval is what its fragments make together: it reaches from the first point of all to the
/// last point of all, and notes of each instruction what some fragment notes, and nothing else, in
/// ascending order.
pub open spec fn is_hull(v: VirtualInterval, frags: Seq<FragView>) -> bool {
    &&& forall|q: int|
        0 <= q < frags.len() ==> v.start.bits <= (#[trigger] frags[q]).first && frags[q].last
            <= v.end.bits
    &&& if frags.len() == 0 {
        v.start.bits == u64::MAX && v.end.bits == 0
    } else {
        &&& exists|q: int| 0 <= q < frags.len() && (#[trigger] frags[q]).first == v.start.bits
        &&& exists|q: int| 0 <= q < frags.len() && (#[trigger] frags[q]).last == v.end.bits
    }
    &&& forall|a: int, c: int|
        0 <= a < c < v.mentions@.len() ==> (#[trigger] v.mentions@[a]).0.ix < (
        #[trigger] v.mentions@[c]).0.ix
    &&& forall|i: int| #[trigger]
        mentions_insn(v.mentions@, i) <==> some_mentions_insn(frags, i)
    &&& forall|i: int| #[trigger] notes_use(v.mentions@, i) <==> some_notes_use(frags, i)
    &&& forall|i: int| #[trigger] notes_mod(v.mentions@, i) <==> some_notes_mod(frags, i)
    &&& forall|i: int| #[trigger] notes_def(v.mentions@, i) <==> some_notes_def(frags, i)
}

/// An interval is what its fragments make together.
proof fn lemma_hull(v: VirtualInterval, id: int, r: Reg, frags: Seq<FragView>)
    requires
        is_interval(v, id, r, frags),
        points_fit(frags),
    ensures
        is_hull(v, frags),
{
    let all = all_mentions(frags);
    let ms = v.mentions@;
    lemma_all_mentions(frags);
    if frags.len() > 0 {
        lemma_interval_spans(frags);
    }
    assert forall|i: int| #[trigger]
        mentions_insn(ms, i) <==> some_mentions_insn(frags, i) by {
        if mentions_insn(ms, i) {
            let a = choose|a: int| 0 <= a < ms.len() && (#[trigger] ms[a]).0.ix == i;
            assert(mentioned(all, ms[a].0));
            let m = choose|m: Mention| #[trigger] all.contains((ms[a].0, m));
            let (q, c) = choose|q: int, c: int|
                0 <= q < frags.len() && 0 <= c < frags[q].mentions.len()
                    && #[trigger] frags[q].mentions[c] == (ms[a].0, m);
            assert(mentions_insn(frags[q].mentions, i));
        }
        if some_mentions_insn(frags, i) {
            let q = choose|q: int|
                0 <= q < frags.len() && mentions_insn((#[trigger] frags[q]).mentions, i);
            let c = choose|c: int|
                0 <= c < frags[q].mentions.len() && (#[trigger] frags[q].mentions[c]).0.ix == i;
            let (x, m) = frags[q].mentions[c];
            assert(all.contains((x, m)));
            assert(mentioned(all, x));
            let a = choose|a: int| 0 <= a < ms.len() && (#[trigger] ms[a]).0 == x;
            assert(ms[a].0.ix == i);
        }
    }
    assert forall|i: int| #[trigger] notes_use(ms, i) <==> some_notes_use(frags, i) by {
        if notes_use(ms, i) {
            let a = choose|a: int|
                0 <= a < ms.len() && (#[trigger] ms[a]).0.ix == i && ms[a].1.used;
            assert(ms[a].1 == noted(all, ms[a].0));
            let m = choose|m: Mention| #[trigger] all.contains((ms[a].0, m)) && m.used;
            let (q, c) = choose|q: int, c: int|
                0 <= q < frags.len() && 0 <= c < frags[q].mentions.len()
                    && #[trigger] frags[q].mentions[c] == (ms[a].0, m);
            assert(notes_use(frags[q].mentions, i));
        }
        if some_notes_use(frags, i) {
            let q = choose|q: int|
                0 <= q < frags.len() && notes_use((#[trigger] frags[q]).mentions, i);
            let c = choose|c: int|
                0 <= c < frags[q].mentions.len() && (#[trigger] frags[q].mentions[c]).0.ix == i
                    && frags[q].mentions[c].1.used;
            let (x, m) = frags[q].mentions[c];
            assert(all.contains((x, m)));
            assert(mentioned(all, x));
            let a = choose|a: int| 0 <= a < ms.len() && (#[trigger] ms[a]).0 == x;
            assert(ms[a].1 == noted(all, x));
        }
    }
    assert forall|i: int| #[trigger] notes_mod(ms, i) <==> some_notes_mod(frags, i) by {
        if notes_mod(ms, i) {
            let a = choose|a: int|
                0 <= a < ms.len() && (#[trigger] ms[a]).0.ix == i && ms[a].1.modified;
            assert(ms[a].1 == noted(all, ms[a].0));
            let m = choose|m: Mention| #[trigger] all.contains((ms[a].0, m)) && m.modified;
            let (q, c) = choose|q: int, c: int|
                0 <= q < frags.len() && 0 <= c < frags[q].mentions.len()
                    && #[trigger] frags[q].mentions[c] == (ms[a].0, m);
            assert(notes_mod(frags[q].mentions, i));
        }
        if some_notes_mod(frags, i) {
            let q = choose|q: int|
                0 <= q < frags.len() && notes_mod((#[trigger] frags[q]).mentions, i);
            let c = choose|c: int|
                0 <= c < frags[q].mentions.len() && (#[trigger] frags[q].mentions[c]).0.ix == i
                    && frags[q].mentions[c].1.modified;
            let (x, m) = frags[q].mentions[c];
            assert(all.contains((x, m)));
            assert(mentioned(all, x));
            let a = choose|a: int| 0 <= a < ms.len() && (#[trigger] ms[a]).0 == x;
            assert(ms[a].1 == noted(all, x));
        }
    }
    assert forall|i: int| #[trigger] notes_def(ms, i) <==> some_notes_def(frags, i) by {
        if notes_def(ms, i) {
            let a = choose|a: int|
                0 <= a < ms.len() && (#[trigger] ms[a]).0.ix == i && ms[a].1.defined;
            assert(ms[a].1 == noted(all, ms[a].0));
            let m = choose|m: Mention| #[trigger] all.contains((ms[a].0, m)) && m.defined;
            let (q, c) = choose|q: int, c: int|
                0 <= q < frags.len() && 0 <= c < frags[q].mentions.len()
                    && #[trigger] frags[q].mentions[c] == (ms[a].0, m);
            assert(notes_def(frags[q].mentions, i));
        }
        if some_notes_def(frags, i) {
            let q = choose|q: int|
                0 <= q < frags.len() && notes_def((#[trigger] frags[q]).mentions, i);
            let c = choose|c: int|
                0 <= c < frags[q].mentions.len() && (#[trigger] frags[q].mentions[c]).0.ix == i
                    && frags[q].mentions[c].1.defined;
            let (x, m) = frags[q].mentions[c];
            assert(all.contains((x, m)));
            assert(mentioned(all, x));
            let a = choose|a: int| 0 <= a < ms.len() && (#[trigger] ms[a]).0 == x;
            assert(ms[a].1 == noted(all, x));
        }
    }
}

/// The fragments with the given numbers, read off their fields.
pub open spec fn frags_at(frags: Seq<RangeFrag>, ixs: Seq<RangeFragIx>) -> Seq<FragView> {
    Seq::new(
        ixs.len(),
        |j: int|
            FragView {
                first: frags[ixs[j].ix as int].first.bits as int,
                last: frags[ixs[j].ix as int].last.bits as int,
                mentions: frags[ixs[j].ix as int].mentions@,
            },
    )
}

/// What flushing some fragments does. For a virtual register, one interval is added behind the
/// others, which stay as they were: it has the next number, is its own ancestor, and is what the
/// fragments make together. For a real register, the fragments are added behind those of the fixed
/// interval at its index, and all else stays as it was.
pub proof fn lemma_flush(
    real0: Seq<FixedInterval>,
    virt0: Seq<VirtualInterval>,
    reg: Reg,
    ixs: Seq<RangeFragIx>,
    frags: Seq<RangeFrag>,
    real1: Seq<FixedInterval>,
    virt1: Seq<VirtualInterval>,
)
    requires
        forall|j: int| 0 <= j < ixs.len() ==> (#[trigger] ixs[j]).ix < frags.len(),
        reg.bits < 0x8000_0000 ==> reg.bits % 256 < real0.len(),
        is_flush(real0, virt0, reg, picked(frag_views(frags), ixs), real1, virt1),
    ensures
        reg.bits >= 0x8000_0000 ==> {
            let n = virt0.len() as int;
            &&& real1 == real0
            &&& virt1.len() == n + 1
            &&& forall|k: int| 0 <= k < n ==> #[trigger] virt1[k] == virt0[k]
            &&& virt1[n].id.id == n
            &&& virt1[n].ancestor == Some(virt1[n].id)
            &&& virt1[n].vreg.reg == reg
            &&& is_hull(virt1[n], frags_at(frags, ixs))
        },
        reg.bits < 0x8000_0000 ==> {
            let at = reg.bits % 256;
            &&& virt1 == virt0
            &&& real1.len() == real0.len()
            &&& forall|k: int| 0 <= k < real0.len() && k != at ==> #[trigger] real1[k] == real0[k]
            &&& real1[at as int].reg == real0[at as int].reg
            &&& real1[at as int].frags@.len() == real0[at as int].frags@.len() + ixs.len()
            &&& forall|j: int|
                0 <= j < real0[at as int].frags@.len() ==> same_frag(
                    #[trigger] real1[at as int].frags@[j],
                    real0[at as int].frags@[j],
                )
            &&& forall|j: int|
                0 <= j < ixs.len() ==> same_frag(
                    real1[at as int].frags@[real0[at as int].frags@.len() + j],
                    frags[(#[trigger] ixs[j]).ix as int],
                )
        },
{
    let new = picked(frag_views(frags), ixs);
    assert(new =~= frags_at(frags, ixs)) by {
        assert forall|j: int| 0 <= j < ixs.len() implies new[j] == frags_at(frags, ixs)[j] by {
            assert(frag_views(frags)[ixs[j].ix as int] == frags[ixs[j].ix as int]@);
        }
    }
    if reg.bits >= 0x8000_0000 {
        let n = virt0.len() as int;
        assert(virt1.last() == virt1[n]);
        assert forall|k: int| 0 <= k < n implies #[trigger] virt1[k] == virt0[k] by {
            assert(virt1.drop_last()[k] == virt0[k]);
        }
        assert(points_fit(new));
        lemma_hull(virt1[n], n, reg, new);
    } else {
        let at = reg.real_index();
        assert(real1[at].reg == real0[at].reg);
        let a = frag_views(real1[at].frags@);
        let b = frag_views(real0[at].frags@);
        assert(a == b + new);
        assert forall|j: int| 0 <= j < real0[at].frags@.len() implies same_frag(
            #[trigger] real1[at].frags@[j],
            real0[at].frags@[j],
        ) by {
            assert(a[j] == b[j]);
        }
        assert forall|j: int| 0 <= j < ixs.len() implies same_frag(
            real1[at].frags@[real0[at].frags@.len() + j],
            frags[(#[trigger] ixs[j]).ix as int],
        ) by {
            assert(a[b.len() + j] == new[j]);
        }
    }
}

/// Two fragments with the same points and mentions.
pub open spec fn same_frag(a: RangeFrag, b: RangeFrag) -> bool {
    &&& a.first.bits == b.first.bits
    &&& a.last.bits == b.last.bits
    &&& a.mentions@ == b.mentions@
}

/// Liveness leads from the fragment at position `p` of the list of `r` to the one at position `q`:
/// the first reaches the end of its block, the second the start of its own, and the first block
/// jumps to the second.
pub open spec fn leads_to(input: MergeInput, r: Reg, p: int, q: int) -> bool {
    let m = input.metrics[input.lists[r][p].ix as int];
    let n = input.metrics[input.lists[r][q].ix as int];
    &&& m.kind is LiveOut || m.kind is Thru
    &&& n.kind is LiveIn || n.kind is Thru
    &&& input.succs[m.bix.ix as int].contains(n.bix)
}

/// Liveness does not lead into the set of positions, nor out of it.
pub open spec fn is_closed(input: MergeInput, r: Reg, s: Set<int>) -> bool {
    forall|p: int, q: int| #[trigger]
        input.has(r, p) && #[trigger] input.has(r, q) && leads_to(input, r, p, q) ==> (s.contains(p)
            <==> s.contains(q))
}

proof fn lemma_closed_path(input: MergeInput, r: Reg, s: Set<int>, path: Seq<int>, k: int)
    requires
        input.lists.contains_key(r),
        is_closed(input, r, s),
        is_path(input.succs, input.ms(r), path),
        0 <= k < path.len(),
    ensures
        s.contains(path[0]) <==> s.contains(path[k]),
    decreases k,
{
    if k > 0 {
        lemma_closed_path(input, r, s, path, k - 1);
        assert(linked(input.succs, input.ms(r), path[k - 1], path[k - 1 + 1]));
        assert(input.has(r, path[k - 1]) && input.has(r, path[k]));
        assert(input.ms(r)[path[k - 1]] == input.metrics[input.lists[r][path[k - 1]].ix as int]);
        assert(input.ms(r)[path[k]] == input.metrics[input.lists[r][path[k]].ix as int]);
        assert(leads_to(input, r, path[k - 1], path[k]) || leads_to(
            input,
            r,
            path[k],
            path[k - 1],
        ));
    }
}

/// `of` tells which interval each fragment of a virtual register belongs to.
pub open spec fn tells_interval(
    input: MergeInput,
    virtuals: Seq<VirtualInterval>,
    of: spec_fn(Reg, int) -> int,
) -> bool {
    &&& forall|r: Reg, p: int|
        input.has(r, p) && r.bits >= 0x8000_0000 ==> {
            &&& 0 <= #[trigger] of(r, p) < virtuals.len()
            &&& virtuals[of(r, p)].vreg.reg == r
        }
    &&& forall|k: int|
        0 <= k < virtuals.len() ==> {
            &&& (#[trigger] virtuals[k]).vreg.reg.bits >= 0x8000_0000
            &&& virtuals[k].id.id == k
            &&& virtuals[k].ancestor == Some(virtuals[k].id)
            &&& exists|ps: Seq<int>|
                #[trigger] are_positions(input, of, virtuals[k].vreg.reg, k, ps) && is_hull(
                    virtuals[k],
                    frags_of(input, virtuals[k].vreg.reg, ps),
                )
        }
    &&& forall|r: Reg, p: int, q: int|
        input.has(r, p) && input.has(r, q) && r.bits >= 0x8000_0000 && leads_to(input, r, p, q)
            ==> #[trigger] of(r, p) == #[trigger] of(r, q)
    &&& forall|r: Reg, s: Set<int>, p: int, q: int|
        input.has(r, p) && input.has(r, q) && r.bits >= 0x8000_0000 && #[trigger] is_closed(
            input,
            r,
            s,
        ) && #[trigger] of(r, p) == #[trigger] of(r, q) ==> (s.contains(p) <==> s.contains(q))
    &&& stand_in_order(input, virtuals, of)
}

/// The order of the intervals: those of one register stand together. Those of fragments that touch
/// no end of their block come first, in the order of their fragments.
pub open spec fn stand_in_order(
    input: MergeInput,
    virtuals: Seq<VirtualInterval>,
    of: spec_fn(Reg, int) -> int,
) -> bool {
    &&& forall|j: int, k: int, l: int|
        0 <= j < k < l < virtuals.len() && (#[trigger] virtuals[j]).vreg.reg == (
        #[trigger] virtuals[l]).vreg.reg ==> (#[trigger] virtuals[k]).vreg.reg
            == virtuals[j].vreg.reg
    &&& forall|r: Reg, p: int, q: int|
        input.has(r, p) && input.has(r, q) && r.bits >= 0x8000_0000 && p != q
            && input.metrics[input.lists[r][p].ix as int].kind is Local && (
        input.metrics[input.lists[r][q].ix as int].kind is Local ==> p < q) ==> #[trigger] of(r, p)
            < #[trigger] of(r, q)
}

/// `ps` are the positions, at least one, of the fragments of `r` that belong to interval `k`.
pub open spec fn are_positions(
    input: MergeInput,
    of: spec_fn(Reg, int) -> int,
    r: Reg,
    k: int,
    ps: Seq<int>,
) -> bool {
    &&& ps.len() >= 1
    &&& forall|j: int| 0 <= j < ps.len() ==> input.has(r, #[trigger] ps[j])
    &&& forall|p: int| input.has(r, p) ==> (#[trigger] of(r, p) == k <==> ps.contains(p))
}

/// The fragments at some positions.
pub open spec fn frags_of(input: MergeInput, r: Reg, ps: Seq<int>) -> Seq<FragView> {
    Seq::new(ps.len(), |j: int| input.frags[input.lists[r][ps[j]].ix as int])
}

/// What merging does with the fragments of virtual registers. Each belongs to one interval of its
/// register. Fragments between which liveness leads belong to the same one, and no others do: two
/// that a closed set of fragments tells apart belong to different ones. Each interval is what its
/// fragments make together. The intervals of one register stand together, and first those of
/// fragments that touch no end of their block, in the order of the list.
pub proof fn lemma_merged_virtuals(
    univ: RealRegUniverse,
    input: MergeInput,
    fixeds: Seq<FixedInterval>,
    virtuals: Seq<VirtualInterval>,
) -> (of: spec_fn(Reg, int) -> int)
    requires
        input.ok(),
        are_merged(univ, input, fixeds, virtuals),
    ensures
        tells_interval(input, virtuals, of),
{
    let groups = choose|groups: Seq<Group>|
        {
            &&& #[trigger] are_groups(input.lists, input.metrics, input.succs, groups)
            &&& are_intervals(
                univ,
                group_pieces(input.lists, input.frags, groups),
                fixeds,
                virtuals,
            )
        };
    lemma_grouped_virtuals(input, groups, virtuals)
}

/// The groups of virtual registers are met in ascending order.
proof fn lemma_virtual_at_ascends(groups: Seq<Group>)
    ensures
        forall|j: int| 0 <= j < virtual_at(groups).len() ==> 0 <= #[trigger] virtual_at(groups)[j]
            < groups.len(),
        forall|j: int, k: int|
            0 <= j < k < virtual_at(groups).len() ==> #[trigger] virtual_at(groups)[j]
                < #[trigger] virtual_at(groups)[k],
    decreases groups.len(),
{
    if groups.len() > 0 {
        lemma_virtual_at_ascends(groups.drop_last());
        let prev = virtual_at(groups.drop_last());
        let now = virtual_at(groups);
        assert forall|j: int| 0 <= j < now.len() implies 0 <= #[trigger] now[j] < groups.len() && (j
            < prev.len() ==> now[j] == prev[j] && now[j] < groups.len() - 1) by {
            if j < prev.len() {
                assert(now[j] == prev[j]);
            }
        }
        assert forall|j: int, k: int| 0 <= j < k < now.len() implies #[trigger] now[j]
            < #[trigger] now[k] by {
            if k < prev.len() {
                assert(prev[j] < prev[k]);
            }
        }
    }
}

/// A fragment that touches no end of its block is joined to none but itself.
proof fn lemma_local_alone(input: MergeInput, r: Reg, p: int, q: int)
    requires
        input.ms(r)[p].kind is Local,
        input.joined(r, p, q),
    ensures
        p == q,
{
    let path = choose|path: Seq<int>| #[trigger]
        is_path(input.succs, input.ms(r), path) && path[0] == p && path.last() == q;
    if path.len() >= 2 {
        assert(linked(input.succs, input.ms(r), path[0], path[0int + 1]));
    }
}

/// A fragment that touches no end of its block has a group of its own.
proof fn lemma_local_group(input: MergeInput, groups: Seq<Group>, r: Reg, p: int, w: (int, int))
    requires
        input.grouped(groups),
        input.has(r, p),
        is_slot(groups, r, p, w),
        input.metrics[input.lists[r][p].ix as int].kind is Local,
    ensures
        groups[w.0].members[0] == p,
        groups[w.0].members.len() == 1,
{
    assert(input.ms(r)[p] == input.metrics[input.lists[r][p].ix as int]);
    lemma_members_joined(input, groups, w.0, w.1, w.0, 0);
    lemma_local_alone(input, r, p, groups[w.0].members[0]);
    if groups[w.0].members.len() > 1 {
        lemma_members_joined(input, groups, w.0, w.1, w.0, 1);
        lemma_local_alone(input, r, p, groups[w.0].members[1]);
        assert(group_ok(input.lists, groups[w.0]));
    }
}

proof fn lemma_local_first(
    input: MergeInput,
    groups: Seq<Group>,
    r: Reg,
    p: int,
    q: int,
    v: (int, int),
    w: (int, int),
)
    requires
        input.grouped(groups),
        input.has(r, p),
        input.has(r, q),
        p != q,
        is_slot(groups, r, p, v),
        is_slot(groups, r, q, w),
        input.metrics[input.lists[r][p].ix as int].kind is Local,
        input.metrics[input.lists[r][q].ix as int].kind is Local ==> p < q,
    ensures
        v.0 < w.0,
{
    let ms = input.ms(r);
    assert(ms[p] == input.metrics[input.lists[r][p].ix as int]);
    assert(ms[q] == input.metrics[input.lists[r][q].ix as int]);
    lemma_local_group(input, groups, r, p, v);
    if w.0 < v.0 {
        let a = groups[w.0].members;
        let b = groups[v.0].members;
        assert(locals_first(metrics_of(input.metrics, input.lists[groups[w.0].reg]), a, b));
        lemma_member(input, groups, w.0, 0);
        lemma_members_joined(input, groups, w.0, 0, w.0, w.1);
        lemma_local_alone(input, r, a[0], q);
    }
}

/// What belongs to one group belongs to one interval.
pub proof fn lemma_grouped_virtuals(
    input: MergeInput,
    groups: Seq<Group>,
    virtuals: Seq<VirtualInterval>,
) -> (of: spec_fn(Reg, int) -> int)
    requires
        input.ok(),
        input.grouped(groups),
        are_virtuals(group_pieces(input.lists, input.frags, groups), virtuals),
    ensures
        tells_interval(input, virtuals, of),
{
    lemma_virtual_at(input, groups);
    let ats = virtual_at(groups);
    let pieces = group_pieces(input.lists, input.frags, groups);
    let of = |r: Reg, p: int| ats.index_of(slot(groups, r, p).0);
    assert forall|k: int| 0 <= k < virtuals.len() implies {
        &&& 0 <= #[trigger] ats[k] < groups.len()
        &&& !groups[ats[k]].reg.spec_is_real()
        &&& is_interval(virtuals[k], k, groups[ats[k]].reg, pieces[ats[k]].frags)
    } by {
        assert(ats.contains(ats[k]));
        assert(is_interval(
            virtuals[k],
            k,
            virtual_pieces(pieces)[k].reg,
            virtual_pieces(pieces)[k].frags,
        ));
    }
    assert forall|r: Reg, p: int| input.has(r, p) && r.bits >= 0x8000_0000 implies {
        &&& 0 <= #[trigger] of(r, p) < virtuals.len()
        &&& ats[of(r, p)] == slot(groups, r, p).0
        &&& is_slot(groups, r, p, slot(groups, r, p))
        &&& virtuals[of(r, p)].vreg.reg == r
    } by {
        lemma_slot(input, groups, r, p);
        assert(ats.contains(slot(groups, r, p).0));
    }
    assert forall|k: int| 0 <= k < virtuals.len() implies {
        &&& (#[trigger] virtuals[k]).vreg.reg.bits >= 0x8000_0000
        &&& virtuals[k].id.id == k
        &&& virtuals[k].ancestor == Some(virtuals[k].id)
        &&& exists|ps: Seq<int>| #[trigger]
            are_positions(input, of, virtuals[k].vreg.reg, k, ps) && is_hull(
                virtuals[k],
                frags_of(input, virtuals[k].vreg.reg, ps),
            )
    } by {
        let g = ats[k];
        let r = groups[g].reg;
        let ps = groups[g].members;
        assert(virtuals[k].vreg.reg == r);
        lemma_group_fits(input, groups, g);
        assert forall|j: int| 0 <= j < ps.len() implies input.has(r, #[trigger] ps[j]) by {
            lemma_member(input, groups, g, j);
        }
        assert forall|p: int| input.has(r, p) implies (#[trigger] of(r, p) == k
            <==> ps.contains(p)) by {
            let w = slot(groups, r, p);
            assert(ats[of(r, p)] == w.0);
            if ps.contains(p) {
                let a = choose|a: int| 0 <= a < ps.len() && ps[a] == p;
                lemma_slot_unique(input, groups, r, p, w, (g, a));
            }
            if of(r, p) == k {
                assert(ps[w.1] == p);
            }
        }
        assert(are_positions(input, of, r, k, ps));
        assert(frags_of(input, r, ps) =~= pieces[g].frags) by {
            assert forall|j: int| 0 <= j < ps.len() implies frags_of(input, r, ps)[j]
                == pieces[g].frags[j] by {
                lemma_member(input, groups, g, j);
            }
        }
        lemma_hull(virtuals[k], k, r, pieces[g].frags);
    }
    assert forall|r: Reg, p: int, q: int|
        input.has(r, p) && input.has(r, q) && r.bits >= 0x8000_0000 && leads_to(
            input,
            r,
            p,
            q,
        ) implies #[trigger] of(r, p) == #[trigger] of(r, q) by {
        let v = slot(groups, r, p);
        let w = slot(groups, r, q);
        assert(0 <= of(r, p) && 0 <= of(r, q));
        assert(linked(input.succs, input.ms(r), p, q));
        lemma_connected_linked(input.succs, input.ms(r), p, q);
        lemma_members_joined(input, groups, v.0, v.1, w.0, w.1);
    }
    assert forall|r: Reg, s: Set<int>, p: int, q: int|
        input.has(r, p) && input.has(r, q) && r.bits >= 0x8000_0000 && #[trigger] is_closed(
            input,
            r,
            s,
        ) && #[trigger] of(r, p) == #[trigger] of(r, q) implies (s.contains(p) <==> s.contains(
        q,
    )) by {
        let v = slot(groups, r, p);
        let w = slot(groups, r, q);
        assert(0 <= of(r, p) && 0 <= of(r, q));
        lemma_members_joined(input, groups, v.0, v.1, w.0, w.1);
        let path = choose|path: Seq<int>| #[trigger]
            is_path(input.succs, input.ms(r), path) && path[0] == p && path.last() == q;
        lemma_closed_path(input, r, s, path, path.len() - 1);
    }
    lemma_virtual_at_ascends(groups);
    assert forall|j: int, k: int, l: int|
        0 <= j < k < l < virtuals.len() && (#[trigger] virtuals[j]).vreg.reg == (
        #[trigger] virtuals[l]).vreg.reg implies (#[trigger] virtuals[k]).vreg.reg
        == virtuals[j].vreg.reg by {
        assert(ats[j] < ats[k] < ats[l]);
        assert(groups[ats[j]].reg == groups[ats[l]].reg);
        assert(groups[ats[k]].reg == groups[ats[j]].reg);
    }
    assert forall|r: Reg, p: int, q: int|
        input.has(r, p) && input.has(r, q) && r.bits >= 0x8000_0000 && p != q
            && input.metrics[input.lists[r][p].ix as int].kind is Local && (
        input.metrics[input.lists[r][q].ix as int].kind is Local ==> p < q) implies #[trigger] of(
        r,
        p,
    ) < #[trigger] of(r, q) by {
        let v = slot(groups, r, p);
        let w = slot(groups, r, q);
        assert(0 <= of(r, p) && 0 <= of(r, q));
        lemma_local_first(input, groups, r, p, q, v, w);
        if of(r, q) <= of(r, p) {
            assert(ats[of(r, q)] <= ats[of(r, p)]);
        }
    }
    of
}

/// What merging does with the fragments of real registers: the fixed interval at index `k` belongs
/// to the register that the universe has there, and holds each listed fragment of each real
/// register with that index once, and nothing else.
pub proof fn lemma_merged_fixed(
    univ: RealRegUniverse,
    input: MergeInput,
    fixeds: Seq<FixedInterval>,
    virtuals: Seq<VirtualInterval>,
    k: int,
) -> (from: Seq<(Reg, int)>)
    requires
        are_merged(univ, input, fixeds, virtuals),
        0 <= k < univ.regs@.len(),
    ensures
        fixeds.len() == univ.regs@.len(),
        fixeds[k].reg == univ.regs@[k].0,
        from.len() == fixeds[k].frags@.len(),
        from.no_duplicates(),
        forall|w: (Reg, int)| #[trigger]
            from.contains(w) <==> input.has(w.0, w.1) && w.0.bits < 0x8000_0000 && w.0.bits % 256
                == k,
        forall|j: int|
            0 <= j < from.len() ==> {
                let f = input.frags[input.lists[(#[trigger] from[j]).0][from[j].1].ix as int];
                &&& fixeds[k].frags@[j].first.bits == f.first
                &&& fixeds[k].frags@[j].last.bits == f.last
                &&& fixeds[k].frags@[j].mentions@ == f.mentions
            },
{
    let groups = choose|groups: Seq<Group>|
        {
            &&& #[trigger] are_groups(input.lists, input.metrics, input.succs, groups)
            &&& are_intervals(
                univ,
                group_pieces(input.lists, input.frags, groups),
                fixeds,
                virtuals,
            )
        };
    lemma_real_at(input, groups, k);
    let ats = real_at(groups, k);
    let all = real_frags(group_pieces(input.lists, input.frags, groups), k);
    let name = |w: (int, int)| (groups[w.0].reg, groups[w.0].members[w.1]);
    let from = ats.map_values(name);
    assert(fixeds[k].reg == univ.regs@[k].0);
    assert(frag_views(fixeds[k].frags@) == all);
    assert(frag_views(fixeds[k].frags@).len() == fixeds[k].frags@.len());
    assert forall|j: int| 0 <= j < ats.len() implies is_real_member(groups, k, #[trigger] ats[j])
        && is_slot(groups, from[j].0, from[j].1, ats[j]) by {
        assert(ats.contains(ats[j]));
    }
    assert forall|i: int, j: int|
        0 <= i < from.len() && 0 <= j < from.len() && i != j implies from[i] != from[j] by {
        assert(is_slot(groups, from[i].0, from[i].1, ats[i]));
        assert(is_slot(groups, from[j].0, from[j].1, ats[j]));
        if from[i] == from[j] {
            lemma_slot_unique(input, groups, from[i].0, from[i].1, ats[i], ats[j]);
        }
    }
    assert forall|w: (Reg, int)| #[trigger]
        from.contains(w) <==> input.has(w.0, w.1) && w.0.bits < 0x8000_0000 && w.0.bits % 256
            == k by {
        if from.contains(w) {
            let j = choose|j: int| 0 <= j < from.len() && from[j] == w;
            assert(is_real_member(groups, k, ats[j]));
            lemma_member(input, groups, ats[j].0, ats[j].1);
        }
        if input.has(w.0, w.1) && w.0.bits < 0x8000_0000 && w.0.bits % 256 == k {
            lemma_slot(input, groups, w.0, w.1);
            let z = slot(groups, w.0, w.1);
            assert(is_real_member(groups, k, z));
            assert(ats.contains(z));
            let j = choose|j: int| 0 <= j < ats.len() && ats[j] == z;
            assert(from[j] == w);
        }
    }
    assert forall|j: int| 0 <= j < from.len() implies {
        let f = input.frags[input.lists[(#[trigger] from[j]).0][from[j].1].ix as int];
        &&& fixeds[k].frags@[j].first.bits == f.first
        &&& fixeds[k].frags@[j].last.bits == f.last
        &&& fixeds[k].frags@[j].mentions@ == f.mentions
    } by {
        assert(all[j] == member_frag(input, groups, ats[j]));
        assert(frag_views(fixeds[k].frags@)[j] == fixeds[k].frags@[j]@);
    }
    from
}

/// Merging is asked only of fragments whose blocks are known where liveness flows out of them, and
/// of registers with several fragments.
pub proof fn lemma_merge_accepts(
    lists: Map<Reg, Seq<RangeFragIx>>,
    metrics: Seq<RangeFragMetrics>,
    n: int,
)
    requires
        forall|r: Reg, p: int|
            lists.contains_key(r) && lists[r].len() >= 2 && 0 <= p < lists[r].len() && (
            metrics[(#[trigger] lists[r][p]).ix as int].kind is LiveOut
                || metrics[lists[r][p].ix as int].kind is Thru)
                ==> metrics[lists[r][p].ix as int].bix.ix < n,
    ensures
        flows_known(lists, metrics, n),
{
    assert forall|r: Reg| #[trigger] lists.contains_key(r) implies outflows_known(
        metrics_of(metrics, lists[r]),
        n,
    ) by {
        let ms = metrics_of(metrics, lists[r]);
        assert forall|p: int|
            ms.len() >= 2 && 0 <= p < ms.len() && flows_out(#[trigger] ms[p]) implies ms[p].bix.ix
            < n by {
            assert(ms[p] == metrics[lists[r][p].ix as int]);
        }
    }
}

} // verus!
