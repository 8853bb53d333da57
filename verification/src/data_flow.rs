//! Which registers are live where blocks start and end.

use crate::control_flow::{succs_ok, CFGInfo};
use crate::data_structures::{BlockIx, InsnRegs, InstRange, Reg, RegVecsAndBounds};
use crate::function::{Function, FunctionModel};
use crate::seq_facts::lemma_take_contains;
use crate::sparse_set::{all_wf, set_views, SparseSet};
use vstd::prelude::*;

verus! {

/// The instructions of the block before `end` write the register.
pub open spec fn writes_up_to(code: Seq<InsnRegs>, block: InstRange, end: int, r: Reg) -> bool {
    exists|i: int| block.lo() <= i < end && (#[trigger] code[i]).writes(r)
}

/// An instruction of the block before `end` reads the register, and none before that
/// instruction writes it.
pub open spec fn uses_up_to(code: Seq<InsnRegs>, block: InstRange, end: int, r: Reg) -> bool {
    exists|i: int|
        block.lo() <= i < end && (#[trigger] code[i]).reads(r) && !writes_up_to(code, block, i, r)
}

/// The registers that the block writes.
pub open spec fn def_set(code: Seq<InsnRegs>, block: InstRange) -> Set<Reg> {
    Set::new(|r: Reg| writes_up_to(code, block, block.hi(), r))
}

/// The registers that the block reads before it writes them.
pub open spec fn use_set(code: Seq<InsnRegs>, block: InstRange) -> Set<Reg> {
    Set::new(|r: Reg| uses_up_to(code, block, block.hi(), r))
}

/// [`def_set`] for each block.
pub open spec fn def_sets(model: FunctionModel, code: Seq<InsnRegs>) -> Seq<Set<Reg>> {
    model.blocks.map_values(|block: InstRange| def_set(code, block))
}

/// [`use_set`] for each block.
pub open spec fn use_sets(model: FunctionModel, code: Seq<InsnRegs>) -> Seq<Set<Reg>> {
    model.blocks.map_values(|block: InstRange| use_set(code, block))
}

/// A path through the blocks along which the value of `r` is handed on to a read: the last block
/// reads `r` before it writes it, and those before do not write it.
pub open spec fn is_live_path(
    defs: Seq<Set<Reg>>,
    uses: Seq<Set<Reg>>,
    succs: Seq<Seq<BlockIx>>,
    r: Reg,
    path: Seq<BlockIx>,
) -> bool {
    &&& path.len() >= 1
    &&& forall|k: int| 0 <= k < path.len() ==> (#[trigger] path[k]).ix < succs.len()
    &&& forall|k: int|
        0 <= k < path.len() - 1 ==> {
            &&& succs[(#[trigger] path[k]).ix as int].contains(path[k + 1])
            &&& !defs[path[k].ix as int].contains(r)
        }
    &&& uses[path.last().ix as int].contains(r)
}

/// The register is live where block `b` starts: some path from there leads to a read of the
/// value that it holds.
pub open spec fn live_in(
    defs: Seq<Set<Reg>>,
    uses: Seq<Set<Reg>>,
    succs: Seq<Seq<BlockIx>>,
    b: int,
    r: Reg,
) -> bool {
    exists|path: Seq<BlockIx>| #[trigger]
        is_live_path(defs, uses, succs, r, path) && path[0].ix == b
}

/// The register is live where block `b` ends: it is live where some successor starts.
pub open spec fn live_out(
    defs: Seq<Set<Reg>>,
    uses: Seq<Set<Reg>>,
    succs: Seq<Seq<BlockIx>>,
    b: int,
    r: Reg,
) -> bool {
    exists|s: BlockIx| #[trigger]
        succs[b].contains(s) && live_in(defs, uses, succs, s.ix as int, r)
}

/// Liveness at the start of a block follows from that at its end: a register is live there if
/// the block reads it before writing it, or if it is live at the end and the block does not
/// write it.
pub proof fn lemma_live_in_step(
    defs: Seq<Set<Reg>>,
    uses: Seq<Set<Reg>>,
    succs: Seq<Seq<BlockIx>>,
    b: BlockIx,
    r: Reg,
)
    requires
        succs_ok(succs),
        b.ix < succs.len(),
    ensures
        live_in(defs, uses, succs, b.ix as int, r) <==> {
            ||| uses[b.ix as int].contains(r)
            ||| live_out(defs, uses, succs, b.ix as int, r) && !defs[b.ix as int].contains(r)
        },
{
    if uses[b.ix as int].contains(r) {
        assert(is_live_path(defs, uses, succs, r, seq![b]));
    }
    if live_out(defs, uses, succs, b.ix as int, r) && !defs[b.ix as int].contains(r) {
        let s = choose|s: BlockIx| #[trigger]
            succs[b.ix as int].contains(s) && live_in(defs, uses, succs, s.ix as int, r);
        let path = choose|path: Seq<BlockIx>| #[trigger]
            is_live_path(defs, uses, succs, r, path) && path[0].ix == s.ix;
        let longer = seq![b] + path;
        assert forall|k: int| 0 <= k < longer.len() - 1 implies {
            &&& succs[(#[trigger] longer[k]).ix as int].contains(longer[k + 1])
            &&& !defs[longer[k].ix as int].contains(r)
        } by {
            if k > 0 {
                assert(longer[k] == path[k - 1]);
                assert(longer[k + 1] == path[k - 1 + 1]);
            } else {
                assert(longer[1] == path[0]);
                assert(path[0] == s);
            }
        }
        assert(longer.last() == path.last());
        assert(is_live_path(defs, uses, succs, r, longer));
        assert(longer[0].ix == b.ix);
    }
    if live_in(defs, uses, succs, b.ix as int, r) {
        let path = choose|path: Seq<BlockIx>| #[trigger]
            is_live_path(defs, uses, succs, r, path) && path[0].ix == b.ix;
        assert(path[0] == b);
        if path.len() > 1 {
            let shorter = path.drop_first();
            assert forall|k: int| 0 <= k < shorter.len() - 1 implies {
                &&& succs[(#[trigger] shorter[k]).ix as int].contains(shorter[k + 1])
                &&& !defs[shorter[k].ix as int].contains(r)
            } by {
                assert(shorter[k] == path[k + 1]);
                assert(shorter[k + 1] == path[k + 1 + 1]);
            }
            assert(is_live_path(defs, uses, succs, r, shorter));
            assert(succs[path[0].ix as int].contains(path[1]));
            assert(live_in(defs, uses, succs, path[1].ix as int, r));
        }
    }
}

/// Works out, for each block, the registers that it writes, and those that it reads before it
/// writes them.
pub fn calc_def_and_use<F: Function>(func: &F, rvb: &RegVecsAndBounds) -> (r: (
    Vec<SparseSet>,
    Vec<SparseSet>,
))
    requires
        func.model().ok(),
        forall|b: int|
            0 <= b < func.model().blocks.len() ==> rvb.ok_in(#[trigger] func.model().blocks[b]),
    ensures
        all_wf(r.0@),
        all_wf(r.1@),
        set_views(r.0@) == def_sets(func.model(), rvb@),
        set_views(r.1@) == use_sets(func.model(), rvb@),
{
    let ghost model = func.model();
    let mut all_defs: Vec<SparseSet> = Vec::new();
    let mut all_uses: Vec<SparseSet> = Vec::new();
    let num_blocks: u32 = func.blocks().len;
    let mut b: u32 = 0;
    while b < num_blocks
        invariant
            model == func.model(),
            model.ok(),
            b <= num_blocks == model.blocks.len(),
            forall|b: int|
                0 <= b < model.blocks.len() ==> rvb.ok_in(#[trigger] model.blocks[b]),
            all_wf(all_defs@),
            all_wf(all_uses@),
            all_defs@.len() == all_uses@.len() == b,
            forall|k: int|
                0 <= k < b ==> (#[trigger] all_defs@[k])@ == def_set(rvb@, model.blocks[k]),
            forall|k: int|
                0 <= k < b ==> (#[trigger] all_uses@[k])@ == use_set(rvb@, model.blocks[k]),
        decreases num_blocks - b,
    {
        let block = func.block_insns(BlockIx { ix: b });
        let (defs, uses) = def_and_use_of_block(block, rvb);
        all_defs.push(defs);
        all_uses.push(uses);
        b += 1;
    }
    proof {
        assert(set_views(all_defs@) =~= def_sets(model, rvb@));
        assert(set_views(all_uses@) =~= use_sets(model, rvb@));
    }
    (all_defs, all_uses)
}

/// Adds those of the first registers of a list that a set does not hold to another.
fn add_unless(to: &mut SparseSet, v: &Vec<Reg>, start: u32, len: u32, except: &SparseSet)
    requires
        old(to).wf(),
        except.wf(),
        start + len <= v@.len(),
    ensures
        final(to).wf(),
        forall|r: Reg| #[trigger]
            final(to)@.contains(r) <==> old(to)@.contains(r) || v@.subrange(
                start as int,
                start + len,
            ).contains(r) && !except@.contains(r),
{
    let ghost list = v@.subrange(start as int, start + len);
    let total: usize = v.len();
    let mut j: u32 = 0;
    while j < len
        invariant
            j <= len == list.len(),
            start + len <= total == v@.len(),
            list == v@.subrange(start as int, start + len),
            to.wf(),
            except.wf(),
            forall|r: Reg| #[trigger]
                to@.contains(r) <==> old(to)@.contains(r) || list.take(j as int).contains(r)
                    && !except@.contains(r),
        decreases len - j,
    {
        let r = v[start as usize + j as usize];
        assert(r == list[j as int]);
        let ghost before = to@;
        if !except.contains(r) {
            to.insert(r);
        }
        proof {
            assert forall|x: Reg| #[trigger]
                to@.contains(x) <==> old(to)@.contains(x) || list.take(j + 1).contains(x)
                    && !except@.contains(x) by {
                lemma_take_contains(list, j as int, x);
                assert(before.contains(x) <==> old(to)@.contains(x) || list.take(
                    j as int,
                ).contains(x) && !except@.contains(x));
            }
        }
        j += 1;
    }
    assert(list.take(j as int) =~= list);
}

/// The registers that a block writes, and those that it reads before it writes them.
fn def_and_use_of_block(block: InstRange, rvb: &RegVecsAndBounds) -> (r: (SparseSet, SparseSet))
    requires
        block.ok(),
        rvb.ok_in(block),
    ensures
        r.0.wf(),
        r.1.wf(),
        r.0@ == def_set(rvb@, block),
        r.1@ == use_set(rvb@, block),
{
    let ghost code = rvb@;
    let nothing = SparseSet::empty();
    let mut defs = SparseSet::empty();
    let mut uses = SparseSet::empty();
    let mut n: u32 = 0;
    while n < block.len()
        invariant
            n <= block.len,
            block.ok(),
            rvb.ok_in(block),
            code == rvb@,
            nothing.wf(),
            nothing@ == Set::<Reg>::empty(),
            defs.wf(),
            uses.wf(),
            forall|r: Reg| #[trigger]
                defs@.contains(r) <==> writes_up_to(code, block, block.lo() + n, r),
            forall|r: Reg| #[trigger]
                uses@.contains(r) <==> uses_up_to(code, block, block.lo() + n, r),
        decreases block.len - n,
    {
        let ix: u32 = block.first().ix + n;
        let ghost i = ix as int;
        let bounds = rvb.bounds[ix as usize];
        assert(rvb.bounds_ok(i));
        let ghost defs0 = defs@;
        let ghost uses0 = uses@;
        add_unless(&mut uses, &rvb.vecs.uses, bounds.uses_start, bounds.uses_len, &defs);
        add_unless(&mut uses, &rvb.vecs.mods, bounds.mods_start, bounds.mods_len, &defs);
        add_unless(&mut defs, &rvb.vecs.mods, bounds.mods_start, bounds.mods_len, &nothing);
        add_unless(&mut defs, &rvb.vecs.defs, bounds.defs_start, bounds.defs_len, &nothing);
        proof {
            assert forall|r: Reg| #[trigger]
                defs@.contains(r) <==> writes_up_to(code, block, i + 1, r) by {
                assert(defs@.contains(r) <==> defs0.contains(r) || code[i].writes(r));
                if writes_up_to(code, block, i, r) {
                    let k = choose|k: int| block.lo() <= k < i && (#[trigger] code[k]).writes(r);
                    assert(code[k].writes(r));
                }
                if code[i].writes(r) {
                    assert(writes_up_to(code, block, i + 1, r));
                }
                if writes_up_to(code, block, i + 1, r) && !code[i].writes(r) {
                    let k = choose|k: int|
                        block.lo() <= k < i + 1 && (#[trigger] code[k]).writes(r);
                    assert(k < i);
                }
            }
            assert forall|r: Reg| #[trigger]
                uses@.contains(r) <==> uses_up_to(code, block, i + 1, r) by {
                assert(uses@.contains(r) <==> uses0.contains(r) || code[i].reads(r)
                    && !defs0.contains(r));
                if uses_up_to(code, block, i, r) {
                    let k = choose|k: int|
                        block.lo() <= k < i && (#[trigger] code[k]).reads(r) && !writes_up_to(
                            code,
                            block,
                            k,
                            r,
                        );
                    assert(code[k].reads(r));
                }
                if code[i].reads(r) && !defs0.contains(r) {
                    assert(uses_up_to(code, block, i + 1, r));
                }
                if uses_up_to(code, block, i + 1, r) && !(code[i].reads(r) && !defs0.contains(r)) {
                    let k = choose|k: int|
                        block.lo() <= k < i + 1 && (#[trigger] code[k]).reads(r) && !writes_up_to(
                            code,
                            block,
                            k,
                            r,
                        );
                    assert(k < i);
                }
            }
        }
        n += 1;
    }
    proof {
        assert(defs@ =~= def_set(code, block));
        assert(uses@ =~= use_set(code, block));
    }
    (defs, uses)
}

/// The registers of some sets.
spec fn union_of(sets: Seq<Set<Reg>>) -> Set<Reg>
    decreases sets.len(),
{
    if sets.len() == 0 {
        Set::empty()
    } else {
        union_of(sets.drop_last()).union(sets.last())
    }
}

proof fn lemma_union_of(sets: Seq<Set<Reg>>)
    requires
        forall|k: int| 0 <= k < sets.len() ==> (#[trigger] sets[k]).finite(),
    ensures
        union_of(sets).finite(),
        forall|k: int, r: Reg|
            0 <= k < sets.len() && #[trigger] sets[k].contains(r) ==> union_of(sets).contains(r),
    decreases sets.len(),
{
    if sets.len() > 0 {
        let rest = sets.drop_last();
        assert forall|k: int| 0 <= k < rest.len() implies (#[trigger] rest[k]).finite() by {
            assert(sets[k].finite());
        }
        lemma_union_of(rest);
        assert(sets[sets.len() - 1].finite());
        assert forall|k: int, r: Reg|
            0 <= k < sets.len() && #[trigger] sets[k].contains(r) implies union_of(
            sets,
        ).contains(r) by {
            if k < rest.len() {
                assert(rest[k].contains(r));
            }
        }
    }
}

/// How many elements some sets hold together.
spec fn total(sets: Seq<Set<Reg>>) -> int
    decreases sets.len(),
{
    if sets.len() == 0 {
        0
    } else {
        total(sets.drop_last()) + sets.last().len()
    }
}

proof fn lemma_total_update(sets: Seq<Set<Reg>>, k: int, s: Set<Reg>)
    requires
        0 <= k < sets.len(),
    ensures
        total(sets.update(k, s)) == total(sets) - sets[k].len() + s.len(),
    decreases sets.len(),
{
    let new = sets.update(k, s);
    if k == sets.len() - 1 {
        assert(new.drop_last() =~= sets.drop_last());
    } else {
        assert(new.drop_last() =~= sets.drop_last().update(k, s));
        lemma_total_update(sets.drop_last(), k, s);
    }
}

proof fn lemma_total_bound(sets: Seq<Set<Reg>>, bound: Set<Reg>)
    requires
        bound.finite(),
        forall|k: int| 0 <= k < sets.len() ==> (#[trigger] sets[k]).subset_of(bound),
    ensures
        total(sets) <= sets.len() * bound.len(),
    decreases sets.len(),
{
    if sets.len() > 0 {
        let rest = sets.drop_last();
        assert forall|k: int| 0 <= k < rest.len() implies (#[trigger] rest[k]).subset_of(
            bound,
        ) by {
            assert(sets[k].subset_of(bound));
        }
        lemma_total_bound(rest, bound);
        assert(sets[sets.len() - 1].subset_of(bound));
        vstd::set_lib::lemma_len_subset(sets.last(), bound);
        assert(sets.len() * bound.len() == (sets.len() - 1) * bound.len() + bound.len())
            by (nonlinear_arith);
    }
}

/// A liveness problem: what the blocks write and read, and where they may jump.
struct Flow {
    defs: Seq<Set<Reg>>,
    uses: Seq<Set<Reg>>,
    succs: Seq<Seq<BlockIx>>,
}

impl Flow {
    spec fn ok(self) -> bool {
        &&& self.defs.len() == self.uses.len() == self.succs.len() <= u32::MAX
        &&& succs_ok(self.succs)
        &&& forall|k: int| 0 <= k < self.uses.len() ==> (#[trigger] self.uses[k]).finite()
    }

    /// What the sets of an unfinished computation hold is live, and they hold at least what the
    /// blocks read themselves.
    spec fn sound(self, ins: Seq<Set<Reg>>, outs: Seq<Set<Reg>>) -> bool {
        &&& ins.len() == outs.len() == self.succs.len()
        &&& forall|b: int| 0 <= b < ins.len() ==> self.sound_at(b, #[trigger] ins[b], outs[b])
    }

    spec fn sound_at(self, b: int, live_in_b: Set<Reg>, live_out_b: Set<Reg>) -> bool {
        &&& self.uses[b].subset_of(live_in_b)
        &&& live_in_b.subset_of(union_of(self.uses))
        &&& live_out_b.subset_of(union_of(self.uses))
        &&& forall|r: Reg| #[trigger]
            live_in_b.contains(r) ==> live_in(self.defs, self.uses, self.succs, b, r)
        &&& forall|r: Reg| #[trigger]
            live_out_b.contains(r) ==> live_out(self.defs, self.uses, self.succs, b, r)
    }

    proof fn lemma_totals(self, ins: Seq<Set<Reg>>, outs: Seq<Set<Reg>>)
        requires
            self.ok(),
            self.sound(ins, outs),
        ensures
            union_of(self.uses).finite(),
            total(ins) + total(outs) <= 2 * (self.succs.len() * union_of(self.uses).len()),
    {
        let bound = union_of(self.uses);
        lemma_union_of(self.uses);
        assert forall|k: int| 0 <= k < ins.len() implies (#[trigger] ins[k]).subset_of(bound) by {
            assert(self.sound_at(k, ins[k], outs[k]));
        }
        assert forall|k: int| 0 <= k < outs.len() implies (#[trigger] outs[k]).subset_of(
            bound,
        ) by {
            assert(self.sound_at(k, ins[k], outs[k]));
        }
        lemma_total_bound(ins, bound);
        lemma_total_bound(outs, bound);
    }

    /// Nothing more follows for block `b`.
    spec fn closed_at(self, ins: Seq<Set<Reg>>, outs: Seq<Set<Reg>>, b: int) -> bool {
        &&& forall|s: BlockIx| #[trigger]
            self.succs[b].contains(s) ==> ins[s.ix as int].subset_of(outs[b])
        &&& outs[b].subset_of(ins[b].union(self.defs[b]))
    }

    /// A computation from which nothing more follows has found all that is live.
    proof fn lemma_complete(
        self,
        ins: Seq<Set<Reg>>,
        outs: Seq<Set<Reg>>,
        r: Reg,
        path: Seq<BlockIx>,
    )
        requires
            self.ok(),
            self.sound(ins, outs),
            forall|b: int| 0 <= b < ins.len() ==> #[trigger] self.closed_at(ins, outs, b),
            is_live_path(self.defs, self.uses, self.succs, r, path),
        ensures
            ins[path[0].ix as int].contains(r),
        decreases path.len(),
    {
        let b = path[0].ix as int;
        assert(self.sound_at(b, ins[b], outs[b]));
        if path.len() > 1 {
            let shorter = path.drop_first();
            assert forall|k: int| 0 <= k < shorter.len() - 1 implies {
                &&& self.succs[(#[trigger] shorter[k]).ix as int].contains(shorter[k + 1])
                &&& !self.defs[shorter[k].ix as int].contains(r)
            } by {
                assert(shorter[k] == path[k + 1]);
                assert(shorter[k + 1] == path[k + 1 + 1]);
            }
            self.lemma_complete(ins, outs, r, shorter);
            assert(self.succs[path[0].ix as int].contains(path[1]));
            assert(self.closed_at(ins, outs, b));
        }
    }
}

/// Adds to the live-out set of a block what is live into its successors, and to its live-in set
/// what follows from that; true if one of the sets grew.
fn eval_block(
    liveins: &mut Vec<SparseSet>,
    liveouts: &mut Vec<SparseSet>,
    def_sets: &Vec<SparseSet>,
    cfg_info: &CFGInfo,
    b: usize,
    Ghost(flow): Ghost<Flow>,
) -> (changed: bool)
    requires
        flow.ok(),
        flow.defs == set_views(def_sets@),
        flow.succs == cfg_info.succs(),
        all_wf(old(liveins)@),
        all_wf(old(liveouts)@),
        all_wf(def_sets@),
        flow.sound(set_views(old(liveins)@), set_views(old(liveouts)@)),
        b < old(liveins)@.len(),
    ensures
        all_wf(final(liveins)@),
        all_wf(final(liveouts)@),
        flow.sound(set_views(final(liveins)@), set_views(final(liveouts)@)),
        !changed ==> {
            &&& set_views(final(liveins)@) == set_views(old(liveins)@)
            &&& set_views(final(liveouts)@) == set_views(old(liveouts)@)
            &&& flow.closed_at(set_views(final(liveins)@), set_views(final(liveouts)@), b as int)
        },
        ({
            let before = total(set_views(old(liveins)@)) + total(set_views(old(liveouts)@));
            let after = total(set_views(final(liveins)@)) + total(set_views(final(liveouts)@));
            before <= after && (changed ==> before < after)
        }),
{
    let ghost ins0 = set_views(liveins@);
    let ghost outs0 = set_views(liveouts@);
    let ghost n = flow.succs.len();
    proof {
        lemma_union_of(flow.uses);
    }
    let targets = &cfg_info.succ_map[b];
    assert(targets@ == flow.succs[b as int]);
    let mut changed = false;
    let mut s: usize = 0;
    while s < targets.len()
        invariant
            s <= targets@.len(),
            flow.ok(),
            union_of(flow.uses).finite(),
            n == flow.succs.len(),
            targets@ == flow.succs[b as int],
            b < n,
            all_wf(liveins@),
            all_wf(liveouts@),
            set_views(liveins@) == ins0,
            flow.sound(ins0, set_views(liveouts@)),
            !changed ==> set_views(liveouts@) == outs0,
            total(outs0) <= total(set_views(liveouts@)),
            changed ==> total(outs0) < total(set_views(liveouts@)),
            forall|k: int|
                0 <= k < s ==> ins0[(#[trigger] targets@[k]).ix as int].subset_of(
                    set_views(liveouts@)[b as int],
                ),
        decreases targets@.len() - s,
    {
        let t: usize = targets[s].ix as usize;
        let ghost outs1 = set_views(liveouts@);
        proof {
            assert(flow.succs[b as int][s as int].ix < n);
            assert(flow.succs[b as int].contains(targets@[s as int]));
            assert(flow.sound_at(t as int, ins0[t as int], outs1[t as int]));
            assert(flow.sound_at(b as int, ins0[b as int], outs1[b as int]));
            assert(liveins@[t as int]@ == ins0[t as int]);
        }
        let grew = liveouts[b].union(&liveins[t]);
        proof {
            let outs2 = set_views(liveouts@);
            let new = outs1[b as int].union(ins0[t as int]);
            assert(outs2 =~= outs1.update(b as int, new));
            lemma_total_update(outs1, b as int, new);
            lemma_grown(outs1[b as int], new, union_of(flow.uses));
            assert(flow.sound(ins0, outs2)) by {
                assert forall|c: int| 0 <= c < n implies flow.sound_at(
                    c,
                    #[trigger] ins0[c],
                    outs2[c],
                ) by {
                    assert(flow.sound_at(c, ins0[c], outs1[c]));
                    if c == b {
                        assert forall|r: Reg| #[trigger] new.contains(r) implies live_out(
                            flow.defs,
                            flow.uses,
                            flow.succs,
                            c,
                            r,
                        ) by {
                            if ins0[t as int].contains(r) {
                                assert(live_in(flow.defs, flow.uses, flow.succs, t as int, r));
                            }
                        }
                    }
                }
            }
            if grew {
                assert(new != outs1[b as int]);
            } else {
                assert(new =~= outs1[b as int]);
                assert(outs2 =~= outs1);
            }
            assert forall|k: int| 0 <= k < s + 1 implies ins0[(
            #[trigger] targets@[k]).ix as int].subset_of(outs2[b as int]) by {
                if k < s {
                    assert(ins0[targets@[k].ix as int].subset_of(outs1[b as int]));
                }
            }
        }
        changed = changed || grew;
        s += 1;
    }
    let ghost outs = set_views(liveouts@);
    let ghost order = liveouts@[b as int].order();
    assert(liveouts@[b as int]@ == outs[b as int]);
    let leaving = liveouts[b].elems();
    let mut k: usize = 0;
    while k < leaving.len()
        invariant
            k <= leaving@.len(),
            leaving@ == order,
            order.to_set() == outs[b as int],
            flow.ok(),
            union_of(flow.uses).finite(),
            n == flow.succs.len() == ins0.len() == outs.len(),
            flow.defs == set_views(def_sets@),
            b < n,
            all_wf(liveins@),
            all_wf(def_sets@),
            flow.sound(set_views(liveins@), outs),
            !changed ==> {
                &&& set_views(liveins@) == ins0
                &&& outs == outs0
            },
            total(ins0) + total(outs0) <= total(set_views(liveins@)) + total(outs),
            changed ==> total(ins0) + total(outs0) < total(set_views(liveins@)) + total(outs),
            forall|j: int|
                0 <= j < k ==> set_views(liveins@)[b as int].contains(#[trigger] order[j])
                    || flow.defs[b as int].contains(order[j]),
        decreases leaving@.len() - k,
    {
        let r = leaving[k];
        let ghost ins1 = set_views(liveins@);
        proof {
            assert(flow.sound_at(b as int, ins1[b as int], outs[b as int]));
            assert(outs[b as int].contains(r)) by {
                assert(order.contains(order[k as int]));
            }
            assert(def_sets@[b as int]@ == flow.defs[b as int]);
        }
        if !def_sets[b].contains(r) {
            let grew = liveins[b].insert(r);
            proof {
                let ins2 = set_views(liveins@);
                let new = ins1[b as int].insert(r);
                assert(ins2 =~= ins1.update(b as int, new));
                lemma_total_update(ins1, b as int, new);
                lemma_grown(ins1[b as int], new, union_of(flow.uses));
                assert(flow.sound(ins2, outs)) by {
                    assert forall|c: int| 0 <= c < n implies flow.sound_at(
                        c,
                        #[trigger] ins2[c],
                        outs[c],
                    ) by {
                        assert(flow.sound_at(c, ins1[c], outs[c]));
                        if c == b {
                            lemma_live_in_step(
                                flow.defs,
                                flow.uses,
                                flow.succs,
                                BlockIx { ix: b as u32 },
                                r,
                            );
                        }
                    }
                }
                if !grew {
                    assert(new =~= ins1[b as int]);
                    assert(ins2 =~= ins1);
                }
            }
            changed = changed || grew;
        }
        k += 1;
    }
    proof {
        let ins = set_views(liveins@);
        if !changed {
            assert forall|x: BlockIx| #[trigger] flow.succs[b as int].contains(x) implies ins[
            x.ix as int].subset_of(outs[b as int]) by {
                let j = choose|j: int| 0 <= j < targets@.len() && targets@[j] == x;
                assert(ins0[targets@[j].ix as int].subset_of(outs[b as int]));
            }
            assert forall|r: Reg| outs[b as int].contains(r) implies ins[b as int].union(
                flow.defs[b as int],
            ).contains(r) by {
                assert(order.contains(r));
                let j = choose|j: int| 0 <= j < order.len() && order[j] == r;
                assert(order[j] == r);
            }
            assert(flow.closed_at(ins, outs, b as int));
        }
    }
    changed
}

/// A set that grows within bounds holds no fewer elements, and more if it is not the same.
proof fn lemma_grown(before: Set<Reg>, after: Set<Reg>, bound: Set<Reg>)
    requires
        bound.finite(),
        before.subset_of(after),
        after.subset_of(bound),
    ensures
        before.len() <= after.len(),
        before != after ==> before.len() < after.len(),
{
    vstd::set_lib::lemma_len_subset(after, bound);
    vstd::set_lib::lemma_len_subset(before, after);
    if before.len() == after.len() {
        vstd::set_lib::lemma_subset_equality(before, after);
    }
}

/// Works out the registers that are live where each block starts, and where it ends, by going
/// over the blocks until nothing changes.
pub fn calc_livein_and_liveout(
    def_sets_per_block: &Vec<SparseSet>,
    use_sets_per_block: &Vec<SparseSet>,
    cfg_info: &CFGInfo,
) -> (r: (Vec<SparseSet>, Vec<SparseSet>))
    requires
        all_wf(def_sets_per_block@),
        all_wf(use_sets_per_block@),
        def_sets_per_block@.len() == use_sets_per_block@.len(),
        cfg_info.ok(use_sets_per_block@.len()),
        use_sets_per_block@.len() <= u32::MAX,
    ensures
        all_wf(r.0@),
        all_wf(r.1@),
        r.0@.len() == use_sets_per_block@.len(),
        r.1@.len() == use_sets_per_block@.len(),
        forall|b: int, x: Reg|
            0 <= b < r.0@.len() ==> (#[trigger] r.0@[b]@.contains(x) <==> live_in(
                set_views(def_sets_per_block@),
                set_views(use_sets_per_block@),
                cfg_info.succs(),
                b,
                x,
            )),
        forall|b: int, x: Reg|
            0 <= b < r.1@.len() ==> (#[trigger] r.1@[b]@.contains(x) <==> live_out(
                set_views(def_sets_per_block@),
                set_views(use_sets_per_block@),
                cfg_info.succs(),
                b,
                x,
            )),
{
    let ghost flow = Flow {
        defs: set_views(def_sets_per_block@),
        uses: set_views(use_sets_per_block@),
        succs: cfg_info.succs(),
    };
    let n: usize = use_sets_per_block.len();
    let mut liveins: Vec<SparseSet> = Vec::new();
    let mut liveouts: Vec<SparseSet> = Vec::new();
    let mut i: usize = 0;
    while i < n
        invariant
            i <= n == use_sets_per_block@.len(),
            all_wf(use_sets_per_block@),
            all_wf(liveins@),
            all_wf(liveouts@),
            liveins@.len() == liveouts@.len() == i,
            forall|b: int|
                0 <= b < i ==> (#[trigger] liveins@[b])@ == use_sets_per_block@[b]@,
            forall|b: int| 0 <= b < i ==> (#[trigger] liveouts@[b])@ == Set::<Reg>::empty(),
        decreases n - i,
    {
        let mut start = SparseSet::empty();
        start.union(&use_sets_per_block[i]);
        assert(start@ =~= use_sets_per_block@[i as int]@);
        liveins.push(start);
        liveouts.push(SparseSet::empty());
        i += 1;
    }
    proof {
        let ins = set_views(liveins@);
        let outs = set_views(liveouts@);
        assert(flow.ok()) by {
            assert forall|k: int| 0 <= k < flow.uses.len() implies (
            #[trigger] flow.uses[k]).finite() by {
                use_sets_per_block@[k].lemma_order();
            }
        }
        lemma_union_of(flow.uses);
        assert forall|b: int| 0 <= b < ins.len() implies flow.sound_at(
            b,
            #[trigger] ins[b],
            outs[b],
        ) by {
            assert(liveins@[b]@ == use_sets_per_block@[b]@);
            assert(liveouts@[b]@ == Set::<Reg>::empty());
            assert forall|r: Reg| #[trigger] ins[b].contains(r) implies live_in(
                flow.defs,
                flow.uses,
                flow.succs,
                b,
                r,
            ) by {
                lemma_live_in_step(
                    flow.defs,
                    flow.uses,
                    flow.succs,
                    BlockIx { ix: b as u32 },
                    r,
                );
            }
            assert forall|r: Reg| #[trigger] ins[b].contains(r) implies union_of(
                flow.uses,
            ).contains(r) by {
                assert(flow.uses[b].contains(r));
            }
        }
        assert(flow.sound(ins, outs));
        flow.lemma_totals(ins, outs);
    }
    let ghost bound = union_of(flow.uses);
    let mut changed = true;
    while changed
        invariant
            flow.ok(),
            flow.defs == set_views(def_sets_per_block@),
            flow.succs == cfg_info.succs(),
            bound == union_of(flow.uses),
            bound.finite(),
            all_wf(def_sets_per_block@),
            all_wf(liveins@),
            all_wf(liveouts@),
            n == flow.succs.len(),
            flow.sound(set_views(liveins@), set_views(liveouts@)),
            total(set_views(liveins@)) + total(set_views(liveouts@)) <= 2 * (n * bound.len()),
            !changed ==> forall|b: int|
                0 <= b < n ==> #[trigger] flow.closed_at(
                    set_views(liveins@),
                    set_views(liveouts@),
                    b,
                ),
        decreases
                2 * (n * bound.len()) - total(set_views(liveins@)) - total(set_views(liveouts@)),
                if changed {
                    1int
                } else {
                    0
                },
    {
        changed = false;
        let ghost start = total(set_views(liveins@)) + total(set_views(liveouts@));
        let mut b: usize = n;
        while b > 0
            invariant
                b <= n,
                flow.ok(),
                flow.defs == set_views(def_sets_per_block@),
                flow.succs == cfg_info.succs(),
                all_wf(def_sets_per_block@),
                all_wf(liveins@),
                all_wf(liveouts@),
                n == flow.succs.len(),
                flow.sound(set_views(liveins@), set_views(liveouts@)),
                start <= total(set_views(liveins@)) + total(set_views(liveouts@)),
                changed ==> start < total(set_views(liveins@)) + total(set_views(liveouts@)),
                !changed ==> forall|c: int|
                    b <= c < n ==> #[trigger] flow.closed_at(
                        set_views(liveins@),
                        set_views(liveouts@),
                        c,
                    ),
            decreases b,
        {
            b -= 1;
            let grew = eval_block(
                &mut liveins,
                &mut liveouts,
                def_sets_per_block,
                cfg_info,
                b,
                Ghost(flow),
            );
            changed = changed || grew;
        }
        proof {
            let ins = set_views(liveins@);
            let outs = set_views(liveouts@);
            flow.lemma_totals(ins, outs);
        }
    }
    proof {
        let ins = set_views(liveins@);
        let outs = set_views(liveouts@);
        assert forall|b: int, x: Reg| 0 <= b < n && live_in(
            flow.defs,
            flow.uses,
            flow.succs,
            b,
            x,
        ) implies #[trigger] ins[b].contains(x) by {
            let path = choose|path: Seq<BlockIx>| #[trigger]
                is_live_path(flow.defs, flow.uses, flow.succs, x, path) && path[0].ix == b;
            flow.lemma_complete(ins, outs, x, path);
        }
        assert forall|b: int, x: Reg| 0 <= b < n implies (#[trigger] liveins@[b]@.contains(x)
            <==> live_in(flow.defs, flow.uses, flow.succs, b, x)) by {
            assert(flow.sound_at(b, ins[b], outs[b]));
            assert(ins[b] == liveins@[b]@);
        }
        assert forall|b: int, x: Reg| 0 <= b < n implies (#[trigger] liveouts@[b]@.contains(x)
            <==> live_out(flow.defs, flow.uses, flow.succs, b, x)) by {
            assert(flow.sound_at(b, ins[b], outs[b]));
            assert(outs[b] == liveouts@[b]@);
            if live_out(flow.defs, flow.uses, flow.succs, b, x) {
                let s = choose|s: BlockIx| #[trigger]
                    flow.succs[b].contains(s) && live_in(
                        flow.defs,
                        flow.uses,
                        flow.succs,
                        s.ix as int,
                        x,
                    );
                let k = choose|k: int| 0 <= k < flow.succs[b].len() && flow.succs[b][k] == s;
                assert(flow.succs[b][k].ix < n);
                assert(flow.closed_at(ins, outs, b));
                assert(ins[s.ix as int].contains(x));
            }
        }
    }
    (liveins, liveouts)
}

} // verus!
