//! Merging the fragments of each register, guided by the flow of liveness between blocks.

use crate::block_model::FragView;
use crate::control_flow::CFGInfo;
use crate::data_structures::{BlockIx, RangeFragIx, RealRegUniverse, Reg};
use crate::intervals::{
    flush_interval, flushed_all, is_interval, lemma_flushed_append, lemma_flushed_none,
    lemma_flushed_one, picked, real_frags, virtual_pieces, FixedInterval, Piece, VirtualInterval,
};
use crate::range_frags::{frag_views, ix_lists, RangeFrag, RangeFragKind, RangeFragMetrics};
use crate::reg_map::RegMap;
use crate::small_lists::{frag_ix_list_items, FragIxList};
use crate::seq_facts::{lemma_push_contains, lemma_same_elements, lemma_take_set};
use crate::sorting::{sort_by_key, sorted, SortKey};
use crate::union_find::{are_classes, in_some_class, UnionFind};
use vstd::prelude::*;

verus! {

/// Liveness flows out of the end of the fragment's block.
pub open spec fn flows_out(m: RangeFragMetrics) -> bool {
    m.kind is LiveOut || m.kind is Thru
}

/// Liveness flows into the start of the fragment's block.
pub open spec fn flows_in(m: RangeFragMetrics) -> bool {
    m.kind is LiveIn || m.kind is Thru
}

/// Liveness flows from one fragment of a register to another: the first reaches the end of its
/// block, the second the start of its own, and the first block may jump to the second.
pub open spec fn flows(
    succs: Seq<Seq<BlockIx>>,
    from: RangeFragMetrics,
    to: RangeFragMetrics,
) -> bool {
    flows_out(from) && flows_in(to) && succs[from.bix.ix as int].contains(to.bix)
}

/// Liveness flows between two of the fragments, in one direction or the other.
pub open spec fn linked(
    succs: Seq<Seq<BlockIx>>,
    ms: Seq<RangeFragMetrics>,
    p: int,
    q: int,
) -> bool {
    flows(succs, ms[p], ms[q]) || flows(succs, ms[q], ms[p])
}

/// A walk along the fragments in which liveness flows between neighbours.
pub open spec fn is_path(
    succs: Seq<Seq<BlockIx>>,
    ms: Seq<RangeFragMetrics>,
    path: Seq<int>,
) -> bool {
    &&& path.len() >= 1
    &&& forall|k: int| 0 <= k < path.len() ==> 0 <= #[trigger] path[k] < ms.len()
    &&& forall|k: int|
        0 <= k < path.len() - 1 ==> linked(succs, ms, #[trigger] path[k], path[k + 1])
}

/// The two fragments belong to one live range.
pub open spec fn connected(
    succs: Seq<Seq<BlockIx>>,
    ms: Seq<RangeFragMetrics>,
    p: int,
    q: int,
) -> bool {
    exists|path: Seq<int>| #[trigger]
        is_path(succs, ms, path) && path[0] == p && path.last() == q
}

/// A fragment belongs to its own live range.
pub proof fn lemma_connected_refl(succs: Seq<Seq<BlockIx>>, ms: Seq<RangeFragMetrics>, p: int)
    requires
        0 <= p < ms.len(),
    ensures
        connected(succs, ms, p, p),
{
    assert(is_path(succs, ms, seq![p]));
}

/// To belong to one live range does not depend on the order.
pub proof fn lemma_connected_sym(
    succs: Seq<Seq<BlockIx>>,
    ms: Seq<RangeFragMetrics>,
    p: int,
    q: int,
)
    requires
        connected(succs, ms, p, q),
    ensures
        connected(succs, ms, q, p),
{
    let path = choose|path: Seq<int>| #[trigger]
        is_path(succs, ms, path) && path[0] == p && path.last() == q;
    let back = path.reverse();
    assert forall|k: int| 0 <= k < back.len() - 1 implies linked(
        succs,
        ms,
        #[trigger] back[k],
        back[k + 1],
    ) by {
        let j = path.len() - 2 - k;
        assert(linked(succs, ms, path[j], path[j + 1]));
    }
    assert(is_path(succs, ms, back));
}

/// Two fragments that belong to one live range with a third belong to one.
pub proof fn lemma_connected_trans(
    succs: Seq<Seq<BlockIx>>,
    ms: Seq<RangeFragMetrics>,
    p: int,
    q: int,
    r: int,
)
    requires
        connected(succs, ms, p, q),
        connected(succs, ms, q, r),
    ensures
        connected(succs, ms, p, r),
{
    let a = choose|path: Seq<int>| #[trigger]
        is_path(succs, ms, path) && path[0] == p && path.last() == q;
    let b = choose|path: Seq<int>| #[trigger]
        is_path(succs, ms, path) && path[0] == q && path.last() == r;
    let c = a + b.drop_first();
    assert forall|k: int| 0 <= k < c.len() - 1 implies linked(
        succs,
        ms,
        #[trigger] c[k],
        c[k + 1],
    ) by {
        if k < a.len() - 1 {
            assert(linked(succs, ms, a[k], a[k + 1]));
        } else {
            let j = k - (a.len() - 1);
            assert(c[k] == b[j]);
            assert(c[k + 1] == b[j + 1]);
            assert(linked(succs, ms, b[j], b[j + 1]));
        }
    }
    assert(is_path(succs, ms, c));
    assert(c[0] == p);
    assert(c.last() == r) by {
        if b.len() > 1 {
            assert(c.last() == b.last());
        }
    }
}

/// Two fragments between which liveness flows belong to one live range.
pub proof fn lemma_connected_linked(
    succs: Seq<Seq<BlockIx>>,
    ms: Seq<RangeFragMetrics>,
    p: int,
    q: int,
)
    requires
        0 <= p < ms.len(),
        0 <= q < ms.len(),
        linked(succs, ms, p, q),
    ensures
        connected(succs, ms, p, q),
{
    assert(is_path(succs, ms, seq![p, q]));
}

/// `parts` divides the fragments of a register, given by position, into its live ranges.
pub open spec fn is_partition(
    succs: Seq<Seq<BlockIx>>,
    ms: Seq<RangeFragMetrics>,
    parts: Seq<Seq<int>>,
) -> bool {
    &&& forall|k: int| 0 <= k < parts.len() ==> part_ok(ms, #[trigger] parts[k])
    &&& forall|p: int| 0 <= p < ms.len() ==> #[trigger] in_some_part(parts, p)
    &&& forall|k: int, a: int, l: int, b: int|
        0 <= k < parts.len() && 0 <= a < parts[k].len() && 0 <= l < parts.len() && 0 <= b
            < parts[l].len() ==> (connected(
            succs,
            ms,
            #[trigger] parts[k][a],
            #[trigger] parts[l][b],
        ) <==> k == l)
    &&& forall|k: int, l: int|
        0 <= k < l < parts.len() ==> locals_first(ms, #[trigger] parts[k], #[trigger] parts[l])
}

/// The live range `b` may stand behind `a`: those of the fragments that touch no end of their
/// block come first, in the order of their fragments.
pub open spec fn locals_first(ms: Seq<RangeFragMetrics>, a: Seq<int>, b: Seq<int>) -> bool {
    ms[b[0]].kind is Local ==> ms[a[0]].kind is Local && a[0] < b[0]
}

/// The part is not empty, and lists positions of fragments, each once.
pub open spec fn part_ok(ms: Seq<RangeFragMetrics>, part: Seq<int>) -> bool {
    &&& part.len() >= 1
    &&& part.no_duplicates()
    &&& forall|a: int| 0 <= a < part.len() ==> 0 <= #[trigger] part[a] < ms.len()
}

/// The position is in one of the parts.
pub open spec fn in_some_part(parts: Seq<Seq<int>>, p: int) -> bool {
    exists|k: int| 0 <= k < parts.len() && (#[trigger] parts[k]).contains(p)
}

/// A fragment that reaches an end of its block: its position among the fragments of its register,
/// its kind and its block.
#[derive(Clone, Copy)]
struct Triple {
    pos: usize,
    kind: RangeFragKind,
    bix: BlockIx,
}

impl SortKey for Triple {
    closed spec fn key(&self) -> int {
        self.bix.ix as int
    }

    fn sort_key(&self) -> u64 {
        self.bix.ix as u64
    }
}

/// The blocks and kinds of some triples.
spec fn triple_metrics(triples: Seq<Triple>) -> Seq<RangeFragMetrics> {
    triples.map_values(|t: Triple| RangeFragMetrics { bix: t.bix, kind: t.kind })
}

/// Elements are joined only if they are connected.
spec fn sound(succs: Seq<Seq<BlockIx>>, ms: Seq<RangeFragMetrics>, uf: UnionFind) -> bool {
    forall|x: int, y: int|
        0 <= x < ms.len() && 0 <= y < ms.len() && #[trigger] uf.same(x, y) ==> connected(
            succs,
            ms,
            x,
            y,
        )
}

/// What was joined stays joined.
spec fn coarser(before: UnionFind, after: UnionFind) -> bool {
    forall|x: int, y: int|
        0 <= x < before.size() && 0 <= y < before.size() && before.same(x, y)
            ==> #[trigger] after.same(x, y)
}

proof fn lemma_coarser_trans(a: UnionFind, b: UnionFind, c: UnionFind)
    requires
        a.size() == b.size(),
        coarser(a, b),
        coarser(b, c),
    ensures
        coarser(a, c),
{
    assert forall|x: int, y: int|
        0 <= x < a.size() && 0 <= y < a.size() && a.same(x, y) implies #[trigger] c.same(x, y) by {
        assert(b.same(x, y));
    }
}

/// Joins two fragments between which liveness flows.
fn join(
    uf: &mut UnionFind,
    a: usize,
    b: usize,
    Ghost(succs): Ghost<Seq<Seq<BlockIx>>>,
    Ghost(ms): Ghost<Seq<RangeFragMetrics>>,
)
    requires
        old(uf).wf(),
        old(uf).size() == ms.len(),
        a < ms.len(),
        b < ms.len(),
        linked(succs, ms, a as int, b as int),
        sound(succs, ms, *old(uf)),
    ensures
        final(uf).wf(),
        final(uf).size() == ms.len(),
        sound(succs, ms, *final(uf)),
        coarser(*old(uf), *final(uf)),
        final(uf).same(a as int, b as int),
{
    let ghost before = *uf;
    uf.union(a, b);
    proof {
        before.lemma_same();
        lemma_connected_linked(succs, ms, a as int, b as int);
        lemma_connected_sym(succs, ms, a as int, b as int);
        assert forall|x: int, y: int|
            0 <= x < ms.len() && 0 <= y < ms.len() && #[trigger] uf.same(x, y) implies connected(
            succs,
            ms,
            x,
            y,
        ) by {
            if !before.same(x, y) {
                let (s, t) = if before.same(x, a as int) && before.same(y, b as int) {
                    (a as int, b as int)
                } else {
                    (b as int, a as int)
                };
                assert(before.same(x, s) && before.same(y, t));
                lemma_connected_sym(succs, ms, y, t);
                lemma_connected_trans(succs, ms, x, s, t);
                lemma_connected_trans(succs, ms, x, t, y);
            }
        }
        assert(before.same(a as int, a as int));
        assert(before.same(b as int, b as int));
        assert forall|x: int, y: int|
            0 <= x < before.size() && 0 <= y < before.size() && before.same(
                x,
                y,
            ) implies #[trigger] uf.same(x, y) by {}
    }
}

/// Element `x` is joined with every fragment before `n` through which liveness flows into block
/// `b`.
spec fn joined_with(
    ms: Seq<RangeFragMetrics>,
    uf: UnionFind,
    x: int,
    b: BlockIx,
    n: int,
) -> bool {
    forall|y: int|
        0 <= y < n && (#[trigger] ms[y]).bix == b && flows_in(ms[y]) ==> uf.same(x, y)
}

/// Joins triple `ix` with all those of a successor block `b` through which liveness flows in, by
/// looking at all triples.
fn join_by_scan(
    uf: &mut UnionFind,
    triples: &Vec<Triple>,
    ix: usize,
    b: BlockIx,
    Ghost(succs): Ghost<Seq<Seq<BlockIx>>>,
)
    requires
        old(uf).wf(),
        old(uf).size() == triples@.len(),
        ix < triples@.len(),
        sound(succs, triple_metrics(triples@), *old(uf)),
        flows_out(triple_metrics(triples@)[ix as int]),
        succs[triples@[ix as int].bix.ix as int].contains(b),
        forall|y: int| 0 <= y < triples@.len() ==> !((#[trigger] triples@[y]).kind is Local),
    ensures
        final(uf).wf(),
        final(uf).size() == triples@.len(),
        sound(succs, triple_metrics(triples@), *final(uf)),
        coarser(*old(uf), *final(uf)),
        joined_with(
            triple_metrics(triples@),
            *final(uf),
            ix as int,
            b,
            triples@.len() as int,
        ),
{
    let ghost ms = triple_metrics(triples@);
    proof {
        uf.lemma_same();
    }
    let mut ix2: usize = 0;
    while ix2 < triples.len()
        invariant
            ix2 <= triples@.len() == ms.len(),
            ms == triple_metrics(triples@),
            uf.wf(),
            uf.size() == old(uf).size() == ms.len(),
            ix < ms.len(),
            sound(succs, ms, *uf),
            coarser(*old(uf), *uf),
            flows_out(ms[ix as int]),
            succs[ms[ix as int].bix.ix as int].contains(b),
            forall|y: int| 0 <= y < triples@.len() ==> !((#[trigger] triples@[y]).kind is Local),
            joined_with(ms, *uf, ix as int, b, ix2 as int),
        decreases triples@.len() - ix2,
    {
        let t2 = triples[ix2];
        let ghost before = *uf;
        assert(ms[ix2 as int] == (RangeFragMetrics { bix: t2.bix, kind: t2.kind }));
        if t2.bix != b || t2.kind == RangeFragKind::LiveOut {
            ix2 += 1;
            continue;
        }
        if ix != ix2 {
            join(uf, ix, ix2, Ghost(succs), Ghost(ms));
            proof {
                lemma_coarser_trans(*old(uf), before, *uf);
            }
        }
        proof {
            uf.lemma_same();
            assert forall|y: int|
                0 <= y < ix2 + 1 && (#[trigger] ms[y]).bix == b && flows_in(ms[y]) implies uf.same(
                ix as int,
                y,
            ) by {
                if y < ix2 {
                    assert(before.same(ix as int, y));
                }
            }
        }
        ix2 += 1;
    }
}

/// Joins triple `ix` with all those of a successor block `b` through which liveness flows in. The
/// triples are sorted by block, and those of `b` are found by binary search.
fn join_by_search(
    uf: &mut UnionFind,
    triples: &Vec<Triple>,
    ix: usize,
    b: BlockIx,
    Ghost(succs): Ghost<Seq<Seq<BlockIx>>>,
)
    requires
        old(uf).wf(),
        old(uf).size() == triples@.len(),
        ix < triples@.len(),
        sorted(triples@),
        sound(succs, triple_metrics(triples@), *old(uf)),
        flows_out(triple_metrics(triples@)[ix as int]),
        succs[triples@[ix as int].bix.ix as int].contains(b),
        forall|y: int| 0 <= y < triples@.len() ==> !((#[trigger] triples@[y]).kind is Local),
    ensures
        final(uf).wf(),
        final(uf).size() == triples@.len(),
        sound(succs, triple_metrics(triples@), *final(uf)),
        coarser(*old(uf), *final(uf)),
        joined_with(
            triple_metrics(triples@),
            *final(uf),
            ix as int,
            b,
            triples@.len() as int,
        ),
{
    let ghost ms = triple_metrics(triples@);
    let len: usize = triples.len();
    // The lowest-indexed triple whose block is not below `b`.
    let mut ix_left: usize = 0;
    let mut ix_right: usize = len;
    while ix_left < ix_right
        invariant
            ix_left <= ix_right <= len == triples@.len(),
            sorted(triples@),
            forall|y: int| 0 <= y < ix_left ==> (#[trigger] triples@[y]).bix.ix < b.ix,
            forall|y: int| ix_right <= y < len ==> (#[trigger] triples@[y]).bix.ix >= b.ix,
        decreases ix_right - ix_left,
    {
        let m: usize = ix_left + (ix_right - ix_left) / 2;
        assert(forall|y: int| 0 <= y < m ==> (#[trigger] triples@[y]).key() <= triples@[m as int].key());
        assert(forall|y: int| m < y < len ==> triples@[m as int].key() <= (#[trigger] triples@[y]).key());
        if triples[m].bix.ix < b.ix {
            assert(triples@[m as int].key() < b.ix);
            assert forall|y: int| 0 <= y < m + 1 implies (#[trigger] triples@[y]).bix.ix < b.ix by {
                assert(triples@[y].key() <= triples@[m as int].key());
            }
            ix_left = m + 1;
        } else {
            assert forall|y: int| m <= y < len implies (#[trigger] triples@[y]).bix.ix >= b.ix by {
                assert(triples@[m as int].key() <= triples@[y].key());
            }
            ix_right = m;
        }
    }
    proof {
        uf.lemma_same();
    }
    let mut ix2: usize = ix_left;
    while ix2 < len && triples[ix2].bix.ix <= b.ix
        invariant
            ix_left <= ix2 <= len == triples@.len() == ms.len(),
            ms == triple_metrics(triples@),
            sorted(triples@),
            forall|y: int| ix_left <= y < len ==> (#[trigger] triples@[y]).bix.ix >= b.ix,
            forall|y: int| 0 <= y < ix_left ==> (#[trigger] triples@[y]).bix.ix < b.ix,
            uf.wf(),
            uf.size() == old(uf).size() == ms.len(),
            ix < ms.len(),
            sound(succs, ms, *uf),
            coarser(*old(uf), *uf),
            flows_out(ms[ix as int]),
            succs[ms[ix as int].bix.ix as int].contains(b),
            forall|y: int| 0 <= y < triples@.len() ==> !((#[trigger] triples@[y]).kind is Local),
            joined_with(ms, *uf, ix as int, b, ix2 as int),
        decreases len - ix2,
    {
        let t2 = triples[ix2];
        let ghost before = *uf;
        assert(ms[ix2 as int] == (RangeFragMetrics { bix: t2.bix, kind: t2.kind }));
        if t2.kind == RangeFragKind::LiveOut {
            ix2 += 1;
            continue;
        }
        assert(t2.bix == b);
        join(uf, ix, ix2, Ghost(succs), Ghost(ms));
        proof {
            lemma_coarser_trans(*old(uf), before, *uf);
            assert forall|y: int|
                0 <= y < ix2 + 1 && (#[trigger] ms[y]).bix == b && flows_in(ms[y]) implies uf.same(
                ix as int,
                y,
            ) by {
                if y < ix2 {
                    assert(before.same(ix as int, y));
                }
            }
        }
        ix2 += 1;
    }
    proof {
        assert forall|y: int|
            0 <= y < len && (#[trigger] ms[y]).bix == b && flows_in(ms[y]) implies uf.same(
            ix as int,
            y,
        ) by {
            if y >= ix2 {
                assert(triples@[ix2 as int].key() > b.ix);
                if y > ix2 {
                    assert(triples@[ix2 as int].key() <= triples@[y].key());
                }
                assert(triples@[y].bix == b);
            }
        }
    }
}

/// If all flows are joined, then so is all that is connected.
proof fn lemma_joined(
    succs: Seq<Seq<BlockIx>>,
    ms: Seq<RangeFragMetrics>,
    uf: UnionFind,
    path: Seq<int>,
)
    requires
        forall|x: int, y: int|
            0 <= x < ms.len() && 0 <= y < ms.len() && flows(succs, ms[x], ms[y])
                ==> #[trigger] uf.same(x, y),
        is_path(succs, ms, path),
    ensures
        uf.same(path[0], path.last()),
    decreases path.len(),
{
    uf.lemma_same();
    if path.len() > 1 {
        let shorter = path.drop_last();
        assert forall|k: int| 0 <= k < shorter.len() - 1 implies linked(
            succs,
            ms,
            #[trigger] shorter[k],
            shorter[k + 1],
        ) by {
            assert(linked(succs, ms, path[k], path[k + 1]));
        }
        lemma_joined(succs, ms, uf, shorter);
        let k = path.len() - 2;
        assert(linked(succs, ms, path[k], path[k + 1]));
        assert(uf.same(path[k], path[k + 1]) || uf.same(path[k + 1], path[k]));
        assert(uf.same(path[0], path[k]));
    }
}

/// Finds out which triples are connected. If there are many, they are sorted first.
fn find_classes(triples: &mut Vec<Triple>, cfg_info: &CFGInfo) -> (uf: UnionFind)
    requires
        forall|t: int|
            0 <= t < old(triples)@.len() ==> {
                &&& !((#[trigger] old(triples)@[t]).kind is Local)
                &&& old(triples)@[t].kind is LiveIn || old(triples)@[t].bix.ix
                    < cfg_info.succ_map@.len()
            },
    ensures
        final(triples)@.to_multiset() == old(triples)@.to_multiset(),
        uf.wf(),
        uf.size() == final(triples)@.len(),
        forall|x: int, y: int|
            0 <= x < final(triples)@.len() && 0 <= y < final(triples)@.len() ==> (
            #[trigger] uf.same(x, y) <==> connected(
                cfg_info.succs(),
                triple_metrics(final(triples)@),
                x,
                y,
            )),
{
    let ghost succs = cfg_info.succs();
    let triples_len: usize = triples.len();
    let mut uf = UnionFind::new(triples_len);
    // A scan of all triples for each jump takes quadratic time, but is the faster way for few.
    let by_search = triples_len > 250;
    let ghost before = triples@;
    if by_search {
        sort_by_key(triples);
    }
    let ghost ms = triple_metrics(triples@);
    proof {
        lemma_same_elements(before, triples@);
        assert forall|t: int| 0 <= t < triples@.len() implies {
            &&& !((#[trigger] triples@[t]).kind is Local)
            &&& triples@[t].kind is LiveIn || triples@[t].bix.ix < cfg_info.succ_map@.len()
        } by {
            assert(triples@.contains(triples@[t]));
            assert(before.contains(triples@[t]));
        }
        assert forall|x: int, y: int|
            0 <= x < ms.len() && 0 <= y < ms.len() && #[trigger] uf.same(x, y) implies connected(
            succs,
            ms,
            x,
            y,
        ) by {
            lemma_connected_refl(succs, ms, x);
        }
    }
    let mut ix: usize = 0;
    while ix < triples.len()
        invariant
            ix <= triples@.len() == ms.len(),
            ms == triple_metrics(triples@),
            succs == cfg_info.succs(),
            by_search ==> sorted(triples@),
            forall|t: int|
                0 <= t < triples@.len() ==> {
                    &&& !((#[trigger] triples@[t]).kind is Local)
                    &&& triples@[t].kind is LiveIn || triples@[t].bix.ix < cfg_info.succ_map@.len()
                },
            uf.wf(),
            uf.size() == ms.len(),
            sound(succs, ms, uf),
            forall|x: int, y: int|
                0 <= x < ix && 0 <= y < ms.len() && flows(succs, ms[x], ms[y])
                    ==> #[trigger] uf.same(x, y),
        decreases triples@.len() - ix,
    {
        let t = triples[ix];
        let ghost uf0 = uf;
        assert(ms[ix as int] == (RangeFragMetrics { bix: t.bix, kind: t.kind }));
        if t.kind == RangeFragKind::LiveOut || t.kind == RangeFragKind::Thru {
            let targets = &cfg_info.succ_map[t.bix.ix as usize];
            assert(targets@ == succs[t.bix.ix as int]);
            let mut s: usize = 0;
            while s < targets.len()
                invariant
                    s <= targets@.len(),
                    targets@ == succs[t.bix.ix as int],
                    ix < triples@.len() == ms.len(),
                    ms == triple_metrics(triples@),
                    t == triples@[ix as int],
                    flows_out(ms[ix as int]),
                    by_search ==> sorted(triples@),
                    forall|t: int|
                        0 <= t < triples@.len() ==> {
                            &&& !((#[trigger] triples@[t]).kind is Local)
                            &&& triples@[t].kind is LiveIn || triples@[t].bix.ix < cfg_info.succ_map@.len()
                        },
                    uf.wf(),
                    uf.size() == uf0.size() == ms.len(),
                    sound(succs, ms, uf),
                    coarser(uf0, uf),
                    forall|k: int|
                        0 <= k < s ==> joined_with(
                            ms,
                            uf,
                            ix as int,
                            #[trigger] targets@[k],
                            ms.len() as int,
                        ),
                decreases targets@.len() - s,
            {
                let b = targets[s];
                let ghost uf1 = uf;
                assert(succs[t.bix.ix as int].contains(b));
                if by_search {
                    join_by_search(&mut uf, triples, ix, b, Ghost(succs));
                } else {
                    join_by_scan(&mut uf, triples, ix, b, Ghost(succs));
                }
                proof {
                    lemma_coarser_trans(uf0, uf1, uf);
                    assert forall|k: int| 0 <= k < s + 1 implies joined_with(
                        ms,
                        uf,
                        ix as int,
                        #[trigger] targets@[k],
                        ms.len() as int,
                    ) by {
                        if k < s {
                            assert(joined_with(ms, uf1, ix as int, targets@[k], ms.len() as int));
                            assert forall|y: int|
                                0 <= y < ms.len() && (#[trigger] ms[y]).bix == targets@[k]
                                    && flows_in(ms[y]) implies uf.same(ix as int, y) by {
                                assert(uf1.same(ix as int, y));
                            }
                        }
                    }
                }
                s += 1;
            }
            proof {
                assert forall|x: int, y: int|
                    0 <= x < ix + 1 && 0 <= y < ms.len() && flows(
                        succs,
                        ms[x],
                        ms[y],
                    ) implies #[trigger] uf.same(x, y) by {
                    if x < ix {
                        assert(uf0.same(x, y));
                    } else {
                        let k = choose|k: int|
                            0 <= k < targets@.len() && targets@[k] == ms[y].bix;
                        assert(joined_with(ms, uf, ix as int, targets@[k], ms.len() as int));
                    }
                }
            }
        }
        ix += 1;
    }
    proof {
        assert forall|x: int, y: int|
            0 <= x < ms.len() && 0 <= y < ms.len() implies (#[trigger] uf.same(x, y) <==> connected(
            succs,
            ms,
            x,
            y,
        )) by {
            if connected(succs, ms, x, y) {
                let path = choose|path: Seq<int>| #[trigger]
                    is_path(succs, ms, path) && path[0] == x && path.last() == y;
                lemma_joined(succs, ms, uf, path);
            }
        }
    }
    uf
}

/// The triple describes a fragment that reaches an end of its block.
spec fn triple_ok(ms: Seq<RangeFragMetrics>, t: Triple) -> bool {
    &&& t.pos < ms.len()
    &&& ms[t.pos as int] == (RangeFragMetrics { bix: t.bix, kind: t.kind })
    &&& !(t.kind is Local)
}

/// The triples describe all fragments that reach an end of their block, each once.
spec fn triples_ok(ms: Seq<RangeFragMetrics>, triples: Seq<Triple>) -> bool {
    &&& triples.no_duplicates()
    &&& forall|t: Triple| #[trigger] triples.contains(t) <==> triple_ok(ms, t)
}

/// The positions of all fragments that touch no end of their block, in ascending order.
spec fn locals_ok(ms: Seq<RangeFragMetrics>, locals: Seq<int>) -> bool {
    &&& forall|a: int, b: int| 0 <= a < b < locals.len() ==> #[trigger] locals[a] < #[trigger] locals[b]
    &&& forall|p: int| #[trigger]
        locals.contains(p) <==> 0 <= p < ms.len() && ms[p].kind is Local
}

/// The index of the triple of a fragment.
spec fn triple_of(triples: Seq<Triple>, p: int) -> int {
    choose|t: int| 0 <= t < triples.len() && (#[trigger] triples[t]).pos == p
}

proof fn lemma_triple_of(ms: Seq<RangeFragMetrics>, triples: Seq<Triple>, p: int)
    requires
        triples_ok(ms, triples),
        0 <= p < ms.len() <= usize::MAX,
        !(ms[p].kind is Local),
    ensures
        ({
            let t = triple_of(triples, p);
            &&& 0 <= t < triples.len()
            &&& triples[t].pos == p
            &&& triple_metrics(triples)[t] == ms[p]
        }),
{
    let t0 = Triple { pos: p as usize, kind: ms[p].kind, bix: ms[p].bix };
    assert(triples.contains(t0));
    let k = choose|k: int| 0 <= k < triples.len() && triples[k] == t0;
    assert(triples[k].pos == p);
    let t = triple_of(triples, p);
    assert(triples.contains(triples[t]));
}

/// Two triples of one fragment are the same one.
proof fn lemma_triple_unique(ms: Seq<RangeFragMetrics>, triples: Seq<Triple>, x: int, y: int)
    requires
        triples_ok(ms, triples),
        0 <= x < triples.len(),
        0 <= y < triples.len(),
        triples[x].pos == triples[y].pos,
    ensures
        x == y,
{
    assert(triples.contains(triples[x]));
    assert(triples.contains(triples[y]));
    assert(triples[x] == triples[y]);
}

/// Fragments are connected as their triples are.
proof fn lemma_connected_triples(
    succs: Seq<Seq<BlockIx>>,
    ms: Seq<RangeFragMetrics>,
    triples: Seq<Triple>,
    x: int,
    y: int,
)
    requires
        triples_ok(ms, triples),
        ms.len() <= usize::MAX,
        0 <= x < triples.len(),
        0 <= y < triples.len(),
    ensures
        connected(succs, ms, triples[x].pos as int, triples[y].pos as int) <==> connected(
            succs,
            triple_metrics(triples),
            x,
            y,
        ),
{
    let tm = triple_metrics(triples);
    if connected(succs, tm, x, y) {
        let path = choose|path: Seq<int>| #[trigger]
            is_path(succs, tm, path) && path[0] == x && path.last() == y;
        let q = path.map_values(|t: int| triples[t].pos as int);
        assert forall|k: int| 0 <= k < q.len() implies 0 <= #[trigger] q[k] < ms.len() && ms[q[k]]
            == tm[path[k]] by {
            assert(triples.contains(triples[path[k]]));
        }
        assert forall|k: int| 0 <= k < q.len() - 1 implies linked(
            succs,
            ms,
            #[trigger] q[k],
            q[k + 1],
        ) by {
            assert(linked(succs, tm, path[k], path[k + 1]));
            assert(ms[q[k]] == tm[path[k]]);
            assert(ms[q[k + 1]] == tm[path[k + 1]]);
        }
        assert(is_path(succs, ms, q));
    }
    let px = triples[x].pos as int;
    let py = triples[y].pos as int;
    if connected(succs, ms, px, py) {
        let path = choose|path: Seq<int>| #[trigger]
            is_path(succs, ms, path) && path[0] == px && path.last() == py;
        if path.len() == 1 {
            lemma_triple_unique(ms, triples, x, y);
            lemma_connected_refl(succs, tm, x);
        } else {
            let q = path.map_values(|p: int| triple_of(triples, p));
            assert forall|k: int| 0 <= k < q.len() implies {
                &&& 0 <= #[trigger] q[k] < triples.len()
                &&& triples[q[k]].pos == path[k]
                &&& tm[q[k]] == ms[path[k]]
            } by {
                if k < path.len() - 1 {
                    assert(linked(succs, ms, path[k], path[k + 1]));
                } else {
                    assert(linked(succs, ms, path[k - 1], path[k - 1 + 1]));
                }
                lemma_triple_of(ms, triples, path[k]);
            }
            assert forall|k: int| 0 <= k < q.len() - 1 implies linked(
                succs,
                tm,
                #[trigger] q[k],
                q[k + 1],
            ) by {
                assert(linked(succs, ms, path[k], path[k + 1]));
                assert(tm[q[k]] == ms[path[k]]);
                assert(tm[q[k + 1]] == ms[path[k + 1]]);
            }
            assert(is_path(succs, tm, q));
            lemma_triple_unique(ms, triples, x, q[0]);
            lemma_triple_unique(ms, triples, y, q[q.len() - 1]);
        }
    }
}

/// A fragment that touches no end of its block is connected to no other.
proof fn lemma_connected_local(
    succs: Seq<Seq<BlockIx>>,
    ms: Seq<RangeFragMetrics>,
    p: int,
    q: int,
)
    requires
        0 <= p < ms.len(),
        0 <= q < ms.len(),
        ms[p].kind is Local || ms[q].kind is Local,
    ensures
        connected(succs, ms, p, q) <==> p == q,
{
    if p == q {
        lemma_connected_refl(succs, ms, p);
    }
    if connected(succs, ms, p, q) {
        let path = choose|path: Seq<int>| #[trigger]
            is_path(succs, ms, path) && path[0] == p && path.last() == q;
        if path.len() > 1 {
            assert(linked(succs, ms, path[0], path[1]));
            let k = path.len() - 2;
            assert(linked(succs, ms, path[k], path[k + 1]));
        }
    }
}

/// One part for each of some positions.
spec fn singles(locals: Seq<int>) -> Seq<Seq<int>> {
    locals.map_values(|p: int| seq![p])
}

/// The fragments of a class of triples.
spec fn class_part(triples: Seq<Triple>, class: Seq<usize>) -> Seq<int> {
    class.map_values(|t: usize| triples[t as int].pos as int)
}

/// The fragments of some classes of triples.
spec fn class_parts(triples: Seq<Triple>, classes: Seq<Vec<usize>>) -> Seq<Seq<int>> {
    classes.map_values(|c: Vec<usize>| class_part(triples, c@))
}

/// The fragments that touch no end of their block, one by one, and the classes of the others,
/// are the live ranges.
proof fn lemma_partition(
    succs: Seq<Seq<BlockIx>>,
    ms: Seq<RangeFragMetrics>,
    locals: Seq<int>,
    triples: Seq<Triple>,
    uf: UnionFind,
    classes: Seq<Vec<usize>>,
)
    requires
        ms.len() <= usize::MAX,
        locals_ok(ms, locals),
        triples_ok(ms, triples),
        triples.len() <= usize::MAX,
        uf.size() == triples.len(),
        forall|x: int, y: int|
            0 <= x < triples.len() && 0 <= y < triples.len() ==> (#[trigger] uf.same(x, y)
                <==> connected(succs, triple_metrics(triples), x, y)),
        are_classes(uf, classes),
    ensures
        is_partition(succs, ms, singles(locals) + class_parts(triples, classes)),
{
    let n = locals.len();
    let parts = singles(locals) + class_parts(triples, classes);
    assert forall|k: int, a: int|
        n <= k < parts.len() && 0 <= a < parts[k].len() implies {
        let t = classes[k - n]@[a];
        &&& t < triples.len()
        &&& #[trigger] parts[k][a] == triples[t as int].pos
        &&& parts[k][a] < ms.len()
        &&& !(ms[parts[k][a]].kind is Local)
    } by {
        let t = classes[k - n]@[a];
        assert(parts[k] == class_part(triples, classes[k - n]@));
        assert(triples.contains(triples[t as int]));
    }
    assert forall|k: int| 0 <= k < n implies (#[trigger] parts[k]) == seq![locals[k]] && 0
        <= locals[k] < ms.len() && ms[locals[k]].kind is Local by {
        assert(locals.contains(locals[k]));
    }
    assert forall|k: int| 0 <= k < parts.len() implies part_ok(ms, #[trigger] parts[k]) by {
        if k >= n {
            let c = classes[k - n];
            assert(parts[k] == class_part(triples, c@));
            assert forall|a: int, b: int|
                0 <= a < b < parts[k].len() implies parts[k][a] != parts[k][b] by {
                if parts[k][a] == parts[k][b] {
                    assert(classes[k - n]@[a] < classes[k - n]@[b]);
                    lemma_triple_unique(ms, triples, c@[a] as int, c@[b] as int);
                }
            }
            assert forall|a: int| 0 <= a < parts[k].len() implies 0 <= #[trigger] parts[k][a]
                < ms.len() by {}
        }
    }
    assert forall|p: int| 0 <= p < ms.len() implies #[trigger] in_some_part(parts, p) by {
        if ms[p].kind is Local {
            assert(locals.contains(p));
            let k = choose|k: int| 0 <= k < n && locals[k] == p;
            assert(parts[k][0] == p);
            assert(parts[k].contains(p));
        } else {
            lemma_triple_of(ms, triples, p);
            let t = triple_of(triples, p);
            assert(in_some_class(classes, t));
            let k = choose|k: int|
                0 <= k < classes.len() && (#[trigger] classes[k])@.contains(t as usize);
            let a = choose|a: int| 0 <= a < classes[k]@.len() && classes[k]@[a] == t as usize;
            assert(parts[n + k] == class_part(triples, classes[k]@));
            assert(parts[n + k][a] == p);
            assert(parts[n + k].contains(p));
        }
    }
    assert forall|k: int, a: int, l: int, b: int|
        0 <= k < parts.len() && 0 <= a < parts[k].len() && 0 <= l < parts.len() && 0 <= b
            < parts[l].len() implies (connected(
        succs,
        ms,
        #[trigger] parts[k][a],
        #[trigger] parts[l][b],
    ) <==> k == l) by {
        let p = parts[k][a];
        let q = parts[l][b];
        if k < n || l < n {
            assert(part_ok(ms, parts[k]));
            assert(part_ok(ms, parts[l]));
            lemma_connected_local(succs, ms, p, q);
            if k < n && l < n && k != l {
                assert(locals[k] != locals[l]);
            }
        } else {
            let x = classes[k - n]@[a];
            let y = classes[l - n]@[b];
            assert(parts[k][a] == triples[x as int].pos);
            assert(parts[l][b] == triples[y as int].pos);
            lemma_connected_triples(succs, ms, triples, x as int, y as int);
            assert(uf.same(x as int, y as int) <==> k - n == l - n);
        }
    }
    assert forall|k: int, l: int| 0 <= k < l < parts.len() implies locals_first(
        ms,
        #[trigger] parts[k],
        #[trigger] parts[l],
    ) by {
        if l >= n {
            assert(part_ok(ms, parts[l]));
            assert(!(ms[parts[l][0]].kind is Local));
        }
    }
}

/// The blocks and kinds of the fragments with the given indices.
pub open spec fn metrics_of(env: Seq<RangeFragMetrics>, ixs: Seq<RangeFragIx>) -> Seq<
    RangeFragMetrics,
> {
    ixs.map_values(|f: RangeFragIx| env[f.ix as int])
}

/// The fragments of a part, as a piece of the register.
pub open spec fn piece_of(
    reg: Reg,
    views: Seq<FragView>,
    ixs: Seq<RangeFragIx>,
    part: Seq<int>,
) -> Piece {
    Piece { reg, frags: part.map_values(|p: int| views[ixs[p].ix as int]) }
}

/// The fragments of some parts, as pieces of the register.
pub open spec fn pieces_of(
    reg: Reg,
    views: Seq<FragView>,
    ixs: Seq<RangeFragIx>,
    parts: Seq<Seq<int>>,
) -> Seq<Piece> {
    parts.map_values(|part: Seq<int>| piece_of(reg, views, ixs, part))
}

/// Makes an interval of one part of the fragments of a register, after some others.
fn flush_part(
    result_fixed: &mut Vec<FixedInterval>,
    result_virtual: &mut Vec<VirtualInterval>,
    reg: Reg,
    part_ixs: &[RangeFragIx],
    frag_env: &Vec<RangeFrag>,
    Ghost(real0): Ghost<Seq<FixedInterval>>,
    Ghost(virt0): Ghost<Seq<VirtualInterval>>,
    Ghost(ixs): Ghost<Seq<RangeFragIx>>,
    Ghost(parts): Ghost<Seq<Seq<int>>>,
    Ghost(part): Ghost<Seq<int>>,
)
    requires
        forall|k: int| 0 <= k < part_ixs@.len() ==> (#[trigger] part_ixs@[k]).ix < frag_env@.len(),
        part_ixs@ == part.map_values(|p: int| ixs[p]),
        reg.spec_is_real() ==> reg.real_index() < old(result_fixed)@.len(),
        flushed_all(
            real0,
            virt0,
            pieces_of(reg, frag_views(frag_env@), ixs, parts),
            old(result_fixed)@,
            old(result_virtual)@,
        ),
    ensures
        flushed_all(
            real0,
            virt0,
            pieces_of(reg, frag_views(frag_env@), ixs, parts.push(part)),
            final(result_fixed)@,
            final(result_virtual)@,
        ),
{
    let ghost views = frag_views(frag_env@);
    let ghost real1 = result_fixed@;
    let ghost virt1 = result_virtual@;
    flush_interval(result_fixed, result_virtual, reg, part_ixs, frag_env);
    proof {
        let piece = piece_of(reg, views, ixs, part);
        let before = pieces_of(reg, views, ixs, parts);
        assert(piece.frags =~= picked(views, part_ixs@));
        lemma_flushed_one(real1, virt1, piece, result_fixed@, result_virtual@);
        lemma_flushed_append(
            real0,
            virt0,
            before,
            real1,
            virt1,
            seq![piece],
            result_fixed@,
            result_virtual@,
        );
        assert(pieces_of(reg, views, ixs, parts.push(part)) =~= before + seq![piece]);
    }
}

/// If there are several fragments, each one out of which liveness flows is in one of `n` blocks.
pub open spec fn outflows_known(ms: Seq<RangeFragMetrics>, n: int) -> bool {
    ms.len() >= 2 ==> forall|p: int|
        0 <= p < ms.len() && flows_out(#[trigger] ms[p]) ==> ms[p].bix.ix < n
}

/// [`outflows_known`] for the fragments of each register.
pub open spec fn flows_known(
    map: Map<Reg, Seq<RangeFragIx>>,
    env: Seq<RangeFragMetrics>,
    n: int,
) -> bool {
    forall|r: Reg| #[trigger] map.contains_key(r) ==> outflows_known(metrics_of(env, map[r]), n)
}

/// Merges the fragments of one register as far as liveness flows between them, and makes an
/// interval of each of the live ranges that result.
fn merge_frags_of_reg(
    result_fixed: &mut Vec<FixedInterval>,
    result_virtual: &mut Vec<VirtualInterval>,
    reg: Reg,
    all_frag_ixs_for_reg: &Vec<RangeFragIx>,
    frag_env: &Vec<RangeFrag>,
    frag_metrics_env: &Vec<RangeFragMetrics>,
    cfg_info: &CFGInfo,
)
    requires
        frag_env@.len() == frag_metrics_env@.len(),
        forall|k: int|
            0 <= k < all_frag_ixs_for_reg@.len() ==> (#[trigger] all_frag_ixs_for_reg@[k]).ix
                < frag_env@.len(),
        outflows_known(
            metrics_of(frag_metrics_env@, all_frag_ixs_for_reg@),
            cfg_info.succ_map@.len() as int,
        ),
        reg.spec_is_real() ==> reg.real_index() < old(result_fixed)@.len(),
    ensures
        exists|parts: Seq<Seq<int>>|
            {
                &&& #[trigger] is_partition(
                    cfg_info.succs(),
                    metrics_of(frag_metrics_env@, all_frag_ixs_for_reg@),
                    parts,
                )
                &&& flushed_all(
                    old(result_fixed)@,
                    old(result_virtual)@,
                    pieces_of(reg, frag_views(frag_env@), all_frag_ixs_for_reg@, parts),
                    final(result_fixed)@,
                    final(result_virtual)@,
                )
            },
{
    let ghost ixs = all_frag_ixs_for_reg@;
    let ghost views = frag_views(frag_env@);
    let ghost ms = metrics_of(frag_metrics_env@, ixs);
    let ghost succs = cfg_info.succs();
    let ghost real0 = result_fixed@;
    let ghost virt0 = result_virtual@;
    let num_reg_frags: usize = all_frag_ixs_for_reg.len();
    proof {
        let none = pieces_of(reg, views, ixs, Seq::<Seq<int>>::empty());
        assert(none =~= Seq::<Piece>::empty());
        lemma_flushed_none(real0, virt0);
    }

    // A register with only one fragment has only one live range.
    if num_reg_frags == 1 {
        let ghost part = seq![0int];
        let ghost parts = seq![part];
        proof {
            assert(ixs =~= part.map_values(|p: int| ixs[p]));
            assert(Seq::<Seq<int>>::empty().push(part) =~= parts);
            assert(parts[0].contains(0)) by {
                assert(parts[0][0] == 0);
            }
            assert(in_some_part(parts, 0));
            lemma_connected_refl(succs, ms, 0);
            assert(is_partition(succs, ms, parts));
        }
        flush_part(
            result_fixed,
            result_virtual,
            reg,
            all_frag_ixs_for_reg.as_slice(),
            frag_env,
            Ghost(real0),
            Ghost(virt0),
            Ghost(ixs),
            Ghost(Seq::empty()),
            Ghost(part),
        );
        return ;
    }

    // The fragments that touch no end of their block are live ranges of their own. The others
    // are left for merging.
    let mut triples: Vec<Triple> = Vec::new();
    let ghost mut locals: Seq<int> = Seq::empty();
    assert(singles(locals) =~= Seq::<Seq<int>>::empty());
    let mut i: usize = 0;
    while i < num_reg_frags
        invariant
            i <= num_reg_frags == ixs.len() == ms.len(),
            ixs == all_frag_ixs_for_reg@,
            views == frag_views(frag_env@),
            ms == metrics_of(frag_metrics_env@, ixs),
            frag_env@.len() == frag_metrics_env@.len(),
            forall|k: int|
                0 <= k < ixs.len() ==> (#[trigger] ixs[k]).ix < frag_env@.len(),
            result_fixed@.len() == real0.len(),
            reg.spec_is_real() ==> reg.real_index() < real0.len(),
            forall|a: int, b: int|
                0 <= a < b < locals.len() ==> #[trigger] locals[a] < #[trigger] locals[b],
            forall|p: int| #[trigger]
                locals.contains(p) <==> 0 <= p < i && ms[p].kind is Local,
            triples@.no_duplicates(),
            forall|t: Triple| #[trigger]
                triples@.contains(t) <==> t.pos < i && triple_ok(ms, t),
            flushed_all(
                real0,
                virt0,
                pieces_of(reg, views, ixs, singles(locals)),
                result_fixed@,
                result_virtual@,
            ),
        decreases num_reg_frags - i,
    {
        let fix = all_frag_ixs_for_reg[i];
        let frag_metrics = frag_metrics_env[fix.ix as usize];
        assert(ms[i as int] == frag_metrics);
        if frag_metrics.kind == RangeFragKind::Local {
            let mut one: Vec<RangeFragIx> = Vec::new();
            one.push(fix);
            let ghost part = seq![i as int];
            assert(one@ =~= part.map_values(|p: int| ixs[p]));
            flush_part(
                result_fixed,
                result_virtual,
                reg,
                one.as_slice(),
                frag_env,
                Ghost(real0),
                Ghost(virt0),
                Ghost(ixs),
                Ghost(singles(locals)),
                Ghost(part),
            );
            proof {
                let more = locals.push(i as int);
                assert(singles(more) =~= singles(locals).push(part));
                assert forall|a: int, b: int| 0 <= a < b < more.len() implies #[trigger] more[a]
                    < #[trigger] more[b] by {
                    assert(locals.contains(locals[a]));
                }
                lemma_push_contains(locals, i as int);
                assert forall|t: Triple| #[trigger]
                    triples@.contains(t) <==> t.pos < i + 1 && triple_ok(ms, t) by {}
                locals = more;
            }
        } else {
            let t = Triple { pos: i, kind: frag_metrics.kind, bix: frag_metrics.bix };
            let ghost before = triples@;
            triples.push(t);
            proof {
                assert(!before.contains(t));
                lemma_push_contains(before, t);
                assert forall|u: Triple| #[trigger]
                    triples@.contains(u) <==> u.pos < i + 1 && triple_ok(ms, u) by {
                    assert(before.contains(u) <==> u.pos < i && triple_ok(ms, u));
                    if u.pos == i && triple_ok(ms, u) {
                        assert(u == t);
                    }
                }
            }
        }
        i += 1;
    }
    proof {
        assert(triples_ok(ms, triples@));
        assert(locals_ok(ms, locals));
        assert forall|t: int| 0 <= t < triples@.len() implies {
            &&& !((#[trigger] triples@[t]).kind is Local)
            &&& triples@[t].kind is LiveIn || triples@[t].bix.ix < cfg_info.succ_map@.len()
        } by {
            assert(triples@.contains(triples@[t]));
            let p = triples@[t].pos as int;
            assert(ms[p].bix == triples@[t].bix);
        }
    }
    let ghost unsorted = triples@;
    let mut eclasses_uf = find_classes(&mut triples, cfg_info);
    let ghost uf = eclasses_uf;
    let eclasses = eclasses_uf.get_equiv_classes();
    proof {
        lemma_same_elements(unsorted, triples@);
        assert(triples_ok(ms, triples@));
        assert(triples.len() <= usize::MAX);
        lemma_partition(succs, ms, locals, triples@, uf, eclasses@);
    }
    let ghost parts = singles(locals) + class_parts(triples@, eclasses@);
    let ghost so_far = singles(locals).len() as int;
    assert(parts.take(so_far) =~= singles(locals));
    let mut k: usize = 0;
    while k < eclasses.len()
        invariant
            k <= eclasses@.len(),
            ixs == all_frag_ixs_for_reg@,
            views == frag_views(frag_env@),
            ixs.len() == ms.len(),
            forall|k: int|
                0 <= k < ixs.len() ==> (#[trigger] ixs[k]).ix < frag_env@.len(),
            result_fixed@.len() == real0.len(),
            reg.spec_is_real() ==> reg.real_index() < real0.len(),
            triples_ok(ms, triples@),
            uf.size() == triples@.len(),
            are_classes(uf, eclasses@),
            parts == singles(locals) + class_parts(triples@, eclasses@),
            so_far == singles(locals).len(),
            flushed_all(
                real0,
                virt0,
                pieces_of(reg, views, ixs, parts.take(so_far + k)),
                result_fixed@,
                result_virtual@,
            ),
        decreases eclasses@.len() - k,
    {
        let class = &eclasses[k];
        let ghost part = class_part(triples@, class@);
        let mut frag_ixs = FragIxList::new();
        let mut a: usize = 0;
        assert(part.take(0).map_values(|p: int| ixs[p]) =~= Seq::<RangeFragIx>::empty());
        while a < class.len()
            invariant
                a <= class@.len(),
                part == class_part(triples@, class@),
                ixs == all_frag_ixs_for_reg@,
                ixs.len() == ms.len(),
                triples_ok(ms, triples@),
                forall|b: int|
                    0 <= b < class@.len() ==> (#[trigger] class@[b]) < triples@.len(),
                frag_ix_list_items(frag_ixs) == part.take(a as int).map_values(
                    |p: int| ixs[p],
                ),
            decreases class@.len() - a,
        {
            let t = class[a];
            assert(triples@.contains(triples@[t as int]));
            frag_ixs.push(all_frag_ixs_for_reg[triples[t].pos]);
            assert(part.take(a + 1).map_values(|p: int| ixs[p]) =~= part.take(
                a as int,
            ).map_values(|p: int| ixs[p]).push(ixs[part[a as int]]));
            a += 1;
        }
        proof {
            assert(part.take(a as int) =~= part);
            assert forall|b: int| 0 <= b < part.len() implies 0 <= #[trigger] part[b]
                < ixs.len() by {
                assert(eclasses@[k as int]@[b] < triples@.len());
                assert(triples@.contains(triples@[class@[b] as int]));
            }
            assert(parts[so_far + k] == part);
            assert(parts.take(so_far + k + 1) =~= parts.take(so_far + k).push(part));
        }
        flush_part(
            result_fixed,
            result_virtual,
            reg,
            frag_ixs.as_slice(),
            frag_env,
            Ghost(real0),
            Ghost(virt0),
            Ghost(ixs),
            Ghost(parts.take(so_far + k)),
            Ghost(part),
        );
        k += 1;
    }
    assert(parts.take(so_far + k) =~= parts);
}

/// A live range of a register: the positions of its fragments in the list of the register.
pub struct Group {
    pub reg: Reg,
    pub members: Seq<int>,
}

/// `groups` are the live ranges of all registers of the map, register by register.
pub open spec fn are_groups(
    map: Map<Reg, Seq<RangeFragIx>>,
    env: Seq<RangeFragMetrics>,
    succs: Seq<Seq<BlockIx>>,
    groups: Seq<Group>,
) -> bool {
    &&& forall|k: int| 0 <= k < groups.len() ==> group_ok(map, #[trigger] groups[k])
    &&& forall|r: Reg, p: int|
        map.contains_key(r) && 0 <= p < map[r].len() ==> #[trigger] in_some_group(groups, r, p)
    &&& forall|k: int, a: int, l: int, b: int|
        0 <= k < groups.len() && 0 <= a < groups[k].members.len() && 0 <= l < groups.len() && 0
            <= b < groups[l].members.len() && groups[k].reg == groups[l].reg ==> (connected(
            succs,
            metrics_of(env, map[groups[k].reg]),
            #[trigger] groups[k].members[a],
            #[trigger] groups[l].members[b],
        ) <==> k == l)
    &&& forall|k: int, l: int|
        0 <= k < l < groups.len() && (#[trigger] groups[k]).reg == (#[trigger] groups[l]).reg
            ==> locals_first(
            metrics_of(env, map[groups[k].reg]),
            groups[k].members,
            groups[l].members,
        )
    &&& forall|j: int, k: int, l: int|
        0 <= j < k < l < groups.len() && (#[trigger] groups[j]).reg == (#[trigger] groups[l]).reg
            ==> (#[trigger] groups[k]).reg == groups[j].reg
}

/// The register of the group is one of the map, and the group is not empty and lists positions
/// of its fragments, each once.
pub open spec fn group_ok(map: Map<Reg, Seq<RangeFragIx>>, g: Group) -> bool {
    &&& map.contains_key(g.reg)
    &&& g.members.len() >= 1
    &&& g.members.no_duplicates()
    &&& forall|a: int|
        0 <= a < g.members.len() ==> 0 <= #[trigger] g.members[a] < map[g.reg].len()
}

/// The fragment of the register at the given position is in one of the groups.
pub open spec fn in_some_group(groups: Seq<Group>, r: Reg, p: int) -> bool {
    exists|k: int|
        0 <= k < groups.len() && (#[trigger] groups[k]).reg == r && groups[k].members.contains(p)
}

/// The fragments of some groups.
pub open spec fn group_pieces(
    map: Map<Reg, Seq<RangeFragIx>>,
    views: Seq<FragView>,
    groups: Seq<Group>,
) -> Seq<Piece> {
    groups.map_values(|g: Group| piece_of(g.reg, views, map[g.reg], g.members))
}

/// The intervals that some pieces make: for each real register a fixed one with all fragments of
/// that register, and for each piece of a virtual register one of its own.
pub open spec fn are_intervals(
    univ: RealRegUniverse,
    pieces: Seq<Piece>,
    fixeds: Seq<FixedInterval>,
    virtuals: Seq<VirtualInterval>,
) -> bool {
    &&& fixeds.len() == univ.regs@.len()
    &&& forall|k: int|
        0 <= k < fixeds.len() ==> {
            &&& (#[trigger] fixeds[k]).reg == univ.regs@[k].0
            &&& frag_views(fixeds[k].frags@) == real_frags(pieces, k)
        }
    &&& are_virtuals(pieces, virtuals)
}

/// [`are_intervals`] for the virtual registers.
pub open spec fn are_virtuals(pieces: Seq<Piece>, virtuals: Seq<VirtualInterval>) -> bool {
    &&& virtuals.len() == virtual_pieces(pieces).len()
    &&& forall|k: int|
        0 <= k < virtuals.len() ==> is_interval(
            #[trigger] virtuals[k],
            k,
            virtual_pieces(pieces)[k].reg,
            virtual_pieces(pieces)[k].frags,
        )
}

/// What there is to merge: the fragments, their blocks and kinds, which of them belong to each
/// register, and the jumps.
pub struct MergeInput {
    pub lists: Map<Reg, Seq<RangeFragIx>>,
    pub frags: Seq<FragView>,
    pub metrics: Seq<RangeFragMetrics>,
    pub succs: Seq<Seq<BlockIx>>,
}

/// The intervals are those that the live ranges of all registers make.
pub open spec fn are_merged(
    univ: RealRegUniverse,
    input: MergeInput,
    fixeds: Seq<FixedInterval>,
    virtuals: Seq<VirtualInterval>,
) -> bool {
    exists|groups: Seq<Group>|
        {
            &&& #[trigger] are_groups(input.lists, input.metrics, input.succs, groups)
            &&& are_intervals(
                univ,
                group_pieces(input.lists, input.frags, groups),
                fixeds,
                virtuals,
            )
        }
}

/// The groups of some registers, and the parts of one more.
proof fn lemma_groups_one_more(
    map: Map<Reg, Seq<RangeFragIx>>,
    env: Seq<RangeFragMetrics>,
    succs: Seq<Seq<BlockIx>>,
    groups: Seq<Group>,
    reg: Reg,
    ixs: Seq<RangeFragIx>,
    parts: Seq<Seq<int>>,
)
    requires
        are_groups(map, env, succs, groups),
        !map.contains_key(reg),
        is_partition(succs, metrics_of(env, ixs), parts),
    ensures
        are_groups(
            map.insert(reg, ixs),
            env,
            succs,
            groups + parts.map_values(|part: Seq<int>| Group { reg, members: part }),
        ),
{
    let more = map.insert(reg, ixs);
    let new = parts.map_values(|part: Seq<int>| Group { reg, members: part });
    let all = groups + new;
    let n = groups.len();
    assert forall|k: int| 0 <= k < all.len() implies group_ok(more, #[trigger] all[k]) && (all[k].reg
        == reg <==> k >= n) by {
        if k < n {
            assert(group_ok(map, groups[k]));
        } else {
            assert(part_ok(metrics_of(env, ixs), parts[k - n]));
        }
    }
    assert forall|r: Reg, p: int|
        more.contains_key(r) && 0 <= p < more[r].len() implies #[trigger] in_some_group(
        all,
        r,
        p,
    ) by {
        if r == reg {
            assert(in_some_part(parts, p));
            let k = choose|k: int| 0 <= k < parts.len() && (#[trigger] parts[k]).contains(p);
            assert(all[n + k].members == parts[k]);
        } else {
            assert(in_some_group(groups, r, p));
            let k = choose|k: int|
                0 <= k < groups.len() && (#[trigger] groups[k]).reg == r
                    && groups[k].members.contains(p);
            assert(all[k] == groups[k]);
        }
    }
    assert forall|k: int, a: int, l: int, b: int|
        0 <= k < all.len() && 0 <= a < all[k].members.len() && 0 <= l < all.len() && 0 <= b
            < all[l].members.len() && all[k].reg == all[l].reg implies (connected(
        succs,
        metrics_of(env, more[all[k].reg]),
        #[trigger] all[k].members[a],
        #[trigger] all[l].members[b],
    ) <==> k == l) by {
        if k < n {
            assert(all[k] == groups[k]);
            assert(all[l] == groups[l]);
            assert(groups[k].members[a] == all[k].members[a]);
            assert(groups[l].members[b] == all[l].members[b]);
        } else {
            assert(all[k].members == parts[k - n]);
            assert(all[l].members == parts[l - n]);
            assert(parts[k - n][a] == all[k].members[a]);
            assert(parts[l - n][b] == all[l].members[b]);
        }
    }
    assert forall|k: int, l: int|
        0 <= k < l < all.len() && (#[trigger] all[k]).reg == (
        #[trigger] all[l]).reg implies locals_first(
        metrics_of(env, more[all[k].reg]),
        all[k].members,
        all[l].members,
    ) by {
        if k < n {
            assert(all[k] == groups[k]);
            assert(all[l] == groups[l]);
        } else {
            assert(all[k].members == parts[k - n]);
            assert(all[l].members == parts[l - n]);
        }
    }
    assert forall|j: int, k: int, l: int|
        0 <= j < k < l < all.len() && (#[trigger] all[j]).reg == (
        #[trigger] all[l]).reg implies (#[trigger] all[k]).reg == all[j].reg by {
        if j < n {
            assert(all[j] == groups[j] && all[k] == groups[k] && all[l] == groups[l]);
        }
    }
}

/// Merges the fragments of all registers into live intervals: the fixed intervals of the real
/// registers, whose fragments are in no particular order yet, and the intervals of the virtual
/// registers.
///
/// Two fragments of a register end up in one interval exactly if liveness flows between them,
/// directly or by way of others.
pub fn merge_range_frags(
    reg_universe: &RealRegUniverse,
    frag_ix_vec_per_reg: &RegMap<Vec<RangeFragIx>>,
    frag_env: &Vec<RangeFrag>,
    frag_metrics_env: &Vec<RangeFragMetrics>,
    cfg_info: &CFGInfo,
) -> (r: (Vec<FixedInterval>, Vec<VirtualInterval>))
    requires
        frag_env@.len() == frag_metrics_env@.len(),
        forall|reg: Reg, k: int|
            frag_ix_vec_per_reg@.contains_key(reg) && 0 <= k < frag_ix_vec_per_reg@[reg]@.len()
                ==> (#[trigger] frag_ix_vec_per_reg@[reg]@[k]).ix < frag_env@.len(),
        forall|reg: Reg| #[trigger]
            frag_ix_vec_per_reg@.contains_key(reg) && reg.spec_is_real() ==> reg.real_index()
                < reg_universe.regs@.len(),
        flows_known(
            ix_lists(frag_ix_vec_per_reg@),
            frag_metrics_env@,
            cfg_info.succ_map@.len() as int,
        ),
    ensures
        are_merged(
            *reg_universe,
            MergeInput {
                lists: ix_lists(frag_ix_vec_per_reg@),
                frags: frag_views(frag_env@),
                metrics: frag_metrics_env@,
                succs: cfg_info.succs(),
            },
            r.0@,
            r.1@,
        ),
{
    let ghost map = ix_lists(frag_ix_vec_per_reg@);
    let ghost views = frag_views(frag_env@);
    let ghost env = frag_metrics_env@;
    let ghost succs = cfg_info.succs();
    let mut result_fixed: Vec<FixedInterval> = Vec::with_capacity(reg_universe.regs.len());
    let mut i: usize = 0;
    while i < reg_universe.regs.len()
        invariant
            i <= reg_universe.regs@.len(),
            result_fixed@.len() == i,
            forall|k: int|
                0 <= k < i ==> {
                    &&& (#[trigger] result_fixed@[k]).reg == reg_universe.regs@[k].0
                    &&& frag_views(result_fixed@[k].frags@) == Seq::<FragView>::empty()
                },
        decreases reg_universe.regs@.len() - i,
    {
        let frags: Vec<RangeFrag> = Vec::new();
        assert(frag_views(frags@) =~= Seq::<FragView>::empty());
        result_fixed.push(FixedInterval { reg: reg_universe.regs[i].0, frags });
        i += 1;
    }
    let mut result_virtual: Vec<VirtualInterval> = Vec::new();
    let ghost prefill = result_fixed@;
    let ghost mut groups: Seq<Group> = Seq::empty();
    let regs = frag_ix_vec_per_reg.regs();
    proof {
        assert(group_pieces(map, views, groups) =~= Seq::<Piece>::empty());
        lemma_flushed_none(prefill, result_virtual@);
        assert(map.restrict(regs@.take(0).to_set()) =~= Map::empty());
        assert(result_virtual@ =~= Seq::<VirtualInterval>::empty());
    }
    let mut i: usize = 0;
    while i < regs.len()
        invariant
            i <= regs@.len(),
            regs@.no_duplicates(),
            forall|r: Reg| regs@.contains(r) <==> frag_ix_vec_per_reg@.contains_key(r),
            map == ix_lists(frag_ix_vec_per_reg@),
            views == frag_views(frag_env@),
            env == frag_metrics_env@,
            succs == cfg_info.succs(),
            frag_env@.len() == frag_metrics_env@.len(),
            forall|reg: Reg, k: int|
                frag_ix_vec_per_reg@.contains_key(reg) && 0 <= k
                    < frag_ix_vec_per_reg@[reg]@.len() ==> (
                #[trigger] frag_ix_vec_per_reg@[reg]@[k]).ix < frag_env@.len(),
            forall|reg: Reg| #[trigger]
                frag_ix_vec_per_reg@.contains_key(reg) && reg.spec_is_real() ==> reg.real_index()
                    < reg_universe.regs@.len(),
            flows_known(map, env, cfg_info.succ_map@.len() as int),
            result_fixed@.len() == prefill.len() == reg_universe.regs@.len(),
            forall|k: int|
                0 <= k < prefill.len() ==> {
                    &&& (#[trigger] prefill[k]).reg == reg_universe.regs@[k].0
                    &&& frag_views(prefill[k].frags@) == Seq::<FragView>::empty()
                },
            are_groups(map.restrict(regs@.take(i as int).to_set()), env, succs, groups),
            flushed_all(
                prefill,
                Seq::empty(),
                group_pieces(map, views, groups),
                result_fixed@,
                result_virtual@,
            ),
        decreases regs@.len() - i,
    {
        let reg = regs[i];
        let ghost fixed1 = result_fixed@;
        let ghost virt1 = result_virtual@;
        assert(regs@.contains(reg));
        match frag_ix_vec_per_reg.get(reg) {
            Some(ixs) => {
                assert forall|k: int| 0 <= k < ixs@.len() implies (#[trigger] ixs@[k]).ix
                    < frag_env@.len() by {
                    assert(frag_ix_vec_per_reg@[reg]@[k].ix < frag_env@.len());
                }
                assert(map.contains_key(reg) && map[reg] == ixs@);
                merge_frags_of_reg(
                    &mut result_fixed,
                    &mut result_virtual,
                    reg,
                    ixs,
                    frag_env,
                    frag_metrics_env,
                    cfg_info,
                );
                proof {
                    let parts = choose|parts: Seq<Seq<int>>|
                        {
                            &&& #[trigger] is_partition(succs, metrics_of(env, ixs@), parts)
                            &&& flushed_all(
                                fixed1,
                                virt1,
                                pieces_of(reg, views, ixs@, parts),
                                result_fixed@,
                                result_virtual@,
                            )
                        };
                    let done = map.restrict(regs@.take(i as int).to_set());
                    let new = parts.map_values(|part: Seq<int>| Group { reg, members: part });
                    assert(!regs@.take(i as int).contains(reg));
                    assert(map[reg] == ixs@);
                    lemma_groups_one_more(done, env, succs, groups, reg, ixs@, parts);
                    lemma_take_set(regs@, i as int);
                    assert(map.restrict(regs@.take(i + 1).to_set()) =~= done.insert(reg, ixs@));
                    lemma_flushed_append(
                        prefill,
                        Seq::empty(),
                        group_pieces(map, views, groups),
                        fixed1,
                        virt1,
                        pieces_of(reg, views, ixs@, parts),
                        result_fixed@,
                        result_virtual@,
                    );
                    assert(group_pieces(map, views, groups + new) =~= group_pieces(
                        map,
                        views,
                        groups,
                    ) + pieces_of(reg, views, ixs@, parts));
                    groups = groups + new;
                }
            },
            None => {
                assert(false);
            },
        }
        i += 1;
    }
    proof {
        assert(regs@.take(i as int) =~= regs@);
        assert(map.restrict(regs@.take(i as int).to_set()) =~= map);
        let pieces = group_pieces(map, views, groups);
        assert forall|k: int| 0 <= k < result_fixed@.len() implies frag_views(
            (#[trigger] result_fixed@[k]).frags@,
        ) == real_frags(pieces, k) by {
            assert(frag_views(result_fixed@[k].frags@) =~= real_frags(pieces, k));
        }
        let input = MergeInput { lists: map, frags: views, metrics: env, succs };
        assert(are_groups(input.lists, input.metrics, input.succs, groups));
        assert(are_intervals(*reg_universe, pieces, result_fixed@, result_virtual@));
    }
    (result_fixed, result_virtual)
}

} // verus!
