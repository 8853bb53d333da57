//! Merging fragments into intervals.

use linear_scan_analysis::control_flow::CFGInfo;
use linear_scan_analysis::data_structures::{
    BlockIx, InstIx, InstPoint, Mention, RangeFragIx, RealReg, RealRegUniverse, Reg,
};
use linear_scan_analysis::intervals::{
    flush_interval, FixedInterval, IntId, VirtualInterval,
};
use linear_scan_analysis::merging::merge_range_frags;
use linear_scan_analysis::range_frags::{RangeFrag, RangeFragKind, RangeFragMetrics};
use linear_scan_analysis::reg_map::RegMap;

fn v(index: u32) -> Reg {
    Reg::new_virtual(0, index)
}

fn r(index: u8) -> Reg {
    Reg::new_real(0, index, index)
}

fn flow(succs: &[&[u32]]) -> CFGInfo {
    CFGInfo {
        succ_map: succs
            .iter()
            .map(|s| s.iter().map(|&ix| BlockIx { ix }).collect())
            .collect(),
        depth_map: vec![0; succs.len()],
    }
}

fn used(ix: u32) -> (InstIx, Mention) {
    (InstIx { ix }, Mention { used: true, modified: false, defined: false })
}

fn modified(ix: u32) -> (InstIx, Mention) {
    (InstIx { ix }, Mention { used: false, modified: true, defined: false })
}

fn defined(ix: u32) -> (InstIx, Mention) {
    (InstIx { ix }, Mention { used: false, modified: false, defined: true })
}

fn frag(first: u64, last: u64, mentions: Vec<(InstIx, Mention)>) -> RangeFrag {
    RangeFrag { first: InstPoint { bits: first }, last: InstPoint { bits: last }, mentions }
}

fn ixs(v: &[u32]) -> Vec<RangeFragIx> {
    v.iter().map(|&ix| RangeFragIx { ix }).collect()
}

fn fixeds(n: u8) -> Vec<FixedInterval> {
    (0..n).map(|k| FixedInterval { reg: RealReg { reg: r(k) }, frags: vec![] }).collect()
}

fn metrics(bix: u32, kind: RangeFragKind) -> RangeFragMetrics {
    RangeFragMetrics { bix: BlockIx { ix: bix }, kind }
}

/// The bounds of the intervals of a register, in the order in which they start.
fn bounds_of(virtuals: &[VirtualInterval], reg: Reg) -> Vec<(u64, u64)> {
    let mut found: Vec<(u64, u64)> = virtuals
        .iter()
        .filter(|i| i.vreg.reg == reg)
        .map(|i| (i.start.bits, i.end.bits))
        .collect();
    found.sort();
    found
}

#[test]
fn flushing_a_virtual_register_makes_an_interval() {
    let frags = vec![
        frag(14, 21, vec![defined(3), used(4), used(5)]),
        frag(100, 100, vec![used(25)]),
        frag(2, 9, vec![defined(0), used(2)]),
    ];
    let mut real = fixeds(2);
    let mut virt = vec![];
    flush_interval(&mut real, &mut virt, v(9), &ixs(&[0, 2]), &frags);
    assert_eq!(virt.len(), 1);
    assert_eq!(virt[0].id, IntId { id: 0 });
    assert_eq!(virt[0].ancestor, Some(IntId { id: 0 }));
    assert_eq!(virt[0].vreg.reg, v(9));
    assert_eq!(virt[0].start.bits, 2);
    assert_eq!(virt[0].end.bits, 21);
    // The mentions are sorted by instruction.
    assert_eq!(
        virt[0].mentions,
        vec![defined(0), used(2), defined(3), used(4), used(5)]
    );
    assert!(real[0].frags.is_empty() && real[1].frags.is_empty());
    flush_interval(&mut real, &mut virt, v(9), &ixs(&[1]), &frags);
    assert_eq!(virt.len(), 2);
    assert_eq!(virt[1].id, IntId { id: 1 });
    assert_eq!(virt[1].ancestor, Some(IntId { id: 1 }));
    assert_eq!(virt[0].end.bits, 21);
}

#[test]
fn mentions_of_one_instruction_become_one() {
    let frags = vec![
        frag(10, 14, vec![defined(2), modified(3)]),
        frag(1, 9, vec![used(1), used(2)]),
        frag(13, 13, vec![used(3)]),
    ];
    let mut real = vec![];
    let mut virt = vec![];
    flush_interval(&mut real, &mut virt, v(0), &ixs(&[0, 1, 2]), &frags);
    assert_eq!(
        virt[0].mentions,
        vec![
            used(1),
            (InstIx { ix: 2 }, Mention { used: true, modified: false, defined: true }),
            (InstIx { ix: 3 }, Mention { used: true, modified: true, defined: false }),
        ]
    );
}

#[test]
fn the_order_of_fragments_does_not_matter_to_an_interval() {
    let frags = vec![
        frag(10, 14, vec![defined(2), modified(3)]),
        frag(1, 9, vec![used(1), used(2)]),
        frag(13, 13, vec![used(3)]),
    ];
    let mut real = vec![];
    let mut virt = vec![];
    for order in [[0, 1, 2], [2, 1, 0], [1, 0, 2]] {
        flush_interval(&mut real, &mut virt, v(0), &ixs(&order), &frags);
    }
    for i in virt.iter() {
        assert_eq!(i.start, virt[0].start);
        assert_eq!(i.end, virt[0].end);
        assert_eq!(i.mentions, virt[0].mentions);
    }
}

#[test]
fn flushing_nothing_makes_an_empty_interval() {
    let mut real = vec![];
    let mut virt = vec![];
    flush_interval(&mut real, &mut virt, v(0), &[], &vec![]);
    assert_eq!(virt[0].start, InstPoint::max_value());
    assert_eq!(virt[0].end, InstPoint::min_value());
    assert!(virt[0].mentions.is_empty());
}

#[test]
fn flushing_a_real_register_appends_to_its_interval() {
    let frags = vec![frag(14, 21, vec![used(5)]), frag(2, 9, vec![]), frag(30, 30, vec![])];
    let mut real = fixeds(3);
    let mut virt = vec![];
    flush_interval(&mut real, &mut virt, r(1), &ixs(&[2]), &frags);
    flush_interval(&mut real, &mut virt, r(1), &ixs(&[0, 1]), &frags);
    assert!(virt.is_empty());
    assert!(real[0].frags.is_empty() && real[2].frags.is_empty());
    let firsts: Vec<u64> = real[1].frags.iter().map(|f| f.first.bits).collect();
    assert_eq!(firsts, vec![30, 14, 2]);
    assert_eq!(real[1].frags[1].mentions, vec![used(5)]);
    assert_eq!(real[1].reg.reg, r(1));
}

/// Merges fragments of `v(0)` with the given blocks and kinds; fragment `k` starts at `10 * k` and
/// ends at `10 * k + 5`.
fn merge(kinds: &[(u32, RangeFragKind)], succs: &[&[u32]]) -> Vec<VirtualInterval> {
    let n = kinds.len() as u64;
    let mut map = RegMap::new();
    map.insert(v(0), ixs(&(0..n as u32).collect::<Vec<u32>>()));
    let frags: Vec<RangeFrag> = (0..n).map(|k| frag(10 * k, 10 * k + 5, vec![])).collect();
    let env: Vec<RangeFragMetrics> = kinds.iter().map(|&(b, kind)| metrics(b, kind)).collect();
    let (real, virt) =
        merge_range_frags(&RealRegUniverse { regs: vec![] }, &map, &frags, &env, &flow(succs));
    assert!(real.is_empty());
    virt
}

#[test]
fn a_single_fragment_is_an_interval() {
    for kind in [
        RangeFragKind::Local,
        RangeFragKind::LiveIn,
        RangeFragKind::LiveOut,
        RangeFragKind::Thru,
    ] {
        let virt = merge(&[(0, kind)], &[&[0]]);
        assert_eq!(bounds_of(&virt, v(0)), vec![(0, 5)]);
    }
}

#[test]
fn fragments_join_along_jumps_only() {
    // The second block is reached from the first; nothing jumps to the third.
    let kinds = [
        (0, RangeFragKind::LiveOut),
        (1, RangeFragKind::LiveIn),
        (2, RangeFragKind::LiveIn),
    ];
    let virt = merge(&kinds, &[&[1], &[], &[]]);
    assert_eq!(bounds_of(&virt, v(0)), vec![(0, 15), (20, 25)]);
    // The same, seen from where the jump leads to: the jump back joins nothing, since nothing flows
    // out of the second block.
    let virt = merge(&kinds, &[&[], &[0], &[]]);
    assert_eq!(bounds_of(&virt, v(0)), vec![(0, 5), (10, 15), (20, 25)]);
}

#[test]
fn fragments_join_through_others() {
    let kinds = [
        (2, RangeFragKind::LiveIn),
        (0, RangeFragKind::LiveOut),
        (1, RangeFragKind::Thru),
    ];
    let virt = merge(&kinds, &[&[1], &[2], &[]]);
    assert_eq!(bounds_of(&virt, v(0)), vec![(0, 25)]);
}

#[test]
fn a_fragment_that_touches_no_end_is_alone() {
    let kinds = [
        (0, RangeFragKind::Thru),
        (0, RangeFragKind::Local),
        (1, RangeFragKind::Thru),
        (1, RangeFragKind::Local),
    ];
    let virt = merge(&kinds, &[&[0, 1], &[0, 1]]);
    assert_eq!(bounds_of(&virt, v(0)), vec![(0, 25), (10, 15), (30, 35)]);
    // Those come first, in their order.
    assert_eq!(virt[0].start.bits, 10);
    assert_eq!(virt[1].start.bits, 30);
    assert_eq!(virt[2].start.bits, 0);
}

#[test]
fn a_live_in_and_a_live_out_fragment_of_one_block_stay_apart() {
    let kinds = [(0, RangeFragKind::LiveIn), (0, RangeFragKind::LiveOut)];
    assert_eq!(bounds_of(&merge(&kinds, &[&[]]), v(0)), vec![(0, 5), (10, 15)]);
    // A jump of the block to itself joins them.
    assert_eq!(bounds_of(&merge(&kinds, &[&[0]]), v(0)), vec![(0, 15)]);
}

/// Many fragments that pass through their blocks; block `b` jumps to block `b + step`.
fn many(n: u32, step: u32) -> Vec<(u64, u64)> {
    let succs: Vec<Vec<u32>> =
        (0..n).map(|b| if b + step < n { vec![b + step] } else { vec![] }).collect();
    let slices: Vec<&[u32]> = succs.iter().map(|s| s.as_slice()).collect();
    // The fragments are not listed in the order of their blocks.
    let kinds: Vec<(u32, RangeFragKind)> =
        (0..n).map(|k| (k * 7 % n, RangeFragKind::Thru)).collect();
    bounds_of(&merge(&kinds, &slices), v(0))
}

#[test]
fn few_and_many_fragments_merge_alike() {
    // Up to some number, fragments are compared one by one, and above it they are searched for.
    for n in [250, 251, 400] {
        assert_eq!(many(n, 1), vec![(0, 10 * (n as u64 - 1) + 5)]);
        assert_eq!(many(n, n).len(), n as usize);
        assert_eq!(many(n, 2).len(), 2);
        assert_eq!(many(n, 3).len(), 3);
    }
}

#[test]
fn many_fragments_of_mixed_kinds_merge() {
    // Each block holds the end of one value and the start of the next.
    let n = 300u32;
    let mut kinds = vec![];
    for b in (0..n).rev() {
        kinds.push((b, RangeFragKind::LiveOut));
        kinds.push((b, RangeFragKind::LiveIn));
    }
    let succs: Vec<Vec<u32>> = (0..n).map(|b| vec![(b + 1) % n]).collect();
    let slices: Vec<&[u32]> = succs.iter().map(|s| s.as_slice()).collect();
    let virt = merge(&kinds, &slices);
    assert_eq!(virt.len(), n as usize);
    for (k, i) in virt.iter().enumerate() {
        assert_eq!(i.id, IntId { id: k });
    }
}

#[test]
fn registers_do_not_mix() {
    let mut map = RegMap::new();
    map.insert(v(0), ixs(&[0]));
    map.insert(v(1), ixs(&[1, 2]));
    map.insert(r(1), ixs(&[3, 4]));
    let frags = vec![
        frag(1, 6, vec![]),
        frag(2, 6, vec![]),
        frag(9, 9, vec![]),
        frag(12, 13, vec![]),
        frag(3, 4, vec![]),
    ];
    let env = vec![
        metrics(0, RangeFragKind::Thru),
        metrics(0, RangeFragKind::LiveOut),
        metrics(1, RangeFragKind::LiveIn),
        metrics(0, RangeFragKind::Local),
        metrics(1, RangeFragKind::Local),
    ];
    let univ = RealRegUniverse {
        regs: vec![
            (RealReg { reg: r(0) }, format!("r0")),
            (RealReg { reg: r(1) }, format!("r1")),
        ],
    };
    let (real, virt) = merge_range_frags(&univ, &map, &frags, &env, &flow(&[&[1], &[0]]));
    assert_eq!(virt.len(), 2);
    assert_eq!(bounds_of(&virt, v(0)), vec![(1, 6)]);
    assert_eq!(bounds_of(&virt, v(1)), vec![(2, 9)]);
    assert_eq!(real.len(), 2);
    assert!(real[0].frags.is_empty());
    assert_eq!(real[1].reg.reg, r(1));
    let mut firsts: Vec<u64> = real[1].frags.iter().map(|f| f.first.bits).collect();
    firsts.sort();
    assert_eq!(firsts, vec![3, 12]);
}

/// Register, start, end and mentions of each interval, in a fixed order.
fn said(virtuals: &[VirtualInterval]) -> Vec<(Reg, u64, u64, Vec<(InstIx, Mention)>)> {
    let mut all: Vec<(Reg, u64, u64, Vec<(InstIx, Mention)>)> = virtuals
        .iter()
        .map(|i| (i.vreg.reg, i.start.bits, i.end.bits, i.mentions.clone()))
        .collect();
    all.sort();
    all
}

/// The first points of the fragments of each fixed interval, in a fixed order.
fn fixed_firsts(fixeds: &[FixedInterval]) -> Vec<Vec<u64>> {
    fixeds
        .iter()
        .map(|f| {
            let mut firsts: Vec<u64> = f.frags.iter().map(|f| f.first.bits).collect();
            firsts.sort();
            firsts
        })
        .collect()
}

/// Six fragments of `v(0)` and two of `r(1)`, in four blocks, listed in the given orders.
fn merge_lists(
    virt: &[u32],
    real: &[u32],
    kinds: &[(u32, RangeFragKind)],
    succs: &[&[u32]],
) -> (Vec<FixedInterval>, Vec<VirtualInterval>) {
    let mut map = RegMap::new();
    map.insert(v(0), ixs(virt));
    map.insert(r(1), ixs(real));
    let frags: Vec<RangeFrag> =
        (0..8).map(|k| frag(10 * k, 10 * k + 5, vec![used(k as u32), used(k as u32 + 1)])).collect();
    let env: Vec<RangeFragMetrics> = kinds.iter().map(|&(b, kind)| metrics(b, kind)).collect();
    let univ = RealRegUniverse {
        regs: vec![
            (RealReg { reg: r(0) }, format!("r0")),
            (RealReg { reg: r(1) }, format!("r1")),
        ],
    };
    merge_range_frags(&univ, &map, &frags, &env, &flow(succs))
}

const KINDS: [(u32, RangeFragKind); 8] = [
    (0, RangeFragKind::LiveOut),
    (1, RangeFragKind::Thru),
    (2, RangeFragKind::LiveIn),
    (2, RangeFragKind::Local),
    (2, RangeFragKind::LiveOut),
    (3, RangeFragKind::LiveIn),
    (0, RangeFragKind::LiveOut),
    (1, RangeFragKind::LiveIn),
];

const SUCCS: [&[u32]; 4] = [&[1], &[2], &[3], &[]];

#[test]
fn the_order_of_the_lists_does_not_matter() {
    let (real, virt) = merge_lists(&[0, 1, 2, 3, 4, 5], &[6, 7], &KINDS, &SUCCS);
    assert_eq!(bounds_of(&virt, v(0)), vec![(0, 25), (30, 35), (40, 55)]);
    assert_eq!(fixed_firsts(&real), vec![vec![], vec![60, 70]]);
    for order in [[5, 4, 3, 2, 1, 0], [2, 0, 4, 1, 5, 3]] {
        let (new_real, new_virt) = merge_lists(&order, &[7, 6], &KINDS, &SUCCS);
        assert_eq!(said(&new_virt), said(&virt));
        assert_eq!(fixed_firsts(&new_real), fixed_firsts(&real));
    }
}

#[test]
fn merging_along_predecessors_gives_the_same() {
    let (real, virt) = merge_lists(&[0, 1, 2, 3, 4, 5], &[6, 7], &KINDS, &SUCCS);
    let turned: Vec<(u32, RangeFragKind)> = KINDS
        .iter()
        .map(|&(b, kind)| {
            let kind = match kind {
                RangeFragKind::LiveIn => RangeFragKind::LiveOut,
                RangeFragKind::LiveOut => RangeFragKind::LiveIn,
                other => other,
            };
            (b, kind)
        })
        .collect();
    let preds: [&[u32]; 4] = [&[], &[0], &[1], &[2]];
    let (new_real, new_virt) = merge_lists(&[0, 1, 2, 3, 4, 5], &[6, 7], &turned, &preds);
    assert_eq!(said(&new_virt), said(&virt));
    assert_eq!(fixed_firsts(&new_real), fixed_firsts(&real));
}

#[test]
fn more_jumps_make_intervals_grow_together() {
    let all: &[u32] = &[0, 1, 2, 3, 4, 5];
    let fewer: [&[u32]; 4] = [&[1], &[], &[], &[]];
    let (real, virt) = merge_lists(all, &[6, 7], &KINDS, &fewer);
    let more: [&[u32]; 4] = [&[1, 2], &[2], &[3, 2], &[]];
    let (new_real, new_virt) = merge_lists(all, &[6, 7], &KINDS, &more);
    assert_eq!(virt.len(), 5);
    assert_eq!(new_virt.len(), 2);
    assert_eq!(fixed_firsts(&new_real), fixed_firsts(&real));
    for i in virt.iter() {
        assert!(new_virt.iter().any(|j| {
            j.start <= i.start
                && i.end <= j.end
                && i.mentions.iter().all(|m| j.mentions.iter().any(|n| n.0 == m.0))
        }));
    }
}

#[test]
fn a_chain_is_one_interval_with_jumps_and_many_without() {
    for n in [2u32, 3, 249, 250, 251, 252, 500] {
        let kinds: Vec<(u32, RangeFragKind)> = (0..n)
            .map(|b| {
                let kind = if b == 0 {
                    RangeFragKind::LiveOut
                } else if b == n - 1 {
                    RangeFragKind::LiveIn
                } else {
                    RangeFragKind::Thru
                };
                (b, kind)
            })
            .collect();
        let succs: Vec<Vec<u32>> =
            (0..n).map(|b| if b + 1 < n { vec![b + 1] } else { vec![] }).collect();
        let jumps: Vec<&[u32]> = succs.iter().map(|s| s.as_slice()).collect();
        let virt = merge(&kinds, &jumps);
        assert_eq!(bounds_of(&virt, v(0)), vec![(0, 10 * (n as u64 - 1) + 5)]);
        let none: Vec<&[u32]> = (0..n).map(|_| -> &[u32] { &[] }).collect();
        assert_eq!(merge(&kinds, &none).len(), n as usize);
    }
}

#[test]
fn only_blocks_that_liveness_flows_out_of_are_looked_up() {
    // The last fragment is in a block without an entry, but nothing flows out of it there.
    let kinds = [(0, RangeFragKind::LiveOut), (7, RangeFragKind::LiveIn)];
    assert_eq!(bounds_of(&merge(&kinds, &[&[7]]), v(0)), vec![(0, 15)]);
    // A register with one fragment needs no lookup at all.
    assert_eq!(bounds_of(&merge(&[(9, RangeFragKind::Thru)], &[]), v(0)), vec![(0, 5)]);
}
