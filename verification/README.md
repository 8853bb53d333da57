# linear_scan_analysis

The liveness analysis of a linear-scan register allocator, verified with Verus.

`analysis::run` takes a function (the `Function` trait), its control flow and the registers of its
instructions. It works out which registers are live where each block starts and ends, cuts the life
of each register into fragments, one block at a time, and merges the fragments between which
liveness flows into intervals.

| Module | What it holds |
| --- | --- |
| `data_structures`, `function`, `control_flow` | registers, points, instructions, blocks, jumps |
| `sparse_set`, `reg_map`, `union_find`, `sorting`, `small_lists` | collections and sorting |
| `data_flow` | live-in and live-out sets |
| `block_model`, `range_frags` | the fragments of a block, as mathematics and as code |
| `merging`, `intervals` | live ranges and intervals |
| `analysis` | the whole analysis |
| `frag_properties`, `interval_properties`, `fixed_properties`, `merging_properties`, `analysis_properties` | what holds of every result |
| `seq_facts`, `text` | facts about sequences, text for logs |

Two modules rest on code that is not verified here: `small_lists` on the `smallvec` crate, and
`sorting` on the standard library's unstable sort. Each function that does so says what it takes for
granted.

A client implements `Function`. Its contracts ask that the methods report one and the same function
at every call, with blocks that are not empty.
