//! Liveness analysis for a linear-scan register allocator.
//!
//! The analysis turns a function, given as basic blocks of instructions that read, modify and
//! write registers, into live intervals. It works in three steps: live-in and live-out sets per
//! block ([`data_flow`]), live-range fragments inside each block ([`range_frags`]), and the
//! merging of those fragments across blocks into intervals ([`merging`], [`intervals`]).
//! [`analysis::run`] performs all of them, and [`analysis_properties`] states what holds of its
//! results.
//!
//! What each step gives is also told in words that read the inputs straight off their fields
//! ([`plain`]): which registers are live where and when a function is refused
//! ([`liveness_laws`]), what the fragments are ([`fragment_laws`], [`value_laws`],
//! [`block_laws`]), in which order they stand ([`order_laws`]), how they are merged
//! ([`merging_properties`]), and what the intervals are ([`result_laws`]).

pub mod analysis;
pub mod analysis_properties;
pub mod block_laws;
pub mod block_model;
pub mod control_flow;
pub mod data_flow;
pub mod data_structures;
pub mod fixed_properties;
pub mod frag_properties;
pub mod fragment_laws;
pub mod function;
pub mod interval_properties;
pub mod intervals;
pub mod liveness_laws;
pub mod merging;
pub mod merging_properties;
pub mod order_laws;
pub mod plain;
pub mod range_frags;
pub mod reg_map;
pub mod result_laws;
pub mod seq_facts;
pub mod small_lists;
pub mod sorting;
pub mod sparse_set;
pub mod text;
pub mod union_find;
pub mod value_laws;
