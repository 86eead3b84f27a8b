//! Interval tree clocks: causality tracking for a dynamic number of
//! participants, with identities and event records kept as binary trees.

pub mod bin_coding;
pub mod cost;
pub mod event_tree;
pub mod id_tree;
pub mod interval_tree_clock;
pub mod less_than_or_equal;
pub mod normalisable;
pub mod partial_order;
pub mod stamp;
