//! Core of a differential dataflow engine: weights, Z-set consolidation,
//! cursors over sorted batches, incremental operators and nested timestamps.

pub mod algebra;
pub mod checked_int;
pub mod consolidation;
pub mod layers;
pub mod cursor;
pub mod batch;
pub mod group;
pub mod time;
pub mod nexmark;
pub mod aggregate;
pub mod apply2;
pub mod runtime;
pub mod finite_map;
pub mod stream;
pub mod join;
