//! Cell lists (linked-cell indexes) group the indices of a fixed collection
//! into integer-keyed cells, the classic acceleration structure that turns an
//! all-pairs interaction scan over N points into a linear neighbor scan.
//!
//! [`cell_list`] holds the generic engine: one growable array of predecessor
//! links plus a key-to-chain-head map, giving allocation-free chains with
//! constant-time insertion and reverse-insertion-order iteration.
//!
//! [`grid`] holds the spatial layer: the flattening of per-axis grid cell
//! indices into a single cell key, and the bulk construction of a cell list
//! from per-point grid coordinates.

pub mod cell_list;
pub mod grid;
