//! Sparse lookup tables over the scalar field of the BN254 curve.
//!
//! A table maps a handful of field-element keys to values; every other index
//! in `[0, maximum]` holds a shared default. Lookup is a binary search over
//! the sorted keys, and a table renders itself as a text literal.

pub mod field;
pub mod sort;
pub mod sparse;
pub mod text;
pub mod packed;
