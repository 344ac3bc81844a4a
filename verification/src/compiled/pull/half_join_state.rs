//! One side of a symmetric hash join.
pub mod bucket;
pub mod lattice;
pub mod set;
