//! Helpers for operators that pull their input.
pub mod half_join_state;
pub mod symmetric_hash_join;
pub mod symmetric_lattice_join;
