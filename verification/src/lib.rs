//! A stratified, tick-based dataflow engine: a scheduler that owns subgraphs,
//! handoffs and state, and the incremental join tables that operators build on.
pub mod scheduled;
pub mod compiled;
pub mod lattices;
pub mod util;
