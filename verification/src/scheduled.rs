//! The scheduler: subgraphs, the handoffs between them, and the stratified
//! tick loop that runs them.
use vstd::prelude::*;

pub mod context;
pub mod graph;
pub mod laws;
pub mod model;
pub mod handoff;
pub mod port;
pub mod state;
pub mod subgraph;

verus! {

/// Identifies a subgraph by its position in the graph's subgraph table.
#[derive(Clone, Copy, Debug, PartialEq, Eq, Structural, Hash)]
pub struct SubgraphId(pub usize);

/// Identifies a handoff by its position in the graph's handoff table.
#[derive(Clone, Copy, Debug, PartialEq, Eq, Structural, Hash)]
pub struct HandoffId(pub usize);

} // verus!
