//! The code of a subgraph, as the scheduler sees it.
use vstd::prelude::*;
use crate::scheduled::context::Context;

verus! {

/// A compiled subgraph: one unit of dataflow work that the scheduler runs as
/// a whole. A graph holds subgraphs of one type; a graph with several kinds of
/// subgraph uses an enum of them.
pub trait Subgraph {
    /// What the handoffs of the graph carry.
    type Item;

    /// What the state cells of the graph hold.
    type State;

    /// Runs one pass: takes what the receive ports hold, gives to the send
    /// ports, and may ask for subgraphs to be scheduled. The scheduler makes no
    /// assumption about what a pass does with its context.
    fn run(&mut self, context: &mut Context<Self::Item, Self::State>);
}

} // verus!
