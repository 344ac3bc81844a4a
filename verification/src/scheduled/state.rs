//! Handles to the state cells that a graph keeps for its operators.
use vstd::prelude::*;

verus! {

/// Names one state cell of a graph. A handle stays valid for the life of the
/// graph that issued it: cells are only ever added.
#[derive(Clone, Copy, Debug, PartialEq, Eq, Structural)]
pub struct StateHandle {
    pub state_id: usize,
}

} // verus!
