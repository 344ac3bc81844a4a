//! The two ends of a handoff, as handed to the subgraphs that use it.
use vstd::prelude::*;
use crate::scheduled::HandoffId;

verus! {

/// The writing end of a handoff.
#[derive(Clone, Copy, Debug, PartialEq, Eq, Structural)]
pub struct SendPort {
    pub handoff_id: HandoffId,
}

/// The reading end of a handoff.
#[derive(Clone, Copy, Debug, PartialEq, Eq, Structural)]
pub struct RecvPort {
    pub handoff_id: HandoffId,
}

/// The handoffs behind a list of sending ends, port by port.
pub open spec fn send_handoffs(ports: Seq<SendPort>) -> Seq<HandoffId> {
    Seq::new(ports.len(), |i: int| ports[i].handoff_id)
}

/// The handoffs behind a list of reading ends, port by port.
pub open spec fn recv_handoffs(ports: Seq<RecvPort>) -> Seq<HandoffId> {
    Seq::new(ports.len(), |i: int| ports[i].handoff_id)
}

} // verus!
