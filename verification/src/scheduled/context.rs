//! What one run of a subgraph sees of the graph, and what it leaves behind.
use vstd::prelude::*;
use crate::scheduled::SubgraphId;
use crate::scheduled::state::StateHandle;

verus! {

/// The contents of a list of buffers, buffer by buffer.
pub open spec fn buffers<T>(bufs: Seq<Vec<T>>) -> Seq<Seq<T>> {
    Seq::new(bufs.len(), |i: int| bufs[i]@)
}

/// The context of one run of one subgraph. It tells the run where it is in
/// time, holds the items drained from the subgraph's receive ports, collects the
/// items given to its send ports and the subgraphs it asks to have scheduled,
/// and lends it the graph's state cells.
pub struct Context<T, St> {
    current_tick: usize,
    current_stratum: usize,
    subgraph_id: SubgraphId,
    recv: Vec<Vec<T>>,
    send: Vec<Vec<T>>,
    events: Vec<SubgraphId>,
    deferred: Vec<SubgraphId>,
    states: Vec<St>,
}

impl<T, St> Context<T, St> {
    /// The tick in which the run takes place.
    pub closed spec fn tick(&self) -> usize {
        self.current_tick
    }

    /// The stratum in which the run takes place.
    pub closed spec fn stratum(&self) -> usize {
        self.current_stratum
    }

    /// The subgraph that is running.
    pub closed spec fn subgraph(&self) -> SubgraphId {
        self.subgraph_id
    }

    /// The items still to be taken from each receive port.
    pub closed spec fn received(&self) -> Seq<Seq<T>> {
        buffers(self.recv@)
    }

    /// The items given so far to each send port.
    pub closed spec fn sent(&self) -> Seq<Seq<T>> {
        buffers(self.send@)
    }

    /// The subgraphs that the run has asked to have scheduled at once, in
    /// order.
    pub closed spec fn requested(&self) -> Seq<SubgraphId> {
        self.events@
    }

    /// The subgraphs that the run has asked to have scheduled in the next
    /// tick, in order.
    pub closed spec fn deferred(&self) -> Seq<SubgraphId> {
        self.deferred@
    }

    /// The state cells, by handle.
    pub closed spec fn cells(&self) -> Seq<St> {
        self.states@
    }

    /// A context for a run of `subgraph_id` at `(current_tick, current_stratum)`
    /// that has received `recv`, one buffer per receive port, and has
    /// `num_send` send ports with nothing given to them yet.
    pub fn new(
        current_tick: usize,
        current_stratum: usize,
        subgraph_id: SubgraphId,
        recv: Vec<Vec<T>>,
        num_send: usize,
        states: Vec<St>,
    ) -> (context: Self)
        ensures
            context.tick() == current_tick,
            context.stratum() == current_stratum,
            context.subgraph() == subgraph_id,
            context.received() == buffers(recv@),
            context.sent() == Seq::new(num_send as nat, |i: int| Seq::<T>::empty()),
            context.requested() == Seq::<SubgraphId>::empty(),
            context.deferred() == Seq::<SubgraphId>::empty(),
            context.cells() == states@,
    {
        let mut send: Vec<Vec<T>> = Vec::new();
        let mut i: usize = 0;
        while i < num_send
            invariant
                i <= num_send,
                send.len() == i,
                forall|j: int| 0 <= j < i ==> (#[trigger] send[j])@ == Seq::<T>::empty(),
            decreases num_send - i,
        {
            send.push(Vec::new());
            i += 1;
        }
        assert(buffers(send@) =~= Seq::new(num_send as nat, |i: int| Seq::<T>::empty()));
        Context {
            current_tick,
            current_stratum,
            subgraph_id,
            recv,
            send,
            events: Vec::new(),
            deferred: Vec::new(),
            states,
        }
    }

    /// The tick in which the run takes place.
    pub fn current_tick(&self) -> (tick: usize)
        ensures
            tick == self.tick(),
    {
        self.current_tick
    }

    /// The stratum in which the run takes place.
    pub fn current_stratum(&self) -> (stratum: usize)
        ensures
            stratum == self.stratum(),
    {
        self.current_stratum
    }

    /// The subgraph that is running.
    pub fn current_subgraph(&self) -> (id: SubgraphId)
        ensures
            id == self.subgraph(),
    {
        self.subgraph_id
    }

    /// The number of receive ports.
    pub fn num_recv(&self) -> (n: usize)
        ensures
            n == self.received().len(),
    {
        self.recv.len()
    }

    /// The number of send ports.
    pub fn num_send(&self) -> (n: usize)
        ensures
            n == self.sent().len(),
    {
        self.send.len()
    }

    /// Takes everything that receive port `port` still holds, oldest first.
    /// A second take from the same port finds it empty.
    pub fn take_recv(&mut self, port: usize) -> (items: Vec<T>)
        requires
            port < old(self).received().len(),
        ensures
            items@ == old(self).received()[port as int],
            final(self).received() == old(self).received().update(port as int, Seq::<T>::empty()),
            final(self).sent() == old(self).sent(),
            final(self).requested() == old(self).requested(),
            final(self).deferred() == old(self).deferred(),
            final(self).cells() == old(self).cells(),
            final(self).tick() == old(self).tick(),
            final(self).stratum() == old(self).stratum(),
            final(self).subgraph() == old(self).subgraph(),
    {
        let mut items: Vec<T> = Vec::new();
        std::mem::swap(&mut self.recv[port], &mut items);
        assert(buffers(self.recv@) =~= buffers(old(self).recv@).update(
            port as int,
            Seq::<T>::empty(),
        ));
        items
    }

    /// Gives `item` to send port `port`, behind what the port was given before.
    pub fn give(&mut self, port: usize, item: T)
        requires
            port < old(self).sent().len(),
        ensures
            final(self).sent() == old(self).sent().update(
                port as int,
                old(self).sent()[port as int].push(item),
            ),
            final(self).received() == old(self).received(),
            final(self).requested() == old(self).requested(),
            final(self).deferred() == old(self).deferred(),
            final(self).cells() == old(self).cells(),
            final(self).tick() == old(self).tick(),
            final(self).stratum() == old(self).stratum(),
            final(self).subgraph() == old(self).subgraph(),
    {
        self.send[port].push(item);
        assert(buffers(self.send@) =~= buffers(old(self).send@).update(
            port as int,
            buffers(old(self).send@)[port as int].push(item),
        ));
    }

    /// Asks for `sg_id` to be scheduled. With `is_external` the request is an
    /// event like one from outside the graph: the subgraph is scheduled as
    /// soon as this run is over. Without it the request is not urgent: the
    /// subgraph is scheduled when the next tick has begun. A subgraph that
    /// keeps state across ticks uses the second form on itself, to be run in
    /// every tick without holding the current one up.
    pub fn schedule_subgraph(&mut self, sg_id: SubgraphId, is_external: bool)
        ensures
            final(self).requested() == (if is_external {
                old(self).requested().push(sg_id)
            } else {
                old(self).requested()
            }),
            final(self).deferred() == (if is_external {
                old(self).deferred()
            } else {
                old(self).deferred().push(sg_id)
            }),
            final(self).received() == old(self).received(),
            final(self).sent() == old(self).sent(),
            final(self).cells() == old(self).cells(),
            final(self).tick() == old(self).tick(),
            final(self).stratum() == old(self).stratum(),
            final(self).subgraph() == old(self).subgraph(),
    {
        if is_external {
            self.events.push(sg_id);
        } else {
            self.deferred.push(sg_id);
        }
    }

    /// The number of state cells.
    pub fn num_states(&self) -> (n: usize)
        ensures
            n == self.cells().len(),
    {
        self.states.len()
    }

    /// Adds a state cell that starts as `state`, and returns its handle.
    pub fn add_state(&mut self, state: St) -> (handle: StateHandle)
        ensures
            handle.state_id == old(self).cells().len(),
            final(self).cells() == old(self).cells().push(state),
            final(self).received() == old(self).received(),
            final(self).sent() == old(self).sent(),
            final(self).requested() == old(self).requested(),
            final(self).deferred() == old(self).deferred(),
            final(self).tick() == old(self).tick(),
            final(self).stratum() == old(self).stratum(),
            final(self).subgraph() == old(self).subgraph(),
    {
        let handle = StateHandle { state_id: self.states.len() };
        self.states.push(state);
        handle
    }

    /// The state cell that `handle` names.
    pub fn state_ref(&self, handle: StateHandle) -> (state: &St)
        requires
            handle.state_id < self.cells().len(),
        ensures
            *state == self.cells()[handle.state_id as int],
    {
        &self.states[handle.state_id]
    }

    /// The state cell that `handle` names, to be changed in place.
    pub fn state_mut(&mut self, handle: StateHandle) -> (state: &mut St)
        requires
            handle.state_id < old(self).cells().len(),
        ensures
            *state == old(self).cells()[handle.state_id as int],
            final(self).cells() == old(self).cells().update(handle.state_id as int, *final(state)),
            final(self).received() == old(self).received(),
            final(self).sent() == old(self).sent(),
            final(self).requested() == old(self).requested(),
            final(self).deferred() == old(self).deferred(),
            final(self).tick() == old(self).tick(),
            final(self).stratum() == old(self).stratum(),
            final(self).subgraph() == old(self).subgraph(),
    {
        &mut self.states[handle.state_id]
    }

    /// Takes the context apart at the end of a run: what was given to each send
    /// port, the subgraphs to schedule at once, those to schedule in the next
    /// tick, and the state cells.
    pub fn into_parts(self) -> (parts: (Vec<Vec<T>>, Vec<SubgraphId>, Vec<SubgraphId>, Vec<St>))
        ensures
            buffers(parts.0@) == self.sent(),
            parts.1@ == self.requested(),
            parts.2@ == self.deferred(),
            parts.3@ == self.cells(),
    {
        (self.send, self.events, self.deferred, self.states)
    }
}

} // verus!
