//! The graph: it owns the subgraphs, the handoffs and the state cells, and
//! runs the subgraphs tick by tick and stratum by stratum.
use vstd::prelude::*;
use std::collections::VecDeque;
use crate::scheduled::{HandoffId, SubgraphId};
use crate::scheduled::context::{buffers, Context};
use crate::scheduled::handoff::VecHandoff;
use crate::scheduled::model::{total_runs, GraphView, RunOutcome, RunRecord};
use crate::scheduled::port::{recv_handoffs, send_handoffs, RecvPort, SendPort};
use crate::scheduled::state::StateHandle;
use crate::scheduled::subgraph::Subgraph;

verus! {

/// A handoff together with the subgraphs that write and read it.
#[derive(Debug)]
pub struct HandoffData<T> {
    /// A name for diagnostics.
    pub(crate) name: String,
    /// The buffer itself.
    pub(crate) handoff: VecHandoff<T>,
    /// The subgraphs that write the handoff.
    pub(crate) preds: Vec<SubgraphId>,
    /// The subgraphs that read the handoff.
    pub(crate) succs: Vec<SubgraphId>,
}

impl<T> HandoffData<T> {
    /// The name given for diagnostics.
    pub closed spec fn name(&self) -> Seq<char> {
        self.name@
    }

    /// The items waiting in the handoff, oldest first.
    pub closed spec fn items(&self) -> Seq<T> {
        self.handoff@
    }

    /// The subgraphs that write the handoff.
    pub closed spec fn producers(&self) -> Seq<SubgraphId> {
        self.preds@
    }

    /// The subgraphs that read the handoff.
    pub closed spec fn consumers(&self) -> Seq<SubgraphId> {
        self.succs@
    }

    /// The record of a handoff that no subgraph writes or reads yet.
    pub fn new(name: String, handoff: VecHandoff<T>) -> (data: Self)
        ensures
            data.name() == name@,
            data.items() == handoff@,
            data.producers() == Seq::<SubgraphId>::empty(),
            data.consumers() == Seq::<SubgraphId>::empty(),
    {
        HandoffData { name, handoff, preds: Vec::new(), succs: Vec::new() }
    }
}

/// A subgraph together with its stratum, the handoffs it reads and writes,
/// and whether it waits in a ready queue.
pub struct SubgraphData<S> {
    /// A name for diagnostics.
    pub(crate) name: String,
    /// The stratum that the subgraph is assigned to.
    pub(crate) stratum: usize,
    /// The code of the subgraph.
    pub(crate) subgraph: S,
    /// The handoffs read, by receive port.
    pub(crate) preds: Vec<HandoffId>,
    /// The handoffs written, by send port.
    pub(crate) succs: Vec<HandoffId>,
    /// Whether the subgraph waits in the ready queue of its stratum.
    pub(crate) is_scheduled: bool,
}

impl<S> SubgraphData<S> {
    /// The name given for diagnostics.
    pub closed spec fn name(&self) -> Seq<char> {
        self.name@
    }

    /// The stratum that the subgraph is assigned to.
    pub closed spec fn stratum(&self) -> usize {
        self.stratum
    }

    /// The code of the subgraph.
    pub closed spec fn body(&self) -> S {
        self.subgraph
    }

    /// The handoffs read, by receive port.
    pub closed spec fn inputs(&self) -> Seq<HandoffId> {
        self.preds@
    }

    /// The handoffs written, by send port.
    pub closed spec fn outputs(&self) -> Seq<HandoffId> {
        self.succs@
    }

    /// Whether the subgraph is marked as waiting in a ready queue.
    pub closed spec fn scheduled(&self) -> bool {
        self.is_scheduled
    }

    /// The record of a subgraph.
    pub fn new(
        name: String,
        stratum: usize,
        subgraph: S,
        preds: Vec<HandoffId>,
        succs: Vec<HandoffId>,
        is_scheduled: bool,
    ) -> (data: Self)
        ensures
            data.name() == name@,
            data.stratum() == stratum,
            data.body() == subgraph,
            data.inputs() == preds@,
            data.outputs() == succs@,
            data.scheduled() == is_scheduled,
    {
        SubgraphData { name, stratum, subgraph, preds, succs, is_scheduled }
    }
}

/// A dataflow graph. It owns the compiled subgraphs, the handoffs between
/// them and the state cells, and schedules and runs the subgraphs.
pub struct Hydroflow<S: Subgraph> {
    subgraphs: Vec<SubgraphData<S>>,
    handoffs: Vec<HandoffData<S::Item>>,
    states: Vec<S::State>,
    /// One ready queue per stratum, front first.
    stratum_queues: Vec<VecDeque<SubgraphId>>,
    /// The events not yet received, oldest first.
    event_queue: VecDeque<SubgraphId>,
    /// The subgraphs to schedule when the next tick has begun.
    deferred: Vec<SubgraphId>,
    current_tick: usize,
    current_stratum: usize,
    /// Every run so far, oldest first.
    trace: Ghost<Seq<RunRecord>>,
}

impl<S: Subgraph> View for Hydroflow<S> {
    type V = GraphView<S::Item>;

    closed spec fn view(&self) -> GraphView<S::Item> {
        GraphView {
            current_tick: self.current_tick,
            current_stratum: self.current_stratum,
            subgraph_names: Seq::new(self.subgraphs.len() as nat, |i: int| self.subgraphs[i].name@),
            handoff_names: Seq::new(self.handoffs.len() as nat, |h: int| self.handoffs[h].name@),
            strata: Seq::new(self.subgraphs.len() as nat, |i: int| self.subgraphs[i].stratum),
            sg_preds: Seq::new(self.subgraphs.len() as nat, |i: int| self.subgraphs[i].preds@),
            sg_succs: Seq::new(self.subgraphs.len() as nat, |i: int| self.subgraphs[i].succs@),
            scheduled: Seq::new(self.subgraphs.len() as nat, |i: int| self.subgraphs[i].is_scheduled),
            handoff_items: Seq::new(self.handoffs.len() as nat, |h: int| self.handoffs[h].handoff@),
            handoff_preds: Seq::new(self.handoffs.len() as nat, |h: int| self.handoffs[h].preds@),
            handoff_succs: Seq::new(self.handoffs.len() as nat, |h: int| self.handoffs[h].succs@),
            queues: Seq::new(self.stratum_queues.len() as nat, |s: int| self.stratum_queues[s]@),
            events: self.event_queue@,
            deferred: self.deferred@,
            trace: self.trace@,
        }
    }
}

impl<S: Subgraph> Default for Hydroflow<S> {
    /// A graph without subgraphs, handoffs or state cells, at tick 0 and
    /// stratum 0.
    fn default() -> (graph: Self)
        ensures
            graph.wf(),
            graph@ == GraphView::<S::Item>::empty(),
            graph.states() == Seq::<S::State>::empty(),
            graph.bodies() == Seq::<S>::empty(),
    {
        Hydroflow::new()
    }
}

impl<S: Subgraph> Hydroflow<S> {
    /// The invariant of a graph: see [`GraphView::wf`].
    pub open spec fn wf(&self) -> bool {
        self@.wf()
    }

    /// The contents of the state cells, by handle.
    pub closed spec fn states(&self) -> Seq<S::State> {
        self.states@
    }

    /// The code of each subgraph.
    pub closed spec fn bodies(&self) -> Seq<S> {
        Seq::new(self.subgraphs.len() as nat, |i: int| self.subgraphs[i].subgraph)
    }

    /// A graph without subgraphs, handoffs or state cells, at tick 0 and
    /// stratum 0.
    pub fn new() -> (graph: Self)
        ensures
            graph.wf(),
            graph@ == GraphView::<S::Item>::empty(),
            graph.states() == Seq::<S::State>::empty(),
            graph.bodies() == Seq::<S>::empty(),
    {
        let mut stratum_queues: Vec<VecDeque<SubgraphId>> = Vec::new();
        stratum_queues.push(VecDeque::new());
        let graph = Hydroflow {
            subgraphs: Vec::new(),
            handoffs: Vec::new(),
            states: Vec::new(),
            stratum_queues,
            event_queue: VecDeque::new(),
            deferred: Vec::new(),
            current_tick: 0,
            current_stratum: 0,
            trace: Ghost(Seq::empty()),
        };
        proof {
            let e = GraphView::<S::Item>::empty();
            assert(graph@ =~= e);
            GraphView::<S::Item>::lemma_empty();
        }
        graph
    }

    /// The current tick: the number of ticks that have ended.
    pub fn current_tick(&self) -> (tick: usize)
        ensures
            tick == self@.current_tick,
    {
        self.current_tick
    }

    /// The current stratum.
    pub fn current_stratum(&self) -> (stratum: usize)
        ensures
            stratum == self@.current_stratum,
    {
        self.current_stratum
    }

    /// The number of subgraphs.
    pub fn num_subgraphs(&self) -> (n: usize)
        ensures
            n == self@.strata.len(),
    {
        self.subgraphs.len()
    }

    /// The number of handoffs.
    pub fn num_handoffs(&self) -> (n: usize)
        ensures
            n == self@.handoff_items.len(),
    {
        self.handoffs.len()
    }

    /// The number of strata that have a ready queue.
    pub fn num_strata(&self) -> (n: usize)
        ensures
            n == self@.queues.len(),
    {
        self.stratum_queues.len()
    }

    /// Whether `sg_id` waits in a ready queue.
    pub fn is_scheduled(&self, sg_id: SubgraphId) -> (scheduled: bool)
        requires
            self@.has_subgraph(sg_id),
        ensures
            scheduled == self@.is_scheduled(sg_id),
    {
        self.subgraphs[sg_id.0].is_scheduled
    }

    /// How many items wait in the handoff `handoff_id`.
    pub fn handoff_len(&self, handoff_id: HandoffId) -> (n: usize)
        requires
            self@.has_handoff(handoff_id),
        ensures
            n == self@.waiting(handoff_id).len(),
    {
        self.handoffs[handoff_id.0].handoff.len()
    }

    /// Creates a handoff named `name` that holds nothing, and returns its two
    /// ends. The handoff's identifier is the number of handoffs there were.
    pub fn make_edge(&mut self, name: String) -> (ports: (SendPort, RecvPort))
        requires
            old(self).wf(),
        ensures
            final(self).wf(),
            final(self)@ == old(self)@.add_handoff(name@),
            final(self).states() == old(self).states(),
            final(self).bodies() == old(self).bodies(),
            ports.0.handoff_id.0 == old(self)@.handoff_items.len(),
            ports.1.handoff_id == ports.0.handoff_id,
    {
        let handoff_id = HandoffId(self.handoffs.len());
        self.handoffs.push(HandoffData::new(name, VecHandoff::new()));
        proof {
            let v = old(self)@.add_handoff(name@);
            assert(self@ =~= v);
            old(self)@.lemma_add_handoff(name@);
        }
        (SendPort { handoff_id }, RecvPort { handoff_id })
    }

    /// Adds a state cell that starts as `state`, and returns its handle.
    pub fn add_state(&mut self, state: S::State) -> (handle: StateHandle)
        ensures
            handle.state_id == old(self).states().len(),
            final(self).states() == old(self).states().push(state),
            final(self).bodies() == old(self).bodies(),
            final(self)@ == old(self)@,
    {
        let handle = StateHandle { state_id: self.states.len() };
        self.states.push(state);
        handle
    }

    /// The number of state cells.
    pub fn num_states(&self) -> (n: usize)
        ensures
            n == self.states().len(),
    {
        self.states.len()
    }

    /// The state cell that `handle` names.
    pub fn state_ref(&self, handle: StateHandle) -> (state: &S::State)
        requires
            handle.state_id < self.states().len(),
        ensures
            *state == self.states()[handle.state_id as int],
    {
        &self.states[handle.state_id]
    }

    /// Puts `sg_id` at the back of its stratum's ready queue, unless it waits
    /// in it already or is no subgraph of the graph. Tells whether it did.
    fn enqueue(&mut self, sg_id: SubgraphId) -> (enqueued: bool)
        requires
            old(self)@.well_shaped(),
        ensures
            final(self)@ == old(self)@.schedule(sg_id),
            final(self).states() == old(self).states(),
            final(self).bodies() == old(self).bodies(),
            enqueued == (old(self)@.has_subgraph(sg_id) && !old(self)@.is_scheduled(sg_id)),
    {
        if sg_id.0 < self.subgraphs.len() && !self.subgraphs[sg_id.0].is_scheduled {
            let stratum = self.subgraphs[sg_id.0].stratum;
            assert(old(self)@.stratum_of(sg_id) == stratum);
            self.subgraphs[sg_id.0].is_scheduled = true;
            self.stratum_queues[stratum].push_back(sg_id);
            proof {
                let v = old(self)@.schedule(sg_id);
                assert(self@ =~= v);
            }
            true
        } else {
            false
        }
    }

    /// Schedules `sg_id`: puts it at the back of its stratum's ready queue,
    /// unless it waits in it already or is no subgraph of the graph. Tells
    /// whether it entered the queue.
    pub fn schedule_subgraph(&mut self, sg_id: SubgraphId) -> (enqueued: bool)
        requires
            old(self).wf(),
        ensures
            final(self).wf(),
            final(self)@ == old(self)@.schedule(sg_id),
            final(self).states() == old(self).states(),
            final(self).bodies() == old(self).bodies(),
            enqueued == (old(self)@.has_subgraph(sg_id) && !old(self)@.is_scheduled(sg_id)),
    {
        let enqueued = self.enqueue(sg_id);
        proof {
            old(self)@.lemma_schedule(sg_id);
            old(self)@.lemma_all_covered_when_scheduled_more(self@);
        }
        enqueued
    }

    /// Records an event from outside the graph: `sg_id` is to be scheduled
    /// when the events are next received.
    pub fn push_event(&mut self, sg_id: SubgraphId)
        requires
            old(self).wf(),
        ensures
            final(self).wf(),
            final(self)@ == (GraphView { events: old(self)@.events.push(sg_id), ..old(self)@ }),
            final(self).states() == old(self).states(),
            final(self).bodies() == old(self).bodies(),
    {
        self.event_queue.push_back(sg_id);
        proof {
            let v = GraphView { events: old(self)@.events.push(sg_id), ..old(self)@ };
            assert(self@ =~= v);
            old(self)@.lemma_events_are_free(v.events, v.deferred);
        }
    }

    /// Receives the pending events, oldest first: each names a subgraph, which
    /// is scheduled unless it waits in a ready queue already. Returns the
    /// number of subgraphs that entered a queue.
    pub fn try_recv_events(&mut self) -> (enqueued_count: usize)
        requires
            old(self).wf(),
        ensures
            final(self).wf(),
            final(self)@ == old(self)@.recv_events(),
            final(self).states() == old(self).states(),
            final(self).bodies() == old(self).bodies(),
            enqueued_count == old(self)@.newly_scheduled(old(self)@.events),
    {
        proof {
            old(self)@.lemma_recv_events();
        }
        self.drain_events()
    }

    /// Receives the pending events as `try_recv_events` does, in a graph
    /// whose handoffs may hold items that no scheduled subgraph reads.
    fn drain_events(&mut self) -> (enqueued_count: usize)
        requires
            old(self)@.wf_core(),
        ensures
            final(self)@ == old(self)@.recv_events(),
            final(self).states() == old(self).states(),
            final(self).bodies() == old(self).bodies(),
            enqueued_count == old(self)@.newly_scheduled(old(self)@.events),
    {
        let ghost v0 = self@;
        let ghost mut done: Seq<SubgraphId> = Seq::empty();
        let mut enqueued_count: usize = 0;
        proof {
            broadcast use vstd::std_specs::vecdeque::axiom_spec_len;

            assert(self.event_queue.len() == v0.events.len());
            assert(v0.events.skip(0) =~= v0.events);
            v0.lemma_schedule_all(done);
        }
        loop
            invariant
                v0.wf_core(),
                v0.events.len() <= usize::MAX,
                v0 == old(self)@,
                done.len() <= v0.events.len(),
                done == v0.events.take(done.len() as int),
                self@ == (GraphView {
                    events: v0.events.skip(done.len() as int),
                    ..v0.schedule_all(done)
                }),
                self.states() == old(self).states(),
                self.bodies() == old(self).bodies(),
                enqueued_count == v0.newly_scheduled(done),
                enqueued_count <= done.len(),
            ensures
                done == v0.events,
                self@ == (GraphView { events: Seq::empty(), ..v0.schedule_all(v0.events) }),
                self.states() == old(self).states(),
                self.bodies() == old(self).bodies(),
                enqueued_count == v0.newly_scheduled(v0.events),
            decreases v0.events.len() - done.len(),
        {
            let ghost before = self@;
            let next = self.event_queue.pop_front();
            match next {
                None => {
                    proof {
                        assert(v0.events.skip(done.len() as int).len() == 0);
                        assert(done =~= v0.events);
                        assert(self@ =~= before);
                    }
                    break ;
                },
                Some(sg_id) => {
                    let ghost k = done.len() as int;
                    let ghost rest = v0.events.skip(k + 1);
                    proof {
                        assert(sg_id == v0.events[k]);
                        assert(before.events.subrange(1, before.events.len() as int) =~= rest);
                        assert(self@ =~= (GraphView { events: rest, ..v0.schedule_all(done) }));
                        v0.lemma_schedule_all(done);
                        v0.schedule_all(done).lemma_events_are_free(rest, v0.deferred);
                    }
                    let enqueued = self.enqueue(sg_id);
                    proof {
                        let next_done = done.push(sg_id);
                        assert(next_done.drop_last() =~= done);
                        assert(next_done =~= v0.events.take(k + 1));
                        assert(v0.schedule_all(next_done) == v0.schedule_all(done).schedule(sg_id));
                        done = next_done;
                    }
                    if enqueued {
                        enqueued_count += 1;
                    }
                },
            }
        }
        proof {
            v0.lemma_schedule_all_ignores_events(Seq::empty(), v0.events);
        }
        enqueued_count
    }

    /// The first stratum from `lo` up to but not including `hi` whose ready
    /// queue is not empty, or `hi` if there is none.
    fn first_ready(&self, lo: usize, hi: usize) -> (found: usize)
        requires
            lo <= hi <= self@.queues.len(),
        ensures
            found == self@.first_ready(lo as int, hi as int),
    {
        let mut s: usize = lo;
        while s < hi && self.stratum_queues[s].len() == 0
            invariant
                lo <= s <= hi <= self@.queues.len(),
                self@.first_ready(lo as int, hi as int) == self@.first_ready(s as int, hi as int),
            decreases hi - s,
        {
            proof {
                broadcast use vstd::std_specs::vecdeque::axiom_spec_len;

                assert(self@.queue(s as int).len() == 0);
            }
            s += 1;
        }
        proof {
            broadcast use vstd::std_specs::vecdeque::axiom_spec_len;

            if s < hi {
                assert(self@.queue(s as int).len() > 0);
            }
        }
        s
    }

    /// Receives the pending events, then goes to the next stratum that has a
    /// subgraph ready, which may be the current one, and tells whether there
    /// is one. Strata are tried upwards from the current one; past the last
    /// one the tick ends and the tick count goes up by one. With
    /// `current_tick_only` the search ends there, at stratum 0 of the new
    /// tick, with `false`. Otherwise it goes on from stratum 0 up to the
    /// stratum it began at; if it comes round with nothing found, it returns
    /// `false` and leaves the graph at stratum 0, to wait for events.
    ///
    /// A tick count at `usize::MAX` does not go up: there the tick does not
    /// end, and the call returns `false` and leaves the graph in its stratum
    /// when no stratum from the current one on has a subgraph ready.
    pub fn next_stratum(&mut self, current_tick_only: bool) -> (more: bool)
        requires
            old(self).wf(),
        ensures
            final(self).wf(),
            final(self)@ == old(self)@.next_stratum(current_tick_only).0,
            more == old(self)@.next_stratum(current_tick_only).1,
            (final(self)@.current_tick == old(self)@.current_tick && final(self)@.current_stratum
                >= old(self)@.current_stratum) || final(self)@.current_tick == old(
                self,
            )@.current_tick + 1,
            more ==> final(self)@.has_ready(),
            final(self).states() == old(self).states(),
            final(self).bodies() == old(self).bodies(),
    {
        self.try_recv_events();
        let ghost v = self@;
        proof {
            old(self)@.lemma_recv_events();
            old(self)@.lemma_next_stratum(current_tick_only);
        }
        let n = self.stratum_queues.len();
        let start = self.current_stratum;
        let here = self.first_ready(start, n);
        let more;
        if here < n {
            self.current_stratum = here;
            more = true;
        } else if self.current_tick == usize::MAX {
            more = false;
        } else {
            self.end_tick();
            if current_tick_only {
                self.current_stratum = 0;
                more = false;
            } else {
                let wrapped = self.first_ready(0, start);
                assert(wrapped == v.first_ready(0, start as int)) by {
                    assert(self@.queues =~= v.queues);
                    Self::lemma_first_ready_same_queues(self@, v, 0, start as int);
                }
                if wrapped < start {
                    self.current_stratum = wrapped;
                    more = true;
                } else {
                    self.current_stratum = 0;
                    more = false;
                }
            }
        }
        proof {
            let goal = old(self)@.next_stratum(current_tick_only).0;
            assert(self@ =~= goal);
        }
        more
    }

    /// Ends the current tick: the tick count goes up by one, and the
    /// subgraphs that asked to be scheduled in the next tick become events,
    /// behind the events that are pending.
    fn end_tick(&mut self)
        requires
            old(self)@.current_tick < usize::MAX,
        ensures
            final(self)@ == old(self)@.next_tick_at(old(self)@.current_stratum as int),
            final(self).states() == old(self).states(),
            final(self).bodies() == old(self).bodies(),
    {
        let ghost v0 = self@;
        let mut i: usize = 0;
        assert(v0.events + v0.deferred.take(0) =~= v0.events);
        while i < self.deferred.len()
            invariant
                i <= self.deferred.len(),
                v0 == old(self)@,
                self.deferred == old(self).deferred,
                self.subgraphs == old(self).subgraphs,
                self.handoffs == old(self).handoffs,
                self.states == old(self).states,
                self.bodies() == old(self).bodies(),
                self.stratum_queues == old(self).stratum_queues,
                self.current_tick == old(self).current_tick,
                self.current_stratum == old(self).current_stratum,
                self.trace == old(self).trace,
                self.event_queue@ == v0.events + v0.deferred.take(i as int),
            decreases self.deferred.len() - i,
        {
            self.event_queue.push_back(self.deferred[i]);
            assert(v0.events + v0.deferred.take(i + 1) =~= (v0.events + v0.deferred.take(
                i as int,
            )).push(v0.deferred[i as int]));
            i += 1;
        }
        assert(v0.deferred.take(v0.deferred.len() as int) =~= v0.deferred);
        self.deferred.clear();
        self.current_tick = self.current_tick + 1;
        proof {
            let goal = v0.next_tick_at(v0.current_stratum as int);
            assert(self@ =~= goal);
        }
    }

    /// `first_ready` depends on the ready queues alone.
    proof fn lemma_first_ready_same_queues(a: GraphView<S::Item>, b: GraphView<S::Item>, lo: int, hi: int)
        requires
            a.queues == b.queues,
        ensures
            a.first_ready(lo, hi) == b.first_ready(lo, hi),
        decreases hi - lo,
    {
        if lo < hi && a.queue(lo).len() == 0 {
            Self::lemma_first_ready_same_queues(a, b, lo + 1, hi);
        }
    }

    /// Makes sure that stratum `stratum` has a ready queue.
    fn init_stratum(&mut self, stratum: usize)
        ensures
            final(self)@ == old(self)@.init_stratum(stratum as int),
            final(self)@.queues.len() > stratum,
            final(self).states() == old(self).states(),
            final(self).bodies() == old(self).bodies(),
    {
        while self.stratum_queues.len() <= stratum
            invariant
                self.stratum_queues.len() >= old(self).stratum_queues.len(),
                old(self).stratum_queues.len() <= stratum ==> self.stratum_queues.len() <= stratum
                    + 1,
                old(self).stratum_queues.len() <= stratum || self.stratum_queues.len() == old(
                    self,
                ).stratum_queues.len(),
                forall|s: int|
                    0 <= s < self.stratum_queues.len() ==> (#[trigger] self.stratum_queues[s])@ == (
                    if s < old(self).stratum_queues.len() {
                        old(self).stratum_queues[s]@
                    } else {
                        Seq::<SubgraphId>::empty()
                    }),
                self.subgraphs == old(self).subgraphs,
                self.handoffs == old(self).handoffs,
                self.states == old(self).states,
                self.bodies() == old(self).bodies(),
                self.event_queue == old(self).event_queue,
                self.deferred == old(self).deferred,
                self.current_tick == old(self).current_tick,
                self.current_stratum == old(self).current_stratum,
                self.trace == old(self).trace,
            decreases stratum + 1 - self.stratum_queues.len(),
        {
            self.stratum_queues.push(VecDeque::new());
        }
        proof {
            let v = old(self)@.init_stratum(stratum as int);
            assert(self@ =~= v);
        }
    }

    /// Adds a subgraph named `name` to stratum `stratum` that reads
    /// `recv_ports` and writes `send_ports`, and schedules it, so that it runs
    /// at least once. Returns its identifier, which is the number of subgraphs
    /// there were. Ready queues are added as far as `stratum` needs them.
    pub fn add_subgraph_stratified_n_m(
        &mut self,
        name: String,
        stratum: usize,
        recv_ports: Vec<RecvPort>,
        send_ports: Vec<SendPort>,
        subgraph: S,
    ) -> (sg_id: SubgraphId)
        requires
            old(self).wf(),
            forall|i: int|
                0 <= i < recv_ports.len() ==> old(self)@.has_handoff(
                    (#[trigger] recv_ports[i]).handoff_id,
                ),
            forall|i: int|
                0 <= i < send_ports.len() ==> old(self)@.has_handoff(
                    (#[trigger] send_ports[i]).handoff_id,
                ),
        ensures
            final(self).wf(),
            final(self)@ == old(self)@.add_subgraph(
                name@,
                stratum,
                recv_handoffs(recv_ports@),
                send_handoffs(send_ports@),
            ),
            sg_id.0 == old(self)@.strata.len(),
            final(self).states() == old(self).states(),
            final(self).bodies() == old(self).bodies().push(subgraph),
    {
        let ghost v0 = self@;
        let ghost recv = recv_handoffs(recv_ports@);
        let ghost send = send_handoffs(send_ports@);
        let sg_id = SubgraphId(self.subgraphs.len());

        let mut subgraph_preds: Vec<HandoffId> = Vec::new();
        let mut i: usize = 0;
        while i < recv_ports.len()
            invariant
                i <= recv_ports.len(),
                recv == recv_handoffs(recv_ports@),
                v0 == old(self)@,
                v0.well_shaped(),
                forall|j: int| 0 <= j < recv.len() ==> v0.has_handoff(#[trigger] recv[j]),
                subgraph_preds@ == recv.take(i as int),
                self@ == v0.add_readers(recv.take(i as int), sg_id),
                self.handoffs.len() == v0.handoff_items.len(),
                self.subgraphs == old(self).subgraphs,
                self.states == old(self).states,
                self.bodies() == old(self).bodies(),
            decreases recv_ports.len() - i,
        {
            let handoff_id = recv_ports[i].handoff_id;
            let ghost before = self@;
            assert(handoff_id == recv[i as int]);
            assert(v0.has_handoff(recv[i as int]));
            subgraph_preds.push(handoff_id);
            self.handoffs[handoff_id.0].succs.push(sg_id);
            proof {
                let next = before.add_reader(handoff_id, sg_id);
                assert(self@ =~= next);
                assert(recv.take(i + 1).drop_last() =~= recv.take(i as int));
                assert(recv.take(i + 1).last() == handoff_id);
                assert(subgraph_preds@ =~= recv.take(i + 1));
            }
            i += 1;
        }
        assert(recv.take(recv.len() as int) =~= recv);
        let ghost v1 = self@;

        let mut subgraph_succs: Vec<HandoffId> = Vec::new();
        let mut i: usize = 0;
        while i < send_ports.len()
            invariant
                i <= send_ports.len(),
                send == send_handoffs(send_ports@),
                forall|j: int| 0 <= j < send.len() ==> v0.has_handoff(#[trigger] send[j]),
                subgraph_succs@ == send.take(i as int),
                self@ == v1.add_writers(send.take(i as int), sg_id),
                self.handoffs.len() == v0.handoff_items.len(),
                self.subgraphs == old(self).subgraphs,
                self.states == old(self).states,
                self.bodies() == old(self).bodies(),
            decreases send_ports.len() - i,
        {
            let handoff_id = send_ports[i].handoff_id;
            let ghost before = self@;
            assert(handoff_id == send[i as int]);
            assert(v0.has_handoff(send[i as int]));
            subgraph_succs.push(handoff_id);
            self.handoffs[handoff_id.0].preds.push(sg_id);
            proof {
                let next = before.add_writer(handoff_id, sg_id);
                assert(self@ =~= next);
                assert(send.take(i + 1).drop_last() =~= send.take(i as int));
                assert(send.take(i + 1).last() == handoff_id);
                assert(subgraph_succs@ =~= send.take(i + 1));
            }
            i += 1;
        }
        assert(send.take(send.len() as int) =~= send);
        self.init_stratum(stratum);
        let ghost wired = self@;
        assert(self.stratum_queues.len() == wired.queues.len());
        self.subgraphs.push(
            SubgraphData::new(name, stratum, subgraph, subgraph_preds, subgraph_succs, true),
        );
        self.stratum_queues[stratum].push_back(sg_id);
        proof {
            let goal = v0.add_subgraph(name@, stratum, recv, send);
            assert(wired == v0.add_readers(recv, sg_id).add_writers(send, sg_id).init_stratum(
                stratum as int,
            ));
            assert(self@ =~= goal);
            v0.lemma_add_subgraph(name@, stratum, recv, send);
            assert(self.bodies() =~= old(self).bodies().push(subgraph));
        }
        sg_id
    }

    /// Adds a subgraph to stratum 0 that reads `recv_ports` and writes
    /// `send_ports`, and schedules it. Returns its identifier.
    pub fn add_subgraph_n_m(
        &mut self,
        name: String,
        recv_ports: Vec<RecvPort>,
        send_ports: Vec<SendPort>,
        subgraph: S,
    ) -> (sg_id: SubgraphId)
        requires
            old(self).wf(),
            forall|i: int|
                0 <= i < recv_ports.len() ==> old(self)@.has_handoff(
                    (#[trigger] recv_ports[i]).handoff_id,
                ),
            forall|i: int|
                0 <= i < send_ports.len() ==> old(self)@.has_handoff(
                    (#[trigger] send_ports[i]).handoff_id,
                ),
        ensures
            final(self).wf(),
            final(self)@ == old(self)@.add_subgraph(
                name@,
                0,
                recv_handoffs(recv_ports@),
                send_handoffs(send_ports@),
            ),
            sg_id.0 == old(self)@.strata.len(),
            final(self).states() == old(self).states(),
            final(self).bodies() == old(self).bodies().push(subgraph),
    {
        self.add_subgraph_stratified_n_m(name, 0, recv_ports, send_ports, subgraph)
    }

    /// Starts the run of the next ready subgraph of the current stratum, if
    /// there is one: takes it off the ready queue, drains the handoffs it
    /// reads, and returns its identifier with the context of the run. The
    /// context holds what each receive port had waiting, an empty buffer for
    /// each send port, and the graph's state cells, which the graph gets back
    /// when the run is finished.
    pub fn start_run(&mut self) -> (started: Option<(SubgraphId, Context<S::Item, S::State>)>)
        requires
            old(self).wf(),
        ensures
            final(self).wf(),
            match started {
                None => {
                    &&& !old(self)@.has_ready()
                    &&& final(self)@ == old(self)@
                    &&& final(self).states() == old(self).states()
                    &&& final(self).bodies() == old(self).bodies()
                },
                Some((sg_id, context)) => {
                    &&& old(self)@.has_ready()
                    &&& sg_id == old(self)@.next_ready()
                    &&& final(self)@ == old(self)@.begin_run()
                    &&& final(self).states() == Seq::<S::State>::empty()
                    &&& final(self).bodies() == old(self).bodies()
                    &&& context.tick() == old(self)@.current_tick
                    &&& context.stratum() == old(self)@.current_stratum
                    &&& context.subgraph() == sg_id
                    &&& context.received() == old(self)@.received_by(sg_id)
                    &&& context.sent() == Seq::new(
                        old(self)@.outputs(sg_id).len(),
                        |i: int| Seq::<S::Item>::empty(),
                    )
                    &&& context.requested() == Seq::<SubgraphId>::empty()
                    &&& context.deferred() == Seq::<SubgraphId>::empty()
                    &&& context.cells() == old(self).states()
                },
            },
    {
        let ghost v0 = self@;
        let current_stratum = self.current_stratum;
        let popped = self.stratum_queues[current_stratum].pop_front();
        match popped {
            None => {
                proof {
                    assert(self@ =~= v0);
                }
                None
            },
            Some(sg_id) => {
                proof {
                    assert(v0.queue(current_stratum as int)[0] == sg_id);
                    assert(v0.has_subgraph(sg_id));
                    v0.lemma_begin_run();
                }
                let ghost inputs = v0.inputs(sg_id);
                self.subgraphs[sg_id.0].is_scheduled = false;
                let num_recv = self.subgraphs[sg_id.0].preds.len();
                let mut recv: Vec<Vec<S::Item>> = Vec::new();
                let mut i: usize = 0;
                let ghost unmarked = *self;
                while i < num_recv
                    invariant
                        i <= num_recv,
                        num_recv == inputs.len(),
                        self.subgraphs == unmarked.subgraphs,
                        self.stratum_queues == unmarked.stratum_queues,
                        self.states == unmarked.states,
                        self.event_queue == unmarked.event_queue,
                        self.deferred == unmarked.deferred,
                        self.current_tick == unmarked.current_tick,
                        self.current_stratum == unmarked.current_stratum,
                        self.trace == unmarked.trace,
                        v0.well_shaped(),
                        v0.has_subgraph(sg_id),
                        inputs == v0.inputs(sg_id),
                        sg_id.0 < self.subgraphs.len(),
                        self.subgraphs[sg_id.0 as int].preds@ == inputs,
                        self.handoffs.len() == v0.handoff_items.len(),
                        forall|h: int|
                            0 <= h < self.handoffs.len() ==> {
                                &&& (#[trigger] self.handoffs[h]).preds@ == v0.handoff_preds[h]
                                &&& self.handoffs[h].succs@ == v0.handoff_succs[h]
                                &&& self.handoffs[h].name@ == v0.handoff_names[h]
                                &&& self.handoffs[h].handoff@ == (if inputs.take(i as int).contains(
                                    HandoffId(h as usize),
                                ) {
                                    Seq::<S::Item>::empty()
                                } else {
                                    v0.handoff_items[h]
                                })
                            },
                        recv.len() == i,
                        forall|j: int|
                            0 <= j < i ==> (#[trigger] recv[j])@ == v0.received_by(sg_id)[j],
                    decreases num_recv - i,
                {
                    let handoff_id = self.subgraphs[sg_id.0].preds[i];
                    assert(handoff_id == inputs[i as int]);
                    assert(v0.has_handoff(v0.inputs(sg_id)[i as int]));
                    let items = self.handoffs[handoff_id.0].handoff.take_inner();
                    recv.push(items);
                    proof {
                        let done = inputs.take(i as int);
                        let more = inputs.take(i + 1);
                        assert(more =~= done.push(handoff_id));
                        assert forall|h: int| 0 <= h < self.handoffs.len() implies (
                        #[trigger] self.handoffs[h]).handoff@ == (if more.contains(
                            HandoffId(h as usize),
                        ) {
                            Seq::<S::Item>::empty()
                        } else {
                            v0.handoff_items[h]
                        }) by {
                            let id = HandoffId(h as usize);
                            if h == handoff_id.0 {
                                assert(more[i as int] == id);
                            } else {
                                if more.contains(id) {
                                    let k = choose|k: int| 0 <= k < more.len() && more[k] == id;
                                    assert(done[k] == id);
                                }
                                if done.contains(id) {
                                    let k = choose|k: int| 0 <= k < done.len() && done[k] == id;
                                    assert(more[k] == id);
                                }
                            }
                        }
                        assert(HandoffId(handoff_id.0 as int as usize) == handoff_id);
                    }
                    i += 1;
                }
                let num_send = self.subgraphs[sg_id.0].succs.len();
                let mut states: Vec<S::State> = Vec::new();
                std::mem::swap(&mut self.states, &mut states);
                proof {
                    assert(inputs.take(num_recv as int) =~= inputs);
                    assert(buffers(recv@) =~= v0.received_by(sg_id));
                }
                let context = Context::new(
                    self.current_tick,
                    self.current_stratum,
                    sg_id,
                    recv,
                    num_send,
                    states,
                );
                self.trace = Ghost(
                    self.trace@.push(
                        RunRecord {
                            tick: self.current_tick,
                            stratum: self.current_stratum,
                            subgraph: sg_id,
                        },
                    ),
                );
                proof {
                    let goal = v0.begin_run();
                    assert(self@ =~= goal);
                }
                Some((sg_id, context))
            },
        }
    }

    /// Finishes a run of `sg_id` that left `context`: appends what each send
    /// port was given to the port's handoff, schedules the readers of every
    /// handoff that `sg_id` writes and that now holds items, takes the state
    /// cells back, notes the subgraphs to schedule in the next tick, and
    /// receives the pending events, those that the run asked for last. A send
    /// port that `sg_id` does not have is ignored.
    pub fn finish_run(&mut self, sg_id: SubgraphId, context: Context<S::Item, S::State>)
        requires
            old(self).wf(),
            old(self)@.has_subgraph(sg_id),
        ensures
            final(self).wf(),
            final(self)@ == old(self)@.finish_run(
                sg_id,
                context.sent(),
                context.requested(),
                context.deferred(),
            ),
            final(self).states() == context.cells(),
            final(self).bodies() == old(self).bodies(),
    {
        let ghost v0 = self@;
        let ghost sent = context.sent();
        let ghost requested = context.requested();
        let ghost later = context.deferred();
        let ghost outs = v0.outputs(sg_id);
        let (mut sends, events, deferred, states) = context.into_parts();
        let mut deferred = deferred;
        self.states = states;
        let num_out = self.subgraphs[sg_id.0].succs.len();
        let written = if sends.len() <= num_out {
            sends.len()
        } else {
            num_out
        };
        proof {
            assert(self@ =~= v0);
            assert(self@ == v0);
            assert(written == v0.ports_written(sg_id, sent));
            assert forall|i: int| 0 <= i < outs.len() implies v0.has_handoff(#[trigger] outs[i]) by {
                assert(v0.has_handoff(v0.outputs(sg_id)[i]));
            }
        }

        let mut i: usize = 0;
        while i < written
            invariant
                i <= written <= outs.len(),
                written <= sent.len(),
                v0.wf_core(),
                v0.has_subgraph(sg_id),
                outs == v0.outputs(sg_id),
                forall|j: int| 0 <= j < outs.len() ==> v0.has_handoff(#[trigger] outs[j]),
                self@ == v0.deliver(outs, sent, i as int),
                self.states@ == context.cells(),
                self.bodies() == old(self).bodies(),
                sends.len() == sent.len(),
                forall|j: int| i <= j < sends.len() ==> (#[trigger] sends[j])@ == sent[j],
            decreases written - i,
        {
            let ghost before = self@;
            proof {
                v0.lemma_deliver(outs, sent, i as int);
            }
            let handoff_id = self.subgraphs[sg_id.0].succs[i];
            assert(handoff_id == outs[i as int]);
            assert(v0.has_handoff(outs[i as int]));
            let mut items: Vec<S::Item> = Vec::new();
            std::mem::swap(&mut sends[i], &mut items);
            assert(items@ == sent[i as int]);
            self.handoffs[handoff_id.0].handoff.give_all(items);
            proof {
                let next = before.give(handoff_id, sent[i as int]);
                assert(self@ =~= next);
            }
            i += 1;
        }

        let ghost v1 = self@;
        proof {
            v0.lemma_deliver(outs, sent, written as int);
            v1.lemma_propagate(outs.take(0));
        }
        let mut i: usize = 0;
        while i < num_out
            invariant
                i <= num_out == outs.len(),
                v1.wf_core(),
                v0.same_wiring(v1),
                v0.has_subgraph(sg_id),
                outs == v0.outputs(sg_id),
                forall|j: int| 0 <= j < outs.len() ==> v1.has_handoff(#[trigger] outs[j]),
                self@ == v1.propagate(outs.take(i as int)),
                self@.wf_core(),
                v1.only_scheduled_more(self@),
                self.states@ == context.cells(),
                self.bodies() == old(self).bodies(),
            decreases num_out - i,
        {
            let ghost vi = self@;
            let handoff_id = self.subgraphs[sg_id.0].succs[i];
            assert(handoff_id == outs[i as int]);
            assert(v1.has_handoff(outs[i as int]));
            let ghost readers = vi.consumers(handoff_id);
            if !self.handoffs[handoff_id.0].handoff.is_bottom() {
                let num_readers = self.handoffs[handoff_id.0].succs.len();
                let mut j: usize = 0;
                proof {
                    vi.lemma_schedule_all(readers.take(0));
                }
                while j < num_readers
                    invariant
                        j <= num_readers == readers.len(),
                        vi.wf_core(),
                        vi.has_handoff(handoff_id),
                        readers == vi.consumers(handoff_id),
                        self@ == vi.schedule_all(readers.take(j as int)),
                        self@.wf_core(),
                        vi.only_scheduled_more(self@),
                        self.states@ == context.cells(),
                        self.bodies() == old(self).bodies(),
                    decreases num_readers - j,
                {
                    let reader = self.handoffs[handoff_id.0].succs[j];
                    assert(reader == readers[j as int]);
                    self.enqueue(reader);
                    proof {
                        assert(readers.take(j + 1).drop_last() =~= readers.take(j as int));
                        assert(readers.take(j + 1).last() == reader);
                        vi.lemma_schedule_all(readers.take(j + 1));
                    }
                    j += 1;
                }
                proof {
                    assert(readers.take(num_readers as int) =~= readers);
                }
            }
            proof {
                assert(vi.waiting(handoff_id) == v1.waiting(handoff_id));
                assert(self@ == vi.wake(handoff_id));
                assert(outs.take(i + 1).drop_last() =~= outs.take(i as int));
                assert(outs.take(i + 1).last() == handoff_id);
                assert forall|j: int| 0 <= j < outs.take(i + 1).len() implies v1.has_handoff(
                    #[trigger] outs.take(i + 1)[j],
                ) by {
                    assert(outs.take(i + 1)[j] == outs[j]);
                }
                v1.lemma_propagate(outs.take(i + 1));
            }
            i += 1;
        }

        let ghost v_woken = self@;
        self.deferred.append(&mut deferred);
        let ghost v2 = self@;
        proof {
            assert(outs.take(num_out as int) =~= outs);
            let goal = GraphView { deferred: v_woken.deferred + later, ..v_woken };
            assert(v2 =~= goal);
            assert(v2 == goal);
            v_woken.lemma_events_are_free(v_woken.events, v_woken.deferred + later);
            assert(v2.events + requested.take(0) =~= v2.events);
        }
        let mut k: usize = 0;
        while k < events.len()
            invariant
                k <= events.len(),
                events@ == requested,
                v2.wf_core(),
                self@ == (GraphView { events: v2.events + requested.take(k as int), ..v2 }),
                self.states@ == context.cells(),
                self.bodies() == old(self).bodies(),
            decreases events.len() - k,
        {
            let ghost before = self@;
            self.event_queue.push_back(events[k]);
            proof {
                let next = GraphView { events: v2.events + requested.take(k + 1), ..v2 };
                assert(v2.events + requested.take(k + 1) =~= (v2.events + requested.take(
                    k as int,
                )).push(requested[k as int]));
                assert(self@ =~= next);
            }
            k += 1;
        }
        proof {
            assert(requested.take(events.len() as int) =~= requested);
            v2.lemma_events_are_free(v2.events + requested, v2.deferred);
        }
        self.drain_events();
        proof {
            v0.lemma_finish_run(sg_id, sent, requested, later);
        }
    }

    /// Whether no run recorded in `later` from position `from` on was a run of
    /// `sg`.
    pub open spec fn not_run_since(later: Seq<RunRecord>, from: int, sg: SubgraphId) -> bool {
        forall|i: int| from <= i < later.len() ==> (#[trigger] later[i]).subgraph != sg
    }

    /// Runs the current stratum: receives the pending events, then runs the
    /// subgraph at the front of the current stratum's ready queue, again and
    /// again, until the queue is empty or `max_runs` runs have been made.
    /// After each run it propagates readiness and receives events as
    /// `finish_run` does, so that a subgraph that becomes ready for this
    /// stratum during the call is run in the call, behind those that were
    /// ready before it. Time stands still. Returns the number of runs made.
    ///
    /// Whatever the subgraphs do, the graph afterwards is the graph that the
    /// runs made of it, one after the other, each with what its subgraph left
    /// behind; the code of no subgraph that was not run is touched; and no
    /// handoff holds items without its readers being scheduled.
    pub fn run_stratum(&mut self, max_runs: usize) -> (runs: usize)
        requires
            old(self).wf(),
        ensures
            final(self).wf(),
            old(self)@.same_wiring(final(self)@),
            final(self)@.current_tick == old(self)@.current_tick,
            final(self)@.current_stratum == old(self)@.current_stratum,
            final(self)@.events == Seq::<SubgraphId>::empty(),
            runs <= max_runs,
            runs == max_runs || !final(self)@.has_ready(),
            runs > 0 <==> max_runs > 0 && old(self)@.recv_events().has_ready(),
            exists|outcomes: Seq<RunOutcome<S::Item>>|
                {
                    &&& outcomes.len() == runs
                    &&& old(self)@.recv_events().can_run(outcomes)
                    &&& #[trigger] old(self)@.recv_events().after_runs(outcomes) == final(self)@
                },
            old(self)@.ran_here(final(self)@, runs as nat),
            old(self)@.recv_events().ran_in_queue_order(final(self)@),
            final(self).bodies().len() == old(self).bodies().len(),
            forall|sg: SubgraphId|
                old(self)@.has_subgraph(sg) && Self::not_run_since(
                    final(self)@.trace,
                    old(self)@.trace.len() as int,
                    sg,
                ) ==> #[trigger] final(self).bodies()[sg.0 as int] == old(self).bodies()[sg.0 as int],
    {
        self.try_recv_events();
        let ghost v0 = self@;
        let ghost mut outcomes: Seq<RunOutcome<S::Item>> = Seq::empty();
        let mut runs: usize = 0;
        proof {
            old(self)@.lemma_recv_events();
            v0.lemma_after_runs(outcomes);
        }
        loop
            invariant
                runs <= max_runs,
                outcomes.len() == runs,
                v0 == old(self)@.recv_events(),
                v0.wf(),
                v0.trace == old(self)@.trace,
                v0.can_run(outcomes),
                self@ == v0.after_runs(outcomes),
                self.wf(),
                self@.events == Seq::<SubgraphId>::empty(),
                v0.ran_here(self@, runs as nat),
                runs > 0 ==> v0.has_ready(),
                self.bodies().len() == old(self).bodies().len(),
                forall|sg: SubgraphId|
                    v0.has_subgraph(sg) && Self::not_run_since(
                        self@.trace,
                        v0.trace.len() as int,
                        sg,
                    ) ==> #[trigger] self.bodies()[sg.0 as int] == old(self).bodies()[sg.0 as int],
            ensures
                runs <= max_runs,
                outcomes.len() == runs,
                v0.can_run(outcomes),
                self@ == v0.after_runs(outcomes),
                self.wf(),
                self@.events == Seq::<SubgraphId>::empty(),
                runs == max_runs || !self@.has_ready(),
                runs > 0 <==> max_runs > 0 && v0.has_ready(),
                self.bodies().len() == old(self).bodies().len(),
                forall|sg: SubgraphId|
                    v0.has_subgraph(sg) && Self::not_run_since(
                        self@.trace,
                        v0.trace.len() as int,
                        sg,
                    ) ==> #[trigger] self.bodies()[sg.0 as int] == old(self).bodies()[sg.0 as int],
            decreases max_runs - runs,
        {
            if runs == max_runs {
                break ;
            }
            let ghost before = self@;
            let ghost at_start = self.bodies();
            let started = self.start_run();
            match started {
                None => {
                    break ;
                },
                Some((sg_id, context)) => {
                    let mut context = context;
                    let ghost running = self@;
                    proof {
                        before.lemma_begin_run();
                    }
                    self.subgraphs[sg_id.0].subgraph.run(&mut context);
                    let ghost outcome = RunOutcome {
                        sent: context.sent(),
                        requested: context.requested(),
                        deferred: context.deferred(),
                    };
                    proof {
                        assert(self@ =~= running);
                        assert forall|w: int|
                            0 <= w < at_start.len() && w != sg_id.0 implies self.bodies()[w]
                            == at_start[w] by {}
                        before.lemma_run_next(outcome);
                    }
                    let ghost ran = self.bodies();
                    self.finish_run(sg_id, context);
                    proof {
                        let more = outcomes.push(outcome);
                        assert(more.drop_last() =~= outcomes);
                        assert(self@ == v0.after_runs(more));
                        assert(v0.can_run(more));
                        v0.lemma_after_runs(more);
                        assert forall|sg: SubgraphId|
                            v0.has_subgraph(sg) && Self::not_run_since(
                                self@.trace,
                                v0.trace.len() as int,
                                sg,
                            ) implies #[trigger] self.bodies()[sg.0 as int] == old(
                            self,
                        ).bodies()[sg.0 as int] by {
                            assert(self@.trace[before.trace.len() as int].subgraph == sg_id);
                            assert(sg != sg_id);
                            assert(sg.0 != sg_id.0);
                            assert(Self::not_run_since(before.trace, v0.trace.len() as int, sg)) by {
                                assert forall|i: int|
                                    v0.trace.len() <= i < before.trace.len() implies (
                                #[trigger] before.trace[i]).subgraph != sg by {
                                    assert(self@.trace[i] == before.trace[i]);
                                }
                            }
                            assert(at_start[sg.0 as int] == old(self).bodies()[sg.0 as int]);
                            assert(ran[sg.0 as int] == at_start[sg.0 as int]);
                        }
                        outcomes = more;
                    }
                    runs += 1;
                },
            }
        }
        proof {
            v0.lemma_after_runs(outcomes);
            assert(old(self)@.same_wiring(v0));
        }
        runs
    }

    /// Whether no stratum of `graph` from `stratum` on has a subgraph ready.
    pub open spec fn none_ready_from(graph: GraphView<S::Item>, stratum: int) -> bool {
        forall|s: int| stratum <= s < graph.queues.len() ==> (#[trigger] graph.queue(s)).len() == 0
    }

    /// Whether every run recorded in `later` from position `from` on took
    /// place in tick `tick`.
    pub open spec fn runs_in_tick(later: Seq<RunRecord>, from: int, tick: usize) -> bool {
        forall|i: int| from <= i < later.len() ==> (#[trigger] later[i]).tick == tick
    }

    /// Runs the current tick: goes from stratum to stratum, as
    /// `next_stratum(true)` does, and runs each stratum it stops at, as
    /// `run_stratum` does, until the tick has no stratum with a subgraph ready
    /// or `max_runs` runs have been made. Returns whether any subgraph was
    /// run.
    ///
    /// Every run made belongs to the tick that was current at the call. At the
    /// end either the tick is over, and the graph stands at stratum 0 of the
    /// next tick; or all `max_runs` runs were made, and the graph stands in
    /// the same tick at a stratum that has a subgraph ready; or the tick count
    /// is at `usize::MAX`, where no tick ends, and no stratum from the current
    /// one on has a subgraph ready. The graph afterwards is the graph that the
    /// passes made of it, one after the other, each with what its subgraphs
    /// left behind.
    pub fn run_tick(&mut self, max_runs: usize) -> (work_done: bool)
        requires
            old(self).wf(),
        ensures
            final(self).wf(),
            old(self)@.same_wiring(final(self)@),
            old(self)@.trace.is_prefix_of(final(self)@.trace),
            Self::runs_in_tick(
                final(self)@.trace,
                old(self)@.trace.len() as int,
                old(self)@.current_tick,
            ),
            work_done == (final(self)@.trace.len() > old(self)@.trace.len()),
            final(self)@.trace.len() <= old(self)@.trace.len() + max_runs,
            ({
                &&& final(self)@.current_tick == old(self)@.current_tick + 1
                &&& final(self)@.current_stratum == 0
                &&& final(self)@.deferred == Seq::<SubgraphId>::empty()
            }) || ({
                &&& final(self)@.current_tick == old(self)@.current_tick
                &&& final(self)@.current_stratum >= old(self)@.current_stratum
                &&& final(self)@.has_ready()
                &&& final(self)@.trace.len() == old(self)@.trace.len() + max_runs
            }) || ({
                &&& final(self)@.current_tick == usize::MAX
                &&& old(self)@.current_tick == usize::MAX
                &&& final(self)@.current_stratum >= old(self)@.current_stratum
                &&& Self::none_ready_from(final(self)@, final(self)@.current_stratum as int)
            }),
            exists|passes: Seq<Seq<RunOutcome<S::Item>>>|
                {
                    &&& old(self)@.passes_ok(passes, true, max_runs as nat)
                    &&& final(self)@.trace.len() == old(self)@.trace.len() + total_runs(passes)
                    &&& #[trigger] old(self)@.after_passes(passes, true).next_stratum(true).0
                        == final(self)@
                },
    {
        let ghost v0 = self@;
        let ghost mut passes: Seq<Seq<RunOutcome<S::Item>>> = Seq::empty();
        let mut work_done = false;
        let mut left: usize = max_runs;
        proof {
            assert(v0.trace.subrange(0, v0.trace.len() as int) =~= v0.trace);
        }
        loop
            invariant_except_break
                self@.current_tick == v0.current_tick,
                self@.current_stratum >= v0.current_stratum,
                self@ == v0.after_passes(passes, true),
            invariant
                left <= max_runs,
                v0 == old(self)@,
                v0.passes_ok(passes, true, max_runs as nat),
                total_runs(passes) == max_runs - left,
                self@.trace.len() == v0.trace.len() + total_runs(passes),
                self.wf(),
                v0.same_wiring(self@),
                v0.trace.is_prefix_of(self@.trace),
                Self::runs_in_tick(self@.trace, v0.trace.len() as int, v0.current_tick),
                work_done == (self@.trace.len() > v0.trace.len()),
            ensures
                self.wf(),
                v0.same_wiring(self@),
                v0.trace.is_prefix_of(self@.trace),
                Self::runs_in_tick(self@.trace, v0.trace.len() as int, v0.current_tick),
                work_done == (self@.trace.len() > v0.trace.len()),
                v0.passes_ok(passes, true, max_runs as nat),
                self@ == v0.after_passes(passes, true).next_stratum(true).0,
                self@.trace.len() == v0.trace.len() + total_runs(passes),
                total_runs(passes) <= max_runs,
                ({
                    &&& self@.current_tick == v0.current_tick + 1
                    &&& self@.current_stratum == 0
                    &&& self@.deferred == Seq::<SubgraphId>::empty()
                }) || ({
                    &&& self@.current_tick == v0.current_tick
                    &&& self@.current_stratum >= v0.current_stratum
                    &&& self@.has_ready()
                    &&& total_runs(passes) == max_runs
                }) || ({
                    &&& self@.current_tick == usize::MAX
                    &&& v0.current_tick == usize::MAX
                    &&& self@.current_stratum >= v0.current_stratum
                    &&& Self::none_ready_from(self@, self@.current_stratum as int)
                }),
            decreases left,
        {
            let ghost before = self@;
            proof {
                before.lemma_next_stratum(true);
                before.lemma_recv_events();
            }
            let more = self.next_stratum(true);
            if !more {
                break ;
            }
            if left == 0 {
                break ;
            }
            let ghost here = self@;
            proof {
                assert(here.recv_events() =~= here);
            }
            let ran = self.run_stratum(left);
            proof {
                let pass = choose|outcomes: Seq<RunOutcome<S::Item>>|
                    {
                        &&& outcomes.len() == ran
                        &&& here.recv_events().can_run(outcomes)
                        &&& #[trigger] here.recv_events().after_runs(outcomes) == self@
                    };
                let more_passes = passes.push(pass);
                assert(more_passes.drop_last() =~= passes);
                assert(total_runs(more_passes) == total_runs(passes) + ran);
                assert(v0.after_passes(more_passes, true) == self@);
                assert(v0.passes_ok(more_passes, true, max_runs as nat));
                let after = self@;
                assert(after.trace.subrange(0, v0.trace.len() as int) =~= v0.trace) by {
                    assert(here.trace.subrange(0, v0.trace.len() as int) =~= v0.trace);
                    assert(after.trace.subrange(0, here.trace.len() as int) =~= here.trace);
                }
                assert forall|i: int| v0.trace.len() <= i < after.trace.len() implies (
                #[trigger] after.trace[i]).tick == v0.current_tick by {
                    if i < here.trace.len() {
                        assert(after.trace.subrange(0, here.trace.len() as int)[i] == here.trace[i]);
                    }
                }
                passes = more_passes;
            }
            left -= ran;
            work_done = true;
        }
        work_done
    }

    /// Runs whatever is ready, across ticks: goes from stratum to stratum, as
    /// `next_stratum(false)` does, and runs each stratum it stops at, as
    /// `run_stratum` does, until no stratum has a subgraph ready or `max_runs`
    /// runs have been made. Returns whether any subgraph was run.
    ///
    /// At the end either every ready queue is empty, and the graph stands at
    /// stratum 0 of a later tick to wait for events; or all `max_runs` runs
    /// were made, and the graph stands at a stratum that has a subgraph ready;
    /// or the tick count is at `usize::MAX`, where no tick ends, and no
    /// stratum from the current one on has a subgraph ready. The graph
    /// afterwards is the graph that the passes made of it, one after the
    /// other, each with what its subgraphs left behind.
    pub fn run_available(&mut self, max_runs: usize) -> (work_done: bool)
        requires
            old(self).wf(),
        ensures
            final(self).wf(),
            old(self)@.same_wiring(final(self)@),
            old(self)@.trace.is_prefix_of(final(self)@.trace),
            work_done == (final(self)@.trace.len() > old(self)@.trace.len()),
            final(self)@.trace.len() <= old(self)@.trace.len() + max_runs,
            old(self)@.current_tick <= final(self)@.current_tick,
            ({
                &&& final(self)@.current_stratum == 0
                &&& final(self)@.current_tick > old(self)@.current_tick
                &&& forall|s: int|
                    0 <= s < final(self)@.queues.len() ==> (#[trigger] final(self)@.queue(s)).len()
                        == 0
            }) || ({
                &&& final(self)@.has_ready()
                &&& final(self)@.trace.len() == old(self)@.trace.len() + max_runs
            }) || ({
                &&& final(self)@.current_tick == usize::MAX
                &&& Self::none_ready_from(final(self)@, final(self)@.current_stratum as int)
            }),
            exists|passes: Seq<Seq<RunOutcome<S::Item>>>|
                {
                    &&& old(self)@.passes_ok(passes, false, max_runs as nat)
                    &&& final(self)@.trace.len() == old(self)@.trace.len() + total_runs(passes)
                    &&& #[trigger] old(self)@.after_passes(passes, false).next_stratum(false).0
                        == final(self)@
                },
    {
        let ghost v0 = self@;
        let ghost mut passes: Seq<Seq<RunOutcome<S::Item>>> = Seq::empty();
        let mut work_done = false;
        let mut left: usize = max_runs;
        proof {
            assert(v0.trace.subrange(0, v0.trace.len() as int) =~= v0.trace);
        }
        loop
            invariant_except_break
                self@ == v0.after_passes(passes, false),
            invariant
                left <= max_runs,
                v0 == old(self)@,
                v0.passes_ok(passes, false, max_runs as nat),
                total_runs(passes) == max_runs - left,
                self@.trace.len() == v0.trace.len() + total_runs(passes),
                self.wf(),
                v0.same_wiring(self@),
                v0.current_tick <= self@.current_tick,
                v0.trace.is_prefix_of(self@.trace),
                work_done == (self@.trace.len() > v0.trace.len()),
            ensures
                self.wf(),
                v0.same_wiring(self@),
                v0.current_tick <= self@.current_tick,
                v0.trace.is_prefix_of(self@.trace),
                work_done == (self@.trace.len() > v0.trace.len()),
                v0.passes_ok(passes, false, max_runs as nat),
                self@ == v0.after_passes(passes, false).next_stratum(false).0,
                self@.trace.len() == v0.trace.len() + total_runs(passes),
                total_runs(passes) <= max_runs,
                ({
                    &&& self@.current_stratum == 0
                    &&& self@.current_tick > v0.current_tick
                    &&& forall|s: int|
                        0 <= s < self@.queues.len() ==> (#[trigger] self@.queue(s)).len() == 0
                }) || ({
                    &&& self@.has_ready()
                    &&& total_runs(passes) == max_runs
                }) || ({
                    &&& self@.current_tick == usize::MAX
                    &&& Self::none_ready_from(self@, self@.current_stratum as int)
                }),
            decreases left,
        {
            let ghost before = self@;
            proof {
                before.lemma_next_stratum(false);
                before.lemma_recv_events();
            }
            let more = self.next_stratum(false);
            if !more {
                break ;
            }
            if left == 0 {
                break ;
            }
            let ghost here = self@;
            proof {
                here.lemma_recv_events();
                assert(here.queue(here.current_stratum as int).is_prefix_of(
                    here.recv_events().queue(here.current_stratum as int),
                ));
            }
            let ran = self.run_stratum(left);
            proof {
                let pass = choose|outcomes: Seq<RunOutcome<S::Item>>|
                    {
                        &&& outcomes.len() == ran
                        &&& here.recv_events().can_run(outcomes)
                        &&& #[trigger] here.recv_events().after_runs(outcomes) == self@
                    };
                let more_passes = passes.push(pass);
                assert(more_passes.drop_last() =~= passes);
                assert(total_runs(more_passes) == total_runs(passes) + ran);
                assert(v0.after_passes(more_passes, false) == self@);
                assert(v0.passes_ok(more_passes, false, max_runs as nat));
                let after = self@;
                assert(after.trace.subrange(0, v0.trace.len() as int) =~= v0.trace) by {
                    assert(here.trace.subrange(0, v0.trace.len() as int) =~= v0.trace);
                    assert(after.trace.subrange(0, here.trace.len() as int) =~= here.trace);
                }
                passes = more_passes;
            }
            left -= ran;
            work_done = true;
        }
        work_done
    }

    /// Adds a subgraph to stratum `stratum` that reads `recv_ports` and writes
    /// `send_ports`, and schedules it, so that it runs at least once. Returns
    /// its identifier, which is the number of subgraphs there were.
    pub fn add_subgraph_stratified(
        &mut self,
        name: String,
        stratum: usize,
        recv_ports: Vec<RecvPort>,
        send_ports: Vec<SendPort>,
        subgraph: S,
    ) -> (sg_id: SubgraphId)
        requires
            old(self).wf(),
            forall|i: int|
                0 <= i < recv_ports.len() ==> old(self)@.has_handoff(
                    (#[trigger] recv_ports[i]).handoff_id,
                ),
            forall|i: int|
                0 <= i < send_ports.len() ==> old(self)@.has_handoff(
                    (#[trigger] send_ports[i]).handoff_id,
                ),
        ensures
            final(self).wf(),
            final(self)@ == old(self)@.add_subgraph(
                name@,
                stratum,
                recv_handoffs(recv_ports@),
                send_handoffs(send_ports@),
            ),
            sg_id.0 == old(self)@.strata.len(),
            final(self).states() == old(self).states(),
            final(self).bodies() == old(self).bodies().push(subgraph),
    {
        self.add_subgraph_stratified_n_m(name, stratum, recv_ports, send_ports, subgraph)
    }

    /// Adds a subgraph to stratum 0 that reads `recv_ports` and writes
    /// `send_ports`, and schedules it. Returns its identifier.
    pub fn add_subgraph(
        &mut self,
        name: String,
        recv_ports: Vec<RecvPort>,
        send_ports: Vec<SendPort>,
        subgraph: S,
    ) -> (sg_id: SubgraphId)
        requires
            old(self).wf(),
            forall|i: int|
                0 <= i < recv_ports.len() ==> old(self)@.has_handoff(
                    (#[trigger] recv_ports[i]).handoff_id,
                ),
            forall|i: int|
                0 <= i < send_ports.len() ==> old(self)@.has_handoff(
                    (#[trigger] send_ports[i]).handoff_id,
                ),
        ensures
            final(self).wf(),
            final(self)@ == old(self)@.add_subgraph(
                name@,
                0,
                recv_handoffs(recv_ports@),
                send_handoffs(send_ports@),
            ),
            sg_id.0 == old(self)@.strata.len(),
            final(self).states() == old(self).states(),
            final(self).bodies() == old(self).bodies().push(subgraph),
    {
        self.add_subgraph_stratified(name, 0, recv_ports, send_ports, subgraph)
    }
}

} // verus!
