//! The scheduler as a mathematical object: the state of a graph, its
//! invariant, and the transitions that the scheduler's operations perform.
use vstd::prelude::*;
use crate::scheduled::{HandoffId, SubgraphId};

verus! {

/// One run of a subgraph, as remembered in a graph's history.
pub struct RunRecord {
    pub tick: usize,
    pub stratum: usize,
    pub subgraph: SubgraphId,
}

/// Whether the point in time `(tick_a, stratum_a)` is `(tick_b, stratum_b)` or
/// comes before it: ticks first, strata within a tick.
pub open spec fn not_after(tick_a: usize, stratum_a: usize, tick_b: usize, stratum_b: usize) -> bool {
    tick_a < tick_b || (tick_a == tick_b && stratum_a <= stratum_b)
}

/// What one run of a subgraph leaves behind: the items given to each send
/// port, the subgraphs it asked to have scheduled at once, and those it asked
/// to have scheduled in the next tick.
pub struct RunOutcome<T> {
    pub sent: Seq<Seq<T>>,
    pub requested: Seq<SubgraphId>,
    pub deferred: Seq<SubgraphId>,
}

/// The number of runs in a list of passes.
pub open spec fn total_runs<T>(passes: Seq<Seq<RunOutcome<T>>>) -> nat
    decreases passes.len(),
{
    if passes.len() == 0 {
        0
    } else {
        total_runs(passes.drop_last()) + passes.last().len()
    }
}

/// The state of a graph, without the code of its subgraphs and the contents of
/// its state cells.
#[verifier::ext_equal]
pub struct GraphView<T> {
    /// The current tick.
    pub current_tick: usize,
    /// The current stratum.
    pub current_stratum: usize,
    /// The name of each subgraph, for diagnostics.
    pub subgraph_names: Seq<Seq<char>>,
    /// The name of each handoff, for diagnostics.
    pub handoff_names: Seq<Seq<char>>,
    /// The stratum that each subgraph is assigned to.
    pub strata: Seq<usize>,
    /// The handoffs that each subgraph reads, by receive port.
    pub sg_preds: Seq<Seq<HandoffId>>,
    /// The handoffs that each subgraph writes, by send port.
    pub sg_succs: Seq<Seq<HandoffId>>,
    /// Whether each subgraph is waiting in a ready queue.
    pub scheduled: Seq<bool>,
    /// The items waiting in each handoff, oldest first.
    pub handoff_items: Seq<Seq<T>>,
    /// The subgraphs that write each handoff.
    pub handoff_preds: Seq<Seq<SubgraphId>>,
    /// The subgraphs that read each handoff.
    pub handoff_succs: Seq<Seq<SubgraphId>>,
    /// The ready queue of each stratum, front first.
    pub queues: Seq<Seq<SubgraphId>>,
    /// The events not yet received, oldest first.
    pub events: Seq<SubgraphId>,
    /// The subgraphs that asked to be scheduled in the next tick, oldest
    /// request first. They become events when the current tick ends.
    pub deferred: Seq<SubgraphId>,
    /// Every run so far, oldest first.
    pub trace: Seq<RunRecord>,
}

impl<T> GraphView<T> {
    /// Whether `sg` names a subgraph of the graph.
    pub open spec fn has_subgraph(self, sg: SubgraphId) -> bool {
        sg.0 < self.strata.len()
    }

    /// Whether `h` names a handoff of the graph.
    pub open spec fn has_handoff(self, h: HandoffId) -> bool {
        h.0 < self.handoff_items.len()
    }

    /// The stratum that `sg` is assigned to.
    pub open spec fn stratum_of(self, sg: SubgraphId) -> usize {
        self.strata[sg.0 as int]
    }

    /// Whether `sg` is waiting in a ready queue.
    pub open spec fn is_scheduled(self, sg: SubgraphId) -> bool {
        self.scheduled[sg.0 as int]
    }

    /// The handoffs that `sg` reads, by receive port.
    pub open spec fn inputs(self, sg: SubgraphId) -> Seq<HandoffId> {
        self.sg_preds[sg.0 as int]
    }

    /// The handoffs that `sg` writes, by send port.
    pub open spec fn outputs(self, sg: SubgraphId) -> Seq<HandoffId> {
        self.sg_succs[sg.0 as int]
    }

    /// The items waiting in `h`, oldest first.
    pub open spec fn waiting(self, h: HandoffId) -> Seq<T> {
        self.handoff_items[h.0 as int]
    }

    /// The subgraphs that write `h`.
    pub open spec fn producers(self, h: HandoffId) -> Seq<SubgraphId> {
        self.handoff_preds[h.0 as int]
    }

    /// The subgraphs that read `h`.
    pub open spec fn consumers(self, h: HandoffId) -> Seq<SubgraphId> {
        self.handoff_succs[h.0 as int]
    }

    /// The ready queue of stratum `s`, front first.
    pub open spec fn queue(self, s: int) -> Seq<SubgraphId> {
        self.queues[s]
    }

    /// The tables have matching sizes, the current stratum exists, and every
    /// identifier in the wiring names something that exists.
    pub open spec fn well_shaped(self) -> bool {
        &&& self.strata.len() <= usize::MAX
        &&& self.handoff_items.len() <= usize::MAX
        &&& self.subgraph_names.len() == self.strata.len()
        &&& self.handoff_names.len() == self.handoff_items.len()
        &&& self.sg_preds.len() == self.strata.len()
        &&& self.sg_succs.len() == self.strata.len()
        &&& self.scheduled.len() == self.strata.len()
        &&& self.handoff_preds.len() == self.handoff_items.len()
        &&& self.handoff_succs.len() == self.handoff_items.len()
        &&& 0 < self.queues.len() <= usize::MAX
        &&& self.current_stratum < self.queues.len()
        &&& forall|sg: SubgraphId| self.has_subgraph(sg) ==> #[trigger] self.stratum_of(sg) < self.queues.len()
        &&& forall|sg: SubgraphId, i: int|
            self.has_subgraph(sg) && 0 <= i < self.inputs(sg).len() ==> self.has_handoff(
                #[trigger] self.inputs(sg)[i],
            )
        &&& forall|sg: SubgraphId, i: int|
            self.has_subgraph(sg) && 0 <= i < self.outputs(sg).len() ==> self.has_handoff(
                #[trigger] self.outputs(sg)[i],
            )
        &&& forall|h: HandoffId, i: int|
            self.has_handoff(h) && 0 <= i < self.producers(h).len() ==> self.has_subgraph(
                #[trigger] self.producers(h)[i],
            )
        &&& forall|h: HandoffId, i: int|
            self.has_handoff(h) && 0 <= i < self.consumers(h).len() ==> self.has_subgraph(
                #[trigger] self.consumers(h)[i],
            )
    }

    /// Every subgraph that a handoff lists as a reader has that handoff among
    /// its receive ports.
    pub open spec fn readers_listed(self) -> bool {
        forall|h: HandoffId, i: int|
            self.has_handoff(h) && 0 <= i < self.consumers(h).len() ==> self.inputs(
                #[trigger] self.consumers(h)[i],
            ).contains(h)
    }

    /// Every entry of a ready queue names a subgraph of that queue's stratum.
    pub open spec fn queues_by_stratum(self) -> bool {
        forall|s: int, i: int|
            0 <= s < self.queues.len() && 0 <= i < self.queue(s).len() ==> {
                &&& self.has_subgraph(#[trigger] self.queue(s)[i])
                &&& self.stratum_of(self.queue(s)[i]) == s
            }
    }

    /// No ready queue holds a subgraph twice.
    pub open spec fn queued_once(self) -> bool {
        forall|s: int, i: int, j: int|
            0 <= s < self.queues.len() && 0 <= i < self.queue(s).len() && 0 <= j < self.queue(
                s,
            ).len() && i != j ==> #[trigger] self.queue(s)[i] != #[trigger] self.queue(s)[j]
    }

    /// A subgraph is marked as scheduled exactly when its stratum's ready queue
    /// holds it.
    pub open spec fn marks_match_queues(self) -> bool {
        forall|sg: SubgraphId|
            self.has_subgraph(sg) ==> (#[trigger] self.is_scheduled(sg) <==> self.queue(
                self.stratum_of(sg) as int,
            ).contains(sg))
    }

    /// Whether every reader of `h` is scheduled if items wait in `h`.
    pub open spec fn covered_at(self, h: HandoffId) -> bool {
        self.waiting(h).len() > 0 ==> forall|i: int|
            0 <= i < self.consumers(h).len() ==> self.is_scheduled(#[trigger] self.consumers(h)[i])
    }

    /// No handoff holds items without all its readers being scheduled.
    pub open spec fn handoffs_covered(self) -> bool {
        forall|h: HandoffId| self.has_handoff(h) ==> #[trigger] self.covered_at(h)
    }

    /// The history is ordered in time, lies in the past, and records each
    /// subgraph in its own stratum.
    pub open spec fn trace_in_order(self) -> bool {
        &&& forall|i: int, j: int|
            0 <= i <= j < self.trace.len() ==> not_after(
                (#[trigger] self.trace[i]).tick,
                self.trace[i].stratum,
                (#[trigger] self.trace[j]).tick,
                self.trace[j].stratum,
            )
        &&& forall|i: int|
            0 <= i < self.trace.len() ==> {
                &&& not_after(
                    (#[trigger] self.trace[i]).tick,
                    self.trace[i].stratum,
                    self.current_tick,
                    self.current_stratum,
                )
                &&& self.has_subgraph(self.trace[i].subgraph)
                &&& self.stratum_of(self.trace[i].subgraph) == self.trace[i].stratum
            }
    }

    /// The invariant of a graph but for the rule on handoffs.
    pub open spec fn wf_core(self) -> bool {
        &&& self.well_shaped()
        &&& self.readers_listed()
        &&& self.queues_by_stratum()
        &&& self.queued_once()
        &&& self.marks_match_queues()
        &&& self.trace_in_order()
    }

    /// The invariant of a graph between the scheduler's operations.
    pub open spec fn wf(self) -> bool {
        &&& self.wf_core()
        &&& self.handoffs_covered()
    }

    /// Whether `other` has the subgraphs and handoffs of `self`, named, wired
    /// and assigned to strata in the same way.
    pub open spec fn same_wiring(self, other: Self) -> bool {
        &&& other.subgraph_names == self.subgraph_names
        &&& other.handoff_names == self.handoff_names
        &&& other.strata == self.strata
        &&& other.sg_preds == self.sg_preds
        &&& other.sg_succs == self.sg_succs
        &&& other.handoff_preds == self.handoff_preds
        &&& other.handoff_succs == self.handoff_succs
        &&& other.handoff_items.len() == self.handoff_items.len()
        &&& other.queues.len() == self.queues.len()
    }

    /// Puts `sg` at the back of its stratum's ready queue, unless it is
    /// scheduled already or does not exist.
    pub open spec fn schedule(self, sg: SubgraphId) -> Self {
        if self.has_subgraph(sg) && !self.is_scheduled(sg) {
            GraphView {
                scheduled: self.scheduled.update(sg.0 as int, true),
                queues: self.queues.update(
                    self.stratum_of(sg) as int,
                    self.queue(self.stratum_of(sg) as int).push(sg),
                ),
                ..self
            }
        } else {
            self
        }
    }

    /// Schedules the subgraphs of `ids`, one after the other.
    pub open spec fn schedule_all(self, ids: Seq<SubgraphId>) -> Self
        decreases ids.len(),
    {
        if ids.len() == 0 {
            self
        } else {
            self.schedule_all(ids.drop_last()).schedule(ids.last())
        }
    }

    /// How many of `ids`, scheduled one after the other, enter a ready queue.
    pub open spec fn newly_scheduled(self, ids: Seq<SubgraphId>) -> nat
        decreases ids.len(),
    {
        if ids.len() == 0 {
            0
        } else {
            let before = self.schedule_all(ids.drop_last());
            let one: nat = if before.has_subgraph(ids.last()) && !before.is_scheduled(ids.last()) {
                1
            } else {
                0
            };
            self.newly_scheduled(ids.drop_last()) + one
        }
    }

    /// Receives every pending event: schedules the subgraphs named, oldest
    /// event first, and leaves no event pending.
    pub open spec fn recv_events(self) -> Self {
        GraphView { events: Seq::empty(), ..self }.schedule_all(self.events)
    }

    /// The first stratum from `lo` up to but not including `hi` with a subgraph
    /// ready, or `hi` if there is none.
    pub open spec fn first_ready(self, lo: int, hi: int) -> int
        decreases hi - lo,
    {
        if lo >= hi {
            hi
        } else if self.queue(lo).len() > 0 {
            lo
        } else {
            self.first_ready(lo + 1, hi)
        }
    }

    /// Moves to `stratum` within the current tick.
    pub open spec fn at(self, stratum: int) -> Self {
        GraphView { current_stratum: stratum as usize, ..self }
    }

    /// Ends the current tick and moves to `stratum` of the next one. The
    /// subgraphs that asked to be scheduled in the next tick become events,
    /// behind the events that are pending.
    pub open spec fn next_tick_at(self, stratum: int) -> Self {
        GraphView {
            current_tick: (self.current_tick + 1) as usize,
            current_stratum: stratum as usize,
            events: self.events + self.deferred,
            deferred: Seq::empty(),
            ..self
        }
    }

    /// Receives the pending events, then moves to the next stratum with a
    /// subgraph ready, which may be the current one. Strata are tried upwards
    /// from the current one; past the last stratum the tick ends. Then, if
    /// `current_tick_only`, the search stops at stratum 0 of the new tick;
    /// otherwise it goes on from stratum 0 up to the stratum it began at, and
    /// falls back to stratum 0 if it finds nothing. The second component tells
    /// whether a ready subgraph was found.
    ///
    /// A tick count that is at the largest value it can take does not go up:
    /// there the tick does not end, the graph stays where it is, and no ready
    /// subgraph is reported.
    ///
    /// The events that the end of the tick makes of the deferred requests are
    /// not received in the same step. So a graph in which nothing is left but
    /// subgraphs that asked for the next tick comes to rest, and goes on when
    /// it is next asked to.
    pub open spec fn next_stratum(self, current_tick_only: bool) -> (Self, bool) {
        let v = self.recv_events();
        let n = v.queues.len() as int;
        let here = v.first_ready(v.current_stratum as int, n);
        if here < n {
            (v.at(here), true)
        } else if v.current_tick == usize::MAX {
            (v, false)
        } else if current_tick_only {
            (v.next_tick_at(0), false)
        } else {
            let wrapped = v.first_ready(0, v.current_stratum as int);
            if wrapped < v.current_stratum {
                (v.next_tick_at(wrapped), true)
            } else {
                (v.next_tick_at(0), false)
            }
        }
    }

    /// Whether the current stratum has a subgraph ready.
    pub open spec fn has_ready(self) -> bool {
        self.queue(self.current_stratum as int).len() > 0
    }

    /// The subgraph at the front of the current stratum's ready queue.
    pub open spec fn next_ready(self) -> SubgraphId {
        self.queue(self.current_stratum as int)[0]
    }

    /// What a run of `sg` receives, by receive port: all that waits in the
    /// port's handoff, or nothing where an earlier port of `sg` reads the same
    /// handoff.
    pub open spec fn received_by(self, sg: SubgraphId) -> Seq<Seq<T>> {
        Seq::new(
            self.inputs(sg).len(),
            |i: int|
                if self.inputs(sg).take(i).contains(self.inputs(sg)[i]) {
                    Seq::<T>::empty()
                } else {
                    self.waiting(self.inputs(sg)[i])
                },
        )
    }

    /// Empties the handoffs of `hs`.
    pub open spec fn drain(self, hs: Seq<HandoffId>) -> Self {
        GraphView {
            handoff_items: Seq::new(
                self.handoff_items.len(),
                |h: int|
                    if hs.contains(HandoffId(h as usize)) {
                        Seq::<T>::empty()
                    } else {
                        self.handoff_items[h]
                    },
            ),
            ..self
        }
    }

    /// Starts the run of the subgraph at the front of the current stratum's
    /// ready queue: takes it off the queue, unmarks it, empties the handoffs it
    /// reads, and records the run.
    pub open spec fn begin_run(self) -> Self {
        let sg = self.next_ready();
        let s = self.current_stratum as int;
        GraphView {
            queues: self.queues.update(s, self.queue(s).drop_first()),
            scheduled: self.scheduled.update(sg.0 as int, false),
            trace: self.trace.push(
                RunRecord { tick: self.current_tick, stratum: self.current_stratum, subgraph: sg },
            ),
            ..self.drain(self.inputs(sg))
        }
    }

    /// Appends `items` to what waits in `h`.
    pub open spec fn give(self, h: HandoffId, items: Seq<T>) -> Self {
        GraphView {
            handoff_items: self.handoff_items.update(h.0 as int, self.waiting(h) + items),
            ..self
        }
    }

    /// Gives `sent[i]` to the handoff `ports[i]`, for the first `n` ports in
    /// turn.
    pub open spec fn deliver(self, ports: Seq<HandoffId>, sent: Seq<Seq<T>>, n: int) -> Self
        decreases n,
    {
        if n <= 0 {
            self
        } else {
            self.deliver(ports, sent, n - 1).give(ports[n - 1], sent[n - 1])
        }
    }

    /// Schedules the readers of `h` if items wait in `h`.
    pub open spec fn wake(self, h: HandoffId) -> Self {
        if self.waiting(h).len() > 0 {
            self.schedule_all(self.consumers(h))
        } else {
            self
        }
    }

    /// Wakes the readers of each handoff of `ports` in turn.
    pub open spec fn propagate(self, ports: Seq<HandoffId>) -> Self
        decreases ports.len(),
    {
        if ports.len() == 0 {
            self
        } else {
            self.propagate(ports.drop_last()).wake(ports.last())
        }
    }

    /// The number of send ports of `sg` that a run which left `sent` has
    /// written.
    pub open spec fn ports_written(self, sg: SubgraphId, sent: Seq<Seq<T>>) -> int {
        if sent.len() <= self.outputs(sg).len() {
            sent.len() as int
        } else {
            self.outputs(sg).len() as int
        }
    }

    /// Ends a run of `sg` that gave `sent` to its send ports, asked for
    /// `requested` to be scheduled at once and for `deferred` to be scheduled
    /// in the next tick: delivers the items to the handoffs, wakes the readers
    /// of every handoff of `sg` that now holds items, notes the deferred
    /// requests, and then receives the pending events, the requests of the run
    /// last among them.
    pub open spec fn finish_run(
        self,
        sg: SubgraphId,
        sent: Seq<Seq<T>>,
        requested: Seq<SubgraphId>,
        deferred: Seq<SubgraphId>,
    ) -> Self {
        let outs = self.outputs(sg);
        let v = self.deliver(outs, sent, self.ports_written(sg, sent)).propagate(outs);
        GraphView { events: v.events + requested, deferred: v.deferred + deferred, ..v }.recv_events()
    }

    /// Whether every ready queue of `other` begins with the ready queue of
    /// `self` for that stratum.
    pub open spec fn queues_grow_into(self, other: Self) -> bool {
        &&& other.queues.len() == self.queues.len()
        &&& forall|s: int|
            0 <= s < self.queues.len() ==> self.queue(s).is_prefix_of(#[trigger] other.queue(s))
    }

    /// The graph without subgraphs or handoffs, at tick 0 and stratum 0, with
    /// the one ready queue of stratum 0.
    pub open spec fn empty() -> Self {
        GraphView {
            current_tick: 0,
            current_stratum: 0,
            subgraph_names: Seq::empty(),
            handoff_names: Seq::empty(),
            strata: Seq::empty(),
            sg_preds: Seq::empty(),
            sg_succs: Seq::empty(),
            scheduled: Seq::empty(),
            handoff_items: Seq::empty(),
            handoff_preds: Seq::empty(),
            handoff_succs: Seq::empty(),
            queues: seq![Seq::empty()],
            events: Seq::empty(),
            deferred: Seq::empty(),
            trace: Seq::empty(),
        }
    }

    /// Adds a handoff named `name` that holds nothing and that no subgraph
    /// reads or writes. Its identifier is the number of handoffs there were.
    pub open spec fn add_handoff(self, name: Seq<char>) -> Self {
        GraphView {
            handoff_names: self.handoff_names.push(name),
            handoff_items: self.handoff_items.push(Seq::empty()),
            handoff_preds: self.handoff_preds.push(Seq::empty()),
            handoff_succs: self.handoff_succs.push(Seq::empty()),
            ..self
        }
    }

    /// Lists `sg` once more as a reader of `h`.
    pub open spec fn add_reader(self, h: HandoffId, sg: SubgraphId) -> Self {
        GraphView {
            handoff_succs: self.handoff_succs.update(h.0 as int, self.consumers(h).push(sg)),
            ..self
        }
    }

    /// Lists `sg` as a reader of each handoff of `hs` in turn.
    pub open spec fn add_readers(self, hs: Seq<HandoffId>, sg: SubgraphId) -> Self
        decreases hs.len(),
    {
        if hs.len() == 0 {
            self
        } else {
            self.add_readers(hs.drop_last(), sg).add_reader(hs.last(), sg)
        }
    }

    /// Lists `sg` once more as a writer of `h`.
    pub open spec fn add_writer(self, h: HandoffId, sg: SubgraphId) -> Self {
        GraphView {
            handoff_preds: self.handoff_preds.update(h.0 as int, self.producers(h).push(sg)),
            ..self
        }
    }

    /// Lists `sg` as a writer of each handoff of `hs` in turn.
    pub open spec fn add_writers(self, hs: Seq<HandoffId>, sg: SubgraphId) -> Self
        decreases hs.len(),
    {
        if hs.len() == 0 {
            self
        } else {
            self.add_writers(hs.drop_last(), sg).add_writer(hs.last(), sg)
        }
    }

    /// Makes sure that stratum `stratum` has a ready queue, by adding empty
    /// queues as far as needed.
    pub open spec fn init_stratum(self, stratum: int) -> Self {
        if self.queues.len() <= stratum {
            GraphView {
                queues: self.queues + Seq::new(
                    (stratum + 1 - self.queues.len()) as nat,
                    |i: int| Seq::<SubgraphId>::empty(),
                ),
                ..self
            }
        } else {
            self
        }
    }

    /// Adds a subgraph named `name` in stratum `stratum` that reads `recv` and
    /// writes `send`, port by port, and schedules it at once. Its identifier
    /// is the number of subgraphs there were.
    pub open spec fn add_subgraph(
        self,
        name: Seq<char>,
        stratum: usize,
        recv: Seq<HandoffId>,
        send: Seq<HandoffId>,
    ) -> Self {
        let sg = SubgraphId(self.strata.len() as usize);
        let wired = self.add_readers(recv, sg).add_writers(send, sg).init_stratum(stratum as int);
        GraphView {
            subgraph_names: wired.subgraph_names.push(name),
            strata: wired.strata.push(stratum),
            sg_preds: wired.sg_preds.push(recv),
            sg_succs: wired.sg_succs.push(send),
            scheduled: wired.scheduled.push(true),
            queues: wired.queues.update(stratum as int, wired.queue(stratum as int).push(sg)),
            ..wired
        }
    }

    /// One whole run of the subgraph at the front of the current stratum's
    /// ready queue, with the outcome `outcome`: the run starts as `begin_run`
    /// says and ends as `finish_run` says.
    pub open spec fn run_next(self, outcome: RunOutcome<T>) -> Self {
        self.begin_run().finish_run(
            self.next_ready(),
            outcome.sent,
            outcome.requested,
            outcome.deferred,
        )
    }

    /// The graph after as many runs as `outcomes` has entries, each of the
    /// subgraph that is then at the front of the current stratum's ready
    /// queue, the runs with the outcomes of `outcomes` in turn.
    pub open spec fn after_runs(self, outcomes: Seq<RunOutcome<T>>) -> Self
        decreases outcomes.len(),
    {
        if outcomes.len() == 0 {
            self
        } else {
            self.after_runs(outcomes.drop_last()).run_next(outcomes.last())
        }
    }

    /// Whether each of those runs finds a subgraph ready in the current
    /// stratum.
    pub open spec fn can_run(self, outcomes: Seq<RunOutcome<T>>) -> bool
        decreases outcomes.len(),
    {
        if outcomes.len() == 0 {
            true
        } else {
            self.can_run(outcomes.drop_last()) && self.after_runs(outcomes.drop_last()).has_ready()
        }
    }

    /// The graph after the passes of `passes`: before each pass the graph
    /// moves to the next stratum that has a subgraph ready, as `next_stratum`
    /// says; the pass receives the pending events and makes its runs.
    pub open spec fn after_passes(self, passes: Seq<Seq<RunOutcome<T>>>, current_tick_only: bool) -> Self
        decreases passes.len(),
    {
        if passes.len() == 0 {
            self
        } else {
            self.after_passes(passes.drop_last(), current_tick_only).next_stratum(
                current_tick_only,
            ).0.recv_events().after_runs(passes.last())
        }
    }

    /// Whether the passes of `passes` can be made with `max_runs` runs in
    /// all: before each pass `next_stratum` finds a subgraph ready; each pass
    /// makes a run at least, and each of its runs finds a subgraph ready; and
    /// each pass goes on until the stratum has no subgraph ready, or the runs
    /// are used up.
    pub open spec fn passes_ok(
        self,
        passes: Seq<Seq<RunOutcome<T>>>,
        current_tick_only: bool,
        max_runs: nat,
    ) -> bool
        decreases passes.len(),
    {
        if passes.len() == 0 {
            true
        } else {
            let before = self.after_passes(passes.drop_last(), current_tick_only);
            let found = before.next_stratum(current_tick_only);
            &&& self.passes_ok(passes.drop_last(), current_tick_only, max_runs)
            &&& found.1
            &&& passes.last().len() > 0
            &&& found.0.recv_events().can_run(passes.last())
            &&& total_runs(passes) <= max_runs
            &&& (!self.after_passes(passes, current_tick_only).has_ready() || total_runs(passes)
                == max_runs)
        }
    }
}

} // verus!
