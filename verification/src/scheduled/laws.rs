//! What holds of every graph: the transitions keep the invariant, and the
//! invariant gives the ordering, at-most-once and no-loss guarantees.
use vstd::prelude::*;
use crate::scheduled::{HandoffId, SubgraphId};
use crate::scheduled::model::{not_after, GraphView, RunOutcome};

verus! {

impl<T> GraphView<T> {
    /// Whether `other` differs from `self` at most in that more subgraphs are
    /// scheduled, each new one at the back of its queue, and in its pending
    /// events and deferred requests.
    pub open spec fn only_scheduled_more(self, other: Self) -> bool {
        &&& self.same_wiring(other)
        &&& other.current_tick == self.current_tick
        &&& other.current_stratum == self.current_stratum
        &&& other.handoff_items == self.handoff_items
        &&& other.trace == self.trace
        &&& other.scheduled.len() == self.scheduled.len()
        &&& self.queues_grow_into(other)
        &&& forall|sg: SubgraphId|
            self.has_subgraph(sg) && self.is_scheduled(sg) ==> #[trigger] other.is_scheduled(sg)
    }

    /// The rule on handoffs survives when more subgraphs are scheduled.
    pub proof fn lemma_covered_when_scheduled_more(self, other: Self, h: HandoffId)
        requires
            self.well_shaped(),
            self.only_scheduled_more(other),
            self.has_handoff(h),
            self.covered_at(h),
        ensures
            other.covered_at(h),
    {
        if other.waiting(h).len() > 0 {
            assert forall|i: int| 0 <= i < other.consumers(h).len() implies other.is_scheduled(
                #[trigger] other.consumers(h)[i],
            ) by {
                let sg = self.consumers(h)[i];
                assert(self.has_subgraph(sg));
                assert(self.is_scheduled(sg));
            }
        }
    }

    /// Scheduling one subgraph keeps the invariant, changes nothing but the
    /// ready queues and marks, and leaves the subgraph scheduled.
    pub proof fn lemma_schedule(self, sg: SubgraphId)
        requires
            self.wf_core(),
        ensures
            self.schedule(sg).wf_core(),
            self.only_scheduled_more(self.schedule(sg)),
            self.schedule(sg).events == self.events,
            self.schedule(sg).deferred == self.deferred,
            self.has_subgraph(sg) ==> self.schedule(sg).is_scheduled(sg),
    {
        let next = self.schedule(sg);
        if self.has_subgraph(sg) && !self.is_scheduled(sg) {
            let st = self.stratum_of(sg) as int;
            assert(0 <= st < self.queues.len());
            assert(!self.queue(st).contains(sg));
            assert forall|s: int| 0 <= s < self.queues.len() implies self.queue(s).is_prefix_of(
                #[trigger] next.queue(s),
            ) by {
                if s == st {
                    assert(next.queue(s) == self.queue(s).push(sg));
                    assert(next.queue(s).take(self.queue(s).len() as int) =~= self.queue(s));
                } else {
                    assert(next.queue(s) == self.queue(s));
                }
            }
            assert forall|s: int, i: int|
                0 <= s < next.queues.len() && 0 <= i < next.queue(s).len() implies {
                &&& next.has_subgraph(#[trigger] next.queue(s)[i])
                &&& next.stratum_of(next.queue(s)[i]) == s
            } by {
                if s == st && i == self.queue(s).len() {
                } else {
                    assert(next.queue(s)[i] == self.queue(s)[i]);
                }
            }
            assert forall|s: int, i: int, j: int|
                0 <= s < next.queues.len() && 0 <= i < next.queue(s).len() && 0 <= j < next.queue(
                    s,
                ).len() && i != j implies #[trigger] next.queue(s)[i] != #[trigger] next.queue(
                s,
            )[j] by {
                if s == st {
                    let n = self.queue(s).len() as int;
                    if i < n && j < n {
                        assert(self.queue(s)[i] != self.queue(s)[j]);
                    } else if i < n {
                        assert(self.queue(s).contains(self.queue(s)[i]));
                    } else {
                        assert(self.queue(s).contains(self.queue(s)[j]));
                    }
                } else {
                    assert(self.queue(s)[i] != self.queue(s)[j]);
                }
            }
            assert forall|x: SubgraphId| next.has_subgraph(x) implies (#[trigger] next.is_scheduled(
                x,
            ) <==> next.queue(next.stratum_of(x) as int).contains(x)) by {
                let sx = self.stratum_of(x) as int;
                assert(0 <= sx < self.queues.len());
                if x == sg {
                    assert(next.queue(sx)[self.queue(sx).len() as int] == sg);
                } else {
                    assert(x.0 != sg.0);
                    assert(next.is_scheduled(x) == self.is_scheduled(x));
                    if sx == st {
                        if self.queue(sx).contains(x) {
                            let i = choose|i: int|
                                0 <= i < self.queue(sx).len() && self.queue(sx)[i] == x;
                            assert(next.queue(sx)[i] == x);
                        }
                        if next.queue(sx).contains(x) {
                            let i = choose|i: int|
                                0 <= i < next.queue(sx).len() && next.queue(sx)[i] == x;
                            assert(self.queue(sx)[i] == x);
                        }
                    } else {
                        assert(next.queue(sx) == self.queue(sx));
                    }
                }
            }
            self.lemma_wiring_carries(next);
            self.lemma_trace_carries(next);
        } else {
            assert forall|s: int| 0 <= s < self.queues.len() implies self.queue(s).is_prefix_of(
                #[trigger] next.queue(s),
            ) by {
                assert(self.queue(s).take(self.queue(s).len() as int) =~= self.queue(s));
            }
            if self.has_subgraph(sg) {
                assert(self.is_scheduled(sg));
            }
        }
    }

    /// Scheduling more, twice over, is scheduling more.
    pub proof fn lemma_scheduled_more_twice(self, mid: Self, other: Self)
        requires
            self.only_scheduled_more(mid),
            mid.only_scheduled_more(other),
        ensures
            self.only_scheduled_more(other),
    {
        assert forall|s: int| 0 <= s < self.queues.len() implies self.queue(s).is_prefix_of(
            #[trigger] other.queue(s),
        ) by {
            assert(self.queue(s).is_prefix_of(mid.queue(s)));
            assert(mid.queue(s).is_prefix_of(other.queue(s)));
            assert(other.queue(s).subrange(0, self.queue(s).len() as int) =~= self.queue(s));
        }
        assert forall|sg: SubgraphId|
            self.has_subgraph(sg) && self.is_scheduled(sg) implies #[trigger] other.is_scheduled(
            sg,
        ) by {
            assert(mid.is_scheduled(sg));
        }
    }

    /// Nothing scheduled is scheduling more.
    pub proof fn lemma_scheduled_more_none(self)
        ensures
            self.only_scheduled_more(self),
    {
        assert forall|s: int| 0 <= s < self.queues.len() implies self.queue(s).is_prefix_of(
            #[trigger] self.queue(s),
        ) by {
            assert(self.queue(s).subrange(0, self.queue(s).len() as int) =~= self.queue(s));
        }
    }

    /// Scheduling a list of subgraphs keeps the invariant, changes nothing but
    /// the ready queues and marks, and leaves each of them scheduled.
    pub proof fn lemma_schedule_all(self, ids: Seq<SubgraphId>)
        requires
            self.wf_core(),
        ensures
            self.schedule_all(ids).wf_core(),
            self.only_scheduled_more(self.schedule_all(ids)),
            self.schedule_all(ids).events == self.events,
            self.schedule_all(ids).deferred == self.deferred,
            forall|i: int|
                0 <= i < ids.len() && self.has_subgraph(ids[i]) ==> self.schedule_all(
                    ids,
                ).is_scheduled(#[trigger] ids[i]),
        decreases ids.len(),
    {
        if ids.len() == 0 {
            self.lemma_scheduled_more_none();
        } else {
            let before = self.schedule_all(ids.drop_last());
            self.lemma_schedule_all(ids.drop_last());
            before.lemma_schedule(ids.last());
            self.lemma_scheduled_more_twice(before, before.schedule(ids.last()));
            let after = self.schedule_all(ids);
            assert forall|i: int| 0 <= i < ids.len() && self.has_subgraph(ids[i]) implies after.is_scheduled(
                #[trigger] ids[i],
            ) by {
                if i < ids.len() - 1 {
                    assert(ids.drop_last()[i] == ids[i]);
                    assert(before.is_scheduled(ids.drop_last()[i]));
                    assert(before.has_subgraph(ids[i]));
                }
            }
        }
    }

    /// The pending events and the deferred requests play no part in the
    /// invariant.
    pub proof fn lemma_events_are_free(self, events: Seq<SubgraphId>, deferred: Seq<SubgraphId>)
        requires
            self.wf_core(),
        ensures
            (GraphView { events, deferred, ..self }).wf_core(),
            self.only_scheduled_more(GraphView { events, deferred, ..self }),
            self.handoffs_covered() ==> (GraphView { events, deferred, ..self }).handoffs_covered(),
    {
        let next = GraphView { events, deferred, ..self };
        self.lemma_scheduled_more_none();
        self.lemma_scheduling_carries(next);
        if self.handoffs_covered() {
            self.lemma_covered_carries(next);
        }
    }

    /// The rule on handoffs survives, for every handoff, when more subgraphs
    /// are scheduled.
    pub proof fn lemma_all_covered_when_scheduled_more(self, other: Self)
        requires
            self.well_shaped(),
            self.only_scheduled_more(other),
            self.handoffs_covered(),
        ensures
            other.handoffs_covered(),
    {
        assert forall|h: HandoffId| other.has_handoff(h) implies #[trigger] other.covered_at(h) by {
            assert(self.covered_at(h));
            self.lemma_covered_when_scheduled_more(other, h);
        }
    }

    /// Receiving the pending events keeps the invariant and changes nothing
    /// but the ready queues, the marks and the pending events.
    pub proof fn lemma_recv_events(self)
        requires
            self.wf(),
        ensures
            self.recv_events().wf(),
            self.only_scheduled_more(self.recv_events()),
            self.recv_events().events == Seq::<SubgraphId>::empty(),
            self.recv_events().deferred == self.deferred,
    {
        let cleared = GraphView { events: Seq::empty(), ..self };
        self.lemma_events_are_free(Seq::empty(), self.deferred);
        cleared.lemma_schedule_all(self.events);
        self.lemma_scheduled_more_twice(cleared, self.recv_events());
        self.lemma_all_covered_when_scheduled_more(self.recv_events());
    }

    /// A state with the wiring of a well-shaped one is well-shaped, if its
    /// tables are as long and its current stratum exists.
    pub proof fn lemma_wiring_carries(self, other: Self)
        requires
            self.well_shaped(),
            self.readers_listed(),
            self.same_wiring(other),
            other.scheduled.len() == self.scheduled.len(),
            other.current_stratum < other.queues.len(),
        ensures
            other.well_shaped(),
            other.readers_listed(),
    {
        assert forall|x: SubgraphId| other.has_subgraph(x) implies #[trigger] other.stratum_of(x)
            < other.queues.len() by {
            assert(self.stratum_of(x) < self.queues.len());
        }
        assert forall|x: SubgraphId, i: int|
            other.has_subgraph(x) && 0 <= i < other.inputs(x).len() implies other.has_handoff(
            #[trigger] other.inputs(x)[i],
        ) by {
            assert(self.has_handoff(self.inputs(x)[i]));
        }
        assert forall|x: SubgraphId, i: int|
            other.has_subgraph(x) && 0 <= i < other.outputs(x).len() implies other.has_handoff(
            #[trigger] other.outputs(x)[i],
        ) by {
            assert(self.has_handoff(self.outputs(x)[i]));
        }
        assert forall|h: HandoffId, i: int|
            other.has_handoff(h) && 0 <= i < other.producers(h).len() implies other.has_subgraph(
            #[trigger] other.producers(h)[i],
        ) by {
            assert(self.has_subgraph(self.producers(h)[i]));
        }
        assert forall|h: HandoffId, i: int|
            other.has_handoff(h) && 0 <= i < other.consumers(h).len() implies other.has_subgraph(
            #[trigger] other.consumers(h)[i],
        ) by {
            assert(self.has_subgraph(self.consumers(h)[i]));
        }
        assert forall|h: HandoffId, i: int|
            other.has_handoff(h) && 0 <= i < other.consumers(h).len() implies other.inputs(
            #[trigger] other.consumers(h)[i],
        ).contains(h) by {
            assert(self.inputs(self.consumers(h)[i]).contains(h));
        }
    }

    /// A history that is in order stays so when nothing changes but the ready
    /// queues, the marks and what the handoffs hold, and time does not go
    /// back.
    pub proof fn lemma_trace_carries(self, other: Self)
        requires
            self.trace_in_order(),
            other.strata == self.strata,
            other.trace == self.trace,
            not_after(
                self.current_tick,
                self.current_stratum,
                other.current_tick,
                other.current_stratum,
            ),
        ensures
            other.trace_in_order(),
    {
        assert forall|i: int| 0 <= i < other.trace.len() implies {
            &&& not_after(
                (#[trigger] other.trace[i]).tick,
                other.trace[i].stratum,
                other.current_tick,
                other.current_stratum,
            )
            &&& other.has_subgraph(other.trace[i].subgraph)
            &&& other.stratum_of(other.trace[i].subgraph) == other.trace[i].stratum
        } by {
            assert(self.stratum_of(self.trace[i].subgraph) == self.trace[i].stratum);
        }
    }

    /// A state with the wiring, ready queues and marks of one that meets the
    /// invariant, and the same history seen from no earlier a point in time,
    /// meets the invariant but for the rule on handoffs.
    pub proof fn lemma_scheduling_carries(self, other: Self)
        requires
            self.wf_core(),
            self.same_wiring(other),
            other.queues == self.queues,
            other.scheduled == self.scheduled,
            other.trace == self.trace,
            other.current_stratum < other.queues.len(),
            not_after(
                self.current_tick,
                self.current_stratum,
                other.current_tick,
                other.current_stratum,
            ),
        ensures
            other.wf_core(),
    {
        self.lemma_wiring_carries(other);
        assert forall|s: int, i: int|
            0 <= s < other.queues.len() && 0 <= i < other.queue(s).len() implies {
            &&& other.has_subgraph(#[trigger] other.queue(s)[i])
            &&& other.stratum_of(other.queue(s)[i]) == s
        } by {
            assert(self.has_subgraph(self.queue(s)[i]));
        }
        assert forall|s: int, i: int, j: int|
            0 <= s < other.queues.len() && 0 <= i < other.queue(s).len() && 0 <= j < other.queue(
                s,
            ).len() && i != j implies #[trigger] other.queue(s)[i] != #[trigger] other.queue(
            s,
        )[j] by {
            assert(self.queue(s)[i] != self.queue(s)[j]);
        }
        assert forall|x: SubgraphId| other.has_subgraph(x) implies (#[trigger] other.is_scheduled(
            x,
        ) <==> other.queue(other.stratum_of(x) as int).contains(x)) by {
            assert(self.is_scheduled(x) <==> self.queue(self.stratum_of(x) as int).contains(x));
        }
        self.lemma_trace_carries(other);
    }

    /// The rule on handoffs depends on the handoffs' contents, their readers
    /// and the marks alone.
    pub proof fn lemma_covered_carries(self, other: Self)
        requires
            self.handoffs_covered(),
            other.handoff_items == self.handoff_items,
            other.handoff_succs == self.handoff_succs,
            other.scheduled == self.scheduled,
        ensures
            other.handoffs_covered(),
    {
        assert forall|h: HandoffId| other.has_handoff(h) implies #[trigger] other.covered_at(h) by {
            assert(self.covered_at(h));
            if other.waiting(h).len() > 0 {
                assert forall|i: int| 0 <= i < other.consumers(h).len() implies other.is_scheduled(
                    #[trigger] other.consumers(h)[i],
                ) by {
                    assert(self.is_scheduled(self.consumers(h)[i]));
                }
            }
        }
    }

    /// `first_ready` finds the first stratum of its range with a subgraph
    /// ready.
    pub proof fn lemma_first_ready(self, lo: int, hi: int)
        requires
            lo <= hi,
        ensures
            lo <= self.first_ready(lo, hi) <= hi,
            self.first_ready(lo, hi) < hi ==> self.queue(self.first_ready(lo, hi)).len() > 0,
            forall|s: int| lo <= s < self.first_ready(lo, hi) ==> (#[trigger] self.queue(s)).len() == 0,
        decreases hi - lo,
    {
        if lo < hi && self.queue(lo).len() == 0 {
            self.lemma_first_ready(lo + 1, hi);
        }
    }

    /// Moving to the next stratum keeps the invariant, never moves back in
    /// time, ends at most one tick, and changes nothing else but what
    /// receiving the events changes. Where it reports a ready subgraph, it has
    /// stopped at a stratum that has one; where it may search the next tick
    /// and reports none, no stratum has one. Where the tick count cannot go
    /// up and no stratum from the current one on has a ready subgraph, only
    /// the events are received.
    pub proof fn lemma_next_stratum(self, current_tick_only: bool)
        requires
            self.wf(),
        ensures
            self.next_stratum(current_tick_only).0.wf(),
            self.next_stratum(current_tick_only).1 ==> self.next_stratum(
                current_tick_only,
            ).0.has_ready(),
            !self.next_stratum(current_tick_only).1 ==> if self.current_tick < usize::MAX {
                &&& self.next_stratum(current_tick_only).0.current_tick == self.current_tick + 1
                &&& self.next_stratum(current_tick_only).0.current_stratum == 0
            } else {
                &&& self.next_stratum(current_tick_only).0 == self.recv_events()
                &&& forall|s: int|
                    self.current_stratum <= s < self.queues.len() ==> (
                    #[trigger] self.recv_events().queue(s)).len() == 0
            },
            !current_tick_only && !self.next_stratum(current_tick_only).1 && self.current_tick
                < usize::MAX ==> forall|s: int|
                0 <= s < self.queues.len() ==> (#[trigger] self.next_stratum(
                    current_tick_only,
                ).0.queue(s)).len() == 0,
            not_after(
                self.current_tick,
                self.current_stratum,
                self.next_stratum(current_tick_only).0.current_tick,
                self.next_stratum(current_tick_only).0.current_stratum,
            ),
            self.next_stratum(current_tick_only).0.current_tick == self.current_tick
                || self.next_stratum(current_tick_only).0.current_tick == self.current_tick + 1,
            self.same_wiring(self.next_stratum(current_tick_only).0),
            self.next_stratum(current_tick_only).0.trace == self.trace,
            self.next_stratum(current_tick_only).0.handoff_items == self.handoff_items,
            self.next_stratum(current_tick_only).0.queues == self.recv_events().queues,
            self.next_stratum(current_tick_only).0.scheduled == self.recv_events().scheduled,
            self.next_stratum(current_tick_only).0.current_tick == self.current_tick ==> {
                &&& self.next_stratum(current_tick_only).0.events == Seq::<SubgraphId>::empty()
                &&& self.next_stratum(current_tick_only).0.deferred == self.deferred
            },
            self.next_stratum(current_tick_only).0.current_tick == self.current_tick + 1 ==> {
                &&& self.next_stratum(current_tick_only).0.events == self.deferred
                &&& self.next_stratum(current_tick_only).0.deferred == Seq::<SubgraphId>::empty()
            },
            current_tick_only && self.next_stratum(current_tick_only).1 ==> {
                &&& self.next_stratum(current_tick_only).0.current_tick == self.current_tick
                &&& self.next_stratum(current_tick_only).0.current_stratum >= self.current_stratum
            },
    {
        let v = self.recv_events();
        self.lemma_recv_events();
        let n = v.queues.len() as int;
        v.lemma_first_ready(v.current_stratum as int, n);
        v.lemma_first_ready(0, v.current_stratum as int);
        let next = self.next_stratum(current_tick_only).0;
        v.lemma_scheduling_carries(next);
        v.lemma_covered_carries(next);
        assert(Seq::<SubgraphId>::empty() + v.deferred =~= v.deferred);
        if !current_tick_only && !self.next_stratum(current_tick_only).1 && self.current_tick
            < usize::MAX {
            assert forall|s: int| 0 <= s < self.queues.len() implies (#[trigger] next.queue(
                s,
            )).len() == 0 by {
                assert(v.queue(s).len() == 0);
            }
        }
    }

    /// Starting a run keeps the invariant: the subgraph leaves its queue and
    /// loses its mark together, and the handoffs it reads are left empty.
    pub proof fn lemma_begin_run(self)
        requires
            self.wf(),
            self.has_ready(),
        ensures
            self.begin_run().wf(),
            self.has_subgraph(self.next_ready()),
            self.stratum_of(self.next_ready()) == self.current_stratum,
            self.same_wiring(self.begin_run()),
            self.begin_run().current_tick == self.current_tick,
            self.begin_run().current_stratum == self.current_stratum,
            self.begin_run().events == self.events,
            self.begin_run().deferred == self.deferred,
    {
        let next = self.begin_run();
        let sg = self.next_ready();
        let cs = self.current_stratum as int;
        assert(self.queue(cs)[0] == sg);
        assert(self.has_subgraph(sg) && self.stratum_of(sg) == cs);
        self.lemma_wiring_carries(next);
        assert forall|s: int, i: int|
            0 <= s < next.queues.len() && 0 <= i < next.queue(s).len() implies {
            &&& next.has_subgraph(#[trigger] next.queue(s)[i])
            &&& next.stratum_of(next.queue(s)[i]) == s
        } by {
            if s == cs {
                assert(next.queue(s)[i] == self.queue(s)[i + 1]);
            } else {
                assert(next.queue(s)[i] == self.queue(s)[i]);
            }
        }
        assert forall|s: int, i: int, j: int|
            0 <= s < next.queues.len() && 0 <= i < next.queue(s).len() && 0 <= j < next.queue(
                s,
            ).len() && i != j implies #[trigger] next.queue(s)[i] != #[trigger] next.queue(s)[j] by {
            if s == cs {
                assert(self.queue(s)[i + 1] != self.queue(s)[j + 1]);
            } else {
                assert(self.queue(s)[i] != self.queue(s)[j]);
            }
        }
        assert forall|x: SubgraphId| next.has_subgraph(x) implies (#[trigger] next.is_scheduled(x)
            <==> next.queue(next.stratum_of(x) as int).contains(x)) by {
            let sx = self.stratum_of(x) as int;
            assert(0 <= sx < self.queues.len());
            assert(self.is_scheduled(x) <==> self.queue(sx).contains(x));
            if x == sg {
                if next.queue(sx).contains(x) {
                    let i = choose|i: int| 0 <= i < next.queue(sx).len() && next.queue(sx)[i] == x;
                    assert(self.queue(cs)[i + 1] != self.queue(cs)[0]);
                }
            } else {
                assert(x.0 != sg.0);
                assert(next.is_scheduled(x) == self.is_scheduled(x));
                if sx == cs {
                    if self.queue(sx).contains(x) {
                        let i = choose|i: int|
                            0 <= i < self.queue(sx).len() && self.queue(sx)[i] == x;
                        assert(next.queue(sx)[i - 1] == x);
                    }
                    if next.queue(sx).contains(x) {
                        let i = choose|i: int|
                            0 <= i < next.queue(sx).len() && next.queue(sx)[i] == x;
                        assert(self.queue(sx)[i + 1] == x);
                    }
                } else {
                    assert(next.queue(sx) == self.queue(sx));
                }
            }
        }
        assert(next.trace_in_order()) by {
            let n = self.trace.len() as int;
            assert forall|i: int, j: int| 0 <= i <= j < next.trace.len() implies not_after(
                (#[trigger] next.trace[i]).tick,
                next.trace[i].stratum,
                (#[trigger] next.trace[j]).tick,
                next.trace[j].stratum,
            ) by {
                if j < n {
                    assert(next.trace[i] == self.trace[i] && next.trace[j] == self.trace[j]);
                } else if i < n {
                    assert(next.trace[i] == self.trace[i]);
                }
            }
            assert forall|i: int| 0 <= i < next.trace.len() implies {
                &&& not_after(
                    (#[trigger] next.trace[i]).tick,
                    next.trace[i].stratum,
                    next.current_tick,
                    next.current_stratum,
                )
                &&& next.has_subgraph(next.trace[i].subgraph)
                &&& next.stratum_of(next.trace[i].subgraph) == next.trace[i].stratum
            } by {
                if i < n {
                    assert(next.trace[i] == self.trace[i]);
                    assert(self.stratum_of(self.trace[i].subgraph) == self.trace[i].stratum);
                }
            }
        }
        assert forall|h: HandoffId| next.has_handoff(h) implies #[trigger] next.covered_at(h) by {
            assert(self.covered_at(h));
            assert(HandoffId(h.0 as int as usize) == h);
            if next.waiting(h).len() > 0 {
                assert(!self.inputs(sg).contains(h));
                assert(next.waiting(h) == self.waiting(h));
                assert forall|i: int| 0 <= i < next.consumers(h).len() implies next.is_scheduled(
                    #[trigger] next.consumers(h)[i],
                ) by {
                    let c = self.consumers(h)[i];
                    assert(self.is_scheduled(c));
                    assert(self.inputs(c).contains(h));
                    assert(c != sg);
                    assert(c.0 != sg.0);
                }
            }
        }
    }

    /// Delivering items keeps the invariant but for the rule on handoffs, and
    /// touches the contents of the written handoffs alone.
    pub proof fn lemma_deliver(self, ports: Seq<HandoffId>, sent: Seq<Seq<T>>, n: int)
        requires
            self.wf_core(),
            0 <= n <= ports.len(),
            n <= sent.len(),
            forall|i: int| 0 <= i < ports.len() ==> self.has_handoff(#[trigger] ports[i]),
        ensures
            self.deliver(ports, sent, n).wf_core(),
            self.same_wiring(self.deliver(ports, sent, n)),
            self.deliver(ports, sent, n).queues == self.queues,
            self.deliver(ports, sent, n).scheduled == self.scheduled,
            self.deliver(ports, sent, n).trace == self.trace,
            self.deliver(ports, sent, n).events == self.events,
            self.deliver(ports, sent, n).deferred == self.deferred,
            self.deliver(ports, sent, n).current_tick == self.current_tick,
            self.deliver(ports, sent, n).current_stratum == self.current_stratum,
            forall|h: HandoffId|
                self.has_handoff(h) && !ports.contains(h) ==> #[trigger] self.deliver(
                    ports,
                    sent,
                    n,
                ).waiting(h) == self.waiting(h),
        decreases n,
    {
        if n > 0 {
            let before = self.deliver(ports, sent, n - 1);
            self.lemma_deliver(ports, sent, n - 1);
            let after = before.give(ports[n - 1], sent[n - 1]);
            assert(self.has_handoff(ports[n - 1]));
            before.lemma_scheduling_carries(after);
            assert forall|h: HandoffId| self.has_handoff(h) && !ports.contains(h) implies #[trigger] after.waiting(
                h,
            ) == self.waiting(h) by {
                assert(before.waiting(h) == self.waiting(h));
                assert(h != ports[n - 1]);
                assert(h.0 != ports[n - 1].0);
            }
        }
    }

    /// Waking the readers of a handoff keeps the invariant but for the rule
    /// on handoffs, only schedules more, and leaves the handoff covered.
    pub proof fn lemma_wake(self, h: HandoffId)
        requires
            self.wf_core(),
            self.has_handoff(h),
        ensures
            self.wake(h).wf_core(),
            self.only_scheduled_more(self.wake(h)),
            self.wake(h).events == self.events,
            self.wake(h).deferred == self.deferred,
            self.wake(h).covered_at(h),
    {
        if self.waiting(h).len() > 0 {
            self.lemma_schedule_all(self.consumers(h));
            let next = self.wake(h);
            assert forall|i: int| 0 <= i < next.consumers(h).len() implies next.is_scheduled(
                #[trigger] next.consumers(h)[i],
            ) by {
                assert(self.has_subgraph(self.consumers(h)[i]));
            }
        } else {
            self.lemma_scheduled_more_none();
        }
    }

    /// Propagating readiness keeps the invariant but for the rule on
    /// handoffs, only schedules more, and leaves every handoff it went through
    /// covered.
    pub proof fn lemma_propagate(self, ports: Seq<HandoffId>)
        requires
            self.wf_core(),
            forall|i: int| 0 <= i < ports.len() ==> self.has_handoff(#[trigger] ports[i]),
        ensures
            self.propagate(ports).wf_core(),
            self.only_scheduled_more(self.propagate(ports)),
            self.propagate(ports).events == self.events,
            self.propagate(ports).deferred == self.deferred,
            forall|i: int| 0 <= i < ports.len() ==> self.propagate(ports).covered_at(#[trigger] ports[i]),
        decreases ports.len(),
    {
        if ports.len() == 0 {
            self.lemma_scheduled_more_none();
        } else {
            let before = self.propagate(ports.drop_last());
            assert forall|i: int| 0 <= i < ports.drop_last().len() implies self.has_handoff(
                #[trigger] ports.drop_last()[i],
            ) by {
                assert(ports.drop_last()[i] == ports[i]);
            }
            self.lemma_propagate(ports.drop_last());
            assert(self.has_handoff(ports.last()));
            before.lemma_wake(ports.last());
            let after = before.wake(ports.last());
            self.lemma_scheduled_more_twice(before, after);
            assert forall|i: int| 0 <= i < ports.len() implies after.covered_at(#[trigger] ports[i]) by {
                if i < ports.len() - 1 {
                    assert(ports.drop_last()[i] == ports[i]);
                    assert(before.covered_at(ports.drop_last()[i]));
                    before.lemma_covered_when_scheduled_more(after, ports[i]);
                }
            }
        }
    }

    /// Ending a run keeps the invariant: whatever the run gave and asked for,
    /// no handoff is left holding items with a reader that is not scheduled.
    /// Nothing leaves a ready queue, and time stands still.
    pub proof fn lemma_finish_run(
        self,
        sg: SubgraphId,
        sent: Seq<Seq<T>>,
        requested: Seq<SubgraphId>,
        deferred: Seq<SubgraphId>,
    )
        requires
            self.wf(),
            self.has_subgraph(sg),
        ensures
            self.finish_run(sg, sent, requested, deferred).wf(),
            self.same_wiring(self.finish_run(sg, sent, requested, deferred)),
            self.queues_grow_into(self.finish_run(sg, sent, requested, deferred)),
            self.finish_run(sg, sent, requested, deferred).current_tick == self.current_tick,
            self.finish_run(sg, sent, requested, deferred).current_stratum == self.current_stratum,
            self.finish_run(sg, sent, requested, deferred).trace == self.trace,
            self.finish_run(sg, sent, requested, deferred).events == Seq::<SubgraphId>::empty(),
            self.finish_run(sg, sent, requested, deferred).deferred == self.deferred + deferred,
    {
        let outs = self.outputs(sg);
        let n = self.ports_written(sg, sent);
        assert forall|i: int| 0 <= i < outs.len() implies self.has_handoff(#[trigger] outs[i]) by {
            assert(self.has_handoff(self.outputs(sg)[i]));
        }
        let delivered = self.deliver(outs, sent, n);
        self.lemma_deliver(outs, sent, n);
        let woken = delivered.propagate(outs);
        delivered.lemma_propagate(outs);
        assert forall|h: HandoffId| woken.has_handoff(h) implies #[trigger] woken.covered_at(h) by {
            if outs.contains(h) {
                let i = choose|i: int| 0 <= i < outs.len() && outs[i] == h;
                assert(woken.covered_at(outs[i]));
            } else {
                assert(self.covered_at(h));
                assert(delivered.waiting(h) == self.waiting(h));
                if delivered.waiting(h).len() > 0 {
                    assert forall|i: int|
                        0 <= i < delivered.consumers(h).len() implies delivered.is_scheduled(
                        #[trigger] delivered.consumers(h)[i],
                    ) by {
                        assert(self.is_scheduled(self.consumers(h)[i]));
                    }
                }
                assert(delivered.covered_at(h));
                delivered.lemma_covered_when_scheduled_more(woken, h);
            }
        }
        let pending = GraphView {
            events: woken.events + requested,
            deferred: woken.deferred + deferred,
            ..woken
        };
        woken.lemma_events_are_free(woken.events + requested, woken.deferred + deferred);
        pending.lemma_recv_events();
        let done = pending.recv_events();
        assert forall|s: int| 0 <= s < self.queues.len() implies self.queue(s).is_prefix_of(
            #[trigger] done.queue(s),
        ) by {
            assert(self.queue(s) == delivered.queue(s));
            assert(delivered.queue(s).is_prefix_of(woken.queue(s)));
            assert(woken.queue(s) == pending.queue(s));
            assert(pending.queue(s).is_prefix_of(done.queue(s)));
            assert(done.queue(s).subrange(0, self.queue(s).len() as int) =~= self.queue(s));
        }
    }

    /// The empty graph meets the invariant.
    pub proof fn lemma_empty()
        ensures
            Self::empty().wf(),
    {
        let e = Self::empty();
        assert(e.queues.len() == 1);
        assert(e.queue(0).len() == 0);
    }

    /// Adding a handoff keeps the invariant.
    pub proof fn lemma_add_handoff(self, name: Seq<char>)
        requires
            self.wf(),
            self.handoff_items.len() < usize::MAX,
        ensures
            self.add_handoff(name).wf(),
    {
        let next = self.add_handoff(name);
        let new = self.handoff_items.len() as int;
        assert forall|x: SubgraphId| next.has_subgraph(x) implies #[trigger] next.stratum_of(x)
            < next.queues.len() by {
            assert(self.stratum_of(x) < self.queues.len());
        }
        assert forall|x: SubgraphId, i: int|
            next.has_subgraph(x) && 0 <= i < next.inputs(x).len() implies next.has_handoff(
            #[trigger] next.inputs(x)[i],
        ) by {
            assert(self.has_handoff(self.inputs(x)[i]));
        }
        assert forall|x: SubgraphId, i: int|
            next.has_subgraph(x) && 0 <= i < next.outputs(x).len() implies next.has_handoff(
            #[trigger] next.outputs(x)[i],
        ) by {
            assert(self.has_handoff(self.outputs(x)[i]));
        }
        assert forall|h: HandoffId, i: int|
            next.has_handoff(h) && 0 <= i < next.producers(h).len() implies next.has_subgraph(
            #[trigger] next.producers(h)[i],
        ) by {
            if h.0 < new {
                assert(self.has_subgraph(self.producers(h)[i]));
            }
        }
        assert forall|h: HandoffId, i: int|
            next.has_handoff(h) && 0 <= i < next.consumers(h).len() implies {
            &&& next.has_subgraph(#[trigger] next.consumers(h)[i])
            &&& next.inputs(next.consumers(h)[i]).contains(h)
        } by {
            if h.0 < new {
                assert(self.has_subgraph(self.consumers(h)[i]));
                assert(self.inputs(self.consumers(h)[i]).contains(h));
            }
        }
        assert forall|s: int, i: int|
            0 <= s < next.queues.len() && 0 <= i < next.queue(s).len() implies {
            &&& next.has_subgraph(#[trigger] next.queue(s)[i])
            &&& next.stratum_of(next.queue(s)[i]) == s
        } by {
            assert(self.has_subgraph(self.queue(s)[i]));
        }
        assert forall|s: int, i: int, j: int|
            0 <= s < next.queues.len() && 0 <= i < next.queue(s).len() && 0 <= j < next.queue(
                s,
            ).len() && i != j implies #[trigger] next.queue(s)[i] != #[trigger] next.queue(s)[j] by {
            assert(self.queue(s)[i] != self.queue(s)[j]);
        }
        assert forall|x: SubgraphId| next.has_subgraph(x) implies (#[trigger] next.is_scheduled(x)
            <==> next.queue(next.stratum_of(x) as int).contains(x)) by {
            assert(self.is_scheduled(x) <==> self.queue(self.stratum_of(x) as int).contains(x));
        }
        assert forall|i: int| 0 <= i < next.trace.len() implies {
            &&& not_after(
                (#[trigger] next.trace[i]).tick,
                next.trace[i].stratum,
                next.current_tick,
                next.current_stratum,
            )
            &&& next.has_subgraph(next.trace[i].subgraph)
            &&& next.stratum_of(next.trace[i].subgraph) == next.trace[i].stratum
        } by {
            assert(self.stratum_of(self.trace[i].subgraph) == self.trace[i].stratum);
        }
        assert forall|h: HandoffId| next.has_handoff(h) implies #[trigger] next.covered_at(h) by {
            if h.0 < new {
                assert(self.covered_at(h));
                if next.waiting(h).len() > 0 {
                    assert forall|i: int| 0 <= i < next.consumers(h).len() implies next.is_scheduled(
                        #[trigger] next.consumers(h)[i],
                    ) by {
                        assert(self.is_scheduled(self.consumers(h)[i]));
                    }
                }
            }
        }
    }

    /// Whether `other` is `self` with `sg` listed some more times, behind
    /// those listed before, as a reader of handoffs of `hs` and of no other.
    pub open spec fn readers_added(self, other: Self, hs: Seq<HandoffId>, sg: SubgraphId) -> bool {
        &&& other == GraphView { handoff_succs: other.handoff_succs, ..self }
        &&& other.handoff_succs.len() == self.handoff_succs.len()
        &&& forall|h: HandoffId, i: int|
            self.has_handoff(h) && 0 <= i < other.consumers(h).len() ==> #[trigger] other.consumers(
                h,
            )[i] == (if i < self.consumers(h).len() {
                self.consumers(h)[i]
            } else {
                sg
            })
        &&& forall|h: HandoffId|
            self.has_handoff(h) ==> (#[trigger] other.consumers(h)).len() >= self.consumers(h).len()
        &&& forall|h: HandoffId|
            self.has_handoff(h) && !hs.contains(h) ==> (#[trigger] other.consumers(h)).len()
                == self.consumers(h).len()
    }

    /// Whether `other` is `self` with `sg` listed some more times, behind
    /// those listed before, as a writer of some handoffs.
    pub open spec fn writers_added(self, other: Self, sg: SubgraphId) -> bool {
        &&& other == GraphView { handoff_preds: other.handoff_preds, ..self }
        &&& other.handoff_preds.len() == self.handoff_preds.len()
        &&& forall|h: HandoffId, i: int|
            self.has_handoff(h) && 0 <= i < other.producers(h).len() ==> #[trigger] other.producers(
                h,
            )[i] == (if i < self.producers(h).len() {
                self.producers(h)[i]
            } else {
                sg
            })
        &&& forall|h: HandoffId|
            self.has_handoff(h) ==> (#[trigger] other.producers(h)).len() >= self.producers(h).len()
    }

    /// Listing a subgraph as a reader changes the readers' lists alone, and
    /// those only by adding it at the back.
    pub proof fn lemma_add_readers(self, hs: Seq<HandoffId>, sg: SubgraphId)
        requires
            self.handoff_succs.len() == self.handoff_items.len(),
            forall|i: int| 0 <= i < hs.len() ==> self.has_handoff(#[trigger] hs[i]),
        ensures
            self.readers_added(self.add_readers(hs, sg), hs, sg),
        decreases hs.len(),
    {
        if hs.len() > 0 {
            let before = self.add_readers(hs.drop_last(), sg);
            assert forall|i: int| 0 <= i < hs.drop_last().len() implies self.has_handoff(
                #[trigger] hs.drop_last()[i],
            ) by {
                assert(hs.drop_last()[i] == hs[i]);
            }
            self.lemma_add_readers(hs.drop_last(), sg);
            let after = before.add_reader(hs.last(), sg);
            assert(self.has_handoff(hs.last()));
            assert forall|h: HandoffId, i: int|
                self.has_handoff(h) && 0 <= i < after.consumers(h).len() implies #[trigger] after.consumers(
                h,
            )[i] == (if i < self.consumers(h).len() {
                self.consumers(h)[i]
            } else {
                sg
            }) by {
                assert(before.consumers(h).len() >= self.consumers(h).len());
                if h.0 == hs.last().0 {
                    if i < before.consumers(h).len() {
                        assert(after.consumers(h)[i] == before.consumers(h)[i]);
                    }
                } else {
                    assert(after.consumers(h)[i] == before.consumers(h)[i]);
                }
            }
            assert forall|h: HandoffId| self.has_handoff(h) implies (#[trigger] after.consumers(
                h,
            )).len() >= self.consumers(h).len() by {
                assert(before.consumers(h).len() >= self.consumers(h).len());
            }
            assert forall|h: HandoffId| self.has_handoff(h) && !hs.contains(h) implies (
            #[trigger] after.consumers(h)).len() == self.consumers(h).len() by {
                assert(h != hs.last());
                assert(h.0 != hs.last().0);
                if hs.drop_last().contains(h) {
                    let i = choose|i: int| 0 <= i < hs.drop_last().len() && hs.drop_last()[i] == h;
                    assert(hs[i] == h);
                }
                assert(before.consumers(h).len() == self.consumers(h).len());
            }
        }
    }

    /// Listing a subgraph as a writer changes the writers' lists alone, and
    /// those only by adding it at the back.
    pub proof fn lemma_add_writers(self, hs: Seq<HandoffId>, sg: SubgraphId)
        requires
            self.handoff_preds.len() == self.handoff_items.len(),
            forall|i: int| 0 <= i < hs.len() ==> self.has_handoff(#[trigger] hs[i]),
        ensures
            self.writers_added(self.add_writers(hs, sg), sg),
        decreases hs.len(),
    {
        if hs.len() > 0 {
            let before = self.add_writers(hs.drop_last(), sg);
            assert forall|i: int| 0 <= i < hs.drop_last().len() implies self.has_handoff(
                #[trigger] hs.drop_last()[i],
            ) by {
                assert(hs.drop_last()[i] == hs[i]);
            }
            self.lemma_add_writers(hs.drop_last(), sg);
            let after = before.add_writer(hs.last(), sg);
            assert(self.has_handoff(hs.last()));
            assert forall|h: HandoffId, i: int|
                self.has_handoff(h) && 0 <= i < after.producers(h).len() implies #[trigger] after.producers(
                h,
            )[i] == (if i < self.producers(h).len() {
                self.producers(h)[i]
            } else {
                sg
            }) by {
                assert(before.producers(h).len() >= self.producers(h).len());
                if h.0 == hs.last().0 {
                    if i < before.producers(h).len() {
                        assert(after.producers(h)[i] == before.producers(h)[i]);
                    }
                } else {
                    assert(after.producers(h)[i] == before.producers(h)[i]);
                }
            }
            assert forall|h: HandoffId| self.has_handoff(h) implies (#[trigger] after.producers(
                h,
            )).len() >= self.producers(h).len() by {
                assert(before.producers(h).len() >= self.producers(h).len());
            }
        }
    }

    /// Adding a subgraph keeps the invariant: the new subgraph is scheduled
    /// once, in its own stratum, and what was scheduled stays so. Time, the
    /// history, the events and what the handoffs hold stay as they were.
    pub proof fn lemma_add_subgraph(
        self,
        name: Seq<char>,
        stratum: usize,
        recv: Seq<HandoffId>,
        send: Seq<HandoffId>,
    )
        requires
            self.wf(),
            self.strata.len() < usize::MAX,
            stratum < usize::MAX,
            forall|i: int| 0 <= i < recv.len() ==> self.has_handoff(#[trigger] recv[i]),
            forall|i: int| 0 <= i < send.len() ==> self.has_handoff(#[trigger] send[i]),
        ensures
            self.add_subgraph(name, stratum, recv, send).wf(),
            self.add_subgraph(name, stratum, recv, send).current_tick == self.current_tick,
            self.add_subgraph(name, stratum, recv, send).current_stratum == self.current_stratum,
            self.add_subgraph(name, stratum, recv, send).trace == self.trace,
            self.add_subgraph(name, stratum, recv, send).events == self.events,
            self.add_subgraph(name, stratum, recv, send).deferred == self.deferred,
            self.add_subgraph(name, stratum, recv, send).handoff_items == self.handoff_items,
            self.add_subgraph(name, stratum, recv, send).handoff_names == self.handoff_names,
            self.add_subgraph(name, stratum, recv, send).strata == self.strata.push(stratum),
            self.add_subgraph(name, stratum, recv, send).scheduled == self.scheduled.push(true),
            self.add_subgraph(name, stratum, recv, send).queues.len() == (if stratum
                < self.queues.len() {
                self.queues.len()
            } else {
                (stratum + 1) as nat
            }),
            forall|s: int|
                0 <= s < self.add_subgraph(name, stratum, recv, send).queues.len() ==> (
                #[trigger] self.add_subgraph(name, stratum, recv, send).queue(s)) == {
                    let before = if s < self.queues.len() {
                        self.queue(s)
                    } else {
                        Seq::empty()
                    };
                    if s == stratum {
                        before.push(SubgraphId(self.strata.len() as usize))
                    } else {
                        before
                    }
                },
    {
        let sg = SubgraphId(self.strata.len() as usize);
        let with_readers = self.add_readers(recv, sg);
        self.lemma_add_readers(recv, sg);
        let with_writers = with_readers.add_writers(send, sg);
        with_readers.lemma_add_writers(send, sg);
        let wired = with_writers.init_stratum(stratum as int);
        let next = self.add_subgraph(name, stratum, recv, send);
        let st = stratum as int;
        let old_n = self.queues.len() as int;
        assert(wired.queues.len() > st);
        assert(wired.queues.len() >= old_n);
        assert forall|s: int| 0 <= s < wired.queues.len() implies #[trigger] wired.queue(s) == (if s
            < old_n {
            self.queue(s)
        } else {
            Seq::<SubgraphId>::empty()
        }) by {}
        assert(!self.has_subgraph(sg));
        assert forall|s: int, i: int|
            0 <= s < self.queues.len() && 0 <= i < self.queue(s).len() implies #[trigger] self.queue(
            s,
        )[i] != sg by {
            assert(self.has_subgraph(self.queue(s)[i]));
        }

        assert(next.well_shaped()) by {
            assert forall|x: SubgraphId| next.has_subgraph(x) implies #[trigger] next.stratum_of(x)
                < next.queues.len() by {
                if x.0 < self.strata.len() {
                    assert(self.stratum_of(x) < self.queues.len());
                }
            }
            assert forall|x: SubgraphId, i: int|
                next.has_subgraph(x) && 0 <= i < next.inputs(x).len() implies next.has_handoff(
                #[trigger] next.inputs(x)[i],
            ) by {
                if x.0 < self.strata.len() {
                    assert(self.has_handoff(self.inputs(x)[i]));
                } else {
                    assert(next.inputs(x)[i] == recv[i]);
                }
            }
            assert forall|x: SubgraphId, i: int|
                next.has_subgraph(x) && 0 <= i < next.outputs(x).len() implies next.has_handoff(
                #[trigger] next.outputs(x)[i],
            ) by {
                if x.0 < self.strata.len() {
                    assert(self.has_handoff(self.outputs(x)[i]));
                } else {
                    assert(next.outputs(x)[i] == send[i]);
                }
            }
            assert forall|h: HandoffId, i: int|
                next.has_handoff(h) && 0 <= i < next.producers(h).len() implies next.has_subgraph(
                #[trigger] next.producers(h)[i],
            ) by {
                assert(next.producers(h) == with_writers.producers(h));
                assert(with_readers.producers(h) == self.producers(h));
                if i < self.producers(h).len() {
                    assert(with_writers.producers(h)[i] == with_readers.producers(h)[i]);
                    assert(self.has_subgraph(self.producers(h)[i]));
                } else {
                    assert(with_writers.producers(h)[i] == sg);
                }
            }
            assert forall|h: HandoffId, i: int|
                next.has_handoff(h) && 0 <= i < next.consumers(h).len() implies next.has_subgraph(
                #[trigger] next.consumers(h)[i],
            ) by {
                assert(next.consumers(h) == with_readers.consumers(h));
                if i < self.consumers(h).len() {
                    assert(with_readers.consumers(h)[i] == self.consumers(h)[i]);
                    assert(self.has_subgraph(self.consumers(h)[i]));
                } else {
                    assert(with_readers.consumers(h)[i] == sg);
                }
            }
        }
        assert(next.readers_listed()) by {
            assert forall|h: HandoffId, i: int|
                next.has_handoff(h) && 0 <= i < next.consumers(h).len() implies next.inputs(
                #[trigger] next.consumers(h)[i],
            ).contains(h) by {
                assert(next.consumers(h) == with_readers.consumers(h));
                if i < self.consumers(h).len() {
                    assert(with_readers.consumers(h)[i] == self.consumers(h)[i]);
                    let c = self.consumers(h)[i];
                    assert(self.has_subgraph(c));
                    assert(self.inputs(c).contains(h));
                    assert(next.inputs(c) == self.inputs(c));
                } else {
                    assert(with_readers.consumers(h)[i] == sg);
                    assert(with_readers.consumers(h).len() > self.consumers(h).len());
                    assert(recv.contains(h));
                    assert(next.inputs(sg) == recv);
                }
            }
        }
        assert(next.queues_by_stratum()) by {
            assert forall|s: int, i: int|
                0 <= s < next.queues.len() && 0 <= i < next.queue(s).len() implies {
                &&& next.has_subgraph(#[trigger] next.queue(s)[i])
                &&& next.stratum_of(next.queue(s)[i]) == s
            } by {
                if s == st && i == wired.queue(s).len() {
                } else {
                    assert(next.queue(s)[i] == wired.queue(s)[i]);
                    assert(s < old_n);
                    assert(self.has_subgraph(self.queue(s)[i]));
                    assert(self.stratum_of(self.queue(s)[i]) == s);
                }
            }
        }
        assert(next.queued_once()) by {
            assert forall|s: int, i: int, j: int|
                0 <= s < next.queues.len() && 0 <= i < next.queue(s).len() && 0 <= j < next.queue(
                    s,
                ).len() && i != j implies #[trigger] next.queue(s)[i] != #[trigger] next.queue(
                s,
            )[j] by {
                let n = wired.queue(s).len() as int;
                if s == st {
                    if i < n && j < n {
                        assert(self.queue(s)[i] != self.queue(s)[j]);
                    } else if i < n {
                        assert(self.queue(s)[i] != sg);
                    } else {
                        assert(self.queue(s)[j] != sg);
                    }
                } else {
                    assert(self.queue(s)[i] != self.queue(s)[j]);
                }
            }
        }
        assert(next.marks_match_queues()) by {
            assert forall|x: SubgraphId| next.has_subgraph(x) implies (#[trigger] next.is_scheduled(
                x,
            ) <==> next.queue(next.stratum_of(x) as int).contains(x)) by {
                if x.0 < self.strata.len() {
                    let sx = self.stratum_of(x) as int;
                    assert(0 <= sx < old_n);
                    assert(self.is_scheduled(x) <==> self.queue(sx).contains(x));
                    assert(next.is_scheduled(x) == self.is_scheduled(x));
                    if self.queue(sx).contains(x) {
                        let i = choose|i: int|
                            0 <= i < self.queue(sx).len() && self.queue(sx)[i] == x;
                        assert(next.queue(sx)[i] == x);
                    }
                    if next.queue(sx).contains(x) {
                        let i = choose|i: int|
                            0 <= i < next.queue(sx).len() && next.queue(sx)[i] == x;
                        assert(x != sg);
                        assert(self.queue(sx)[i] == x);
                    }
                } else {
                    assert(x == sg);
                    assert(next.queue(st)[wired.queue(st).len() as int] == sg);
                }
            }
        }
        assert(next.trace_in_order()) by {
            assert forall|i: int| 0 <= i < next.trace.len() implies {
                &&& not_after(
                    (#[trigger] next.trace[i]).tick,
                    next.trace[i].stratum,
                    next.current_tick,
                    next.current_stratum,
                )
                &&& next.has_subgraph(next.trace[i].subgraph)
                &&& next.stratum_of(next.trace[i].subgraph) == next.trace[i].stratum
            } by {
                assert(self.has_subgraph(self.trace[i].subgraph));
                assert(self.stratum_of(self.trace[i].subgraph) == self.trace[i].stratum);
            }
        }
        assert(next.handoffs_covered()) by {
            assert forall|h: HandoffId| next.has_handoff(h) implies #[trigger] next.covered_at(h) by {
                assert(self.covered_at(h));
                assert(next.consumers(h) == with_readers.consumers(h));
                if next.waiting(h).len() > 0 {
                    assert forall|i: int| 0 <= i < next.consumers(h).len() implies next.is_scheduled(
                        #[trigger] next.consumers(h)[i],
                    ) by {
                        if i < self.consumers(h).len() {
                            assert(with_readers.consumers(h)[i] == self.consumers(h)[i]);
                            assert(self.has_subgraph(self.consumers(h)[i]));
                            assert(self.is_scheduled(self.consumers(h)[i]));
                        } else {
                            assert(with_readers.consumers(h)[i] == sg);
                        }
                    }
                }
            }
        }
    }

    /// Stratum ordering. Of two runs in one tick, the earlier one belongs to
    /// the same stratum or a lower one; and no run belongs to a later tick than
    /// a run after it. So within a tick, no subgraph of a stratum runs, and
    /// none sees what was written, after a subgraph of a higher stratum has
    /// run.
    pub proof fn law_stratum_ordering(self, earlier: int, later: int)
        requires
            self.wf(),
            0 <= earlier <= later < self.trace.len(),
        ensures
            self.trace[earlier].tick <= self.trace[later].tick,
            self.trace[earlier].tick == self.trace[later].tick ==> self.trace[earlier].stratum
                <= self.trace[later].stratum,
            self.stratum_of(self.trace[earlier].subgraph) == self.trace[earlier].stratum,
            self.stratum_of(self.trace[later].subgraph) == self.trace[later].stratum,
    {
        assert(not_after(
            self.trace[earlier].tick,
            self.trace[earlier].stratum,
            self.trace[later].tick,
            self.trace[later].stratum,
        ));
    }

    /// At-most-once scheduling. Two places in the ready queues that hold the
    /// same subgraph are one place: no subgraph waits twice, in one queue or in
    /// two.
    pub proof fn law_scheduled_at_most_once(self, s1: int, i1: int, s2: int, i2: int)
        requires
            self.wf(),
            0 <= s1 < self.queues.len(),
            0 <= i1 < self.queue(s1).len(),
            0 <= s2 < self.queues.len(),
            0 <= i2 < self.queue(s2).len(),
            self.queue(s1)[i1] == self.queue(s2)[i2],
        ensures
            s1 == s2,
            i1 == i2,
    {
        assert(self.stratum_of(self.queue(s1)[i1]) == s1);
        assert(self.stratum_of(self.queue(s2)[i2]) == s2);
        if i1 != i2 {
            assert(self.queue(s1)[i1] != self.queue(s1)[i2]);
        }
    }

    /// Handoff drain. Between the scheduler's operations, a handoff that holds
    /// items has every one of its readers waiting in the ready queue of the
    /// reader's stratum: what was written is read by a later run, and no item
    /// is left behind.
    pub proof fn law_handoff_drain(self, h: HandoffId, reader: int)
        requires
            self.wf(),
            self.has_handoff(h),
            self.waiting(h).len() > 0,
            0 <= reader < self.consumers(h).len(),
        ensures
            self.has_subgraph(self.consumers(h)[reader]),
            self.queue(self.stratum_of(self.consumers(h)[reader]) as int).contains(
                self.consumers(h)[reader],
            ),
    {
        assert(self.covered_at(h));
        let c = self.consumers(h)[reader];
        assert(self.has_subgraph(c));
        assert(self.is_scheduled(c));
    }

    /// Scheduling does not look at the pending events.
    pub proof fn lemma_schedule_all_ignores_events(self, events: Seq<SubgraphId>, ids: Seq<SubgraphId>)
        ensures
            (GraphView { events, ..self }).schedule_all(ids) == (GraphView {
                events,
                ..self.schedule_all(ids)
            }),
            (GraphView { events, ..self }).newly_scheduled(ids) == self.newly_scheduled(ids),
        decreases ids.len(),
    {
        if ids.len() > 0 {
            self.lemma_schedule_all_ignores_events(events, ids.drop_last());
        }
    }

    /// Whether the history of `other` is the history of `self` with `runs`
    /// more records, all of them at the point in time where `self` stands.
    pub open spec fn ran_here(self, other: Self, runs: nat) -> bool {
        &&& other.trace.len() == self.trace.len() + runs
        &&& self.trace.is_prefix_of(other.trace)
        &&& forall|i: int|
            self.trace.len() <= i < other.trace.len() ==> (#[trigger] other.trace[i]).tick
                == self.current_tick && other.trace[i].stratum == self.current_stratum
    }

    /// Whether the runs that `other` has recorded beyond the history of `self`
    /// took the subgraphs that were ready in the current stratum of `self` in
    /// the order of their queue, and what is left of that queue stands at the
    /// front of the queue of `other`: first ready, first run.
    pub open spec fn ran_in_queue_order(self, other: Self) -> bool {
        let ready = self.queue(self.current_stratum as int);
        let left = other.queue(self.current_stratum as int);
        let runs = other.trace.len() - self.trace.len();
        &&& runs >= 0
        &&& ready.len() <= runs + left.len()
        &&& forall|i: int|
            0 <= i < ready.len() ==> #[trigger] ready[i] == (if i < runs {
                other.trace[self.trace.len() + i].subgraph
            } else {
                left[i - runs]
            })
    }

    /// A run keeps the invariant, the wiring and the point in time, adds one
    /// record to the history, and leaves no event pending. The subgraphs
    /// that were ready behind the one that ran stay ready, in their order.
    pub proof fn lemma_run_next(self, outcome: RunOutcome<T>)
        requires
            self.wf(),
            self.has_ready(),
        ensures
            self.queue(self.current_stratum as int).drop_first().is_prefix_of(
                self.run_next(outcome).queue(self.current_stratum as int),
            ),
            self.run_next(outcome).wf(),
            self.same_wiring(self.run_next(outcome)),
            self.run_next(outcome).current_tick == self.current_tick,
            self.run_next(outcome).current_stratum == self.current_stratum,
            self.run_next(outcome).events == Seq::<SubgraphId>::empty(),
            self.run_next(outcome).trace == self.trace.push(
                crate::scheduled::model::RunRecord {
                    tick: self.current_tick,
                    stratum: self.current_stratum,
                    subgraph: self.next_ready(),
                },
            ),
    {
        self.lemma_begin_run();
        self.begin_run().lemma_finish_run(
            self.next_ready(),
            outcome.sent,
            outcome.requested,
            outcome.deferred,
        );
        assert(self.begin_run().queue(self.current_stratum as int) == self.queue(
            self.current_stratum as int,
        ).drop_first());
    }

    /// Runs keep the invariant, the wiring and the point in time, and add one
    /// record each to the history, in the order in which the subgraphs were
    /// ready.
    pub proof fn lemma_after_runs(self, outcomes: Seq<RunOutcome<T>>)
        requires
            self.wf(),
            self.can_run(outcomes),
        ensures
            self.ran_in_queue_order(self.after_runs(outcomes)),
            self.after_runs(outcomes).wf(),
            self.same_wiring(self.after_runs(outcomes)),
            self.after_runs(outcomes).current_tick == self.current_tick,
            self.after_runs(outcomes).current_stratum == self.current_stratum,
            self.ran_here(self.after_runs(outcomes), outcomes.len()),
            outcomes.len() > 0 ==> self.after_runs(outcomes).events == Seq::<SubgraphId>::empty(),
        decreases outcomes.len(),
    {
        if outcomes.len() == 0 {
            assert(self.trace.subrange(0, self.trace.len() as int) =~= self.trace);
        } else {
            let before = self.after_runs(outcomes.drop_last());
            self.lemma_after_runs(outcomes.drop_last());
            before.lemma_run_next(outcomes.last());
            let after = self.after_runs(outcomes);
            assert(after.trace.subrange(0, self.trace.len() as int) =~= self.trace) by {
                assert(before.trace.subrange(0, self.trace.len() as int) =~= self.trace);
            }
            assert forall|i: int| self.trace.len() <= i < after.trace.len() implies (
            #[trigger] after.trace[i]).tick == self.current_tick && after.trace[i].stratum
                == self.current_stratum by {
                if i < before.trace.len() {
                    assert(after.trace[i] == before.trace[i]);
                }
            }
            let cs = self.current_stratum as int;
            let ready = self.queue(cs);
            let runs = outcomes.len() - 1;
            assert forall|i: int| 0 <= i < ready.len() implies #[trigger] ready[i] == (if i < runs
                + 1 {
                after.trace[self.trace.len() + i].subgraph
            } else {
                after.queue(cs)[i - (runs + 1)]
            }) by {
                if i < runs {
                    assert(after.trace[self.trace.len() + i] == before.trace[self.trace.len() + i]);
                } else if i == runs {
                    assert(ready[i] == before.queue(cs)[0]);
                } else {
                    assert(ready[i] == before.queue(cs)[i - runs]);
                    assert(before.queue(cs).drop_first()[i - runs - 1] == before.queue(cs)[i
                        - runs]);
                    assert(after.queue(cs).subrange(
                        0,
                        before.queue(cs).drop_first().len() as int,
                    )[i - runs - 1] == after.queue(cs)[i - runs - 1]);
                }
            }
        }
    }
}

} // verus!
