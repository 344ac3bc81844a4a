use hydroflow::scheduled::context::Context;
use hydroflow::scheduled::graph::Hydroflow;
use hydroflow::scheduled::handoff::VecHandoff;
use hydroflow::scheduled::state::StateHandle;
use hydroflow::scheduled::subgraph::Subgraph;
use hydroflow::scheduled::{HandoffId, SubgraphId};

/// A subgraph that forwards every item it receives to every send port, adding
/// `step` to it, and emits `seed` once on its first run.
struct Forward {
    seed: Vec<u64>,
    step: u64,
    seen: Vec<(usize, usize, u64)>,
}

impl Subgraph for Forward {
    type Item = u64;
    type State = u64;

    fn run(&mut self, context: &mut Context<u64, u64>) {
        let mut items: Vec<u64> = std::mem::take(&mut self.seed);
        for port in 0..context.num_recv() {
            items.extend(context.take_recv(port));
        }
        for item in items {
            self.seen.push((context.current_tick(), context.current_stratum(), item));
            for port in 0..context.num_send() {
                context.give(port, item + self.step);
            }
        }
    }
}

fn forward(seed: Vec<u64>, step: u64) -> Forward {
    Forward { seed, step, seen: Vec::new() }
}

#[test]
fn new_graph_is_at_tick_zero_stratum_zero() {
    let df: Hydroflow<Forward> = Hydroflow::new();
    assert_eq!(df.current_tick(), 0);
    assert_eq!(df.current_stratum(), 0);
    assert_eq!(df.num_subgraphs(), 0);
    assert_eq!(df.num_handoffs(), 0);
    assert_eq!(df.num_strata(), 1);
}

#[test]
fn added_subgraph_is_scheduled_and_runs_once() {
    let mut df: Hydroflow<Forward> = Hydroflow::new();
    let (send, recv) = df.make_edge("edge".to_string());
    let a = df.add_subgraph("a".to_string(), vec![], vec![send], forward(vec![1, 2], 10));
    let b = df.add_subgraph_stratified("b".to_string(), 1, vec![recv], vec![], forward(vec![], 0));
    assert_eq!(a, SubgraphId(0));
    assert_eq!(b, SubgraphId(1));
    assert_eq!(df.num_strata(), 2);
    assert!(df.is_scheduled(a));
    assert!(df.is_scheduled(b));

    assert!(df.next_stratum(false));
    assert_eq!(df.current_stratum(), 0);
    df.run_stratum(usize::MAX);
    assert!(!df.is_scheduled(a));
    assert_eq!(df.handoff_len(send.handoff_id), 2);
    assert!(df.is_scheduled(b));

    assert!(df.next_stratum(false));
    assert_eq!(df.current_stratum(), 1);
    df.run_stratum(usize::MAX);
    assert_eq!(df.handoff_len(send.handoff_id), 0);
    assert!(!df.is_scheduled(b));

    assert!(!df.next_stratum(false));
    assert_eq!(df.current_tick(), 1);
    assert_eq!(df.current_stratum(), 0);
}

/// A subgraph that asks for subgraphs to be scheduled, and counts its runs.
struct Asker {
    external: Vec<SubgraphId>,
    deferred: Vec<SubgraphId>,
    runs: std::rc::Rc<std::cell::RefCell<Vec<(usize, usize)>>>,
}

impl Subgraph for Asker {
    type Item = u64;
    type State = u64;

    fn run(&mut self, context: &mut Context<u64, u64>) {
        self.runs.borrow_mut().push((context.current_tick(), context.current_stratum()));
        for sg_id in self.external.drain(..) {
            context.schedule_subgraph(sg_id, true);
        }
        for sg_id in self.deferred.iter() {
            context.schedule_subgraph(*sg_id, false);
        }
    }
}

fn asker(external: Vec<SubgraphId>, deferred: Vec<SubgraphId>) -> (Asker, std::rc::Rc<std::cell::RefCell<Vec<(usize, usize)>>>) {
    let runs = std::rc::Rc::new(std::cell::RefCell::new(Vec::new()));
    (Asker { external, deferred, runs: runs.clone() }, runs)
}

#[test]
fn make_edge_numbers_handoffs_in_order() {
    let mut df: Hydroflow<Forward> = Hydroflow::new();
    let (send0, recv0) = df.make_edge("first".to_string());
    let (send1, recv1) = df.make_edge("second".to_string());
    assert_eq!(send0.handoff_id, HandoffId(0));
    assert_eq!(recv0.handoff_id, HandoffId(0));
    assert_eq!(send1.handoff_id, HandoffId(1));
    assert_eq!(recv1.handoff_id, HandoffId(1));
    assert_eq!(df.num_handoffs(), 2);
    assert_eq!(df.handoff_len(HandoffId(1)), 0);
}

#[test]
fn state_cells_are_numbered_in_order() {
    let mut df: Hydroflow<Forward> = Hydroflow::new();
    let a = df.add_state(10);
    let b = df.add_state(20);
    assert_eq!(a, StateHandle { state_id: 0 });
    assert_eq!(b, StateHandle { state_id: 1 });
    assert_eq!(df.num_states(), 2);
    assert_eq!(*df.state_ref(a), 10);
    assert_eq!(*df.state_ref(b), 20);
}

#[test]
fn subgraph_sees_and_changes_state_cells() {
    struct Counter(StateHandle);
    impl Subgraph for Counter {
        type Item = u64;
        type State = u64;
        fn run(&mut self, context: &mut Context<u64, u64>) {
            *context.state_mut(self.0) += 1;
            let seen = *context.state_ref(self.0);
            let extra = context.add_state(seen * 100);
            assert_eq!(extra.state_id + 1, context.num_states());
        }
    }
    let mut df: Hydroflow<Counter> = Hydroflow::new();
    let cell = df.add_state(41);
    df.add_subgraph("counter".to_string(), vec![], vec![], Counter(cell));
    assert!(df.run_tick(10));
    assert_eq!(*df.state_ref(cell), 42);
    assert_eq!(df.num_states(), 2);
    assert_eq!(*df.state_ref(StateHandle { state_id: 1 }), 4200);
}

#[test]
fn events_schedule_once_and_count_what_they_enqueue() {
    let mut df: Hydroflow<Forward> = Hydroflow::new();
    let a = df.add_subgraph("a".to_string(), vec![], vec![], forward(vec![], 0));
    let b = df.add_subgraph_stratified("b".to_string(), 2, vec![], vec![], forward(vec![], 0));
    assert_eq!(df.num_strata(), 3);
    assert!(df.run_available(10));
    assert!(!df.is_scheduled(a));
    assert!(!df.is_scheduled(b));

    df.push_event(b);
    df.push_event(a);
    df.push_event(b);
    df.push_event(SubgraphId(17));
    assert_eq!(df.try_recv_events(), 2);
    assert!(df.is_scheduled(a));
    assert!(df.is_scheduled(b));
    assert_eq!(df.try_recv_events(), 0);
    assert!(!df.schedule_subgraph(a));
    assert!(!df.schedule_subgraph(SubgraphId(17)));

    assert!(df.next_stratum(false));
    assert_eq!(df.current_stratum(), 0);
    df.run_stratum(usize::MAX);
    assert!(df.schedule_subgraph(a));
    assert!(df.is_scheduled(a));
}

#[test]
fn next_stratum_walks_the_strata_and_ends_the_tick() {
    let mut df: Hydroflow<Forward> = Hydroflow::new();
    let _a = df.add_subgraph_stratified("a".to_string(), 1, vec![], vec![], forward(vec![], 0));
    let b = df.add_subgraph_stratified("b".to_string(), 3, vec![], vec![], forward(vec![], 0));
    assert_eq!(df.num_strata(), 4);

    // The first stratum with work is stratum 1.
    assert!(df.next_stratum(true));
    assert_eq!((df.current_tick(), df.current_stratum()), (0, 1));
    // Asking again changes nothing while the work is there.
    assert!(df.next_stratum(true));
    assert_eq!((df.current_tick(), df.current_stratum()), (0, 1));
    df.run_stratum(usize::MAX);
    assert!(df.next_stratum(true));
    assert_eq!((df.current_tick(), df.current_stratum()), (0, 3));
    df.run_stratum(usize::MAX);
    // Nothing is left: the tick ends at stratum 0 of the next one.
    assert!(!df.next_stratum(true));
    assert_eq!((df.current_tick(), df.current_stratum()), (1, 0));
    // A full round with nothing to do ends another tick.
    assert!(!df.next_stratum(false));
    assert_eq!((df.current_tick(), df.current_stratum()), (2, 0));

    // Work in stratum 3, found from stratum 0 within the tick.
    df.push_event(b);
    assert!(df.next_stratum(false));
    assert_eq!((df.current_tick(), df.current_stratum()), (2, 3));
}

#[test]
fn next_stratum_wraps_to_earlier_strata_unless_told_to_stay() {
    let mut df: Hydroflow<Forward> = Hydroflow::new();
    let a = df.add_subgraph_stratified("a".to_string(), 0, vec![], vec![], forward(vec![], 0));
    let b = df.add_subgraph_stratified("b".to_string(), 2, vec![], vec![], forward(vec![], 0));
    assert!(df.next_stratum(false));
    df.run_stratum(usize::MAX);
    assert!(df.next_stratum(false));
    assert_eq!((df.current_tick(), df.current_stratum()), (0, 2));
    df.run_stratum(usize::MAX);

    // Work for stratum 0 while the graph stands at stratum 2.
    df.push_event(a);
    assert!(df.next_stratum(false));
    assert_eq!((df.current_tick(), df.current_stratum()), (1, 0));
    df.run_stratum(usize::MAX);

    // The same with `current_tick_only`: the search stops at the new tick.
    assert!(!df.next_stratum(false));
    assert_eq!((df.current_tick(), df.current_stratum()), (2, 0));
    df.push_event(b);
    assert!(df.next_stratum(true));
    assert_eq!((df.current_tick(), df.current_stratum()), (2, 2));
    df.run_stratum(usize::MAX);
    df.push_event(a);
    assert!(!df.next_stratum(true));
    assert_eq!((df.current_tick(), df.current_stratum()), (3, 0));
    assert!(df.is_scheduled(a));
    assert!(df.next_stratum(true));
    assert_eq!((df.current_tick(), df.current_stratum()), (3, 0));
}

#[test]
fn run_stratum_runs_what_becomes_ready_during_the_call() {
    let mut df: Hydroflow<Asker> = Hydroflow::new();
    // Subgraph 0 asks for itself and for subgraph 1 at once, on its first run.
    let (first, first_runs) = asker(vec![SubgraphId(0), SubgraphId(1)], vec![]);
    let (second, second_runs) = asker(vec![], vec![]);
    let a = df.add_subgraph("a".to_string(), vec![], vec![], first);
    let b = df.add_subgraph("b".to_string(), vec![], vec![], second);
    // Subgraph 0 asked while subgraph 1 was still waiting, so only subgraph 0
    // runs a second time, behind subgraph 1.
    assert_eq!(df.run_stratum(usize::MAX), 3);
    assert_eq!(*first_runs.borrow(), vec![(0, 0), (0, 0)]);
    assert_eq!(*second_runs.borrow(), vec![(0, 0)]);
    assert!(!df.is_scheduled(a));
    assert!(!df.is_scheduled(b));
    assert_eq!(df.run_stratum(usize::MAX), 0);
}

#[test]
fn run_stratum_stops_when_the_runs_are_used_up() {
    let mut df: Hydroflow<Asker> = Hydroflow::new();
    let (first, first_runs) = asker(vec![SubgraphId(0), SubgraphId(1)], vec![]);
    let (second, second_runs) = asker(vec![], vec![]);
    let a = df.add_subgraph("a".to_string(), vec![], vec![], first);
    let b = df.add_subgraph("b".to_string(), vec![], vec![], second);
    assert_eq!(df.run_stratum(0), 0);
    assert!(df.is_scheduled(a));
    assert!(df.is_scheduled(b));
    assert_eq!(df.run_stratum(2), 2);
    assert_eq!(*first_runs.borrow(), vec![(0, 0)]);
    assert_eq!(*second_runs.borrow(), vec![(0, 0)]);
    assert!(df.is_scheduled(a));
    assert!(!df.is_scheduled(b));
    assert_eq!(df.run_stratum(2), 1);
    assert_eq!(*first_runs.borrow(), vec![(0, 0), (0, 0)]);
    assert!(!df.is_scheduled(a));
}

#[test]
fn deferred_requests_wait_for_the_next_tick() {
    let mut df: Hydroflow<Asker> = Hydroflow::new();
    let (again, runs) = asker(vec![], vec![SubgraphId(0)]);
    let a = df.add_subgraph("again".to_string(), vec![], vec![], again);
    // One tick: the subgraph runs once although it asks to be run again.
    assert!(df.run_tick(100));
    assert_eq!(*runs.borrow(), vec![(0, 0)]);
    assert_eq!((df.current_tick(), df.current_stratum()), (1, 0));
    assert!(!df.is_scheduled(a));
    // The next tick runs it again.
    assert!(df.run_tick(100));
    assert_eq!(*runs.borrow(), vec![(0, 0), (1, 0)]);
    assert_eq!(df.current_tick(), 2);
    // Left to itself the graph comes to rest after one more run.
    assert!(df.run_available(100));
    assert_eq!(*runs.borrow(), vec![(0, 0), (1, 0), (2, 0)]);
    assert_eq!((df.current_tick(), df.current_stratum()), (3, 0));
}

#[test]
fn running_out_of_runs_stops_within_the_tick() {
    let mut df: Hydroflow<Asker> = Hydroflow::new();
    // A subgraph that asks for itself at once on its first run: the tick
    // takes two runs.
    let (spinning, spin_runs) = asker(vec![SubgraphId(0)], vec![]);
    let a = df.add_subgraph("spin".to_string(), vec![], vec![], spinning);
    assert!(df.run_tick(0) == false);
    assert_eq!(df.current_tick(), 0);
    assert!(df.is_scheduled(a));
    assert!(df.run_tick(1));
    assert_eq!(spin_runs.borrow().len(), 1);
    assert_eq!(df.current_tick(), 0);
    assert!(df.is_scheduled(a));
    assert!(df.run_tick(10));
    assert_eq!(spin_runs.borrow().len(), 2);
    assert_eq!(df.current_tick(), 1);
}

#[test]
fn strata_run_in_order_within_a_tick() {
    let order = std::rc::Rc::new(std::cell::RefCell::new(Vec::new()));
    let mut df: Hydroflow<Asker> = Hydroflow::new();
    for stratum in [2usize, 0, 1, 0, 2] {
        let node = Asker { external: vec![], deferred: vec![], runs: order.clone() };
        df.add_subgraph_stratified("node".to_string(), stratum, vec![], vec![], node);
    }
    assert!(df.run_tick(100));
    assert_eq!(*order.borrow(), vec![(0, 0), (0, 0), (0, 1), (0, 2), (0, 2)]);
}

#[test]
fn written_handoff_wakes_every_reader_once() {
    let mut df: Hydroflow<Forward> = Hydroflow::new();
    let (send, recv) = df.make_edge("shared".to_string());
    let (loop_send, loop_recv) = df.make_edge("loop".to_string());
    let writer = df.add_subgraph("writer".to_string(), vec![loop_recv], vec![send, loop_send], forward(vec![1], 1));
    let reader = df.add_subgraph_stratified("reader".to_string(), 1, vec![recv, recv], vec![], forward(vec![], 0));
    assert!(df.next_stratum(false));
    assert_eq!(df.run_stratum(1), 1);
    // The writer wrote both handoffs: the reader is ready, and so is the
    // writer itself, which reads the second handoff.
    assert_eq!(df.handoff_len(send.handoff_id), 1);
    assert_eq!(df.handoff_len(loop_send.handoff_id), 1);
    assert!(df.is_scheduled(reader));
    assert!(df.is_scheduled(writer));
    assert_eq!(df.run_stratum(1), 1);
    assert_eq!(df.handoff_len(send.handoff_id), 2);
    assert_eq!(df.handoff_len(loop_send.handoff_id), 1);
    assert!(df.next_stratum(false));
    assert_eq!(df.current_stratum(), 0);
}

#[test]
fn handoff_gives_and_takes_in_order() {
    let mut handoff: VecHandoff<u64> = VecHandoff::new();
    assert!(handoff.is_bottom());
    handoff.give(3);
    handoff.give_all(vec![1, 2]);
    assert!(!handoff.is_bottom());
    assert_eq!(handoff.len(), 3);
    assert_eq!(handoff.take_inner(), vec![3, 1, 2]);
    assert!(handoff.is_bottom());
    assert_eq!(handoff.take_inner(), Vec::<u64>::new());
}

#[test]
fn context_keeps_ports_apart() {
    let mut context: Context<u64, u64> =
        Context::new(4, 2, SubgraphId(9), vec![vec![1, 2], vec![], vec![3]], 2, vec![7]);
    assert_eq!(context.current_tick(), 4);
    assert_eq!(context.current_stratum(), 2);
    assert_eq!(context.current_subgraph(), SubgraphId(9));
    assert_eq!(context.num_recv(), 3);
    assert_eq!(context.num_send(), 2);
    assert_eq!(context.take_recv(0), vec![1, 2]);
    assert_eq!(context.take_recv(0), Vec::<u64>::new());
    assert_eq!(context.take_recv(2), vec![3]);
    context.give(1, 10);
    context.give(0, 20);
    context.give(1, 30);
    context.schedule_subgraph(SubgraphId(1), true);
    context.schedule_subgraph(SubgraphId(2), false);
    context.schedule_subgraph(SubgraphId(3), true);
    let (sent, requested, deferred, states) = context.into_parts();
    assert_eq!(sent, vec![vec![20], vec![10, 30]]);
    assert_eq!(requested, vec![SubgraphId(1), SubgraphId(3)]);
    assert_eq!(deferred, vec![SubgraphId(2)]);
    assert_eq!(states, vec![7]);
}
