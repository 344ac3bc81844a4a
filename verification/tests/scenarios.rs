use std::cell::RefCell;
use std::collections::HashMap;
use std::rc::Rc;

use hydroflow::compiled::pull::symmetric_hash_join::{Persistence, SymmetricHashJoin};
use hydroflow::scheduled::context::Context;
use hydroflow::scheduled::graph::Hydroflow;
use hydroflow::scheduled::subgraph::Subgraph;

type Row = (u64, u64);
type Results = Rc<RefCell<HashMap<usize, Vec<(u64, (u64, u64))>>>>;

/// The subgraphs of the scenarios below.
enum Node {
    /// Gives its rows to send port 0 on its first run.
    Source(Vec<Row>),
    /// Gives what it receives on port 0 to send port 0.
    Identity,
    /// A join of the rows it holds inline and the rows it receives: the left
    /// rows and the first right rows come once, further right rows come on
    /// every receive port. Records what it puts out under the tick.
    Join { lhs: Vec<Row>, rhs: Vec<Row>, join: SymmetricHashJoin, results: Results },
    /// Remembers every value taken from `input` and gives all of them to send
    /// port 0 in every tick.
    Persist { input: Rc<RefCell<Vec<u64>>>, stored: Vec<u64> },
    /// Gives the values taken from `input` to send port 0.
    Stream { input: Rc<RefCell<Vec<u64>>> },
    /// Sums what it receives on port 0 and crosses the sum with what it
    /// receives on port 1, both within the tick.
    FoldCross { join: SymmetricHashJoin, results: Results },
}

impl Subgraph for Node {
    type Item = Row;
    type State = ();

    fn run(&mut self, context: &mut Context<Row, ()>) {
        match self {
            Node::Source(rows) => {
                for row in rows.drain(..) {
                    context.give(0, row);
                }
            }
            Node::Identity => {
                for row in context.take_recv(0) {
                    context.give(0, row);
                }
            }
            Node::Join { lhs, rhs, join, results } => {
                let lhs: Vec<Row> = lhs.drain(..).collect();
                let mut rhs: Vec<Row> = rhs.drain(..).collect();
                for port in 0..context.num_recv() {
                    rhs.extend(context.take_recv(port));
                }
                let out = join.run(context.current_tick(), &lhs, &rhs);
                if !out.is_empty() {
                    results.borrow_mut().entry(context.current_tick()).or_default().extend(out);
                }
                if join.reschedules() {
                    context.schedule_subgraph(context.current_subgraph(), false);
                }
            }
            Node::Persist { input, stored } => {
                stored.extend(input.borrow_mut().drain(..));
                for value in stored.iter() {
                    context.give(0, (0, *value));
                }
                context.schedule_subgraph(context.current_subgraph(), false);
            }
            Node::Stream { input } => {
                for value in input.borrow_mut().drain(..) {
                    context.give(0, (0, value));
                }
            }
            Node::FoldCross { join, results } => {
                let sum: u64 = context.take_recv(0).iter().map(|row| row.1).sum();
                let other = context.take_recv(1);
                let out = join.run(context.current_tick(), &vec![(0, sum)], &other);
                if !out.is_empty() {
                    results.borrow_mut().entry(context.current_tick()).or_default().extend(out);
                }
            }
        }
    }
}

#[test]
fn static_join_with_deferred_rows() {
    let results: Results = Rc::new(RefCell::new(HashMap::new()));
    let mut df: Hydroflow<Node> = Hydroflow::new();
    let (h11_send, h11_recv) = df.make_edge("one tick, first leg".to_string());
    let (h12_send, h12_recv) = df.make_edge("two ticks, third leg".to_string());
    let (h13_send, h13_recv) = df.make_edge("two ticks, first leg".to_string());
    let (h15_send, h15_recv) = df.make_edge("one tick, last leg".to_string());
    let (h17_send, h17_recv) = df.make_edge("two ticks, last leg".to_string());
    let (h19_send, h19_recv) = df.make_edge("two ticks, second leg".to_string());

    df.add_subgraph_stratified("one tick".to_string(), 0, vec![], vec![h11_send], Node::Source(vec![(7, 1)]));
    df.add_subgraph_stratified("two ticks".to_string(), 0, vec![], vec![h13_send], Node::Source(vec![(7, 2)]));
    df.add_subgraph_stratified("second tick".to_string(), 0, vec![h19_recv], vec![h12_send], Node::Identity);
    df.add_subgraph_stratified(
        "join".to_string(),
        0,
        vec![h15_recv, h17_recv],
        vec![],
        Node::Join {
            lhs: vec![(7, 1), (7, 2)],
            rhs: vec![(7, 0)],
            join: SymmetricHashJoin::new(Persistence::Static, Persistence::Static),
            results: results.clone(),
        },
    );
    df.add_subgraph_stratified("defer a".to_string(), 1, vec![h11_recv], vec![h15_send], Node::Identity);
    df.add_subgraph_stratified("defer b".to_string(), 1, vec![h12_recv], vec![h17_send], Node::Identity);
    df.add_subgraph_stratified("defer c".to_string(), 1, vec![h13_recv], vec![h19_send], Node::Identity);

    assert!(df.run_available(1000));

    let results = results.borrow();
    for v in &[(7, (1, 0)), (7, (2, 0))] {
        assert!(results[&0].contains(v), "did not contain: {:?} in {:?}", v, results[&0]);
    }
    for v in &[(7, (1, 0)), (7, (2, 0)), (7, (1, 1)), (7, (2, 1))] {
        assert!(results[&1].contains(v), "did not contain: {:?} in {:?}", v, results[&1]);
    }
    for v in &[(7, (1, 0)), (7, (2, 0)), (7, (1, 1)), (7, (2, 1)), (7, (1, 2)), (7, (2, 2))] {
        assert!(results[&2].contains(v), "did not contain: {:?} in {:?}", v, results[&2]);
    }
    assert_eq!(results.get(&3), None);
    assert_eq!(results[&0].len(), 2);
    assert_eq!(results[&1].len(), 4);
    assert_eq!(results[&2].len(), 6);
    assert_eq!(df.current_tick(), 3);
    assert_eq!(df.current_stratum(), 0);
}

#[test]
fn test_persist_replay_join() {
    let results: Results = Rc::new(RefCell::new(HashMap::new()));
    let persist_input = Rc::new(RefCell::new(Vec::new()));
    let other_input = Rc::new(RefCell::new(Vec::new()));
    let mut df: Hydroflow<Node> = Hydroflow::new();
    let (sum_send, sum_recv) = df.make_edge("persisted".to_string());
    let (other_send, other_recv) = df.make_edge("other".to_string());
    let persist = df.add_subgraph_stratified(
        "persist".to_string(),
        0,
        vec![],
        vec![sum_send],
        Node::Persist { input: persist_input.clone(), stored: vec![] },
    );
    let other = df.add_subgraph_stratified(
        "other".to_string(),
        0,
        vec![],
        vec![other_send],
        Node::Stream { input: other_input.clone() },
    );
    df.add_subgraph_stratified(
        "fold and cross join".to_string(),
        1,
        vec![sum_recv, other_recv],
        vec![],
        Node::FoldCross {
            join: SymmetricHashJoin::new(Persistence::Tick, Persistence::Tick),
            results: results.clone(),
        },
    );
    let take = |results: &Results| -> Vec<(u64, u64)> {
        let mut ticks: Vec<(usize, Vec<(u64, (u64, u64))>)> = results.borrow_mut().drain().collect();
        ticks.sort();
        ticks.into_iter().flat_map(|(_, rows)| rows).map(|(_, pair)| pair).collect()
    };

    persist_input.borrow_mut().push(1);
    other_input.borrow_mut().push(2);
    df.push_event(persist);
    df.push_event(other);
    df.run_tick(1000);
    assert_eq!(take(&results), vec![(1, 2)]);

    persist_input.borrow_mut().push(2);
    other_input.borrow_mut().push(2);
    df.push_event(persist);
    df.push_event(other);
    df.run_tick(1000);
    assert_eq!(take(&results), vec![(3, 2)]);

    other_input.borrow_mut().push(3);
    df.push_event(other);
    df.run_tick(1000);
    df.run_tick(1000);
    df.run_tick(1000);
    assert_eq!(take(&results), vec![(3, 3)]);
    assert_eq!(df.current_tick(), 5);
}
