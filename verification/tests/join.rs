use hydroflow::compiled::pull::half_join_state::lattice::HalfJoinStateLattice;
use hydroflow::compiled::pull::half_join_state::set::HalfSetJoinState;
use hydroflow::lattices::set_union_with_tombstone::SetUnionWithTombstone;
use hydroflow::lattices::Merge;
use std::collections::HashSet;
use hydroflow::compiled::pull::symmetric_hash_join::{Persistence, SymmetricHashJoin};
use hydroflow::compiled::pull::symmetric_lattice_join::SymmetricLatticeJoin;

fn sorted<T: Ord>(mut items: Vec<T>) -> Vec<T> {
    items.sort();
    items
}

#[test]
fn new_state_is_empty() {
    let mut state = HalfSetJoinState::new();
    assert_eq!(state.len(), 0);
    assert_eq!(state.iter(), vec![]);
    assert_eq!(state.pop_match(), None);
    assert_eq!(state.probe(&7, &1), None);
}

#[test]
fn build_reports_novel_rows_only() {
    let mut state = HalfSetJoinState::new();
    assert!(state.build(7, &1));
    assert!(!state.build(7, &1));
    assert!(state.build(7, &2));
    assert!(state.build(8, &1));
    assert!(!state.build(7, &2));
    assert_eq!(state.len(), 2);
    assert_eq!(sorted(state.iter()), vec![(7, 1), (7, 2), (8, 1)]);
}

#[test]
fn rows_of_a_key_come_out_oldest_first() {
    let mut state = HalfSetJoinState::new();
    for v in [5, 3, 9, 3, 1] {
        state.build(4, &v);
    }
    assert_eq!(state.iter(), vec![(4, 5), (4, 3), (4, 9), (4, 1)]);
}

#[test]
fn probe_returns_first_match_and_queues_the_rest() {
    let mut state = HalfSetJoinState::new();
    state.build(7, &10);
    state.build(7, &20);
    state.build(7, &30);
    state.build(8, &40);
    assert_eq!(state.probe(&7, &1), Some((7, 1, 10)));
    assert_eq!(state.pop_match(), Some((7, 1, 20)));
    assert_eq!(state.pop_match(), Some((7, 1, 30)));
    assert_eq!(state.pop_match(), None);
    assert_eq!(state.probe(&9, &1), None);
    assert_eq!(state.pop_match(), None);
}

#[test]
fn pending_matches_are_first_in_first_out_across_probes() {
    let mut state = HalfSetJoinState::new();
    state.build(7, &10);
    state.build(7, &20);
    state.build(8, &30);
    state.build(8, &40);
    assert_eq!(state.probe(&7, &1), Some((7, 1, 10)));
    assert_eq!(state.probe(&8, &2), Some((8, 2, 30)));
    assert_eq!(state.pop_match(), Some((7, 1, 20)));
    assert_eq!(state.pop_match(), Some((8, 2, 40)));
    assert_eq!(state.pop_match(), None);
}

#[test]
fn probe_with_single_value_queues_nothing() {
    let mut state = HalfSetJoinState::new();
    state.build(7, &10);
    assert_eq!(state.probe(&7, &5), Some((7, 5, 10)));
    assert_eq!(state.pop_match(), None);
}

#[test]
fn clear_forgets_rows_and_matches() {
    let mut state = HalfSetJoinState::new();
    state.build(7, &10);
    state.build(7, &20);
    assert_eq!(state.probe(&7, &1), Some((7, 1, 10)));
    state.clear();
    assert_eq!(state.len(), 0);
    assert_eq!(state.pop_match(), None);
    assert_eq!(state.probe(&7, &1), None);
    assert!(state.build(7, &10));
}

#[test]
fn duplicate_build_gives_one_row_and_one_match() {
    let mut state = HalfSetJoinState::new();
    assert!(state.build(1, &2));
    assert!(!state.build(1, &2));
    assert!(!state.build(1, &2));
    assert_eq!(state.iter(), vec![(1, 2)]);
    assert_eq!(state.probe(&1, &9), Some((1, 9, 2)));
    assert_eq!(state.pop_match(), None);
}

#[test]
fn join_pairs_rows_of_equal_keys() {
    let mut join = SymmetricHashJoin::new(Persistence::Tick, Persistence::Tick);
    let out = join.run(0, &vec![(1, 10), (2, 20), (1, 11)], &vec![(1, 100), (3, 300), (1, 101)]);
    assert_eq!(
        sorted(out),
        vec![(1, (10, 100)), (1, (10, 101)), (1, (11, 100)), (1, (11, 101))]
    );
}

#[test]
fn join_output_follows_arrival_order() {
    let mut join = SymmetricHashJoin::new(Persistence::Tick, Persistence::Tick);
    let out = join.run(0, &vec![(1, 10), (1, 11)], &vec![(1, 100), (1, 101)]);
    assert_eq!(out, vec![(1, (10, 100)), (1, (11, 100)), (1, (10, 101)), (1, (11, 101))]);
}

#[test]
fn join_drops_repeated_rows() {
    let mut join = SymmetricHashJoin::new(Persistence::Tick, Persistence::Tick);
    let out = join.run(0, &vec![(1, 10), (1, 10), (1, 10)], &vec![(1, 100), (1, 100)]);
    assert_eq!(out, vec![(1, (10, 100))]);
}

#[test]
fn static_join_matches_rows_of_different_ticks() {
    let mut join = SymmetricHashJoin::new(Persistence::Static, Persistence::Static);
    assert!(join.reschedules());
    // A left row in tick 1, a right row in tick 2: they still match.
    assert_eq!(join.run(1, &vec![(5, 1)], &vec![]), vec![]);
    assert_eq!(join.run(2, &vec![], &vec![(5, 2)]), vec![(5, (1, 2))]);
    // The other order of arrival, with another key.
    assert_eq!(join.run(3, &vec![], &vec![(6, 4)]), vec![(5, (1, 2))]);
    assert_eq!(sorted(join.run(4, &vec![(6, 3)], &vec![])), vec![(5, (1, 2)), (6, (3, 4))]);
}

#[test]
fn static_join_puts_out_each_pair_once_per_tick() {
    let mut join = SymmetricHashJoin::new(Persistence::Static, Persistence::Static);
    assert_eq!(join.run(0, &vec![(7, 1), (7, 2)], &vec![(7, 0)]), vec![(7, (1, 0)), (7, (2, 0))]);
    // A second run in the same tick puts out only what is new.
    assert_eq!(join.run(0, &vec![(7, 1)], &vec![(7, 0)]), vec![]);
    assert_eq!(sorted(join.run(0, &vec![(7, 3)], &vec![(7, 9)])), vec![
        (7, (1, 9)),
        (7, (2, 9)),
        (7, (3, 0)),
        (7, (3, 9)),
    ]);
    // A new tick puts out the whole join again, each pair once.
    assert_eq!(sorted(join.run(1, &vec![], &vec![])), vec![
        (7, (1, 0)),
        (7, (1, 9)),
        (7, (2, 0)),
        (7, (2, 9)),
        (7, (3, 0)),
        (7, (3, 9)),
    ]);
}

#[test]
fn tick_join_forgets_at_the_next_tick() {
    let mut join = SymmetricHashJoin::new(Persistence::Tick, Persistence::Tick);
    assert!(!join.reschedules());
    assert_eq!(join.run(0, &vec![(1, 10)], &vec![(1, 100)]), vec![(1, (10, 100))]);
    // Rows of tick 0 are gone in tick 1.
    assert_eq!(join.run(1, &vec![(1, 11)], &vec![]), vec![]);
    assert_eq!(join.run(1, &vec![], &vec![(1, 101)]), vec![(1, (11, 101))]);
    assert_eq!(join.run(2, &vec![], &vec![(1, 102)]), vec![]);
}

#[test]
fn mixed_join_keeps_the_static_side_only() {
    let mut join = SymmetricHashJoin::new(Persistence::Static, Persistence::Tick);
    assert!(!join.reschedules());
    assert_eq!(join.run(0, &vec![(1, 10)], &vec![(1, 100)]), vec![(1, (10, 100))]);
    assert_eq!(join.run(1, &vec![], &vec![(1, 101)]), vec![(1, (10, 101))]);
    assert_eq!(join.run(2, &vec![(1, 11)], &vec![]), vec![]);
}

#[test]
fn replay_takes_the_side_with_fewer_keys() {
    // More keys on the left than on the right, and the other way round: the
    // output is the same set either way.
    let mut join = SymmetricHashJoin::new(Persistence::Static, Persistence::Static);
    join.run(0, &vec![(1, 1), (2, 2), (3, 3)], &vec![(1, 7)]);
    assert_eq!(join.run(1, &vec![], &vec![]), vec![(1, (1, 7))]);
    let mut join = SymmetricHashJoin::new(Persistence::Static, Persistence::Static);
    join.run(0, &vec![(1, 7)], &vec![(1, 1), (2, 2), (3, 3)]);
    assert_eq!(join.run(1, &vec![], &vec![]), vec![(1, (7, 1))]);
}

#[test]
fn join_in_an_earlier_tick_is_not_a_new_tick() {
    let mut join = SymmetricHashJoin::new(Persistence::Tick, Persistence::Tick);
    assert_eq!(join.run(5, &vec![(1, 10)], &vec![]), vec![]);
    // Tick 3 is not after tick 5: nothing is cleared.
    assert_eq!(join.run(3, &vec![], &vec![(1, 100)]), vec![(1, (10, 100))]);
}

/// The lattice of the largest number seen.
#[derive(Clone, Debug, PartialEq)]
struct Max(u64);

impl Merge<Max> for Max {
    fn obeys_merge_spec() -> bool {
        true
    }

    fn grows(this: Max, other: Max) -> bool {
        other.0 > this.0
    }

    fn merged(before: Max, other: Max, after: Max) -> bool {
        after.0 == before.0.max(other.0)
    }

    fn merge(&mut self, other: Max) -> bool {
        if other.0 > self.0 {
            self.0 = other.0;
            true
        } else {
            false
        }
    }
}

#[test]
fn lattice_state_merges_the_values_of_a_key() {
    let mut state: HalfJoinStateLattice<Max> = HalfJoinStateLattice::new();
    assert_eq!(state.len(), 0);
    assert_eq!(state.probe(&1, &"p"), None);
    assert!(state.build(1, &Max(5)));
    assert!(!state.build(1, &Max(3)));
    assert!(!state.build(1, &Max(5)));
    assert!(state.build(1, &Max(8)));
    assert!(state.build(2, &Max(0)));
    assert_eq!(state.len(), 2);
    assert_eq!(state.probe(&1, &"p"), Some((1, "p", Max(8))));
    assert_eq!(state.probe(&2, &7u8), Some((2, 7u8, Max(0))));
    assert_eq!(state.pop_match::<u8>(), None);
    state.clear();
    assert_eq!(state.len(), 0);
    assert_eq!(state.probe(&1, &"p"), None);
}

#[test]
fn lattice_state_iter_lists_each_key_once() {
    let mut state: HalfJoinStateLattice<Max> = HalfJoinStateLattice::new();
    state.build(3, &Max(1));
    state.build(1, &Max(4));
    state.build(3, &Max(9));
    let mut all = state.iter();
    all.sort_by_key(|entry| entry.0);
    assert_eq!(all, vec![(1, Max(4)), (3, Max(9))]);
}

#[test]
fn lattice_join_matches_values_that_make_a_side_grow() {
    let mut join: SymmetricLatticeJoin<Max, Max> =
        SymmetricLatticeJoin::new(Persistence::Tick, Persistence::Tick);
    let out = join.run(
        0,
        &vec![(1, Max(5)), (1, Max(3)), (2, Max(1))],
        &vec![(1, Max(7)), (1, Max(9)), (1, Max(8)), (3, Max(0))],
    );
    assert_eq!(out, vec![(1, (Max(5), Max(7))), (1, (Max(5), Max(9)))]);
    // Later in the tick: a left value that grows meets the merged right value.
    let out = join.run(0, &vec![(1, Max(6)), (3, Max(2)), (1, Max(6))], &vec![(2, Max(4))]);
    assert_eq!(out, vec![(1, (Max(6), Max(9))), (3, (Max(2), Max(0))), (2, (Max(1), Max(4)))]);
    // The next tick starts from nothing.
    let out = join.run(1, &vec![(1, Max(0))], &vec![]);
    assert_eq!(out, vec![]);
}

#[test]
fn static_lattice_join_replays_the_merged_values() {
    let mut join: SymmetricLatticeJoin<Max, Max> =
        SymmetricLatticeJoin::new(Persistence::Static, Persistence::Static);
    assert_eq!(join.run(0, &vec![(1, Max(5)), (2, Max(2))], &vec![]), vec![]);
    assert_eq!(join.run(0, &vec![(1, Max(8))], &vec![]), vec![]);
    let mut out = join.run(1, &vec![], &vec![(1, Max(3)), (3, Max(3))]);
    assert_eq!(out, vec![(1, (Max(8), Max(3)))]);
    out = join.run(2, &vec![(3, Max(1))], &vec![]);
    out.sort_by_key(|row| row.0);
    assert_eq!(out, vec![(1, (Max(8), Max(3))), (3, (Max(1), Max(3)))]);
    // The same with more keys on the right than on the left.
    let mut join: SymmetricLatticeJoin<Max, Max> =
        SymmetricLatticeJoin::new(Persistence::Static, Persistence::Static);
    join.run(0, &vec![(1, Max(5))], &vec![(1, Max(1)), (2, Max(2)), (3, Max(3))]);
    assert_eq!(join.run(1, &vec![], &vec![]), vec![(1, (Max(5), Max(1)))]);
    let mut join: SymmetricLatticeJoin<Max, Max> =
        SymmetricLatticeJoin::new(Persistence::Static, Persistence::Static);
    join.run(0, &vec![(1, Max(1)), (2, Max(2)), (3, Max(3))], &vec![(1, Max(5))]);
    assert_eq!(join.run(1, &vec![], &vec![]), vec![(1, (Max(1), Max(5)))]);
}

fn tombstoned(items: &[u64], tombstones: &[u64]) -> SetUnionWithTombstone<u64> {
    SetUnionWithTombstone::new(
        items.iter().copied().collect::<HashSet<u64>>(),
        tombstones.iter().copied().collect::<HashSet<u64>>(),
    )
}

#[test]
fn lattice_join_of_sets_with_tombstones_puts_out_copies_of_what_it_holds() {
    let mut join: SymmetricLatticeJoin<SetUnionWithTombstone<u64>, SetUnionWithTombstone<u64>> =
        SymmetricLatticeJoin::new(Persistence::Static, Persistence::Static);
    let out = join.run(
        0,
        &vec![(7, tombstoned(&[1], &[])), (7, tombstoned(&[1], &[])), (8, tombstoned(&[5], &[]))],
        &vec![(7, tombstoned(&[2], &[3])), (9, tombstoned(&[], &[]))],
    );
    // Of the left rows none finds its key on the right; the second one of key 7
    // changes nothing. The right row of key 7 meets what the left side holds.
    assert_eq!(out.len(), 1);
    assert_eq!(out[0].0, 7);
    assert!(out[0].1 .0 == tombstoned(&[1], &[]));
    assert!(out[0].1 .1 == tombstoned(&[2], &[3]));
    // A left row that adds a tombstone meets the right value; both sides are
    // put out again at the next tick, merged.
    let out = join.run(0, &vec![(7, tombstoned(&[], &[4]))], &vec![]);
    assert_eq!(out.len(), 1);
    assert!(out[0].1 .0 == tombstoned(&[], &[4]));
    assert!(out[0].1 .1 == tombstoned(&[2], &[3]));
    let out = join.run(1, &vec![], &vec![]);
    assert_eq!(out.len(), 1);
    assert_eq!(out[0].0, 7);
    assert!(out[0].1 .0 == tombstoned(&[1], &[4]));
    assert!(out[0].1 .1 == tombstoned(&[2], &[3]));
}
