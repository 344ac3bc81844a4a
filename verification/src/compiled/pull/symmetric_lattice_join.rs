//! The symmetric hash join of lattice values: each side merges the values of
//! a key into one, and a value that makes its side grow is matched with what
//! the other side holds for its key.
use vstd::prelude::*;
use crate::compiled::pull::half_join_state::lattice::{
    clones_plainly, lattice_build, lattice_build_changes, merges_as, HalfJoinStateLattice,
};
use crate::compiled::pull::symmetric_hash_join::Persistence;
use crate::lattices::Merge;

verus! {

/// What feeding `rows` to a side does, row after row: the table of the side
/// afterwards, and for each row that changed the table and whose key the other
/// side holds, the key with the row's value and the other side's value.
pub open spec fn lattice_feed<B: Merge<B>, P>(
    built: Map<u64, B>,
    probed: Map<u64, P>,
    rows: Seq<(u64, B)>,
    join: spec_fn(B, B) -> B,
) -> (Map<u64, B>, Seq<(u64, B, P)>)
    decreases rows.len(),
{
    if rows.len() == 0 {
        (built, Seq::empty())
    } else {
        let (table, out) = lattice_feed(built, probed, rows.drop_last(), join);
        let (k, v) = rows.last();
        let next = lattice_build(table, k, v, join);
        if lattice_build_changes(table, k, v) && probed.contains_key(k) {
            (next, out.push((k, v, probed[k])))
        } else {
            (next, out)
        }
    }
}

/// Whether `out` holds, for each key that both tables hold, the key with the
/// two values once, and nothing else.
pub open spec fn matches_all<L, R>(lhs: Map<u64, L>, rhs: Map<u64, R>, out: Seq<(u64, (L, R))>) -> bool {
    &&& forall|i: int, j: int|
        0 <= i < out.len() && 0 <= j < out.len() && i != j ==> (#[trigger] out[i]).0 != (
        #[trigger] out[j]).0
    &&& forall|i: int|
        0 <= i < out.len() ==> {
            &&& lhs.contains_key((#[trigger] out[i]).0)
            &&& rhs.contains_key(out[i].0)
            &&& out[i].1 == (lhs[out[i].0], rhs[out[i].0])
        }
    &&& forall|k: u64|
        lhs.contains_key(k) && #[trigger] rhs.contains_key(k) ==> exists|i: int|
            0 <= i < out.len() && (#[trigger] out[i]).0 == k
}

/// The outputs of rows fed on the left: the left value comes first.
pub open spec fn from_left<L, R>(fed: Seq<(u64, L, R)>) -> Seq<(u64, (L, R))> {
    Seq::new(fed.len(), |i: int| (fed[i].0, (fed[i].1, fed[i].2)))
}

/// The outputs of rows fed on the right: the left value comes first.
pub open spec fn from_right<L, R>(fed: Seq<(u64, R, L)>) -> Seq<(u64, (L, R))> {
    Seq::new(fed.len(), |i: int| (fed[i].0, (fed[i].2, fed[i].1)))
}

/// Whether `to` is a copy of `from`: what `clone` gave for it, or for a value
/// that `clone` gave for it.
pub open spec fn copied<T: Clone>(from: T, to: T) -> bool {
    cloned(from, to) || exists|mid: T| #[trigger] cloned(from, mid) && cloned(mid, to)
}

/// The keys of `rows`.
pub open spec fn keys_of<V>(rows: Seq<(u64, V)>) -> Set<u64> {
    Set::new(|k: u64| exists|j: int| 0 <= j < rows.len() && (#[trigger] rows[j]).0 == k)
}

/// Whether `after` holds what `before` held for every key that is no key of
/// `rows`.
pub open spec fn kept_beside<V>(before: Map<u64, V>, after: Map<u64, V>, rows: Seq<(u64, V)>) -> bool {
    forall|k: u64|
        before.contains_key(k) && !keys_of(rows).contains(k) ==> #[trigger] after[k] == before[k]
}

/// Whether `out` holds each key that both tables hold once, with a copy of
/// each of the two values, and nothing else.
pub open spec fn copies_all<L: Clone, R: Clone>(
    lhs: Map<u64, L>,
    rhs: Map<u64, R>,
    out: Seq<(u64, (L, R))>,
) -> bool {
    &&& forall|i: int, j: int|
        0 <= i < out.len() && 0 <= j < out.len() && i != j ==> (#[trigger] out[i]).0 != (
        #[trigger] out[j]).0
    &&& forall|i: int|
        0 <= i < out.len() ==> {
            &&& lhs.contains_key((#[trigger] out[i]).0)
            &&& rhs.contains_key(out[i].0)
            &&& copied(lhs[out[i].0], out[i].1.0)
            &&& copied(rhs[out[i].0], out[i].1.1)
        }
    &&& forall|k: u64|
        lhs.contains_key(k) && #[trigger] rhs.contains_key(k) ==> exists|i: int|
            0 <= i < out.len() && (#[trigger] out[i]).0 == k
}

/// Whether `out[i]` is the row `rows[from[i]]` with what `probed` holds for
/// its key, each value a copy, and `from` picks rows in their order.
pub open spec fn copies_rows<B: Clone, P: Clone>(
    rows: Seq<(u64, B)>,
    probed: Map<u64, P>,
    out: Seq<(u64, B, P)>,
    from: Seq<int>,
) -> bool {
    &&& from.len() == out.len()
    &&& forall|i: int| 0 <= i < from.len() ==> 0 <= #[trigger] from[i] < rows.len()
    &&& forall|i: int, j: int| 0 <= i < j < from.len() ==> #[trigger] from[i] < #[trigger] from[j]
    &&& forall|i: int|
        0 <= i < out.len() ==> {
            &&& (#[trigger] out[i]).0 == rows[from[i]].0
            &&& cloned(rows[from[i]].1, out[i].1)
            &&& probed.contains_key(out[i].0)
            &&& cloned(probed[out[i].0], out[i].2)
        }
}

/// Whether `out` holds, in the order of `rows`, some of the rows whose key
/// `probed` holds, each with what `probed` holds for the key; among them every
/// row that brings `built` a key which it did not hold and no earlier row
/// had.
pub open spec fn copies_fed<B: Clone, P: Clone>(
    built: Map<u64, B>,
    probed: Map<u64, P>,
    rows: Seq<(u64, B)>,
    out: Seq<(u64, B, P)>,
) -> bool {
    exists|from: Seq<int>|
        {
            &&& #[trigger] copies_rows(rows, probed, out, from)
            &&& forall|j: int|
                0 <= j < rows.len() && probed.contains_key((#[trigger] rows[j]).0)
                    && !built.contains_key(rows[j].0) && !keys_of(rows.take(j)).contains(rows[j].0)
                    ==> from.contains(j)
        }
}

/// The output of a run: what was put out again, then the outputs of the
/// left rows, then those of the right rows.
pub open spec fn run_output<L, R>(
    replayed: Seq<(u64, (L, R))>,
    left: Seq<(u64, L, R)>,
    right: Seq<(u64, R, L)>,
) -> Seq<(u64, (L, R))> {
    replayed + from_left(left) + from_right(right)
}

/// A symmetric hash join of lattice values as a mathematical object: the
/// value that each side holds for each key, how long each side remembers, and
/// the tick of the last run.
pub struct LatticeJoinView<L, R> {
    /// The value that the left side holds for each key.
    pub lhs: Map<u64, L>,
    /// The value that the right side holds for each key.
    pub rhs: Map<u64, R>,
    /// How long the left side remembers.
    pub lhs_persistence: Persistence,
    /// How long the right side remembers.
    pub rhs_persistence: Persistence,
    /// The tick in which the join last began a tick of its own, if it ever
    /// ran.
    pub last_tick: Option<usize>,
}

impl<L, R> LatticeJoinView<L, R> {
    /// Whether a run in tick `tick` is the join's first run in a new tick.
    pub open spec fn is_new_tick(self, tick: usize) -> bool {
        match self.last_tick {
            None => true,
            Some(last) => last < tick,
        }
    }

    /// What the left side holds when a run in tick `tick` starts: nothing if
    /// the tick is new and the left side remembers for a tick only.
    pub open spec fn kept_lhs(self, tick: usize) -> Map<u64, L> {
        if self.is_new_tick(tick) && self.lhs_persistence == Persistence::Tick {
            Map::empty()
        } else {
            self.lhs
        }
    }

    /// What the right side holds when a run in tick `tick` starts.
    pub open spec fn kept_rhs(self, tick: usize) -> Map<u64, R> {
        if self.is_new_tick(tick) && self.rhs_persistence == Persistence::Tick {
            Map::empty()
        } else {
            self.rhs
        }
    }

    /// The tick of the last run after a run in tick `tick`.
    pub open spec fn tick_after(self, tick: usize) -> Option<usize> {
        if self.is_new_tick(tick) {
            Some(tick)
        } else {
            self.last_tick
        }
    }
}

/// A symmetric hash join of two inputs of rows `(key, lattice value)`. Each
/// side keeps one value per key, the merge of all the values it has seen for
/// the key.
pub struct SymmetricLatticeJoin<L, R> {
    lhs_state: HalfJoinStateLattice<L>,
    rhs_state: HalfJoinStateLattice<R>,
    lhs_persistence: Persistence,
    rhs_persistence: Persistence,
    last_tick: Option<usize>,
}

impl<L: Merge<L> + Clone, R: Merge<R> + Clone> View for SymmetricLatticeJoin<L, R> {
    type V = LatticeJoinView<L, R>;

    closed spec fn view(&self) -> LatticeJoinView<L, R> {
        LatticeJoinView {
            lhs: self.lhs_state.table(),
            rhs: self.rhs_state.table(),
            lhs_persistence: self.lhs_persistence,
            rhs_persistence: self.rhs_persistence,
            last_tick: self.last_tick,
        }
    }
}

/// Builds each row of `rows` in turn into `built` and probes `probed` with
/// each row that changed `built`. Returns the matches, each as the key, a copy
/// of the row's value and a copy of the value of `probed`.
fn feed<B: Merge<B> + Clone, P: Merge<P> + Clone>(
    built: &mut HalfJoinStateLattice<B>,
    probed: &mut HalfJoinStateLattice<P>,
    rows: &Vec<(u64, B)>,
) -> (out: Vec<(u64, B, P)>)
    requires
        old(built).wf(),
        old(probed).wf(),
    ensures
        final(built).wf(),
        final(probed).wf(),
        final(probed).table() == old(probed).table(),
        final(built).table().dom() == old(built).table().dom().union(keys_of(rows@)),
        kept_beside(old(built).table(), final(built).table(), rows@),
        copies_fed(old(built).table(), old(probed).table(), rows@, out@),
        forall|join: spec_fn(B, B) -> B|
            clones_plainly::<B>() && clones_plainly::<P>() && #[trigger] merges_as::<B>(join) ==> (
            final(built).table(), out@) == lattice_feed(
                old(built).table(),
                old(probed).table(),
                rows@,
                join,
            ),
{
    let mut out: Vec<(u64, B, P)> = Vec::new();
    let ghost mut from: Seq<int> = Seq::empty();
    let mut i: usize = 0;
    assert(old(built).table().dom().union(keys_of(rows@.take(0))) =~= old(built).table().dom());
    while i < rows.len()
        invariant
            i <= rows.len(),
            built.wf(),
            probed.wf(),
            probed.table() == old(probed).table(),
            built.table().dom() == old(built).table().dom().union(keys_of(rows@.take(i as int))),
            kept_beside(old(built).table(), built.table(), rows@.take(i as int)),
            copies_rows(rows@, probed.table(), out@, from),
            forall|a: int| 0 <= a < from.len() ==> #[trigger] from[a] < i,
            forall|j: int|
                0 <= j < i && probed.table().contains_key((#[trigger] rows[j]).0) && !old(
                    built,
                ).table().contains_key(rows[j].0) && !keys_of(rows@.take(j)).contains(rows[j].0)
                    ==> from.contains(j),
            forall|join: spec_fn(B, B) -> B|
                clones_plainly::<B>() && clones_plainly::<P>() && #[trigger] merges_as::<B>(join)
                    ==> (built.table(), out@) == lattice_feed(
                    old(built).table(),
                    old(probed).table(),
                    rows@.take(i as int),
                    join,
                ),
        decreases rows.len() - i,
    {
        let k = rows[i].0;
        let ghost held = built.table();
        let ghost picked = from;
        let changed = built.build(k, &rows[i].1);
        if changed {
            match probed.probe(&k, &rows[i].1) {
                Some(found) => {
                    out.push(found);
                    proof {
                        from = from.push(i as int);
                        assert(from.last() == i);
                    }
                },
                None => {},
            }
        }
        proof {
            assert(rows@.take(i + 1).drop_last() =~= rows@.take(i as int));
            assert(rows@.take(i + 1).last() == rows@[i as int]);
            assert forall|key: u64| keys_of(rows@.take(i + 1)).contains(key) <==> keys_of(
                rows@.take(i as int),
            ).contains(key) || key == k by {
                if keys_of(rows@.take(i as int)).contains(key) {
                    let j = choose|j: int|
                        0 <= j < rows@.take(i as int).len() && (#[trigger] rows@.take(i as int)[j]).0
                            == key;
                    assert(rows@.take(i + 1)[j].0 == key);
                }
                if key == k {
                    assert(rows@.take(i + 1)[i as int].0 == key);
                }
                if keys_of(rows@.take(i + 1)).contains(key) && key != k {
                    let j = choose|j: int|
                        0 <= j < rows@.take(i + 1).len() && (#[trigger] rows@.take(i + 1)[j]).0 == key;
                    assert(rows@.take(i as int)[j].0 == key);
                }
            }
            assert(built.table().dom() =~= old(built).table().dom().union(
                keys_of(rows@.take(i + 1)),
            ));
            assert forall|key: u64|
                old(built).table().contains_key(key) && !keys_of(rows@.take(i + 1)).contains(
                    key,
                ) implies #[trigger] built.table()[key] == old(built).table()[key] by {
                assert(key != k);
                assert(!keys_of(rows@.take(i as int)).contains(key));
                assert(held.contains_key(key));
                assert(held[key] == old(built).table()[key]);
            }
            assert forall|j: int|
                0 <= j < i + 1 && probed.table().contains_key((#[trigger] rows[j]).0) && !old(
                    built,
                ).table().contains_key(rows[j].0) && !keys_of(rows@.take(j)).contains(
                    rows[j].0,
                ) implies from.contains(j) by {
                if j < i {
                    assert(picked.contains(j));
                    let a = choose|a: int| 0 <= a < picked.len() && picked[a] == j;
                    assert(from[a] == j);
                } else {
                    assert(!held.contains_key(k));
                    assert(changed);
                    assert(from[from.len() - 1] == j);
                }
            }
        }
        i += 1;
    }
    assert(rows@.take(rows.len() as int) =~= rows@);
    out
}

impl<L: Merge<L> + Clone, R: Merge<R> + Clone> SymmetricLatticeJoin<L, R> {
    /// The invariant of a join between runs.
    pub closed spec fn wf(&self) -> bool {
        self.lhs_state.wf() && self.rhs_state.wf()
    }

    /// A join that has seen no row and has not run.
    pub fn new(lhs_persistence: Persistence, rhs_persistence: Persistence) -> (join: Self)
        ensures
            join.wf(),
            join@ == (LatticeJoinView {
                lhs: Map::<u64, L>::empty(),
                rhs: Map::<u64, R>::empty(),
                lhs_persistence,
                rhs_persistence,
                last_tick: None,
            }),
    {
        SymmetricLatticeJoin {
            lhs_state: HalfJoinStateLattice::new(),
            rhs_state: HalfJoinStateLattice::new(),
            lhs_persistence,
            rhs_persistence,
            last_tick: None,
        }
    }

    /// One run of the join in tick `current_tick`, fed the rows `lhs` on the
    /// left and `rhs` on the right. Returns the output rows
    /// `(key, (left value, right value))`.
    ///
    /// On the first run of a new tick, a side that remembers for a tick only
    /// is cleared first, and every key that both sides still hold is put out
    /// with the two values. Then each left row is built and, if it changed the
    /// left table, is put out with the right value of its key; then each right
    /// row likewise.
    ///
    /// For every lattice the keys of both tables are stated, and of each
    /// output the row or table entry that its values are copies of. For
    /// lattices whose `clone` gives the value cloned and whose merge computes
    /// a function, the tables and the output are stated exactly.
    pub fn run(&mut self, current_tick: usize, lhs: &Vec<(u64, L)>, rhs: &Vec<(u64, R)>) -> (out: Vec<
        (u64, (L, R)),
    >)
        requires
            old(self).wf(),
        ensures
            final(self).wf(),
            final(self)@.lhs_persistence == old(self)@.lhs_persistence,
            final(self)@.rhs_persistence == old(self)@.rhs_persistence,
            final(self)@.last_tick == old(self)@.tick_after(current_tick),
            final(self)@.lhs.dom() == old(self)@.kept_lhs(current_tick).dom().union(keys_of(lhs@)),
            final(self)@.rhs.dom() == old(self)@.kept_rhs(current_tick).dom().union(keys_of(rhs@)),
            kept_beside(old(self)@.kept_lhs(current_tick), final(self)@.lhs, lhs@),
            kept_beside(old(self)@.kept_rhs(current_tick), final(self)@.rhs, rhs@),
            exists|replayed: Seq<(u64, (L, R))>, left: Seq<(u64, L, R)>, right: Seq<(u64, R, L)>|
                {
                    let kept_lhs = old(self)@.kept_lhs(current_tick);
                    let kept_rhs = old(self)@.kept_rhs(current_tick);
                    &&& if old(self)@.is_new_tick(current_tick) {
                        copies_all(kept_lhs, kept_rhs, replayed)
                    } else {
                        replayed.len() == 0
                    }
                    &&& copies_fed(kept_lhs, kept_rhs, lhs@, left)
                    &&& copies_fed(kept_rhs, final(self)@.lhs, rhs@, right)
                    &&& out@ == #[trigger] run_output(replayed, left, right)
                },
            forall|join_l: spec_fn(L, L) -> L, join_r: spec_fn(R, R) -> R|
                clones_plainly::<L>() && clones_plainly::<R>() && #[trigger] merges_as::<L>(join_l)
                    && #[trigger] merges_as::<R>(join_r) ==> {
                    let kept_lhs = old(self)@.kept_lhs(current_tick);
                    let kept_rhs = old(self)@.kept_rhs(current_tick);
                    let left = lattice_feed(kept_lhs, kept_rhs, lhs@, join_l);
                    let right = lattice_feed(kept_rhs, left.0, rhs@, join_r);
                    &&& final(self)@.lhs == left.0
                    &&& final(self)@.rhs == right.0
                    &&& exists|replayed: Seq<(u64, (L, R))>|
                        {
                            &&& if old(self)@.is_new_tick(current_tick) {
                                matches_all(kept_lhs, kept_rhs, replayed)
                            } else {
                                replayed.len() == 0
                            }
                            &&& #[trigger] out@ == replayed + from_left(left.1) + from_right(right.1)
                        }
                },
    {
        let new_tick = match self.last_tick {
            None => true,
            Some(last) => last < current_tick,
        };
        if new_tick {
            match self.lhs_persistence {
                Persistence::Tick => {
                    self.lhs_state.clear();
                },
                Persistence::Static => {},
            }
            match self.rhs_persistence {
                Persistence::Tick => {
                    self.rhs_state.clear();
                },
                Persistence::Static => {},
            }
            self.last_tick = Some(current_tick);
        }
        let ghost kept_lhs = self.lhs_state.table();
        let ghost kept_rhs = self.rhs_state.table();

        let mut out: Vec<(u64, (L, R))> = Vec::new();
        if new_tick {
            if self.lhs_state.len() <= self.rhs_state.len() {
                let held = self.lhs_state.iter();
                let mut i: usize = 0;
                while i < held.len()
                    invariant
                        i <= held.len(),
                        self.wf(),
                        self.lhs_state.table() == kept_lhs,
                        self.rhs_state.table() == kept_rhs,
                        self.lhs_persistence == old(self).lhs_persistence,
                        self.rhs_persistence == old(self).rhs_persistence,
                        self.last_tick == Some(current_tick),
                        forall|a: int, b: int|
                            0 <= a < held.len() && 0 <= b < held.len() && a != b ==> (
                            #[trigger] held[a]).0 != (#[trigger] held[b]).0,
                        forall|a: int|
                            0 <= a < held.len() ==> kept_lhs.contains_key((#[trigger] held[a]).0)
                                && cloned(kept_lhs[held[a].0], held[a].1),
                        forall|a: int|
                            0 <= a < out.len() ==> exists|b: int|
                                0 <= b < i && held[b].0 == (#[trigger] out[a]).0,
                        forall|a: int, b: int|
                            0 <= a < out.len() && 0 <= b < out.len() && a != b ==> (
                            #[trigger] out[a]).0 != (#[trigger] out[b]).0,
                        forall|b: int|
                            0 <= b < i && kept_rhs.contains_key((#[trigger] held[b]).0) ==> exists|
                                a: int,
                            | 0 <= a < out.len() && (#[trigger] out[a]).0 == held[b].0,
                        forall|a: int|
                            0 <= a < out.len() ==> {
                                &&& kept_lhs.contains_key((#[trigger] out[a]).0)
                                &&& kept_rhs.contains_key(out[a].0)
                                &&& copied(kept_lhs[out[a].0], out[a].1.0)
                                &&& copied(kept_rhs[out[a].0], out[a].1.1)
                            },
                        clones_plainly::<L>() && clones_plainly::<R>() ==> forall|a: int|
                            0 <= a < out.len() ==> {
                                &&& kept_lhs.contains_key((#[trigger] out[a]).0)
                                &&& kept_rhs.contains_key(out[a].0)
                                &&& out[a].1 == (kept_lhs[out[a].0], kept_rhs[out[a].0])
                            },
                    decreases held.len() - i,
                {
                    let ghost before = out@;
                    match self.rhs_state.probe(&held[i].0, &held[i].1) {
                        Some((k, a, b)) => {
                            out.push((k, (a, b)));
                            proof {
                                assert(cloned(kept_lhs[k], held[i as int].1) && cloned(
                                    held[i as int].1,
                                    a,
                                ));
                                assert(copied(kept_lhs[k], a) && copied(kept_rhs[k], b));
                                assert forall|x: int, y: int|
                                    0 <= x < out.len() && 0 <= y < out.len() && x != y implies (
                                #[trigger] out[x]).0 != (#[trigger] out[y]).0 by {
                                    if x < before.len() && y < before.len() {
                                        assert(before[x].0 != before[y].0);
                                    } else {
                                        let low = if x < before.len() {
                                            x
                                        } else {
                                            y
                                        };
                                        let w = choose|w: int| 0 <= w < i && held[w].0 == before[low].0;
                                        assert(held[w].0 != held[i as int].0);
                                    }
                                }
                                assert forall|x: int| 0 <= x < out.len() implies exists|w: int|
                                    0 <= w < i + 1 && held[w].0 == (#[trigger] out[x]).0 by {
                                    if x < before.len() {
                                        let w = choose|w: int| 0 <= w < i && held[w].0 == before[x].0;
                                        assert(held[w].0 == out[x].0);
                                    } else {
                                        assert(held[i as int].0 == out[x].0);
                                    }
                                }
                                assert forall|w: int|
                                    0 <= w < i + 1 && kept_rhs.contains_key(
                                        (#[trigger] held[w]).0,
                                    ) implies exists|x: int|
                                    0 <= x < out.len() && (#[trigger] out[x]).0 == held[w].0 by {
                                    if w < i {
                                        let x = choose|x: int|
                                            0 <= x < before.len() && (#[trigger] before[x]).0
                                                == held[w].0;
                                        assert(out[x].0 == held[w].0);
                                    } else {
                                        assert(out[before.len() as int].0 == held[w].0);
                                    }
                                }
                            }
                        },
                        None => {
                            proof {
                                assert forall|x: int| 0 <= x < out.len() implies exists|w: int|
                                    0 <= w < i + 1 && held[w].0 == (#[trigger] out[x]).0 by {
                                    let w = choose|w: int| 0 <= w < i && held[w].0 == out[x].0;
                                    assert(held[w].0 == out[x].0);
                                }
                            }
                        },
                    }
                    i += 1;
                }
                proof {
                    assert forall|k: u64|
                        kept_lhs.contains_key(k) && #[trigger] kept_rhs.contains_key(
                            k,
                        ) implies exists|x: int| 0 <= x < out.len() && (#[trigger] out[x]).0 == k by {
                        let w = choose|w: int| 0 <= w < held.len() && (#[trigger] held[w]).0 == k;
                        assert(kept_rhs.contains_key(held[w].0));
                    }
                    assert(copies_all(kept_lhs, kept_rhs, out@));
                    if clones_plainly::<L>() && clones_plainly::<R>() {
                        assert(matches_all(kept_lhs, kept_rhs, out@));
                    }
                }
            } else {
                let held = self.rhs_state.iter();
                let mut i: usize = 0;
                while i < held.len()
                    invariant
                        i <= held.len(),
                        self.wf(),
                        self.lhs_state.table() == kept_lhs,
                        self.rhs_state.table() == kept_rhs,
                        self.lhs_persistence == old(self).lhs_persistence,
                        self.rhs_persistence == old(self).rhs_persistence,
                        self.last_tick == Some(current_tick),
                        forall|a: int, b: int|
                            0 <= a < held.len() && 0 <= b < held.len() && a != b ==> (
                            #[trigger] held[a]).0 != (#[trigger] held[b]).0,
                        forall|a: int|
                            0 <= a < held.len() ==> kept_rhs.contains_key((#[trigger] held[a]).0)
                                && cloned(kept_rhs[held[a].0], held[a].1),
                        forall|a: int|
                            0 <= a < out.len() ==> exists|b: int|
                                0 <= b < i && held[b].0 == (#[trigger] out[a]).0,
                        forall|a: int, b: int|
                            0 <= a < out.len() && 0 <= b < out.len() && a != b ==> (
                            #[trigger] out[a]).0 != (#[trigger] out[b]).0,
                        forall|b: int|
                            0 <= b < i && kept_lhs.contains_key((#[trigger] held[b]).0) ==> exists|
                                a: int,
                            | 0 <= a < out.len() && (#[trigger] out[a]).0 == held[b].0,
                        forall|a: int|
                            0 <= a < out.len() ==> {
                                &&& kept_lhs.contains_key((#[trigger] out[a]).0)
                                &&& kept_rhs.contains_key(out[a].0)
                                &&& copied(kept_lhs[out[a].0], out[a].1.0)
                                &&& copied(kept_rhs[out[a].0], out[a].1.1)
                            },
                        clones_plainly::<L>() && clones_plainly::<R>() ==> forall|a: int|
                            0 <= a < out.len() ==> {
                                &&& kept_lhs.contains_key((#[trigger] out[a]).0)
                                &&& kept_rhs.contains_key(out[a].0)
                                &&& out[a].1 == (kept_lhs[out[a].0], kept_rhs[out[a].0])
                            },
                    decreases held.len() - i,
                {
                    let ghost before = out@;
                    match self.lhs_state.probe(&held[i].0, &held[i].1) {
                        Some((k, b, a)) => {
                            out.push((k, (a, b)));
                            proof {
                                assert(cloned(kept_rhs[k], held[i as int].1) && cloned(
                                    held[i as int].1,
                                    b,
                                ));
                                assert(copied(kept_lhs[k], a) && copied(kept_rhs[k], b));
                                assert forall|x: int, y: int|
                                    0 <= x < out.len() && 0 <= y < out.len() && x != y implies (
                                #[trigger] out[x]).0 != (#[trigger] out[y]).0 by {
                                    if x < before.len() && y < before.len() {
                                        assert(before[x].0 != before[y].0);
                                    } else {
                                        let low = if x < before.len() {
                                            x
                                        } else {
                                            y
                                        };
                                        let w = choose|w: int| 0 <= w < i && held[w].0 == before[low].0;
                                        assert(held[w].0 != held[i as int].0);
                                    }
                                }
                                assert forall|x: int| 0 <= x < out.len() implies exists|w: int|
                                    0 <= w < i + 1 && held[w].0 == (#[trigger] out[x]).0 by {
                                    if x < before.len() {
                                        let w = choose|w: int| 0 <= w < i && held[w].0 == before[x].0;
                                        assert(held[w].0 == out[x].0);
                                    } else {
                                        assert(held[i as int].0 == out[x].0);
                                    }
                                }
                                assert forall|w: int|
                                    0 <= w < i + 1 && kept_lhs.contains_key(
                                        (#[trigger] held[w]).0,
                                    ) implies exists|x: int|
                                    0 <= x < out.len() && (#[trigger] out[x]).0 == held[w].0 by {
                                    if w < i {
                                        let x = choose|x: int|
                                            0 <= x < before.len() && (#[trigger] before[x]).0
                                                == held[w].0;
                                        assert(out[x].0 == held[w].0);
                                    } else {
                                        assert(out[before.len() as int].0 == held[w].0);
                                    }
                                }
                            }
                        },
                        None => {
                            proof {
                                assert forall|x: int| 0 <= x < out.len() implies exists|w: int|
                                    0 <= w < i + 1 && held[w].0 == (#[trigger] out[x]).0 by {
                                    let w = choose|w: int| 0 <= w < i && held[w].0 == out[x].0;
                                    assert(held[w].0 == out[x].0);
                                }
                            }
                        },
                    }
                    i += 1;
                }
                proof {
                    assert forall|k: u64|
                        kept_lhs.contains_key(k) && #[trigger] kept_rhs.contains_key(
                            k,
                        ) implies exists|x: int| 0 <= x < out.len() && (#[trigger] out[x]).0 == k by {
                        let w = choose|w: int| 0 <= w < held.len() && (#[trigger] held[w]).0 == k;
                        assert(kept_lhs.contains_key(held[w].0));
                    }
                    assert(copies_all(kept_lhs, kept_rhs, out@));
                    if clones_plainly::<L>() && clones_plainly::<R>() {
                        assert(matches_all(kept_lhs, kept_rhs, out@));
                    }
                }
            }
        }
        let ghost replayed = out@;
        let from_lhs = feed(&mut self.lhs_state, &mut self.rhs_state, lhs);
        let ghost fed_lhs = from_lhs@;
        let ghost mid_lhs = self.lhs_state.table();
        for found in it: from_lhs
            invariant
                it.seq() == fed_lhs,
                out@ == replayed + from_left(fed_lhs).take(it.index()),
        {
            let (k, a, b) = found;
            out.push((k, (a, b)));
            assert(out@ =~= replayed + from_left(fed_lhs).take(it.index() + 1));
        }
        assert(from_left(fed_lhs).take(fed_lhs.len() as int) =~= from_left(fed_lhs));
        let ghost after_lhs = out@;

        let from_rhs = feed(&mut self.rhs_state, &mut self.lhs_state, rhs);
        let ghost fed_rhs = from_rhs@;
        for found in it: from_rhs
            invariant
                it.seq() == fed_rhs,
                out@ == after_lhs + from_right(fed_rhs).take(it.index()),
        {
            let (k, b, a) = found;
            out.push((k, (a, b)));
            assert(out@ =~= after_lhs + from_right(fed_rhs).take(it.index() + 1));
        }
        assert(from_right(fed_rhs).take(fed_rhs.len() as int) =~= from_right(fed_rhs));
        proof {
            assert(kept_lhs == old(self)@.kept_lhs(current_tick));
            assert(kept_rhs == old(self)@.kept_rhs(current_tick));
            assert(self@.lhs == mid_lhs);
            assert(copies_fed(kept_lhs, kept_rhs, lhs@, fed_lhs));
            assert(copies_fed(kept_rhs, mid_lhs, rhs@, fed_rhs));
            assert(out@ == run_output(replayed, fed_lhs, fed_rhs));
            assert forall|join_l: spec_fn(L, L) -> L, join_r: spec_fn(R, R) -> R|
                clones_plainly::<L>() && clones_plainly::<R>() && #[trigger] merges_as::<L>(join_l)
                    && #[trigger] merges_as::<R>(join_r) implies ({
                let kept_l = old(self)@.kept_lhs(current_tick);
                let kept_r = old(self)@.kept_rhs(current_tick);
                let left = lattice_feed(kept_l, kept_r, lhs@, join_l);
                let right = lattice_feed(kept_r, left.0, rhs@, join_r);
                &&& self@.lhs == left.0
                &&& self@.rhs == right.0
                &&& exists|replay: Seq<(u64, (L, R))>|
                    {
                        &&& if old(self)@.is_new_tick(current_tick) {
                            matches_all(kept_l, kept_r, replay)
                        } else {
                            replay.len() == 0
                        }
                        &&& #[trigger] out@ == replay + from_left(left.1) + from_right(right.1)
                    }
            }) by {
                assert(kept_lhs == old(self)@.kept_lhs(current_tick));
                assert(kept_rhs == old(self)@.kept_rhs(current_tick));
                let left = lattice_feed(kept_lhs, kept_rhs, lhs@, join_l);
                let right = lattice_feed(kept_rhs, left.0, rhs@, join_r);
                assert((mid_lhs, fed_lhs) == left);
                assert((self.rhs_state.table(), fed_rhs) == right);
                assert(out@ == replayed + from_left(left.1) + from_right(right.1));
            }
        }
        out
    }
}

} // verus!
