//! The symmetric hash join: two join tables, one for each input, each built
//! from its own input and probed with the rows of the other.
use vstd::prelude::*;
use crate::compiled::pull::half_join_state::set::{
    in_table, later_matches_of, matches_of, rows, values_of, with_row, HalfSetJoinState,
};

verus! {

/// How long a side of a join remembers its rows.
#[derive(Clone, Copy, Debug, PartialEq, Eq, Structural)]
pub enum Persistence {
    /// The rows of a tick are forgotten when the next tick begins.
    Tick,
    /// Rows are never forgotten.
    Static,
}

/// The output for a row and a value of the other side that share the row's
/// key. The left value comes first; `flipped` says that the row is a row of
/// the right side.
pub open spec fn pair_of(row: (u64, u64), other: u64, flipped: bool) -> (u64, (u64, u64)) {
    if flipped {
        (row.0, (other, row.1))
    } else {
        (row.0, (row.1, other))
    }
}

/// The outputs for `row` and each of the values `built`, in the order of
/// `built`.
pub open spec fn emitted(row: (u64, u64), built: Seq<u64>, flipped: bool) -> Seq<(u64, (u64, u64))> {
    Seq::new(built.len(), |i: int| pair_of(row, built[i], flipped))
}

/// The outputs for the rows of `fed` and the rows of `probed` that share
/// their keys. `flipped` says that `fed` holds rows of the right side.
pub open spec fn pairs(fed: Set<(u64, u64)>, probed: Set<(u64, u64)>, flipped: bool) -> Set<
    (u64, (u64, u64)),
> {
    Set::new(
        |t: (u64, (u64, u64))|
            if flipped {
                fed.contains((t.0, t.1.1)) && probed.contains((t.0, t.1.0))
            } else {
                fed.contains((t.0, t.1.0)) && probed.contains((t.0, t.1.1))
            },
    )
}

/// The equijoin of two sets of rows: every left row with every right row of
/// the same key.
pub open spec fn joined(lhs: Set<(u64, u64)>, rhs: Set<(u64, u64)>) -> Set<(u64, (u64, u64))> {
    pairs(lhs, rhs, false)
}

/// What probing `probed` with each row of `rows` in turn puts out.
pub open spec fn set_replay(probed: Map<u64, Seq<u64>>, rows: Seq<(u64, u64)>, flipped: bool) -> Seq<
    (u64, (u64, u64)),
>
    decreases rows.len(),
{
    if rows.len() == 0 {
        Seq::empty()
    } else {
        set_replay(probed, rows.drop_last(), flipped) + emitted(
            rows.last(),
            values_of(probed, rows.last().0),
            flipped,
        )
    }
}

/// What feeding `rows` to a side does, row after row: the table of the side
/// afterwards, and what the rows that were new to the table put out when they
/// probed the other side.
pub open spec fn set_feed(
    built: Map<u64, Seq<u64>>,
    probed: Map<u64, Seq<u64>>,
    rows: Seq<(u64, u64)>,
    flipped: bool,
) -> (Map<u64, Seq<u64>>, Seq<(u64, (u64, u64))>)
    decreases rows.len(),
{
    if rows.len() == 0 {
        (built, Seq::empty())
    } else {
        let (table, out) = set_feed(built, probed, rows.drop_last(), flipped);
        let row = rows.last();
        if in_table(table, row) {
            (table, out)
        } else {
            (
                with_row(table, row.0, row.1),
                out + emitted(row, values_of(probed, row.0), flipped),
            )
        }
    }
}

/// Probes `probed` with `row` and appends the output for every match to `out`,
/// in the order of the values built. The first match comes from the probe
/// itself, the others from the queue of pending matches, which is empty again
/// at the end.
fn probe_all(
    probed: &mut HalfSetJoinState,
    row: (u64, u64),
    flipped: bool,
    out: &mut Vec<(u64, (u64, u64))>,
)
    requires
        old(probed).wf(),
        old(probed).pending().len() == 0,
    ensures
        final(probed).wf(),
        final(probed).table() == old(probed).table(),
        final(probed).pending().len() == 0,
        final(out)@ == old(out)@ + emitted(row, values_of(old(probed).table(), row.0), flipped),
{
    let (k, v) = row;
    let ghost built = values_of(probed.table(), k);
    let ghost found = matches_of(k, v, built);
    proof {
        probed.lemma_wf();
        assert(probed.pending() =~= Seq::empty());
    }
    let first = probed.probe(&k, &v);
    match first {
        None => {
            assert(out@ + emitted(row, built, flipped) =~= out@);
        },
        Some((_, _, other)) => {
            if flipped {
                out.push((k, (other, v)));
            } else {
                out.push((k, (v, other)));
            }
            let ghost mut n: int = 1;
            assert(built.len() > 0);
            assert(probed.pending() =~= found.skip(1)) by {
                assert(later_matches_of(k, v, built) == found.skip(1));
            }
            assert(out@ =~= old(out)@ + emitted(row, built, flipped).take(1));
            loop
                invariant
                    probed.wf(),
                    probed.table() == old(probed).table(),
                    built == values_of(old(probed).table(), k),
                    found == matches_of(k, v, built),
                    row == (k, v),
                    1 <= n <= built.len(),
                    probed.pending() == found.skip(n),
                    out@ == old(out)@ + emitted(row, built, flipped).take(n),
                ensures
                    probed.wf(),
                    probed.table() == old(probed).table(),
                    probed.pending().len() == 0,
                    out@ == old(out)@ + emitted(row, built, flipped),
                decreases built.len() - n,
            {
                let popped = probed.pop_match();
                match popped {
                    None => {
                        assert(n == built.len());
                        assert(emitted(row, built, flipped).take(n) =~= emitted(
                            row,
                            built,
                            flipped,
                        ));
                        break ;
                    },
                    Some((_, _, other)) => {
                        assert(other == built[n]);
                        if flipped {
                            out.push((k, (other, v)));
                        } else {
                            out.push((k, (v, other)));
                        }
                        proof {
                            assert(probed.pending() =~= found.skip(n + 1));
                            assert(emitted(row, built, flipped).take(n + 1) =~= emitted(
                                row,
                                built,
                                flipped,
                            ).take(n).push(pair_of(row, built[n], flipped)));
                            n = n + 1;
                        }
                    },
                }
            }
        },
    }
}

/// Appending a sequence without repetition to another, where the two share no
/// element, gives a sequence without repetition that holds the elements of
/// both.
pub proof fn lemma_append_disjoint<A>(a: Seq<A>, b: Seq<A>)
    requires
        a.no_duplicates(),
        b.no_duplicates(),
        forall|x: A| a.contains(x) ==> !b.contains(x),
    ensures
        (a + b).no_duplicates(),
        (a + b).to_set() == a.to_set().union(b.to_set()),
{
    let c = a + b;
    assert forall|i: int, j: int| 0 <= i < c.len() && 0 <= j < c.len() && i != j implies c[i]
        != c[j] by {
        let n = a.len() as int;
        if i < n && j < n {
            assert(a[i] != a[j]);
        } else if i < n {
            assert(a.contains(a[i]));
            assert(b.contains(b[j - n]));
        } else if j < n {
            assert(a.contains(a[j]));
            assert(b.contains(b[i - n]));
        } else {
            assert(b[i - n] != b[j - n]);
        }
    }
    assert forall|x: A| c.to_set().contains(x) <==> a.to_set().union(b.to_set()).contains(x) by {
        if c.contains(x) {
            let i = choose|i: int| 0 <= i < c.len() && c[i] == x;
            if i < a.len() {
                assert(a[i] == x);
            } else {
                assert(b[i - a.len()] == x);
            }
        }
        if a.contains(x) {
            let i = choose|i: int| 0 <= i < a.len() && a[i] == x;
            assert(c[i] == x);
        }
        if b.contains(x) {
            let i = choose|i: int| 0 <= i < b.len() && b[i] == x;
            assert(c[a.len() + i] == x);
        }
    }
    assert(c.to_set() =~= a.to_set().union(b.to_set()));
}

/// The outputs for one row are as many as the values built for its key in the
/// probed table, each once.
pub proof fn lemma_emitted(row: (u64, u64), probed: Map<u64, Seq<u64>>, flipped: bool)
    requires
        forall|k: u64| #[trigger] probed.contains_key(k) ==> probed[k].no_duplicates(),
    ensures
        emitted(row, values_of(probed, row.0), flipped).no_duplicates(),
        emitted(row, values_of(probed, row.0), flipped).to_set() == pairs(
            set![row],
            rows(probed),
            flipped,
        ),
{
    let built = values_of(probed, row.0);
    let e = emitted(row, built, flipped);
    assert forall|i: int, j: int| 0 <= i < e.len() && 0 <= j < e.len() && i != j implies e[i]
        != e[j] by {
        assert(built[i] != built[j]);
    }
    assert forall|t: (u64, (u64, u64))| e.to_set().contains(t) <==> pairs(
        set![row],
        rows(probed),
        flipped,
    ).contains(t) by {
        if e.contains(t) {
            let i = choose|i: int| 0 <= i < e.len() && e[i] == t;
            assert(built.contains(built[i]));
        }
        if pairs(set![row], rows(probed), flipped).contains(t) {
            let other = if flipped {
                t.1.0
            } else {
                t.1.1
            };
            assert(in_table(probed, (row.0, other)));
            let i = choose|i: int| 0 <= i < built.len() && built[i] == other;
            assert(e[i] == t);
        }
    }
    assert(e.to_set() =~= pairs(set![row], rows(probed), flipped));
}

/// The rows of a table with a row added are the rows it had and that row.
pub proof fn lemma_rows_with_row(table: Map<u64, Seq<u64>>, k: u64, v: u64)
    ensures
        rows(with_row(table, k, v)) == rows(table).insert((k, v)),
{
    let next = with_row(table, k, v);
    assert forall|row: (u64, u64)| rows(next).contains(row) <==> rows(table).insert(
        (k, v),
    ).contains(row) by {
        if !in_table(table, (k, v)) {
            let prior = values_of(table, k);
            let grown = prior.push(v);
            if row.0 == k {
                if grown.contains(row.1) {
                    let i = choose|i: int| 0 <= i < grown.len() && grown[i] == row.1;
                    if i < prior.len() {
                        assert(prior[i] == row.1);
                    }
                }
                if prior.contains(row.1) {
                    let i = choose|i: int| 0 <= i < prior.len() && prior[i] == row.1;
                    assert(grown[i] == row.1);
                }
                assert(grown[prior.len() as int] == v);
            }
        }
    }
    assert(rows(next) =~= rows(table).insert((k, v)));
}

/// The row of the fed side that an output was made from.
pub open spec fn fed_row(t: (u64, (u64, u64)), flipped: bool) -> (u64, u64) {
    if flipped {
        (t.0, t.1.1)
    } else {
        (t.0, t.1.0)
    }
}

/// Probes `probed` with each row of `input` in turn and appends the outputs
/// to `out`.
fn replay(
    probed: &mut HalfSetJoinState,
    input: &Vec<(u64, u64)>,
    flipped: bool,
    out: &mut Vec<(u64, (u64, u64))>,
)
    requires
        old(probed).wf(),
        old(probed).pending().len() == 0,
        input@.no_duplicates(),
        old(out)@.no_duplicates(),
        forall|t: (u64, (u64, u64))|
            old(out)@.contains(t) ==> !input@.contains(#[trigger] fed_row(t, flipped)),
    ensures
        final(probed).wf(),
        final(probed).table() == old(probed).table(),
        final(probed).pending().len() == 0,
        final(out)@.no_duplicates(),
        final(out)@.to_set() == old(out)@.to_set().union(
            pairs(input@.to_set(), rows(old(probed).table()), flipped),
        ),
        final(out)@ == old(out)@ + set_replay(old(probed).table(), input@, flipped),
{
    let ghost table = probed.table();
    let mut i: usize = 0;
    proof {
        assert(out@.to_set() =~= old(out)@.to_set().union(
            pairs(input@.take(0).to_set(), rows(table), flipped),
        ));
        assert(out@ =~= old(out)@ + set_replay(table, input@.take(0), flipped));
    }
    while i < input.len()
        invariant
            i <= input.len(),
            probed.wf(),
            probed.table() == table,
            probed.pending().len() == 0,
            input@.no_duplicates(),
            out@.no_duplicates(),
            forall|t: (u64, (u64, u64))|
                old(out)@.contains(t) ==> !input@.contains(#[trigger] fed_row(t, flipped)),
            out@.to_set() == old(out)@.to_set().union(
                pairs(input@.take(i as int).to_set(), rows(table), flipped),
            ),
            out@ == old(out)@ + set_replay(table, input@.take(i as int), flipped),
        decreases input.len() - i,
    {
        let row = input[i];
        let ghost before = out@;
        let ghost done = input@.take(i as int);
        probe_all(probed, row, flipped, out);
        proof {
            assert(input@.take(i + 1).drop_last() =~= done);
            assert(input@.take(i + 1).last() == row);
            assert(out@ =~= old(out)@ + set_replay(table, input@.take(i + 1), flipped));
            probed.lemma_wf();
            let added = emitted(row, values_of(table, row.0), flipped);
            lemma_emitted(row, table, flipped);
            assert forall|t: (u64, (u64, u64))| before.contains(t) implies !added.contains(t) by {
                if added.contains(t) {
                    assert(added.to_set().contains(t));
                    assert(fed_row(t, flipped) == row);
                    assert(before.to_set().contains(t));
                    if old(out)@.contains(t) {
                        assert(input@.contains(row));
                    } else {
                        assert(done.contains(row));
                        let j = choose|j: int| 0 <= j < done.len() && done[j] == row;
                        assert(input@[j] == input@[i as int]);
                    }
                }
            }
            lemma_append_disjoint(before, added);
            let more = input@.take(i + 1);
            assert(more =~= done.push(row));
            assert(more.to_set() =~= done.to_set().insert(row)) by {
                assert forall|r: (u64, u64)| more.to_set().contains(r) <==> done.to_set().insert(
                    row,
                ).contains(r) by {
                    if more.contains(r) {
                        let j = choose|j: int| 0 <= j < more.len() && more[j] == r;
                        if j < done.len() {
                            assert(done[j] == r);
                        }
                    }
                    if done.contains(r) {
                        let j = choose|j: int| 0 <= j < done.len() && done[j] == r;
                        assert(more[j] == r);
                    }
                    assert(more[done.len() as int] == row);
                }
            }
            assert(pairs(more.to_set(), rows(table), flipped) =~= pairs(
                done.to_set(),
                rows(table),
                flipped,
            ).union(pairs(set![row], rows(table), flipped)));
            assert(out@.to_set() =~= old(out)@.to_set().union(
                pairs(more.to_set(), rows(table), flipped),
            ));
        }
        i += 1;
    }
    assert(input@.take(input.len() as int) =~= input@);
}

/// The elements of a sequence with one more pushed are those it had and the
/// new one.
pub proof fn lemma_push_to_set<A>(s: Seq<A>, x: A)
    ensures
        s.push(x).to_set() == s.to_set().insert(x),
{
    let more = s.push(x);
    assert forall|r: A| more.to_set().contains(r) <==> s.to_set().insert(x).contains(r) by {
        if more.contains(r) {
            let j = choose|j: int| 0 <= j < more.len() && more[j] == r;
            if j < s.len() {
                assert(s[j] == r);
            }
        }
        if s.contains(r) {
            let j = choose|j: int| 0 <= j < s.len() && s[j] == r;
            assert(more[j] == r);
        }
        assert(more[s.len() as int] == x);
    }
    assert(more.to_set() =~= s.to_set().insert(x));
}

/// Builds each row of `input` in turn into `built`, probes `probed` with
/// each row that was new to `built`, and appends the outputs to `out`.
fn feed(
    built: &mut HalfSetJoinState,
    probed: &mut HalfSetJoinState,
    input: &Vec<(u64, u64)>,
    flipped: bool,
    out: &mut Vec<(u64, (u64, u64))>,
)
    requires
        old(built).wf(),
        old(probed).wf(),
        old(probed).pending().len() == 0,
        old(out)@.no_duplicates(),
        forall|t: (u64, (u64, u64))|
            old(out)@.contains(t) ==> rows(old(built).table()).contains(
                #[trigger] fed_row(t, flipped),
            ),
    ensures
        final(built).wf(),
        final(built).pending() == old(built).pending(),
        final(probed).wf(),
        final(probed).table() == old(probed).table(),
        final(probed).pending().len() == 0,
        rows(final(built).table()) == rows(old(built).table()).union(input@.to_set()),
        final(out)@.no_duplicates(),
        final(out)@.to_set() == old(out)@.to_set().union(
            pairs(
                input@.to_set().difference(rows(old(built).table())),
                rows(old(probed).table()),
                flipped,
            ),
        ),
        final(built).table() == set_feed(
            old(built).table(),
            old(probed).table(),
            input@,
            flipped,
        ).0,
        final(out)@ == old(out)@ + set_feed(
            old(built).table(),
            old(probed).table(),
            input@,
            flipped,
        ).1,
{
    let ghost table = probed.table();
    let ghost had = rows(built.table());
    let ghost start = built.table();
    let mut i: usize = 0;
    proof {
        assert(out@ =~= old(out)@ + set_feed(start, table, input@.take(0), flipped).1);
        assert(input@.take(0).to_set() =~= Set::empty());
        assert(had.union(input@.take(0).to_set()) =~= had);
        assert(out@.to_set() =~= old(out)@.to_set().union(
            pairs(input@.take(0).to_set().difference(had), rows(table), flipped),
        ));
    }
    while i < input.len()
        invariant
            i <= input.len(),
            built.wf(),
            built.pending() == old(built).pending(),
            probed.wf(),
            probed.table() == table,
            probed.pending().len() == 0,
            had == rows(old(built).table()),
            rows(built.table()) == had.union(input@.take(i as int).to_set()),
            out@.no_duplicates(),
            forall|t: (u64, (u64, u64))|
                old(out)@.contains(t) ==> had.contains(#[trigger] fed_row(t, flipped)),
            out@.to_set() == old(out)@.to_set().union(
                pairs(input@.take(i as int).to_set().difference(had), rows(table), flipped),
            ),
            start == old(built).table(),
            built.table() == set_feed(start, table, input@.take(i as int), flipped).0,
            out@ == old(out)@ + set_feed(start, table, input@.take(i as int), flipped).1,
        decreases input.len() - i,
    {
        let row = input[i];
        let ghost before = out@;
        let ghost done = input@.take(i as int);
        let ghost more = input@.take(i + 1);
        let ghost current = built.table();
        let novel = built.build(row.0, &row.1);
        proof {
            assert(more.drop_last() =~= done);
            assert(more.last() == row);
            assert(more =~= done.push(row));
            lemma_push_to_set(done, row);
            lemma_rows_with_row(current, row.0, row.1);
            assert(rows(built.table()) =~= had.union(more.to_set()));
        }
        if novel {
            probe_all(probed, row, flipped, out);
            proof {
                probed.lemma_wf();
                let added = emitted(row, values_of(table, row.0), flipped);
                lemma_emitted(row, table, flipped);
                assert(!rows(current).contains(row));
                assert forall|t: (u64, (u64, u64))| before.contains(t) implies !added.contains(
                    t,
                ) by {
                    if added.contains(t) {
                        assert(added.to_set().contains(t));
                        assert(fed_row(t, flipped) == row);
                        assert(before.to_set().contains(t));
                        if old(out)@.contains(t) {
                            assert(had.contains(fed_row(t, flipped)));
                        } else {
                            assert(done.to_set().contains(row));
                        }
                    }
                }
                lemma_append_disjoint(before, added);
                assert(pairs(more.to_set().difference(had), rows(table), flipped) =~= pairs(
                    done.to_set().difference(had),
                    rows(table),
                    flipped,
                ).union(pairs(set![row], rows(table), flipped)));
                assert(out@.to_set() =~= old(out)@.to_set().union(
                    pairs(more.to_set().difference(had), rows(table), flipped),
                ));
                assert(out@ =~= old(out)@ + set_feed(start, table, more, flipped).1);
            }
        } else {
            proof {
                assert(rows(current).contains(row));
                assert(more.to_set().difference(had) =~= done.to_set().difference(had));
            }
        }
        i += 1;
    }
    assert(input@.take(input.len() as int) =~= input@);
}

/// A symmetric hash join as a mathematical object: the rows that each side
/// remembers, how long each side remembers, and the tick of the last run.
pub struct JoinView {
    /// The rows that the left side remembers.
    pub lhs: Set<(u64, u64)>,
    /// The rows that the right side remembers.
    pub rhs: Set<(u64, u64)>,
    /// How long the left side remembers.
    pub lhs_persistence: Persistence,
    /// How long the right side remembers.
    pub rhs_persistence: Persistence,
    /// The tick in which the join last began a tick of its own, if it ever
    /// ran.
    pub last_tick: Option<usize>,
}

impl JoinView {
    /// Whether a run in tick `tick` is the join's first run in a new tick.
    pub open spec fn is_new_tick(self, tick: usize) -> bool {
        match self.last_tick {
            None => true,
            Some(last) => last < tick,
        }
    }

    /// The left rows that a run in tick `tick` starts with: none if the tick
    /// is new and the left side remembers for a tick only.
    pub open spec fn kept_lhs(self, tick: usize) -> Set<(u64, u64)> {
        if self.is_new_tick(tick) && self.lhs_persistence == Persistence::Tick {
            Set::empty()
        } else {
            self.lhs
        }
    }

    /// The right rows that a run in tick `tick` starts with.
    pub open spec fn kept_rhs(self, tick: usize) -> Set<(u64, u64)> {
        if self.is_new_tick(tick) && self.rhs_persistence == Persistence::Tick {
            Set::empty()
        } else {
            self.rhs
        }
    }

    /// The join after a run in tick `tick` that was fed the rows `lhs_in` on
    /// the left and `rhs_in` on the right.
    pub open spec fn run(self, tick: usize, lhs_in: Set<(u64, u64)>, rhs_in: Set<(u64, u64)>) -> Self {
        JoinView {
            lhs: self.kept_lhs(tick).union(lhs_in),
            rhs: self.kept_rhs(tick).union(rhs_in),
            last_tick: if self.is_new_tick(tick) {
                Some(tick)
            } else {
                self.last_tick
            },
            ..self
        }
    }

    /// What such a run puts out. In a new tick: the whole equijoin of what
    /// the two sides hold after the run. Later in a tick: that equijoin without
    /// the pairs of rows that both sides held before the run, which an earlier
    /// run of the tick has put out.
    pub open spec fn output(self, tick: usize, lhs_in: Set<(u64, u64)>, rhs_in: Set<(u64, u64)>) -> Set<
        (u64, (u64, u64)),
    > {
        let after = self.run(tick, lhs_in, rhs_in);
        if self.is_new_tick(tick) {
            joined(after.lhs, after.rhs)
        } else {
            joined(after.lhs, after.rhs).difference(joined(self.lhs, self.rhs))
        }
    }

    /// Whether a run of the join asks to be scheduled again: when both sides
    /// never forget, so that the next tick puts out the whole join again.
    pub open spec fn reschedules(self) -> bool {
        self.lhs_persistence == Persistence::Static && self.rhs_persistence == Persistence::Static
    }
}

/// A symmetric hash join of two inputs of rows `(key, value)`, with set
/// semantics: each side keeps a table of the rows it has seen, a row seen
/// again is dropped, and a new row is matched at once with the rows of the
/// other side that have its key.
pub struct SymmetricHashJoin {
    lhs_state: HalfSetJoinState,
    rhs_state: HalfSetJoinState,
    lhs_persistence: Persistence,
    rhs_persistence: Persistence,
    last_tick: Option<usize>,
}

impl View for SymmetricHashJoin {
    type V = JoinView;

    closed spec fn view(&self) -> JoinView {
        JoinView {
            lhs: rows(self.lhs_state.table()),
            rhs: rows(self.rhs_state.table()),
            lhs_persistence: self.lhs_persistence,
            rhs_persistence: self.rhs_persistence,
            last_tick: self.last_tick,
        }
    }
}

impl SymmetricHashJoin {
    /// The table of the left side: for each key, its values, oldest first.
    pub closed spec fn lhs_table(&self) -> Map<u64, Seq<u64>> {
        self.lhs_state.table()
    }

    /// The table of the right side: for each key, its values, oldest first.
    pub closed spec fn rhs_table(&self) -> Map<u64, Seq<u64>> {
        self.rhs_state.table()
    }

    /// The tables hold the rows of the view.
    pub proof fn lemma_tables(&self)
        ensures
            self@.lhs == rows(self.lhs_table()),
            self@.rhs == rows(self.rhs_table()),
    {
    }

    /// The table of the left side when a run in tick `tick` starts.
    pub open spec fn kept_lhs_table(&self, tick: usize) -> Map<u64, Seq<u64>> {
        if self@.is_new_tick(tick) && self@.lhs_persistence == Persistence::Tick {
            Map::empty()
        } else {
            self.lhs_table()
        }
    }

    /// The table of the right side when a run in tick `tick` starts.
    pub open spec fn kept_rhs_table(&self, tick: usize) -> Map<u64, Seq<u64>> {
        if self@.is_new_tick(tick) && self@.rhs_persistence == Persistence::Tick {
            Map::empty()
        } else {
            self.rhs_table()
        }
    }

    /// Whether `replayed` is what the first run of a new tick puts out before
    /// it takes a row in: the rows of the side with fewer keys, each once and
    /// in some order, probe the table of the other side. The left side goes
    /// where both have as many keys.
    pub open spec fn replays(
        lhs: Map<u64, Seq<u64>>,
        rhs: Map<u64, Seq<u64>>,
        replayed: Seq<(u64, (u64, u64))>,
    ) -> bool {
        exists|held: Seq<(u64, u64)>|
            {
                &&& #[trigger] held.no_duplicates()
                &&& if lhs.dom().len() <= rhs.dom().len() {
                    held.to_set() == rows(lhs) && replayed == set_replay(rhs, held, false)
                } else {
                    held.to_set() == rows(rhs) && replayed == set_replay(lhs, held, true)
                }
            }
    }

    /// The invariant of a join between runs: both tables are well formed and
    /// no match is pending.
    pub closed spec fn wf(&self) -> bool {
        &&& self.lhs_state.wf()
        &&& self.rhs_state.wf()
        &&& self.lhs_state.pending().len() == 0
        &&& self.rhs_state.pending().len() == 0
    }

    /// A join that has seen no row and has not run.
    pub fn new(lhs_persistence: Persistence, rhs_persistence: Persistence) -> (join: Self)
        ensures
            join.wf(),
            join@ == (JoinView {
                lhs: Set::empty(),
                rhs: Set::empty(),
                lhs_persistence,
                rhs_persistence,
                last_tick: None,
            }),
    {
        let join = SymmetricHashJoin {
            lhs_state: HalfSetJoinState::new(),
            rhs_state: HalfSetJoinState::new(),
            lhs_persistence,
            rhs_persistence,
            last_tick: None,
        };
        assert(join@.lhs =~= Set::empty());
        assert(join@.rhs =~= Set::empty());
        join
    }

    /// Whether a subgraph that runs this join asks to be scheduled again after
    /// each run: when both sides never forget.
    pub fn reschedules(&self) -> (again: bool)
        ensures
            again == self@.reschedules(),
    {
        match (self.lhs_persistence, self.rhs_persistence) {
            (Persistence::Static, Persistence::Static) => true,
            _ => false,
        }
    }

    /// One run of the join in tick `current_tick`, fed the rows `lhs` on the
    /// left and `rhs` on the right. Returns the output rows
    /// `(key, (left value, right value))`, none of them twice.
    ///
    /// On the first run of a new tick, a side that remembers for a tick only
    /// is cleared first, and the rows that the two sides still hold are
    /// matched again: the rows of the side with fewer keys probe the table of
    /// the other. Then each left row is built and, if it is new to the left
    /// table, probes the right table; then each right row likewise.
    ///
    /// The output is stated twice: as a set, which is the equijoin, and as the
    /// sequence in which the rows come, which is fixed but for the order in
    /// which the hash table hands out the rows to match again.
    pub fn run(&mut self, current_tick: usize, lhs: &Vec<(u64, u64)>, rhs: &Vec<(u64, u64)>) -> (out:
        Vec<(u64, (u64, u64))>)
        requires
            old(self).wf(),
        ensures
            final(self).wf(),
            final(self)@ == old(self)@.run(current_tick, lhs@.to_set(), rhs@.to_set()),
            out@.no_duplicates(),
            out@.to_set() == old(self)@.output(current_tick, lhs@.to_set(), rhs@.to_set()),
            final(self).lhs_table() == set_feed(
                old(self).kept_lhs_table(current_tick),
                old(self).kept_rhs_table(current_tick),
                lhs@,
                false,
            ).0,
            final(self).rhs_table() == set_feed(
                old(self).kept_rhs_table(current_tick),
                final(self).lhs_table(),
                rhs@,
                true,
            ).0,
            exists|replayed: Seq<(u64, (u64, u64))>|
                {
                    &&& if old(self)@.is_new_tick(current_tick) {
                        Self::replays(
                            old(self).kept_lhs_table(current_tick),
                            old(self).kept_rhs_table(current_tick),
                            replayed,
                        )
                    } else {
                        replayed.len() == 0
                    }
                    &&& #[trigger] out@ == replayed + set_feed(
                        old(self).kept_lhs_table(current_tick),
                        old(self).kept_rhs_table(current_tick),
                        lhs@,
                        false,
                    ).1 + set_feed(
                        old(self).kept_rhs_table(current_tick),
                        final(self).lhs_table(),
                        rhs@,
                        true,
                    ).1
                },
    {
        let new_tick = match self.last_tick {
            None => true,
            Some(last) => last < current_tick,
        };
        if new_tick {
            match self.lhs_persistence {
                Persistence::Tick => {
                    self.lhs_state.clear();
                },
                Persistence::Static => {},
            }
            match self.rhs_persistence {
                Persistence::Tick => {
                    self.rhs_state.clear();
                },
                Persistence::Static => {},
            }
            self.last_tick = Some(current_tick);
        }
        let ghost kept_lhs = rows(self.lhs_state.table());
        let ghost kept_rhs = rows(self.rhs_state.table());
        let ghost lhs_table = self.lhs_state.table();
        let ghost rhs_table = self.rhs_state.table();
        assert(kept_lhs =~= old(self)@.kept_lhs(current_tick));
        assert(kept_rhs =~= old(self)@.kept_rhs(current_tick));
        assert(lhs_table == old(self).kept_lhs_table(current_tick));
        assert(rhs_table == old(self).kept_rhs_table(current_tick));

        let mut out: Vec<(u64, (u64, u64))> = Vec::new();
        if new_tick {
            if self.lhs_state.len() <= self.rhs_state.len() {
                let held = self.lhs_state.iter();
                replay(&mut self.rhs_state, &held, false, &mut out);
                assert(out@ =~= set_replay(rhs_table, held@, false));
            } else {
                let held = self.rhs_state.iter();
                replay(&mut self.lhs_state, &held, true, &mut out);
                assert(out@ =~= set_replay(lhs_table, held@, true));
            }
            assert(out@.to_set() =~= joined(kept_lhs, kept_rhs));
            assert(Self::replays(lhs_table, rhs_table, out@));
        }
        let ghost replayed = out@;
        let ghost base = out@.to_set();
        assert forall|t: (u64, (u64, u64))| out@.contains(t) implies rows(
            self.lhs_state.table(),
        ).contains(#[trigger] fed_row(t, false)) by {
            assert(base.contains(t));
        }
        feed(&mut self.lhs_state, &mut self.rhs_state, lhs, false, &mut out);
        let ghost mid = out@.to_set();
        assert forall|t: (u64, (u64, u64))| out@.contains(t) implies rows(
            self.rhs_state.table(),
        ).contains(#[trigger] fed_row(t, true)) by {
            assert(mid.contains(t));
        }
        let ghost fed_lhs = self.lhs_state.table();
        feed(&mut self.rhs_state, &mut self.lhs_state, rhs, true, &mut out);
        proof {
            assert(out@ == replayed + set_feed(lhs_table, rhs_table, lhs@, false).1 + set_feed(
                rhs_table,
                fed_lhs,
                rhs@,
                true,
            ).1);
            let after = old(self)@.run(current_tick, lhs@.to_set(), rhs@.to_set());
            assert(self@.lhs =~= after.lhs);
            assert(self@.rhs =~= after.rhs);
            assert(out@.to_set() =~= old(self)@.output(current_tick, lhs@.to_set(), rhs@.to_set()));
        }
        out
    }
}

/// One run of a join, as far as its result depends on it: the tick, and the
/// rows fed on each side.
pub struct JoinRun {
    pub tick: usize,
    pub lhs: Set<(u64, u64)>,
    pub rhs: Set<(u64, u64)>,
}

/// The join after the runs of `runs`, one after the other.
pub open spec fn after_runs(start: JoinView, runs: Seq<JoinRun>) -> JoinView
    decreases runs.len(),
{
    if runs.len() == 0 {
        start
    } else {
        after_runs(start, runs.drop_last()).run(runs.last().tick, runs.last().lhs, runs.last().rhs)
    }
}

/// Every row fed on the left in one of `runs`.
pub open spec fn fed_lhs(runs: Seq<JoinRun>) -> Set<(u64, u64)> {
    Set::new(|row: (u64, u64)| exists|i: int| 0 <= i < runs.len() && (#[trigger] runs[i]).lhs.contains(row))
}

/// Every row fed on the right in one of `runs`.
pub open spec fn fed_rhs(runs: Seq<JoinRun>) -> Set<(u64, u64)> {
    Set::new(|row: (u64, u64)| exists|i: int| 0 <= i < runs.len() && (#[trigger] runs[i]).rhs.contains(row))
}

/// A join whose sides never forget holds, after any runs, the rows it began
/// with and every row it was fed.
pub proof fn lemma_static_join_keeps_rows(start: JoinView, runs: Seq<JoinRun>)
    requires
        start.lhs_persistence == Persistence::Static,
        start.rhs_persistence == Persistence::Static,
    ensures
        after_runs(start, runs).lhs == start.lhs.union(fed_lhs(runs)),
        after_runs(start, runs).rhs == start.rhs.union(fed_rhs(runs)),
        after_runs(start, runs).lhs_persistence == Persistence::Static,
        after_runs(start, runs).rhs_persistence == Persistence::Static,
    decreases runs.len(),
{
    if runs.len() == 0 {
        assert(start.lhs.union(fed_lhs(runs)) =~= start.lhs);
        assert(start.rhs.union(fed_rhs(runs)) =~= start.rhs);
    } else {
        let earlier = runs.drop_last();
        lemma_static_join_keeps_rows(start, earlier);
        let last = runs.last();
        assert forall|row: (u64, u64)| fed_lhs(runs).contains(row) <==> fed_lhs(earlier).contains(
            row,
        ) || last.lhs.contains(row) by {
            if fed_lhs(runs).contains(row) {
                let i = choose|i: int| 0 <= i < runs.len() && (#[trigger] runs[i]).lhs.contains(row);
                if i < earlier.len() {
                    assert(earlier[i].lhs.contains(row));
                }
            }
            if fed_lhs(earlier).contains(row) {
                let i = choose|i: int|
                    0 <= i < earlier.len() && (#[trigger] earlier[i]).lhs.contains(row);
                assert(runs[i].lhs.contains(row));
            }
            if last.lhs.contains(row) {
                assert(runs[runs.len() - 1].lhs.contains(row));
            }
        }
        assert forall|row: (u64, u64)| fed_rhs(runs).contains(row) <==> fed_rhs(earlier).contains(
            row,
        ) || last.rhs.contains(row) by {
            if fed_rhs(runs).contains(row) {
                let i = choose|i: int| 0 <= i < runs.len() && (#[trigger] runs[i]).rhs.contains(row);
                if i < earlier.len() {
                    assert(earlier[i].rhs.contains(row));
                }
            }
            if fed_rhs(earlier).contains(row) {
                let i = choose|i: int|
                    0 <= i < earlier.len() && (#[trigger] earlier[i]).rhs.contains(row);
                assert(runs[i].rhs.contains(row));
            }
            if last.rhs.contains(row) {
                assert(runs[runs.len() - 1].rhs.contains(row));
            }
        }
        assert(after_runs(start, runs).lhs =~= start.lhs.union(fed_lhs(runs)));
        assert(after_runs(start, runs).rhs =~= start.rhs.union(fed_rhs(runs)));
    }
}

/// Join completeness. Take a join whose sides never forget, any runs of it
/// in any ticks, and a further run that is the first of a new tick. That run
/// puts out the pair of every left row and every right row of equal keys that
/// the join began with or was ever fed, in whichever run and on whichever
/// side first; and it puts out nothing else. (`run` puts out no pair twice.)
pub proof fn law_static_join_is_complete(
    start: JoinView,
    runs: Seq<JoinRun>,
    tick: usize,
    lhs_in: Set<(u64, u64)>,
    rhs_in: Set<(u64, u64)>,
)
    requires
        start.lhs_persistence == Persistence::Static,
        start.rhs_persistence == Persistence::Static,
        after_runs(start, runs).is_new_tick(tick),
    ensures
        after_runs(start, runs).output(tick, lhs_in, rhs_in) == joined(
            start.lhs.union(fed_lhs(runs)).union(lhs_in),
            start.rhs.union(fed_rhs(runs)).union(rhs_in),
        ),
{
    lemma_static_join_keeps_rows(start, runs);
}

/// Within a tick no pair is put out twice: a later run of the same tick puts
/// out none of the pairs that the run before it did.
pub proof fn law_join_repeats_nothing_within_a_tick(
    before: JoinView,
    tick: usize,
    lhs_first: Set<(u64, u64)>,
    rhs_first: Set<(u64, u64)>,
    lhs_second: Set<(u64, u64)>,
    rhs_second: Set<(u64, u64)>,
)
    requires
        before.last_tick is Some ==> before.last_tick->0 <= tick,
    ensures
        before.output(tick, lhs_first, rhs_first).disjoint(
            before.run(tick, lhs_first, rhs_first).output(tick, lhs_second, rhs_second),
        ),
{
    let mid = before.run(tick, lhs_first, rhs_first);
    assert(!mid.is_new_tick(tick));
    assert(before.output(tick, lhs_first, rhs_first).subset_of(joined(mid.lhs, mid.rhs)));
}

/// Tick scoping. In the first run of a new tick, a join whose sides remember
/// for a tick only matches the rows it is fed in that run with each other and
/// with nothing else: whatever it held from earlier ticks is gone.
pub proof fn law_tick_join_forgets(
    before: JoinView,
    tick: usize,
    lhs_in: Set<(u64, u64)>,
    rhs_in: Set<(u64, u64)>,
)
    requires
        before.lhs_persistence == Persistence::Tick,
        before.rhs_persistence == Persistence::Tick,
        before.is_new_tick(tick),
    ensures
        before.run(tick, lhs_in, rhs_in).lhs == lhs_in,
        before.run(tick, lhs_in, rhs_in).rhs == rhs_in,
        before.output(tick, lhs_in, rhs_in) == joined(lhs_in, rhs_in),
{
    assert(before.run(tick, lhs_in, rhs_in).lhs =~= lhs_in);
    assert(before.run(tick, lhs_in, rhs_in).rhs =~= rhs_in);
}

/// Every row fed on the left in a run of `runs` that took place in `tick`.
pub open spec fn fed_lhs_in(runs: Seq<JoinRun>, tick: usize) -> Set<(u64, u64)> {
    Set::new(
        |row: (u64, u64)|
            exists|i: int|
                0 <= i < runs.len() && (#[trigger] runs[i]).tick == tick && runs[i].lhs.contains(row),
    )
}

/// Every row fed on the right in a run of `runs` that took place in `tick`.
pub open spec fn fed_rhs_in(runs: Seq<JoinRun>, tick: usize) -> Set<(u64, u64)> {
    Set::new(
        |row: (u64, u64)|
            exists|i: int|
                0 <= i < runs.len() && (#[trigger] runs[i]).tick == tick && runs[i].rhs.contains(row),
    )
}

/// Whether the ticks of `runs` never go back.
pub open spec fn in_time_order(runs: Seq<JoinRun>) -> bool {
    forall|i: int, j: int| 0 <= i <= j < runs.len() ==> (#[trigger] runs[i]).tick <= (#[trigger] runs[j]).tick
}

/// Tick scoping, over any history. A join that began empty and whose sides
/// remember for a tick only holds, after runs in ticks that never go back,
/// exactly the rows that it was fed in the tick of the last run: the rows of
/// every earlier tick are absent from it, and so from every match.
pub proof fn law_tick_join_holds_one_tick(
    lhs_persistence: Persistence,
    rhs_persistence: Persistence,
    runs: Seq<JoinRun>,
)
    requires
        lhs_persistence == Persistence::Tick,
        rhs_persistence == Persistence::Tick,
        runs.len() > 0,
        in_time_order(runs),
    ensures
        after_runs(
            JoinView {
                lhs: Set::empty(),
                rhs: Set::empty(),
                lhs_persistence,
                rhs_persistence,
                last_tick: None,
            },
            runs,
        ).lhs == fed_lhs_in(runs, runs.last().tick),
        after_runs(
            JoinView {
                lhs: Set::empty(),
                rhs: Set::empty(),
                lhs_persistence,
                rhs_persistence,
                last_tick: None,
            },
            runs,
        ).rhs == fed_rhs_in(runs, runs.last().tick),
        after_runs(
            JoinView {
                lhs: Set::empty(),
                rhs: Set::empty(),
                lhs_persistence,
                rhs_persistence,
                last_tick: None,
            },
            runs,
        ).last_tick == Some(runs.last().tick),
    decreases runs.len(),
{
    let start = JoinView {
        lhs: Set::empty(),
        rhs: Set::empty(),
        lhs_persistence,
        rhs_persistence,
        last_tick: None,
    };
    let earlier = runs.drop_last();
    let last = runs.last();
    let before = after_runs(start, earlier);
    let after = after_runs(start, runs);
    lemma_persistence_is_kept(start, earlier);
    if earlier.len() > 0 {
        assert forall|i: int, j: int| 0 <= i <= j < earlier.len() implies (#[trigger] earlier[i]).tick
            <= (#[trigger] earlier[j]).tick by {
            assert(runs[i].tick <= runs[j].tick);
        }
        law_tick_join_holds_one_tick(lhs_persistence, rhs_persistence, earlier);
        assert(earlier.last() == runs[runs.len() - 2]);
        assert(runs[runs.len() - 2].tick <= runs[runs.len() - 1].tick);
    }
    assert forall|row: (u64, u64)| after.lhs.contains(row) <==> fed_lhs_in(runs, last.tick).contains(
        row,
    ) by {
        if fed_lhs_in(runs, last.tick).contains(row) {
            let i = choose|i: int|
                0 <= i < runs.len() && (#[trigger] runs[i]).tick == last.tick && runs[i].lhs.contains(
                    row,
                );
            if i < earlier.len() {
                assert(earlier[i].tick == last.tick && earlier[i].lhs.contains(row));
                assert(runs[i].tick <= runs[runs.len() - 2].tick);
                assert(fed_lhs_in(earlier, earlier.last().tick).contains(row));
            }
        }
        if after.lhs.contains(row) {
            if last.lhs.contains(row) {
                assert(runs[runs.len() - 1].tick == last.tick && runs[runs.len() - 1].lhs.contains(
                    row,
                ));
            } else {
                assert(before.lhs.contains(row));
                let i = choose|i: int|
                    0 <= i < earlier.len() && (#[trigger] earlier[i]).tick == earlier.last().tick
                        && earlier[i].lhs.contains(row);
                assert(runs[i].tick == last.tick && runs[i].lhs.contains(row));
            }
        }
    }
    assert forall|row: (u64, u64)| after.rhs.contains(row) <==> fed_rhs_in(runs, last.tick).contains(
        row,
    ) by {
        if fed_rhs_in(runs, last.tick).contains(row) {
            let i = choose|i: int|
                0 <= i < runs.len() && (#[trigger] runs[i]).tick == last.tick && runs[i].rhs.contains(
                    row,
                );
            if i < earlier.len() {
                assert(earlier[i].tick == last.tick && earlier[i].rhs.contains(row));
                assert(runs[i].tick <= runs[runs.len() - 2].tick);
                assert(fed_rhs_in(earlier, earlier.last().tick).contains(row));
            }
        }
        if after.rhs.contains(row) {
            if last.rhs.contains(row) {
                assert(runs[runs.len() - 1].tick == last.tick && runs[runs.len() - 1].rhs.contains(
                    row,
                ));
            } else {
                assert(before.rhs.contains(row));
                let i = choose|i: int|
                    0 <= i < earlier.len() && (#[trigger] earlier[i]).tick == earlier.last().tick
                        && earlier[i].rhs.contains(row);
                assert(runs[i].tick == last.tick && runs[i].rhs.contains(row));
            }
        }
    }
    assert(after.lhs =~= fed_lhs_in(runs, last.tick));
    assert(after.rhs =~= fed_rhs_in(runs, last.tick));
}

/// Runs do not change how long the sides of a join remember.
pub proof fn lemma_persistence_is_kept(start: JoinView, runs: Seq<JoinRun>)
    ensures
        after_runs(start, runs).lhs_persistence == start.lhs_persistence,
        after_runs(start, runs).rhs_persistence == start.rhs_persistence,
    decreases runs.len(),
{
    if runs.len() > 0 {
        lemma_persistence_is_kept(start, runs.drop_last());
    }
}

} // verus!
