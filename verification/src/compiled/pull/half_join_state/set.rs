//! The join table with set semantics.
use vstd::prelude::*;
use std::collections::hash_map::Entry;
use std::collections::HashMap;
use std::collections::VecDeque;
use std::hash::BuildHasherDefault;
use rustc_hash::FxHasher;
use vstd::std_specs::hash::builds_valid_hashers;
use crate::util::fx::new_table;
use crate::compiled::pull::half_join_state::bucket::{
    bucket_contains, bucket_get, bucket_len, bucket_of, bucket_push, bucket_values, Bucket,
};

verus! {

/// Whether `row` is a key with one of the values built for it.
pub open spec fn in_table(table: Map<u64, Seq<u64>>, row: (u64, u64)) -> bool {
    table.contains_key(row.0) && table[row.0].contains(row.1)
}

/// The rows of a table: every key with each of the values built for it.
pub open spec fn rows(table: Map<u64, Seq<u64>>) -> Set<(u64, u64)> {
    Set::new(|row: (u64, u64)| in_table(table, row))
}

/// The values built for `k`, oldest first; none if `k` is no key of the table.
pub open spec fn values_of(table: Map<u64, Seq<u64>>, k: u64) -> Seq<u64> {
    if table.contains_key(k) {
        table[k]
    } else {
        Seq::empty()
    }
}

/// The rows of the key `k`, oldest value first.
pub open spec fn rows_of_key(table: Map<u64, Seq<u64>>, k: u64) -> Seq<(u64, u64)> {
    Seq::new(values_of(table, k).len(), |m: int| (k, values_of(table, k)[m]))
}

/// The rows of the keys of `keys` in turn, the rows of one key together and
/// oldest value first.
pub open spec fn rows_in_order(table: Map<u64, Seq<u64>>, keys: Seq<u64>) -> Seq<(u64, u64)>
    decreases keys.len(),
{
    if keys.len() == 0 {
        Seq::empty()
    } else {
        rows_in_order(table, keys.drop_last()) + rows_of_key(table, keys.last())
    }
}

/// The table with the row `(k, v)` added, behind the values that `k` has,
/// unless the table holds the row.
pub open spec fn with_row(table: Map<u64, Seq<u64>>, k: u64, v: u64) -> Map<u64, Seq<u64>> {
    if in_table(table, (k, v)) {
        table
    } else {
        table.insert(k, values_of(table, k).push(v))
    }
}

/// The matches of a probe with `(k, v)` against the values `built`, in the
/// order of `built`.
pub open spec fn matches_of(k: u64, v: u64, built: Seq<u64>) -> Seq<(u64, u64, u64)> {
    Seq::new(built.len(), |i: int| (k, v, built[i]))
}

/// The matches of a probe with `(k, v)` against the values `built` but for the
/// first, in the order of `built`.
pub open spec fn later_matches_of(k: u64, v: u64, built: Seq<u64>) -> Seq<(u64, u64, u64)> {
    if built.len() == 0 {
        Seq::empty()
    } else {
        matches_of(k, v, built).skip(1)
    }
}

/// One side of a symmetric hash join with set semantics: the rows built so
/// far on this side, as a table from each key to its values without
/// repetition, and the matches of the last probe that were not handed out yet.
pub struct HalfSetJoinState {
    /// Table to probe: for each key, the values built for it.
    table: HashMap<u64, Bucket, BuildHasherDefault<FxHasher>>,
    /// The matches found and not handed out yet, oldest first.
    current_matches: VecDeque<(u64, u64, u64)>,
}

impl Default for HalfSetJoinState {
    /// A side with no rows and no matches.
    fn default() -> (state: Self)
        ensures
            state.wf(),
            state.table() == Map::<u64, Seq<u64>>::empty(),
            state.pending() == Seq::<(u64, u64, u64)>::empty(),
    {
        HalfSetJoinState::new()
    }
}

impl HalfSetJoinState {
    /// The table: for each key, the values built for it, oldest first.
    pub closed spec fn table(&self) -> Map<u64, Seq<u64>> {
        Map::new(|k: u64| self.table@.contains_key(k), |k: u64| bucket_values(self.table@[k]))
    }

    /// The matches found and not handed out yet, oldest first, each as
    /// `(key, probing value, built value)`.
    pub closed spec fn pending(&self) -> Seq<(u64, u64, u64)> {
        self.current_matches@
    }

    /// The invariant of a table: every key has at least one value, and no key
    /// has a value twice.
    pub closed spec fn wf(&self) -> bool {
        &&& builds_valid_hashers::<BuildHasherDefault<FxHasher>>()
        &&& self.table@.dom().finite()
        &&& forall|k: u64| #[trigger]
            self.table@.contains_key(k) ==> bucket_values(self.table@[k]).len() > 0
                && bucket_values(self.table@[k]).no_duplicates()
    }

    /// What the invariant says of the table.
    pub proof fn lemma_wf(&self)
        requires
            self.wf(),
        ensures
            self.table().dom().finite(),
            forall|k: u64| #[trigger]
                self.table().contains_key(k) ==> self.table()[k].len() > 0
                    && self.table()[k].no_duplicates(),
    {
        assert(self.table().dom() =~= self.table@.dom());
    }

    /// A side with no rows and no matches.
    pub fn new() -> (state: Self)
        ensures
            state.wf(),
            state.table() == Map::<u64, Seq<u64>>::empty(),
            state.pending() == Seq::<(u64, u64, u64)>::empty(),
    {
        let state = HalfSetJoinState { table: new_table(), current_matches: VecDeque::new() };
        assert(state.table() =~= Map::<u64, Seq<u64>>::empty());
        state
    }

    /// Forgets every row and every match.
    pub fn clear(&mut self)
        requires
            old(self).wf(),
        ensures
            final(self).wf(),
            final(self).table() == Map::<u64, Seq<u64>>::empty(),
            final(self).pending() == Seq::<(u64, u64, u64)>::empty(),
    {
        self.table.clear();
        self.current_matches.clear();
        assert(self.table() =~= Map::<u64, Seq<u64>>::empty());
    }

    /// Adds the row `(k, v)` unless the table holds it. Returns whether the
    /// row was new; the caller then probes the other side with it. A new
    /// value goes behind the values that `k` has.
    pub fn build(&mut self, k: u64, v: &u64) -> (novel: bool)
        requires
            old(self).wf(),
        ensures
            final(self).wf(),
            novel == !in_table(old(self).table(), (k, *v)),
            final(self).table() == with_row(old(self).table(), k, *v),
            final(self).pending() == old(self).pending(),
    {
        broadcast use vstd::std_specs::hash::group_hash_axioms;

        let entry = self.table.entry(k);
        let novel;
        match entry {
            Entry::Occupied(mut e) => {
                let vec = e.get_mut();
                if !bucket_contains(vec, v) {
                    bucket_push(vec, *v);
                    novel = true;
                } else {
                    novel = false;
                }
            },
            Entry::Vacant(e) => {
                e.insert(bucket_of(*v));
                novel = true;
            },
        }
        proof {
            let goal = if novel {
                old(self).table().insert(k, values_of(old(self).table(), k).push(*v))
            } else {
                old(self).table()
            };
            if novel {
                let bucket = bucket_values(self.table@[k]);
                assert(bucket == values_of(old(self).table(), k).push(*v));
                assert(bucket.no_duplicates()) by {
                    let prior = values_of(old(self).table(), k);
                    assert forall|i: int, j: int|
                        0 <= i < bucket.len() && 0 <= j < bucket.len() && i != j implies bucket[i]
                        != bucket[j] by {
                        if i < prior.len() && j < prior.len() {
                            assert(prior[i] != prior[j]);
                        } else if i < prior.len() {
                            assert(prior.contains(prior[i]));
                        } else {
                            assert(prior.contains(prior[j]));
                        }
                    }
                }
            }
            assert(self.table() =~= goal);
        }
        novel
    }

    /// Looks `k` up. Where the table has values for it, pairs `v` with each of
    /// them: the pair with the oldest value is returned, the others are queued
    /// behind the matches already pending, oldest value first. Where it has
    /// none, returns `None` and queues nothing.
    pub fn probe(&mut self, k: &u64, v: &u64) -> (first: Option<(u64, u64, u64)>)
        requires
            old(self).wf(),
        ensures
            final(self).wf(),
            final(self).table() == old(self).table(),
            first == (if old(self).table().contains_key(*k) {
                Some((*k, *v, old(self).table()[*k][0]))
            } else {
                None
            }),
            final(self).pending() == old(self).pending() + later_matches_of(
                *k,
                *v,
                values_of(old(self).table(), *k),
            ),
    {
        broadcast use vstd::std_specs::hash::group_hash_axioms;

        let ghost built = values_of(self.table(), *k);
        let found = self.table.get(k);
        match found {
            None => {
                assert(self.pending() + Seq::<(u64, u64, u64)>::empty() =~= self.pending());
                None
            },
            Some(bucket) => {
                assert(built == bucket_values(*bucket));
                let len = bucket_len(bucket);
                let first = (*k, *v, bucket_get(bucket, 0));
                let mut i: usize = 1;
                while i < len
                    invariant
                        1 <= i <= len == built.len(),
                        built == bucket_values(*bucket),
                        self.table == old(self).table,
                        self.current_matches@ == old(self).current_matches@ + matches_of(
                            *k,
                            *v,
                            built,
                        ).subrange(1, i as int),
                    decreases len - i,
                {
                    self.current_matches.push_back((*k, *v, bucket_get(bucket, i)));
                    assert(matches_of(*k, *v, built).subrange(1, i + 1) =~= matches_of(
                        *k,
                        *v,
                        built,
                    ).subrange(1, i as int).push((*k, *v, built[i as int])));
                    i += 1;
                }
                assert(matches_of(*k, *v, built).subrange(1, len as int) =~= matches_of(
                    *k,
                    *v,
                    built,
                ).skip(1));
                Some(first)
            },
        }
    }

    /// Hands out the oldest pending match, if there is one.
    pub fn pop_match(&mut self) -> (popped: Option<(u64, u64, u64)>)
        requires
            old(self).wf(),
        ensures
            final(self).wf(),
            final(self).table() == old(self).table(),
            popped == (if old(self).pending().len() > 0 {
                Some(old(self).pending()[0])
            } else {
                None
            }),
            final(self).pending() == (if old(self).pending().len() > 0 {
                old(self).pending().skip(1)
            } else {
                old(self).pending()
            }),
    {
        let popped = self.current_matches.pop_front();
        assert(old(self).pending().len() > 0 ==> self.pending() =~= old(self).pending().skip(1));
        popped
    }

    /// The number of keys of the table (not the number of rows).
    pub fn len(&self) -> (len: usize)
        requires
            self.wf(),
        ensures
            len == self.table().dom().len(),
    {
        broadcast use vstd::std_specs::hash::group_hash_axioms;

        assert(self.table().dom() =~= self.table@.dom());
        self.table.len()
    }

    /// Every row of the table, each once. Rows of one key stand together,
    /// oldest value first; the order of the keys is that of the hash table and
    /// is not fixed.
    pub fn iter(&self) -> (all: Vec<(u64, u64)>)
        requires
            self.wf(),
        ensures
            all@.no_duplicates(),
            all@.to_set() == rows(self.table()),
            exists|keys: Seq<u64>|
                {
                    &&& keys.no_duplicates()
                    &&& keys.to_set() == self.table().dom()
                    &&& #[trigger] rows_in_order(self.table(), keys) == all@
                },
    {
        broadcast use vstd::std_specs::hash::group_hash_axioms;

        let ghost table = self.table();
        let ghost mut keys: Seq<u64> = Seq::empty();
        let mut all: Vec<(u64, u64)> = Vec::new();
        for entry in it: self.table.iter()
            invariant
                self.wf(),
                table == self.table(),
                keys.len() == it.index(),
                forall|j: int| 0 <= j < keys.len() ==> #[trigger] keys[j] == *it.seq()[j].0,
                keys.no_duplicates(),
                forall|j: int| 0 <= j < keys.len() ==> table.contains_key(#[trigger] keys[j]),
                all@ == rows_in_order(table, keys),
                forall|key: u64| #[trigger]
                    table.contains_key(key) ==> keys.contains(key) || exists|i: int|
                        it.index() <= i < it.seq().len() && *(#[trigger] it.seq()[i]).0 == key,
                it.seq().no_duplicates(),
                forall|i: int|
                    0 <= i < it.seq().len() ==> self.table@.contains_key(*(#[trigger] it.seq()[i]).0)
                        && self.table@[*it.seq()[i].0] == *it.seq()[i].1,
                all@.no_duplicates(),
                forall|j: int|
                    0 <= j < all.len() ==> in_table(table, #[trigger] all[j]) && exists|i: int|
                        0 <= i < it.index() && *(#[trigger] it.seq()[i]).0 == all[j].0,
                forall|row: (u64, u64)| #[trigger]
                    in_table(table, row) ==> all@.contains(row) || exists|i: int|
                        it.index() <= i < it.seq().len() && *(#[trigger] it.seq()[i]).0 == row.0,
        {
            let (k, bucket) = entry;
            let ghost at = it.index();
            let ghost built = bucket_values(*bucket);
            let ghost before = all@;
            assert(entry == it.seq()[at]);
            assert(table.contains_key(*k) && table[*k] == built);
            assert forall|j: int| 0 <= j < before.len() implies (#[trigger] before[j]).0 != *k by {
                let i = choose|i: int| 0 <= i < at && *(#[trigger] it.seq()[i]).0 == before[j].0;
                if before[j].0 == *k {
                    assert(it.seq()[i] == it.seq()[at]);
                }
            }
            let len = bucket_len(bucket);
            let mut n: usize = 0;
            while n < len
                invariant
                    n <= len == built.len(),
                    built == bucket_values(*bucket),
                    built.no_duplicates(),
                    table.contains_key(*k) && table[*k] == built,
                    all@ == before + Seq::new(n as nat, |m: int| (*k, built[m])),
                decreases len - n,
            {
                all.push((*k, bucket_get(bucket, n)));
                assert(all@ =~= before + Seq::new((n + 1) as nat, |m: int| (*k, built[m])));
                n += 1;
            }
            proof {
                let added = Seq::new(len as nat, |m: int| (*k, built[m]));
                assert(all@ == before + added);
                let more_keys = keys.push(*k);
                assert(more_keys.drop_last() =~= keys);
                assert(added =~= rows_of_key(table, *k));
                assert(all@ == rows_in_order(table, more_keys));
                assert forall|a: int, b: int|
                    0 <= a < more_keys.len() && 0 <= b < more_keys.len() && a != b implies more_keys[a]
                    != more_keys[b] by {
                    if a < at && b < at {
                        assert(keys[a] != keys[b]);
                    } else {
                        let low = if a < at {
                            a
                        } else {
                            b
                        };
                        if *it.seq()[low].0 == *it.seq()[at].0 {
                            assert(it.seq()[low] == it.seq()[at]);
                        }
                    }
                }
                assert forall|key: u64| #[trigger] table.contains_key(key) implies more_keys.contains(
                    key,
                ) || exists|i: int|
                    at + 1 <= i < it.seq().len() && *(#[trigger] it.seq()[i]).0 == key by {
                    if keys.contains(key) {
                        let j = choose|j: int| 0 <= j < keys.len() && keys[j] == key;
                        assert(more_keys[j] == key);
                    } else {
                        let i = choose|i: int|
                            at <= i < it.seq().len() && *(#[trigger] it.seq()[i]).0 == key;
                        if i == at {
                            assert(more_keys[at] == key);
                        }
                    }
                }
                keys = more_keys;
                assert forall|a: int, b: int|
                    0 <= a < all.len() && 0 <= b < all.len() && a != b implies all[a] != all[b] by {
                    let n0 = before.len() as int;
                    if a < n0 && b < n0 {
                        assert(before[a] != before[b]);
                    } else if a < n0 {
                        assert(before[a].0 != *k);
                    } else if b < n0 {
                        assert(before[b].0 != *k);
                    } else {
                        assert(built[a - n0] != built[b - n0]);
                    }
                }
                assert forall|j: int| 0 <= j < all.len() implies in_table(table, #[trigger] all[j])
                    && exists|i: int|
                    0 <= i < at + 1 && *(#[trigger] it.seq()[i]).0 == all[j].0 by {
                    let n0 = before.len() as int;
                    if j < n0 {
                        assert(all[j] == before[j]);
                        let i = choose|i: int|
                            0 <= i < at && *(#[trigger] it.seq()[i]).0 == before[j].0;
                        assert(0 <= i < at + 1 && *it.seq()[i].0 == all[j].0);
                    } else {
                        assert(all[j] == (*k, built[j - n0]));
                        assert(built.contains(built[j - n0]));
                        assert(*it.seq()[at].0 == all[j].0);
                    }
                }
                assert forall|row: (u64, u64)| #[trigger] in_table(table, row) implies all@.contains(
                    row,
                ) || exists|i: int|
                    at + 1 <= i < it.seq().len() && *(#[trigger] it.seq()[i]).0 == row.0 by {
                    if before.contains(row) {
                        let j = choose|j: int| 0 <= j < before.len() && before[j] == row;
                        assert(all[j] == row);
                    } else {
                        let i = choose|i: int|
                            at <= i < it.seq().len() && *(#[trigger] it.seq()[i]).0 == row.0;
                        if i == at {
                            assert(built.contains(row.1));
                            let m = choose|m: int| 0 <= m < built.len() && built[m] == row.1;
                            assert(all[before.len() + m] == row);
                        }
                    }
                }
            }
        }
        proof {
            assert forall|row: (u64, u64)| all@.to_set().contains(row) <==> rows(table).contains(
                row,
            ) by {
                if all@.contains(row) {
                    let j = choose|j: int| 0 <= j < all.len() && all[j] == row;
                    assert(in_table(table, all[j]));
                }
            }
            assert(all@.to_set() =~= rows(table));
            assert forall|key: u64| keys.to_set().contains(key) <==> table.dom().contains(key) by {
                if keys.contains(key) {
                    let j = choose|j: int| 0 <= j < keys.len() && keys[j] == key;
                    assert(table.contains_key(keys[j]));
                }
            }
            assert(keys.to_set() =~= table.dom());
        }
        all
    }
}

/// Whether no key of `table` has a value twice.
pub open spec fn without_repetition(table: Map<u64, Seq<u64>>) -> bool {
    forall|k: u64| #[trigger] table.contains_key(k) ==> table[k].no_duplicates()
}

/// Set semantics. Building a row a second time changes nothing: the table
/// holds the row once, and a probe with the row's key finds it once.
pub proof fn law_build_is_idempotent(table: Map<u64, Seq<u64>>, k: u64, v: u64, probe: u64)
    requires
        without_repetition(table),
    ensures
        in_table(with_row(table, k, v), (k, v)),
        with_row(with_row(table, k, v), k, v) == with_row(table, k, v),
        without_repetition(with_row(table, k, v)),
        forall|i: int, j: int|
            0 <= i < values_of(with_row(table, k, v), k).len() && 0 <= j < values_of(
                with_row(table, k, v),
                k,
            ).len() && matches_of(k, probe, values_of(with_row(table, k, v), k))[i] == (k, probe, v)
                && matches_of(k, probe, values_of(with_row(table, k, v), k))[j] == (k, probe, v)
                ==> i == j,
{
    let once = with_row(table, k, v);
    let prior = values_of(table, k);
    if !in_table(table, (k, v)) {
        let grown = prior.push(v);
        assert(grown[prior.len() as int] == v);
        assert forall|i: int, j: int|
            0 <= i < grown.len() && 0 <= j < grown.len() && i != j implies grown[i] != grown[j] by {
            if i < prior.len() && j < prior.len() {
                assert(prior[i] != prior[j]);
            } else if i < prior.len() {
                assert(prior.contains(prior[i]));
            } else {
                assert(prior.contains(prior[j]));
            }
        }
        assert forall|key: u64| #[trigger] once.contains_key(key) implies once[key].no_duplicates() by {
            if key != k {
                assert(table.contains_key(key));
            }
        }
    }
    let built = values_of(once, k);
    assert(built.no_duplicates());
    assert forall|i: int, j: int|
        0 <= i < built.len() && 0 <= j < built.len() && matches_of(k, probe, built)[i] == (
            k,
            probe,
            v,
        ) && matches_of(k, probe, built)[j] == (k, probe, v) implies i == j by {
        assert(built[i] == v && built[j] == v);
    }
}

} // verus!
