//! The join table that merges the values of a key into one lattice value.
use vstd::prelude::*;
use std::collections::hash_map::Entry;
use std::collections::HashMap;
use std::hash::BuildHasherDefault;
use rustc_hash::FxHasher;
use vstd::std_specs::hash::builds_valid_hashers;
use crate::lattices::Merge;
use crate::util::fx::new_table;

verus! {

/// Whether a clone of a value of `T` is the value cloned.
pub open spec fn clones_plainly<T: Clone>() -> bool {
    forall|a: T, b: T| #[trigger] cloned(a, b) ==> a == b
}

/// Whether the merge of `L` obeys its specification and computes the function
/// `join`.
pub open spec fn merges_as<L: Merge<L>>(join: spec_fn(L, L) -> L) -> bool {
    &&& L::obeys_merge_spec()
    &&& forall|before: L, other: L, after: L| #[trigger]
        L::merged(before, other, after) ==> after == join(before, other)
}

/// The table after `v` was built for `k`: `v` is merged into the value of
/// `k`, or becomes the value of `k` if `k` is new.
pub open spec fn lattice_build<L>(table: Map<u64, L>, k: u64, v: L, join: spec_fn(L, L) -> L) -> Map<
    u64,
    L,
> {
    if table.contains_key(k) {
        table.insert(k, join(table[k], v))
    } else {
        table.insert(k, v)
    }
}

/// Whether building `v` for `k` changes the table: whether `k` is new, or `v`
/// makes the value of `k` grow.
pub open spec fn lattice_build_changes<L: Merge<L>>(table: Map<u64, L>, k: u64, v: L) -> bool {
    !table.contains_key(k) || L::grows(table[k], v)
}

/// One side of a symmetric hash join of lattice values: for each key, the
/// merge of all the values built for it. A probe finds at most one match, the
/// value merged so far, so this side never has matches pending.
pub struct HalfJoinStateLattice<L> {
    /// Table to probe: for each key, the merge of its values.
    table: HashMap<u64, L, BuildHasherDefault<FxHasher>>,
}

impl<L: Merge<L> + Clone> HalfJoinStateLattice<L> {
    /// The table: for each key, the merge of the values built for it.
    pub closed spec fn table(&self) -> Map<u64, L> {
        self.table@
    }

    /// The invariant of a table.
    pub closed spec fn wf(&self) -> bool {
        &&& builds_valid_hashers::<BuildHasherDefault<FxHasher>>()
        &&& self.table@.dom().finite()
    }

    /// A side with no keys.
    pub fn new() -> (state: Self)
        ensures
            state.wf(),
            state.table() == Map::<u64, L>::empty(),
    {
        HalfJoinStateLattice { table: new_table() }
    }

    /// Forgets every key.
    pub fn clear(&mut self)
        requires
            old(self).wf(),
        ensures
            final(self).wf(),
            final(self).table() == Map::<u64, L>::empty(),
    {
        self.table.clear();
    }

    /// Merges a copy of `v` into the value of `k`, or makes the copy the value
    /// of `k` if `k` is new. Returns whether the table changed: `true` for a
    /// new key, and otherwise what the merge returns. The caller then probes
    /// the other side.
    ///
    /// No other key is touched. The result is stated of the copy that `clone`
    /// made of `v`.
    pub fn build(&mut self, k: u64, v: &L) -> (changed: bool)
        requires
            old(self).wf(),
        ensures
            final(self).wf(),
            final(self).table().dom() == old(self).table().dom().insert(k),
            forall|other: u64|
                other != k && old(self).table().contains_key(other) ==> final(self).table()[other]
                    == #[trigger] old(self).table()[other],
            exists|copy: L|
                {
                    &&& #[trigger] cloned(*v, copy)
                    &&& if old(self).table().contains_key(k) {
                        L::obeys_merge_spec() ==> {
                            &&& changed == L::grows(old(self).table()[k], copy)
                            &&& L::merged(old(self).table()[k], copy, final(self).table()[k])
                        }
                    } else {
                        changed && final(self).table()[k] == copy
                    }
                },
            forall|join: spec_fn(L, L) -> L|
                clones_plainly::<L>() && #[trigger] merges_as::<L>(join) ==> {
                    &&& final(self).table() == lattice_build(old(self).table(), k, *v, join)
                    &&& changed == lattice_build_changes(old(self).table(), k, *v)
                },
    {
        broadcast use vstd::std_specs::hash::group_hash_axioms;

        let copy = v.clone();
        let changed;
        match self.table.entry(k) {
            Entry::Occupied(mut e) => {
                let held = e.get_mut();
                changed = held.merge(copy);
            },
            Entry::Vacant(e) => {
                e.insert(copy);
                changed = true;
            },
        }
        proof {
            assert(self.table@.dom() =~= old(self).table@.dom().insert(k));
            assert(cloned(*v, copy));
            assert forall|join: spec_fn(L, L) -> L|
                clones_plainly::<L>() && #[trigger] merges_as::<L>(join) implies self.table()
                == lattice_build(old(self).table(), k, *v, join) && changed
                == lattice_build_changes(old(self).table(), k, *v) by {
                assert(self.table@ =~= lattice_build(old(self).table@, k, *v, join));
            }
        }
        changed
    }

    /// Looks `k` up. Where the table has a value for it, returns the key with
    /// copies of `v` and of that value; where it has none, returns `None`.
    pub fn probe<P: Clone>(&mut self, k: &u64, v: &P) -> (found: Option<(u64, P, L)>)
        requires
            old(self).wf(),
        ensures
            final(self).wf(),
            final(self).table() == old(self).table(),
            match found {
                Some((key, probing, built)) => {
                    &&& old(self).table().contains_key(*k)
                    &&& key == *k
                    &&& cloned(*v, probing)
                    &&& cloned(old(self).table()[*k], built)
                },
                None => !old(self).table().contains_key(*k),
            },
            clones_plainly::<L>() && clones_plainly::<P>() ==> found == (if old(self).table().contains_key(
                *k,
            ) {
                Some((*k, *v, old(self).table()[*k]))
            } else {
                None
            }),
    {
        broadcast use vstd::std_specs::hash::group_hash_axioms;

        match self.table.get(k) {
            Some(built) => {
                let probing = v.clone();
                let copy = built.clone();
                assert(cloned(*v, probing) && cloned(*built, copy));
                Some((*k, probing, copy))
            },
            None => None,
        }
    }

    /// Hands out the oldest pending match. This side has none, ever.
    pub fn pop_match<P>(&mut self) -> (popped: Option<(u64, P, L)>)
        ensures
            popped is None,
            *final(self) == *old(self),
    {
        None
    }

    /// The number of keys of the table.
    pub fn len(&self) -> (len: usize)
        requires
            self.wf(),
        ensures
            len == self.table().dom().len(),
    {
        broadcast use vstd::std_specs::hash::group_hash_axioms;

        self.table.len()
    }

    /// Every key of the table with a copy of its value, each key once, in the
    /// order of the hash table, which is not fixed.
    pub fn iter(&self) -> (all: Vec<(u64, L)>)
        requires
            self.wf(),
        ensures
            all.len() == self.table().dom().len(),
            forall|i: int, j: int|
                0 <= i < all.len() && 0 <= j < all.len() && i != j ==> (#[trigger] all[i]).0 != (
                #[trigger] all[j]).0,
            forall|i: int|
                0 <= i < all.len() ==> self.table().contains_key((#[trigger] all[i]).0) && cloned(
                    self.table()[all[i].0],
                    all[i].1,
                ),
            forall|k: u64| #[trigger]
                self.table().contains_key(k) ==> exists|i: int|
                    0 <= i < all.len() && (#[trigger] all[i]).0 == k,
    {
        broadcast use vstd::std_specs::hash::group_hash_axioms;

        let mut all: Vec<(u64, L)> = Vec::new();
        for entry in it: self.table.iter()
            invariant
                self.wf(),
                it.seq().no_duplicates(),
                it.seq().len() == self.table@.dom().len(),
                forall|i: int|
                    0 <= i < it.seq().len() ==> self.table@.contains_key(*(#[trigger] it.seq()[i]).0)
                        && self.table@[*it.seq()[i].0] == *it.seq()[i].1,
                all.len() == it.index(),
                forall|j: int|
                    0 <= j < all.len() ==> (#[trigger] all[j]).0 == *it.seq()[j].0 && cloned(
                        *it.seq()[j].1,
                        all[j].1,
                    ),
                forall|i: int, j: int|
                    0 <= i < all.len() && 0 <= j < all.len() && i != j ==> (#[trigger] all[i]).0 != (
                    #[trigger] all[j]).0,
                forall|k: u64| #[trigger]
                    self.table@.contains_key(k) ==> (exists|j: int|
                        0 <= j < all.len() && (#[trigger] all[j]).0 == k) || (exists|i: int|
                        it.index() <= i < it.seq().len() && *(#[trigger] it.seq()[i]).0 == k),
        {
            let (k, held) = entry;
            let ghost at = it.index();
            let ghost before = all@;
            assert(entry == it.seq()[at]);
            let copy = held.clone();
            assert(cloned(*held, copy));
            all.push((*k, copy));
            proof {
                assert forall|i: int, j: int|
                    0 <= i < all.len() && 0 <= j < all.len() && i != j implies (#[trigger] all[i]).0
                    != (#[trigger] all[j]).0 by {
                    if i < at && j < at {
                        assert(before[i].0 != before[j].0);
                    } else {
                        let low = if i < at {
                            i
                        } else {
                            j
                        };
                        if *it.seq()[low].0 == *it.seq()[at].0 {
                            assert(it.seq()[low] == it.seq()[at]);
                        }
                    }
                }
                assert forall|key: u64| #[trigger] self.table@.contains_key(key) implies (exists|
                    j: int,
                | 0 <= j < all.len() && (#[trigger] all[j]).0 == key) || (exists|i: int|
                    at + 1 <= i < it.seq().len() && *(#[trigger] it.seq()[i]).0 == key) by {
                    if exists|j: int| 0 <= j < before.len() && (#[trigger] before[j]).0 == key {
                        let j = choose|j: int| 0 <= j < before.len() && (#[trigger] before[j]).0 == key;
                        assert(all[j].0 == key);
                    } else {
                        let i = choose|i: int|
                            at <= i < it.seq().len() && *(#[trigger] it.seq()[i]).0 == key;
                        if i == at {
                            assert(all[at].0 == key);
                        }
                    }
                }
            }
        }
        all
    }
}

} // verus!
