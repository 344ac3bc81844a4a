//! The set-union lattice with tombstones.
use vstd::prelude::*;
use std::cmp::Ordering;
use std::collections::HashSet;
use std::hash::Hash;
use vstd::std_specs::cmp::{PartialEqSpecImpl, PartialOrdSpecImpl};
use vstd::std_specs::convert::IntoSpec;
use vstd::std_specs::hash::obeys_key_model;
use vstd::std_specs::iter::IteratorSpec;
use crate::lattices::{IsBot, IsTop, LatticeFrom, LatticeOrd, Merge};

verus! {

/// A set of items together with a set of tombstones, the items that were
/// deleted. Both sets only grow: merging two values unites their sets and
/// their tombstones.
#[derive(Debug, Default)]
pub struct SetUnionWithTombstone<Item> {
    /// The items.
    pub set: HashSet<Item>,
    /// The items that were deleted.
    pub tombstones: HashSet<Item>,
}

impl<Item> View for SetUnionWithTombstone<Item> {
    type V = (Set<Item>, Set<Item>);

    /// The items and the tombstones.
    open spec fn view(&self) -> (Set<Item>, Set<Item>) {
        (self.set@, self.tombstones@)
    }
}

/// Whether `a` is below or equal to `b`: whether `b` holds every item and
/// every tombstone of `a`.
pub open spec fn below<Item>(a: (Set<Item>, Set<Item>), b: (Set<Item>, Set<Item>)) -> bool {
    a.0.subset_of(b.0) && a.1.subset_of(b.1)
}

/// Adds every item of `source` to `target`.
///
/// Calls `HashSet::extend`, which inserts each item that the iterator over
/// `source` yields, that is every item of `source`.
#[verifier::external_body]
fn extend_set<Item: Eq + Hash>(target: &mut HashSet<Item>, source: HashSet<Item>)
    ensures
        obeys_key_model::<Item>() ==> final(target)@ == old(target)@.union(source@),
{
    target.extend(source)
}

/// A copy of `set`.
///
/// Calls `HashSet::clone`, which copies each item with the item's own `clone`.
/// Nothing is claimed of the copy, which is as good as the items' `clone`.
#[verifier::external_body]
fn clone_set<Item: Clone>(set: &HashSet<Item>) -> (copy: HashSet<Item>) {
    set.clone()
}

/// Whether every item of `a` is an item of `b`.
///
/// Calls `HashSet::is_subset`, which returns whether the other set holds at
/// least all the values of this one.
#[verifier::external_body]
fn is_subset<Item: Eq + Hash>(a: &HashSet<Item>, b: &HashSet<Item>) -> (subset: bool)
    ensures
        obeys_key_model::<Item>() ==> subset == a@.subset_of(b@),
{
    a.is_subset(b)
}

impl<Item> SetUnionWithTombstone<Item> {
    /// The value with the items `set` and the tombstones `tombstones`.
    pub fn new(set: HashSet<Item>, tombstones: HashSet<Item>) -> (value: Self)
        ensures
            value.set == set,
            value.tombstones == tombstones,
    {
        SetUnionWithTombstone { set, tombstones }
    }

    /// The value with the items and the tombstones that `set` and
    /// `tombstone_val` convert into.
    pub fn new_from<A: Into<HashSet<Item>>, B: Into<HashSet<Item>>>(set: A, tombstone_val: B) -> (value:
        Self)
        ensures
            A::obeys_into_spec() ==> value.set == set.into_spec(),
            B::obeys_into_spec() ==> value.tombstones == tombstone_val.into_spec(),
    {
        Self::new(set.into(), tombstone_val.into())
    }
}

impl<Item: Clone> Clone for SetUnionWithTombstone<Item> {
    fn clone(&self) -> (copy: Self) {
        SetUnionWithTombstone { set: clone_set(&self.set), tombstones: clone_set(&self.tombstones) }
    }
}

impl<Item: Hash + Eq> SetUnionWithTombstone<Item> {
    /// Whether `self` is below or equal to `other` in the lattice order.
    fn is_below(&self, other: &Self) -> (is_below: bool)
        ensures
            obeys_key_model::<Item>() ==> is_below == below(self@, other@),
    {
        is_subset(&self.set, &other.set) && is_subset(&self.tombstones, &other.tombstones)
    }
}

impl<Item: Hash + Eq> Merge<SetUnionWithTombstone<Item>> for SetUnionWithTombstone<Item> {
    open spec fn obeys_merge_spec() -> bool {
        obeys_key_model::<Item>()
    }

    /// A merge changes a value unless the value holds every item and every
    /// tombstone of the other.
    open spec fn grows(this: Self, other: Self) -> bool {
        !below(other@, this@)
    }

    /// A merge leaves the union of the items and the union of the tombstones.
    open spec fn merged(before: Self, other: Self, after: Self) -> bool {
        after@ == (before@.0.union(other@.0), before@.1.union(other@.1))
    }

    fn merge(&mut self, other: SetUnionWithTombstone<Item>) -> (changed: bool) {
        broadcast use {vstd::std_specs::hash::group_hash_axioms, vstd::set_lib::group_set_properties};

        let ghost before = self@;
        let set_grew = {
            let old_len = self.set.len();
            extend_set(&mut self.set, other.set);
            self.set.len() > old_len
        };
        let tombstones_grew = {
            let old_len = self.tombstones.len();
            extend_set(&mut self.tombstones, other.tombstones);
            self.tombstones.len() > old_len
        };
        proof {
            if obeys_key_model::<Item>() {
                lemma_hash_set_is_finite(&old(self).set);
                lemma_hash_set_is_finite(&old(self).tombstones);
                lemma_hash_set_is_finite(&other.set);
                lemma_hash_set_is_finite(&other.tombstones);
                lemma_union_grows(before.0, other@.0);
                lemma_union_grows(before.1, other@.1);
                assert(set_grew == !other@.0.subset_of(before.0));
                assert(tombstones_grew == !other@.1.subset_of(before.1));
                assert(Self::grows(*old(self), other) == !below(other@, before));
            }
        }
        set_grew || tombstones_grew
    }
}

/// The items of a hash set are finitely many: they are the items that a pass
/// over the set yields.
pub proof fn lemma_hash_set_is_finite<Item>(set: &HashSet<Item>)
    ensures
        set@.finite(),
{
    vstd::std_specs::hash::axiom_spec_hash_keys_iter(set);
    vstd::seq_lib::seq_to_set_is_finite(
        vstd::std_specs::hash::spec_hash_keys_iter(set).remaining().unref(),
    );
}

/// Uniting a finite set with another makes it larger exactly when the other
/// holds an item that it does not.
pub proof fn lemma_union_grows<A>(a: Set<A>, b: Set<A>)
    requires
        a.finite(),
        b.finite(),
    ensures
        a.union(b).len() > a.len() <==> !b.subset_of(a),
        a.union(b).len() >= a.len(),
{
    broadcast use vstd::set_lib::group_set_properties;

    vstd::set_lib::lemma_len_subset(a, a.union(b));
    if b.subset_of(a) {
        assert(a.union(b) =~= a);
    } else {
        if a.union(b).len() == a.len() {
            vstd::set_lib::lemma_subset_equality(a, a.union(b));
            assert(b.subset_of(a));
        }
    }
}

impl<Item: Hash + Eq> LatticeFrom<SetUnionWithTombstone<Item>> for SetUnionWithTombstone<Item> {
    /// A value converts into itself.
    open spec fn converts(other: SetUnionWithTombstone<Item>, this: Self) -> bool {
        this == other
    }

    fn lattice_from(other: SetUnionWithTombstone<Item>) -> (this: Self) {
        other
    }
}

impl<Item: Hash + Eq> PartialEq for SetUnionWithTombstone<Item> {
    fn eq(&self, other: &Self) -> (equal: bool) {
        self.is_below(other) && other.is_below(self)
    }
}

impl<Item: Hash + Eq> PartialEqSpecImpl for SetUnionWithTombstone<Item> {
    open spec fn obeys_eq_spec() -> bool {
        obeys_key_model::<Item>()
    }

    /// Two values are equal when they hold the same items and the same
    /// tombstones.
    open spec fn eq_spec(&self, other: &Self) -> bool {
        below(self@, other@) && below(other@, self@)
    }
}

impl<Item: Hash + Eq> Eq for SetUnionWithTombstone<Item> {

}

impl<Item: Hash + Eq> PartialOrd for SetUnionWithTombstone<Item> {
    fn partial_cmp(&self, other: &Self) -> (ordering: Option<Ordering>) {
        let le = self.is_below(other);
        let ge = other.is_below(self);
        if le && ge {
            Some(Ordering::Equal)
        } else if le {
            Some(Ordering::Less)
        } else if ge {
            Some(Ordering::Greater)
        } else {
            None
        }
    }
}

impl<Item: Hash + Eq> PartialOrdSpecImpl for SetUnionWithTombstone<Item> {
    open spec fn obeys_partial_cmp_spec() -> bool {
        obeys_key_model::<Item>()
    }

    /// The order of the lattice: a value is below another when the other holds
    /// all its items and all its tombstones.
    open spec fn partial_cmp_spec(&self, other: &Self) -> Option<Ordering> {
        if below(self@, other@) && below(other@, self@) {
            Some(Ordering::Equal)
        } else if below(self@, other@) {
            Some(Ordering::Less)
        } else if below(other@, self@) {
            Some(Ordering::Greater)
        } else {
            None
        }
    }
}

impl<Item: Hash + Eq> LatticeOrd<SetUnionWithTombstone<Item>> for SetUnionWithTombstone<Item> {

}

impl<Item: Hash + Eq> IsBot for SetUnionWithTombstone<Item> {
    /// The value without items and tombstones is bottom.
    open spec fn bot(&self) -> bool {
        self@.0.is_empty() && self@.1.is_empty()
    }

    fn is_bot(&self) -> (bot: bool) {
        self.set.is_empty() && self.tombstones.is_empty()
    }
}

impl<Item: Hash + Eq> IsTop for SetUnionWithTombstone<Item> {
    /// No value is top: any value grows by an item that it does not hold.
    open spec fn top(&self) -> bool {
        false
    }

    fn is_top(&self) -> (top: bool) {
        false
    }
}

} // verus!
