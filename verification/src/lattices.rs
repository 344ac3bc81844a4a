//! Lattices: values with a merge that is associative, commutative and
//! idempotent, and the partial order that the merge induces.
use vstd::prelude::*;
use std::cmp::Ordering;

pub mod algebra;
pub mod semiring;
pub mod set_union_with_tombstone;
pub mod unit;

verus! {

/// Merging one lattice value into another (the lattice's join, or least upper
/// bound).
///
/// An implementation says, as two specification functions, which values a
/// merge changes and what it leaves; `merge` is held to them wherever the
/// implementation says that it obeys them. The merge must be associative,
/// commutative and idempotent.
pub trait Merge<Other>: Sized {
    /// Whether `merge` obeys `grows` and `merged`. An implementation that
    /// rests on a hash table says here that its items can be hashed.
    spec fn obeys_merge_spec() -> bool;

    /// Whether merging `other` into `this` changes `this`: whether `other` is
    /// not below or equal to `this` in the lattice order.
    spec fn grows(this: Self, other: Other) -> bool;

    /// Whether `after` is what merging `other` into `before` leaves.
    spec fn merged(before: Self, other: Other, after: Self) -> bool;

    /// Merges `other` into `self`, and returns whether `self` changed.
    fn merge(&mut self, other: Other) -> (changed: bool)
        ensures
            Self::obeys_merge_spec() ==> changed == Self::grows(*old(self), other),
            Self::obeys_merge_spec() ==> Self::merged(*old(self), other, *final(self)),
    ;

    /// Merges `delta` into `this` and returns the result.
    fn merge_owned(this: Self, delta: Other) -> (merged: Self)
        ensures
            Self::obeys_merge_spec() ==> Self::merged(this, delta, merged),
    {
        let mut this = this;
        this.merge(delta);
        this
    }
}

/// The lattice order of a type, given by its `PartialOrd`.
pub trait LatticeOrd<Rhs = Self>: PartialOrd<Rhs> {

}

/// What a comparison by merging concludes from whether each side grows when
/// the other is merged into it.
pub open spec fn naive_verdict(self_grows: bool, other_grows: bool) -> Option<Ordering> {
    if self_grows && other_grows {
        None
    } else if self_grows {
        Some(Ordering::Less)
    } else if other_grows {
        Some(Ordering::Greater)
    } else {
        Some(Ordering::Equal)
    }
}

/// The lattice order found by merging: slow, but it needs nothing beyond
/// `Merge`.
pub trait NaiveLatticeOrd<Rhs = Self> where Self: Clone + Merge<Rhs> + Sized, Rhs: Clone + Merge<Self> {
    /// Compares `self` with `other` by merging a copy of each into a copy of
    /// the other. `self` is less if only it grows, greater if only `other`
    /// grows, equal if neither does, and the two are incomparable if both do.
    ///
    /// The result is stated of the copies that `clone` made, and where both
    /// merges obey their specifications.
    fn naive_cmp(&self, other: &Rhs) -> (ordering: Option<Ordering>)
        ensures
            exists|self_a: Self, other_a: Rhs, self_b: Self, other_b: Rhs|
                {
                    &&& cloned(*self, self_a)
                    &&& cloned(*other, other_a)
                    &&& cloned(*self, self_b)
                    &&& cloned(*other, other_b)
                    &&& Self::obeys_merge_spec() && Rhs::obeys_merge_spec() ==> ordering
                        == naive_verdict(Self::grows(self_a, other_a), Rhs::grows(other_b, self_b))
                },
    {
        let mut self_a = self.clone();
        let other_a = other.clone();
        let self_b = self.clone();
        let mut other_b = other.clone();
        let ghost self_a0 = self_a;
        let ghost other_b0 = other_b;
        let self_grows = self_a.merge(other_a);
        let other_grows = other_b.merge(self_b);
        let ordering = if self_grows && other_grows {
            None
        } else if self_grows {
            Some(Ordering::Less)
        } else if other_grows {
            Some(Ordering::Greater)
        } else {
            Some(Ordering::Equal)
        };
        assert(cloned(*self, self_a0) && cloned(*other, other_a) && cloned(*self, self_b) && cloned(
            *other,
            other_b0,
        ) && (Self::obeys_merge_spec() && Rhs::obeys_merge_spec() ==> ordering == naive_verdict(
            Self::grows(self_a0, other_a),
            Rhs::grows(other_b0, self_b),
        )));
        ordering
    }
}

impl<This, Other> NaiveLatticeOrd<Other> for This where
    This: Clone + Merge<Other>,
    Other: Clone + Merge<This>,
 {

}

/// Conversion between two representations of one lattice.
pub trait LatticeFrom<Other>: Sized {
    /// Whether `this` stands for the lattice value that `other` stands for.
    spec fn converts(other: Other, this: Self) -> bool;

    /// Converts `other` into this representation.
    fn lattice_from(other: Other) -> (this: Self)
        ensures
            Self::converts(other, this),
    ;
}

/// Whether a lattice value is the bottom of its lattice.
pub trait IsBot {
    /// Whether `self` is bottom: below or equal to every value.
    spec fn bot(&self) -> bool;

    /// Returns whether `self` is bottom.
    fn is_bot(&self) -> (bot: bool)
        ensures
            bot == self.bot(),
    ;
}

/// Whether a lattice value is the top of its lattice, and so cannot change any
/// further.
pub trait IsTop {
    /// Whether `self` is top: above or equal to every value.
    spec fn top(&self) -> bool;

    /// Returns whether `self` is top.
    fn is_top(&self) -> (top: bool)
        ensures
            top == self.top(),
    ;
}

} // verus!
