//! The lattice with one value.
use vstd::prelude::*;
use std::cmp::Ordering;
use vstd::std_specs::cmp::PartialOrdSpecImpl;
use crate::lattices::{IsBot, IsTop, LatticeFrom, LatticeOrd, Merge};

verus! {

/// The lattice with one value, which holds no state. Its value is bottom and
/// top at once.
#[derive(Copy, Clone, Debug, PartialEq, Eq, Structural)]
pub struct Unit;

impl Unit {
    /// The one value of the lattice.
    pub fn new() -> (unit: Self)
        ensures
            unit == Unit,
    {
        Unit
    }
}

impl Default for Unit {
    fn default() -> (unit: Self)
        ensures
            unit == Unit,
    {
        Unit
    }
}

impl PartialOrd for Unit {
    fn partial_cmp(&self, other: &Self) -> (ordering: Option<Ordering>) {
        Some(Ordering::Equal)
    }
}

impl PartialOrdSpecImpl for Unit {
    open spec fn obeys_partial_cmp_spec() -> bool {
        true
    }

    open spec fn partial_cmp_spec(&self, other: &Self) -> Option<Ordering> {
        Some(Ordering::Equal)
    }
}

impl Merge<Unit> for Unit {
    open spec fn obeys_merge_spec() -> bool {
        true
    }

    open spec fn grows(this: Self, other: Unit) -> bool {
        false
    }

    open spec fn merged(before: Self, other: Unit, after: Self) -> bool {
        after == Unit
    }

    fn merge(&mut self, other: Unit) -> (changed: bool) {
        assert(!Self::grows(*old(self), other));
        false
    }
}

impl LatticeFrom<Unit> for Unit {
    open spec fn converts(other: Unit, this: Self) -> bool {
        this == other
    }

    fn lattice_from(other: Unit) -> (this: Self) {
        other
    }
}

impl LatticeOrd<Unit> for Unit {

}

impl IsBot for Unit {
    open spec fn bot(&self) -> bool {
        true
    }

    fn is_bot(&self) -> (bot: bool) {
        true
    }
}

impl IsTop for Unit {
    open spec fn top(&self) -> bool {
        true
    }

    fn is_top(&self) -> (top: bool) {
        true
    }
}

} // verus!
