//! Helpers that the operators share.
use vstd::prelude::*;
use std::cmp::Ordering;
use vstd::std_specs::cmp::OrdSpec;

pub mod bag;
pub mod fx;

verus! {

/// Sorts `slice` by the key that `f` picks out of each element. The order of
/// elements with equal keys is not fixed.
///
/// Calls `sort_unstable_by` of the slice with the comparison of the two keys.
/// Where the keys are totally ordered and `f` is a function, the sort leaves
/// the elements it was given, each as often as before, with no element before
/// one of a smaller key.
#[verifier::external_body]
pub fn sort_unstable_by_key_hrtb<T, F, K>(slice: &mut [T], f: F) where
    F: for <'a>Fn(&'a T) -> &'a K,
    K: Ord,

    requires
        vstd::laws_cmp::obeys_cmp::<K>(),
        forall|x: &T| f.requires((x,)),
        forall|x: &T, k1: &K, k2: &K| f.ensures((x,), k1) && f.ensures((x,), k2) ==> k1 == k2,
    ensures
        final(slice)@.to_multiset() == old(slice)@.to_multiset(),
        forall|i: int, j: int, ki: &K, kj: &K|
            0 <= i <= j < final(slice)@.len() && f.ensures((&final(slice)@[i],), ki) && f.ensures(
                (&final(slice)@[j],),
                kj,
            ) ==> ki.cmp_spec(kj) != Ordering::Greater,
{
    slice.sort_unstable_by(|a, b| f(a).cmp(f(b)))
}

} // verus!
