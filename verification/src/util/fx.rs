//! Hash tables that hash with `FxHasher`.
use vstd::prelude::*;
use std::collections::HashMap;
use std::hash::BuildHasherDefault;
use rustc_hash::FxHasher;
use vstd::std_specs::hash::builds_valid_hashers;

verus! {

/// `rustc_hash::FxHasher`, the hasher of the tables: a value that verified
/// code carries and never looks into.
#[verifier::external_type_specification]
#[verifier::external_body]
pub struct ExFxHasher(FxHasher);

/// `std::hash::BuildHasherDefault`, which builds each hasher of a table with
/// the hasher type's `default`: a value that verified code carries and never
/// looks into.
#[verifier::external_type_specification]
#[verifier::external_body]
#[verifier::reject_recursive_types(H)]
pub struct ExBuildHasherDefault<H>(BuildHasherDefault<H>);

/// Whether `table` is empty and hashes its keys in a way that the
/// specifications of `HashMap` hold of: two hashers that it builds, fed the
/// same writes, finish with the same hash.
pub open spec fn fresh_table<K, V>(table: HashMap<K, V, BuildHasherDefault<FxHasher>>) -> bool {
    &&& table@ == Map::<K, V>::empty()
    &&& builds_valid_hashers::<BuildHasherDefault<FxHasher>>()
}

/// An empty hash table that hashes with `FxHasher`.
///
/// Makes the table with `FxHashMap::default`, that is a `HashMap` whose
/// hashers are `FxHasher::default()`. The contract says that the table is
/// empty, and that its hashing is deterministic: `FxHasher` starts from the
/// constant state 0, and each of its `write` methods is a function of the state
/// and the bytes written, with no seed and no other input.
#[verifier::external_body]
pub(crate) fn new_table<K, V>() -> (table: HashMap<K, V, BuildHasherDefault<FxHasher>>)
    ensures
        fresh_table(table),
{
    rustc_hash::FxHashMap::default()
}

} // verus!
