//! The list of values that a join table keeps for one key.
use vstd::prelude::*;
use smallvec::SmallVec;

verus! {

/// The values built for one key. Most keys of most joins have one value, so
/// the list keeps its first value inline and moves to the heap only when a
/// second one arrives.
///
/// The list is a `smallvec::SmallVec<[u64; 1]>`. Verified code does not look
/// into it: what it holds is `bucket_values`, and the functions below say what
/// each operation of `SmallVec` does to that.
#[verifier::external_body]
pub struct Bucket {
    values: SmallVec<[u64; 1]>,
}

/// The values that a bucket holds, in the order in which they were added.
pub uninterp spec fn bucket_values(bucket: Bucket) -> Seq<u64>;

/// A bucket that holds `value` alone.
///
/// Calls `SmallVec::from_buf`, which makes a vector of exactly the elements of
/// the array it is given.
#[verifier::external_body]
pub(crate) fn bucket_of(value: u64) -> (bucket: Bucket)
    ensures
        bucket_values(bucket) == seq![value],
{
    Bucket { values: SmallVec::from_buf([value]) }
}

/// The number of values in `bucket`.
///
/// Calls `SmallVec::len`.
#[verifier::external_body]
pub(crate) fn bucket_len(bucket: &Bucket) -> (len: usize)
    ensures
        len == bucket_values(*bucket).len(),
{
    bucket.values.len()
}

/// The value at position `index` of `bucket`.
///
/// Indexes the `SmallVec`, which panics only where `index` is not below its
/// length.
#[verifier::external_body]
pub(crate) fn bucket_get(bucket: &Bucket, index: usize) -> (value: u64)
    requires
        index < bucket_values(*bucket).len(),
    ensures
        value == bucket_values(*bucket)[index as int],
{
    bucket.values[index]
}

/// Whether `bucket` holds `value`.
///
/// Calls `contains` on the slice of the `SmallVec`'s elements, which compares
/// `value` with each element.
#[verifier::external_body]
pub(crate) fn bucket_contains(bucket: &Bucket, value: &u64) -> (found: bool)
    ensures
        found == bucket_values(*bucket).contains(*value),
{
    bucket.values.contains(value)
}

/// Appends `value` to `bucket`.
///
/// Calls `SmallVec::push`, which writes the value behind the last element and
/// moves the elements to the heap when the inline space is used up.
#[verifier::external_body]
pub(crate) fn bucket_push(bucket: &mut Bucket, value: u64)
    ensures
        bucket_values(*final(bucket)) == bucket_values(*old(bucket)).push(value),
{
    bucket.values.push(value)
}

} // verus!
