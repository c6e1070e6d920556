//! Trusted boundary to `croaring`, the compressed integer set that stores a
//! candidate's bit-vector.  Each wrapper states, over the abstract contents
//! [`bits_of`], exactly what the wrapped call does; everything built on top
//! of these contracts is verified.

use vstd::prelude::*;

verus! {

#[verifier::external_type_specification]
#[verifier::external_body]
pub struct ExBitmap(croaring::Bitmap);

/// The set of integers held by a `croaring::Bitmap`.
pub uninterp spec fn bits_of(b: croaring::Bitmap) -> Set<u32>;

/// Relies on croaring::Bitmap::new: a freshly created bitmap holds nothing.
#[verifier::external_body]
pub(crate) fn bitmap_new() -> (r: croaring::Bitmap)
    ensures
        bits_of(r) == Set::<u32>::empty(),
{
    croaring::Bitmap::new()
}

/// Relies on croaring::Bitmap::add: inserts one value, keeps the rest.
#[verifier::external_body]
pub(crate) fn bitmap_add(b: &mut croaring::Bitmap, value: u32)
    ensures
        bits_of(*final(b)) == bits_of(*old(b)).insert(value),
{
    b.add(value)
}

/// Relies on croaring::Bitmap::contains: a membership test.
#[verifier::external_body]
pub(crate) fn bitmap_contains(b: &croaring::Bitmap, value: u32) -> (r: bool)
    ensures
        r == bits_of(*b).contains(value),
{
    b.contains(value)
}

/// Relies on croaring::Bitmap::cardinality: the number of stored values.
#[verifier::external_body]
pub(crate) fn bitmap_cardinality(b: &croaring::Bitmap) -> (r: u64)
    ensures
        r == bits_of(*b).len(),
{
    b.cardinality()
}

/// Relies on croaring::Bitmap::to_vec: the stored values in strictly
/// ascending order, one entry per value.
#[verifier::external_body]
pub(crate) fn bitmap_to_vec(b: &croaring::Bitmap) -> (r: Vec<u32>)
    ensures
        r@.len() == bits_of(*b).len(),
        forall|j: int, k: int| 0 <= j < k < r@.len() ==> r@[j] < r@[k],
        forall|x: u32| r@.contains(x) <==> bits_of(*b).contains(x),
{
    b.to_vec()
}

/// Relies on croaring::Bitmap::clone: the copy holds the same values.
#[verifier::external_body]
pub(crate) fn bitmap_clone(b: &croaring::Bitmap) -> (r: croaring::Bitmap)
    ensures
        bits_of(r) == bits_of(*b),
{
    b.clone()
}

/// Relies on croaring's PartialEq for Bitmap: equality of stored contents.
#[verifier::external_body]
pub(crate) fn bitmap_eq(a: &croaring::Bitmap, b: &croaring::Bitmap) -> (r: bool)
    ensures
        r == (bits_of(*a) == bits_of(*b)),
{
    a == b
}

/// Relies on croaring::Bitmap::run_optimize: recompresses the internal
/// representation without changing the stored values.
#[verifier::external_body]
pub(crate) fn bitmap_run_optimize(b: &mut croaring::Bitmap)
    ensures
        bits_of(*final(b)) == bits_of(*old(b)),
{
    b.run_optimize();
}

} // verus!
