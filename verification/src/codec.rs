//! Trusted boundary to `lehmer`, the permutation codec: an order-preserving
//! bijection between permutations of `0..n` and their lexicographic ranks in
//! `[0, n!)`.  The two directions are named [`perm_of`] and [`rank_of`]; the
//! wrappers state the bijection contract the rest of the crate builds on.

use vstd::prelude::*;
use crate::util::fact;

verus! {

/// `p` lists each of `0..n` exactly once.
pub open spec fn is_permutation(p: Seq<u8>, n: int) -> bool {
    &&& p.len() == n
    &&& forall|j: int| 0 <= j < n ==> p[j] < n
    &&& forall|j: int, k: int| 0 <= j < k < n ==> p[j] != p[k]
}

/// The permutation of `0..n` with lexicographic rank `rank`.
pub uninterp spec fn perm_of(rank: int, n: int) -> Seq<u8>;

/// The lexicographic rank of a permutation.
pub uninterp spec fn rank_of(p: Seq<u8>) -> int;

/// Relies on lehmer::Lehmer::from_decimal followed by to_permutation:
/// decodes a rank below `n!` into the permutation of `0..n` it names, and
/// encoding that permutation again gives the rank back.
#[verifier::external_body]
pub(crate) fn perm_of_rank(rank: usize, n: usize) -> (p: Vec<u8>)
    requires
        fact(n as nat) <= usize::MAX,
        rank < fact(n as nat),
    ensures
        p@ == perm_of(rank as int, n as int),
        is_permutation(p@, n as int),
        rank_of(p@) == rank,
{
    lehmer::Lehmer::from_decimal(rank, n).to_permutation()
}

/// Relies on lehmer::Lehmer::from_permutation followed by to_decimal:
/// encodes a permutation of `0..n` as its rank in `[0, n!)`, and decoding
/// that rank gives the permutation back.
#[verifier::external_body]
pub(crate) fn rank_of_perm(p: &Vec<u8>) -> (r: usize)
    requires
        is_permutation(p@, p@.len() as int),
        fact(p@.len() as nat) <= usize::MAX,
    ensures
        r == rank_of(p@),
        r < fact(p@.len() as nat),
        perm_of(r as int, p@.len() as int) == p@,
{
    lehmer::Lehmer::from_permutation(p.as_slice()).to_decimal()
}

} // verus!
