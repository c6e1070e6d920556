//! Search for minimal superpermutations: the shortest strings over an
//! `n`-symbol alphabet that contain every permutation of the alphabet as a
//! contiguous substring.
//!
//! The search state is a compact bit-vector over permutation ranks
//! ([`candidate`]), canonicalized through precomputed relabeling tables
//! ([`symmetry`]), and explored by a best-first search ([`search`]) driven
//! goal by goal ([`incremental`]) under an adaptive admissible heuristic
//! ([`heuristic`]).

pub mod buckets;
pub mod candidate;
pub mod closed_set;
pub mod codec;
pub mod heuristic;
pub mod incremental;
pub mod interface;
pub mod open_set;
pub mod roaring;
pub mod search;
pub mod symmetry;
pub mod util;
