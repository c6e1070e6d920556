//! The operator-facing configuration: the alphabet size is read once at
//! start-up and passed down as a fixed parameter; the core never reads
//! configuration itself.

use vstd::prelude::*;

verus! {

pub struct Interface {}

impl Interface {
    /// The number of symbols to search over.
    pub fn ask_for_symbols() -> (r: usize)
        ensures
            r == 5,
    {
        5
    }
}

} // verus!
