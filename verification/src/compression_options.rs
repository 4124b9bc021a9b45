use vstd::prelude::*;

verus! {

/// Default bound on the number of chain positions that one search visits.
pub const MAX_HASH_CHECKS: u16 = 4096;

} // verus!
