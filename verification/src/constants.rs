//! Parameters of the chain.
use vstd::prelude::*;

verus! {

/// The proof-of-work difficulty used by default: the number of leading
/// zero bytes that a block hash must have.
pub const DEFAULT_DIFFICULTY: usize = 1;

} // verus!
