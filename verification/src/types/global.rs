use vstd::prelude::*;

verus! {

/// Identifier that never names a term.
pub const INVALID_TERM_ID: u32 = u32::MAX;

/// Identifier that ends a sequence of term identifiers.
pub const TERMINATOR: u32 = 0;

/// Position reported when a search finds nothing.
pub const NOT_FOUND: u64 = u64::MAX;

/// Range width below which a linear scan beats a binary search.
pub const LINEAR_SCAN_THRESHOLD: u64 = 8;

} // verus!
