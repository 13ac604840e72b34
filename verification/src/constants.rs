use vstd::prelude::*;

verus! {

/// Largest number of completions a single query may ask for.
pub const MAX_K: u32 = 15;

/// Largest number of terms a single query may hold.
pub const MAX_NUM_TERMS_PER_QUERY: u32 = 64;

/// Largest number of characters a single query may hold.
pub const MAX_NUM_CHARS_PER_QUERY: u32 = 128;

/// Bytes needed to hold `MAX_K` completions of the largest admissible length.
pub const POOL_SIZE: usize = 1920;

/// The pool size is the product of the two limits it is derived from, and the
/// per-query term limit fits in one byte.
pub proof fn lemma_constants_consistent()
    ensures
        POOL_SIZE == MAX_K * MAX_NUM_CHARS_PER_QUERY,
        MAX_NUM_TERMS_PER_QUERY < 256,
        0 < MAX_K <= MAX_NUM_CHARS_PER_QUERY,
{
}

} // verus!
