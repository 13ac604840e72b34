//! Sizes in bytes, added and scaled without overflow: a size that does not
//! fit in a `usize` is reported as the largest `usize`.
use vstd::prelude::*;

verus! {

/// `n` as a size: itself if it fits, else the largest `usize`.
pub open spec fn clamp(n: int) -> usize {
    if n > usize::MAX {
        usize::MAX
    } else if n < 0 {
        0
    } else {
        n as usize
    }
}

/// The sum of two sizes.
pub fn add_sizes(a: usize, b: usize) -> (total: usize)
    ensures
        total == clamp(a + b),
{
    if a > usize::MAX - b {
        usize::MAX
    } else {
        a + b
    }
}

/// The size of `count` items of `width` bytes each.
pub fn scale_size(count: usize, width: usize) -> (total: usize)
    ensures
        total == clamp(count * width),
{
    match count.checked_mul(width) {
        Some(total) => total,
        None => usize::MAX,
    }
}

} // verus!
