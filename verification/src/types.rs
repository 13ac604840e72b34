//! Identifier types and the small range types that the index structures
//! pass around.
use vstd::prelude::*;

pub mod global;

verus! {

/// Identifier of a term or of a document.
pub type IdType = u32;

/// A completion as the identifiers of its terms.
pub type CompletionType = Vec<IdType>;

/// A closed range of values, from `begin` to `end`.
#[derive(Debug, Clone, Copy, PartialEq, Eq, Structural)]
pub struct ValueRange {
    pub begin: u64,
    pub end: u64,
}

impl ValueRange {
    /// A range is invalid if an end of it is the largest `u64`, which stands
    /// for "no value", or if it begins after its end.
    pub open spec fn invalid(self) -> bool {
        self.begin == u64::MAX || self.end == u64::MAX || self.begin > self.end
    }

    /// Whether the range is invalid.
    pub fn is_invalid(&self) -> (invalid: bool)
        ensures
            invalid == self.invalid(),
    {
        self.begin == u64::MAX || self.end == u64::MAX || self.begin > self.end
    }

    /// Whether the range is valid.
    pub fn is_valid(&self) -> (valid: bool)
        ensures
            valid == !self.invalid(),
    {
        !self.is_invalid()
    }

    /// Whether `val` lies in the range, ends included.
    pub fn contains(&self, val: u64) -> (inside: bool)
        ensures
            inside == (self.begin <= val <= self.end),
    {
        val >= self.begin && val <= self.end
    }
}

/// A range with the position and the value of its minimum.
#[derive(Debug, Clone)]
pub struct ScoredRange {
    pub range: ValueRange,
    pub min_pos: u32,
    pub min_val: IdType,
}

impl ScoredRange {
    /// Whether the minimum of `l` is greater than that of `r`.
    pub fn greater(l: &ScoredRange, r: &ScoredRange) -> (greater: bool)
        ensures
            greater == (l.min_val > r.min_val),
    {
        l.min_val > r.min_val
    }
}

/// A range of bytes in a buffer, from the offset `begin` up to the offset
/// `end`.
#[derive(Debug, Clone, Copy)]
pub struct ByteRange {
    pub begin: usize,
    pub end: usize,
}

/// A range of 32-bit integers in a buffer, from the position `begin` up to
/// the position `end`.
#[derive(Debug, Clone, Copy)]
pub struct Uint32Range {
    pub begin: usize,
    pub end: usize,
}

/// The range that covers the bytes of `s`.
pub fn string_to_byte_range(s: &str) -> (range: ByteRange)
    ensures
        range.begin == 0,
        range.end == crate::text::bytes_of(s@).len(),
{
    ByteRange { begin: 0, end: s.as_bytes().len() }
}

/// The range that covers the identifiers of `c`.
pub fn completion_to_uint32_range(c: &CompletionType) -> (range: Uint32Range)
    ensures
        range.begin == 0,
        range.end == c@.len(),
{
    Uint32Range { begin: 0, end: c.len() }
}

} // verus!
