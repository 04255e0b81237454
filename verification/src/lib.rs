//! A canonical codec and incremental-hashing cache for a bounded,
//! variable-length bit list.
//!
//! The bit list owns a capacity bound `N` and a current length `L <= N`.
//! Its canonical byte encoding packs bits least-significant-bit first and
//! appends a single sentinel bit after the last data bit, so that trailing
//! zero bits are never confused with end-of-data. A dirty-leaf cache tracks
//! which Merkle leaves of a composite value are stale after a mutation.

use vstd::prelude::*;

pub mod bitlist;
pub mod bits;
pub mod cache;
pub mod hexstr;
pub mod merkle;
pub mod scale;

pub use bitlist::Bitlist;
pub use cache::Cache;
pub use merkle::Node;

verus! {

/// Whether a bit collection has a fixed or a variable number of elements.
#[derive(Debug, Clone, Copy, PartialEq, Eq, Structural)]
pub enum ElementsType {
    /// A variable number of elements under a capacity bound.
    List,
    /// A fixed number of elements.
    Vector,
}

/// The category tag a generic tree-walker reads to recognize a value's
/// shape without compile-time knowledge of its concrete type.
#[derive(Debug, Clone, Copy, PartialEq, Eq, Structural)]
pub enum SszTypeClass {
    /// A homogenous collection of booleans.
    Bits(ElementsType),
}

/// Why an encoding or decoding step was refused. No bound or format
/// violation is ever silently corrected.
#[derive(Debug, Clone, Copy, PartialEq, Eq, Structural)]
pub enum BitlistError {
    /// Fewer bytes than the minimum possible encoding (even an empty list
    /// needs its one-byte sentinel).
    InputTooShort,
    /// More bytes than the maximum possible encoding for the capacity.
    InputTooLong,
    /// The final byte is zero, so no sentinel bit is present.
    MissingSentinel,
    /// The logical bit length exceeds the capacity bound, whether it came
    /// from decoding or from direct construction.
    CapacityExceeded,
    /// A textual value is not well-formed hexadecimal.
    InvalidHex,
    /// A length-prefixed boolean encoding is not well-formed.
    InvalidScale,
}

/// Number of bytes in the canonical encoding of a bit list holding `bound`
/// bits: one bit per data position plus one sentinel bit, rounded up to
/// whole bytes.
pub fn byte_length(bound: usize) -> (r: usize)
    ensures
        r == bound / 8 + 1,
        r == (bound + 8) / 8,
{
    bound / 8 + 1
}

} // verus!
