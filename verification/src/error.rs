//! The error taxonomy shared by every construction path.

use vstd::prelude::*;

verus! {

/// Why a construction or decoding step failed.
///
/// Every fallible operation in this crate reports the most specific
/// applicable kind below; no operation panics or has a partial side
/// effect on failure.
#[derive(Clone, Copy, Debug, PartialEq, Eq, Structural)]
pub enum Error {
    /// A zero-length raw byte input.
    EmptyInput,
    /// Fewer than three arcs were present after a full decode or
    /// accumulation.
    TooFewArcs,
    /// The encoded form would not fit in the fixed buffer.
    CapacityExceeded,
    /// The first arc was not in `0..=2`, or the second arc was not in
    /// `0..=39` while the first arc was 0 or 1.
    ArcOutOfRange,
    /// A base-128 byte sequence ended without a terminating byte.
    TruncatedArc,
    /// A decoded or accumulated arc value exceeds the fixed integer width.
    ArcOverflow,
    /// A syntactic violation: a bad character, an empty segment or a
    /// misplaced delimiter in the dotted string, or a byte encoding that
    /// is not the canonical one for the arcs it decodes to.
    MalformedInput,
}

} // verus!
