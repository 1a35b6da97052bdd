//! Deserialisation errors of containers.

use vstd::prelude::*;

verus! {

/// Container deserialisation errors.
///
/// Returned by every `from_bytes` constructor of the container forms. Callers
/// should treat any variant as a corrupted segment: none of these are
/// recoverable in a single-segment context.
#[derive(Debug, Clone, Copy, PartialEq, Eq, Structural)]
pub enum ContainerError {
    /// Input slice was shorter than the minimum on-disk header for the inferred
    /// container form.
    Truncated {
        /// Bytes the parser expected to read.
        needed: usize,
        /// Bytes actually available in the input slice.
        got: usize,
    },
    /// The 1-byte tag did not match any known container form.
    UnknownTag(u8),
    /// An array container with non-monotonic or duplicate keys.
    ArrayUnsorted,
    /// A run container with overlapping or non-monotonic runs, or a single run
    /// whose end exceeds `u16::MAX`.
    RunInvariantViolation,
    /// A run with `length == 0`. Empty runs are not permitted: callers must omit
    /// them entirely instead of encoding zero-length markers.
    EmptyRun,
}

} // verus!
