//! The ways an input line or an event can be rejected.

use vstd::prelude::*;

verus! {

/// Why an input line or an event was rejected.
///
/// The malformed kinds cause the offending line to be skipped; an unknown
/// order id means the stream is corrupt and is fatal to the caller.
#[derive(Copy, Clone, Debug, PartialEq, Eq, Structural)]
pub enum InputError {
    /// Too few tokens, or a timestamp or size that does not parse.
    MalformedEvent,
    /// A side token other than `B` or `S`.
    MalformedSide,
    /// A price that is not a decimal with at most two fractional digits.
    MalformedPrice,
    /// A reduce event whose id was never added.
    UnknownOrderId,
}

} // verus!
