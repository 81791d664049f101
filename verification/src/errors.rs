//! Error taxonomy of the engine.

use vstd::prelude::*;

verus! {

/// What can go wrong while handling a change request.
#[derive(Clone, Copy, Debug, PartialEq, Eq, Structural)]
pub enum EngineError {
    /// The wire payload did not parse into a change request; nothing was
    /// mutated.  Raised by the transport layer, never by the engine.
    MalformedRequest,
    /// The logical clock was asked to move backward or stay flat.
    OutOfOrderTime,
    /// A co-occurrence row exists whose item counts fall below the
    /// co-occurrence count, so the Jaccard denominator would be
    /// non-positive; the offending batch is rejected without mutating
    /// committed state.
    DivisionDegenerate,
    /// Accepting the batch would push an input store past the engine's
    /// total-weight capacity.
    CapacityExceeded,
}

} // verus!
