//! Change requests accepted by the engine.
//!
//! A request either adds or removes a batch of (user, item) interactions.
//! Parsing the wire encoding is the transport's job; the engine receives the
//! already-structured request and applies it as one atomic batch.

use vstd::prelude::*;

verus! {

/// Direction of a change request: insert interactions or retract them.
#[derive(Clone, Copy, Debug, PartialEq, Eq, Structural)]
pub enum Change {
    Add,
    Remove,
}

/// One accepted change request: a direction and the interactions it
/// applies to, each a (user, item) pair.
#[derive(Debug)]
pub struct ChangeRequest {
    pub change: Change,
    pub interactions: Vec<(u32, u32)>,
}

} // verus!
