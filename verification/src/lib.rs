//! An embedded finite-state-machine engine over hash-like entities.
//!
//! A `StateMachine` definition names its states and transition events and is
//! bound to a key prefix; entities whose keys fall under the prefix carry a
//! state field that is stamped on first touch and advanced only through
//! validated transitions.

use vstd::prelude::*;

pub mod codec;
pub mod machine;
pub mod registry;

verus! {

/// Errors surfaced by the command operations.
#[derive(Clone, Copy, Debug, PartialEq, Eq, Structural)]
pub enum FsmError {
    /// The payload is malformed or violates a definition invariant.
    Decode,
    /// The referenced definition does not exist.
    NotFound,
}

} // verus!
