//! Errors of the block system.

use vstd::prelude::*;

verus! {

/// Error kinds returned by the block system; each carries its message.
#[derive(Debug, Clone, PartialEq, Eq)]
pub enum AppError {
    /// The request is malformed or violates a structural rule.
    BadRequest(String),
    /// The addressed block does not exist.
    NotFound(String),
    /// The optimistic-lock version did not match.
    VersionConflict(String),
    /// The move would make a block its own ancestor.
    CycleReference,
    /// An internal invariant failed.
    Internal(String),
}

} // verus!
