//! Shared identifier types and the top-level error of the brokerage core.

use vstd::prelude::*;

verus! {

/// Unique identifier for a compute job.
#[derive(Debug, Clone, Copy, PartialEq, Eq, Hash)]
pub struct JobId(pub [u8; 16]);

/// Identifier of a compute provider (a sovereign liquidity pool).
#[derive(Debug, Clone, PartialEq, Eq, Hash)]
pub struct SlpId(pub String);

/// Identifier of a routing lane.
#[derive(Debug, Clone, Copy, PartialEq, Eq, Hash, Structural)]
pub struct LaneId(pub u8);

/// Top-level error of the brokerage core.
#[derive(Debug, Clone, PartialEq, Eq)]
pub enum GixError {
    /// A cryptographic check failed.
    CryptoFailure,
    /// A peer broke the protocol.
    Protocol(String),
    /// A storage or serialization failure inside a daemon.
    InternalError(String),
}

} // verus!
