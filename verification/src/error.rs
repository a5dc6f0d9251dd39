use crate::bytesrepr;
use vstd::prelude::*;

verus! {

/// A limit on the movement of stake that a request can break.
#[derive(Debug, Clone, Copy, PartialEq, Eq, Structural)]
pub enum Rule {
    /// The amount bonded exceeds the largest increase allowed in one request.
    AbsoluteIncrease,
    /// The amount bonded exceeds the allowed fraction of the total stake.
    RelativeIncrease,
    /// The largest and the smallest stake would lie too far apart.
    Spread,
    /// The amount unbonded exceeds the largest decrease allowed in one request.
    AbsoluteDecrease,
    /// The amount unbonded exceeds the allowed fraction of the total stake.
    RelativeDecrease,
}

/// Why an invocation failed.
#[derive(Debug, Clone, Copy, PartialEq, Eq, Structural)]
pub enum Error {
    /// The stake ledger was never stored.
    LedgerUninitialized,
    /// The queue already holds as many requests as it may.
    QueueFull,
    /// The request breaks a limit on the movement of stake.
    ValidationFailed(Rule),
    /// The amount to unbond exceeds the validator's stake.
    InsufficientStake,
    /// A stored value does not have the layout of its type.
    SerializationError(bytesrepr::Error),
    /// A movement of funds failed.
    TransferFailed,
}

} // verus!
