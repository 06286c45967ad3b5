//! Plain value types shared by the registry and its callers.

use vstd::prelude::*;

verus! {

/// The kind of settlement operation a logical transaction carries.
#[derive(Clone, Copy, Debug, PartialEq, Eq, Structural)]
pub enum OperationKind {
    Commit,
    ProveOnchain,
    Execute,
    Precommit,
}

/// The path through which a logical transaction is submitted. Each route has
/// its own independent nonce namespace per signing account.
#[derive(Clone, Copy, Debug, PartialEq, Eq, Structural)]
pub enum SettlementRoute {
    Direct,
    Gateway,
}

/// Finality state of one signed attempt. `Finalized` means the settlement
/// chain itself treats the including block as irreversible; a reorg reverts
/// the attempt back to `Pending`.
#[derive(Clone, Copy, Debug, PartialEq, Eq, Structural)]
pub enum FinalityStatus {
    Pending,
    Finalized,
}

/// Fee profile of one signed attempt at submission time.
#[derive(Clone, Copy, Debug, PartialEq, Eq)]
pub struct FeeParameters {
    pub base_fee_per_gas: u64,
    pub priority_fee_per_gas: u64,
    pub blob_base_fee_per_gas: Option<u64>,
    pub max_gas_per_pubdata: Option<u64>,
}

/// Failures surfaced by the mutating operations of the registry.
#[derive(Clone, Copy, Debug, PartialEq, Eq, Structural)]
pub enum TrackerError {
    /// A nonce or namespace write could not be observed durably.
    AllocationError,
    /// A fingerprint collision with divergent attempt data: a logic bug
    /// upstream, surfaced rather than auto-resolved.
    DuplicateAttempt,
    /// A transition that would break the registry invariants.
    InvariantViolation,
    /// An operation addressed an unknown logical transaction or attempt.
    NotFound,
}

/// Compares two optional block-or-fee values.
pub fn option_u64_eq(a: &Option<u64>, b: &Option<u64>) -> (r: bool)
    ensures
        r == (a == b),
{
    match (a, b) {
        (Some(x), Some(y)) => *x == *y,
        (None, None) => true,
        _ => false,
    }
}

/// Compares two fee profiles field by field.
pub fn fee_parameters_eq(a: &FeeParameters, b: &FeeParameters) -> (r: bool)
    ensures
        r == (a == b),
{
    a.base_fee_per_gas == b.base_fee_per_gas && a.priority_fee_per_gas == b.priority_fee_per_gas
        && option_u64_eq(&a.blob_base_fee_per_gas, &b.blob_base_fee_per_gas)
        && option_u64_eq(&a.max_gas_per_pubdata, &b.max_gas_per_pubdata)
}

} // verus!
