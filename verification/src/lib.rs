//! Settlement transaction lifecycle tracker.
//!
//! The crate keeps a durable, queryable record of which logical settlement
//! operation (a state-root commitment, a proof submission, an execution, or a
//! block precommit) has actually been finalized on a settlement chain, despite
//! chain reorganizations, variable confirmation latency and fee volatility.
//!
//! The registry owns the mapping from logical operations to their signed
//! submission attempts, the per-namespace nonce allocation discipline, the
//! two-state finality machine per attempt (pending or finalized, with a
//! reorg-driven revert), and the read-side queries the orchestrator needs.
//! Broadcasting, signing and persistence are external collaborators: they hand
//! plain values in and take plain values back.

pub mod laws;
pub mod ops;
pub mod queries;
pub mod registry;
pub mod types;
