//! A semi-fungible multi-token ledger with delegated transfer authorization,
//! token-identifier auto-assignment, a per-token royalty registry, and
//! paginated enumeration of balances, approvals and token identifiers.
//!
//! The contract state is held in [`state::State`]; every operation on it is
//! verified: balance conservation, all-or-nothing batch semantics, the
//! owner-or-operator authorization rule with expiring approvals, the
//! floor-rounding royalty computation, and the ascending iteration order of
//! every listing.

pub mod ord;
pub mod tables;
pub mod expiration;
pub mod error;
pub mod ids;
pub mod msg;
pub mod state;
pub mod execute;
pub mod query;
pub mod contract;
pub mod laws;
