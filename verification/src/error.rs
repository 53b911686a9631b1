//! The errors an operation can fail with. A failed operation leaves the
//! state exactly as it was.

use vstd::prelude::*;

verus! {

#[derive(Clone, Copy, PartialEq, Eq, Structural, Debug)]
pub enum ContractError {
    /// The caller is not the minter, or is neither the owner nor an operator
    /// holding an unexpired approval of the owner.
    Unauthorized,
    /// A debit exceeds the held quantity.
    InsufficientBalance,
    /// A supplied royalty percentage exceeds 100.
    InvalidRoyaltyPercentage,
    /// A required record (token metadata or royalty terms) does not exist.
    NotFound,
    /// A credit would push a token's circulating supply, or the identifier
    /// sequence, past the largest representable value.
    Overflow,
}

} // verus!
