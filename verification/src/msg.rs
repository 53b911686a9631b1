//! The command surface: inbound operation messages and query responses.
//!
//! Optional fields keep their meaning from the command surface: a missing
//! expiry means never, a missing limit means the default page size, a missing
//! callback payload means no outbound notification.

use vstd::prelude::*;

use crate::expiration::Expiration;

verus! {

pub type TokenId = String;

pub struct InstantiateMsg {
    /// The minter is the only identity that may create new tokens.
    pub minter: String,
}

pub enum Cw1155RoyaltiesExecuteMsg {
    /// Moves tokens, if the sender is the owner or holds an unexpired
    /// approval of the owner.
    SendFrom {
        from: String,
        to: String,
        token_id: TokenId,
        value: u128,
        /// `None` means don't notify the receiver.
        msg: Option<Vec<u8>>,
    },
    /// Moves several kinds of tokens at once; all or nothing.
    BatchSendFrom {
        from: String,
        to: String,
        batch: Vec<(TokenId, u128)>,
        msg: Option<Vec<u8>>,
    },
    /// Creates tokens. Only the minter may call this.
    Mint {
        to: String,
        /// `None` assigns the next identifier from the sequence counter.
        token_id: Option<TokenId>,
        value: u128,
        royalty_percentage: Option<u64>,
        royalty_payment_address: Option<String>,
        msg: Option<Vec<u8>>,
    },
    /// Creates several kinds of tokens at once; all or nothing.
    BatchMint { to: String, batch: Vec<(TokenId, u128)>, msg: Option<Vec<u8>> },
    /// Destroys tokens.
    Burn { from: String, token_id: TokenId, value: u128 },
    /// Destroys several kinds of tokens at once; all or nothing.
    BatchBurn { from: String, batch: Vec<(TokenId, u128)> },
    /// Grants the operator authority over all of the sender's tokens, until
    /// the given expiry (never, if none is given).
    ApproveAll { operator: String, expires: Option<Expiration> },
    /// Removes a previously granted approval.
    RevokeAll { operator: String },
}

pub enum Cw1155RoyaltiesQueryMsg {
    /// The royalty owed on a sale of the token at the given price.
    RoyaltyInfo { token_id: TokenId, sale_price: u128 },
    /// Whether this ledger exposes royalty terms at all.
    CheckRoyalties {},
    /// The owner's balance for one token identifier; 0 if unset.
    Balance { owner: String, token_id: TokenId },
    /// The owner's balances for several token identifiers; 0 if unset.
    BatchBalance { owner: String, token_ids: Vec<TokenId> },
    /// The operators holding an approval of the owner, ascending by
    /// operator. Expired approvals are filtered out unless `include_expired`.
    ApprovedForAll {
        owner: String,
        include_expired: Option<bool>,
        start_after: Option<String>,
        limit: Option<u32>,
    },
    /// Whether the operator currently holds an unexpired approval of the
    /// owner (or is the owner).
    IsApprovedForAll { owner: String, operator: String },
    /// The metadata URL of a token identifier.
    TokenInfo { token_id: TokenId },
    /// The token identifiers the owner holds a balance in, ascending.
    Tokens { owner: String, start_after: Option<TokenId>, limit: Option<u32> },
    /// All registered token identifiers, ascending.
    AllTokens { start_after: Option<TokenId>, limit: Option<u32> },
}

/// An outbound notification payload for the recipient of a mint or
/// transfer, emitted only when the caller supplied a callback payload; its
/// delivery is the host's concern.
#[derive(Clone, Debug, PartialEq, Eq)]
pub enum Notification {
    Receive {
        operator: String,
        /// The debited owner; `None` for a mint.
        from: Option<String>,
        to: String,
        token_id: TokenId,
        amount: u128,
        payload: Vec<u8>,
    },
    BatchReceive {
        operator: String,
        from: Option<String>,
        to: String,
        batch: Vec<(TokenId, u128)>,
        payload: Vec<u8>,
    },
}

/// The successful outcome of an operation: the notifications to deliver.
#[derive(Clone, Debug, PartialEq, Eq)]
pub struct Response {
    pub notifications: Vec<Notification>,
}

#[derive(Clone, Debug, PartialEq, Eq)]
pub struct RoyaltiesInfoResponse {
    pub address: String,
    pub royalty_amount: u128,
}

/// Shows if the ledger exposes royalty terms; when true, marketplaces should
/// query and honor them on every sale.
#[derive(Clone, Copy, Debug, PartialEq, Eq, Structural)]
pub struct CheckRoyaltiesResponse {
    pub royalty_payments: bool,
}

#[derive(Clone, Copy, Debug, PartialEq, Eq, Structural)]
pub struct BalanceResponse {
    pub balance: u128,
}

#[derive(Clone, Debug, PartialEq, Eq)]
pub struct BatchBalanceResponse {
    pub balances: Vec<u128>,
}

/// One granted approval: the operator and when it expires.
#[derive(Clone, Debug, PartialEq, Eq)]
pub struct Approval {
    pub spender: String,
    pub expires: Expiration,
}

#[derive(Clone, Debug, PartialEq, Eq)]
pub struct ApprovedForAllResponse {
    pub operators: Vec<Approval>,
}

#[derive(Clone, Copy, Debug, PartialEq, Eq, Structural)]
pub struct IsApprovedForAllResponse {
    pub approved: bool,
}

#[derive(Clone, Debug, PartialEq, Eq)]
pub struct TokenInfoResponse {
    /// Should be a URL pointing to a JSON metadata file.
    pub url: String,
}

#[derive(Clone, Debug, PartialEq, Eq)]
pub struct TokensResponse {
    /// Token identifiers in ascending lexicographic order; to continue, pass
    /// the last one as `start_after` in the next query.
    pub tokens: Vec<TokenId>,
}

} // verus!
