//! Logical time and approval expiry.

use vstd::prelude::*;

verus! {

/// The point in logical time at which an operation runs: the current block
/// height and the current block timestamp (nanoseconds).
#[derive(Clone, Copy, PartialEq, Eq, Structural, Debug)]
pub struct BlockInfo {
    pub height: u64,
    pub time: u64,
}

/// A threshold in logical time after which an approval is inactive: a block
/// height, a timestamp (nanoseconds), or never.
#[derive(Clone, Copy, PartialEq, Eq, Structural, Debug)]
pub enum Expiration {
    AtHeight(u64),
    AtTime(u64),
    Never,
}

impl Expiration {
    /// An approval expires the moment the block reaches its threshold: at
    /// exactly the stated height or time it is already expired.
    pub open spec fn spec_is_expired(self, b: BlockInfo) -> bool {
        match self {
            Expiration::AtHeight(h) => b.height >= h,
            Expiration::AtTime(t) => b.time >= t,
            Expiration::Never => false,
        }
    }

    pub fn is_expired(&self, b: &BlockInfo) -> (r: bool)
        ensures
            r == self.spec_is_expired(*b),
    {
        match self {
            Expiration::AtHeight(h) => b.height >= *h,
            Expiration::AtTime(t) => b.time >= *t,
            Expiration::Never => false,
        }
    }
}

} // verus!
