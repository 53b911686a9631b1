//! Laws that relate several operations, proved from the operations'
//! contracts alone.

use vstd::prelude::*;

use crate::execute::{burn_applied, mint_applied, transfer_applied};
use crate::expiration::{BlockInfo, Expiration};
use crate::state::State;

verus! {

/// Expiry boundary: an approval whose threshold equals the current height
/// or timestamp is already expired, so a distinct operator holding it is
/// not authorized at exactly that moment.
pub proof fn lemma_approval_at_boundary_not_authorized(
    s: State,
    owner: Seq<char>,
    operator: Seq<char>,
    b: BlockInfo,
)
    requires
        owner != operator,
        match s.approval_of(owner, operator) {
            Some(e) => match e {
                Expiration::AtHeight(h) => b.height == h,
                Expiration::AtTime(t) => b.time == t,
                Expiration::Never => false,
            },
            None => true,
        },
    ensures
        !s.authorized(owner, operator, b),
{
}

/// Conservation: a successful transfer of `amount` from `from` to `to` (two
/// distinct owners) moves exactly `amount`: the sender's balance falls by
/// it, the recipient's rises by it, every other balance and every token's
/// circulating supply stay as they were.
pub proof fn lemma_transfer_conserves(
    s0: State,
    s1: State,
    from: Seq<char>,
    to: Seq<char>,
    t: Seq<char>,
    amount: u128,
)
    requires
        transfer_applied(s0, s1, from, to, t, amount),
        from != to,
    ensures
        s1.bal(from, t) as int == s0.bal(from, t) - amount,
        s1.bal(to, t) as int == s0.bal(to, t) + amount,
        forall|o2: Seq<char>, t2: Seq<char>|
            !(t2 == t && (o2 == from || o2 == to)) ==> s1.bal(o2, t2) == s0.bal(o2, t2),
        forall|t2: Seq<char>| #[trigger] s1.supply(t2) == s0.supply(t2),
{
}

/// Minting `value` of a token and then burning the same `value` from the
/// same owner returns every balance and every supply to its pre-mint value,
/// while the token's registry record persists.
pub proof fn lemma_mint_burn_round_trip(
    s0: State,
    s1: State,
    s2: State,
    to: Seq<char>,
    t: Seq<char>,
    value: u128,
    pct: Option<u64>,
    addr: Option<Seq<char>>,
    auto: bool,
)
    requires
        mint_applied(s0, s1, to, t, value, pct, addr, auto),
        burn_applied(s1, s2, to, t, value),
    ensures
        forall|o2: Seq<char>, t2: Seq<char>| s2.bal(o2, t2) == s0.bal(o2, t2),
        forall|t2: Seq<char>| #[trigger] s2.supply(t2) == s0.supply(t2),
        s2.registered(t),
{
    assert(s2.registered(t)) by {
        assert(s1.registered(t));
        assert(s2.tokens == s1.tokens);
    }
    assert forall|o2: Seq<char>, t2: Seq<char>| s2.bal(o2, t2) == s0.bal(o2, t2) by {
        assert(s1.bal(o2, t2) as int == if o2 == to && t2 == t {
            s0.bal(o2, t2) + value
        } else {
            s0.bal(o2, t2) as int
        });
    }
}

} // verus!
