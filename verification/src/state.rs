//! The ledger state and its invariants.

use vstd::prelude::*;

use crate::expiration::{BlockInfo, Expiration};
use crate::tables::{PEntry, PairMap, StrMap};

verus! {

/// Resale royalty terms of one token identifier, fixed at its first mint.
/// Both fields are optional and independent.
#[derive(Clone, Debug, PartialEq, Eq)]
pub struct RoyaltyInfo {
    /// The cut of the sale price owed as royalty, in percent (0 to 100).
    pub royalty_percentage: Option<u64>,
    /// Where to pay the royalty; may differ from the minter.
    pub royalty_payment_address: Option<String>,
}

/// The contribution of one balance entry to the circulating supply of the
/// token `t`.
pub open spec fn share_of(e: PEntry<u128>, t: Seq<char>) -> int {
    if e.k2@ == t {
        e.val as int
    } else {
        0
    }
}

/// The circulating supply of the token `t`: the sum of all owners' balances
/// for it.
pub open spec fn sum_for(s: Seq<PEntry<u128>>, t: Seq<char>) -> int
    decreases s.len(),
{
    if s.len() == 0 {
        0
    } else {
        sum_for(s.drop_last(), t) + share_of(s.last(), t)
    }
}

pub proof fn lemma_sum_nonneg(s: Seq<PEntry<u128>>, t: Seq<char>)
    ensures
        sum_for(s, t) >= 0,
    decreases s.len(),
{
    if s.len() > 0 {
        lemma_sum_nonneg(s.drop_last(), t);
    }
}

pub proof fn lemma_sum_insert(s: Seq<PEntry<u128>>, i: int, e: PEntry<u128>, t: Seq<char>)
    requires
        0 <= i <= s.len(),
    ensures
        sum_for(s.insert(i, e), t) == sum_for(s, t) + share_of(e, t),
    decreases s.len(),
{
    if i == s.len() {
        assert(s.insert(i, e).drop_last() =~= s);
        assert(s.insert(i, e).last() == e);
    } else {
        assert(s.insert(i, e).drop_last() =~= s.drop_last().insert(i, e));
        assert(s.insert(i, e).last() == s.last());
        lemma_sum_insert(s.drop_last(), i, e, t);
    }
}

pub proof fn lemma_sum_update(s: Seq<PEntry<u128>>, i: int, e: PEntry<u128>, t: Seq<char>)
    requires
        0 <= i < s.len(),
    ensures
        sum_for(s.update(i, e), t) == sum_for(s, t) - share_of(s[i], t) + share_of(e, t),
    decreases s.len(),
{
    if i == s.len() - 1 {
        assert(s.update(i, e).drop_last() =~= s.drop_last());
        assert(s.update(i, e).last() == e);
    } else {
        assert(s.update(i, e).drop_last() =~= s.drop_last().update(i, e));
        assert(s.update(i, e).last() == s.last());
        lemma_sum_update(s.drop_last(), i, e, t);
    }
}

pub proof fn lemma_sum_remove(s: Seq<PEntry<u128>>, i: int, t: Seq<char>)
    requires
        0 <= i < s.len(),
    ensures
        sum_for(s.remove(i), t) == sum_for(s, t) - share_of(s[i], t),
    decreases s.len(),
{
    if i == s.len() - 1 {
        assert(s.remove(i) =~= s.drop_last());
    } else {
        assert(s.remove(i).drop_last() =~= s.drop_last().remove(i));
        assert(s.remove(i).last() == s.last());
        lemma_sum_remove(s.drop_last(), i, t);
    }
}

/// One entry's balance never exceeds the supply of its token.
pub proof fn lemma_contrib_le_sum(s: Seq<PEntry<u128>>, i: int, t: Seq<char>)
    requires
        0 <= i < s.len(),
    ensures
        share_of(s[i], t) <= sum_for(s, t),
    decreases s.len(),
{
    lemma_sum_nonneg(s, t);
    if i == s.len() - 1 {
        lemma_sum_nonneg(s.drop_last(), t);
    } else {
        lemma_contrib_le_sum(s.drop_last(), i, t);
    }
}

/// A prefix sum never exceeds the whole sum.
pub proof fn lemma_sum_take_le(s: Seq<PEntry<u128>>, i: int, t: Seq<char>)
    requires
        0 <= i <= s.len(),
    ensures
        sum_for(s.take(i), t) <= sum_for(s, t),
    decreases s.len(),
{
    if i == s.len() {
        assert(s.take(i) =~= s);
    } else {
        assert(s.take(i) =~= s.drop_last().take(i));
        lemma_sum_take_le(s.drop_last(), i, t);
    }
}

/// Extending a prefix by one entry adds that entry's contribution.
pub proof fn lemma_sum_take_step(s: Seq<PEntry<u128>>, i: int, t: Seq<char>)
    requires
        0 <= i < s.len(),
    ensures
        sum_for(s.take(i + 1), t) == sum_for(s.take(i), t) + share_of(s[i], t),
{
    assert(s.take(i + 1).drop_last() =~= s.take(i));
    assert(s.take(i + 1).last() == s[i]);
}

/// The balance table on its own: sorted, zero-free, and with every token's
/// supply representable.
pub open spec fn bal_wf(b: PairMap<u128>) -> bool {
    &&& b.wf()
    &&& forall|k: (Seq<char>, Seq<char>)|
        (#[trigger] b.spec_get(k)) matches Some(v) ==> v > 0
    &&& forall|t: Seq<char>| #[trigger] sum_for(b.entries@, t) <= u128::MAX
}

/// The balance of `o` for token `t`; 0 when no entry is present.
pub open spec fn bal_of(b: PairMap<u128>, o: Seq<char>, t: Seq<char>) -> u128 {
    match b.spec_get((o, t)) {
        Some(v) => v,
        None => 0,
    }
}

/// A balance is at most the supply of its token.
pub proof fn lemma_bal_le_sum(b: PairMap<u128>, o: Seq<char>, t: Seq<char>)
    requires
        b.wf(),
    ensures
        bal_of(b, o, t) <= sum_for(b.entries@, t),
{
    lemma_sum_nonneg(b.entries@, t);
    if b.contains_key((o, t)) {
        let i = b.index_of((o, t));
        assert(b.entries@[i].k2@ == t);
        lemma_contrib_le_sum(b.entries@, i, t);
    }
}

/// Reads the balance of `(o, t)`.
pub fn bal_get(b: &PairMap<u128>, o: &str, t: &str) -> (r: u128)
    requires
        b.wf(),
    ensures
        r == bal_of(*b, o@, t@),
{
    match b.get(o, t) {
        Some(v) => *v,
        None => 0,
    }
}

/// Sets the balance of `(o, t)` to `v`, pruning the entry when `v` is 0, and
/// accounts for the change to every token's supply.
pub fn set_bal(b: &mut PairMap<u128>, o: String, t: String, v: u128)
    requires
        old(b).wf(),
        forall|k: (Seq<char>, Seq<char>)|
            (#[trigger] old(b).spec_get(k)) matches Some(x) ==> x > 0,
    ensures
        final(b).wf(),
        forall|k: (Seq<char>, Seq<char>)|
            (#[trigger] final(b).spec_get(k)) matches Some(x) ==> x > 0,
        bal_of(*final(b), o@, t@) == v,
        forall|o2: Seq<char>, t2: Seq<char>|
            (o2, t2) != (o@, t@) ==> bal_of(*final(b), o2, t2) == bal_of(*old(b), o2, t2),
        forall|t2: Seq<char>|
            #[trigger] sum_for(final(b).entries@, t2) == sum_for(old(b).entries@, t2) + (
            if t2 == t@ {
                v - bal_of(*old(b), o@, t@)
            } else {
                0
            }),
        forall|k: (Seq<char>, Seq<char>)|
            final(b).contains_key(k) ==> old(b).contains_key(k) || k == (o@, t@),
{
    let ghost b0 = *b;
    let ghost ko = o@;
    let ghost kt = t@;
    if v == 0 {
        b.remove(o.as_str(), t.as_str());
        proof {
            if b0.contains_key((o@, t@)) {
                let i = choose|i: int|
                    0 <= i < b0.entries@.len() && b0.key_seq()[i] == (o@, t@)
                        && b.entries@ == b0.entries@.remove(i);
                b0.lemma_at_index(i);
                assert forall|t2: Seq<char>|
                    #[trigger] sum_for(b.entries@, t2) == sum_for(b0.entries@, t2) + (
                    if t2 == t@ {
                        0 - bal_of(b0, o@, t@)
                    } else {
                        0
                    }) by {
                    lemma_sum_remove(b0.entries@, i, t2);
                }
            } else {
                assert(b.entries@ == b0.entries@);
                assert(bal_of(b0, o@, t@) == 0);
            }
        }
    } else {
        let ghost ge = (PEntry { k1: o, k2: t, val: v });
        b.insert(o, t, v);
        proof {
            if b0.contains_key((o@, t@)) {
                let i = choose|i: int|
                    0 <= i < b0.entries@.len() && b0.key_seq()[i] == (o@, t@)
                        && b.entries@ == b0.entries@.update(i, ge);
                b0.lemma_at_index(i);
                assert forall|t2: Seq<char>|
                    #[trigger] sum_for(b.entries@, t2) == sum_for(b0.entries@, t2) + (
                    if t2 == t@ {
                        v - bal_of(b0, o@, t@)
                    } else {
                        0
                    }) by {
                    lemma_sum_update(b0.entries@, i, ge, t2);
                }
            } else {
                let i = choose|i: int|
                    0 <= i <= b0.entries@.len() && b.entries@ == b0.entries@.insert(i, ge);
                assert(bal_of(b0, o@, t@) == 0);
                assert forall|t2: Seq<char>|
                    #[trigger] sum_for(b.entries@, t2) == sum_for(b0.entries@, t2) + (
                    if t2 == t@ {
                        v - bal_of(b0, o@, t@)
                    } else {
                        0
                    }) by {
                    lemma_sum_insert(b0.entries@, i, ge, t2);
                }
            }
        }
    }
    proof {
        assert forall|k: (Seq<char>, Seq<char>)|
            b.contains_key(k) && k != (ko, kt) implies b0.contains_key(k) by {
            assert(b.spec_get(k) == b0.spec_get(k));
        }
    }
}

/// Computes the circulating supply of token `t`.
pub fn supply_get(b: &PairMap<u128>, t: &str) -> (r: u128)
    requires
        bal_wf(*b),
    ensures
        r == sum_for(b.entries@, t@),
{
    let n = b.entries.len();
    let mut acc: u128 = 0;
    let mut i: usize = 0;
    proof {
        assert(b.entries@.take(0) =~= Seq::<PEntry<u128>>::empty());
    }
    while i < n
        invariant
            bal_wf(*b),
            i <= n,
            n == b.entries.len(),
            acc == sum_for(b.entries@.take(i as int), t@),
        decreases n - i,
    {
        proof {
            lemma_sum_take_step(b.entries@, i as int, t@);
            lemma_sum_take_le(b.entries@, i as int + 1, t@);
            lemma_sum_nonneg(b.entries@.take(i as int), t@);
        }
        if crate::ord::str_eq(b.entries[i].k2.as_str(), t) {
            acc = acc + b.entries[i].val;
        }
        i = i + 1;
    }
    proof {
        assert(b.entries@.take(n as int) =~= b.entries@);
    }
    acc
}

/// The whole ledger: the minter, the balance table, the approval table, the
/// token registry, the royalty registry, and the identifier sequence
/// counter.
pub struct State {
    pub minter: String,
    pub balances: PairMap<u128>,
    pub approvals: PairMap<Expiration>,
    pub tokens: StrMap<String>,
    pub royalties: StrMap<RoyaltyInfo>,
    pub token_seq: u128,
}

impl State {
    /// Every table sorted; balances zero-free, over registered tokens only,
    /// with representable supplies; recorded royalty percentages at most
    /// 100.
    pub open spec fn wf(self) -> bool {
        &&& bal_wf(self.balances)
        &&& self.approvals.wf()
        &&& self.tokens.wf()
        &&& self.royalties.wf()
        &&& forall|k: (Seq<char>, Seq<char>)|
            (#[trigger] self.balances.spec_get(k)) matches Some(v)
                ==> self.tokens.contains_key(k.1)
        &&& forall|t: Seq<char>|
            (#[trigger] self.royalties.spec_get(t)) matches Some(r) ==> (match r
                .royalty_percentage {
                Some(p) => p <= 100,
                None => true,
            })
    }

    /// The balance of owner `o` for token `t`; 0 when never set.
    pub open spec fn bal(self, o: Seq<char>, t: Seq<char>) -> u128 {
        bal_of(self.balances, o, t)
    }

    /// Whether the token identifier is registered.
    pub open spec fn registered(self, t: Seq<char>) -> bool {
        self.tokens.contains_key(t)
    }

    /// The circulating supply of token `t`.
    pub open spec fn supply(self, t: Seq<char>) -> int {
        sum_for(self.balances.entries@, t)
    }

    /// The recorded approval of `owner` for `operator`, if any.
    pub open spec fn approval_of(self, owner: Seq<char>, operator: Seq<char>) -> Option<
        Expiration,
    > {
        self.approvals.spec_get((owner, operator))
    }

    /// The authorization rule: an operator may act for an owner iff it is
    /// the owner, or holds an approval of the owner that has not expired.
    pub open spec fn authorized(self, owner: Seq<char>, operator: Seq<char>, b: BlockInfo) -> bool {
        owner == operator || (match self.approval_of(owner, operator) {
            Some(e) => !e.spec_is_expired(b),
            None => false,
        })
    }

    /// The recorded royalty terms of token `t`, if any.
    pub open spec fn royalty_of(self, t: Seq<char>) -> Option<RoyaltyInfo> {
        self.royalties.spec_get(t)
    }

    /// In a well-formed state, a token that was never registered has no
    /// holders: every balance for it is 0.
    pub proof fn lemma_unregistered_balance_zero(self, o: Seq<char>, t: Seq<char>)
        requires
            self.wf(),
            !self.registered(t),
        ensures
            self.bal(o, t) == 0,
    {
    }

    /// Decides the authorization rule.
    pub fn check_authorized(&self, owner: &str, operator: &str, b: &BlockInfo) -> (r: bool)
        requires
            self.wf(),
        ensures
            r == self.authorized(owner@, operator@, *b),
    {
        if crate::ord::str_eq(owner, operator) {
            return true;
        }
        match self.approvals.get(owner, operator) {
            Some(e) => !e.is_expired(b),
            None => false,
        }
    }
}

} // verus!
