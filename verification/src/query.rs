//! The read-only queries: balances, approvals, token metadata, royalty
//! terms, and the paginated listings.
//!
//! Every listing shares one pagination contract: `start_after` is an
//! exclusive lower bound, the limit defaults to 10 and is silently clamped
//! to 30, and results come in ascending lexicographic key order.

use vstd::prelude::*;

use vstd::arithmetic::div_mod::lemma_hoist_over_denominator;

use crate::error::ContractError;
use crate::expiration::{BlockInfo, Expiration};
use crate::msg::{Approval, ApprovedForAllResponse, BalanceResponse, BatchBalanceResponse,
    CheckRoyaltiesResponse, IsApprovedForAllResponse, RoyaltiesInfoResponse, TokenInfoResponse,
    TokensResponse};
use crate::ord::{after_bound, lex_lt, str_eq, str_lt};
use crate::state::{bal_get, State};
use crate::tables::{PEntry, PairMap};

verus! {

pub const DEFAULT_LIMIT: u32 = 10;

pub const MAX_LIMIT: u32 = 30;

/// The page size a query runs with: the default when none is given, and
/// never more than the ceiling.
pub open spec fn eff_limit(limit: Option<u32>) -> nat {
    match limit {
        Some(l) => if l <= MAX_LIMIT {
            l as nat
        } else {
            MAX_LIMIT as nat
        },
        None => DEFAULT_LIMIT as nat,
    }
}

/// Resolves the page size.
fn resolve_limit(limit: Option<u32>) -> (r: usize)
    ensures
        r == eff_limit(limit),
{
    let l = match limit {
        Some(l) => if l <= MAX_LIMIT {
            l
        } else {
            MAX_LIMIT
        },
        None => DEFAULT_LIMIT,
    };
    l as usize
}

/// One page of an ascending key sequence: the qualifying keys, from the
/// first past the bound, at most `lim` of them.
pub open spec fn page_of(keys: Seq<Seq<char>>, start: Option<Seq<char>>, lim: nat) -> Seq<
    Seq<char>,
> {
    let f = keys.filter(|k: Seq<char>| after_bound(start, k));
    f.take(if lim <= f.len() {
        lim as int
    } else {
        f.len() as int
    })
}

/// Filtering a sequence extended by one element keeps the filtered prefix.
proof fn lemma_filter_push<A>(s: Seq<A>, e: A, pred: spec_fn(A) -> bool)
    ensures
        s.push(e).filter(pred) == if pred(e) {
            s.filter(pred).push(e)
        } else {
            s.filter(pred)
        },
{
    reveal(Seq::filter);
    assert(s.push(e).drop_last() =~= s);
    assert(s.push(e).last() == e);
}

/// Keys in strictly ascending lexicographic order, as every table keeps
/// them.
pub open spec fn strictly_ascending(keys: Seq<Seq<char>>) -> bool {
    forall|i: int, j: int| 0 <= i < j < keys.len() ==> lex_lt(keys[i], keys[j])
}

/// Every element of a filtered sequence is an element of the original.
proof fn lemma_filter_sub(s: Seq<Seq<char>>, pred: spec_fn(Seq<char>) -> bool)
    ensures
        forall|i: int| 0 <= i < s.filter(pred).len() ==> s.contains(#[trigger] s.filter(pred)[i]),
    decreases s.len(),
{
    reveal(Seq::filter);
    if s.len() > 0 {
        lemma_filter_sub(s.drop_last(), pred);
        let f = s.filter(pred);
        let fp = s.drop_last().filter(pred);
        assert forall|i: int| 0 <= i < f.len() implies s.contains(#[trigger] f[i]) by {
            if pred(s.last()) && i == f.len() - 1 {
                assert(s[s.len() - 1] == f[i]);
            } else {
                assert(f[i] == fp[i]);
                assert(s.drop_last().contains(fp[i]));
                let j = choose|j: int| 0 <= j < s.drop_last().len() && s.drop_last()[j] == fp[i];
                assert(s[j] == f[i]);
            }
        }
    }
}

/// Filtering keeps a strictly ascending sequence strictly ascending.
proof fn lemma_filter_sorted(s: Seq<Seq<char>>, pred: spec_fn(Seq<char>) -> bool)
    requires
        strictly_ascending(s),
    ensures
        strictly_ascending(s.filter(pred)),
    decreases s.len(),
{
    reveal(Seq::filter);
    if s.len() > 0 {
        assert(strictly_ascending(s.drop_last())) by {
            assert(forall|i: int|
                0 <= i < s.len() - 1 ==> s.drop_last()[i] == s[i]);
        }
        lemma_filter_sorted(s.drop_last(), pred);
        let f = s.filter(pred);
        let fp = s.drop_last().filter(pred);
        if pred(s.last()) {
            lemma_filter_sub(s.drop_last(), pred);
            assert forall|i: int, j: int|
                0 <= i < j < f.len() implies lex_lt(f[i], f[j]) by {
                if j == f.len() - 1 {
                    assert(f[i] == fp[i]);
                    assert(s.drop_last().contains(fp[i]));
                    let m = choose|m: int|
                        0 <= m < s.drop_last().len() && s.drop_last()[m] == fp[i];
                    assert(lex_lt(s[m], s.last()));
                } else {
                    assert(f[i] == fp[i] && f[j] == fp[j]);
                }
            }
        }
    }
}

/// Two strictly ascending sequences with the same elements are the same
/// sequence.
proof fn lemma_sorted_same_elements(a: Seq<Seq<char>>, b: Seq<Seq<char>>)
    requires
        strictly_ascending(a),
        strictly_ascending(b),
        forall|x: Seq<char>| a.contains(x) <==> b.contains(x),
    ensures
        a == b,
    decreases a.len(),
{
    if a.len() == 0 {
        if b.len() > 0 {
            assert(b.contains(b[0]));
        }
        assert(a =~= b);
    } else {
        assert(a.contains(a[0]));
        assert(b.contains(a[0]));
        let j = choose|j: int| 0 <= j < b.len() && b[j] == a[0];
        assert(b.contains(b[0]));
        assert(a.contains(b[0]));
        let k = choose|k: int| 0 <= k < a.len() && a[k] == b[0];
        assert(a[0] == b[0]) by {
            if j > 0 {
                assert(lex_lt(b[0], b[j]));
                crate::ord::lemma_lex_asymmetric(b[0], a[0]);
                if k > 0 {
                    assert(lex_lt(a[0], a[k]));
                    crate::ord::lemma_lex_transitive(a[0], b[0], a[0]);
                    crate::ord::lemma_lex_irreflexive(a[0]);
                } else {
                    crate::ord::lemma_lex_irreflexive(a[0]);
                }
            }
        }
        let at = a.drop_first();
        let bt = b.drop_first();
        assert(strictly_ascending(at)) by {
            assert(forall|i: int| 0 <= i < a.len() - 1 ==> at[i] == a[i + 1]);
        }
        assert(strictly_ascending(bt)) by {
            assert(forall|i: int| 0 <= i < b.len() - 1 ==> bt[i] == b[i + 1]);
        }
        assert forall|x: Seq<char>| at.contains(x) <==> bt.contains(x) by {
            lemma_tail_membership(a, b, x);
            lemma_tail_membership(b, a, x);
        }
        lemma_sorted_same_elements(at, bt);
        assert(a =~= b) by {
            assert(a.len() == at.len() + 1 && b.len() == bt.len() + 1);
            assert(forall|i: int| 1 <= i < a.len() ==> a[i] == at[i - 1] && b[i] == bt[i - 1]);
        }
    }
}

/// If the tails' heads agree, membership in one tail carries to the other.
proof fn lemma_tail_membership(a: Seq<Seq<char>>, b: Seq<Seq<char>>, x: Seq<char>)
    requires
        strictly_ascending(a),
        strictly_ascending(b),
        forall|y: Seq<char>| a.contains(y) <==> b.contains(y),
        a.len() > 0,
        b.len() > 0,
        a[0] == b[0],
    ensures
        a.drop_first().contains(x) ==> b.drop_first().contains(x),
{
    if a.drop_first().contains(x) {
        let i = choose|i: int| 0 <= i < a.drop_first().len() && a.drop_first()[i] == x;
        assert(a[i + 1] == x);
        assert(a.contains(x));
        assert(lex_lt(a[0], x));
        crate::ord::lemma_lex_irreflexive(x);
        assert(x != b[0]) by {
            crate::ord::lemma_lex_asymmetric(a[0], x);
        }
        assert(b.contains(x));
        let m = choose|m: int| 0 <= m < b.len() && b[m] == x;
        assert(m != 0);
        assert(b.drop_first()[m - 1] == x);
        assert(b.drop_first().contains(x));
    }
}

/// Pagination is deterministic, with no overlap and no gap: when a full page
/// of `l1` keys comes back and the next query starts after its last key, the
/// two pages together are exactly the first `l1 + l2` qualifying keys.
pub proof fn lemma_page_chain(keys: Seq<Seq<char>>, start: Option<Seq<char>>, l1: nat, l2: nat)
    requires
        strictly_ascending(keys),
        page_of(keys, start, l1).len() == l1,
        l1 > 0,
    ensures
        page_of(keys, start, l1) + page_of(keys, Some(page_of(keys, start, l1).last()), l2)
            == page_of(keys, start, l1 + l2),
{
    let pred1 = |k: Seq<char>| after_bound(start, k);
    let f1 = keys.filter(pred1);
    broadcast use vstd::seq_lib::group_seq_properties;

    assert(f1.len() >= l1) by {
        if f1.len() < l1 {
            assert(page_of(keys, start, l1) == f1.take(f1.len() as int));
        }
    }
    let x = f1[l1 - 1];
    assert(page_of(keys, start, l1) == f1.take(l1 as int));
    assert(page_of(keys, start, l1).last() == x);
    let pred2 = |k: Seq<char>| after_bound(Some(x), k);
    let f2 = keys.filter(pred2);
    lemma_filter_sorted(keys, pred1);
    lemma_filter_sorted(keys, pred2);
    lemma_filter_sub(keys, pred1);
    lemma_filter_sub(keys, pred2);
    let f1s = f1.skip(l1 as int);
    assert(strictly_ascending(f1s)) by {
        assert(forall|i: int| 0 <= i < f1s.len() ==> f1s[i] == f1[i + l1]);
    }
    assert(pred1(x)) by {
        Seq::lemma_filter_pred(keys, pred1, l1 - 1);
    }
    assert forall|y: Seq<char>| f2.contains(y) <==> f1s.contains(y) by {
        if f2.contains(y) {
            let i = choose|i: int| 0 <= i < f2.len() && f2[i] == y;
            assert(keys.contains(f2[i]));
            assert(pred2(y)) by {
                Seq::lemma_filter_pred(keys, pred2, i);
            }
            assert(lex_lt(x, y));
            assert(pred1(y)) by {
                match start {
                    Option::None => {},
                    Option::Some(s) => {
                        crate::ord::lemma_lex_transitive(s, x, y);
                    },
                }
            }
            let j = choose|j: int| 0 <= j < keys.len() && keys[j] == y;
            assert(f1.contains(y)) by {
                Seq::lemma_filter_contains(keys, pred1, j);
            }
            let m = choose|m: int| 0 <= m < f1.len() && f1[m] == y;
            assert(m >= l1) by {
                crate::ord::lemma_lex_irreflexive(x);
                crate::ord::lemma_lex_asymmetric(x, y);
                if m < l1 - 1 {
                    assert(lex_lt(f1[m], x));
                }
            }
            assert(f1s[m - l1] == y);
            assert(f1s.contains(y));
        }
        if f1s.contains(y) {
            let i = choose|i: int| 0 <= i < f1s.len() && f1s[i] == y;
            assert(f1[i + l1] == y);
            assert(lex_lt(x, y));
            assert(keys.contains(f1[i + l1]));
            let j = choose|j: int| 0 <= j < keys.len() && keys[j] == y;
            assert(pred2(y));
            assert(f2.contains(y)) by {
                Seq::lemma_filter_contains(keys, pred2, j);
            }
        }
    }
    lemma_sorted_same_elements(f2, f1s);
    let m2: int = if l2 <= f2.len() {
        l2 as int
    } else {
        f2.len() as int
    };
    assert(page_of(keys, Some(x), l2) == f2.take(m2));
    assert(f1.take(l1 as int) + f1s.take(m2) =~= f1.take(l1 + m2));
    assert(page_of(keys, start, l1 + l2) == f1.take(l1 + m2)) by {
        assert(f2.len() == f1.len() - l1);
    }
}

/// The owner's balance for one token identifier; 0 if never set.
pub fn balance(state: &State, owner: &str, token_id: &str) -> (r: BalanceResponse)
    requires
        state.wf(),
    ensures
        r.balance == state.bal(owner@, token_id@),
{
    BalanceResponse { balance: bal_get(&state.balances, owner, token_id) }
}

/// The owner's balances for several token identifiers, in the order asked.
pub fn batch_balance(state: &State, owner: &str, token_ids: &Vec<String>) -> (r:
    BatchBalanceResponse)
    requires
        state.wf(),
    ensures
        r.balances@.len() == token_ids@.len(),
        forall|i: int|
            0 <= i < token_ids@.len() ==> r.balances@[i] == state.bal(
                owner@,
                token_ids@[i]@,
            ),
{
    let n = token_ids.len();
    let mut balances: Vec<u128> = Vec::new();
    let mut i: usize = 0;
    while i < n
        invariant
            state.wf(),
            i <= n,
            n == token_ids@.len(),
            balances@.len() == i,
            forall|j: int| 0 <= j < i ==> balances@[j] == state.bal(owner@, token_ids@[j]@),
        decreases n - i,
    {
        balances.push(bal_get(&state.balances, owner, token_ids[i].as_str()));
        i = i + 1;
    }
    BatchBalanceResponse { balances }
}

/// Whether the operator currently counts as approved for the owner.
pub fn is_approved_for_all(state: &State, env: &BlockInfo, owner: &str, operator: &str) -> (r:
    IsApprovedForAllResponse)
    requires
        state.wf(),
    ensures
        r.approved == state.authorized(owner@, operator@, *env),
{
    IsApprovedForAllResponse { approved: state.check_authorized(owner, operator, env) }
}

/// The metadata URL of a registered token identifier.
pub fn token_info(state: &State, token_id: &str) -> (r: Result<TokenInfoResponse, ContractError>)
    requires
        state.wf(),
    ensures
        match r {
            Ok(resp) => state.tokens.spec_get(token_id@) matches Some(u) && resp.url@ == u@,
            Err(e) => e == ContractError::NotFound && !state.registered(token_id@),
        },
{
    match state.tokens.get(token_id) {
        Some(u) => Ok(TokenInfoResponse { url: u.clone() }),
        None => Err(ContractError::NotFound),
    }
}

/// Whether the ledger exposes royalty terms at all: always, since they are
/// kept per token.
pub fn check_royalties(_state: &State) -> (r: CheckRoyaltiesResponse)
    ensures
        r.royalty_payments == true,
{
    CheckRoyaltiesResponse { royalty_payments: true }
}

/// The royalty owed on a sale: `floor(sale_price * percentage / 100)`,
/// rounding down by design. A missing percentage counts as 0 and a missing
/// payee as the empty string; a missing record altogether is an error.
pub fn query_royalties_info(state: &State, token_id: &str, sale_price: u128) -> (r: Result<
    RoyaltiesInfoResponse,
    ContractError,
>)
    requires
        state.wf(),
    ensures
        match r {
            Ok(resp) => state.royalty_of(token_id@) matches Some(ri) && {
                let pct: int = match ri.royalty_percentage {
                    Some(p) => p as int,
                    None => 0,
                };
                &&& resp.royalty_amount as int == (sale_price as int * pct) / 100
                &&& resp.address@ == (match ri.royalty_payment_address {
                    Some(a) => a@,
                    None => Seq::<char>::empty(),
                })
            },
            Err(e) => e == ContractError::NotFound && state.royalty_of(token_id@) is None,
        },
{
    let ri = match state.royalties.get(token_id) {
        Some(ri) => ri,
        None => {
            return Err(ContractError::NotFound);
        },
    };
    let pct: u64 = match ri.royalty_percentage {
        Some(p) => p,
        None => 0,
    };
    proof {
        assert(state.royalty_of(token_id@) matches Some(x));
        assert(pct <= 100);
    }
    let q = sale_price / 100;
    let rm = sale_price % 100;
    proof {
        let s = sale_price as int;
        let p = pct as int;
        assert(s == 100 * q + rm);
        assert((100 * q + rm) * p == (q * p) * 100 + rm * p) by (nonlinear_arith);
        lemma_hoist_over_denominator(rm * p, q * p, 100);
        assert((rm * p) / 100 + q * p == (rm * p + (q * p) * 100) / 100);
        assert((q * p) + (rm * p) / 100 == (s * p) / 100);
        assert(s * p <= s * 100) by (nonlinear_arith)
            requires
                p <= 100,
                s >= 0,
        ;
        assert((s * p) / 100 <= (s * 100) / 100) by {
            vstd::arithmetic::div_mod::lemma_div_is_ordered(s * p, s * 100, 100);
        }
        assert((s * 100) / 100 == s) by (nonlinear_arith);
        assert(rm * p >= 0 && q * p >= 0) by (nonlinear_arith)
            requires
                rm >= 0 && q >= 0 && p >= 0,
        ;
        assert((rm * p) / 100 >= 0);
        assert(q * p <= s * p / 100 + 1 - 1);
        assert(q * p + (rm * p) / 100 <= s);
        assert(rm * p <= 9900) by (nonlinear_arith)
            requires
                rm < 100,
                p <= 100,
                rm >= 0,
                p >= 0,
        ;
    }
    let royalty_amount = q * (pct as u128) + (rm * (pct as u128)) / 100;
    let address = match &ri.royalty_payment_address {
        Some(a) => a.clone(),
        None => String::new(),
    };
    Ok(RoyaltiesInfoResponse { address, royalty_amount })
}

/// All registered token identifiers past `start_after`, ascending, at most
/// the limit of them.
pub fn all_tokens(state: &State, start_after: Option<String>, limit: Option<u32>) -> (r:
    TokensResponse)
    requires
        state.wf(),
    ensures
        r.tokens@.map_values(|s: String| s@) == page_of(
            state.tokens.key_seq(),
            crate::execute::opt_str_view(start_after),
            eff_limit(limit),
        ),
{
    let lim = resolve_limit(limit);
    let ghost keys = state.tokens.key_seq();
    let ghost start = crate::execute::opt_str_view(start_after);
    let ghost pred = |k: Seq<char>| after_bound(start, k);
    let n = state.tokens.entries.len();
    let mut out: Vec<String> = Vec::new();
    let mut i: usize = 0;
    proof {
        assert(keys.take(0) =~= Seq::<Seq<char>>::empty());
        reveal(Seq::filter);
    }
    while i < n && out.len() < lim
        invariant
            state.wf(),
            i <= n,
            n == state.tokens.entries@.len(),
            keys == state.tokens.key_seq(),
            start == crate::execute::opt_str_view(start_after),
            pred == (|k: Seq<char>| after_bound(start, k)),
            out@.map_values(|s: String| s@) == keys.take(i as int).filter(pred),
            out@.len() <= lim,
        decreases n - i,
    {
        let e = &state.tokens.entries[i];
        let keep = match &start_after {
            None => true,
            Some(s) => str_lt(s.as_str(), e.key.as_str()),
        };
        proof {
            assert(keys[i as int] == state.tokens.entries@[i as int].key@);
            lemma_filter_push(keys.take(i as int), keys[i as int], pred);
            assert(keys.take(i as int).push(keys[i as int]) =~= keys.take(i as int + 1));
        }
        if keep {
            out.push(e.key.clone());
            proof {
                assert(out@.map_values(|s: String| s@) =~= keys.take(i as int).filter(
                    pred,
                ).push(e.key@));
            }
        }
        i = i + 1;
    }
    proof {
        let f = keys.filter(pred);
        let cut = if eff_limit(limit) <= f.len() {
            eff_limit(limit) as int
        } else {
            f.len() as int
        };
        if i == n {
            assert(keys.take(n as int) =~= keys);
            if out@.len() < lim {
                assert(out@.map_values(|s: String| s@) =~= f.take(cut));
            } else {
                assert(out@.map_values(|s: String| s@) =~= f.take(cut));
            }
        } else {
            assert(out@.len() == lim);
            assert(keys =~= keys.take(i as int) + keys.skip(i as int));
            Seq::<Seq<char>>::filter_distributes_over_add(
                keys.take(i as int),
                keys.skip(i as int),
                pred,
            );
            assert(f == keys.take(i as int).filter(pred) + keys.skip(i as int).filter(pred));
            assert(out@.map_values(|s: String| s@) =~= f.take(cut));
        }
    }
    TokensResponse { tokens: out }
}

/// One page of the tokens an owner holds: the second components of the
/// owner's balance keys past the bound.
pub open spec fn owner_tokens_page(
    b: PairMap<u128>,
    owner: Seq<char>,
    start: Option<Seq<char>>,
    lim: nat,
) -> Seq<Seq<char>> {
    let f = b.key_seq().filter(
        |k: (Seq<char>, Seq<char>)| k.0 == owner && after_bound(start, k.1),
    );
    f.take(if lim <= f.len() {
        lim as int
    } else {
        f.len() as int
    }).map_values(|k: (Seq<char>, Seq<char>)| k.1)
}

/// The token identifiers `owner` holds a balance in, past `start_after`,
/// ascending, at most the limit of them.
pub fn tokens(state: &State, owner: &str, start_after: Option<String>, limit: Option<u32>) -> (r:
    TokensResponse)
    requires
        state.wf(),
    ensures
        r.tokens@.map_values(|s: String| s@) == owner_tokens_page(
            state.balances,
            owner@,
            crate::execute::opt_str_view(start_after),
            eff_limit(limit),
        ),
{
    let lim = resolve_limit(limit);
    let ghost keys = state.balances.key_seq();
    let ghost start = crate::execute::opt_str_view(start_after);
    let ghost pred = |k: (Seq<char>, Seq<char>)| k.0 == owner@ && after_bound(start, k.1);
    let n = state.balances.entries.len();
    let mut out: Vec<String> = Vec::new();
    let mut i: usize = 0;
    proof {
        assert(keys.take(0) =~= Seq::<(Seq<char>, Seq<char>)>::empty());
        reveal(Seq::filter);
    }
    while i < n && out.len() < lim
        invariant
            state.wf(),
            i <= n,
            n == state.balances.entries@.len(),
            keys == state.balances.key_seq(),
            start == crate::execute::opt_str_view(start_after),
            pred == (|k: (Seq<char>, Seq<char>)| k.0 == owner@ && after_bound(start, k.1)),
            out@.map_values(|s: String| s@) == keys.take(i as int).filter(pred).map_values(
                |k: (Seq<char>, Seq<char>)| k.1,
            ),
            out@.len() <= lim,
        decreases n - i,
    {
        let e = &state.balances.entries[i];
        let keep = str_eq(e.k1.as_str(), owner) && (match &start_after {
            None => true,
            Some(s) => str_lt(s.as_str(), e.k2.as_str()),
        });
        proof {
            assert(keys[i as int] == (state.balances.entries@[i as int].k1@,
                state.balances.entries@[i as int].k2@));
            lemma_filter_push(keys.take(i as int), keys[i as int], pred);
            assert(keys.take(i as int).push(keys[i as int]) =~= keys.take(i as int + 1));
        }
        if keep {
            let ghost out0 = out@;
            out.push(e.k2.clone());
            proof {
                assert(pred(keys[i as int]));
                assert(keys.take(i as int + 1).filter(pred) == keys.take(i as int).filter(
                    pred,
                ).push(keys[i as int]));
                assert(out@ == out0.push(out@[out0.len() as int]));
                assert(out@.map_values(|s: String| s@) =~= out0.map_values(
                    |s: String| s@,
                ).push(e.k2@));
                assert(keys.take(i as int + 1).filter(pred).map_values(
                    |k: (Seq<char>, Seq<char>)| k.1,
                ) =~= keys.take(i as int).filter(pred).map_values(
                    |k: (Seq<char>, Seq<char>)| k.1,
                ).push(keys[i as int].1));
                assert(keys[i as int].1 == e.k2@);
            }
        } else {
            proof {
                assert(!pred(keys[i as int]));
            }
        }
        i = i + 1;
    }
    proof {
        let f = keys.filter(pred);
        let cut = if eff_limit(limit) <= f.len() {
            eff_limit(limit) as int
        } else {
            f.len() as int
        };
        if i == n {
            assert(keys.take(n as int) =~= keys);
            assert(out@.map_values(|s: String| s@) =~= f.take(cut).map_values(
                |k: (Seq<char>, Seq<char>)| k.1,
            ));
        } else {
            assert(out@.len() == lim);
            assert(keys =~= keys.take(i as int) + keys.skip(i as int));
            Seq::<(Seq<char>, Seq<char>)>::filter_distributes_over_add(
                keys.take(i as int),
                keys.skip(i as int),
                pred,
            );
            assert(out@.map_values(|s: String| s@) =~= f.take(cut).map_values(
                |k: (Seq<char>, Seq<char>)| k.1,
            ));
        }
    }
    TokensResponse { tokens: out }
}

/// One page of an owner's approvals: the qualifying entries in storage
/// order, as operator/expiry pairs.
pub open spec fn approvals_page(
    a: PairMap<Expiration>,
    owner: Seq<char>,
    include_expired: bool,
    env: BlockInfo,
    start: Option<Seq<char>>,
    lim: nat,
) -> Seq<(Seq<char>, Expiration)> {
    let f = a.entries@.filter(
        |e: PEntry<Expiration>| e.k1@ == owner && after_bound(start, e.k2@) && (include_expired
            || !e.val.spec_is_expired(env)),
    );
    f.take(if lim <= f.len() {
        lim as int
    } else {
        f.len() as int
    }).map_values(|e: PEntry<Expiration>| (e.k2@, e.val))
}

/// The operators holding an approval of `owner`, ascending by operator.
/// Expired approvals are filtered out before the limit is applied, unless
/// `include_expired` asks for them.
pub fn approved_for_all(
    state: &State,
    env: &BlockInfo,
    owner: &str,
    include_expired: bool,
    start_after: Option<String>,
    limit: Option<u32>,
) -> (r: ApprovedForAllResponse)
    requires
        state.wf(),
    ensures
        r.operators@.map_values(|a: Approval| (a.spender@, a.expires)) == approvals_page(
            state.approvals,
            owner@,
            include_expired,
            *env,
            crate::execute::opt_str_view(start_after),
            eff_limit(limit),
        ),
{
    let lim = resolve_limit(limit);
    let ghost entries = state.approvals.entries@;
    let ghost start = crate::execute::opt_str_view(start_after);
    let ghost pred = |e: PEntry<Expiration>| e.k1@ == owner@ && after_bound(start, e.k2@) && (
    include_expired || !e.val.spec_is_expired(*env));
    let n = state.approvals.entries.len();
    let mut out: Vec<Approval> = Vec::new();
    let mut i: usize = 0;
    proof {
        assert(entries.take(0) =~= Seq::<PEntry<Expiration>>::empty());
        reveal(Seq::filter);
    }
    while i < n && out.len() < lim
        invariant
            state.wf(),
            i <= n,
            n == entries.len(),
            entries == state.approvals.entries@,
            start == crate::execute::opt_str_view(start_after),
            pred == (|e: PEntry<Expiration>| e.k1@ == owner@ && after_bound(start, e.k2@) && (
            include_expired || !e.val.spec_is_expired(*env))),
            out@.map_values(|a: Approval| (a.spender@, a.expires)) == entries.take(
                i as int,
            ).filter(pred).map_values(|e: PEntry<Expiration>| (e.k2@, e.val)),
            out@.len() <= lim,
        decreases n - i,
    {
        let e = &state.approvals.entries[i];
        let keep = str_eq(e.k1.as_str(), owner) && (match &start_after {
            None => true,
            Some(s) => str_lt(s.as_str(), e.k2.as_str()),
        }) && (include_expired || !e.val.is_expired(env));
        proof {
            lemma_filter_push(entries.take(i as int), entries[i as int], pred);
            assert(entries.take(i as int).push(entries[i as int]) =~= entries.take(
                i as int + 1,
            ));
        }
        if keep {
            let ghost out0 = out@;
            out.push(Approval { spender: e.k2.clone(), expires: e.val });
            proof {
                assert(pred(entries[i as int]));
                assert(entries.take(i as int + 1).filter(pred) == entries.take(
                    i as int,
                ).filter(pred).push(entries[i as int]));
                assert(out@ == out0.push(out@[out0.len() as int]));
                assert(out@.map_values(|a: Approval| (a.spender@, a.expires)) =~= out0.map_values(
                    |a: Approval| (a.spender@, a.expires),
                ).push((e.k2@, e.val)));
                assert(entries.take(i as int + 1).filter(pred).map_values(
                    |e2: PEntry<Expiration>| (e2.k2@, e2.val),
                ) =~= entries.take(i as int).filter(pred).map_values(
                    |e2: PEntry<Expiration>| (e2.k2@, e2.val),
                ).push((entries[i as int].k2@, entries[i as int].val)));
                assert(entries[i as int].k2@ == e.k2@ && entries[i as int].val == e.val);
            }
        } else {
            proof {
                assert(!pred(entries[i as int]));
            }
        }
        i = i + 1;
    }
    proof {
        let f = entries.filter(pred);
        let cut = if eff_limit(limit) <= f.len() {
            eff_limit(limit) as int
        } else {
            f.len() as int
        };
        if i == n {
            assert(entries.take(n as int) =~= entries);
            assert(out@.map_values(|a: Approval| (a.spender@, a.expires)) =~= f.take(
                cut,
            ).map_values(|e2: PEntry<Expiration>| (e2.k2@, e2.val)));
        } else {
            assert(out@.len() == lim);
            assert(entries =~= entries.take(i as int) + entries.skip(i as int));
            Seq::<PEntry<Expiration>>::filter_distributes_over_add(
                entries.take(i as int),
                entries.skip(i as int),
                pred,
            );
            assert(out@.map_values(|a: Approval| (a.spender@, a.expires)) =~= f.take(
                cut,
            ).map_values(|e2: PEntry<Expiration>| (e2.k2@, e2.val)));
        }
    }
    ApprovedForAllResponse { operators: out }
}

} // verus!
