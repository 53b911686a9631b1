//! The state-mutating operations: transfer, mint, burn, their batch forms,
//! and approval grant/revoke.
//!
//! Every operation either succeeds with the state change its contract
//! states, or fails with one specific error and no state change at all.
//! Batch forms work on a scratch copy of the affected tables and commit it
//! only once every element has been applied, so a failing element leaves the
//! ledger exactly as it was.

use vstd::prelude::*;

use crate::error::ContractError;
use crate::expiration::{BlockInfo, Expiration};
use crate::ids::{dec_str, dec_string};
use crate::msg::{Notification, Response, TokenId};
use crate::ord::str_eq;
use crate::state::{bal_get, bal_of, bal_wf, lemma_bal_le_sum, set_bal, supply_get, sum_for,
    RoyaltyInfo, State};
use crate::tables::{PEntry, PairMap, SEntry, StrMap};

verus! {

/// The caller's identity and the logical time of the call.
pub struct ExecuteEnv {
    pub sender: String,
    pub block: BlockInfo,
}

pub open spec fn opt_str_view(o: Option<String>) -> Option<Seq<char>> {
    match o {
        Some(s) => Some(s@),
        None => None,
    }
}

pub open spec fn opt_bytes_view(o: Option<Vec<u8>>) -> Option<Seq<u8>> {
    match o {
        Some(b) => Some(b@),
        None => None,
    }
}

/// The pairs of a batch, by view.
pub open spec fn batch_views(b: Seq<(String, u128)>) -> Seq<(Seq<char>, u128)> {
    b.map_values(|p: (String, u128)| (p.0@, p.1))
}

/// A single-pair notification, owed exactly when a callback payload was
/// supplied.
pub open spec fn receive_note(
    ns: Seq<Notification>,
    operator: Seq<char>,
    from: Option<Seq<char>>,
    to: Seq<char>,
    token: Seq<char>,
    amount: u128,
    payload: Option<Seq<u8>>,
) -> bool {
    match payload {
        Some(p) => ns.len() == 1 && (ns[0] matches Notification::Receive {
            operator: op,
            from: f,
            to: t2,
            token_id: tid,
            amount: am,
            payload: pl,
        } && op@ == operator && opt_str_view(f) == from && t2@ == to && tid@ == token && am
            == amount && pl@ == p),
        None => ns.len() == 0,
    }
}

/// A batch notification, owed exactly when a callback payload was supplied.
pub open spec fn batch_receive_note(
    ns: Seq<Notification>,
    operator: Seq<char>,
    from: Option<Seq<char>>,
    to: Seq<char>,
    batch: Seq<(Seq<char>, u128)>,
    payload: Option<Seq<u8>>,
) -> bool {
    match payload {
        Some(p) => ns.len() == 1 && (ns[0] matches Notification::BatchReceive {
            operator: op,
            from: f,
            to: t2,
            batch: bt,
            payload: pl,
        } && op@ == operator && opt_str_view(f) == from && t2@ == to && batch_views(bt@) == batch
            && pl@ == p),
        None => ns.len() == 0,
    }
}

/// A key present in the table witnesses that some owner holds its token.
proof fn lemma_key_split(b: PairMap<u128>, k: (Seq<char>, Seq<char>))
    requires
        b.contains_key(k),
    ensures
        exists|o2: Seq<char>| b.contains_key((o2, k.1)),
{
    let i = choose|i: int| 0 <= i < b.entries.len() && b.key_seq()[i] == k;
    assert(b.key_seq()[i] == (b.entries@[i].k1@, b.entries@[i].k2@));
    assert(b.entries@[i].k2@ == k.1);
    assert(b.contains_key((b.entries@[i].k1@, k.1)));
}

/// Every key of an unchanged table trivially witnesses itself.
proof fn lemma_support_refl(b: PairMap<u128>)
    ensures
        forall|k: (Seq<char>, Seq<char>)|
            #[trigger] b.contains_key(k) ==> exists|o2: Seq<char>| b.contains_key((o2, k.1)),
{
    assert forall|k: (Seq<char>, Seq<char>)|
        #[trigger] b.contains_key(k) implies exists|o2: Seq<char>| b.contains_key(
        (o2, k.1),
    ) by {
        lemma_key_split(b, k);
    }
}

/// Debits `from` and credits `to` by `amount` of `token` in the balance
/// table alone; authorization is the caller's concern.
fn transfer_step(b: &mut PairMap<u128>, from: &str, to: &str, token: &str, amount: u128) -> (r:
    Result<(), ContractError>)
    requires
        bal_wf(*old(b)),
    ensures
        bal_wf(*final(b)),
        r matches Ok(_) <==> amount <= bal_of(*old(b), from@, token@),
        r matches Err(e) ==> e == ContractError::InsufficientBalance && *final(b) == *old(b),
        r matches Ok(_) ==> forall|o2: Seq<char>, t2: Seq<char>|
            bal_of(*final(b), o2, t2) as int == (if t2 == token@ && o2 == from@ && o2 != to@ {
                bal_of(*old(b), o2, t2) - amount
            } else if t2 == token@ && o2 == to@ && o2 != from@ {
                bal_of(*old(b), o2, t2) + amount
            } else {
                bal_of(*old(b), o2, t2) as int
            }),
        forall|t2: Seq<char>|
            #[trigger] sum_for(final(b).entries@, t2) == sum_for(old(b).entries@, t2),
        forall|k: (Seq<char>, Seq<char>)|
            #[trigger] final(b).contains_key(k) ==> exists|o2: Seq<char>|
                old(b).contains_key((o2, k.1)),
    {
    let from_bal = bal_get(b, from, token);
    if amount > from_bal {
        proof {
            lemma_support_refl(*b);
        }
        return Err(ContractError::InsufficientBalance);
    }
    if str_eq(from, to) {
        proof {
            lemma_support_refl(*b);
        }
        return Ok(());
    }
    let ghost b0 = *b;
    set_bal(b, from.to_owned(), token.to_owned(), from_bal - amount);
    let to_bal = bal_get(b, to, token);
    proof {
        lemma_bal_le_sum(*b, to@, token@);
        assert(sum_for(b.entries@, token@) == sum_for(b0.entries@, token@) - amount);
        assert(sum_for(b0.entries@, token@) <= u128::MAX);
        assert(to_bal + amount <= u128::MAX);
    }
    let ghost b1 = *b;
    set_bal(b, to.to_owned(), token.to_owned(), to_bal + amount);
    proof {
        assert forall|k: (Seq<char>, Seq<char>)|
            #[trigger] b.contains_key(k) implies exists|o2: Seq<char>|
            b0.contains_key((o2, k.1)) by {
            if b1.contains_key(k) {
                if b0.contains_key(k) {
                    lemma_key_split(b0, k);
                } else {
                    assert(k == (from@, token@));
                    assert(k.1 == token@);
                    assert(bal_of(b1, from@, token@) > 0);
                    assert(bal_of(b0, from@, token@) >= bal_of(b1, from@, token@));
                    assert(b0.spec_get((from@, token@)) matches Some(x));
                    assert(b0.contains_key((from@, k.1)));
                }
            } else {
                assert(k == (to@, token@));
                assert(k.1 == token@);
                assert(bal_of(*b, to@, token@) > 0);
                if amount > 0 {
                    assert(bal_of(b0, from@, token@) > 0);
                    assert(b0.spec_get((from@, token@)) matches Some(x));
                    assert(b0.contains_key((from@, k.1)));
                } else {
                    assert((to@, token@) != (from@, token@));
                    assert(bal_of(b1, to@, token@) > 0);
                    assert(b1.spec_get((to@, token@)) matches Some(x));
                    assert(b1.contains_key((to@, token@)));
                    assert(b0.contains_key((to@, k.1)));
                }
            }
        }
    }
    Ok(())
}

/// Registers `token` if absent (with an empty metadata URL) and credits `to`
/// by `amount` in the balance table; minter authorization is the caller's
/// concern.
fn mint_step(b: &mut PairMap<u128>, reg: &mut StrMap<String>, to: &str, token: &str, amount: u128)
    -> (r: Result<(), ContractError>)
    requires
        bal_wf(*old(b)),
        old(reg).wf(),
    ensures
        bal_wf(*final(b)),
        final(reg).wf(),
        r matches Ok(_) <==> sum_for(old(b).entries@, token@) + amount <= u128::MAX,
        r matches Err(e) ==> e == ContractError::Overflow && *final(b) == *old(b) && *final(reg)
            == *old(reg),
        r matches Ok(_) ==> forall|o2: Seq<char>, t2: Seq<char>|
            bal_of(*final(b), o2, t2) as int == (if o2 == to@ && t2 == token@ {
                bal_of(*old(b), o2, t2) + amount
            } else {
                bal_of(*old(b), o2, t2) as int
            }),
        r matches Ok(_) ==> forall|t2: Seq<char>|
            #[trigger] sum_for(final(b).entries@, t2) == sum_for(old(b).entries@, t2) + (if t2
                == token@ {
                amount as int
            } else {
                0
            }),
        r matches Ok(_) ==> {
            &&& final(reg).contains_key(token@)
            &&& forall|t2: Seq<char>|
                t2 != token@ ==> final(reg).spec_get(t2) == old(reg).spec_get(t2)
            &&& old(reg).contains_key(token@) ==> final(reg).spec_get(token@) == old(
                reg,
            ).spec_get(token@)
            &&& !old(reg).contains_key(token@) ==> (final(reg).spec_get(token@) matches Some(u)
                && u@ == Seq::<char>::empty())
        },
        forall|k: (Seq<char>, Seq<char>)|
            #[trigger] final(b).contains_key(k) ==> old(b).contains_key(k) || k == (to@, token@),
    {
    let sup = supply_get(b, token);
    if amount > u128::MAX - sup {
        return Err(ContractError::Overflow);
    }
    let registered = match reg.get(token) {
        Some(_) => true,
        None => false,
    };
    if !registered {
        reg.insert(token.to_owned(), String::new());
    }
    let cur = bal_get(b, to, token);
    proof {
        lemma_bal_le_sum(*b, to@, token@);
    }
    set_bal(b, to.to_owned(), token.to_owned(), cur + amount);
    Ok(())
}

/// Debits `from` by `amount` of `token` in the balance table alone;
/// authorization is the caller's concern.
fn burn_step(b: &mut PairMap<u128>, from: &str, token: &str, amount: u128) -> (r: Result<
    (),
    ContractError,
>)
    requires
        bal_wf(*old(b)),
    ensures
        bal_wf(*final(b)),
        r matches Ok(_) <==> amount <= bal_of(*old(b), from@, token@),
        r matches Err(e) ==> e == ContractError::InsufficientBalance && *final(b) == *old(b),
        r matches Ok(_) ==> forall|o2: Seq<char>, t2: Seq<char>|
            bal_of(*final(b), o2, t2) as int == (if o2 == from@ && t2 == token@ {
                bal_of(*old(b), o2, t2) - amount
            } else {
                bal_of(*old(b), o2, t2) as int
            }),
        r matches Ok(_) ==> forall|t2: Seq<char>|
            #[trigger] sum_for(final(b).entries@, t2) == sum_for(old(b).entries@, t2) - (if t2
                == token@ {
                amount as int
            } else {
                0
            }),
        forall|k: (Seq<char>, Seq<char>)|
            #[trigger] final(b).contains_key(k) ==> old(b).contains_key(k),
    {
    let from_bal = bal_get(b, from, token);
    if amount > from_bal {
        return Err(ContractError::InsufficientBalance);
    }
    let ghost b0 = *b;
    proof {
        crate::state::lemma_sum_nonneg(b.entries@, token@);
        lemma_bal_le_sum(*b, from@, token@);
    }
    set_bal(b, from.to_owned(), token.to_owned(), from_bal - amount);
    Ok(())
}

/// What a successful transfer does to the state: `from` loses `amount` of
/// `t`, `to` gains it, every other balance, every supply, and every other
/// component is unchanged.
pub open spec fn transfer_applied(
    s0: State,
    s1: State,
    from: Seq<char>,
    to: Seq<char>,
    t: Seq<char>,
    amount: u128,
) -> bool {
    &&& amount <= s0.bal(from, t)
    &&& forall|o2: Seq<char>, t2: Seq<char>|
        s1.bal(o2, t2) as int == (if t2 == t && o2 == from && o2 != to {
            s0.bal(o2, t2) - amount
        } else if t2 == t && o2 == to && o2 != from {
            s0.bal(o2, t2) + amount
        } else {
            s0.bal(o2, t2) as int
        })
    &&& forall|t2: Seq<char>| #[trigger] s1.supply(t2) == s0.supply(t2)
    &&& s1.approvals == s0.approvals
    &&& s1.tokens == s0.tokens
    &&& s1.royalties == s0.royalties
    &&& s1.minter == s0.minter
    &&& s1.token_seq == s0.token_seq
}

/// The complete contract of [`send_from`].
pub open spec fn send_from_spec(
    s0: State,
    env: ExecuteEnv,
    from: Seq<char>,
    to: Seq<char>,
    t: Seq<char>,
    value: u128,
    payload: Option<Seq<u8>>,
    s1: State,
    r: Result<Response, ContractError>,
) -> bool {
    let auth = s0.authorized(from, env.sender@, env.block);
    match r {
        Ok(resp) => {
            &&& auth
            &&& value <= s0.bal(from, t)
            &&& transfer_applied(s0, s1, from, to, t, value)
            &&& receive_note(resp.notifications@, env.sender@, Some(from), to, t, value, payload)
        },
        Err(e) => {
            &&& s1 == s0
            &&& if !auth {
                e == ContractError::Unauthorized
            } else {
                value > s0.bal(from, t) && e == ContractError::InsufficientBalance
            }
        },
    }
}

/// Moves `value` of `token_id` from `from` to `to`, if the sender is `from`
/// or holds an unexpired approval of `from`, and `from`'s balance covers it.
/// A zero `value` is legal and still checks authorization.
pub fn send_from(
    state: &mut State,
    env: &ExecuteEnv,
    from: &str,
    to: &str,
    token_id: &str,
    value: u128,
    msg: Option<Vec<u8>>,
) -> (r: Result<Response, ContractError>)
    requires
        old(state).wf(),
    ensures
        final(state).wf(),
        send_from_spec(
            *old(state),
            *env,
            from@,
            to@,
            token_id@,
            value,
            opt_bytes_view(msg),
            *final(state),
            r,
        ),
{
    if !state.check_authorized(from, env.sender.as_str(), &env.block) {
        return Err(ContractError::Unauthorized);
    }
    let ghost s0 = *state;
    match transfer_step(&mut state.balances, from, to, token_id, value) {
        Ok(_) => {},
        Err(e) => {
            return Err(e);
        },
    }
    let notifications = build_receive(
        env,
        Some(from.to_owned()),
        to,
        token_id,
        value,
        msg,
    );
    proof {
        assert forall|k: (Seq<char>, Seq<char>)|
            (#[trigger] state.balances.spec_get(k)) matches Some(v) implies
            state.tokens.contains_key(k.1) by {
            assert(state.balances.contains_key(k));
            let o2 = choose|o2: Seq<char>| s0.balances.contains_key((o2, k.1));
            assert(s0.balances.spec_get((o2, k.1)) matches Some(x));
        }
    }
    Ok(Response { notifications })
}

/// Builds the notification list for a single-pair operation.
fn build_receive(
    env: &ExecuteEnv,
    from: Option<String>,
    to: &str,
    token_id: &str,
    amount: u128,
    msg: Option<Vec<u8>>,
) -> (ns: Vec<Notification>)
    ensures
        receive_note(
            ns@,
            env.sender@,
            opt_str_view(from),
            to@,
            token_id@,
            amount,
            opt_bytes_view(msg),
        ),
{
    let mut ns: Vec<Notification> = Vec::new();
    match msg {
        Some(payload) => {
            ns.push(
                Notification::Receive {
                    operator: env.sender.clone(),
                    from,
                    to: to.to_owned(),
                    token_id: token_id.to_owned(),
                    amount,
                    payload,
                },
            );
        },
        None => {},
    }
    ns
}

/// The token identifier a mint resolves to: the given one, or the decimal
/// rendering of the sequence counter when none is given.
pub open spec fn resolved_token(s0: State, token_id: Option<String>) -> Seq<char> {
    match token_id {
        Some(id) => id@,
        None => dec_str(s0.token_seq),
    }
}

/// What a successful mint does to the state: `to` gains `value` of `t`
/// (freshly registered if absent, with an empty metadata URL), royalty terms
/// are recorded iff the token is new and terms were supplied, and the
/// sequence counter advances iff the identifier was auto-assigned.
pub open spec fn mint_applied(
    s0: State,
    s1: State,
    to: Seq<char>,
    t: Seq<char>,
    value: u128,
    pct: Option<u64>,
    addr: Option<Seq<char>>,
    auto: bool,
) -> bool {
    &&& s0.supply(t) + value <= u128::MAX
    &&& forall|o2: Seq<char>, t2: Seq<char>|
        s1.bal(o2, t2) as int == (if o2 == to && t2 == t {
            s0.bal(o2, t2) + value
        } else {
            s0.bal(o2, t2) as int
        })
    &&& forall|t2: Seq<char>|
        #[trigger] s1.supply(t2) == s0.supply(t2) + (if t2 == t {
            value as int
        } else {
            0
        })
    &&& s1.registered(t)
    &&& forall|t2: Seq<char>| t2 != t ==> s1.tokens.spec_get(t2) == s0.tokens.spec_get(t2)
    &&& s0.registered(t) ==> s1.tokens.spec_get(t) == s0.tokens.spec_get(t)
    &&& !s0.registered(t) ==> (s1.tokens.spec_get(t) matches Some(u) && u@ == Seq::<
        char,
    >::empty())
    &&& if !s0.registered(t) && (pct is Some || addr is Some) {
        &&& (s1.royalty_of(t) matches Some(ri) && ri.royalty_percentage == pct && opt_str_view(
            ri.royalty_payment_address,
        ) == addr)
        &&& forall|t2: Seq<char>| t2 != t ==> s1.royalty_of(t2) == s0.royalty_of(t2)
    } else {
        s1.royalties == s0.royalties
    }
    &&& s1.token_seq as int == if auto {
        s0.token_seq + 1
    } else {
        s0.token_seq as int
    }
    &&& s1.approvals == s0.approvals
    &&& s1.minter == s0.minter
}

/// The complete contract of [`mint`], error precedence included: the minter
/// check first, then royalty validation, then representability.
pub open spec fn mint_spec(
    s0: State,
    env: ExecuteEnv,
    to: Seq<char>,
    token_id: Option<String>,
    value: u128,
    pct: Option<u64>,
    addr: Option<Seq<char>>,
    payload: Option<Seq<u8>>,
    s1: State,
    r: Result<Response, ContractError>,
) -> bool {
    let auth = env.sender@ == s0.minter@;
    let pct_ok = match pct {
        Some(p) => p <= 100,
        None => true,
    };
    let t = resolved_token(s0, token_id);
    let fits = (token_id is Some || s0.token_seq < u128::MAX) && s0.supply(t) + value
        <= u128::MAX;
    match r {
        Ok(resp) => {
            &&& auth
            &&& pct_ok
            &&& fits
            &&& mint_applied(s0, s1, to, t, value, pct, addr, token_id is None)
            &&& receive_note(resp.notifications@, env.sender@, None, to, t, value, payload)
        },
        Err(e) => {
            &&& s1 == s0
            &&& if !auth {
                e == ContractError::Unauthorized
            } else if !pct_ok {
                e == ContractError::InvalidRoyaltyPercentage
            } else {
                !fits && e == ContractError::Overflow
            }
        },
    }
}

/// Creates `value` units of a token for `to`. Only the minter may call this.
/// With no `token_id` the next identifier is drawn from the sequence
/// counter; royalty terms are recorded only at the first mint of an
/// identifier and ignored afterwards.
pub fn mint(
    state: &mut State,
    env: &ExecuteEnv,
    to: &str,
    token_id: Option<String>,
    value: u128,
    royalty_percentage: Option<u64>,
    royalty_payment_address: Option<String>,
    msg: Option<Vec<u8>>,
) -> (r: Result<Response, ContractError>)
    requires
        old(state).wf(),
    ensures
        final(state).wf(),
        mint_spec(
            *old(state),
            *env,
            to@,
            token_id,
            value,
            royalty_percentage,
            opt_str_view(royalty_payment_address),
            opt_bytes_view(msg),
            *final(state),
            r,
        ),
{
    let ghost s0 = *state;
    if !str_eq(env.sender.as_str(), state.minter.as_str()) {
        return Err(ContractError::Unauthorized);
    }
    match royalty_percentage {
        Some(p) => {
            if p > 100 {
                return Err(ContractError::InvalidRoyaltyPercentage);
            }
        },
        None => {},
    }
    let auto = match &token_id {
        Some(_) => false,
        None => true,
    };
    let id: String = match token_id {
        Some(id) => id,
        None => {
            if state.token_seq == u128::MAX {
                return Err(ContractError::Overflow);
            }
            dec_string(state.token_seq)
        },
    };
    let was_registered = match state.tokens.get(id.as_str()) {
        Some(_) => true,
        None => false,
    };
    match mint_step(&mut state.balances, &mut state.tokens, to, id.as_str(), value) {
        Ok(_) => {},
        Err(e) => {
            return Err(e);
        },
    }
    let terms_supplied = match (&royalty_percentage, &royalty_payment_address) {
        (None, None) => false,
        _ => true,
    };
    if !was_registered && terms_supplied {
        state.royalties.insert(
            id.clone(),
            RoyaltyInfo { royalty_percentage, royalty_payment_address },
        );
    }
    if auto {
        state.token_seq = state.token_seq + 1;
    }
    let notifications = build_receive(env, None, to, id.as_str(), value, msg);
    proof {
        assert forall|k: (Seq<char>, Seq<char>)|
            (#[trigger] state.balances.spec_get(k)) matches Some(v) implies
            state.tokens.contains_key(k.1) by {
            assert(state.balances.contains_key(k));
            if s0.balances.contains_key(k) {
                assert(s0.balances.spec_get(k) matches Some(x));
                assert(s0.tokens.contains_key(k.1));
                if k.1 != id@ {
                    assert(state.tokens.spec_get(k.1) == s0.tokens.spec_get(k.1));
                    assert(s0.tokens.spec_get(k.1) matches Some(u));
                }
            } else {
                assert(k == (to@, id@));
                assert(k.1 == id@);
            }
        }
    }
    Ok(Response { notifications })
}

/// The complete contract of [`burn`].
pub open spec fn burn_spec(
    s0: State,
    env: ExecuteEnv,
    from: Seq<char>,
    t: Seq<char>,
    value: u128,
    s1: State,
    r: Result<Response, ContractError>,
) -> bool {
    let auth = s0.authorized(from, env.sender@, env.block);
    match r {
        Ok(resp) => {
            &&& auth
            &&& value <= s0.bal(from, t)
            &&& burn_applied(s0, s1, from, t, value)
            &&& resp.notifications@.len() == 0
        },
        Err(e) => {
            &&& s1 == s0
            &&& if !auth {
                e == ContractError::Unauthorized
            } else {
                value > s0.bal(from, t) && e == ContractError::InsufficientBalance
            }
        },
    }
}

/// What a successful burn does to the state: `from` loses `value` of `t`,
/// the supply of `t` shrinks by it, the registry keeps the token's record,
/// and everything else is unchanged.
pub open spec fn burn_applied(
    s0: State,
    s1: State,
    from: Seq<char>,
    t: Seq<char>,
    value: u128,
) -> bool {
    &&& value <= s0.bal(from, t)
    &&& forall|o2: Seq<char>, t2: Seq<char>|
        s1.bal(o2, t2) as int == (if o2 == from && t2 == t {
            s0.bal(o2, t2) - value
        } else {
            s0.bal(o2, t2) as int
        })
    &&& forall|t2: Seq<char>|
        #[trigger] s1.supply(t2) == s0.supply(t2) - (if t2 == t {
            value as int
        } else {
            0
        })
    &&& s1.approvals == s0.approvals
    &&& s1.tokens == s0.tokens
    &&& s1.royalties == s0.royalties
    &&& s1.minter == s0.minter
    &&& s1.token_seq == s0.token_seq
}

/// Destroys `value` of `token_id` held by `from`, if the sender is `from` or
/// holds an unexpired approval of `from`, and the balance covers it. The
/// token's registry record survives even if its supply reaches zero.
pub fn burn(state: &mut State, env: &ExecuteEnv, from: &str, token_id: &str, value: u128) -> (r:
    Result<Response, ContractError>)
    requires
        old(state).wf(),
    ensures
        final(state).wf(),
        burn_spec(*old(state), *env, from@, token_id@, value, *final(state), r),
{
    if !state.check_authorized(from, env.sender.as_str(), &env.block) {
        return Err(ContractError::Unauthorized);
    }
    let ghost s0 = *state;
    match burn_step(&mut state.balances, from, token_id, value) {
        Ok(_) => {},
        Err(e) => {
            return Err(e);
        },
    }
    proof {
        assert forall|k: (Seq<char>, Seq<char>)|
            (#[trigger] state.balances.spec_get(k)) matches Some(v) implies
            state.tokens.contains_key(k.1) by {
            assert(state.balances.contains_key(k));
            assert(s0.balances.spec_get(k) matches Some(x));
        }
    }
    Ok(Response { notifications: Vec::new() })
}

/// All balances as one total map, for stating what a batch does step by
/// step.
pub open spec fn bmap(b: PairMap<u128>) -> Map<(Seq<char>, Seq<char>), int> {
    Map::new(
        |k: (Seq<char>, Seq<char>)| true,
        |k: (Seq<char>, Seq<char>)| bal_of(b, k.0, k.1) as int,
    )
}

/// All supplies as one total map.
pub open spec fn smap(b: PairMap<u128>) -> Map<Seq<char>, int> {
    Map::new(|t: Seq<char>| true, |t: Seq<char>| sum_for(b.entries@, t))
}

/// One transfer applied to a balance map.
pub open spec fn apply_transfer(
    m: Map<(Seq<char>, Seq<char>), int>,
    from: Seq<char>,
    to: Seq<char>,
    t: Seq<char>,
    v: int,
) -> Map<(Seq<char>, Seq<char>), int> {
    let m1 = m.insert((from, t), m[(from, t)] - v);
    m1.insert((to, t), m1[(to, t)] + v)
}

/// A batch of transfers applied in order; `None` as soon as a debit exceeds
/// the balance at its turn.
pub open spec fn run_transfers(
    m: Map<(Seq<char>, Seq<char>), int>,
    from: Seq<char>,
    to: Seq<char>,
    batch: Seq<(Seq<char>, u128)>,
) -> Option<Map<(Seq<char>, Seq<char>), int>>
    decreases batch.len(),
{
    if batch.len() == 0 {
        Some(m)
    } else if m[(from, batch[0].0)] < batch[0].1 {
        None
    } else {
        run_transfers(
            apply_transfer(m, from, to, batch[0].0, batch[0].1 as int),
            from,
            to,
            batch.drop_first(),
        )
    }
}

/// A batch of mints applied in order to the balance and supply maps; `None`
/// as soon as a supply would become unrepresentable.
pub open spec fn run_mints(
    m: Map<(Seq<char>, Seq<char>), int>,
    sup: Map<Seq<char>, int>,
    to: Seq<char>,
    batch: Seq<(Seq<char>, u128)>,
) -> Option<(Map<(Seq<char>, Seq<char>), int>, Map<Seq<char>, int>)>
    decreases batch.len(),
{
    if batch.len() == 0 {
        Some((m, sup))
    } else if sup[batch[0].0] + batch[0].1 > u128::MAX {
        None
    } else {
        run_mints(
            m.insert((to, batch[0].0), m[(to, batch[0].0)] + batch[0].1),
            sup.insert(batch[0].0, sup[batch[0].0] + batch[0].1),
            to,
            batch.drop_first(),
        )
    }
}

/// A batch of burns applied in order; `None` as soon as a debit exceeds the
/// balance at its turn.
pub open spec fn run_burns(
    m: Map<(Seq<char>, Seq<char>), int>,
    sup: Map<Seq<char>, int>,
    from: Seq<char>,
    batch: Seq<(Seq<char>, u128)>,
) -> Option<(Map<(Seq<char>, Seq<char>), int>, Map<Seq<char>, int>)>
    decreases batch.len(),
{
    if batch.len() == 0 {
        Some((m, sup))
    } else if m[(from, batch[0].0)] < batch[0].1 {
        None
    } else {
        run_burns(
            m.insert((from, batch[0].0), m[(from, batch[0].0)] - batch[0].1),
            sup.insert(batch[0].0, sup[batch[0].0] - batch[0].1),
            from,
            batch.drop_first(),
        )
    }
}

/// Copies the balance table entry by entry.
fn dup_balances(b: &PairMap<u128>) -> (r: PairMap<u128>)
    ensures
        r.entries@ == b.entries@,
{
    let n = b.entries.len();
    let mut entries: Vec<PEntry<u128>> = Vec::new();
    let mut i: usize = 0;
    proof {
        assert(b.entries@.take(0) =~= Seq::<PEntry<u128>>::empty());
    }
    while i < n
        invariant
            i <= n,
            n == b.entries.len(),
            entries@ == b.entries@.take(i as int),
        decreases n - i,
    {
        let e = &b.entries[i];
        entries.push(PEntry { k1: e.k1.clone(), k2: e.k2.clone(), val: e.val });
        proof {
            assert(b.entries@.take(i + 1) =~= b.entries@.take(i as int).push(
                b.entries@[i as int],
            ));
        }
        i = i + 1;
    }
    proof {
        assert(b.entries@.take(n as int) =~= b.entries@);
    }
    PairMap { entries }
}

/// Copies the token registry entry by entry.
fn dup_registry(m: &StrMap<String>) -> (r: StrMap<String>)
    ensures
        r.entries@ == m.entries@,
{
    let n = m.entries.len();
    let mut entries: Vec<SEntry<String>> = Vec::new();
    let mut i: usize = 0;
    proof {
        assert(m.entries@.take(0) =~= Seq::<SEntry<String>>::empty());
    }
    while i < n
        invariant
            i <= n,
            n == m.entries.len(),
            entries@ == m.entries@.take(i as int),
        decreases n - i,
    {
        let e = &m.entries[i];
        entries.push(SEntry { key: e.key.clone(), val: e.val.clone() });
        proof {
            assert(m.entries@.take(i + 1) =~= m.entries@.take(i as int).push(
                m.entries@[i as int],
            ));
        }
        i = i + 1;
    }
    proof {
        assert(m.entries@.take(n as int) =~= m.entries@);
    }
    StrMap { entries }
}

/// Two balance tables with the same entries agree on every lookup.
proof fn lemma_same_entries(a: PairMap<u128>, b: PairMap<u128>)
    requires
        a.entries@ == b.entries@,
        a.wf(),
    ensures
        b.wf(),
        forall|k: (Seq<char>, Seq<char>)| a.spec_get(k) == b.spec_get(k),
        forall|k: (Seq<char>, Seq<char>)| a.contains_key(k) == b.contains_key(k),
{
    assert(a.key_seq() =~= b.key_seq());
    assert forall|k: (Seq<char>, Seq<char>)|
        a.spec_get(k) == b.spec_get(k) && a.contains_key(k) == b.contains_key(k) by {
        if a.contains_key(k) {
            let i = a.index_of(k);
            a.lemma_at_index(i);
            assert(b.contains_key(k));
            b.lemma_at_index(i);
        } else {
            assert(!b.contains_key(k));
        }
    }
}

/// Two registries with the same entries agree on every lookup.
proof fn lemma_same_entries_reg(a: StrMap<String>, b: StrMap<String>)
    requires
        a.entries@ == b.entries@,
        a.wf(),
    ensures
        b.wf(),
        forall|t: Seq<char>| a.spec_get(t) == b.spec_get(t),
        forall|t: Seq<char>| a.contains_key(t) == b.contains_key(t),
{
    assert(a.key_seq() =~= b.key_seq());
    assert forall|t: Seq<char>|
        a.spec_get(t) == b.spec_get(t) && a.contains_key(t) == b.contains_key(t) by {
        if a.contains_key(t) {
            let i = a.index_of(t);
            a.lemma_at_index(i);
            assert(b.contains_key(t));
            b.lemma_at_index(i);
        } else {
            assert(!b.contains_key(t));
        }
    }
}

/// Builds the notification list for a batch operation, consuming the batch.
fn build_batch_receive(
    env: &ExecuteEnv,
    from: Option<String>,
    to: &str,
    batch: Vec<(TokenId, u128)>,
    msg: Option<Vec<u8>>,
) -> (ns: Vec<Notification>)
    ensures
        batch_receive_note(
            ns@,
            env.sender@,
            opt_str_view(from),
            to@,
            batch_views(batch@),
            opt_bytes_view(msg),
        ),
{
    let mut ns: Vec<Notification> = Vec::new();
    match msg {
        Some(payload) => {
            ns.push(
                Notification::BatchReceive {
                    operator: env.sender.clone(),
                    from,
                    to: to.to_owned(),
                    batch,
                    payload,
                },
            );
        },
        None => {},
    }
    ns
}

/// The complete contract of [`batch_send_from`]: all pairs apply in order,
/// or none does.
pub open spec fn batch_send_from_spec(
    s0: State,
    env: ExecuteEnv,
    from: Seq<char>,
    to: Seq<char>,
    batch: Seq<(Seq<char>, u128)>,
    payload: Option<Seq<u8>>,
    s1: State,
    r: Result<Response, ContractError>,
) -> bool {
    let auth = s0.authorized(from, env.sender@, env.block);
    match r {
        Ok(resp) => {
            &&& auth
            &&& (run_transfers(bmap(s0.balances), from, to, batch) matches Some(m) && forall|
                o2: Seq<char>,
                t2: Seq<char>,
            | s1.bal(o2, t2) as int == m[(o2, t2)])
            &&& forall|t2: Seq<char>| #[trigger] s1.supply(t2) == s0.supply(t2)
            &&& s1.approvals == s0.approvals
            &&& s1.tokens == s0.tokens
            &&& s1.royalties == s0.royalties
            &&& s1.minter == s0.minter
            &&& s1.token_seq == s0.token_seq
            &&& batch_receive_note(
                resp.notifications@,
                env.sender@,
                Some(from),
                to,
                batch,
                payload,
            )
        },
        Err(e) => {
            &&& s1 == s0
            &&& if !auth {
                e == ContractError::Unauthorized
            } else {
                run_transfers(bmap(s0.balances), from, to, batch) is None && e
                    == ContractError::InsufficientBalance
            }
        },
    }
}

/// Moves several kinds of tokens from `from` to `to` in one call, all or
/// nothing: if any pair's debit would fail, no balance changes at all.
pub fn batch_send_from(
    state: &mut State,
    env: &ExecuteEnv,
    from: &str,
    to: &str,
    batch: Vec<(TokenId, u128)>,
    msg: Option<Vec<u8>>,
) -> (r: Result<Response, ContractError>)
    requires
        old(state).wf(),
    ensures
        final(state).wf(),
        batch_send_from_spec(
            *old(state),
            *env,
            from@,
            to@,
            batch_views(batch@),
            opt_bytes_view(msg),
            *final(state),
            r,
        ),
{
    if !state.check_authorized(from, env.sender.as_str(), &env.block) {
        return Err(ContractError::Unauthorized);
    }
    let ghost s0 = *state;
    let ghost bv = batch_views(batch@);
    let mut scratch = dup_balances(&state.balances);
    proof {
        lemma_same_entries(s0.balances, scratch);
        assert(bmap(scratch) =~= bmap(s0.balances));
        assert(bv.skip(0) =~= bv);
        lemma_support_refl(s0.balances);
    }
    let n = batch.len();
    let mut i: usize = 0;
    while i < n
        invariant
            i <= n,
            n == batch.len(),
            s0 == *old(state),
            *state == s0,
            s0.wf(),
            s0.authorized(from@, env.sender@, env.block),
            bv == batch_views(batch@),
            bv.len() == n,
            bal_wf(scratch),
            run_transfers(bmap(scratch), from@, to@, bv.skip(i as int)) == run_transfers(
                bmap(s0.balances),
                from@,
                to@,
                bv,
            ),
            forall|t2: Seq<char>|
                #[trigger] sum_for(scratch.entries@, t2) == sum_for(s0.balances.entries@, t2),
            forall|k: (Seq<char>, Seq<char>)|
                #[trigger] scratch.contains_key(k) ==> exists|o2: Seq<char>|
                    s0.balances.contains_key((o2, k.1)),
        decreases n - i,
    {
        let ghost pre = scratch;
        let tid: &str = batch[i].0.as_str();
        let amt: u128 = batch[i].1;
        proof {
            assert(bv[i as int] == (batch@[i as int].0@, batch@[i as int].1));
            assert(bv.skip(i as int)[0] == bv[i as int]);
            assert(bv.skip(i as int).drop_first() =~= bv.skip(i as int + 1));
            assert(bmap(pre)[(from@, tid@)] == bal_of(pre, from@, tid@) as int);
        }
        match transfer_step(&mut scratch, from, to, tid, amt) {
            Ok(_) => {
                proof {
                    assert(bmap(scratch) =~= apply_transfer(
                        bmap(pre),
                        from@,
                        to@,
                        tid@,
                        amt as int,
                    ));
                }
            },
            Err(_) => {
                proof {
                    assert(run_transfers(bmap(pre), from@, to@, bv.skip(i as int)) is None);
                }
                return Err(ContractError::InsufficientBalance);
            },
        }
        i = i + 1;
    }
    proof {
        assert(bv.skip(n as int) =~= Seq::<(Seq<char>, u128)>::empty());
        assert(run_transfers(bmap(scratch), from@, to@, bv.skip(n as int)) == Some(
            bmap(scratch),
        ));
    }
    state.balances = scratch;
    proof {
        assert forall|k: (Seq<char>, Seq<char>)|
            (#[trigger] state.balances.spec_get(k)) matches Some(v) implies
            state.tokens.contains_key(k.1) by {
            assert(state.balances.contains_key(k));
            let o2 = choose|o2: Seq<char>| s0.balances.contains_key((o2, k.1));
            assert(s0.balances.spec_get((o2, k.1)) matches Some(x));
        }
        assert forall|o2: Seq<char>, t2: Seq<char>|
            state.bal(o2, t2) as int == bmap(state.balances)[(o2, t2)] by {
            assert(bmap(state.balances)[(o2, t2)] == bal_of(state.balances, o2, t2) as int);
        }
    }
    let notifications = build_batch_receive(env, Some(from.to_owned()), to, batch, msg);
    Ok(Response { notifications })
}

/// The complete contract of [`batch_burn`]: all pairs apply in order, or
/// none does.
pub open spec fn batch_burn_spec(
    s0: State,
    env: ExecuteEnv,
    from: Seq<char>,
    batch: Seq<(Seq<char>, u128)>,
    s1: State,
    r: Result<Response, ContractError>,
) -> bool {
    let auth = s0.authorized(from, env.sender@, env.block);
    match r {
        Ok(resp) => {
            &&& auth
            &&& (run_burns(bmap(s0.balances), smap(s0.balances), from, batch) matches Some(ms)
                && (forall|o2: Seq<char>, t2: Seq<char>| s1.bal(o2, t2) as int == ms.0[(o2, t2)])
                && (forall|t2: Seq<char>| #[trigger] s1.supply(t2) == ms.1[t2]))
            &&& s1.approvals == s0.approvals
            &&& s1.tokens == s0.tokens
            &&& s1.royalties == s0.royalties
            &&& s1.minter == s0.minter
            &&& s1.token_seq == s0.token_seq
            &&& resp.notifications@.len() == 0
        },
        Err(e) => {
            &&& s1 == s0
            &&& if !auth {
                e == ContractError::Unauthorized
            } else {
                run_burns(bmap(s0.balances), smap(s0.balances), from, batch) is None && e
                    == ContractError::InsufficientBalance
            }
        },
    }
}

/// Destroys several kinds of tokens held by `from` in one call, all or
/// nothing: if any pair's debit would fail, no balance changes at all.
pub fn batch_burn(
    state: &mut State,
    env: &ExecuteEnv,
    from: &str,
    batch: Vec<(TokenId, u128)>,
) -> (r: Result<Response, ContractError>)
    requires
        old(state).wf(),
    ensures
        final(state).wf(),
        batch_burn_spec(*old(state), *env, from@, batch_views(batch@), *final(state), r),
{
    if !state.check_authorized(from, env.sender.as_str(), &env.block) {
        return Err(ContractError::Unauthorized);
    }
    let ghost s0 = *state;
    let ghost bv = batch_views(batch@);
    let mut scratch = dup_balances(&state.balances);
    proof {
        lemma_same_entries(s0.balances, scratch);
        assert(bmap(scratch) =~= bmap(s0.balances));
        assert(smap(scratch) =~= smap(s0.balances));
        assert(bv.skip(0) =~= bv);
    }
    let n = batch.len();
    let mut i: usize = 0;
    while i < n
        invariant
            i <= n,
            n == batch.len(),
            s0 == *old(state),
            *state == s0,
            s0.wf(),
            s0.authorized(from@, env.sender@, env.block),
            bv == batch_views(batch@),
            bv.len() == n,
            bal_wf(scratch),
            run_burns(bmap(scratch), smap(scratch), from@, bv.skip(i as int)) == run_burns(
                bmap(s0.balances),
                smap(s0.balances),
                from@,
                bv,
            ),
            forall|k: (Seq<char>, Seq<char>)|
                #[trigger] scratch.contains_key(k) ==> s0.balances.contains_key(k),
        decreases n - i,
    {
        let ghost pre = scratch;
        let tid: &str = batch[i].0.as_str();
        let amt: u128 = batch[i].1;
        proof {
            assert(bv[i as int] == (batch@[i as int].0@, batch@[i as int].1));
            assert(bv.skip(i as int)[0] == bv[i as int]);
            assert(bv.skip(i as int).drop_first() =~= bv.skip(i as int + 1));
            assert(bmap(pre)[(from@, tid@)] == bal_of(pre, from@, tid@) as int);
        }
        match burn_step(&mut scratch, from, tid, amt) {
            Ok(_) => {
                proof {
                    assert(bmap(scratch) =~= bmap(pre).insert(
                        (from@, tid@),
                        bmap(pre)[(from@, tid@)] - amt,
                    ));
                    assert(smap(scratch) =~= smap(pre).insert(
                        tid@,
                        smap(pre)[tid@] - amt,
                    ));
                }
            },
            Err(_) => {
                proof {
                    assert(run_burns(bmap(pre), smap(pre), from@, bv.skip(i as int)) is None);
                }
                return Err(ContractError::InsufficientBalance);
            },
        }
        i = i + 1;
    }
    proof {
        assert(bv.skip(n as int) =~= Seq::<(Seq<char>, u128)>::empty());
    }
    state.balances = scratch;
    proof {
        assert forall|k: (Seq<char>, Seq<char>)|
            (#[trigger] state.balances.spec_get(k)) matches Some(v) implies
            state.tokens.contains_key(k.1) by {
            assert(state.balances.contains_key(k));
            assert(s0.balances.spec_get(k) matches Some(x));
        }
        assert forall|o2: Seq<char>, t2: Seq<char>|
            state.bal(o2, t2) as int == bmap(state.balances)[(o2, t2)] by {
            assert(bmap(state.balances)[(o2, t2)] == bal_of(state.balances, o2, t2) as int);
        }
        assert forall|t2: Seq<char>|
            state.supply(t2) == smap(state.balances)[t2] by {
            assert(smap(state.balances)[t2] == sum_for(state.balances.entries@, t2));
        }
    }
    Ok(Response { notifications: Vec::new() })
}

/// The complete contract of [`batch_mint`]: all pairs apply in order, or
/// none does. Only the minter may call it; identifiers are all explicit, so
/// the sequence counter never moves.
pub open spec fn batch_mint_spec(
    s0: State,
    env: ExecuteEnv,
    to: Seq<char>,
    batch: Seq<(Seq<char>, u128)>,
    payload: Option<Seq<u8>>,
    s1: State,
    r: Result<Response, ContractError>,
) -> bool {
    let auth = env.sender@ == s0.minter@;
    match r {
        Ok(resp) => {
            &&& auth
            &&& (run_mints(bmap(s0.balances), smap(s0.balances), to, batch) matches Some(ms)
                && (forall|o2: Seq<char>, t2: Seq<char>| s1.bal(o2, t2) as int == ms.0[(o2, t2)])
                && (forall|t2: Seq<char>| #[trigger] s1.supply(t2) == ms.1[t2]))
            &&& forall|t2: Seq<char>|
                #[trigger] s1.registered(t2) <==> s0.registered(t2) || exists|j: int|
                    0 <= j < batch.len() && batch[j].0 == t2
            &&& forall|t2: Seq<char>|
                s0.registered(t2) ==> s1.tokens.spec_get(t2) == s0.tokens.spec_get(t2)
            &&& forall|t2: Seq<char>|
                s1.registered(t2) && !s0.registered(t2) ==> (s1.tokens.spec_get(t2) matches Some(
                    u,
                ) && u@ == Seq::<char>::empty())
            &&& s1.approvals == s0.approvals
            &&& s1.royalties == s0.royalties
            &&& s1.minter == s0.minter
            &&& s1.token_seq == s0.token_seq
            &&& batch_receive_note(resp.notifications@, env.sender@, None, to, batch, payload)
        },
        Err(e) => {
            &&& s1 == s0
            &&& if !auth {
                e == ContractError::Unauthorized
            } else {
                run_mints(bmap(s0.balances), smap(s0.balances), to, batch) is None && e
                    == ContractError::Overflow
            }
        },
    }
}

/// Creates several kinds of tokens for `to` in one call, all or nothing.
/// Each pair's identifier is registered if absent; royalty terms cannot be
/// supplied here.
pub fn batch_mint(
    state: &mut State,
    env: &ExecuteEnv,
    to: &str,
    batch: Vec<(TokenId, u128)>,
    msg: Option<Vec<u8>>,
) -> (r: Result<Response, ContractError>)
    requires
        old(state).wf(),
    ensures
        final(state).wf(),
        batch_mint_spec(
            *old(state),
            *env,
            to@,
            batch_views(batch@),
            opt_bytes_view(msg),
            *final(state),
            r,
        ),
{
    if !str_eq(env.sender.as_str(), state.minter.as_str()) {
        return Err(ContractError::Unauthorized);
    }
    let ghost s0 = *state;
    let ghost bv = batch_views(batch@);
    let mut scratch = dup_balances(&state.balances);
    let mut reg = dup_registry(&state.tokens);
    proof {
        lemma_same_entries(s0.balances, scratch);
        lemma_same_entries_reg(s0.tokens, reg);
        assert(bmap(scratch) =~= bmap(s0.balances));
        assert(smap(scratch) =~= smap(s0.balances));
        assert(bv.skip(0) =~= bv);
    }
    let n = batch.len();
    let mut i: usize = 0;
    while i < n
        invariant
            i <= n,
            n == batch.len(),
            s0 == *old(state),
            *state == s0,
            s0.wf(),
            env.sender@ == s0.minter@,
            bv == batch_views(batch@),
            bv.len() == n,
            bal_wf(scratch),
            reg.wf(),
            run_mints(bmap(scratch), smap(scratch), to@, bv.skip(i as int)) == run_mints(
                bmap(s0.balances),
                smap(s0.balances),
                to@,
                bv,
            ),
            forall|t2: Seq<char>|
                #[trigger] reg.contains_key(t2) <==> s0.tokens.contains_key(t2) || exists|j: int|
                    0 <= j < i && bv[j].0 == t2,
            forall|t2: Seq<char>|
                s0.tokens.contains_key(t2) ==> reg.spec_get(t2) == s0.tokens.spec_get(t2),
            forall|t2: Seq<char>|
                reg.contains_key(t2) && !s0.tokens.contains_key(t2) ==> (reg.spec_get(t2)
                    matches Some(u) && u@ == Seq::<char>::empty()),
            forall|k: (Seq<char>, Seq<char>)|
                #[trigger] scratch.contains_key(k) ==> s0.balances.contains_key(k) || (k.0 == to@
                    && exists|j: int| 0 <= j < i && bv[j].0 == k.1),
        decreases n - i,
    {
        let ghost pre = scratch;
        let ghost preg = reg;
        let tid: &str = batch[i].0.as_str();
        let amt: u128 = batch[i].1;
        proof {
            assert(bv[i as int] == (batch@[i as int].0@, batch@[i as int].1));
            assert(bv.skip(i as int)[0] == bv[i as int]);
            assert(bv.skip(i as int).drop_first() =~= bv.skip(i as int + 1));
            assert(smap(pre)[tid@] == sum_for(pre.entries@, tid@));
        }
        match mint_step(&mut scratch, &mut reg, to, tid, amt) {
            Ok(_) => {
                proof {
                    assert(bmap(scratch) =~= bmap(pre).insert(
                        (to@, tid@),
                        bmap(pre)[(to@, tid@)] + amt,
                    ));
                    assert(smap(scratch) =~= smap(pre).insert(
                        tid@,
                        smap(pre)[tid@] + amt,
                    ));
                    assert forall|t2: Seq<char>|
                        #[trigger] reg.contains_key(t2) <==> s0.tokens.contains_key(t2) || exists|
                        j: int,
                    | 0 <= j < i + 1 && bv[j].0 == t2 by {
                        if t2 == tid@ {
                            assert(bv[i as int].0 == t2);
                        } else {
                            assert(reg.spec_get(t2) == preg.spec_get(t2));
                            assert(reg.contains_key(t2) == preg.contains_key(t2));
                        }
                    }
                }
            },
            Err(_) => {
                proof {
                    assert(run_mints(bmap(pre), smap(pre), to@, bv.skip(i as int)) is None);
                }
                return Err(ContractError::Overflow);
            },
        }
        i = i + 1;
    }
    proof {
        assert(bv.skip(n as int) =~= Seq::<(Seq<char>, u128)>::empty());
    }
    state.balances = scratch;
    state.tokens = reg;
    proof {
        assert forall|k: (Seq<char>, Seq<char>)|
            (#[trigger] state.balances.spec_get(k)) matches Some(v) implies
            state.tokens.contains_key(k.1) by {
            assert(state.balances.contains_key(k));
            if s0.balances.contains_key(k) {
                assert(s0.balances.spec_get(k) matches Some(x));
                assert(s0.tokens.contains_key(k.1));
            }
        }
        assert forall|o2: Seq<char>, t2: Seq<char>|
            state.bal(o2, t2) as int == bmap(state.balances)[(o2, t2)] by {
            assert(bmap(state.balances)[(o2, t2)] == bal_of(state.balances, o2, t2) as int);
        }
        assert forall|t2: Seq<char>|
            state.supply(t2) == smap(state.balances)[t2] by {
            assert(smap(state.balances)[t2] == sum_for(state.balances.entries@, t2));
        }
    }
    let notifications = build_batch_receive(env, None, to, batch, msg);
    Ok(Response { notifications })
}

/// The complete contract of [`approve_all`]: the grant always succeeds and
/// overwrites any previous approval, even with an already-past expiry.
pub open spec fn approve_all_spec(
    s0: State,
    env: ExecuteEnv,
    operator: Seq<char>,
    expires: Option<Expiration>,
    s1: State,
    r: Result<Response, ContractError>,
) -> bool {
    let exp = match expires {
        Some(e) => e,
        None => Expiration::Never,
    };
    match r {
        Ok(resp) => {
            &&& s1.approval_of(env.sender@, operator) == Some(exp)
            &&& forall|k: (Seq<char>, Seq<char>)|
                k != (env.sender@, operator) ==> s1.approvals.spec_get(k)
                    == s0.approvals.spec_get(k)
            &&& s1.balances == s0.balances
            &&& s1.tokens == s0.tokens
            &&& s1.royalties == s0.royalties
            &&& s1.minter == s0.minter
            &&& s1.token_seq == s0.token_seq
            &&& resp.notifications@.len() == 0
        },
        Err(_) => false,
    }
}

/// Grants `operator` authority over all of the sender's tokens until
/// `expires` (never, if none is given).
pub fn approve_all(
    state: &mut State,
    env: &ExecuteEnv,
    operator: &str,
    expires: Option<Expiration>,
) -> (r: Result<Response, ContractError>)
    requires
        old(state).wf(),
    ensures
        final(state).wf(),
        approve_all_spec(*old(state), *env, operator@, expires, *final(state), r),
{
    let exp = match expires {
        Some(e) => e,
        None => Expiration::Never,
    };
    state.approvals.insert(env.sender.clone(), operator.to_owned(), exp);
    Ok(Response { notifications: Vec::new() })
}

/// The complete contract of [`revoke_all`]: the revocation always succeeds;
/// revoking an absent approval is a no-op.
pub open spec fn revoke_all_spec(
    s0: State,
    env: ExecuteEnv,
    operator: Seq<char>,
    s1: State,
    r: Result<Response, ContractError>,
) -> bool {
    match r {
        Ok(resp) => {
            &&& s1.approval_of(env.sender@, operator) is None
            &&& forall|k: (Seq<char>, Seq<char>)|
                k != (env.sender@, operator) ==> s1.approvals.spec_get(k)
                    == s0.approvals.spec_get(k)
            &&& s1.balances == s0.balances
            &&& s1.tokens == s0.tokens
            &&& s1.royalties == s0.royalties
            &&& s1.minter == s0.minter
            &&& s1.token_seq == s0.token_seq
            &&& resp.notifications@.len() == 0
        },
        Err(_) => false,
    }
}

/// Removes any approval the sender granted to `operator`.
pub fn revoke_all(state: &mut State, env: &ExecuteEnv, operator: &str) -> (r: Result<
    Response,
    ContractError,
>)
    requires
        old(state).wf(),
    ensures
        final(state).wf(),
        revoke_all_spec(*old(state), *env, operator@, *final(state), r),
{
    state.approvals.remove(env.sender.as_str(), operator);
    Ok(Response { notifications: Vec::new() })
}

} // verus!
