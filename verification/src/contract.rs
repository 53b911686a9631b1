//! The operation surface: initialization and the two dispatchers, one per
//! inbound execute message and one per query.

use vstd::prelude::*;

use crate::error::ContractError;
use crate::execute::{approve_all, approve_all_spec, batch_burn, batch_burn_spec, batch_mint,
    batch_mint_spec, batch_send_from, batch_send_from_spec, batch_views, burn, burn_spec, mint,
    mint_spec, opt_bytes_view, opt_str_view, revoke_all, revoke_all_spec, send_from,
    send_from_spec, ExecuteEnv};
use crate::expiration::BlockInfo;
use crate::msg::{ApprovedForAllResponse, BalanceResponse, BatchBalanceResponse,
    CheckRoyaltiesResponse, Cw1155RoyaltiesExecuteMsg, Cw1155RoyaltiesQueryMsg,
    InstantiateMsg, IsApprovedForAllResponse, Response, RoyaltiesInfoResponse,
    TokenInfoResponse, TokensResponse};
use crate::query::{all_tokens, approved_for_all, balance, batch_balance, check_royalties,
    is_approved_for_all, query_royalties_info, token_info, tokens};
use crate::state::State;
use crate::tables::{PairMap, StrMap};

verus! {

/// Sets up an empty ledger: the given minter, no balances, no approvals, no
/// registered tokens, no royalty terms, and the identifier sequence at 0.
pub fn instantiate(msg: InstantiateMsg) -> (s: State)
    ensures
        s.wf(),
        s.minter@ == msg.minter@,
        s.token_seq == 0,
        forall|o: Seq<char>, t: Seq<char>| s.bal(o, t) == 0,
        forall|t: Seq<char>| !s.registered(t),
        forall|t: Seq<char>| s.royalty_of(t) is None,
        forall|o: Seq<char>, op: Seq<char>| s.approval_of(o, op) is None,
        forall|t: Seq<char>| #[trigger] s.supply(t) == 0,
{
    let s = State {
        minter: msg.minter,
        balances: PairMap::new(),
        approvals: PairMap::new(),
        tokens: StrMap::new(),
        royalties: StrMap::new(),
        token_seq: 0,
    };
    proof {
        assert forall|t: Seq<char>| #[trigger] s.supply(t) == 0 by {
            assert(s.balances.entries@.len() == 0);
        }
    }
    s
}

/// The complete contract of [`execute`]: each message does exactly what the
/// operation it names does.
pub open spec fn execute_spec(
    s0: State,
    env: ExecuteEnv,
    msg: Cw1155RoyaltiesExecuteMsg,
    s1: State,
    r: Result<Response, ContractError>,
) -> bool {
    match msg {
        Cw1155RoyaltiesExecuteMsg::SendFrom { from, to, token_id, value, msg: m } =>
            send_from_spec(s0, env, from@, to@, token_id@, value, opt_bytes_view(m), s1, r),
        Cw1155RoyaltiesExecuteMsg::BatchSendFrom { from, to, batch, msg: m } =>
            batch_send_from_spec(
            s0,
            env,
            from@,
            to@,
            batch_views(batch@),
            opt_bytes_view(m),
            s1,
            r,
        ),
        Cw1155RoyaltiesExecuteMsg::Mint {
            to,
            token_id,
            value,
            royalty_percentage,
            royalty_payment_address,
            msg: m,
        } => mint_spec(
            s0,
            env,
            to@,
            token_id,
            value,
            royalty_percentage,
            opt_str_view(royalty_payment_address),
            opt_bytes_view(m),
            s1,
            r,
        ),
        Cw1155RoyaltiesExecuteMsg::BatchMint { to, batch, msg: m } => batch_mint_spec(
            s0,
            env,
            to@,
            batch_views(batch@),
            opt_bytes_view(m),
            s1,
            r,
        ),
        Cw1155RoyaltiesExecuteMsg::Burn { from, token_id, value } => burn_spec(
            s0,
            env,
            from@,
            token_id@,
            value,
            s1,
            r,
        ),
        Cw1155RoyaltiesExecuteMsg::BatchBurn { from, batch } => batch_burn_spec(
            s0,
            env,
            from@,
            batch_views(batch@),
            s1,
            r,
        ),
        Cw1155RoyaltiesExecuteMsg::ApproveAll { operator, expires } => approve_all_spec(
            s0,
            env,
            operator@,
            expires,
            s1,
            r,
        ),
        Cw1155RoyaltiesExecuteMsg::RevokeAll { operator } => revoke_all_spec(
            s0,
            env,
            operator@,
            s1,
            r,
        ),
    }
}

/// Routes one inbound operation to the ledger.
pub fn execute(state: &mut State, env: &ExecuteEnv, msg: Cw1155RoyaltiesExecuteMsg) -> (r: Result<
    Response,
    ContractError,
>)
    requires
        old(state).wf(),
    ensures
        final(state).wf(),
        execute_spec(*old(state), *env, msg, *final(state), r),
{
    match msg {
        Cw1155RoyaltiesExecuteMsg::SendFrom { from, to, token_id, value, msg: m } => send_from(
            state,
            env,
            from.as_str(),
            to.as_str(),
            token_id.as_str(),
            value,
            m,
        ),
        Cw1155RoyaltiesExecuteMsg::BatchSendFrom { from, to, batch, msg: m } => batch_send_from(
            state,
            env,
            from.as_str(),
            to.as_str(),
            batch,
            m,
        ),
        Cw1155RoyaltiesExecuteMsg::Mint {
            to,
            token_id,
            value,
            royalty_percentage,
            royalty_payment_address,
            msg: m,
        } => mint(
            state,
            env,
            to.as_str(),
            token_id,
            value,
            royalty_percentage,
            royalty_payment_address,
            m,
        ),
        Cw1155RoyaltiesExecuteMsg::BatchMint { to, batch, msg: m } => batch_mint(
            state,
            env,
            to.as_str(),
            batch,
            m,
        ),
        Cw1155RoyaltiesExecuteMsg::Burn { from, token_id, value } => burn(
            state,
            env,
            from.as_str(),
            token_id.as_str(),
            value,
        ),
        Cw1155RoyaltiesExecuteMsg::BatchBurn { from, batch } => batch_burn(
            state,
            env,
            from.as_str(),
            batch,
        ),
        Cw1155RoyaltiesExecuteMsg::ApproveAll { operator, expires } => approve_all(
            state,
            env,
            operator.as_str(),
            expires,
        ),
        Cw1155RoyaltiesExecuteMsg::RevokeAll { operator } => revoke_all(
            state,
            env,
            operator.as_str(),
        ),
    }
}

/// One query's answer, by query kind.
#[derive(Clone, Debug, PartialEq, Eq)]
pub enum QueryAnswer {
    Balance(BalanceResponse),
    BatchBalance(BatchBalanceResponse),
    IsApprovedForAll(IsApprovedForAllResponse),
    ApprovedForAll(ApprovedForAllResponse),
    TokenInfo(TokenInfoResponse),
    Tokens(TokensResponse),
    AllTokens(TokensResponse),
    RoyaltyInfo(RoyaltiesInfoResponse),
    CheckRoyalties(CheckRoyaltiesResponse),
}

/// Routes one query; reads never change the state.
pub fn query(state: &State, env: &BlockInfo, msg: Cw1155RoyaltiesQueryMsg) -> (r: Result<
    QueryAnswer,
    ContractError,
>)
    requires
        state.wf(),
    ensures
        match msg {
            Cw1155RoyaltiesQueryMsg::Balance { owner, token_id } => r matches Ok(
                QueryAnswer::Balance(b),
            ) && b.balance == state.bal(owner@, token_id@),
            Cw1155RoyaltiesQueryMsg::BatchBalance { owner, token_ids } => r matches Ok(
                QueryAnswer::BatchBalance(b),
            ) && b.balances@.len() == token_ids@.len() && (forall|i: int|
                0 <= i < token_ids@.len() ==> b.balances@[i] == state.bal(
                    owner@,
                    token_ids@[i]@,
                )),
            Cw1155RoyaltiesQueryMsg::IsApprovedForAll { owner, operator } => r matches Ok(
                QueryAnswer::IsApprovedForAll(a),
            ) && a.approved == state.authorized(owner@, operator@, *env),
            Cw1155RoyaltiesQueryMsg::ApprovedForAll {
                owner,
                include_expired,
                start_after,
                limit,
            } => r matches Ok(QueryAnswer::ApprovedForAll(a)) && a.operators@.map_values(
                |ap: crate::msg::Approval| (ap.spender@, ap.expires),
            ) == crate::query::approvals_page(
                state.approvals,
                owner@,
                include_expired == Some(true),
                *env,
                opt_str_view(start_after),
                crate::query::eff_limit(limit),
            ),
            Cw1155RoyaltiesQueryMsg::TokenInfo { token_id } => (match r {
                Ok(a) => a matches QueryAnswer::TokenInfo(ti) && (
                state.tokens.spec_get(token_id@) matches Some(u) && ti.url@ == u@),
                Err(e) => e == ContractError::NotFound && !state.registered(token_id@),
            }),
            Cw1155RoyaltiesQueryMsg::Tokens { owner, start_after, limit } => r matches Ok(
                QueryAnswer::Tokens(ts),
            ) && ts.tokens@.map_values(|s: String| s@) == crate::query::owner_tokens_page(
                state.balances,
                owner@,
                opt_str_view(start_after),
                crate::query::eff_limit(limit),
            ),
            Cw1155RoyaltiesQueryMsg::AllTokens { start_after, limit } => r matches Ok(
                QueryAnswer::AllTokens(ts),
            ) && ts.tokens@.map_values(|s: String| s@) == crate::query::page_of(
                state.tokens.key_seq(),
                opt_str_view(start_after),
                crate::query::eff_limit(limit),
            ),
            Cw1155RoyaltiesQueryMsg::RoyaltyInfo { token_id, sale_price } => (match r {
                Ok(a) => a matches QueryAnswer::RoyaltyInfo(ri) && (state.royalty_of(token_id@)
                    matches Some(rec) && {
                    let pct: int = match rec.royalty_percentage {
                        Some(p) => p as int,
                        None => 0,
                    };
                    &&& ri.royalty_amount as int == (sale_price as int * pct) / 100
                    &&& ri.address@ == (match rec.royalty_payment_address {
                        Some(a2) => a2@,
                        None => Seq::<char>::empty(),
                    })
                }),
                Err(e) => e == ContractError::NotFound && state.royalty_of(token_id@) is None,
            }),
            Cw1155RoyaltiesQueryMsg::CheckRoyalties {  } => r matches Ok(
                QueryAnswer::CheckRoyalties(c),
            ) && c.royalty_payments == true,
        },
{
    match msg {
        Cw1155RoyaltiesQueryMsg::Balance { owner, token_id } => Ok(
            QueryAnswer::Balance(balance(state, owner.as_str(), token_id.as_str())),
        ),
        Cw1155RoyaltiesQueryMsg::BatchBalance { owner, token_ids } => Ok(
            QueryAnswer::BatchBalance(batch_balance(state, owner.as_str(), &token_ids)),
        ),
        Cw1155RoyaltiesQueryMsg::IsApprovedForAll { owner, operator } => Ok(
            QueryAnswer::IsApprovedForAll(
                is_approved_for_all(state, env, owner.as_str(), operator.as_str()),
            ),
        ),
        Cw1155RoyaltiesQueryMsg::ApprovedForAll {
            owner,
            include_expired,
            start_after,
            limit,
        } => {
            let inc = match include_expired {
                Some(b) => b,
                None => false,
            };
            Ok(
                QueryAnswer::ApprovedForAll(
                    approved_for_all(state, env, owner.as_str(), inc, start_after, limit),
                ),
            )
        },
        Cw1155RoyaltiesQueryMsg::TokenInfo { token_id } => {
            match token_info(state, token_id.as_str()) {
                Ok(ti) => Ok(QueryAnswer::TokenInfo(ti)),
                Err(e) => Err(e),
            }
        },
        Cw1155RoyaltiesQueryMsg::Tokens { owner, start_after, limit } => Ok(
            QueryAnswer::Tokens(tokens(state, owner.as_str(), start_after, limit)),
        ),
        Cw1155RoyaltiesQueryMsg::AllTokens { start_after, limit } => Ok(
            QueryAnswer::AllTokens(all_tokens(state, start_after, limit)),
        ),
        Cw1155RoyaltiesQueryMsg::RoyaltyInfo { token_id, sale_price } => {
            match query_royalties_info(state, token_id.as_str(), sale_price) {
                Ok(ri) => Ok(QueryAnswer::RoyaltyInfo(ri)),
                Err(e) => Err(e),
            }
        },
        Cw1155RoyaltiesQueryMsg::CheckRoyalties {  } => Ok(
            QueryAnswer::CheckRoyalties(check_royalties(state)),
        ),
    }
}

} // verus!
