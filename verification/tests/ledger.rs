use cw1155_royalties::contract::{execute, instantiate, query, QueryAnswer};
use cw1155_royalties::error::ContractError;
use cw1155_royalties::execute::{
    approve_all, batch_burn, batch_mint, batch_send_from, burn, mint, revoke_all, send_from,
    ExecuteEnv,
};
use cw1155_royalties::expiration::{BlockInfo, Expiration};
use cw1155_royalties::msg::{Cw1155RoyaltiesExecuteMsg, Cw1155RoyaltiesQueryMsg, InstantiateMsg};
use cw1155_royalties::query::{
    all_tokens, approved_for_all, balance, batch_balance, is_approved_for_all,
    query_royalties_info, token_info, tokens,
};
use cw1155_royalties::state::State;

fn env(sender: &str) -> ExecuteEnv {
    ExecuteEnv {
        sender: sender.to_string(),
        block: BlockInfo { height: 100, time: 1_000_000 },
    }
}

fn block() -> BlockInfo {
    BlockInfo { height: 100, time: 1_000_000 }
}

fn fresh(minter: &str) -> State {
    instantiate(InstantiateMsg { minter: minter.to_string() })
}

fn mint_simple(state: &mut State, minter: &str, to: &str, id: &str, amount: u128) {
    mint(
        state,
        &env(minter),
        to,
        Some(id.to_string()),
        amount,
        None,
        None,
        None,
    )
    .unwrap();
}

fn bal(state: &State, owner: &str, id: &str) -> u128 {
    balance(state, owner, id).balance
}

#[test]
fn never_minted_balance_is_zero() {
    let mut state = fresh("minter");
    assert_eq!(bal(&state, "alice", "ghost"), 0);
    mint_simple(&mut state, "minter", "alice", "coin", 5);
    assert_eq!(bal(&state, "alice", "other"), 0);
    assert_eq!(bal(&state, "bob", "coin"), 0);
}

#[test]
fn transfer_conserves_balances() {
    let mut state = fresh("minter");
    mint_simple(&mut state, "minter", "alice", "coin", 100);
    send_from(&mut state, &env("alice"), "alice", "bob", "coin", 40, None).unwrap();
    assert_eq!(bal(&state, "alice", "coin"), 60);
    assert_eq!(bal(&state, "bob", "coin"), 40);
    assert_eq!(bal(&state, "alice", "coin") + bal(&state, "bob", "coin"), 100);
}

#[test]
fn mint_then_burn_restores_balance_and_keeps_registry() {
    let mut state = fresh("minter");
    mint_simple(&mut state, "minter", "alice", "coin", 30);
    assert_eq!(bal(&state, "alice", "coin"), 30);
    mint_simple(&mut state, "minter", "alice", "coin", 12);
    burn(&mut state, &env("alice"), "alice", "coin", 12).unwrap();
    assert_eq!(bal(&state, "alice", "coin"), 30);
    assert!(token_info(&state, "coin").is_ok());
    burn(&mut state, &env("alice"), "alice", "coin", 30).unwrap();
    assert_eq!(bal(&state, "alice", "coin"), 0);
    assert!(token_info(&state, "coin").is_ok());
}

#[test]
fn overdraw_fails_with_insufficient_balance_and_changes_nothing() {
    let mut state = fresh("minter");
    mint_simple(&mut state, "minter", "alice", "coin", 10);
    let r = send_from(&mut state, &env("alice"), "alice", "bob", "coin", 11, None);
    assert_eq!(r.unwrap_err(), ContractError::InsufficientBalance);
    assert_eq!(bal(&state, "alice", "coin"), 10);
    assert_eq!(bal(&state, "bob", "coin"), 0);
}

#[test]
fn approval_expiring_now_is_expired() {
    let mut state = fresh("minter");
    mint_simple(&mut state, "minter", "alice", "coin", 10);
    let e = env("alice");
    approve_all(&mut state, &e, "op", Some(Expiration::AtHeight(100))).unwrap();
    assert!(!is_approved_for_all(&state, &block(), "alice", "op").approved);
    let r = send_from(&mut state, &env("op"), "alice", "bob", "coin", 1, None);
    assert_eq!(r.unwrap_err(), ContractError::Unauthorized);

    approve_all(&mut state, &e, "op", Some(Expiration::AtHeight(101))).unwrap();
    assert!(is_approved_for_all(&state, &block(), "alice", "op").approved);

    approve_all(&mut state, &e, "op2", Some(Expiration::AtTime(1_000_000))).unwrap();
    assert!(!is_approved_for_all(&state, &block(), "alice", "op2").approved);
    approve_all(&mut state, &e, "op2", Some(Expiration::AtTime(1_000_001))).unwrap();
    assert!(is_approved_for_all(&state, &block(), "alice", "op2").approved);
}

#[test]
fn batch_send_is_atomic() {
    let mut state = fresh("minter");
    mint_simple(&mut state, "minter", "alice", "gold", 100);
    mint_simple(&mut state, "minter", "alice", "iron", 5);
    let batch = vec![
        ("gold".to_string(), 50u128),
        ("iron".to_string(), 6u128),
    ];
    let r = batch_send_from(&mut state, &env("alice"), "alice", "bob", batch, None);
    assert_eq!(r.unwrap_err(), ContractError::InsufficientBalance);
    assert_eq!(bal(&state, "alice", "gold"), 100);
    assert_eq!(bal(&state, "alice", "iron"), 5);
    assert_eq!(bal(&state, "bob", "gold"), 0);
    assert_eq!(bal(&state, "bob", "iron"), 0);
}

#[test]
fn batch_send_applies_all_pairs_in_order() {
    let mut state = fresh("minter");
    mint_simple(&mut state, "minter", "alice", "gold", 100);
    let batch = vec![
        ("gold".to_string(), 60u128),
        ("gold".to_string(), 40u128),
    ];
    batch_send_from(&mut state, &env("alice"), "alice", "bob", batch, None).unwrap();
    assert_eq!(bal(&state, "alice", "gold"), 0);
    assert_eq!(bal(&state, "bob", "gold"), 100);
}

#[test]
fn batch_burn_is_atomic() {
    let mut state = fresh("minter");
    mint_simple(&mut state, "minter", "alice", "gold", 100);
    mint_simple(&mut state, "minter", "alice", "iron", 5);
    let batch = vec![
        ("gold".to_string(), 100u128),
        ("iron".to_string(), 6u128),
    ];
    let r = batch_burn(&mut state, &env("alice"), "alice", batch);
    assert_eq!(r.unwrap_err(), ContractError::InsufficientBalance);
    assert_eq!(bal(&state, "alice", "gold"), 100);
    assert_eq!(bal(&state, "alice", "iron"), 5);
    batch_burn(
        &mut state,
        &env("alice"),
        "alice",
        vec![("gold".to_string(), 100u128), ("iron".to_string(), 5u128)],
    )
    .unwrap();
    assert_eq!(bal(&state, "alice", "gold"), 0);
    assert_eq!(bal(&state, "alice", "iron"), 0);
}

#[test]
fn batch_mint_is_atomic_on_overflow() {
    let mut state = fresh("minter");
    mint_simple(&mut state, "minter", "alice", "gold", u128::MAX);
    let batch = vec![
        ("iron".to_string(), 7u128),
        ("gold".to_string(), 1u128),
    ];
    let r = batch_mint(&mut state, &env("minter"), "alice", batch, None);
    assert_eq!(r.unwrap_err(), ContractError::Overflow);
    assert_eq!(bal(&state, "alice", "iron"), 0);
    assert!(token_info(&state, "iron").is_err());
    assert_eq!(bal(&state, "alice", "gold"), u128::MAX);
}

#[test]
fn batch_mint_registers_and_credits() {
    let mut state = fresh("minter");
    let batch = vec![
        ("gold".to_string(), 3u128),
        ("iron".to_string(), 4u128),
    ];
    batch_mint(&mut state, &env("minter"), "alice", batch, None).unwrap();
    assert_eq!(bal(&state, "alice", "gold"), 3);
    assert_eq!(bal(&state, "alice", "iron"), 4);
    assert!(token_info(&state, "gold").is_ok());
    assert!(token_info(&state, "iron").is_ok());
}

#[test]
fn royalty_rounds_down() {
    let mut state = fresh("minter");
    mint(
        &mut state,
        &env("minter"),
        "alice",
        Some("art".to_string()),
        1,
        Some(10),
        Some("payee".to_string()),
        None,
    )
    .unwrap();
    let r = query_royalties_info(&state, "art", 999).unwrap();
    assert_eq!(r.royalty_amount, 99);
    assert_eq!(r.address, "payee");
}

#[test]
fn royalty_defaults_and_missing_record() {
    let mut state = fresh("minter");
    mint(
        &mut state,
        &env("minter"),
        "alice",
        Some("a".to_string()),
        1,
        None,
        Some("payee".to_string()),
        None,
    )
    .unwrap();
    let r = query_royalties_info(&state, "a", 1000).unwrap();
    assert_eq!(r.royalty_amount, 0);
    assert_eq!(r.address, "payee");

    mint(
        &mut state,
        &env("minter"),
        "alice",
        Some("b".to_string()),
        1,
        Some(7),
        None,
        None,
    )
    .unwrap();
    let r = query_royalties_info(&state, "b", 1000).unwrap();
    assert_eq!(r.royalty_amount, 70);
    assert_eq!(r.address, "");

    mint_simple(&mut state, "minter", "alice", "c", 1);
    assert_eq!(
        query_royalties_info(&state, "c", 1000).unwrap_err(),
        ContractError::NotFound
    );
}

#[test]
fn royalty_terms_fixed_at_first_mint() {
    let mut state = fresh("minter");
    mint(
        &mut state,
        &env("minter"),
        "alice",
        Some("art".to_string()),
        1,
        Some(5),
        Some("first".to_string()),
        None,
    )
    .unwrap();
    mint(
        &mut state,
        &env("minter"),
        "alice",
        Some("art".to_string()),
        1,
        Some(50),
        Some("second".to_string()),
        None,
    )
    .unwrap();
    let r = query_royalties_info(&state, "art", 100).unwrap();
    assert_eq!(r.royalty_amount, 5);
    assert_eq!(r.address, "first");
    assert_eq!(bal(&state, "alice", "art"), 2);
}

#[test]
fn invalid_royalty_percentage_rejected() {
    let mut state = fresh("minter");
    let r = mint(
        &mut state,
        &env("minter"),
        "alice",
        Some("art".to_string()),
        1,
        Some(101),
        None,
        None,
    );
    assert_eq!(r.unwrap_err(), ContractError::InvalidRoyaltyPercentage);
    assert!(token_info(&state, "art").is_err());
}

#[test]
fn only_minter_may_mint() {
    let mut state = fresh("minter");
    let r = mint(
        &mut state,
        &env("alice"),
        "alice",
        Some("art".to_string()),
        1,
        None,
        None,
        None,
    );
    assert_eq!(r.unwrap_err(), ContractError::Unauthorized);
    let r = batch_mint(
        &mut state,
        &env("alice"),
        "alice",
        vec![("art".to_string(), 1u128)],
        None,
    );
    assert_eq!(r.unwrap_err(), ContractError::Unauthorized);
}

#[test]
fn auto_ids_are_sequential_decimal_strings() {
    let mut state = fresh("minter");
    for _ in 0..3 {
        mint(&mut state, &env("minter"), "alice", None, 1, None, None, None).unwrap();
    }
    assert_eq!(bal(&state, "alice", "0"), 1);
    assert_eq!(bal(&state, "alice", "1"), 1);
    assert_eq!(bal(&state, "alice", "2"), 1);
    let listed = all_tokens(&state, None, None);
    assert_eq!(listed.tokens, vec!["0", "1", "2"]);
}

#[test]
fn pagination_chains_without_overlap_or_gap() {
    let mut state = fresh("minter");
    for id in ["a", "b", "c", "d", "e"] {
        mint_simple(&mut state, "minter", "alice", id, 1);
    }
    let first = all_tokens(&state, None, Some(2));
    assert_eq!(first.tokens, vec!["a", "b"]);
    let second = all_tokens(&state, Some(first.tokens[1].clone()), Some(2));
    assert_eq!(second.tokens, vec!["c", "d"]);
    let third = all_tokens(&state, Some(second.tokens[1].clone()), Some(2));
    assert_eq!(third.tokens, vec!["e"]);
}

#[test]
fn pagination_defaults_and_clamps_limit() {
    let mut state = fresh("minter");
    for i in 0..35 {
        mint(&mut state, &env("minter"), "alice", None, 1, None, None, None).unwrap();
        let _ = i;
    }
    let by_default = all_tokens(&state, None, None);
    assert_eq!(by_default.tokens.len(), 10);
    let clamped = all_tokens(&state, None, Some(31));
    assert_eq!(clamped.tokens.len(), 30);
}

#[test]
fn tokens_lists_only_held_tokens_of_owner() {
    let mut state = fresh("minter");
    mint_simple(&mut state, "minter", "alice", "gold", 2);
    mint_simple(&mut state, "minter", "alice", "iron", 1);
    mint_simple(&mut state, "minter", "bob", "wood", 9);
    let r = tokens(&state, "alice", None, None);
    assert_eq!(r.tokens, vec!["gold", "iron"]);
    burn(&mut state, &env("alice"), "alice", "iron", 1).unwrap();
    let r = tokens(&state, "alice", None, None);
    assert_eq!(r.tokens, vec!["gold"]);
    let r = tokens(&state, "bob", None, None);
    assert_eq!(r.tokens, vec!["wood"]);
}

#[test]
fn approved_for_all_filters_expired_before_limiting() {
    let mut state = fresh("minter");
    let e = env("alice");
    approve_all(&mut state, &e, "expired_op", Some(Expiration::AtHeight(50))).unwrap();
    approve_all(&mut state, &e, "live_op", None).unwrap();
    let r = approved_for_all(&state, &block(), "alice", false, None, Some(1));
    assert_eq!(r.operators.len(), 1);
    assert_eq!(r.operators[0].spender, "live_op");
    assert_eq!(r.operators[0].expires, Expiration::Never);
    let r = approved_for_all(&state, &block(), "alice", true, None, None);
    assert_eq!(r.operators.len(), 2);
    assert_eq!(r.operators[0].spender, "expired_op");
}

#[test]
fn revoke_removes_approval() {
    let mut state = fresh("minter");
    let e = env("alice");
    approve_all(&mut state, &e, "op", None).unwrap();
    assert!(is_approved_for_all(&state, &block(), "alice", "op").approved);
    revoke_all(&mut state, &e, "op").unwrap();
    assert!(!is_approved_for_all(&state, &block(), "alice", "op").approved);
    revoke_all(&mut state, &e, "op").unwrap();
}

#[test]
fn zero_transfer_still_checks_authorization() {
    let mut state = fresh("minter");
    mint_simple(&mut state, "minter", "alice", "coin", 1);
    let r = send_from(&mut state, &env("mallory"), "alice", "bob", "coin", 0, None);
    assert_eq!(r.unwrap_err(), ContractError::Unauthorized);
    send_from(&mut state, &env("alice"), "alice", "bob", "coin", 0, None).unwrap();
    assert_eq!(bal(&state, "alice", "coin"), 1);
    assert_eq!(bal(&state, "bob", "coin"), 0);
}

#[test]
fn batch_balance_reads_in_asked_order() {
    let mut state = fresh("minter");
    mint_simple(&mut state, "minter", "alice", "gold", 7);
    mint_simple(&mut state, "minter", "alice", "iron", 3);
    let r = batch_balance(
        &state,
        "alice",
        &vec!["iron".to_string(), "ghost".to_string(), "gold".to_string()],
    );
    assert_eq!(r.balances, vec![3, 0, 7]);
}

#[test]
fn notification_emitted_only_with_payload() {
    let mut state = fresh("minter");
    mint_simple(&mut state, "minter", "alice", "coin", 5);
    let resp = send_from(&mut state, &env("alice"), "alice", "bob", "coin", 1, None).unwrap();
    assert_eq!(resp.notifications.len(), 0);
    let resp = send_from(
        &mut state,
        &env("alice"),
        "alice",
        "bob",
        "coin",
        1,
        Some(vec![1, 2, 3]),
    )
    .unwrap();
    assert_eq!(resp.notifications.len(), 1);
}

#[test]
fn example_scenario_end_to_end() {
    let mut state = fresh("M");
    let resp = execute(
        &mut state,
        &env("M"),
        Cw1155RoyaltiesExecuteMsg::Mint {
            to: "A".to_string(),
            token_id: None,
            value: 100,
            royalty_percentage: Some(10),
            royalty_payment_address: Some("R".to_string()),
            msg: None,
        },
    )
    .unwrap();
    assert_eq!(resp.notifications.len(), 0);
    assert_eq!(bal(&state, "A", "0"), 100);

    execute(
        &mut state,
        &env("A"),
        Cw1155RoyaltiesExecuteMsg::ApproveAll { operator: "B".to_string(), expires: None },
    )
    .unwrap();

    execute(
        &mut state,
        &env("B"),
        Cw1155RoyaltiesExecuteMsg::SendFrom {
            from: "A".to_string(),
            to: "C".to_string(),
            token_id: "0".to_string(),
            value: 40,
            msg: None,
        },
    )
    .unwrap();
    assert_eq!(bal(&state, "A", "0"), 60);
    assert_eq!(bal(&state, "C", "0"), 40);

    match query(
        &state,
        &block(),
        Cw1155RoyaltiesQueryMsg::RoyaltyInfo { token_id: "0".to_string(), sale_price: 500 },
    )
    .unwrap()
    {
        QueryAnswer::RoyaltyInfo(ri) => {
            assert_eq!(ri.address, "R");
            assert_eq!(ri.royalty_amount, 50);
        },
        other => panic!("unexpected answer: {:?}", other),
    }

    match query(&state, &block(), Cw1155RoyaltiesQueryMsg::CheckRoyalties {}).unwrap() {
        QueryAnswer::CheckRoyalties(c) => assert!(c.royalty_payments),
        other => panic!("unexpected answer: {:?}", other),
    }
}

#[test]
fn burn_requires_authorization() {
    let mut state = fresh("minter");
    mint_simple(&mut state, "minter", "alice", "coin", 5);
    let r = burn(&mut state, &env("mallory"), "alice", "coin", 1);
    assert_eq!(r.unwrap_err(), ContractError::Unauthorized);
    approve_all(&mut state, &env("alice"), "mallory", None).unwrap();
    burn(&mut state, &env("mallory"), "alice", "coin", 1).unwrap();
    assert_eq!(bal(&state, "alice", "coin"), 4);
}

#[test]
fn token_info_returns_url_or_not_found() {
    let mut state = fresh("minter");
    assert_eq!(token_info(&state, "coin").unwrap_err(), ContractError::NotFound);
    mint_simple(&mut state, "minter", "alice", "coin", 1);
    assert_eq!(token_info(&state, "coin").unwrap().url, "");
}
