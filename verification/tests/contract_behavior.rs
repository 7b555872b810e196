use cw1155_ledger::approvals::Approval;
use cw1155_ledger::error::{ContractError, UnauthorizedReason};
use cw1155_ledger::expiration::{BlockInfo, Expiration};
use cw1155_ledger::ledger::{Ledger, LineItem, MintItem};

fn env_at(height: u64) -> BlockInfo {
    BlockInfo { height, time: 1_571_797_419 }
}

fn mock_env() -> BlockInfo {
    env_at(12_345)
}

fn mint_item(token: &str, amount: u128) -> MintItem {
    MintItem { token_id: token.to_string(), amount, token_uri: None, extension: None }
}

fn line(token: &str, amount: u128) -> LineItem {
    LineItem { token_id: token.to_string(), amount }
}

#[test]
fn check_transfers() {
    let env = mock_env();
    let creator = "creator";
    let user1 = "user1";
    let user2 = "user2";
    let token1 = "1";
    let token2 = "2";
    let token3 = "3";
    let mut ledger = Ledger::new(creator);

    // invalid mint, user1 has no mint permission
    assert_eq!(
        ledger.mint(user1, user1, token1, 1, None, None),
        Err(ContractError::Unauthorized(UnauthorizedReason::NotMinter))
    );

    // valid mint
    assert!(ledger.mint(creator, user1, token1, 1, None, None).is_ok());

    // verify supply
    assert_eq!(ledger.num_tokens(Some(token1)), 1);
    assert_eq!(ledger.num_tokens(None), 1);

    // query balance
    assert_eq!(ledger.balance_of(user1, token1), 1);

    // not approved yet
    assert_eq!(
        ledger.send(&env, creator, user1, user2, token1, 1),
        Err(ContractError::ApprovalNotFound)
    );

    // approve
    assert!(ledger.approve(&env, user1, creator, token1, 1, Expiration::Never).is_ok());

    // transfer
    assert!(ledger.send(&env, creator, user1, user2, token1, 1).is_ok());

    // query balance
    assert_eq!(ledger.balance_of(user2, token1), 1);
    assert_eq!(ledger.balance_of(user1, token1), 0);

    // mint token2 and token3
    assert!(ledger.mint(creator, user2, token2, 1, None, None).is_ok());
    assert!(ledger.mint(creator, user2, token3, 1, None, None).is_ok());

    // verify supply
    assert_eq!(ledger.num_tokens(Some(token2)), 1);
    assert_eq!(ledger.num_tokens(Some(token3)), 1);
    assert_eq!(ledger.num_tokens(None), 3);

    // invalid batch transfer, user2 not approved yet
    let batch = vec![line(token1, 1), line(token2, 1), line(token3, 1)];
    assert_eq!(
        ledger.send_batch(&env, creator, user2, user1, &batch),
        Err(ContractError::ApprovalNotFound)
    );

    // user2 approves all
    assert!(ledger.approve_all(&env, user2, creator, Expiration::Never).is_ok());

    // verify approval status
    assert!(ledger.is_approved_for_all(&env, user2, creator));

    // valid batch transfer
    assert!(ledger.send_batch(&env, creator, user2, user1, &batch).is_ok());

    // batch query
    let queries = vec![
        (user1.to_string(), token1.to_string()),
        (user1.to_string(), token2.to_string()),
        (user1.to_string(), token3.to_string()),
    ];
    assert_eq!(ledger.balance_of_batch(&queries), vec![1, 1, 1]);

    // user1 revokes approval
    ledger.revoke_all(user1, creator);

    // query approval status
    assert_eq!(ledger.approvals_for_all(&env, user1, false, None, None), vec![]);
    assert!(!ledger.is_approved_for_all(&env, user1, creator));

    // transfer without approval
    assert_eq!(
        ledger.send(&env, creator, user1, user2, token1, 1),
        Err(ContractError::ApprovalNotFound)
    );

    // burn token1
    assert!(ledger.burn(user1, token1, 1).is_ok());

    // verify supply
    assert_eq!(ledger.num_tokens(Some(token1)), 0);
    assert_eq!(ledger.num_tokens(None), 2);

    // verify balance
    assert_eq!(ledger.balance_of(user1, token1), 0);

    // burn them all
    let burns = vec![line(token2, 1), line(token3, 1)];
    assert!(ledger.burn_batch(user1, &burns).is_ok());

    // verify supply
    assert_eq!(ledger.num_tokens(Some(token2)), 0);
    assert_eq!(ledger.num_tokens(Some(token3)), 0);
    assert_eq!(ledger.num_tokens(None), 0);

    // verify balances
    let queries = vec![
        (user1.to_string(), token2.to_string()),
        (user1.to_string(), token3.to_string()),
    ];
    assert_eq!(ledger.balance_of_batch(&queries), vec![0, 0]);
}

#[test]
fn check_send_contract() {
    // The recipient-notification submessage and response attributes belong
    // to the host adapter; the balance movement it reports is checked here.
    let env = mock_env();
    let receiver = "receive_contract";
    let minter = "minter";
    let user1 = "user1";
    let token1 = "token1";
    let token2 = "token2";
    let mut ledger = Ledger::new(minter);

    assert!(
        ledger
            .mint_batch(minter, user1, vec![mint_item(token1, 5), mint_item(token2, 5)])
            .is_ok()
    );
    assert!(ledger.mint_batch(minter, receiver, vec![mint_item(token1, 1)]).is_ok());

    // batch send with an explicit sender
    assert!(ledger.send_batch(&env, user1, user1, receiver, &vec![line(token2, 1)]).is_ok());

    // verify balances
    let queries = vec![
        (user1.to_string(), token2.to_string()),
        (receiver.to_string(), token2.to_string()),
    ];
    assert_eq!(ledger.balance_of_batch(&queries), vec![4, 1]);

    // batch send in the sender's own name
    let batch = vec![line(token1, 1), line(token2, 1)];
    assert!(ledger.send_batch(&env, user1, user1, receiver, &batch).is_ok());

    // verify balances
    let queries = vec![
        (user1.to_string(), token1.to_string()),
        (user1.to_string(), token2.to_string()),
        (receiver.to_string(), token1.to_string()),
        (receiver.to_string(), token2.to_string()),
    ];
    assert_eq!(ledger.balance_of_batch(&queries), vec![4, 3, 2, 2]);
}

#[test]
fn check_queries() {
    // mint multiple types of tokens, and query them
    // grant approval to multiple operators, and query them
    let env = mock_env();
    let minter = "minter";
    let tokens: Vec<String> = (0..10).map(|i| format!("token{}", i)).collect();
    let users: Vec<String> = (0..10).map(|i| format!("user{}", i)).collect();
    let mut ledger = Ledger::new(minter);

    for token_id in &tokens {
        assert!(ledger.mint(minter, &users[0], token_id, 1, None, None).is_ok());
    }
    for user in &users[1..] {
        assert!(ledger.mint(minter, user, &tokens[9], 1, None, None).is_ok());
    }

    assert_eq!(ledger.num_tokens(Some(&tokens[0])), 1);
    assert_eq!(ledger.num_tokens(Some(&tokens[0])), 1);

    let expected: Vec<(String, u128)> =
        users[..5].iter().map(|u| (u.clone(), 1u128)).collect();
    assert_eq!(ledger.all_balances(&tokens[9], None, Some(5)), expected);

    let expected: Vec<(String, u128)> =
        users[6..].iter().map(|u| (u.clone(), 1u128)).collect();
    assert_eq!(ledger.all_balances(&tokens[9], Some("user5"), Some(5)), expected);

    assert_eq!(ledger.tokens_of(&users[0], None, Some(5)), tokens[..5].to_vec());
    assert_eq!(ledger.tokens_of(&users[0], Some("token5"), Some(5)), tokens[6..].to_vec());
    assert_eq!(ledger.all_tokens(Some("token5"), Some(5)), tokens[6..].to_vec());

    assert_eq!(ledger.token_info("token5"), Some((None, None)));

    for user in &users[1..] {
        assert!(ledger.approve_all(&env, &users[0], user, Expiration::Never).is_ok());
    }

    assert_eq!(
        ledger.approvals_for_all(&env, &users[0], false, Some("user2"), Some(1)),
        vec![(users[3].clone(), Expiration::Never)]
    );

    assert!(ledger.is_approved_for_all(&env, &users[0], &users[3]));
}

#[test]
fn approval_expires() {
    let minter = "minter";
    let user1 = "user1";
    let user2 = "user2";
    let token1 = "token1";
    let env = env_at(10);
    let mut ledger = Ledger::new(minter);

    assert!(ledger.mint(minter, user1, token1, 1, None, None).is_ok());

    // an already-elapsed expiration is rejected
    assert!(ledger.approve_all(&env, user1, user2, Expiration::AtHeight(5)).is_err());

    assert!(ledger.approve_all(&env, user1, user2, Expiration::AtHeight(100)).is_ok());

    // the grant is listed while the height is below the bound
    let approvals = ledger.approvals_for_all(&env, user1, false, None, None);
    assert!(approvals.iter().all(|(operator, _)| operator == user2));
    assert_eq!(approvals.len(), 1);

    // and gone from the boundary on
    let approvals = ledger.approvals_for_all(&env_at(100), user1, false, None, None);
    assert!(approvals.is_empty());
}

#[test]
fn mint_overflow() {
    let minter = "minter";
    let user1 = "user1";
    let token1 = "token1";
    let token2 = "token2";
    let mut ledger = Ledger::new(minter);

    // minting up to the maximum representable amount passes
    assert!(ledger.mint(minter, user1, token1, u128::MAX, None, None).is_ok());

    // minting one more fails
    assert_eq!(
        ledger.mint(minter, user1, token1, 1, None, None),
        Err(ContractError::ArithmeticOverflow)
    );

    // minting one more of a different token id fails too
    assert_eq!(
        ledger.mint(minter, user1, token2, 1, None, None),
        Err(ContractError::ArithmeticOverflow)
    );

    // balances and supply unchanged
    assert_eq!(ledger.balance_of(user1, token1), u128::MAX);
    assert_eq!(ledger.balance_of(user1, token2), 0);
    assert_eq!(ledger.num_tokens(None), u128::MAX);
}

#[test]
fn token_uri() {
    let minter = "minter";
    let user1 = "user1";
    let token1 = "token1";
    let url1 = "url1";
    let url2 = "url2";
    let mut ledger = Ledger::new(minter);

    // first mint fixes the metadata
    assert!(ledger.mint(minter, user1, token1, 1, Some(url1.to_string()), None).is_ok());
    assert_eq!(ledger.token_info(token1), Some((Some(url1.to_string()), None)));

    // a mint after the first leaves it unchanged
    assert!(ledger.mint(minter, user1, token1, 1, Some(url2.to_string()), None).is_ok());
    assert_eq!(ledger.token_info(token1), Some((Some(url1.to_string()), None)));
}

#[test]
fn check_token_approvals() {
    let env = mock_env();
    let minter = "creator";
    let user1 = "user1";
    let user2 = "user2";
    let user3 = "user3";
    let token_id = "1";
    let mut ledger = Ledger::new(minter);

    // mint tokens to user 1
    assert!(ledger.mint(minter, user1, token_id, 10, None, None).is_ok());
    assert_eq!(ledger.balance_of(user1, token_id), 10);

    // user 2 tries to send from user 1 without approval
    assert_eq!(
        ledger.send(&env, user2, user1, user3, token_id, 1),
        Err(ContractError::ApprovalNotFound)
    );

    // user 1 approves themselves (should fail)
    assert_eq!(
        ledger.approve(&env, user1, user1, token_id, 1, Expiration::Never),
        Err(ContractError::Unauthorized(UnauthorizedReason::SelfApproval))
    );

    // user 1 approves user 2 with zero amount (should fail)
    assert_eq!(
        ledger.approve(&env, user1, user2, token_id, 0, Expiration::Never),
        Err(ContractError::InvalidZeroAmount)
    );

    // user 1 approves user 2 with a valid amount
    assert!(ledger.approve(&env, user1, user2, token_id, 1, Expiration::Never).is_ok());

    // balances unchanged by approvals
    assert_eq!(ledger.balance_of(user1, token_id), 10);
    assert_eq!(ledger.balance_of(user2, token_id), 0);

    // user 2 approves user 3 even though they have no tokens
    assert!(ledger.approve(&env, user2, user3, token_id, 1, Expiration::Never).is_ok());

    // user 3 sends from user 2 (user 2 has no tokens)
    assert_eq!(
        ledger.send(&env, user3, user2, user3, token_id, 1),
        Err(ContractError::NotEnoughTokens { available: 0, requested: 1 })
    );

    // user 2 sends more than approved
    assert_eq!(
        ledger.send(&env, user2, user1, user3, token_id, 2),
        Err(ContractError::NotEnoughTokens { available: 1, requested: 2 })
    );

    // user 2 sends to user 3 from user 1's balance
    assert!(ledger.send(&env, user2, user1, user3, token_id, 1).is_ok());
    assert_eq!(ledger.balance_of(user1, token_id), 9);
    assert_eq!(ledger.balance_of(user2, token_id), 0);
    assert_eq!(ledger.balance_of(user3, token_id), 1);

    // the approval is used up
    assert_eq!(
        ledger.send(&env, user2, user1, user3, token_id, 1),
        Err(ContractError::ApprovalNotFound)
    );

    // user 2 still has no tokens
    assert_eq!(
        ledger.send(&env, user3, user2, user3, token_id, 1),
        Err(ContractError::NotEnoughTokens { available: 0, requested: 1 })
    );

    // user 1 sends tokens to user 2
    assert!(ledger.send(&env, user1, user1, user2, token_id, 1).is_ok());
    let queries = vec![
        (user1.to_string(), token_id.to_string()),
        (user2.to_string(), token_id.to_string()),
        (user3.to_string(), token_id.to_string()),
    ];
    assert_eq!(ledger.balance_of_batch(&queries), vec![8, 1, 1]);

    // user 3 asks for more than approved from user 2's balance
    assert_eq!(
        ledger.send(&env, user3, user2, user3, token_id, 2),
        Err(ContractError::NotEnoughTokens { available: 1, requested: 2 })
    );

    // and for the approved amount
    assert!(ledger.send(&env, user3, user2, user3, token_id, 1).is_ok());
    assert_eq!(ledger.balance_of_batch(&queries), vec![8, 0, 2]);

    // all approvals used up
    assert_eq!(ledger.token_approvals(&env, user1, token_id, false), vec![]);
    assert_eq!(ledger.token_approvals(&env, user2, token_id, false), vec![]);
    assert_eq!(ledger.token_approvals(&env, user3, token_id, false), vec![]);

    // user 1 approves user 2 with amount 2
    assert!(ledger.approve(&env, user1, user2, token_id, 2, Expiration::Never).is_ok());
    assert_eq!(
        ledger.token_approvals(&env, user1, token_id, false),
        vec![(user2.to_string(), Approval { amount: 2, expiration: Expiration::Never })]
    );

    // user 1 revokes amount 1 from user 2
    assert!(ledger.revoke(user1, user2, token_id, Some(1)).is_ok());
    assert_eq!(
        ledger.token_approvals(&env, user1, token_id, false),
        vec![(user2.to_string(), Approval { amount: 1, expiration: Expiration::Never })]
    );

    // user 2 asks for more than remains
    assert_eq!(
        ledger.send(&env, user2, user1, user2, token_id, 2),
        Err(ContractError::NotEnoughTokens { available: 1, requested: 2 })
    );

    // user 2 sends back to user 1 (cannot send to self)
    assert_eq!(
        ledger.send(&env, user2, user1, user1, token_id, 1),
        Err(ContractError::Unauthorized(UnauthorizedReason::SelfSend))
    );

    // the failed attempts left the approval untouched
    assert_eq!(
        ledger.token_approvals(&env, user1, token_id, false),
        vec![(user2.to_string(), Approval { amount: 1, expiration: Expiration::Never })]
    );

    // user 2 sends the approved amount to themselves
    assert!(ledger.send(&env, user2, user1, user2, token_id, 1).is_ok());
    assert_eq!(ledger.balance_of_batch(&queries), vec![7, 1, 2]);

    // approval consumed entirely
    assert_eq!(ledger.token_approvals(&env, user1, token_id, false), vec![]);
}
