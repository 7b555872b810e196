use cw1155_ledger::approvals::Approval;
use cw1155_ledger::error::{ContractError, UnauthorizedReason};
use cw1155_ledger::expiration::{BlockInfo, Expiration};
use cw1155_ledger::ledger::{Ledger, LineItem};

fn env_at(height: u64) -> BlockInfo {
    BlockInfo { height, time: 1_571_797_419 }
}

fn line(token: &str, amount: u128) -> LineItem {
    LineItem { token_id: token.to_string(), amount }
}

fn token_sum(ledger: &Ledger, owners: &[&str], token: &str) -> u128 {
    owners.iter().map(|o| ledger.balance_of(o, token)).sum()
}

#[test]
fn conservation_across_operations() {
    let env = env_at(7);
    let minter = "minter";
    let owners = ["alpha", "beta", "gamma"];
    let mut ledger = Ledger::new(minter);

    assert!(ledger.mint(minter, "alpha", "gold", 100, None, None).is_ok());
    assert_eq!(token_sum(&ledger, &owners, "gold"), 100);
    assert_eq!(ledger.num_tokens(Some("gold")), 100);

    // a send moves value but never creates or destroys it
    assert!(ledger.send(&env, "alpha", "alpha", "beta", "gold", 30).is_ok());
    assert!(ledger.send(&env, "beta", "beta", "gamma", "gold", 10).is_ok());
    assert_eq!(token_sum(&ledger, &owners, "gold"), 100);
    assert_eq!(ledger.num_tokens(Some("gold")), 100);

    // a burn lowers the sum by exactly the burned amount
    assert!(ledger.burn("gamma", "gold", 4).is_ok());
    assert_eq!(token_sum(&ledger, &owners, "gold"), 96);
    assert_eq!(ledger.num_tokens(Some("gold")), 96);

    // a further mint raises it by exactly the minted amount
    assert!(ledger.mint(minter, "beta", "gold", 5, None, None).is_ok());
    assert_eq!(token_sum(&ledger, &owners, "gold"), 101);
    assert_eq!(ledger.num_tokens(Some("gold")), 101);
}

#[test]
fn debit_beyond_balance_fails_unchanged() {
    let env = env_at(7);
    let minter = "minter";
    let mut ledger = Ledger::new(minter);

    assert!(ledger.mint(minter, "alpha", "gold", 3, None, None).is_ok());

    assert_eq!(
        ledger.send(&env, "alpha", "alpha", "beta", "gold", 4),
        Err(ContractError::NotEnoughTokens { available: 3, requested: 4 })
    );
    assert_eq!(
        ledger.burn("alpha", "gold", 4),
        Err(ContractError::NotEnoughTokens { available: 3, requested: 4 })
    );
    assert_eq!(ledger.balance_of("alpha", "gold"), 3);
    assert_eq!(ledger.balance_of("beta", "gold"), 0);
    assert_eq!(ledger.num_tokens(Some("gold")), 3);
}

#[test]
fn exact_allowance_consumption() {
    let env = env_at(7);
    let minter = "minter";
    let mut ledger = Ledger::new(minter);

    assert!(ledger.mint(minter, "alice", "gold", 50, None, None).is_ok());

    // grant 5, spend 2: 3 remain
    assert!(ledger.approve(&env, "alice", "bob", "gold", 5, Expiration::Never).is_ok());
    assert!(ledger.send(&env, "bob", "alice", "carol", "gold", 2).is_ok());
    assert_eq!(
        ledger.allowance_of("alice", "gold", "bob"),
        Some(Approval { amount: 3, expiration: Expiration::Never })
    );

    // spending one more than remains fails and leaves the record untouched
    assert_eq!(
        ledger.send(&env, "bob", "alice", "carol", "gold", 4),
        Err(ContractError::NotEnoughTokens { available: 3, requested: 4 })
    );
    assert_eq!(
        ledger.allowance_of("alice", "gold", "bob"),
        Some(Approval { amount: 3, expiration: Expiration::Never })
    );

    // spending exactly what remains removes the record
    assert!(ledger.send(&env, "bob", "alice", "carol", "gold", 3).is_ok());
    assert_eq!(ledger.allowance_of("alice", "gold", "bob"), None);
}

#[test]
fn repeated_token_in_batch_checked_against_total() {
    let env = env_at(7);
    let minter = "minter";
    let mut ledger = Ledger::new(minter);

    assert!(ledger.mint(minter, "alice", "gold", 10, None, None).is_ok());
    assert!(ledger.approve(&env, "alice", "bob", "gold", 3, Expiration::Never).is_ok());

    // 2 + 2 exceeds the allowance of 3 even though each item alone fits
    let batch = vec![line("gold", 2), line("gold", 2)];
    assert_eq!(
        ledger.send_batch(&env, "bob", "alice", "carol", &batch),
        Err(ContractError::NotEnoughTokens { available: 3, requested: 4 })
    );
    assert_eq!(
        ledger.allowance_of("alice", "gold", "bob"),
        Some(Approval { amount: 3, expiration: Expiration::Never })
    );

    // 2 + 1 matches it exactly and consumes the record
    let batch = vec![line("gold", 2), line("gold", 1)];
    assert!(ledger.send_batch(&env, "bob", "alice", "carol", &batch).is_ok());
    assert_eq!(ledger.allowance_of("alice", "gold", "bob"), None);
    assert_eq!(ledger.balance_of("carol", "gold"), 3);
}

#[test]
fn self_dealing_rejected() {
    let env = env_at(7);
    let minter = "minter";
    let mut ledger = Ledger::new(minter);

    assert!(ledger.mint(minter, "alice", "gold", 5, None, None).is_ok());

    assert_eq!(
        ledger.approve(&env, "alice", "alice", "gold", 1, Expiration::Never),
        Err(ContractError::Unauthorized(UnauthorizedReason::SelfApproval))
    );

    // a self-send fails even for the owner themselves
    assert_eq!(
        ledger.send(&env, "alice", "alice", "alice", "gold", 1),
        Err(ContractError::Unauthorized(UnauthorizedReason::SelfSend))
    );

    // and even for a blanket-approved operator
    assert!(ledger.approve_all(&env, "alice", "oper", Expiration::Never).is_ok());
    assert_eq!(
        ledger.send(&env, "oper", "alice", "alice", "gold", 1),
        Err(ContractError::Unauthorized(UnauthorizedReason::SelfSend))
    );
}

#[test]
fn operator_supersedes_token_allowance() {
    let env = env_at(7);
    let minter = "minter";
    let mut ledger = Ledger::new(minter);

    assert!(ledger.mint(minter, "alice", "gold", 10, None, None).is_ok());
    assert!(ledger.mint(minter, "alice", "silver", 10, None, None).is_ok());

    // a blanket grant moves any token with no per-token allowance
    assert!(ledger.approve_all(&env, "alice", "oper", Expiration::Never).is_ok());
    assert!(ledger.send(&env, "oper", "alice", "bob", "gold", 7).is_ok());
    assert!(ledger.send(&env, "oper", "alice", "bob", "silver", 2).is_ok());
    assert_eq!(ledger.balance_of("bob", "gold"), 7);
    assert_eq!(ledger.balance_of("bob", "silver"), 2);

    // after RevokeAll the same attempt fails ApprovalNotFound
    ledger.revoke_all("alice", "oper");
    assert_eq!(
        ledger.send(&env, "oper", "alice", "bob", "gold", 1),
        Err(ContractError::ApprovalNotFound)
    );
}

#[test]
fn expiry_boundary() {
    let minter = "minter";
    let mut ledger = Ledger::new(minter);

    assert!(ledger.mint(minter, "alice", "gold", 10, None, None).is_ok());

    // granting with an already-past height fails at grant time
    assert_eq!(
        ledger.approve(&env_at(100), "alice", "bob", "gold", 5, Expiration::AtHeight(100)),
        Err(ContractError::InvalidExpiration)
    );

    // granted at height 50 with AtHeight(100)
    assert!(
        ledger.approve(&env_at(50), "alice", "bob", "gold", 5, Expiration::AtHeight(100)).is_ok()
    );

    // usable while the height is strictly below 100
    assert!(ledger.send(&env_at(99), "bob", "alice", "carol", "gold", 1).is_ok());

    // unusable from height 100 on
    assert_eq!(
        ledger.send(&env_at(100), "bob", "alice", "carol", "gold", 1),
        Err(ContractError::ApprovalNotFound)
    );
    assert_eq!(
        ledger.send(&env_at(101), "bob", "alice", "carol", "gold", 1),
        Err(ContractError::ApprovalNotFound)
    );

    // the same boundary governs time-bound grants
    let mut at = env_at(50);
    at.time = 1000;
    assert_eq!(
        ledger.approve(&at, "alice", "carol", "gold", 5, Expiration::AtTime(1000)),
        Err(ContractError::InvalidExpiration)
    );
    at.time = 999;
    assert!(ledger.approve(&at, "alice", "carol", "gold", 5, Expiration::AtTime(1000)).is_ok());
}

#[test]
fn batch_atomicity() {
    let env = env_at(7);
    let minter = "minter";
    let mut ledger = Ledger::new(minter);

    assert!(ledger.mint(minter, "alice", "a", 5, None, None).is_ok());
    assert!(ledger.mint(minter, "alice", "c", 5, None, None).is_ok());
    // "b" is never minted: item 2 of the batch must fail

    let batch = vec![line("a", 1), line("b", 1), line("c", 1)];
    assert_eq!(
        ledger.send_batch(&env, "alice", "alice", "bob", &batch),
        Err(ContractError::NotEnoughTokens { available: 0, requested: 1 })
    );

    // all three balances exactly as before the call, on both sides
    assert_eq!(ledger.balance_of("alice", "a"), 5);
    assert_eq!(ledger.balance_of("alice", "b"), 0);
    assert_eq!(ledger.balance_of("alice", "c"), 5);
    assert_eq!(ledger.balance_of("bob", "a"), 0);
    assert_eq!(ledger.balance_of("bob", "b"), 0);
    assert_eq!(ledger.balance_of("bob", "c"), 0);
}

#[test]
fn allowance_lifecycle_scenario() {
    let env = env_at(7);
    let minter = "minter";
    let mut ledger = Ledger::new(minter);

    // mint 10 units of token "1" to A
    assert!(ledger.mint(minter, "A", "1", 10, None, None).is_ok());

    // A grants B allowance 1 on token "1"
    assert!(ledger.approve(&env, "A", "B", "1", 1, Expiration::Never).is_ok());

    // B sends 1 unit from A to C
    assert!(ledger.send(&env, "B", "A", "C", "1", 1).is_ok());
    assert_eq!(ledger.balance_of("A", "1"), 9);
    assert_eq!(ledger.balance_of("B", "1"), 0);
    assert_eq!(ledger.balance_of("C", "1"), 1);

    // A's allowance to B is now absent
    assert_eq!(ledger.allowance_of("A", "1", "B"), None);

    // B attempting to send one more unit fails
    assert_eq!(
        ledger.send(&env, "B", "A", "C", "1", 1),
        Err(ContractError::ApprovalNotFound)
    );
}

#[test]
fn revoke_without_amount_is_idempotent() {
    let env = env_at(7);
    let mut ledger = Ledger::new("minter");

    // deleting an absent record is a no-op
    assert!(ledger.revoke("alice", "bob", "gold", None).is_ok());

    assert!(ledger.approve(&env, "alice", "bob", "gold", 5, Expiration::Never).is_ok());
    assert!(ledger.revoke("alice", "bob", "gold", None).is_ok());
    assert_eq!(ledger.allowance_of("alice", "gold", "bob"), None);
    assert!(ledger.revoke("alice", "bob", "gold", None).is_ok());
}

#[test]
fn revoke_with_amount_checks_the_record() {
    let env = env_at(7);
    let mut ledger = Ledger::new("minter");

    // a bounded revoke of an absent record fails
    assert_eq!(
        ledger.revoke("alice", "bob", "gold", Some(1)),
        Err(ContractError::ApprovalNotFound)
    );

    assert!(ledger.approve(&env, "alice", "bob", "gold", 5, Expiration::Never).is_ok());

    // revoking more than is granted fails
    assert_eq!(
        ledger.revoke("alice", "bob", "gold", Some(6)),
        Err(ContractError::NotEnoughTokens { available: 5, requested: 6 })
    );

    // revoking the full amount deletes the record
    assert!(ledger.revoke("alice", "bob", "gold", Some(5)).is_ok());
    assert_eq!(ledger.allowance_of("alice", "gold", "bob"), None);
}

#[test]
fn regrant_replaces_rather_than_merges() {
    let env = env_at(7);
    let mut ledger = Ledger::new("minter");

    assert!(ledger.approve(&env, "alice", "bob", "gold", 5, Expiration::Never).is_ok());
    assert!(ledger.approve(&env, "alice", "bob", "gold", 2, Expiration::AtHeight(9)).is_ok());

    // the second grant replaced the first: 2, not 7
    assert_eq!(
        ledger.allowance_of("alice", "gold", "bob"),
        Some(Approval { amount: 2, expiration: Expiration::AtHeight(9) })
    );
}

#[test]
fn pagination_defaults_and_bounds() {
    let env = env_at(7);
    let mut ledger = Ledger::new("minter");

    for i in 0..150 {
        let operator = format!("op{:03}", i);
        assert!(ledger.approve_all(&env, "alice", &operator, Expiration::Never).is_ok());
    }

    // the default page holds 30 entries, ascending and exclusive of the cursor
    let page = ledger.approvals_for_all(&env, "alice", false, None, None);
    assert_eq!(page.len(), 30);
    assert_eq!(page[0].0, "op000");
    assert_eq!(page[29].0, "op029");

    let page = ledger.approvals_for_all(&env, "alice", false, Some("op029"), None);
    assert_eq!(page[0].0, "op030");

    // an oversized request is clamped to 100
    let page = ledger.approvals_for_all(&env, "alice", false, None, Some(1000));
    assert_eq!(page.len(), 100);

    let page = ledger.approvals_for_all(&env, "alice", false, None, Some(2));
    assert_eq!(page.len(), 2);
}

#[test]
fn empty_batches_succeed_and_change_nothing() {
    let env = env_at(7);
    let minter = "minter";
    let mut ledger = Ledger::new(minter);

    assert!(ledger.mint(minter, "alice", "gold", 5, None, None).is_ok());
    assert!(ledger.send_batch(&env, "alice", "alice", "bob", &vec![]).is_ok());
    assert!(ledger.burn_batch("alice", &vec![]).is_ok());
    assert!(ledger.mint_batch(minter, "alice", vec![]).is_ok());
    assert_eq!(ledger.balance_of("alice", "gold"), 5);
    assert_eq!(ledger.num_tokens(None), 5);
}

#[test]
fn mint_batch_is_atomic() {
    let minter = "minter";
    let mut ledger = Ledger::new(minter);

    assert!(ledger.mint(minter, "alice", "gold", u128::MAX - 1, None, None).is_ok());

    // the second item overflows the aggregate supply: nothing is minted
    let items = vec![
        cw1155_ledger::ledger::MintItem {
            token_id: "silver".to_string(),
            amount: 1,
            token_uri: None,
            extension: None,
        },
        cw1155_ledger::ledger::MintItem {
            token_id: "bronze".to_string(),
            amount: 1,
            token_uri: None,
            extension: None,
        },
    ];
    assert_eq!(
        ledger.mint_batch(minter, "bob", items),
        Err(ContractError::ArithmeticOverflow)
    );
    assert_eq!(ledger.balance_of("bob", "silver"), 0);
    assert_eq!(ledger.balance_of("bob", "bronze"), 0);
    assert_eq!(ledger.num_tokens(None), u128::MAX - 1);

    // a zero amount anywhere also aborts the whole batch
    let items = vec![
        cw1155_ledger::ledger::MintItem {
            token_id: "silver".to_string(),
            amount: 1,
            token_uri: None,
            extension: None,
        },
        cw1155_ledger::ledger::MintItem {
            token_id: "bronze".to_string(),
            amount: 0,
            token_uri: None,
            extension: None,
        },
    ];
    assert_eq!(
        ledger.mint_batch(minter, "bob", items),
        Err(ContractError::InvalidZeroAmount)
    );
    assert_eq!(ledger.balance_of("bob", "silver"), 0);
}

#[test]
fn spender_aggregate_beyond_maximum_fails() {
    let env = env_at(7);
    let minter = "minter";
    let mut ledger = Ledger::new(minter);

    assert!(ledger.mint(minter, "alice", "gold", 10, None, None).is_ok());
    assert!(ledger.approve(&env, "alice", "bob", "gold", 5, Expiration::Never).is_ok());

    // the amounts for a repeated token are summed before any check, and a
    // sum beyond the maximum representable amount fails first
    let batch = vec![line("gold", u128::MAX), line("gold", 1)];
    assert_eq!(
        ledger.send_batch(&env, "bob", "alice", "carol", &batch),
        Err(ContractError::ArithmeticOverflow)
    );
    assert_eq!(ledger.balance_of("alice", "gold"), 10);
    assert_eq!(
        ledger.allowance_of("alice", "gold", "bob"),
        Some(Approval { amount: 5, expiration: Expiration::Never })
    );
}

#[test]
fn operator_grant_overwrites_expiration() {
    let env = env_at(7);
    let mut ledger = Ledger::new("minter");

    assert!(ledger.approve_all(&env, "alice", "oper", Expiration::AtHeight(50)).is_ok());
    assert!(ledger.approve_all(&env, "alice", "oper", Expiration::Never).is_ok());
    assert_eq!(
        ledger.approvals_for_all(&env, "alice", false, None, None),
        vec![("oper".to_string(), Expiration::Never)]
    );

    // an expired grant never authorizes, but is listed when asked for
    assert!(ledger.approve_all(&env, "alice", "oper", Expiration::AtHeight(10)).is_ok());
    assert!(!ledger.is_approved_for_all(&env_at(10), "alice", "oper"));
    assert_eq!(ledger.approvals_for_all(&env_at(10), "alice", false, None, None), vec![]);
    assert_eq!(
        ledger.approvals_for_all(&env_at(10), "alice", true, None, None),
        vec![("oper".to_string(), Expiration::AtHeight(10))]
    );
}
