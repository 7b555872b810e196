use vstd::prelude::*;

use crate::approvals::Approval;
use crate::error::{ContractError, UnauthorizedReason};
use crate::expiration::{BlockInfo, Expiration};
use crate::ledger::Ledger;
use crate::model::{
    approve_all_tr, approve_tr, burn_items_tr, consume_allowances, first_occurrence, items_total,
    lemma_move_items_frame, mint_tr, move_items, revoke_all_tr, send_tr, LedgerModel, MintItemV,
};

verus! {

/// Conservation under transfer: a successful send leaves every token's
/// summed balance across owners — and its recorded supply — unchanged.
pub proof fn law_send_conserves(
    l1: Ledger,
    l2: Ledger,
    env: BlockInfo,
    actor: Seq<char>,
    from: Seq<char>,
    to: Seq<char>,
    items: Seq<(Seq<char>, u128)>,
)
    requires
        l1.wf(),
        l2.wf(),
        send_tr(l1@, env, actor, from, to, items) == Ok::<LedgerModel, ContractError>(l2@),
    ensures
        forall|t: Seq<char>| #[trigger]
            l2.balances.spec_token_sum(t) == l1.balances.spec_token_sum(t),
        forall|t: Seq<char>| #[trigger] l2@.supply(t) == l1@.supply(t),
        l2@.total == l1@.total,
{
    if actor == from || l1@.operator_live(from, actor, env) {
        lemma_move_items_frame(l1@, from, to, items);
    } else {
        lemma_move_items_frame(consume_allowances(l1@, actor, from, items), from, to, items);
    }
    assert(l2@.tokens == l1@.tokens);
    assert forall|t: Seq<char>| #[trigger] l2.balances.spec_token_sum(t)
        == l1.balances.spec_token_sum(t) by {
        assert(l1.balances.spec_token_sum(t) == l1.tokens.spec_supply(t));
        assert(l2.balances.spec_token_sum(t) == l2.tokens.spec_supply(t));
    }
}

/// Conservation under mint: a successful mint raises the minted token's
/// summed balance by exactly the minted amount, and no other token's.
pub proof fn law_mint_conserves(
    l1: Ledger,
    l2: Ledger,
    caller: Seq<char>,
    recipient: Seq<char>,
    token: Seq<char>,
    amount: u128,
    uri: Option<Seq<char>>,
    ext: Option<Seq<u8>>,
)
    requires
        l1.wf(),
        l2.wf(),
        mint_tr(
            l1@,
            caller,
            recipient,
            seq![MintItemV { token, amount, token_uri: uri, extension: ext }],
        ) == Ok::<LedgerModel, ContractError>(l2@),
    ensures
        forall|t: Seq<char>| #[trigger]
            l2.balances.spec_token_sum(t) == l1.balances.spec_token_sum(t) + if t == token {
                amount as int
            } else {
                0
            },
{
    let items = seq![MintItemV { token, amount, token_uri: uri, extension: ext }];
    reveal_with_fuel(crate::model::mint_items_tr, 2);
    assert(items[0] == MintItemV { token, amount, token_uri: uri, extension: ext });
    assert(items.drop_first() =~= Seq::<MintItemV>::empty());
    assert(l1@.total + amount <= u128::MAX);
    assert(l2@ == crate::model::mint_apply(l1@, recipient, items[0]));
    l1.lemma_bal_le_supply(recipient, token);
    assert forall|t: Seq<char>| #[trigger] l2.balances.spec_token_sum(t)
        == l1.balances.spec_token_sum(t) + (if t == token {
        amount as int
    } else {
        0
    }) by {
        assert(l1.balances.spec_token_sum(t) == l1.tokens.spec_supply(t));
        assert(l2.balances.spec_token_sum(t) == l2.tokens.spec_supply(t));
        if t == token {
            assert(l2@.supply(t) == (l1@.supply(t) + amount) as u128);
        } else {
            assert(l2@.supply(t) == l1@.supply(t));
        }
    }
}

/// Conservation under burn: a successful burn lowers the burned token's
/// summed balance by exactly the burned amount, and no other token's.
pub proof fn law_burn_conserves(
    l1: Ledger,
    l2: Ledger,
    caller: Seq<char>,
    token: Seq<char>,
    amount: u128,
)
    requires
        l1.wf(),
        l2.wf(),
        burn_items_tr(l1@, caller, seq![(token, amount)]) == Ok::<LedgerModel, ContractError>(
            l2@,
        ),
    ensures
        forall|t: Seq<char>| #[trigger]
            l2.balances.spec_token_sum(t) == l1.balances.spec_token_sum(t) - if t == token {
                amount as int
            } else {
                0
            },
{
    let items = seq![(token, amount)];
    reveal_with_fuel(crate::model::burn_items_tr, 2);
    assert(items[0] == (token, amount));
    assert(items.drop_first() =~= Seq::<(Seq<char>, u128)>::empty());
    assert(l1@.bal(caller, token) >= amount);
    assert(l2@ == crate::model::burn_apply(l1@, caller, token, amount));
    l1.lemma_bal_le_supply(caller, token);
    assert forall|t: Seq<char>| #[trigger] l2.balances.spec_token_sum(t)
        == l1.balances.spec_token_sum(t) - (if t == token {
        amount as int
    } else {
        0
    }) by {
        assert(l1.balances.spec_token_sum(t) == l1.tokens.spec_supply(t));
        assert(l2.balances.spec_token_sum(t) == l2.tokens.spec_supply(t));
        if t == token {
            assert(l2@.supply(t) == (l1@.supply(t) - amount) as u128);
        } else {
            assert(l2@.supply(t) == l1@.supply(t));
        }
    }
}

/// Exact allowance consumption: after granting a spender allowance `n` on a
/// token, a spender-initiated send of `k <= n` units succeeds and leaves
/// allowance `n - k` — the record removed entirely when `k == n`.
pub proof fn law_allowance_consumed_exactly(
    m: LedgerModel,
    m1: LedgerModel,
    env: BlockInfo,
    owner: Seq<char>,
    spender: Seq<char>,
    to: Seq<char>,
    token: Seq<char>,
    n: u128,
    k: u128,
    exp: Expiration,
)
    requires
        approve_tr(m, env, owner, spender, token, n, exp) == Ok::<LedgerModel, ContractError>(m1),
        !m1.operator_live(owner, spender, env),
        to != owner,
        k <= n,
        m1.bal(owner, token) >= k,
        m1.bal(to, token) + k <= u128::MAX,
    ensures
        send_tr(m1, env, spender, owner, to, seq![(token, k)]) matches Ok(r) && (if k < n {
            r.approvals.contains_key((owner, token, spender)) && r.approvals[(
                owner,
                token,
                spender,
            )] == Approval { amount: (n - k) as u128, expiration: exp }
        } else {
            !r.approvals.contains_key((owner, token, spender))
        }),
{
    let items = seq![(token, k)];
    reveal_with_fuel(crate::model::items_total, 2);
    reveal_with_fuel(crate::model::allowance_check, 2);
    reveal_with_fuel(crate::model::move_items, 2);
    assert(items[0] == (token, k));
    assert(items.drop_first() =~= Seq::<(Seq<char>, u128)>::empty());
    assert(items_total(items, token) == k);
    assert(spender != owner);
    assert(m1.approvals.contains_key((owner, token, spender)));
    assert(m1.approvals[(owner, token, spender)] == Approval { amount: n, expiration: exp });
    assert(!exp.spec_is_expired(&env));
    assert(m1.live_approval(owner, token, spender, env) == Some(
        Approval { amount: n, expiration: exp },
    ));
    assert(first_occurrence(items, 0));
    let mc = consume_allowances(m1, spender, owner, items);
    assert(mc.bal(owner, token) == m1.bal(owner, token));
    assert(mc.bal(to, token) == m1.bal(to, token));
    assert(move_items(mc, owner, to, items) is Ok) by {
        assert(items.drop_first() =~= Seq::<(Seq<char>, u128)>::empty());
    }
    let r = move_items(mc, owner, to, items)->Ok_0;
    lemma_move_items_frame(mc, owner, to, items);
    assert(r.approvals == mc.approvals);
    assert(crate::model::has_token(items, token));
    if k < n {
        assert(mc.approvals.contains_key((owner, token, spender)));
        assert(mc.approvals[(owner, token, spender)] == Approval {
            amount: (n - k) as u128,
            expiration: exp,
        });
    } else {
        assert(!mc.approvals.contains_key((owner, token, spender)));
    }
}

/// Exceeding the allowance: a spender-initiated send of more than the
/// granted amount fails `NotEnoughTokens` with the granted amount as what
/// is available, and touches nothing.
pub proof fn law_allowance_exceeded(
    m: LedgerModel,
    m1: LedgerModel,
    env: BlockInfo,
    owner: Seq<char>,
    spender: Seq<char>,
    to: Seq<char>,
    token: Seq<char>,
    n: u128,
    k: u128,
    exp: Expiration,
)
    requires
        approve_tr(m, env, owner, spender, token, n, exp) == Ok::<LedgerModel, ContractError>(m1),
        !m1.operator_live(owner, spender, env),
        to != owner,
        k > n,
    ensures
        send_tr(m1, env, spender, owner, to, seq![(token, k)]) == Err::<
            LedgerModel,
            ContractError,
        >(ContractError::NotEnoughTokens { available: n, requested: k }),
{
    let items = seq![(token, k)];
    reveal_with_fuel(crate::model::items_total, 2);
    reveal_with_fuel(crate::model::allowance_check, 2);
    assert(items[0] == (token, k));
    assert(items.drop_first() =~= Seq::<(Seq<char>, u128)>::empty());
    assert(items_total(items, token) == k);
    assert(spender != owner);
    assert(m1.live_approval(owner, token, spender, env) == Some(
        Approval { amount: n, expiration: exp },
    ));
    assert(first_occurrence(items, 0));
}

/// Self-dealing rejected, first half: an owner cannot grant an allowance to
/// themselves, whatever the other arguments.
pub proof fn law_self_approval_rejected(
    m: LedgerModel,
    env: BlockInfo,
    owner: Seq<char>,
    token: Seq<char>,
    amount: u128,
    exp: Expiration,
)
    ensures
        approve_tr(m, env, owner, owner, token, amount, exp) == Err::<LedgerModel, ContractError>(
            ContractError::Unauthorized(UnauthorizedReason::SelfApproval),
        ),
{
}

/// Self-dealing rejected, second half: a send whose sender and recipient
/// coincide fails `Unauthorized`, regardless of any authorization held.
pub proof fn law_self_send_rejected(
    m: LedgerModel,
    env: BlockInfo,
    actor: Seq<char>,
    addr: Seq<char>,
    items: Seq<(Seq<char>, u128)>,
)
    ensures
        send_tr(m, env, actor, addr, addr, items) == Err::<LedgerModel, ContractError>(
            ContractError::Unauthorized(UnauthorizedReason::SelfSend),
        ),
{
}

/// Operator supersedes token allowances: after a live blanket grant, the
/// operator's sends move the owner's tokens as the owner's own would, and
/// no per-token allowance is consulted or consumed.
pub proof fn law_operator_supersedes(
    m: LedgerModel,
    m1: LedgerModel,
    env: BlockInfo,
    owner: Seq<char>,
    operator: Seq<char>,
    to: Seq<char>,
    items: Seq<(Seq<char>, u128)>,
    exp: Expiration,
)
    requires
        approve_all_tr(m, env, owner, operator, exp) == Ok::<LedgerModel, ContractError>(m1),
        operator != owner,
        to != owner,
    ensures
        m1.operator_live(owner, operator, env),
        send_tr(m1, env, operator, owner, to, items) == move_items(m1, owner, to, items),
        send_tr(m1, env, operator, owner, to, items) matches Ok(r) ==> r.approvals == m1.approvals,
{
    assert(!exp.spec_is_expired(&env));
    lemma_move_items_frame(m1, owner, to, items);
}

/// After `RevokeAll`, the operator is no spender: with no per-token
/// allowance on record, the same attempt fails `ApprovalNotFound`.
pub proof fn law_revoke_all_cuts_off(
    m1: LedgerModel,
    m2: LedgerModel,
    env: BlockInfo,
    owner: Seq<char>,
    operator: Seq<char>,
    to: Seq<char>,
    items: Seq<(Seq<char>, u128)>,
)
    requires
        m2 == revoke_all_tr(m1, owner, operator),
        operator != owner,
        to != owner,
        items.len() > 0,
        forall|t: Seq<char>| !(#[trigger] m2.approvals.contains_key((owner, t, operator))),
        forall|x: int|
            0 <= x < items.len() ==> items_total(items, (#[trigger] items[x]).0) <= u128::MAX,
    ensures
        send_tr(m2, env, operator, owner, to, items) == Err::<LedgerModel, ContractError>(
            ContractError::ApprovalNotFound,
        ),
{
    assert(!m2.operators.contains_key((owner, operator)));
    assert(!m2.operator_live(owner, operator, env));
    assert(first_occurrence(items, 0));
    assert(!m2.approvals.contains_key((owner, items[0].0, operator)));
    assert(m2.live_approval(owner, items[0].0, operator, env) is None);
}

/// Expiry boundary: an allowance granted with `AtHeight(h)` is live while
/// the current height is strictly below `h` and dead from `h` on.
pub proof fn law_expiry_boundary(
    m: LedgerModel,
    m1: LedgerModel,
    env_grant: BlockInfo,
    env_use: BlockInfo,
    owner: Seq<char>,
    spender: Seq<char>,
    token: Seq<char>,
    n: u128,
    h: u64,
)
    requires
        approve_tr(m, env_grant, owner, spender, token, n, Expiration::AtHeight(h)) == Ok::<
            LedgerModel,
            ContractError,
        >(m1),
    ensures
        env_use.height < h ==> m1.live_approval(owner, token, spender, env_use) == Some(
            Approval { amount: n, expiration: Expiration::AtHeight(h) },
        ),
        env_use.height >= h ==> m1.live_approval(owner, token, spender, env_use) is None,
{
}

/// A dead allowance authorizes nothing: when no live record backs the
/// spender — expired or absent — and no operator grant does either, their
/// send fails `ApprovalNotFound`.
pub proof fn law_dead_allowance_unusable(
    m: LedgerModel,
    env: BlockInfo,
    owner: Seq<char>,
    spender: Seq<char>,
    to: Seq<char>,
    token: Seq<char>,
    k: u128,
)
    requires
        m.live_approval(owner, token, spender, env) is None,
        !m.operator_live(owner, spender, env),
        spender != owner,
        to != owner,
    ensures
        send_tr(m, env, spender, owner, to, seq![(token, k)]) == Err::<
            LedgerModel,
            ContractError,
        >(ContractError::ApprovalNotFound),
{
    let items = seq![(token, k)];
    reveal_with_fuel(crate::model::items_total, 2);
    reveal_with_fuel(crate::model::allowance_check, 2);
    assert(items[0] == (token, k));
    assert(items.drop_first() =~= Seq::<(Seq<char>, u128)>::empty());
    assert(items_total(items, token) == k);
    assert(first_occurrence(items, 0));
}

/// Granting with an already-elapsed height fails at grant time.
pub proof fn law_expired_grant_rejected(
    m: LedgerModel,
    env: BlockInfo,
    owner: Seq<char>,
    spender: Seq<char>,
    token: Seq<char>,
    n: u128,
    h: u64,
)
    requires
        env.height >= h,
        spender != owner,
        n > 0,
    ensures
        approve_tr(m, env, owner, spender, token, n, Expiration::AtHeight(h)) == Err::<
            LedgerModel,
            ContractError,
        >(ContractError::InvalidExpiration),
{
}

/// Mint overflow: issuance is capped by the maximum representable aggregate
/// supply — minting up to the cap succeeds, one unit beyond it fails
/// `ArithmeticOverflow` whatever the token id, with no mutation.
pub proof fn law_mint_overflow(
    m: LedgerModel,
    caller: Seq<char>,
    recipient: Seq<char>,
    token: Seq<char>,
    amount: u128,
    uri: Option<Seq<char>>,
    ext: Option<Seq<u8>>,
)
    requires
        caller == m.minter,
        amount > 0,
    ensures
        m.total + amount <= u128::MAX ==> mint_tr(
            m,
            caller,
            recipient,
            seq![MintItemV { token, amount, token_uri: uri, extension: ext }],
        ) is Ok,
        m.total + amount > u128::MAX ==> mint_tr(
            m,
            caller,
            recipient,
            seq![MintItemV { token, amount, token_uri: uri, extension: ext }],
        ) == Err::<LedgerModel, ContractError>(ContractError::ArithmeticOverflow),
{
    let items = seq![MintItemV { token, amount, token_uri: uri, extension: ext }];
    reveal_with_fuel(crate::model::mint_items_tr, 2);
    assert(items[0] == MintItemV { token, amount, token_uri: uri, extension: ext });
    assert(items.drop_first() =~= Seq::<MintItemV>::empty());
}

} // verus!
