use vstd::prelude::*;

use crate::approvals::Approval;
use crate::error::{ContractError, UnauthorizedReason};
use crate::expiration::{BlockInfo, Expiration};
use crate::tokens::TokenInfoV;

verus! {

/// The mathematical state of the ledger: the four stores as maps over
/// character sequences, the aggregate supply, and the designated minter.
pub struct LedgerModel {
    pub minter: Seq<char>,
    pub balances: Map<(Seq<char>, Seq<char>), u128>,
    pub approvals: Map<(Seq<char>, Seq<char>, Seq<char>), Approval>,
    pub operators: Map<(Seq<char>, Seq<char>), Expiration>,
    pub tokens: Map<Seq<char>, TokenInfoV>,
    pub total: u128,
}

impl LedgerModel {
    /// The balance of an owner in a token; zero when no record exists.
    pub open spec fn bal(self, owner: Seq<char>, token: Seq<char>) -> u128 {
        if self.balances.contains_key((owner, token)) {
            self.balances[(owner, token)]
        } else {
            0
        }
    }

    /// The outstanding supply of a token; zero when never minted.
    pub open spec fn supply(self, token: Seq<char>) -> u128 {
        if self.tokens.contains_key(token) {
            self.tokens[token].supply
        } else {
            0
        }
    }

    /// Whether `operator` holds a live blanket grant from `owner` at `env`.
    pub open spec fn operator_live(self, owner: Seq<char>, operator: Seq<char>, env: BlockInfo) -> bool {
        self.operators.contains_key((owner, operator)) && !self.operators[(
            owner,
            operator,
        )].spec_is_expired(&env)
    }

    /// The live allowance of (owner, token, spender) at `env`: the stored
    /// record, unless it is absent or expired.
    pub open spec fn live_approval(
        self,
        owner: Seq<char>,
        token: Seq<char>,
        spender: Seq<char>,
        env: BlockInfo,
    ) -> Option<Approval> {
        if self.approvals.contains_key((owner, token, spender)) && !self.approvals[(
            owner,
            token,
            spender,
        )].expiration.spec_is_expired(&env) {
            Some(self.approvals[(owner, token, spender)])
        } else {
            None
        }
    }
}

/// Granting an allowance: fails on self-approval, a zero amount, or an
/// already-elapsed expiration; otherwise replaces — never merges with — any
/// prior record for the triple.
pub open spec fn approve_tr(
    m: LedgerModel,
    env: BlockInfo,
    owner: Seq<char>,
    spender: Seq<char>,
    token: Seq<char>,
    amount: u128,
    expiration: Expiration,
) -> Result<LedgerModel, ContractError> {
    if owner == spender {
        Err(ContractError::Unauthorized(UnauthorizedReason::SelfApproval))
    } else if amount == 0 {
        Err(ContractError::InvalidZeroAmount)
    } else if expiration.spec_is_expired(&env) {
        Err(ContractError::InvalidExpiration)
    } else {
        Ok(
            LedgerModel {
                approvals: m.approvals.insert(
                    (owner, token, spender),
                    Approval { amount, expiration },
                ),
                ..m
            },
        )
    }
}

/// Revoking an allowance. Without an amount the record is deleted
/// unconditionally, idempotently. With an amount the record is decremented,
/// deleted when it reaches zero, and the call fails when the record is
/// absent or holds less than the amount revoked.
pub open spec fn revoke_tr(
    m: LedgerModel,
    owner: Seq<char>,
    spender: Seq<char>,
    token: Seq<char>,
    amount: Option<u128>,
) -> Result<LedgerModel, ContractError> {
    let key = (owner, token, spender);
    match amount {
        None => Ok(LedgerModel { approvals: m.approvals.remove(key), ..m }),
        Some(n) => {
            if !m.approvals.contains_key(key) {
                Err(ContractError::ApprovalNotFound)
            } else if m.approvals[key].amount < n {
                Err(
                    ContractError::NotEnoughTokens {
                        available: m.approvals[key].amount,
                        requested: n,
                    },
                )
            } else if m.approvals[key].amount == n {
                Ok(LedgerModel { approvals: m.approvals.remove(key), ..m })
            } else {
                Ok(
                    LedgerModel {
                        approvals: m.approvals.insert(
                            key,
                            Approval {
                                amount: (m.approvals[key].amount - n) as u128,
                                expiration: m.approvals[key].expiration,
                            },
                        ),
                        ..m
                    },
                )
            }
        }
    }
}

/// Granting a blanket operator approval: fails on an already-elapsed
/// expiration, otherwise upserts, overwriting any prior expiration.
pub open spec fn approve_all_tr(
    m: LedgerModel,
    env: BlockInfo,
    owner: Seq<char>,
    operator: Seq<char>,
    expiration: Expiration,
) -> Result<LedgerModel, ContractError> {
    if expiration.spec_is_expired(&env) {
        Err(ContractError::InvalidExpiration)
    } else {
        Ok(LedgerModel { operators: m.operators.insert((owner, operator), expiration), ..m })
    }
}

/// Revoking a blanket operator approval: deletes if present, an idempotent
/// no-op otherwise.
pub open spec fn revoke_all_tr(m: LedgerModel, owner: Seq<char>, operator: Seq<char>) -> LedgerModel {
    LedgerModel { operators: m.operators.remove((owner, operator)), ..m }
}

/// One mint item: token id, amount, and the metadata that would be fixed if
/// this were the token's first mint.
pub struct MintItemV {
    pub token: Seq<char>,
    pub amount: u128,
    pub token_uri: Option<Seq<char>>,
    pub extension: Option<Seq<u8>>,
}

/// Applies one mint unconditionally: credits the recipient, raises the
/// per-token and aggregate supplies, and fixes the metadata if the token has
/// none yet.
pub open spec fn mint_apply(m: LedgerModel, recipient: Seq<char>, it: MintItemV) -> LedgerModel {
    LedgerModel {
        balances: m.balances.insert(
            (recipient, it.token),
            (m.bal(recipient, it.token) + it.amount) as u128,
        ),
        tokens: m.tokens.insert(
            it.token,
            if m.tokens.contains_key(it.token) {
                TokenInfoV { supply: (m.supply(it.token) + it.amount) as u128, ..m.tokens[it.token] }
            } else {
                TokenInfoV {
                    supply: it.amount,
                    token_uri: it.token_uri,
                    extension: it.extension,
                }
            },
        ),
        total: (m.total + it.amount) as u128,
        ..m
    }
}

/// Applies a sequence of mint items in order, stopping at the first failing
/// item: a zero amount, or an aggregate supply beyond the maximum
/// representable amount. The minter check is made once, outside.
pub open spec fn mint_items_tr(
    m: LedgerModel,
    recipient: Seq<char>,
    items: Seq<MintItemV>,
) -> Result<LedgerModel, ContractError>
    decreases items.len(),
{
    if items.len() == 0 {
        Ok(m)
    } else if items[0].amount == 0 {
        Err(ContractError::InvalidZeroAmount)
    } else if m.total + items[0].amount > u128::MAX {
        Err(ContractError::ArithmeticOverflow)
    } else {
        mint_items_tr(mint_apply(m, recipient, items[0]), recipient, items.drop_first())
    }
}

/// Minting: one minter-authorization check, then every item applied
/// atomically — any failure aborts the whole call.
pub open spec fn mint_tr(
    m: LedgerModel,
    caller: Seq<char>,
    recipient: Seq<char>,
    items: Seq<MintItemV>,
) -> Result<LedgerModel, ContractError> {
    if caller != m.minter {
        Err(ContractError::Unauthorized(UnauthorizedReason::NotMinter))
    } else {
        mint_items_tr(m, recipient, items)
    }
}

/// Applies one burn unconditionally: debits the caller and lowers the
/// per-token and aggregate supplies.
pub open spec fn burn_apply(m: LedgerModel, caller: Seq<char>, token: Seq<char>, amount: u128) -> LedgerModel {
    LedgerModel {
        balances: m.balances.insert((caller, token), (m.bal(caller, token) - amount) as u128),
        tokens: m.tokens.insert(
            token,
            if m.tokens.contains_key(token) {
                TokenInfoV { supply: (m.supply(token) - amount) as u128, ..m.tokens[token] }
            } else {
                TokenInfoV { supply: 0, token_uri: None, extension: None }
            },
        ),
        total: (m.total - amount) as u128,
        ..m
    }
}

/// Applies a sequence of burn items in order, stopping at the first item
/// that exceeds the caller's balance. Approvals are not consulted for burn:
/// the caller burns only their own balance.
pub open spec fn burn_items_tr(
    m: LedgerModel,
    caller: Seq<char>,
    items: Seq<(Seq<char>, u128)>,
) -> Result<LedgerModel, ContractError>
    decreases items.len(),
{
    if items.len() == 0 {
        Ok(m)
    } else if m.bal(caller, items[0].0) < items[0].1 {
        Err(
            ContractError::NotEnoughTokens {
                available: m.bal(caller, items[0].0),
                requested: items[0].1,
            },
        )
    } else {
        burn_items_tr(burn_apply(m, caller, items[0].0, items[0].1), caller, items.drop_first())
    }
}

/// Sum of the amounts that `items` name for `token`.
pub open spec fn items_total(items: Seq<(Seq<char>, u128)>, token: Seq<char>) -> int
    decreases items.len(),
{
    if items.len() == 0 {
        0
    } else {
        (if items[0].0 == token {
            items[0].1 as int
        } else {
            0
        }) + items_total(items.drop_first(), token)
    }
}

/// Extending a prefix by one item adds that item's contribution.
pub proof fn lemma_items_total_take_step(items: Seq<(Seq<char>, u128)>, token: Seq<char>, i: int)
    requires
        0 <= i < items.len(),
    ensures
        items_total(items.take(i + 1), token) == items_total(items.take(i), token) + if items[i].0
            == token {
            items[i].1 as int
        } else {
            0
        },
    decreases i,
{
    if i == 0 {
        assert(items.take(1).drop_first() =~= Seq::<(Seq<char>, u128)>::empty());
        assert(items.take(1)[0] == items[0]);
        assert(items.take(0) =~= Seq::<(Seq<char>, u128)>::empty());
    } else {
        lemma_items_total_take_step(items.drop_first(), token, i - 1);
        assert(items.take(i + 1).drop_first() =~= items.drop_first().take(i));
        assert(items.take(i).drop_first() =~= items.drop_first().take(i - 1));
        assert(items.take(i + 1)[0] == items[0]);
        assert(items.take(i)[0] == items[0]);
    }
}

/// The whole sequence is its own full prefix.
pub proof fn lemma_items_total_take_all(items: Seq<(Seq<char>, u128)>, token: Seq<char>)
    ensures
        items_total(items.take(items.len() as int), token) == items_total(items, token),
{
    assert(items.take(items.len() as int) =~= items);
}

/// A prefix's token sum never exceeds the whole sequence's.
pub proof fn lemma_items_total_prefix_le(items: Seq<(Seq<char>, u128)>, token: Seq<char>, i: int)
    requires
        0 <= i <= items.len(),
    ensures
        items_total(items.take(i), token) <= items_total(items, token),
    decreases items.len() - i,
{
    if i == items.len() {
        lemma_items_total_take_all(items, token);
    } else {
        lemma_items_total_take_step(items, token, i);
        lemma_items_total_prefix_le(items, token, i + 1);
    }
}

/// Every named token has a first occurrence.
pub proof fn lemma_first_occurrence_of(items: Seq<(Seq<char>, u128)>, w: int) -> (i: int)
    requires
        0 <= w < items.len(),
    ensures
        0 <= i <= w,
        items[i].0 == items[w].0,
        first_occurrence(items, i),
    decreases w,
{
    if exists|j: int| 0 <= j < w && (#[trigger] items[j]).0 == items[w].0 {
        let j = choose|j: int| 0 <= j < w && (#[trigger] items[j]).0 == items[w].0;
        lemma_first_occurrence_of(items, j)
    } else {
        w
    }
}

/// Whether some item names this token.
pub open spec fn has_token(items: Seq<(Seq<char>, u128)>, token: Seq<char>) -> bool {
    exists|i: int| 0 <= i < items.len() && (#[trigger] items[i]).0 == token
}

/// Whether index `i` is the first item naming its token.
pub open spec fn first_occurrence(items: Seq<(Seq<char>, u128)>, i: int) -> bool {
    forall|j: int| 0 <= j < i ==> (#[trigger] items[j]).0 != items[i].0
}

/// The first failure among the per-token allowance checks, scanning the
/// items in order and checking each token once, at its first occurrence,
/// against the summed amount for that token: no live record fails
/// `ApprovalNotFound`; a record smaller than the total fails
/// `NotEnoughTokens`.
pub open spec fn allowance_check(
    m: LedgerModel,
    env: BlockInfo,
    actor: Seq<char>,
    from: Seq<char>,
    items: Seq<(Seq<char>, u128)>,
    i: int,
) -> Option<ContractError>
    decreases items.len() - i,
{
    if i < 0 || i >= items.len() {
        None
    } else if first_occurrence(items, i) {
        let token = items[i].0;
        let total = items_total(items, token);
        match m.live_approval(from, token, actor, env) {
            None => Some(ContractError::ApprovalNotFound),
            Some(a) => {
                if a.amount < total {
                    Some(
                        ContractError::NotEnoughTokens {
                            available: a.amount,
                            requested: total as u128,
                        },
                    )
                } else {
                    allowance_check(m, env, actor, from, items, i + 1)
                }
            }
        }
    } else {
        allowance_check(m, env, actor, from, items, i + 1)
    }
}

/// The first failure of the spender path: amounts for a repeated token are
/// aggregated before any check, so an aggregate beyond the maximum
/// representable amount fails first, then the per-token allowance checks in
/// order of first occurrence.
pub open spec fn spender_check(
    m: LedgerModel,
    env: BlockInfo,
    actor: Seq<char>,
    from: Seq<char>,
    items: Seq<(Seq<char>, u128)>,
) -> Option<ContractError> {
    if exists|i: int|
        0 <= i < items.len() && items_total(items, (#[trigger] items[i]).0) > u128::MAX {
        Some(ContractError::ArithmeticOverflow)
    } else {
        allowance_check(m, env, actor, from, items, 0)
    }
}

/// Consumes the allowances of the spender path: for every token the items
/// name, the record is decremented by the summed amount, and deleted when it
/// reaches zero.
pub open spec fn consume_allowances(
    m: LedgerModel,
    actor: Seq<char>,
    from: Seq<char>,
    items: Seq<(Seq<char>, u128)>,
) -> LedgerModel {
    LedgerModel {
        approvals: Map::new(
            |k: (Seq<char>, Seq<char>, Seq<char>)|
                m.approvals.contains_key(k) && !(k.0 == from && k.2 == actor && has_token(
                    items,
                    k.1,
                ) && m.approvals[k].amount == items_total(items, k.1)),
            |k: (Seq<char>, Seq<char>, Seq<char>)|
                if k.0 == from && k.2 == actor && has_token(items, k.1) {
                    Approval {
                        amount: (m.approvals[k].amount - items_total(items, k.1)) as u128,
                        expiration: m.approvals[k].expiration,
                    }
                } else {
                    m.approvals[k]
                },
        ),
        ..m
    }
}

/// Moves the items one at a time, in caller-supplied order, debiting `from`
/// and crediting `to`, stopping at the first item the sender's remaining
/// balance cannot cover or whose credit would exceed the maximum
/// representable amount.
pub open spec fn move_items(
    m: LedgerModel,
    from: Seq<char>,
    to: Seq<char>,
    items: Seq<(Seq<char>, u128)>,
) -> Result<LedgerModel, ContractError>
    decreases items.len(),
{
    if items.len() == 0 {
        Ok(m)
    } else {
        let token = items[0].0;
        let amount = items[0].1;
        let bf = m.bal(from, token);
        let bt = m.bal(to, token);
        if bf < amount {
            Err(ContractError::NotEnoughTokens { available: bf, requested: amount })
        } else if bt + amount > u128::MAX {
            Err(ContractError::ArithmeticOverflow)
        } else {
            move_items(
                LedgerModel {
                    balances: m.balances.insert((from, token), (bf - amount) as u128).insert(
                        (to, token),
                        (bt + amount) as u128,
                    ),
                    ..m
                },
                from,
                to,
                items.drop_first(),
            )
        }
    }
}

/// When the whole allowance scan passes, every token's first occurrence
/// passed its check: a live record exists and covers the token's total.
pub proof fn lemma_allowance_check_pass(
    m: LedgerModel,
    env: BlockInfo,
    actor: Seq<char>,
    from: Seq<char>,
    items: Seq<(Seq<char>, u128)>,
    j: int,
    i: int,
)
    requires
        0 <= j <= i < items.len(),
        allowance_check(m, env, actor, from, items, j) is None,
        first_occurrence(items, i),
    ensures
        m.live_approval(from, items[i].0, actor, env) is Some,
        m.live_approval(from, items[i].0, actor, env)->0.amount >= items_total(items, items[i].0),
    decreases i - j,
{
    if j < i {
        lemma_allowance_check_pass(m, env, actor, from, items, j + 1, i);
    }
}

/// A passing allowance scan covers every token the items name.
pub proof fn lemma_allowance_ok(
    m: LedgerModel,
    env: BlockInfo,
    actor: Seq<char>,
    from: Seq<char>,
    items: Seq<(Seq<char>, u128)>,
    t: Seq<char>,
)
    requires
        allowance_check(m, env, actor, from, items, 0) is None,
        has_token(items, t),
    ensures
        m.live_approval(from, t, actor, env) is Some,
        m.live_approval(from, t, actor, env)->0.amount >= items_total(items, t),
{
    let w = choose|i: int| 0 <= i < items.len() && (#[trigger] items[i]).0 == t;
    let f = lemma_first_occurrence_of(items, w);
    lemma_allowance_check_pass(m, env, actor, from, items, 0, f);
}

/// Moving items touches balances only.
pub proof fn lemma_move_items_frame(
    m: LedgerModel,
    from: Seq<char>,
    to: Seq<char>,
    items: Seq<(Seq<char>, u128)>,
)
    ensures
        move_items(m, from, to, items) matches Ok(r) ==> r.minter == m.minter && r.approvals
            == m.approvals && r.operators == m.operators && r.tokens == m.tokens && r.total
            == m.total,
    decreases items.len(),
{
    if items.len() > 0 {
        let token = items[0].0;
        let amount = items[0].1;
        let bf = m.bal(from, token);
        let bt = m.bal(to, token);
        if bf >= amount && bt + amount <= u128::MAX {
            lemma_move_items_frame(
                LedgerModel {
                    balances: m.balances.insert((from, token), (bf - amount) as u128).insert(
                        (to, token),
                        (bt + amount) as u128,
                    ),
                    ..m
                },
                from,
                to,
                items.drop_first(),
            );
        }
    }
}

/// A transfer. The whole call fails, leaving the state untouched, at the
/// first offending step: a self-send; then, unless the actor is the owner or
/// a live operator, the spender checks; then the balance movement. On
/// success the allowances consumed (spender path only) and the balances
/// moved are committed together.
pub open spec fn send_tr(
    m: LedgerModel,
    env: BlockInfo,
    actor: Seq<char>,
    from: Seq<char>,
    to: Seq<char>,
    items: Seq<(Seq<char>, u128)>,
) -> Result<LedgerModel, ContractError> {
    if to == from {
        Err(ContractError::Unauthorized(UnauthorizedReason::SelfSend))
    } else if actor == from || m.operator_live(from, actor, env) {
        move_items(m, from, to, items)
    } else {
        match spender_check(m, env, actor, from, items) {
            Some(e) => Err(e),
            None => match move_items(consume_allowances(m, actor, from, items), from, to, items) {
                Ok(r) => Ok(r),
                Err(e) => Err(e),
            },
        }
    }
}

} // verus!
