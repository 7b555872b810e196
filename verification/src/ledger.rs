use vstd::prelude::*;

use crate::approvals::{Approval, ApprovalStore};
use crate::assoc::lemma_map_of_contains_index;
use crate::balances::{lemma_token_sum_element, BalanceStore};
use crate::error::{ContractError, UnauthorizedReason};
use crate::expiration::{BlockInfo, Expiration};
use crate::lex::{str_compare, StrOrder};
use crate::model::{
    allowance_check, approve_all_tr, approve_tr, burn_apply, burn_items_tr, consume_allowances,
    first_occurrence, has_token, items_total, lemma_allowance_ok, lemma_items_total_prefix_le,
    lemma_items_total_take_step, mint_apply, mint_items_tr, mint_tr, move_items, revoke_all_tr,
    revoke_tr, send_tr, spender_check, LedgerModel, MintItemV,
};
use crate::tally::Tally;
use crate::operators::OperatorStore;
use crate::tokens::{lemma_supply_sum_element, TokenStore};

verus! {

/// One line item of a transfer or burn batch: a token id and an amount.
pub struct LineItem {
    pub token_id: String,
    pub amount: u128,
}

impl View for LineItem {
    type V = (Seq<char>, u128);

    open spec fn view(&self) -> (Seq<char>, u128) {
        (self.token_id@, self.amount)
    }
}

impl DeepView for LineItem {
    type V = (Seq<char>, u128);

    open spec fn deep_view(&self) -> (Seq<char>, u128) {
        self@
    }
}

/// One mint item: a token id, an amount, and the metadata that is fixed if
/// this turns out to be the token's first mint.
pub struct MintItem {
    pub token_id: String,
    pub amount: u128,
    pub token_uri: Option<String>,
    pub extension: Option<Vec<u8>>,
}

impl View for MintItem {
    type V = MintItemV;

    open spec fn view(&self) -> MintItemV {
        MintItemV {
            token: self.token_id@,
            amount: self.amount,
            token_uri: self.token_uri.deep_view(),
            extension: self.extension.deep_view(),
        }
    }
}

impl DeepView for MintItem {
    type V = MintItemV;

    open spec fn deep_view(&self) -> MintItemV {
        self@
    }
}

fn clone_opt_string(o: &Option<String>) -> (r: Option<String>)
    ensures
        r.deep_view() == o.deep_view(),
{
    match o {
        Some(s) => Some(s.clone()),
        None => None,
    }
}

fn clone_opt_bytes(o: &Option<Vec<u8>>) -> (r: Option<Vec<u8>>)
    ensures
        r.deep_view() == o.deep_view(),
{
    match o {
        Some(v) => {
            let c = v.clone();
            proof {
                assert forall|i: int| 0 <= i < v@.len() implies c@[i] == v@[i] by {
                    assert(vstd::pervasive::cloned::<u8>(v[i], c[i]));
                }
                assert(c@ =~= v@);
                assert(c.deep_view() =~= v.deep_view());
            }
            Some(c)
        }
        None => None,
    }
}

/// Whether one of the first `k` tally entries carries this token.
pub open spec fn token_in_prefix(totals: Seq<(Seq<char>, u128)>, k: int, t: Seq<char>) -> bool {
    exists|x: int| 0 <= x < k && (#[trigger] totals[x]).0 == t
}

/// The approvals map after the first `k` tally entries have been consumed:
/// each named token's record is decremented by its total, and deleted when
/// that leaves zero.
pub open spec fn consume_prefix(
    ap0: Map<(Seq<char>, Seq<char>, Seq<char>), Approval>,
    actor: Seq<char>,
    from: Seq<char>,
    totals: Seq<(Seq<char>, u128)>,
    tmap: Map<Seq<char>, u128>,
    k: int,
) -> Map<(Seq<char>, Seq<char>, Seq<char>), Approval> {
    Map::new(
        |key: (Seq<char>, Seq<char>, Seq<char>)|
            ap0.contains_key(key) && !(key.0 == from && key.2 == actor && token_in_prefix(
                totals,
                k,
                key.1,
            ) && ap0[key].amount == tmap[key.1]),
        |key: (Seq<char>, Seq<char>, Seq<char>)|
            if key.0 == from && key.2 == actor && token_in_prefix(totals, k, key.1) {
                Approval {
                    amount: (ap0[key].amount - tmap[key.1]) as u128,
                    expiration: ap0[key].expiration,
                }
            } else {
                ap0[key]
            },
    )
}

/// The multi-token ledger: per-(owner, token) balances, the two approval
/// stores, the per-token supply and metadata records, the aggregate supply,
/// and the designated minter. One instance owns all of its stores; the host
/// serializes calls and commits or discards each call atomically.
pub struct Ledger {
    pub minter: String,
    pub balances: BalanceStore,
    pub approvals: ApprovalStore,
    pub operators: OperatorStore,
    pub tokens: TokenStore,
    pub total: u128,
}

impl View for Ledger {
    type V = LedgerModel;

    open spec fn view(&self) -> LedgerModel {
        LedgerModel {
            minter: self.minter@,
            balances: self.balances@,
            approvals: self.approvals@,
            operators: self.operators@,
            tokens: self.tokens@,
            total: self.total,
        }
    }
}

impl Ledger {
    /// Well-formed: every store sorted and valid, every token's supply equal
    /// to the sum of its balances across owners, and the aggregate supply
    /// equal to the sum of the per-token supplies.
    pub open spec fn wf(&self) -> bool {
        &&& self.balances.wf()
        &&& self.approvals.wf()
        &&& self.operators.wf()
        &&& self.tokens.wf()
        &&& forall|t: Seq<char>| #[trigger]
            self.balances.spec_token_sum(t) == self.tokens.spec_supply(t)
        &&& self.total as int == self.tokens.spec_supply_sum()
    }

    /// No owner's balance exceeds its token's supply, and no token's supply
    /// exceeds the aggregate.
    pub proof fn lemma_bal_le_supply(&self, owner: Seq<char>, token: Seq<char>)
        requires
            self.wf(),
        ensures
            self@.bal(owner, token) <= self@.supply(token),
            self@.supply(token) <= self.total,
    {
        assert(self.balances.spec_token_sum(token) == self.tokens.spec_supply(token));
        assert(self@.supply(token) == self.tokens.spec_supply(token));
        if self.balances@.contains_key((owner, token)) {
            self.balances.lemma_unique();
            let i = lemma_map_of_contains_index(self.balances.pairs(), (owner, token));
            lemma_token_sum_element(self.balances.pairs(), token, i);
        }
        if self.tokens@.contains_key(token) {
            self.tokens.lemma_unique();
            let i = lemma_map_of_contains_index(self.tokens.pairs(), token);
            lemma_supply_sum_element(self.tokens.pairs(), i);
        }
    }

    /// A fresh ledger with the given minter: no balances, no approvals, no
    /// tokens, zero supply.
    pub fn new(minter: &str) -> (l: Ledger)
        ensures
            l.wf(),
            l@.minter == minter@,
            l@.balances == Map::<(Seq<char>, Seq<char>), u128>::empty(),
            l@.approvals == Map::<(Seq<char>, Seq<char>, Seq<char>), Approval>::empty(),
            l@.operators == Map::<(Seq<char>, Seq<char>), Expiration>::empty(),
            l@.tokens == Map::<Seq<char>, crate::tokens::TokenInfoV>::empty(),
            l@.total == 0,
    {
        let l = Ledger {
            minter: minter.to_owned(),
            balances: BalanceStore::new(),
            approvals: ApprovalStore::new(),
            operators: OperatorStore::new(),
            tokens: TokenStore::new(),
            total: 0,
        };
        l
    }

    /// Grants `spender` a bounded, expiring allowance on one of the owner's
    /// tokens: fails `Unauthorized` on self-approval, `InvalidZeroAmount` on
    /// a zero amount, `InvalidExpiration` when the expiration has already
    /// elapsed; otherwise replaces any prior record for the triple.
    pub fn approve(
        &mut self,
        env: &BlockInfo,
        owner: &str,
        spender: &str,
        token: &str,
        amount: u128,
        expiration: Expiration,
    ) -> (r: Result<(), ContractError>)
        requires
            old(self).wf(),
        ensures
            final(self).wf(),
            approve_tr(old(self)@, *env, owner@, spender@, token@, amount, expiration) == match r {
                Ok(_) => Ok::<LedgerModel, ContractError>(final(self)@),
                Err(e) => Err::<LedgerModel, ContractError>(e),
            },
            r is Err ==> final(self)@ == old(self)@,
    {
        if matches!(str_compare(owner, spender), StrOrder::Equal) {
            return Err(ContractError::Unauthorized(UnauthorizedReason::SelfApproval));
        }
        if amount == 0 {
            return Err(ContractError::InvalidZeroAmount);
        }
        if expiration.is_expired(env) {
            return Err(ContractError::InvalidExpiration);
        }
        self.approvals.set(owner, token, spender, Approval { amount, expiration });
        Ok(())
    }

    /// Revokes an allowance. Without an amount the record is deleted
    /// unconditionally, idempotently; with an amount the record is
    /// decremented, deleted at zero, and the call fails when the record is
    /// absent or holds less than the amount revoked.
    pub fn revoke(
        &mut self,
        owner: &str,
        spender: &str,
        token: &str,
        amount: Option<u128>,
    ) -> (r: Result<(), ContractError>)
        requires
            old(self).wf(),
        ensures
            final(self).wf(),
            revoke_tr(old(self)@, owner@, spender@, token@, amount) == match r {
                Ok(_) => Ok::<LedgerModel, ContractError>(final(self)@),
                Err(e) => Err::<LedgerModel, ContractError>(e),
            },
            r is Err ==> final(self)@ == old(self)@,
    {
        match amount {
            None => {
                self.approvals.remove(owner, token, spender);
                Ok(())
            }
            Some(n) => {
                match self.approvals.get(owner, token, spender) {
                    None => Err(ContractError::ApprovalNotFound),
                    Some(a) => {
                        if a.amount < n {
                            Err(
                                ContractError::NotEnoughTokens {
                                    available: a.amount,
                                    requested: n,
                                },
                            )
                        } else if a.amount == n {
                            self.approvals.remove(owner, token, spender);
                            Ok(())
                        } else {
                            self.approvals.set(
                                owner,
                                token,
                                spender,
                                Approval { amount: a.amount - n, expiration: a.expiration },
                            );
                            Ok(())
                        }
                    }
                }
            }
        }
    }

    /// Grants `operator` a blanket, expiring approval over all of the
    /// owner's tokens: fails `InvalidExpiration` when already elapsed,
    /// otherwise upserts, overwriting any prior expiration.
    pub fn approve_all(
        &mut self,
        env: &BlockInfo,
        owner: &str,
        operator: &str,
        expiration: Expiration,
    ) -> (r: Result<(), ContractError>)
        requires
            old(self).wf(),
        ensures
            final(self).wf(),
            approve_all_tr(old(self)@, *env, owner@, operator@, expiration) == match r {
                Ok(_) => Ok::<LedgerModel, ContractError>(final(self)@),
                Err(e) => Err::<LedgerModel, ContractError>(e),
            },
            r is Err ==> final(self)@ == old(self)@,
    {
        if expiration.is_expired(env) {
            return Err(ContractError::InvalidExpiration);
        }
        self.operators.set(owner, operator, expiration);
        Ok(())
    }

    /// Revokes a blanket operator approval: deletes the grant if present, an
    /// idempotent no-op otherwise. Never errors.
    pub fn revoke_all(&mut self, owner: &str, operator: &str)
        requires
            old(self).wf(),
        ensures
            final(self).wf(),
            final(self)@ == revoke_all_tr(old(self)@, owner@, operator@),
    {
        self.operators.remove(owner, operator);
    }

    /// Applies one mint unconditionally; callers have already checked the
    /// aggregate supply bound, which under well-formedness bounds the
    /// recipient's balance and the token's supply too.
    fn apply_mint_item(&mut self, recipient: &str, item: &MintItem)
        requires
            old(self).wf(),
            old(self)@.total + item@.amount <= u128::MAX,
        ensures
            final(self).wf(),
            final(self)@ == mint_apply(old(self)@, recipient@, item@),
    {
        proof {
            self.lemma_bal_le_supply(recipient@, item.token_id@);
        }
        let bal = self.balances.get(recipient, item.token_id.as_str());
        self.balances.set(recipient, item.token_id.as_str(), bal + item.amount);
        let supply = self.tokens.get_supply(item.token_id.as_str());
        let uri = clone_opt_string(&item.token_uri);
        let ext = clone_opt_bytes(&item.extension);
        self.tokens.set_supply(item.token_id.as_str(), supply + item.amount, uri, ext);
        self.total = self.total + item.amount;
        proof {
            let m = mint_apply(old(self)@, recipient@, item@);
            assert(self@.balances == m.balances);
            assert(self@.tokens == m.tokens);
            assert(self@ == m);
            assert forall|t: Seq<char>| #[trigger] self.balances.spec_token_sum(t)
                == self.tokens.spec_supply(t) by {
                assert(old(self).balances.spec_token_sum(t) == old(self).tokens.spec_supply(t));
            }
        }
    }

    /// Mints a batch: one minter-authorization check, then every item
    /// applied atomically — a zero amount or an issuance beyond the maximum
    /// representable aggregate supply aborts the whole call with no
    /// mutation. A token's metadata is fixed by its first successful mint
    /// and silently ignored afterwards.
    pub fn mint_batch(&mut self, caller: &str, recipient: &str, items: Vec<MintItem>) -> (r: Result<
        (),
        ContractError,
    >)
        requires
            old(self).wf(),
        ensures
            final(self).wf(),
            mint_tr(old(self)@, caller@, recipient@, items.deep_view()) == match r {
                Ok(_) => Ok::<LedgerModel, ContractError>(final(self)@),
                Err(e) => Err::<LedgerModel, ContractError>(e),
            },
            r is Err ==> final(self)@ == old(self)@,
    {
        let ghost itemsv = items.deep_view();
        if !matches!(str_compare(caller, self.minter.as_str()), StrOrder::Equal) {
            return Err(ContractError::Unauthorized(UnauthorizedReason::NotMinter));
        }
        let n = items.len();
        let mut tot: u128 = self.total;
        let ghost mut gm = self@;
        proof {
            assert(itemsv.skip(0) =~= itemsv);
        }
        let mut i: usize = 0;
        while i < n
            invariant
                i <= n,
                n == items@.len(),
                itemsv == items.deep_view(),
                itemsv.len() == n,
                self.wf(),
                self@ == old(self)@,
                caller@ == old(self)@.minter,
                gm.total == tot,
                mint_items_tr(old(self)@, recipient@, itemsv) == mint_items_tr(
                    gm,
                    recipient@,
                    itemsv.skip(i as int),
                ),
            decreases n - i,
        {
            proof {
                assert(itemsv[i as int] == items@[i as int].deep_view());
                assert(itemsv.skip(i as int)[0] == itemsv[i as int]);
                assert(itemsv.skip(i as int).drop_first() =~= itemsv.skip(i as int + 1));
            }
            let a = items[i].amount;
            if a == 0 {
                return Err(ContractError::InvalidZeroAmount);
            }
            if a > u128::MAX - tot {
                return Err(ContractError::ArithmeticOverflow);
            }
            tot = tot + a;
            proof {
                gm = mint_apply(gm, recipient@, itemsv[i as int]);
            }
            i = i + 1;
        }
        proof {
            assert(itemsv.skip(n as int) =~= Seq::<MintItemV>::empty());
            assert(itemsv.skip(0) =~= itemsv);
        }
        let mut j: usize = 0;
        while j < n
            invariant
                j <= n,
                n == items@.len(),
                itemsv == items.deep_view(),
                itemsv.len() == n,
                self.wf(),
                mint_items_tr(old(self)@, recipient@, itemsv) == mint_items_tr(
                    self@,
                    recipient@,
                    itemsv.skip(j as int),
                ),
                mint_items_tr(old(self)@, recipient@, itemsv) is Ok,
            decreases n - j,
        {
            proof {
                assert(itemsv[j as int] == items@[j as int].deep_view());
                assert(itemsv.skip(j as int)[0] == itemsv[j as int]);
                assert(itemsv.skip(j as int).drop_first() =~= itemsv.skip(j as int + 1));
            }
            let item = &items[j];
            self.apply_mint_item(recipient, item);
            j = j + 1;
        }
        proof {
            assert(itemsv.skip(n as int) =~= Seq::<MintItemV>::empty());
        }
        Ok(())
    }

    /// Mints `amount` units of one token to `recipient`: the single-item
    /// case of `mint_batch`.
    pub fn mint(
        &mut self,
        caller: &str,
        recipient: &str,
        token: &str,
        amount: u128,
        token_uri: Option<String>,
        extension: Option<Vec<u8>>,
    ) -> (r: Result<(), ContractError>)
        requires
            old(self).wf(),
        ensures
            final(self).wf(),
            mint_tr(
                old(self)@,
                caller@,
                recipient@,
                seq![
                    MintItemV {
                        token: token@,
                        amount,
                        token_uri: token_uri.deep_view(),
                        extension: extension.deep_view(),
                    },
                ],
            ) == match r {
                Ok(_) => Ok::<LedgerModel, ContractError>(final(self)@),
                Err(e) => Err::<LedgerModel, ContractError>(e),
            },
            r is Err ==> final(self)@ == old(self)@,
    {
        let ghost iv = MintItemV {
            token: token@,
            amount,
            token_uri: token_uri.deep_view(),
            extension: extension.deep_view(),
        };
        let item = MintItem { token_id: token.to_owned(), amount, token_uri, extension };
        let mut batch: Vec<MintItem> = Vec::new();
        batch.push(item);
        proof {
            assert(batch.deep_view() =~= seq![iv]);
        }
        self.mint_batch(caller, recipient, batch)
    }

    /// Applies one burn unconditionally; callers have already checked the
    /// caller's balance, which under well-formedness bounds the token's and
    /// the aggregate supply from below.
    fn apply_burn_item(&mut self, caller: &str, token: &str, amount: u128)
        requires
            old(self).wf(),
            amount <= old(self)@.bal(caller@, token@),
        ensures
            final(self).wf(),
            final(self)@ == burn_apply(old(self)@, caller@, token@, amount),
    {
        proof {
            self.lemma_bal_le_supply(caller@, token@);
        }
        let bal = self.balances.get(caller, token);
        self.balances.set(caller, token, bal - amount);
        let supply = self.tokens.get_supply(token);
        self.tokens.set_supply(token, supply - amount, None, None);
        self.total = self.total - amount;
        proof {
            let m = burn_apply(old(self)@, caller@, token@, amount);
            assert(self@.balances == m.balances);
            assert(self@.tokens == m.tokens);
            assert(self@ == m);
            assert forall|t: Seq<char>| #[trigger] self.balances.spec_token_sum(t)
                == self.tokens.spec_supply(t) by {
                assert(old(self).balances.spec_token_sum(t) == old(self).tokens.spec_supply(t));
            }
        }
    }

    /// Burns a batch of the caller's own balances — approvals are not
    /// consulted for burn — applied atomically: an item beyond the caller's
    /// balance aborts the whole call with no mutation.
    pub fn burn_batch(&mut self, caller: &str, items: &Vec<LineItem>) -> (r: Result<
        (),
        ContractError,
    >)
        requires
            old(self).wf(),
        ensures
            final(self).wf(),
            burn_items_tr(old(self)@, caller@, items.deep_view()) == match r {
                Ok(_) => Ok::<LedgerModel, ContractError>(final(self)@),
                Err(e) => Err::<LedgerModel, ContractError>(e),
            },
            r is Err ==> final(self)@ == old(self)@,
    {
        let ghost itemsv = items.deep_view();
        let n = items.len();
        let mut spent = Tally::new();
        let ghost mut gm = self@;
        proof {
            assert(itemsv.skip(0) =~= itemsv);
        }
        let mut i: usize = 0;
        while i < n
            invariant
                i <= n,
                n == items@.len(),
                itemsv == items.deep_view(),
                itemsv.len() == n,
                self.wf(),
                self@ == old(self)@,
                spent.wf(),
                burn_items_tr(old(self)@, caller@, itemsv) == burn_items_tr(
                    gm,
                    caller@,
                    itemsv.skip(i as int),
                ),
                forall|t: Seq<char>| #[trigger]
                    gm.bal(caller@, t) as int == old(self)@.bal(caller@, t) - spent.amt(t),
            decreases n - i,
        {
            proof {
                assert(itemsv[i as int] == items@[i as int].deep_view());
                assert(itemsv.skip(i as int)[0] == itemsv[i as int]);
                assert(itemsv.skip(i as int).drop_first() =~= itemsv.skip(i as int + 1));
                assert(gm.bal(caller@, items@[i as int].token_id@) as int == old(self)@.bal(
                    caller@,
                    items@[i as int].token_id@,
                ) - spent.amt(items@[i as int].token_id@));
            }
            let item = &items[i];
            let bal = self.balances.get(caller, item.token_id.as_str());
            let sp = spent.get(item.token_id.as_str());
            let avail = bal - sp;
            if avail < item.amount {
                return Err(
                    ContractError::NotEnoughTokens { available: avail, requested: item.amount },
                );
            }
            spent.bump(item.token_id.as_str(), item.amount);
            proof {
                let old_gm = gm;
                gm = burn_apply(gm, caller@, itemsv[i as int].0, itemsv[i as int].1);
                assert forall|t: Seq<char>| #[trigger] gm.bal(caller@, t) as int == old(self)@.bal(
                    caller@,
                    t,
                ) - spent.amt(t) by {
                    if t == itemsv[i as int].0 {
                        assert(gm.bal(caller@, t) == old_gm.bal(caller@, t) - itemsv[i as int].1);
                    } else {
                        assert(gm.bal(caller@, t) == old_gm.bal(caller@, t));
                    }
                }
            }
            i = i + 1;
        }
        proof {
            assert(itemsv.skip(n as int) =~= Seq::<(Seq<char>, u128)>::empty());
            assert(itemsv.skip(0) =~= itemsv);
        }
        let mut j: usize = 0;
        while j < n
            invariant
                j <= n,
                n == items@.len(),
                itemsv == items.deep_view(),
                itemsv.len() == n,
                self.wf(),
                burn_items_tr(old(self)@, caller@, itemsv) == burn_items_tr(
                    self@,
                    caller@,
                    itemsv.skip(j as int),
                ),
                burn_items_tr(old(self)@, caller@, itemsv) is Ok,
            decreases n - j,
        {
            proof {
                assert(itemsv[j as int] == items@[j as int].deep_view());
                assert(itemsv.skip(j as int)[0] == itemsv[j as int]);
                assert(itemsv.skip(j as int).drop_first() =~= itemsv.skip(j as int + 1));
            }
            let item = &items[j];
            self.apply_burn_item(caller, item.token_id.as_str(), item.amount);
            j = j + 1;
        }
        proof {
            assert(itemsv.skip(n as int) =~= Seq::<(Seq<char>, u128)>::empty());
        }
        Ok(())
    }

    /// Burns `amount` units of one token from the caller's own balance: the
    /// single-item case of `burn_batch`.
    pub fn burn(&mut self, caller: &str, token: &str, amount: u128) -> (r: Result<
        (),
        ContractError,
    >)
        requires
            old(self).wf(),
        ensures
            final(self).wf(),
            burn_items_tr(old(self)@, caller@, seq![(token@, amount)]) == match r {
                Ok(_) => Ok::<LedgerModel, ContractError>(final(self)@),
                Err(e) => Err::<LedgerModel, ContractError>(e),
            },
            r is Err ==> final(self)@ == old(self)@,
    {
        let mut batch: Vec<LineItem> = Vec::new();
        batch.push(LineItem { token_id: token.to_owned(), amount });
        proof {
            assert(batch.deep_view() =~= seq![(token@, amount)]);
        }
        self.burn_batch(caller, &batch)
    }

    /// Applies one balance movement unconditionally; callers have already
    /// checked the sender's balance and the recipient's headroom.
    fn apply_move_item(&mut self, from: &str, to: &str, token: &str, amount: u128)
        requires
            old(self).wf(),
            from@ != to@,
            amount <= old(self)@.bal(from@, token@),
            old(self)@.bal(to@, token@) + amount <= u128::MAX,
        ensures
            final(self).wf(),
            final(self)@ == (LedgerModel {
                balances: old(self)@.balances.insert(
                    (from@, token@),
                    (old(self)@.bal(from@, token@) - amount) as u128,
                ).insert((to@, token@), (old(self)@.bal(to@, token@) + amount) as u128),
                ..old(self)@
            }),
    {
        let bf = self.balances.get(from, token);
        let bt = self.balances.get(to, token);
        self.balances.set(from, token, bf - amount);
        self.balances.set(to, token, bt + amount);
        proof {
            assert forall|t: Seq<char>| #[trigger] self.balances.spec_token_sum(t)
                == self.tokens.spec_supply(t) by {
                assert(old(self).balances.spec_token_sum(t) == old(self).tokens.spec_supply(t));
            }
        }
    }

    /// Sends a batch of line items from `from` to `to`, initiated by
    /// `actor`. Fails `Unauthorized` on a self-send. The actor is authorized
    /// for the whole batch when they are the owner or hold a live operator
    /// grant; otherwise, per token — amounts for a repeated token id summed
    /// first — a live allowance must cover the total, and is consumed.
    /// Balance movement applies the items in caller order. Any failure
    /// leaves the ledger untouched; recipient notification and the emitted
    /// action record are the host adapter's concern, within the same atomic
    /// boundary.
    pub fn send_batch(
        &mut self,
        env: &BlockInfo,
        actor: &str,
        from: &str,
        to: &str,
        items: &Vec<LineItem>,
    ) -> (r: Result<(), ContractError>)
        requires
            old(self).wf(),
        ensures
            final(self).wf(),
            send_tr(old(self)@, *env, actor@, from@, to@, items.deep_view()) == match r {
                Ok(_) => Ok::<LedgerModel, ContractError>(final(self)@),
                Err(e) => Err::<LedgerModel, ContractError>(e),
            },
            r is Err ==> final(self)@ == old(self)@,
    {
        let ghost itemsv = items.deep_view();
        let n = items.len();
        if matches!(str_compare(to, from), StrOrder::Equal) {
            return Err(ContractError::Unauthorized(UnauthorizedReason::SelfSend));
        }
        let by_owner = matches!(str_compare(actor, from), StrOrder::Equal);
        let authorized = by_owner || self.operators.is_approved(from, actor, env);
        let ghost s0: LedgerModel = if authorized {
            self@
        } else {
            consume_allowances(self@, actor@, from@, itemsv)
        };
        let mut totals = Tally::new();
        if !authorized {
            proof {
                assert(itemsv.take(0) =~= Seq::<(Seq<char>, u128)>::empty());
            }
            let mut i: usize = 0;
            while i < n
                invariant
                    i <= n,
                    n == items@.len(),
                    itemsv == items.deep_view(),
                    itemsv.len() == n,
                    self.wf(),
                    self@ == old(self)@,
                    totals.wf(),
                    to@ != from@,
                    !authorized,
                    authorized == (actor@ == from@ || old(self)@.operator_live(
                        from@,
                        actor@,
                        *env,
                    )),
                    forall|t: Seq<char>| #[trigger]
                        totals.amt(t) as int == items_total(itemsv.take(i as int), t),
                    forall|t: Seq<char>| #[trigger]
                        totals@.contains_key(t) == has_token(itemsv.take(i as int), t),
                decreases n - i,
            {
                let item = &items[i];
                let ghost t = itemsv[i as int].0;
                proof {
                    assert(itemsv[i as int] == items@[i as int]@);
                    lemma_items_total_take_step(itemsv, t, i as int);
                }
                let cur = totals.get(item.token_id.as_str());
                if item.amount > u128::MAX - cur {
                    proof {
                        lemma_items_total_prefix_le(itemsv, t, i as int + 1);
                        assert((i as int) < itemsv.len() && items_total(
                            itemsv,
                            itemsv[i as int].0,
                        ) > u128::MAX);
                        assert(spender_check(old(self)@, *env, actor@, from@, itemsv) == Some(
                            ContractError::ArithmeticOverflow,
                        ));
                    }
                    return Err(ContractError::ArithmeticOverflow);
                }
                totals.bump(item.token_id.as_str(), item.amount);
                proof {
                    assert forall|tt: Seq<char>| #[trigger] totals.amt(tt) as int == items_total(
                        itemsv.take(i as int + 1),
                        tt,
                    ) by {
                        lemma_items_total_take_step(itemsv, tt, i as int);
                    }
                    assert forall|tt: Seq<char>| #[trigger] totals@.contains_key(tt) == has_token(
                        itemsv.take(i as int + 1),
                        tt,
                    ) by {
                        if has_token(itemsv.take(i as int + 1), tt) {
                            let w = choose|x: int|
                                0 <= x < itemsv.take(i as int + 1).len() && (#[trigger] itemsv.take(
                                    i as int + 1,
                                )[x]).0 == tt;
                            if w < i as int {
                                assert(itemsv.take(i as int)[w].0 == tt);
                                assert(has_token(itemsv.take(i as int), tt));
                            } else {
                                assert(itemsv.take(i as int + 1)[w] == itemsv[i as int]);
                            }
                        }
                        if totals@.contains_key(tt) {
                            if tt == t {
                                assert(itemsv.take(i as int + 1)[i as int].0 == tt);
                                assert(has_token(itemsv.take(i as int + 1), tt));
                            } else {
                                assert(has_token(itemsv.take(i as int), tt));
                                let w = choose|x: int|
                                    0 <= x < itemsv.take(i as int).len() && (#[trigger] itemsv.take(
                                        i as int,
                                    )[x]).0 == tt;
                                assert(itemsv.take(i as int + 1)[w].0 == tt);
                                assert(has_token(itemsv.take(i as int + 1), tt));
                            }
                        }
                    }
                }
                i = i + 1;
            }
            proof {
                assert(itemsv.take(n as int) =~= itemsv);
                assert forall|x: int| 0 <= x < itemsv.len() implies items_total(
                    itemsv,
                    (#[trigger] itemsv[x]).0,
                ) <= u128::MAX by {
                    assert(has_token(itemsv, itemsv[x].0));
                    assert(totals@.contains_key(itemsv[x].0));
                    assert(totals.amt(itemsv[x].0) as int == items_total(itemsv, itemsv[x].0));
                }
            }
            let mut i2: usize = 0;
            while i2 < n
                invariant
                    i2 <= n,
                    n == items@.len(),
                    itemsv == items.deep_view(),
                    itemsv.len() == n,
                    self.wf(),
                    self@ == old(self)@,
                    totals.wf(),
                    to@ != from@,
                    !authorized,
                    authorized == (actor@ == from@ || old(self)@.operator_live(
                        from@,
                        actor@,
                        *env,
                    )),
                    forall|t: Seq<char>| #[trigger] totals.amt(t) as int == items_total(itemsv, t),
                    forall|t: Seq<char>| #[trigger] totals@.contains_key(t) == has_token(itemsv, t),
                    forall|x: int|
                        0 <= x < itemsv.len() ==> items_total(itemsv, (#[trigger] itemsv[x]).0)
                            <= u128::MAX,
                    allowance_check(old(self)@, *env, actor@, from@, itemsv, 0) == allowance_check(
                        old(self)@,
                        *env,
                        actor@,
                        from@,
                        itemsv,
                        i2 as int,
                    ),
                decreases n - i2,
            {
                let item = &items[i2];
                proof {
                    assert(itemsv[i2 as int] == items@[i2 as int]@);
                }
                let mut firstocc = true;
                let mut j: usize = 0;
                while j < i2
                    invariant
                        j <= i2,
                        i2 < n,
                        n == items@.len(),
                        itemsv == items.deep_view(),
                        itemsv.len() == n,
                        firstocc == (forall|k2: int|
                            0 <= k2 < j ==> (#[trigger] itemsv[k2]).0 != itemsv[i2 as int].0),
                    decreases i2 - j,
                {
                    proof {
                        assert(itemsv[j as int] == items@[j as int]@);
                    }
                    if matches!(
                        str_compare(items[j].token_id.as_str(), items[i2].token_id.as_str()),
                        StrOrder::Equal
                    ) {
                        firstocc = false;
                    }
                    j = j + 1;
                }
                proof {
                    assert(firstocc == first_occurrence(itemsv, i2 as int));
                }
                let ghost t2 = itemsv[i2 as int].0;
                proof {
                    assert(!(exists|x: int|
                        0 <= x < itemsv.len() && items_total(itemsv, (#[trigger] itemsv[x]).0)
                            > u128::MAX));
                }
                if firstocc {
                    let total = totals.get(item.token_id.as_str());
                    proof {
                        assert(totals.amt(t2) as int == items_total(itemsv, t2));
                    }
                    match self.approvals.get_live(from, item.token_id.as_str(), actor, env) {
                        None => {
                            proof {
                                assert(old(self)@.live_approval(from@, t2, actor@, *env) is None);
                                assert(allowance_check(
                                    old(self)@,
                                    *env,
                                    actor@,
                                    from@,
                                    itemsv,
                                    i2 as int,
                                ) == Some(ContractError::ApprovalNotFound));
                                assert(spender_check(old(self)@, *env, actor@, from@, itemsv)
                                    == Some(ContractError::ApprovalNotFound));
                            }
                            return Err(ContractError::ApprovalNotFound);
                        }
                        Some(a) => {
                            if a.amount < total {
                                proof {
                                    assert(old(self)@.live_approval(from@, t2, actor@, *env)
                                        == Some(a));
                                    assert(allowance_check(
                                        old(self)@,
                                        *env,
                                        actor@,
                                        from@,
                                        itemsv,
                                        i2 as int,
                                    ) == Some(
                                        ContractError::NotEnoughTokens {
                                            available: a.amount,
                                            requested: total,
                                        },
                                    ));
                                    assert(spender_check(old(self)@, *env, actor@, from@, itemsv)
                                        == Some(
                                        ContractError::NotEnoughTokens {
                                            available: a.amount,
                                            requested: total,
                                        },
                                    ));
                                }
                                return Err(
                                    ContractError::NotEnoughTokens {
                                        available: a.amount,
                                        requested: total,
                                    },
                                );
                            }
                            proof {
                                assert(old(self)@.live_approval(from@, t2, actor@, *env) == Some(
                                    a,
                                ));
                                assert(allowance_check(
                                    old(self)@,
                                    *env,
                                    actor@,
                                    from@,
                                    itemsv,
                                    i2 as int,
                                ) == allowance_check(
                                    old(self)@,
                                    *env,
                                    actor@,
                                    from@,
                                    itemsv,
                                    i2 as int + 1,
                                ));
                            }
                        }
                    }
                } else {
                    proof {
                        assert(allowance_check(old(self)@, *env, actor@, from@, itemsv, i2 as int)
                            == allowance_check(
                            old(self)@,
                            *env,
                            actor@,
                            from@,
                            itemsv,
                            i2 as int + 1,
                        ));
                    }
                }
                i2 = i2 + 1;
            }
            proof {
                assert(allowance_check(old(self)@, *env, actor@, from@, itemsv, n as int)
                    is None);
                assert(!(exists|x: int|
                    0 <= x < itemsv.len() && items_total(itemsv, (#[trigger] itemsv[x]).0)
                        > u128::MAX));
                assert(spender_check(old(self)@, *env, actor@, from@, itemsv) is None);
            }
        }
        // Movement checks, against the balances as they stand — consumption
        // has not touched them.
        let mut moved = Tally::new();
        let ghost mut gm = s0;
        proof {
            assert(itemsv.skip(0) =~= itemsv);
            assert(s0.balances == old(self)@.balances);
        }
        let mut p: usize = 0;
        while p < n
            invariant
                p <= n,
                n == items@.len(),
                itemsv == items.deep_view(),
                itemsv.len() == n,
                self.wf(),
                self@ == old(self)@,
                moved.wf(),
                to@ != from@,
                s0.balances == old(self)@.balances,
                authorized == (actor@ == from@ || old(self)@.operator_live(from@, actor@, *env)),
                !authorized ==> spender_check(old(self)@, *env, actor@, from@, itemsv) is None,
                !authorized ==> s0 == consume_allowances(old(self)@, actor@, from@, itemsv),
                authorized ==> s0 == old(self)@,
                move_items(s0, from@, to@, itemsv) == move_items(
                    gm,
                    from@,
                    to@,
                    itemsv.skip(p as int),
                ),
                forall|t: Seq<char>| #[trigger]
                    gm.bal(from@, t) as int == s0.bal(from@, t) - moved.amt(t),
                forall|t: Seq<char>| #[trigger]
                    gm.bal(to@, t) as int == s0.bal(to@, t) + moved.amt(t),
            decreases n - p,
        {
            let item = &items[p];
            let ghost t = itemsv[p as int].0;
            proof {
                assert(itemsv[p as int] == items@[p as int]@);
                assert(itemsv.skip(p as int)[0] == itemsv[p as int]);
                assert(itemsv.skip(p as int).drop_first() =~= itemsv.skip(p as int + 1));
                assert(gm.bal(from@, t) as int == s0.bal(from@, t) - moved.amt(t));
                assert(gm.bal(to@, t) as int == s0.bal(to@, t) + moved.amt(t));
            }
            let bf = self.balances.get(from, item.token_id.as_str());
            let bt = self.balances.get(to, item.token_id.as_str());
            let mv = moved.get(item.token_id.as_str());
            let avail = bf - mv;
            proof {
                assert(bf == s0.bal(from@, t));
                assert(bt == s0.bal(to@, t));
                assert(avail == gm.bal(from@, t));
            }
            if avail < item.amount {
                proof {
                    assert(move_items(gm, from@, to@, itemsv.skip(p as int)) == Err::<
                        LedgerModel,
                        ContractError,
                    >(ContractError::NotEnoughTokens { available: avail, requested: item.amount }));
                }
                return Err(
                    ContractError::NotEnoughTokens { available: avail, requested: item.amount },
                );
            }
            let bt_now = bt + mv;
            proof {
                assert(bt_now == gm.bal(to@, t));
            }
            if item.amount > u128::MAX - bt_now {
                proof {
                    assert(move_items(gm, from@, to@, itemsv.skip(p as int)) == Err::<
                        LedgerModel,
                        ContractError,
                    >(ContractError::ArithmeticOverflow));
                }
                return Err(ContractError::ArithmeticOverflow);
            }
            moved.bump(item.token_id.as_str(), item.amount);
            proof {
                let old_gm = gm;
                gm =
                LedgerModel {
                    balances: old_gm.balances.insert(
                        (from@, t),
                        (old_gm.bal(from@, t) - itemsv[p as int].1) as u128,
                    ).insert((to@, t), (old_gm.bal(to@, t) + itemsv[p as int].1) as u128),
                    ..old_gm
                };
                assert forall|tt: Seq<char>| #[trigger] gm.bal(from@, tt) as int == s0.bal(
                    from@,
                    tt,
                ) - moved.amt(tt) by {
                    if tt == t {
                        assert(gm.bal(from@, tt) == (old_gm.bal(from@, t) - itemsv[p as int].1)
                            as u128);
                    } else {
                        assert(gm.bal(from@, tt) == old_gm.bal(from@, tt));
                    }
                }
                assert forall|tt: Seq<char>| #[trigger] gm.bal(to@, tt) as int == s0.bal(to@, tt)
                    + moved.amt(tt) by {
                    if tt == t {
                        assert(gm.bal(to@, tt) == (old_gm.bal(to@, t) + itemsv[p as int].1)
                            as u128);
                    } else {
                        assert(gm.bal(to@, tt) == old_gm.bal(to@, tt));
                    }
                }
            }
            p = p + 1;
        }
        proof {
            assert(itemsv.skip(n as int) =~= Seq::<(Seq<char>, u128)>::empty());
        }
        // Consume the allowances of the spender path; the checks above have
        // already passed for every named token.
        if !authorized {
            let ghost ap0 = old(self)@.approvals;
            let ghost tpairs = totals.pairs();
            proof {
                assert(self.approvals@ =~= consume_prefix(ap0, actor@, from@, tpairs, totals@, 0));
                assert forall|x: int| 0 <= x < tpairs.len() implies {
                    &&& ap0.contains_key((from@, (#[trigger] tpairs[x]).0, actor@))
                    &&& ap0[(from@, tpairs[x].0, actor@)].amount >= totals@[tpairs[x].0]
                    &&& totals@[tpairs[x].0] == tpairs[x].1
                } by {
                    let t = tpairs[x].0;
                    crate::assoc::lemma_map_of_index(tpairs, x);
                    assert(totals@.contains_key(t));
                    assert(has_token(itemsv, t));
                    lemma_allowance_ok(old(self)@, *env, actor@, from@, itemsv, t);
                    assert(totals.amt(t) as int == items_total(itemsv, t));
                }
            }
            let m_ = totals.len();
            let mut k: usize = 0;
            while k < m_
                invariant
                    k <= m_,
                    m_ == tpairs.len(),
                    tpairs == totals.pairs(),
                    totals.wf(),
                    self.balances == old(self).balances,
                    self.operators == old(self).operators,
                    self.tokens == old(self).tokens,
                    self.total == old(self).total,
                    self.minter == old(self).minter,
                    self.balances.wf(),
                    self.operators.wf(),
                    self.tokens.wf(),
                    self.approvals.wf(),
                    forall|t: Seq<char>| #[trigger]
                        self.balances.spec_token_sum(t) == self.tokens.spec_supply(t),
                    self.total as int == self.tokens.spec_supply_sum(),
                    ap0 == old(self)@.approvals,
                    self.approvals@ == consume_prefix(ap0, actor@, from@, tpairs, totals@, k as int),
                    forall|x: int| 0 <= x < tpairs.len() ==> {
                        &&& ap0.contains_key((from@, (#[trigger] tpairs[x]).0, actor@))
                        &&& ap0[(from@, tpairs[x].0, actor@)].amount >= totals@[tpairs[x].0]
                        &&& totals@[tpairs[x].0] == tpairs[x].1
                    },
                    forall|a2: int, b2: int|
                        #![trigger tpairs[a2], tpairs[b2]]
                        0 <= a2 < b2 < tpairs.len() ==> tpairs[a2].0 != tpairs[b2].0,
                decreases m_ - k,
            {
                let total = totals.amount_at(k);
                let ghost t = tpairs[k as int].0;
                proof {
                    crate::assoc::lemma_map_of_index(tpairs, k as int);
                    assert(!token_in_prefix(tpairs, k as int, t));
                    assert(self.approvals@.contains_key((from@, t, actor@)));
                    assert(self.approvals@[(from@, t, actor@)] == ap0[(from@, t, actor@)]);
                }
                let tok = totals.token_at(k);
                let a = self.approvals.get(from, tok.as_str(), actor).unwrap();
                if a.amount == total {
                    self.approvals.remove(from, tok.as_str(), actor);
                } else {
                    self.approvals.set(
                        from,
                        tok.as_str(),
                        actor,
                        Approval { amount: a.amount - total, expiration: a.expiration },
                    );
                }
                proof {
                    assert forall|key: (Seq<char>, Seq<char>, Seq<char>)|
                        #![trigger self.approvals@.contains_key(key)]
                        true implies {
                        let lhs = self.approvals@;
                        let rhs = consume_prefix(ap0, actor@, from@, tpairs, totals@, k as int + 1);
                        &&& lhs.contains_key(key) == rhs.contains_key(key)
                        &&& (lhs.contains_key(key) ==> lhs[key] == rhs[key])
                    } by {
                        if key.0 == from@ && key.2 == actor@ && key.1 == t {
                            assert(token_in_prefix(tpairs, k as int + 1, t));
                        } else if key.1 != t {
                            assert(token_in_prefix(tpairs, k as int + 1, key.1)
                                == token_in_prefix(tpairs, k as int, key.1)) by {
                                if token_in_prefix(tpairs, k as int + 1, key.1) {
                                    let x = choose|x: int|
                                        0 <= x < k as int + 1 && (#[trigger] tpairs[x]).0 == key.1;
                                    assert(x < k as int);
                                    assert(token_in_prefix(tpairs, k as int, key.1));
                                }
                            }
                        }
                    }
                    assert(self.approvals@ =~= consume_prefix(
                        ap0,
                        actor@,
                        from@,
                        tpairs,
                        totals@,
                        k as int + 1,
                    ));
                }
                k = k + 1;
            }
            proof {
                let target = consume_allowances(old(self)@, actor@, from@, itemsv);
                assert forall|key: (Seq<char>, Seq<char>, Seq<char>)|
                    #![trigger self.approvals@.contains_key(key)]
                    true implies {
                    let lhs = self.approvals@;
                    let rhs = target.approvals;
                    &&& lhs.contains_key(key) == rhs.contains_key(key)
                    &&& (lhs.contains_key(key) ==> lhs[key] == rhs[key])
                } by {
                    assert(token_in_prefix(tpairs, m_ as int, key.1) == has_token(itemsv, key.1))
                        by {
                        if token_in_prefix(tpairs, m_ as int, key.1) {
                            let x = choose|x: int|
                                0 <= x < m_ as int && (#[trigger] tpairs[x]).0 == key.1;
                            crate::assoc::lemma_map_of_index(tpairs, x);
                            assert(totals@.contains_key(key.1));
                        }
                        if has_token(itemsv, key.1) {
                            assert(totals@.contains_key(key.1));
                            let x = crate::assoc::lemma_map_of_contains_index(tpairs, key.1);
                            assert(tpairs[x].0 == key.1);
                        }
                    }
                    if has_token(itemsv, key.1) {
                        assert(totals@.contains_key(key.1));
                        assert(totals.amt(key.1) as int == items_total(itemsv, key.1));
                        assert(totals@[key.1] as int == items_total(itemsv, key.1));
                    }
                }
                assert(self.approvals@ =~= consume_allowances(
                    old(self)@,
                    actor@,
                    from@,
                    itemsv,
                ).approvals);
                assert(self@ == s0);
            }
        }
        proof {
            assert(self@ == s0);
            assert(itemsv.skip(0) =~= itemsv);
        }
        let mut q: usize = 0;
        while q < n
            invariant
                q <= n,
                n == items@.len(),
                itemsv == items.deep_view(),
                itemsv.len() == n,
                self.wf(),
                to@ != from@,
                authorized == (actor@ == from@ || old(self)@.operator_live(from@, actor@, *env)),
                !authorized ==> spender_check(old(self)@, *env, actor@, from@, itemsv) is None,
                !authorized ==> s0 == consume_allowances(old(self)@, actor@, from@, itemsv),
                authorized ==> s0 == old(self)@,
                move_items(s0, from@, to@, itemsv) == move_items(
                    self@,
                    from@,
                    to@,
                    itemsv.skip(q as int),
                ),
                move_items(s0, from@, to@, itemsv) is Ok,
            decreases n - q,
        {
            let item = &items[q];
            proof {
                assert(itemsv[q as int] == items@[q as int]@);
                assert(itemsv.skip(q as int)[0] == itemsv[q as int]);
                assert(itemsv.skip(q as int).drop_first() =~= itemsv.skip(q as int + 1));
            }
            self.apply_move_item(from, to, item.token_id.as_str(), item.amount);
            q = q + 1;
        }
        proof {
            assert(itemsv.skip(n as int) =~= Seq::<(Seq<char>, u128)>::empty());
        }
        Ok(())
    }

    /// Sends `amount` units of one token from `from` to `to`: the
    /// single-item case of `send_batch`.
    pub fn send(
        &mut self,
        env: &BlockInfo,
        actor: &str,
        from: &str,
        to: &str,
        token: &str,
        amount: u128,
    ) -> (r: Result<(), ContractError>)
        requires
            old(self).wf(),
        ensures
            final(self).wf(),
            send_tr(old(self)@, *env, actor@, from@, to@, seq![(token@, amount)]) == match r {
                Ok(_) => Ok::<LedgerModel, ContractError>(final(self)@),
                Err(e) => Err::<LedgerModel, ContractError>(e),
            },
            r is Err ==> final(self)@ == old(self)@,
    {
        let mut batch: Vec<LineItem> = Vec::new();
        batch.push(LineItem { token_id: token.to_owned(), amount });
        proof {
            assert(batch.deep_view() =~= seq![(token@, amount)]);
        }
        self.send_batch(env, actor, from, to, &batch)
    }

    /// Whether `operator` holds a live blanket grant from `owner` at `env`.
    pub fn is_approved_for_all(&self, env: &BlockInfo, owner: &str, operator: &str) -> (r: bool)
        requires
            self.wf(),
        ensures
            r == self@.operator_live(owner@, operator@, *env),
    {
        self.operators.is_approved(owner, operator, env)
    }

    /// The balance of an owner in a token; zero when no record exists.
    /// Never errors.
    pub fn balance_of(&self, owner: &str, token: &str) -> (amount: u128)
        requires
            self.wf(),
        ensures
            amount == self@.bal(owner@, token@),
    {
        self.balances.get(owner, token)
    }

    /// The outstanding supply of one token, or the aggregate over all
    /// tokens when `token` is `None`.
    pub fn num_tokens(&self, token: Option<&str>) -> (count: u128)
        requires
            self.wf(),
        ensures
            match token {
                Some(t) => count == self@.supply(t@),
                None => count == self@.total,
            },
    {
        match token {
            Some(t) => self.tokens.get_supply(t),
            None => self.total,
        }
    }
}

} // verus!
