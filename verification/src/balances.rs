use vstd::prelude::*;

use crate::error::ContractError;

use crate::assoc::{
    keys_unique, lemma_map_of_absent, lemma_map_of_index, lemma_map_of_insert, lemma_map_of_update,
    lemma_sorted_insert, lemma_sorted_unique, lemma_sorted_update, map_of, sorted_by,
};
use crate::lex::{key2_compare, key2_lt, lemma_pair_order_strict, pair_order, StrOrder};

verus! {

/// One (owner, token id) balance record.
pub struct BalanceEntry {
    pub owner: String,
    pub token_id: String,
    pub amount: u128,
}

/// The balance ledger: owner/token id → amount. An absent key means amount
/// zero; a record is created on first credit and never deleted, so it may
/// rest at zero. Entries are kept strictly sorted by (owner, token id).
pub struct BalanceStore {
    pub entries: Vec<BalanceEntry>,
}

impl View for BalanceStore {
    type V = Map<(Seq<char>, Seq<char>), u128>;

    open spec fn view(&self) -> Map<(Seq<char>, Seq<char>), u128> {
        map_of(self.pairs())
    }
}

/// Sum of the recorded amounts for one token across all owners.
pub open spec fn token_sum(s: Seq<((Seq<char>, Seq<char>), u128)>, token: Seq<char>) -> int
    decreases s.len(),
{
    if s.len() == 0 {
        0
    } else {
        token_sum(s.drop_last(), token) + if s.last().0.1 == token {
            s.last().1 as int
        } else {
            0
        }
    }
}

/// A token sum never drops below any single contribution.
pub proof fn lemma_token_sum_element(s: Seq<((Seq<char>, Seq<char>), u128)>, token: Seq<char>, i: int)
    requires
        0 <= i < s.len(),
        s[i].0.1 == token,
    ensures
        token_sum(s, token) >= s[i].1,
        token_sum(s, token) >= 0,
    decreases s.len(),
{
    lemma_token_sum_nonneg(s, token);
    if i < s.len() - 1 {
        lemma_token_sum_element(s.drop_last(), token, i);
    } else {
        lemma_token_sum_nonneg(s.drop_last(), token);
    }
}

/// Token sums are non-negative.
pub proof fn lemma_token_sum_nonneg(s: Seq<((Seq<char>, Seq<char>), u128)>, token: Seq<char>)
    ensures
        token_sum(s, token) >= 0,
    decreases s.len(),
{
    if s.len() > 0 {
        lemma_token_sum_nonneg(s.drop_last(), token);
    }
}

/// Inserting an entry adds its contribution to the matching token sum.
pub proof fn lemma_token_sum_insert(
    s: Seq<((Seq<char>, Seq<char>), u128)>,
    pos: int,
    k: (Seq<char>, Seq<char>),
    v: u128,
    token: Seq<char>,
)
    requires
        0 <= pos <= s.len(),
    ensures
        token_sum(s.insert(pos, (k, v)), token) == token_sum(s, token) + if k.1 == token {
            v as int
        } else {
            0
        },
    decreases s.len(),
{
    let t = s.insert(pos, (k, v));
    if pos == s.len() {
        assert(t.drop_last() =~= s);
        assert(t.last() == (k, v));
    } else {
        assert(t.last() == s.last());
        assert(t.drop_last() =~= s.drop_last().insert(pos, (k, v)));
        lemma_token_sum_insert(s.drop_last(), pos, k, v, token);
    }
}

/// Replacing the value at one position shifts the matching token sum by the
/// difference.
pub proof fn lemma_token_sum_update(
    s: Seq<((Seq<char>, Seq<char>), u128)>,
    pos: int,
    v: u128,
    token: Seq<char>,
)
    requires
        0 <= pos < s.len(),
    ensures
        token_sum(s.update(pos, (s[pos].0, v)), token) == token_sum(s, token) + if s[pos].0.1
            == token {
            v - s[pos].1
        } else {
            0
        },
    decreases s.len(),
{
    let t = s.update(pos, (s[pos].0, v));
    if pos == s.len() - 1 {
        assert(t.drop_last() =~= s.drop_last());
        assert(t.last() == (s[pos].0, v));
    } else {
        assert(t.last() == s.last());
        assert(t.drop_last() =~= s.drop_last().update(pos, (s[pos].0, v)));
        lemma_token_sum_update(s.drop_last(), pos, v, token);
    }
}

impl BalanceStore {
    /// The entries as key-value pairs over their views.
    pub open spec fn pairs(&self) -> Seq<((Seq<char>, Seq<char>), u128)> {
        self.entries@.map(|i: int, e: BalanceEntry| ((e.owner@, e.token_id@), e.amount))
    }

    /// Strictly sorted by (owner, token id).
    pub open spec fn wf(&self) -> bool {
        sorted_by(self.pairs(), pair_order())
    }

    /// The balance of an owner in a token; zero when no record exists.
    pub open spec fn spec_balance(&self, owner: Seq<char>, token: Seq<char>) -> u128 {
        if self@.contains_key((owner, token)) {
            self@[(owner, token)]
        } else {
            0
        }
    }

    /// Sum of this token's balances across all owners.
    pub open spec fn spec_token_sum(&self, token: Seq<char>) -> int {
        token_sum(self.pairs(), token)
    }

    pub proof fn lemma_unique(&self)
        requires
            self.wf(),
        ensures
            keys_unique(self.pairs()),
    {
        lemma_pair_order_strict();
        lemma_sorted_unique(self.pairs(), pair_order());
    }

    /// An empty balance store.
    pub fn new() -> (s: Self)
        ensures
            s.wf(),
            s@ == Map::<(Seq<char>, Seq<char>), u128>::empty(),
            s.pairs() =~= Seq::<((Seq<char>, Seq<char>), u128)>::empty(),
    {
        let s = BalanceStore { entries: Vec::new() };
        proof {
            assert(s.pairs() =~= Seq::<((Seq<char>, Seq<char>), u128)>::empty());
        }
        s
    }

    /// Finds the position of the key, or the position where it would be
    /// inserted to keep the entries sorted.
    fn locate(&self, owner: &str, token: &str) -> (r: (usize, bool))
        requires
            self.wf(),
        ensures
            r.0 <= self.entries@.len(),
            r.1 ==> r.0 < self.entries@.len() && self.pairs()[r.0 as int].0 == (owner@, token@),
            !r.1 ==> forall|j: int|
                0 <= j < self.entries@.len() ==> (#[trigger] self.pairs()[j]).0 != (owner@, token@),
            !r.1 ==> forall|j: int|
                0 <= j < r.0 ==> key2_lt(
                    (#[trigger] self.pairs()[j]).0.0,
                    self.pairs()[j].0.1,
                    owner@,
                    token@,
                ),
            !r.1 ==> forall|j: int|
                r.0 <= j < self.entries@.len() ==> key2_lt(
                    owner@,
                    token@,
                    (#[trigger] self.pairs()[j]).0.0,
                    self.pairs()[j].0.1,
                ),
    {
        let n = self.entries.len();
        let mut i: usize = 0;
        while i < n
            invariant
                self.wf(),
                n == self.entries@.len(),
                i <= n,
                forall|j: int|
                    0 <= j < i ==> key2_lt(
                        (#[trigger] self.pairs()[j]).0.0,
                        self.pairs()[j].0.1,
                        owner@,
                        token@,
                    ),
            decreases n - i,
        {
            let e = &self.entries[i];
            let o = key2_compare(e.owner.as_str(), e.token_id.as_str(), owner, token);
            proof {
                assert(self.pairs()[i as int] == ((e.owner@, e.token_id@), e.amount));
            }
            match o {
                StrOrder::Less => {
                    i = i + 1;
                }
                StrOrder::Equal => {
                    return (i, true);
                }
                StrOrder::Greater => {
                    proof {
                        lemma_pair_order_strict();
                        let ord = pair_order();
                        assert forall|j: int| i <= j < n implies key2_lt(
                            owner@,
                            token@,
                            (#[trigger] self.pairs()[j]).0.0,
                            self.pairs()[j].0.1,
                        ) by {
                            if j > i {
                                assert(ord(self.pairs()[i as int].0, self.pairs()[j].0));
                                assert(ord((owner@, token@), self.pairs()[i as int].0));
                            }
                        }
                        assert forall|j: int| 0 <= j < n implies (#[trigger] self.pairs()[j]).0
                            != (owner@, token@) by {
                            if j < i {
                                assert(ord(self.pairs()[j].0, (owner@, token@)));
                            } else {
                                assert(ord((owner@, token@), self.pairs()[j].0));
                            }
                        }
                    }
                    return (i, false);
                }
            }
        }
        proof {
            lemma_pair_order_strict();
            let ord = pair_order();
            assert forall|j: int| 0 <= j < n implies (#[trigger] self.pairs()[j]).0 != (
                owner@,
                token@,
            ) by {
                assert(ord(self.pairs()[j].0, (owner@, token@)));
            }
        }
        (n, false)
    }

    /// The current balance; zero when no record exists. Never errors.
    pub fn get(&self, owner: &str, token: &str) -> (amount: u128)
        requires
            self.wf(),
        ensures
            amount == self.spec_balance(owner@, token@),
    {
        let (i, found) = self.locate(owner, token);
        if found {
            proof {
                self.lemma_unique();
                lemma_map_of_index(self.pairs(), i as int);
            }
            self.entries[i].amount
        } else {
            proof {
                lemma_map_of_absent(self.pairs(), (owner@, token@));
            }
            0
        }
    }

    /// Writes the balance record, creating it when absent.
    pub fn set(&mut self, owner: &str, token: &str, amount: u128)
        requires
            old(self).wf(),
        ensures
            final(self).wf(),
            final(self)@ == old(self)@.insert((owner@, token@), amount),
            forall|t: Seq<char>| #[trigger]
                final(self).spec_token_sum(t) == old(self).spec_token_sum(t) + if t == token@ {
                    amount - old(self).spec_balance(owner@, token@)
                } else {
                    0
                },
    {
        let (i, found) = self.locate(owner, token);
        let ghost oldpairs = self.pairs();
        proof {
            self.lemma_unique();
        }
        if found {
            proof {
                lemma_map_of_index(oldpairs, i as int);
                lemma_sorted_update(oldpairs, i as int, amount, pair_order());
                lemma_map_of_update(oldpairs, i as int, amount);
                assert forall|t: Seq<char>| true implies #[trigger] token_sum(
                    oldpairs.update(i as int, (oldpairs[i as int].0, amount)),
                    t,
                ) == token_sum(oldpairs, t) + if t == token@ {
                    amount - self.spec_balance(owner@, token@)
                } else {
                    0
                } by {
                    lemma_token_sum_update(oldpairs, i as int, amount, t);
                }
            }
            self.entries[i] = BalanceEntry {
                owner: owner.to_owned(),
                token_id: token.to_owned(),
                amount,
            };
            proof {
                assert(self.pairs() =~= oldpairs.update(i as int, (oldpairs[i as int].0, amount)));
            }
        } else {
            proof {
                lemma_map_of_absent(oldpairs, (owner@, token@));
                lemma_sorted_insert(oldpairs, i as int, (owner@, token@), amount, pair_order());
                lemma_map_of_insert(oldpairs, i as int, (owner@, token@), amount);
                assert forall|t: Seq<char>| true implies #[trigger] token_sum(
                    oldpairs.insert(i as int, ((owner@, token@), amount)),
                    t,
                ) == token_sum(oldpairs, t) + if t == token@ {
                    amount as int
                } else {
                    0
                } by {
                    lemma_token_sum_insert(oldpairs, i as int, (owner@, token@), amount, t);
                }
            }
            self.entries.insert(
                i,
                BalanceEntry { owner: owner.to_owned(), token_id: token.to_owned(), amount },
            );
            proof {
                assert(self.pairs() =~= oldpairs.insert(i as int, ((owner@, token@), amount)));
            }
        }
    }

    /// Credits the record, failing `ArithmeticOverflow` — with the state
    /// untouched — when the new total would exceed the maximum representable
    /// amount.
    pub fn increase(&mut self, owner: &str, token: &str, amount: u128) -> (r: Result<
        (),
        ContractError,
    >)
        requires
            old(self).wf(),
        ensures
            final(self).wf(),
            r is Ok <==> old(self).spec_balance(owner@, token@) + amount <= u128::MAX,
            r is Ok ==> final(self)@ == old(self)@.insert(
                (owner@, token@),
                (old(self).spec_balance(owner@, token@) + amount) as u128,
            ),
            r is Err ==> r == Err::<(), ContractError>(ContractError::ArithmeticOverflow)
                && *final(self) == *old(self),
            forall|t: Seq<char>| #[trigger]
                final(self).spec_token_sum(t) == old(self).spec_token_sum(t) + if r is Ok && t
                    == token@ {
                    amount as int
                } else {
                    0
                },
    {
        let bal = self.get(owner, token);
        if amount > u128::MAX - bal {
            return Err(ContractError::ArithmeticOverflow);
        }
        self.set(owner, token, bal + amount);
        Ok(())
    }

    /// Debits the record, failing `NotEnoughTokens` — with the state
    /// untouched — when the amount exceeds what is available.
    pub fn decrease(&mut self, owner: &str, token: &str, amount: u128) -> (r: Result<
        (),
        ContractError,
    >)
        requires
            old(self).wf(),
        ensures
            final(self).wf(),
            r is Ok <==> amount <= old(self).spec_balance(owner@, token@),
            r is Ok ==> final(self)@ == old(self)@.insert(
                (owner@, token@),
                (old(self).spec_balance(owner@, token@) - amount) as u128,
            ),
            r is Err ==> r == Err::<(), ContractError>(
                ContractError::NotEnoughTokens {
                    available: old(self).spec_balance(owner@, token@),
                    requested: amount,
                },
            ) && *final(self) == *old(self),
            forall|t: Seq<char>| #[trigger]
                final(self).spec_token_sum(t) == old(self).spec_token_sum(t) - if r is Ok && t
                    == token@ {
                    amount as int
                } else {
                    0
                },
    {
        let bal = self.get(owner, token);
        if amount > bal {
            return Err(ContractError::NotEnoughTokens { available: bal, requested: amount });
        }
        self.set(owner, token, bal - amount);
        Ok(())
    }
}

} // verus!
