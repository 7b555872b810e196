use vstd::prelude::*;

use crate::assoc::{
    keys_unique, lemma_map_of_absent, lemma_map_of_index, lemma_map_of_insert, lemma_map_of_remove,
    lemma_map_of_update, lemma_sorted_insert, lemma_sorted_remove, lemma_sorted_unique,
    lemma_sorted_update, map_of, sorted_by,
};
use crate::expiration::{BlockInfo, Expiration};
use crate::lex::{key3_compare, key3_lt, lemma_triple_order_strict, triple_order, StrOrder};

verus! {

/// A bounded, expiring allowance: how much of one token a spender may still
/// move out of one owner's balance, and until when.
#[derive(Clone, Copy, Debug, PartialEq, Eq, Structural)]
pub struct Approval {
    pub amount: u128,
    pub expiration: Expiration,
}

impl View for Approval {
    type V = Approval;

    open spec fn view(&self) -> Approval {
        *self
    }
}

impl DeepView for Approval {
    type V = Approval;

    open spec fn deep_view(&self) -> Approval {
        *self
    }
}

/// One allowance record: (owner, token id, spender) → approval.
pub struct ApprovalEntry {
    pub owner: String,
    pub token_id: String,
    pub spender: String,
    pub approval: Approval,
}

/// Per-token bounded allowances, keyed by (owner, token id, spender), kept
/// strictly sorted. A record's amount is positive while it exists; expired
/// records may linger until overwritten or revoked, but never authorize
/// anything.
pub struct ApprovalStore {
    pub entries: Vec<ApprovalEntry>,
}

impl View for ApprovalStore {
    type V = Map<(Seq<char>, Seq<char>, Seq<char>), Approval>;

    open spec fn view(&self) -> Map<(Seq<char>, Seq<char>, Seq<char>), Approval> {
        map_of(self.pairs())
    }
}

impl ApprovalStore {
    /// The entries as key-value pairs over their views.
    pub open spec fn pairs(&self) -> Seq<((Seq<char>, Seq<char>, Seq<char>), Approval)> {
        self.entries@.map(
            |i: int, e: ApprovalEntry| ((e.owner@, e.token_id@, e.spender@), e.approval),
        )
    }

    /// Strictly sorted by key, and every stored amount positive.
    pub open spec fn wf(&self) -> bool {
        &&& sorted_by(self.pairs(), triple_order())
        &&& forall|k: (Seq<char>, Seq<char>, Seq<char>)|
            self@.contains_key(k) ==> (#[trigger] self@[k]).amount > 0
    }

    /// The live allowance of (owner, token, spender) at `env`: the stored
    /// record, unless it is absent or expired.
    pub open spec fn spec_live(
        &self,
        owner: Seq<char>,
        token: Seq<char>,
        spender: Seq<char>,
        env: BlockInfo,
    ) -> Option<Approval> {
        if self@.contains_key((owner, token, spender)) && !self@[(
            owner,
            token,
            spender,
        )].expiration.spec_is_expired(&env) {
            Some(self@[(owner, token, spender)])
        } else {
            None
        }
    }

    pub proof fn lemma_unique(&self)
        requires
            sorted_by(self.pairs(), triple_order()),
        ensures
            keys_unique(self.pairs()),
    {
        lemma_triple_order_strict();
        lemma_sorted_unique(self.pairs(), triple_order());
    }

    /// An empty approval store.
    pub fn new() -> (s: Self)
        ensures
            s.wf(),
            s@ == Map::<(Seq<char>, Seq<char>, Seq<char>), Approval>::empty(),
    {
        let s = ApprovalStore { entries: Vec::new() };
        proof {
            assert(s.pairs() =~= Seq::<((Seq<char>, Seq<char>, Seq<char>), Approval)>::empty());
            assert forall|k: (Seq<char>, Seq<char>, Seq<char>)| s@.contains_key(k) implies (
            #[trigger] s@[k]).amount > 0 by {
                lemma_map_of_absent(s.pairs(), k);
            }
        }
        s
    }

    /// Finds the position of the key, or its insertion position.
    fn locate(&self, owner: &str, token: &str, spender: &str) -> (r: (usize, bool))
        requires
            sorted_by(self.pairs(), triple_order()),
        ensures
            r.0 <= self.entries@.len(),
            r.1 ==> r.0 < self.entries@.len() && self.pairs()[r.0 as int].0 == (
                owner@,
                token@,
                spender@,
            ),
            !r.1 ==> forall|j: int|
                0 <= j < self.entries@.len() ==> (#[trigger] self.pairs()[j]).0 != (
                    owner@,
                    token@,
                    spender@,
                ),
            !r.1 ==> forall|j: int|
                0 <= j < r.0 ==> key3_lt(
                    (#[trigger] self.pairs()[j]).0.0,
                    self.pairs()[j].0.1,
                    self.pairs()[j].0.2,
                    owner@,
                    token@,
                    spender@,
                ),
            !r.1 ==> forall|j: int|
                r.0 <= j < self.entries@.len() ==> key3_lt(
                    owner@,
                    token@,
                    spender@,
                    (#[trigger] self.pairs()[j]).0.0,
                    self.pairs()[j].0.1,
                    self.pairs()[j].0.2,
                ),
    {
        let n = self.entries.len();
        let mut i: usize = 0;
        while i < n
            invariant
                sorted_by(self.pairs(), triple_order()),
                n == self.entries@.len(),
                i <= n,
                forall|j: int|
                    0 <= j < i ==> key3_lt(
                        (#[trigger] self.pairs()[j]).0.0,
                        self.pairs()[j].0.1,
                        self.pairs()[j].0.2,
                        owner@,
                        token@,
                        spender@,
                    ),
            decreases n - i,
        {
            let e = &self.entries[i];
            let o = key3_compare(
                e.owner.as_str(),
                e.token_id.as_str(),
                e.spender.as_str(),
                owner,
                token,
                spender,
            );
            proof {
                assert(self.pairs()[i as int] == ((e.owner@, e.token_id@, e.spender@), e.approval));
            }
            match o {
                StrOrder::Less => {
                    i = i + 1;
                }
                StrOrder::Equal => {
                    return (i, true);
                }
                StrOrder::Greater => {
                    proof {
                        lemma_triple_order_strict();
                        let ord = triple_order();
                        assert forall|j: int| i <= j < n implies key3_lt(
                            owner@,
                            token@,
                            spender@,
                            (#[trigger] self.pairs()[j]).0.0,
                            self.pairs()[j].0.1,
                            self.pairs()[j].0.2,
                        ) by {
                            if j > i {
                                assert(ord(self.pairs()[i as int].0, self.pairs()[j].0));
                                assert(ord((owner@, token@, spender@), self.pairs()[i as int].0));
                            }
                        }
                        assert forall|j: int| 0 <= j < n implies (#[trigger] self.pairs()[j]).0
                            != (owner@, token@, spender@) by {
                            if j < i {
                                assert(ord(self.pairs()[j].0, (owner@, token@, spender@)));
                            } else {
                                assert(ord((owner@, token@, spender@), self.pairs()[j].0));
                            }
                        }
                    }
                    return (i, false);
                }
            }
        }
        proof {
            lemma_triple_order_strict();
            let ord = triple_order();
            assert forall|j: int| 0 <= j < n implies (#[trigger] self.pairs()[j]).0 != (
                owner@,
                token@,
                spender@,
            ) by {
                assert(ord(self.pairs()[j].0, (owner@, token@, spender@)));
            }
        }
        (n, false)
    }

    /// The stored record, expired or not; `None` when no record exists.
    pub fn get(&self, owner: &str, token: &str, spender: &str) -> (r: Option<Approval>)
        requires
            sorted_by(self.pairs(), triple_order()),
        ensures
            match r {
                Some(a) => self@.contains_key((owner@, token@, spender@)) && a == self@[(
                    owner@,
                    token@,
                    spender@,
                )],
                None => !self@.contains_key((owner@, token@, spender@)),
            },
    {
        let (i, found) = self.locate(owner, token, spender);
        if found {
            proof {
                self.lemma_unique();
                lemma_map_of_index(self.pairs(), i as int);
            }
            Some(self.entries[i].approval)
        } else {
            proof {
                lemma_map_of_absent(self.pairs(), (owner@, token@, spender@));
            }
            None
        }
    }

    /// The live allowance at `env`: the stored record, unless absent or
    /// expired.
    pub fn get_live(&self, owner: &str, token: &str, spender: &str, env: &BlockInfo) -> (r: Option<
        Approval,
    >)
        requires
            sorted_by(self.pairs(), triple_order()),
        ensures
            r == self.spec_live(owner@, token@, spender@, *env),
    {
        match self.get(owner, token, spender) {
            Some(a) => {
                if a.expiration.is_expired(env) {
                    None
                } else {
                    Some(a)
                }
            }
            None => None,
        }
    }

    /// Writes the record, replacing — not merging with — any prior record
    /// for the same triple.
    pub fn set(&mut self, owner: &str, token: &str, spender: &str, approval: Approval)
        requires
            old(self).wf(),
            approval.amount > 0,
        ensures
            final(self).wf(),
            final(self)@ == old(self)@.insert((owner@, token@, spender@), approval),
    {
        let (i, found) = self.locate(owner, token, spender);
        let ghost oldpairs = self.pairs();
        proof {
            self.lemma_unique();
        }
        if found {
            proof {
                lemma_sorted_update(oldpairs, i as int, approval, triple_order());
                lemma_map_of_update(oldpairs, i as int, approval);
            }
            self.entries[i] = ApprovalEntry {
                owner: owner.to_owned(),
                token_id: token.to_owned(),
                spender: spender.to_owned(),
                approval,
            };
            proof {
                assert(self.pairs() =~= oldpairs.update(
                    i as int,
                    (oldpairs[i as int].0, approval),
                ));
            }
        } else {
            proof {
                lemma_map_of_absent(oldpairs, (owner@, token@, spender@));
                lemma_sorted_insert(
                    oldpairs,
                    i as int,
                    (owner@, token@, spender@),
                    approval,
                    triple_order(),
                );
                lemma_map_of_insert(oldpairs, i as int, (owner@, token@, spender@), approval);
            }
            self.entries.insert(
                i,
                ApprovalEntry {
                    owner: owner.to_owned(),
                    token_id: token.to_owned(),
                    spender: spender.to_owned(),
                    approval,
                },
            );
            proof {
                assert(self.pairs() =~= oldpairs.insert(
                    i as int,
                    ((owner@, token@, spender@), approval),
                ));
            }
        }
    }

    /// Deletes the record if present; an idempotent no-op when absent.
    pub fn remove(&mut self, owner: &str, token: &str, spender: &str)
        requires
            old(self).wf(),
        ensures
            final(self).wf(),
            final(self)@ == old(self)@.remove((owner@, token@, spender@)),
    {
        let (i, found) = self.locate(owner, token, spender);
        let ghost oldpairs = self.pairs();
        proof {
            self.lemma_unique();
        }
        if found {
            proof {
                lemma_sorted_remove(oldpairs, i as int, triple_order());
                lemma_map_of_remove(oldpairs, i as int);
            }
            self.entries.remove(i);
            proof {
                assert(self.pairs() =~= oldpairs.remove(i as int));
            }
        } else {
            proof {
                lemma_map_of_absent(oldpairs, (owner@, token@, spender@));
                assert(self@ =~= self@.remove((owner@, token@, spender@)));
            }
        }
    }
}

} // verus!
