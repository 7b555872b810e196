use vstd::prelude::*;

use crate::assoc::{
    keys_unique, lemma_map_of_absent, lemma_map_of_index, lemma_map_of_insert, lemma_map_of_remove,
    lemma_map_of_update, lemma_sorted_insert, lemma_sorted_remove, lemma_sorted_unique,
    lemma_sorted_update, map_of, sorted_by,
};
use crate::expiration::{BlockInfo, Expiration};
use crate::lex::{key2_compare, key2_lt, lemma_pair_order_strict, pair_order, StrOrder};

verus! {

/// One blanket operator grant: (owner, operator) → expiration.
pub struct OperatorEntry {
    pub owner: String,
    pub operator: String,
    pub expiration: Expiration,
}

/// Blanket per-owner operator grants, keyed by (owner, operator), kept
/// strictly sorted. A record exists only while granted; expired records may
/// linger until overwritten or revoked, but never authorize anything.
pub struct OperatorStore {
    pub entries: Vec<OperatorEntry>,
}

impl View for OperatorStore {
    type V = Map<(Seq<char>, Seq<char>), Expiration>;

    open spec fn view(&self) -> Map<(Seq<char>, Seq<char>), Expiration> {
        map_of(self.pairs())
    }
}

impl OperatorStore {
    /// The entries as key-value pairs over their views.
    pub open spec fn pairs(&self) -> Seq<((Seq<char>, Seq<char>), Expiration)> {
        self.entries@.map(|i: int, e: OperatorEntry| ((e.owner@, e.operator@), e.expiration))
    }

    /// Strictly sorted by (owner, operator).
    pub open spec fn wf(&self) -> bool {
        sorted_by(self.pairs(), pair_order())
    }

    /// Whether `operator` holds a live blanket grant from `owner` at `env`.
    pub open spec fn spec_is_approved(
        &self,
        owner: Seq<char>,
        operator: Seq<char>,
        env: BlockInfo,
    ) -> bool {
        self@.contains_key((owner, operator)) && !self@[(owner, operator)].spec_is_expired(&env)
    }

    pub proof fn lemma_unique(&self)
        requires
            self.wf(),
        ensures
            keys_unique(self.pairs()),
    {
        lemma_pair_order_strict();
        lemma_sorted_unique(self.pairs(), pair_order());
    }

    /// An empty operator store.
    pub fn new() -> (s: Self)
        ensures
            s.wf(),
            s@ == Map::<(Seq<char>, Seq<char>), Expiration>::empty(),
    {
        let s = OperatorStore { entries: Vec::new() };
        proof {
            assert(s.pairs() =~= Seq::<((Seq<char>, Seq<char>), Expiration)>::empty());
        }
        s
    }

    /// Finds the position of the key, or its insertion position.
    fn locate(&self, owner: &str, operator: &str) -> (r: (usize, bool))
        requires
            self.wf(),
        ensures
            r.0 <= self.entries@.len(),
            r.1 ==> r.0 < self.entries@.len() && self.pairs()[r.0 as int].0 == (
                owner@,
                operator@,
            ),
            !r.1 ==> forall|j: int|
                0 <= j < self.entries@.len() ==> (#[trigger] self.pairs()[j]).0 != (
                    owner@,
                    operator@,
                ),
            !r.1 ==> forall|j: int|
                0 <= j < r.0 ==> key2_lt(
                    (#[trigger] self.pairs()[j]).0.0,
                    self.pairs()[j].0.1,
                    owner@,
                    operator@,
                ),
            !r.1 ==> forall|j: int|
                r.0 <= j < self.entries@.len() ==> key2_lt(
                    owner@,
                    operator@,
                    (#[trigger] self.pairs()[j]).0.0,
                    self.pairs()[j].0.1,
                ),
    {
        let n = self.entries.len();
        let mut i: usize = 0;
        while i < n
            invariant
                self.wf(),
                n == self.entries@.len(),
                i <= n,
                forall|j: int|
                    0 <= j < i ==> key2_lt(
                        (#[trigger] self.pairs()[j]).0.0,
                        self.pairs()[j].0.1,
                        owner@,
                        operator@,
                    ),
            decreases n - i,
        {
            let e = &self.entries[i];
            let o = key2_compare(e.owner.as_str(), e.operator.as_str(), owner, operator);
            proof {
                assert(self.pairs()[i as int] == ((e.owner@, e.operator@), e.expiration));
            }
            match o {
                StrOrder::Less => {
                    i = i + 1;
                }
                StrOrder::Equal => {
                    return (i, true);
                }
                StrOrder::Greater => {
                    proof {
                        lemma_pair_order_strict();
                        let ord = pair_order();
                        assert forall|j: int| i <= j < n implies key2_lt(
                            owner@,
                            operator@,
                            (#[trigger] self.pairs()[j]).0.0,
                            self.pairs()[j].0.1,
                        ) by {
                            if j > i {
                                assert(ord(self.pairs()[i as int].0, self.pairs()[j].0));
                                assert(ord((owner@, operator@), self.pairs()[i as int].0));
                            }
                        }
                        assert forall|j: int| 0 <= j < n implies (#[trigger] self.pairs()[j]).0
                            != (owner@, operator@) by {
                            if j < i {
                                assert(ord(self.pairs()[j].0, (owner@, operator@)));
                            } else {
                                assert(ord((owner@, operator@), self.pairs()[j].0));
                            }
                        }
                    }
                    return (i, false);
                }
            }
        }
        proof {
            lemma_pair_order_strict();
            let ord = pair_order();
            assert forall|j: int| 0 <= j < n implies (#[trigger] self.pairs()[j]).0 != (
                owner@,
                operator@,
            ) by {
                assert(ord(self.pairs()[j].0, (owner@, operator@)));
            }
        }
        (n, false)
    }

    /// The stored grant, expired or not; `None` when no record exists.
    pub fn get(&self, owner: &str, operator: &str) -> (r: Option<Expiration>)
        requires
            self.wf(),
        ensures
            match r {
                Some(e) => self@.contains_key((owner@, operator@)) && e == self@[(
                    owner@,
                    operator@,
                )],
                None => !self@.contains_key((owner@, operator@)),
            },
    {
        let (i, found) = self.locate(owner, operator);
        if found {
            proof {
                self.lemma_unique();
                lemma_map_of_index(self.pairs(), i as int);
            }
            Some(self.entries[i].expiration)
        } else {
            proof {
                lemma_map_of_absent(self.pairs(), (owner@, operator@));
            }
            None
        }
    }

    /// Whether `operator` holds a live blanket grant from `owner` at `env`.
    pub fn is_approved(&self, owner: &str, operator: &str, env: &BlockInfo) -> (r: bool)
        requires
            self.wf(),
        ensures
            r == self.spec_is_approved(owner@, operator@, *env),
    {
        match self.get(owner, operator) {
            Some(expiration) => !expiration.is_expired(env),
            None => false,
        }
    }

    /// Writes the grant, overwriting any prior expiration for the pair.
    pub fn set(&mut self, owner: &str, operator: &str, expiration: Expiration)
        requires
            old(self).wf(),
        ensures
            final(self).wf(),
            final(self)@ == old(self)@.insert((owner@, operator@), expiration),
    {
        let (i, found) = self.locate(owner, operator);
        let ghost oldpairs = self.pairs();
        proof {
            self.lemma_unique();
        }
        if found {
            proof {
                lemma_sorted_update(oldpairs, i as int, expiration, pair_order());
                lemma_map_of_update(oldpairs, i as int, expiration);
            }
            self.entries[i] = OperatorEntry {
                owner: owner.to_owned(),
                operator: operator.to_owned(),
                expiration,
            };
            proof {
                assert(self.pairs() =~= oldpairs.update(
                    i as int,
                    (oldpairs[i as int].0, expiration),
                ));
            }
        } else {
            proof {
                lemma_map_of_absent(oldpairs, (owner@, operator@));
                lemma_sorted_insert(oldpairs, i as int, (owner@, operator@), expiration, pair_order());
                lemma_map_of_insert(oldpairs, i as int, (owner@, operator@), expiration);
            }
            self.entries.insert(
                i,
                OperatorEntry {
                    owner: owner.to_owned(),
                    operator: operator.to_owned(),
                    expiration,
                },
            );
            proof {
                assert(self.pairs() =~= oldpairs.insert(
                    i as int,
                    ((owner@, operator@), expiration),
                ));
            }
        }
    }

    /// Deletes the grant if present; an idempotent no-op when absent.
    pub fn remove(&mut self, owner: &str, operator: &str)
        requires
            old(self).wf(),
        ensures
            final(self).wf(),
            final(self)@ == old(self)@.remove((owner@, operator@)),
    {
        let (i, found) = self.locate(owner, operator);
        let ghost oldpairs = self.pairs();
        proof {
            self.lemma_unique();
        }
        if found {
            proof {
                lemma_sorted_remove(oldpairs, i as int, pair_order());
                lemma_map_of_remove(oldpairs, i as int);
            }
            self.entries.remove(i);
            proof {
                assert(self.pairs() =~= oldpairs.remove(i as int));
            }
        } else {
            proof {
                lemma_map_of_absent(oldpairs, (owner@, operator@));
                assert(self@ =~= self@.remove((owner@, operator@)));
            }
        }
    }
}

} // verus!
