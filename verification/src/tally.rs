use vstd::prelude::*;

use crate::assoc::{
    keys_unique, lemma_map_of_absent, lemma_map_of_index, lemma_map_of_insert, lemma_map_of_update,
    map_of,
};
use crate::lex::{str_compare, StrOrder};

verus! {

/// A per-token running total, used while a batch is validated: amounts for
/// a repeated token id are aggregated here before any check. Entries stay
/// in order of first occurrence.
pub struct Tally {
    pub entries: Vec<(String, u128)>,
}

impl View for Tally {
    type V = Map<Seq<char>, u128>;

    open spec fn view(&self) -> Map<Seq<char>, u128> {
        map_of(self.pairs())
    }
}

impl Tally {
    /// The entries as key-value pairs over their views.
    pub open spec fn pairs(&self) -> Seq<(Seq<char>, u128)> {
        self.entries@.map(|i: int, e: (String, u128)| (e.0@, e.1))
    }

    /// No token appears twice.
    pub open spec fn wf(&self) -> bool {
        keys_unique(self.pairs())
    }

    /// The running total of a token; zero when not yet seen.
    pub open spec fn amt(&self, token: Seq<char>) -> u128 {
        if self@.contains_key(token) {
            self@[token]
        } else {
            0
        }
    }

    /// An empty tally.
    pub fn new() -> (t: Self)
        ensures
            t.wf(),
            t@ == Map::<Seq<char>, u128>::empty(),
            t.pairs() =~= Seq::<(Seq<char>, u128)>::empty(),
    {
        let t = Tally { entries: Vec::new() };
        proof {
            assert(t.pairs() =~= Seq::<(Seq<char>, u128)>::empty());
        }
        t
    }

    /// Finds the entry for a token, if any.
    fn locate(&self, token: &str) -> (r: (usize, bool))
        ensures
            r.1 ==> r.0 < self.entries@.len() && self.pairs()[r.0 as int].0 == token@,
            !r.1 ==> forall|j: int|
                0 <= j < self.entries@.len() ==> (#[trigger] self.pairs()[j]).0 != token@,
    {
        let n = self.entries.len();
        let mut i: usize = 0;
        while i < n
            invariant
                n == self.entries@.len(),
                i <= n,
                forall|j: int| 0 <= j < i ==> (#[trigger] self.pairs()[j]).0 != token@,
            decreases n - i,
        {
            let eq = matches!(str_compare(self.entries[i].0.as_str(), token), StrOrder::Equal);
            proof {
                assert(self.pairs()[i as int].0 == self.entries@[i as int].0@);
            }
            if eq {
                return (i, true);
            }
            i = i + 1;
        }
        (n, false)
    }

    /// The running total of a token; zero when not yet seen.
    pub fn get(&self, token: &str) -> (amount: u128)
        requires
            self.wf(),
        ensures
            amount == self.amt(token@),
    {
        let (i, found) = self.locate(token);
        if found {
            proof {
                lemma_map_of_index(self.pairs(), i as int);
            }
            self.entries[i].1
        } else {
            proof {
                lemma_map_of_absent(self.pairs(), token@);
            }
            0
        }
    }

    /// Adds to a token's running total, creating the entry at its first
    /// occurrence.
    pub fn bump(&mut self, token: &str, add: u128)
        requires
            old(self).wf(),
            old(self).amt(token@) + add <= u128::MAX,
        ensures
            final(self).wf(),
            final(self)@ == old(self)@.insert(token@, (old(self).amt(token@) + add) as u128),
            forall|t2: Seq<char>| #[trigger]
                final(self).amt(t2) == if t2 == token@ {
                    (old(self).amt(token@) + add) as u128
                } else {
                    old(self).amt(t2)
                },
            forall|t2: Seq<char>| #[trigger]
                final(self)@.contains_key(t2) == (old(self)@.contains_key(t2) || t2 == token@),
            old(self)@.contains_key(token@) ==> final(self).pairs().len() == old(
                self,
            ).pairs().len(),
            !old(self)@.contains_key(token@) ==> final(self).pairs().len() == old(
                self,
            ).pairs().len() + 1 && final(self).pairs()[old(self).pairs().len() as int].0 == token@,
            forall|j: int|
                0 <= j < old(self).pairs().len() ==> (#[trigger] final(self).pairs()[j]).0 == old(
                    self,
                ).pairs()[j].0,
    {
        let (i, found) = self.locate(token);
        let ghost oldpairs = self.pairs();
        if found {
            proof {
                lemma_map_of_index(oldpairs, i as int);
            }
            let total = self.entries[i].1 + add;
            self.entries[i] = (token.to_owned(), total);
            proof {
                assert(self.pairs() =~= oldpairs.update(i as int, (oldpairs[i as int].0, total)));
                lemma_map_of_update(oldpairs, i as int, total);
                assert forall|a: int, b: int|
                    #![trigger self.pairs()[a], self.pairs()[b]]
                    0 <= a < b < self.pairs().len() implies self.pairs()[a].0
                    != self.pairs()[b].0 by {
                    assert(self.pairs()[a].0 == oldpairs[a].0);
                    assert(self.pairs()[b].0 == oldpairs[b].0);
                    assert(oldpairs[a].0 != oldpairs[b].0);
                }
            }
        } else {
            proof {
                lemma_map_of_absent(oldpairs, token@);
                lemma_map_of_insert(oldpairs, oldpairs.len() as int, token@, add);
            }
            self.entries.push((token.to_owned(), add));
            proof {
                assert(self.pairs() =~= oldpairs.insert(oldpairs.len() as int, (token@, add)));
                assert(oldpairs.insert(oldpairs.len() as int, (token@, add)) =~= oldpairs.push(
                    (token@, add),
                ));
                assert forall|a: int, b: int|
                    #![trigger self.pairs()[a], self.pairs()[b]]
                    0 <= a < b < self.pairs().len() implies self.pairs()[a].0
                    != self.pairs()[b].0 by {
                    if b < oldpairs.len() {
                        assert(oldpairs[a].0 != oldpairs[b].0);
                    }
                }
            }
        }
    }

    /// How many distinct tokens have been tallied.
    pub fn len(&self) -> (n: usize)
        ensures
            n == self.pairs().len(),
    {
        self.entries.len()
    }

    /// The token at one position, in order of first occurrence.
    pub fn token_at(&self, i: usize) -> (t: &String)
        requires
            i < self.pairs().len(),
        ensures
            t@ == self.pairs()[i as int].0,
    {
        &self.entries[i].0
    }

    /// The total at one position.
    pub fn amount_at(&self, i: usize) -> (a: u128)
        requires
            i < self.pairs().len(),
        ensures
            a == self.pairs()[i as int].1,
    {
        self.entries[i].1
    }
}

} // verus!
