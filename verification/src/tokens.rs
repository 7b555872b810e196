use vstd::prelude::*;

use crate::assoc::{
    keys_unique, lemma_map_of_absent, lemma_map_of_index, lemma_map_of_insert, lemma_map_of_update,
    lemma_sorted_insert, lemma_sorted_unique, lemma_sorted_update, map_of, sorted_by,
};
use crate::lex::{lemma_str_order_strict, str_compare, str_lt, str_order, StrOrder};
use vstd::pervasive::VecAdditionalExecFns;

verus! {

/// What the ledger remembers of one token kind: its outstanding supply and
/// the metadata fixed by its first successful mint. The metadata is an
/// opaque payload to the ledger: a URI and an uninterpreted extension blob,
/// carried through without validation.
pub struct TokenEntry {
    pub token_id: String,
    pub supply: u128,
    pub token_uri: Option<String>,
    pub extension: Option<Vec<u8>>,
}

/// The spec-level value of a token record.
pub struct TokenInfoV {
    pub supply: u128,
    pub token_uri: Option<Seq<char>>,
    pub extension: Option<Seq<u8>>,
}

/// Per-token outstanding-unit counters and write-once metadata, keyed by
/// token id, kept strictly sorted.
pub struct TokenStore {
    pub entries: Vec<TokenEntry>,
}

impl View for TokenStore {
    type V = Map<Seq<char>, TokenInfoV>;

    open spec fn view(&self) -> Map<Seq<char>, TokenInfoV> {
        map_of(self.pairs())
    }
}

/// The spec view of one entry's value.
pub open spec fn entry_value(e: TokenEntry) -> TokenInfoV {
    TokenInfoV { supply: e.supply, token_uri: e.token_uri.deep_view(), extension: e.extension.deep_view() }
}

/// Sum of the recorded supplies across all tokens.
pub open spec fn supply_sum(s: Seq<(Seq<char>, TokenInfoV)>) -> int
    decreases s.len(),
{
    if s.len() == 0 {
        0
    } else {
        supply_sum(s.drop_last()) + s.last().1.supply as int
    }
}

/// Supply sums are non-negative.
pub proof fn lemma_supply_sum_nonneg(s: Seq<(Seq<char>, TokenInfoV)>)
    ensures
        supply_sum(s) >= 0,
    decreases s.len(),
{
    if s.len() > 0 {
        lemma_supply_sum_nonneg(s.drop_last());
    }
}

/// The total supply never drops below any single token's supply.
pub proof fn lemma_supply_sum_element(s: Seq<(Seq<char>, TokenInfoV)>, i: int)
    requires
        0 <= i < s.len(),
    ensures
        supply_sum(s) >= s[i].1.supply,
    decreases s.len(),
{
    if i < s.len() - 1 {
        lemma_supply_sum_element(s.drop_last(), i);
    } else {
        lemma_supply_sum_nonneg(s.drop_last());
    }
}

/// Inserting an entry adds its supply to the total.
pub proof fn lemma_supply_sum_insert(s: Seq<(Seq<char>, TokenInfoV)>, pos: int, k: Seq<char>, v: TokenInfoV)
    requires
        0 <= pos <= s.len(),
    ensures
        supply_sum(s.insert(pos, (k, v))) == supply_sum(s) + v.supply,
    decreases s.len(),
{
    let t = s.insert(pos, (k, v));
    if pos == s.len() {
        assert(t.drop_last() =~= s);
        assert(t.last() == (k, v));
    } else {
        assert(t.last() == s.last());
        assert(t.drop_last() =~= s.drop_last().insert(pos, (k, v)));
        lemma_supply_sum_insert(s.drop_last(), pos, k, v);
    }
}

/// Replacing the value at one position shifts the total by the difference of
/// supplies.
pub proof fn lemma_supply_sum_update(s: Seq<(Seq<char>, TokenInfoV)>, pos: int, v: TokenInfoV)
    requires
        0 <= pos < s.len(),
    ensures
        supply_sum(s.update(pos, (s[pos].0, v))) == supply_sum(s) + v.supply - s[pos].1.supply,
    decreases s.len(),
{
    let t = s.update(pos, (s[pos].0, v));
    if pos == s.len() - 1 {
        assert(t.drop_last() =~= s.drop_last());
        assert(t.last() == (s[pos].0, v));
    } else {
        assert(t.last() == s.last());
        assert(t.drop_last() =~= s.drop_last().update(pos, (s[pos].0, v)));
        lemma_supply_sum_update(s.drop_last(), pos, v);
    }
}

impl TokenStore {
    /// The entries as key-value pairs over their views.
    pub open spec fn pairs(&self) -> Seq<(Seq<char>, TokenInfoV)> {
        self.entries@.map(|i: int, e: TokenEntry| (e.token_id@, entry_value(e)))
    }

    /// Strictly sorted by token id.
    pub open spec fn wf(&self) -> bool {
        sorted_by(self.pairs(), str_order())
    }

    /// The outstanding supply of a token; zero when never minted.
    pub open spec fn spec_supply(&self, token: Seq<char>) -> u128 {
        if self@.contains_key(token) {
            self@[token].supply
        } else {
            0
        }
    }

    /// Sum of the supplies of all tokens on record.
    pub open spec fn spec_supply_sum(&self) -> int {
        supply_sum(self.pairs())
    }

    pub proof fn lemma_unique(&self)
        requires
            self.wf(),
        ensures
            keys_unique(self.pairs()),
    {
        lemma_str_order_strict();
        lemma_sorted_unique(self.pairs(), str_order());
    }

    /// An empty token store.
    pub fn new() -> (s: Self)
        ensures
            s.wf(),
            s@ == Map::<Seq<char>, TokenInfoV>::empty(),
            s.pairs() =~= Seq::<(Seq<char>, TokenInfoV)>::empty(),
    {
        let s = TokenStore { entries: Vec::new() };
        proof {
            assert(s.pairs() =~= Seq::<(Seq<char>, TokenInfoV)>::empty());
        }
        s
    }

    /// Finds the position of the token, or its insertion position.
    fn locate(&self, token: &str) -> (r: (usize, bool))
        requires
            self.wf(),
        ensures
            r.0 <= self.entries@.len(),
            r.1 ==> r.0 < self.entries@.len() && self.pairs()[r.0 as int].0 == token@,
            !r.1 ==> forall|j: int|
                0 <= j < self.entries@.len() ==> (#[trigger] self.pairs()[j]).0 != token@,
            !r.1 ==> forall|j: int|
                0 <= j < r.0 ==> str_lt((#[trigger] self.pairs()[j]).0, token@),
            !r.1 ==> forall|j: int|
                r.0 <= j < self.entries@.len() ==> str_lt(token@, (#[trigger] self.pairs()[j]).0),
    {
        let n = self.entries.len();
        let mut i: usize = 0;
        while i < n
            invariant
                self.wf(),
                n == self.entries@.len(),
                i <= n,
                forall|j: int| 0 <= j < i ==> str_lt((#[trigger] self.pairs()[j]).0, token@),
            decreases n - i,
        {
            let e = &self.entries[i];
            let o = str_compare(e.token_id.as_str(), token);
            proof {
                assert(self.pairs()[i as int] == (e.token_id@, entry_value(*e)));
            }
            match o {
                StrOrder::Less => {
                    i = i + 1;
                }
                StrOrder::Equal => {
                    return (i, true);
                }
                StrOrder::Greater => {
                    proof {
                        lemma_str_order_strict();
                        let ord = str_order();
                        assert forall|j: int| i <= j < n implies str_lt(
                            token@,
                            (#[trigger] self.pairs()[j]).0,
                        ) by {
                            if j > i {
                                assert(ord(self.pairs()[i as int].0, self.pairs()[j].0));
                                assert(ord(token@, self.pairs()[i as int].0));
                            }
                        }
                        assert forall|j: int| 0 <= j < n implies (#[trigger] self.pairs()[j]).0
                            != token@ by {
                            if j < i {
                                assert(ord(self.pairs()[j].0, token@));
                            } else {
                                assert(ord(token@, self.pairs()[j].0));
                            }
                        }
                    }
                    return (i, false);
                }
            }
        }
        proof {
            lemma_str_order_strict();
            let ord = str_order();
            assert forall|j: int| 0 <= j < n implies (#[trigger] self.pairs()[j]).0 != token@ by {
                assert(ord(self.pairs()[j].0, token@));
            }
        }
        (n, false)
    }

    /// The outstanding supply of a token; zero when never minted.
    pub fn get_supply(&self, token: &str) -> (supply: u128)
        requires
            self.wf(),
        ensures
            supply == self.spec_supply(token@),
    {
        let (i, found) = self.locate(token);
        if found {
            proof {
                self.lemma_unique();
                lemma_map_of_index(self.pairs(), i as int);
            }
            self.entries[i].supply
        } else {
            proof {
                lemma_map_of_absent(self.pairs(), token@);
            }
            0
        }
    }

    /// Writes a token's supply. When the token already has a record, its
    /// metadata is left untouched and the arguments' metadata is silently
    /// ignored; a new record fixes the metadata for good.
    pub fn set_supply(
        &mut self,
        token: &str,
        supply: u128,
        token_uri: Option<String>,
        extension: Option<Vec<u8>>,
    )
        requires
            old(self).wf(),
        ensures
            final(self).wf(),
            final(self)@ == old(self)@.insert(
                token@,
                if old(self)@.contains_key(token@) {
                    TokenInfoV { supply, ..old(self)@[token@] }
                } else {
                    TokenInfoV {
                        supply,
                        token_uri: token_uri.deep_view(),
                        extension: extension.deep_view(),
                    }
                },
            ),
            final(self).spec_supply_sum() == old(self).spec_supply_sum() + supply
                - old(self).spec_supply(token@),
    {
        let (i, found) = self.locate(token);
        let ghost oldpairs = self.pairs();
        proof {
            self.lemma_unique();
        }
        if found {
            proof {
                lemma_map_of_index(oldpairs, i as int);
            }
            let ghost v = TokenInfoV { supply, ..oldpairs[i as int].1 };
            let mut held = TokenEntry {
                token_id: String::new(),
                supply: 0,
                token_uri: None,
                extension: None,
            };
            self.entries.set_and_swap(i, &mut held);
            held.supply = supply;
            self.entries.set_and_swap(i, &mut held);
            proof {
                assert(self.pairs() =~= oldpairs.update(i as int, (oldpairs[i as int].0, v)));
                lemma_sorted_update(oldpairs, i as int, v, str_order());
                lemma_map_of_update(oldpairs, i as int, v);
                lemma_supply_sum_update(oldpairs, i as int, v);
            }
        } else {
            let ghost v = TokenInfoV {
                supply,
                token_uri: token_uri.deep_view(),
                extension: extension.deep_view(),
            };
            proof {
                lemma_map_of_absent(oldpairs, token@);
                lemma_sorted_insert(oldpairs, i as int, token@, v, str_order());
                lemma_map_of_insert(oldpairs, i as int, token@, v);
                lemma_supply_sum_insert(oldpairs, i as int, token@, v);
            }
            self.entries.insert(
                i,
                TokenEntry { token_id: token.to_owned(), supply, token_uri, extension },
            );
            proof {
                assert(self.pairs() =~= oldpairs.insert(i as int, (token@, v)));
            }
        }
    }

    /// The metadata fixed at the token's first mint; `None` when the token
    /// has never been minted.
    pub fn get_metadata(&self, token: &str) -> (meta: Option<(Option<String>, Option<Vec<u8>>)>)
        requires
            self.wf(),
        ensures
            match meta {
                Some(m) => self@.contains_key(token@) && m.0.deep_view() == self@[token@].token_uri
                    && m.1.deep_view() == self@[token@].extension,
                None => !self@.contains_key(token@),
            },
    {
        let (i, found) = self.locate(token);
        if found {
            proof {
                self.lemma_unique();
                lemma_map_of_index(self.pairs(), i as int);
            }
            let e = &self.entries[i];
            let uri = match &e.token_uri {
                Some(u) => Some(u.clone()),
                None => None,
            };
            let ext = match &e.extension {
                Some(x) => Some(x.clone()),
                None => None,
            };
            proof {
                assert(uri.deep_view() == e.token_uri.deep_view());
                assert(ext.deep_view() == e.extension.deep_view());
            }
            Some((uri, ext))
        } else {
            proof {
                lemma_map_of_absent(self.pairs(), token@);
            }
            None
        }
    }
}

} // verus!
