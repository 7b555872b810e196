use vstd::prelude::*;

use crate::approvals::Approval;
use crate::expiration::{BlockInfo, Expiration};
use crate::ledger::Ledger;
use crate::lex::str_lt;

verus! {

/// Pagination bounds enforced by the stores: callers get at most
/// `MAX_LIMIT` entries per page, `DEFAULT_LIMIT` when they name no limit.
pub const DEFAULT_LIMIT: u32 = 30;

pub const MAX_LIMIT: u32 = 100;

/// The page size a query call asked for, clamped by the store's bounds.
pub open spec fn spec_page_limit(limit: Option<u32>) -> int {
    let l = match limit {
        Some(l) => l,
        None => DEFAULT_LIMIT,
    };
    if l > MAX_LIMIT {
        MAX_LIMIT as int
    } else {
        l as int
    }
}

fn page_limit(limit: Option<u32>) -> (l: usize)
    ensures
        l == spec_page_limit(limit),
{
    let l = match limit {
        Some(l) => l,
        None => DEFAULT_LIMIT,
    };
    if l > MAX_LIMIT {
        MAX_LIMIT as usize
    } else {
        l as usize
    }
}

/// Whether a cursor admits this key: no cursor admits everything, a cursor
/// admits only strictly greater keys.
pub open spec fn after_cursor(after: Option<Seq<char>>, key: Seq<char>) -> bool {
    match after {
        None => true,
        Some(a) => str_lt(a, key),
    }
}

fn check_cursor(after: Option<&str>, key: &str) -> (r: bool)
    ensures
        r == after_cursor(after.deep_view(), key@),
{
    match after {
        None => true,
        Some(a) => matches!(crate::lex::str_compare(a, key), crate::lex::StrOrder::Less),
    }
}

/// The first `lim` elements of a selection — the whole selection when it
/// is shorter.
pub open spec fn page<T>(s: Seq<T>, lim: int) -> Seq<T> {
    if lim < 0 {
        Seq::empty()
    } else if s.len() <= lim {
        s
    } else {
        s.take(lim)
    }
}

/// The live (or, when `include_expired`, all) allowance records of one
/// (owner, token) pair, as (spender, approval) pairs, in store order.
pub open spec fn sel_token_approvals(
    s: Seq<((Seq<char>, Seq<char>, Seq<char>), Approval)>,
    owner: Seq<char>,
    token: Seq<char>,
    env: BlockInfo,
    include_expired: bool,
) -> Seq<(Seq<char>, Approval)>
    decreases s.len(),
{
    if s.len() == 0 {
        Seq::empty()
    } else {
        let rest = sel_token_approvals(s.drop_last(), owner, token, env, include_expired);
        let e = s.last();
        if e.0.0 == owner && e.0.1 == token && (include_expired
            || !e.1.expiration.spec_is_expired(&env)) {
            rest.push((e.0.2, e.1))
        } else {
            rest
        }
    }
}

/// The live (or all) operator grants of one owner past the cursor, as
/// (operator, expiration) pairs, in store order.
pub open spec fn sel_operators(
    s: Seq<((Seq<char>, Seq<char>), Expiration)>,
    owner: Seq<char>,
    env: BlockInfo,
    include_expired: bool,
    after: Option<Seq<char>>,
) -> Seq<(Seq<char>, Expiration)>
    decreases s.len(),
{
    if s.len() == 0 {
        Seq::empty()
    } else {
        let rest = sel_operators(s.drop_last(), owner, env, include_expired, after);
        let e = s.last();
        if e.0.0 == owner && (include_expired || !e.1.spec_is_expired(&env)) && after_cursor(
            after,
            e.0.1,
        ) {
            rest.push((e.0.1, e.1))
        } else {
            rest
        }
    }
}

/// The balance records of one token past the owner cursor, as
/// (owner, amount) pairs, in store order.
pub open spec fn sel_balances(
    s: Seq<((Seq<char>, Seq<char>), u128)>,
    token: Seq<char>,
    after: Option<Seq<char>>,
) -> Seq<(Seq<char>, u128)>
    decreases s.len(),
{
    if s.len() == 0 {
        Seq::empty()
    } else {
        let rest = sel_balances(s.drop_last(), token, after);
        let e = s.last();
        if e.0.1 == token && after_cursor(after, e.0.0) {
            rest.push((e.0.0, e.1))
        } else {
            rest
        }
    }
}

/// The token ids of one owner's balance records past the cursor, in store
/// order.
pub open spec fn sel_owner_tokens(
    s: Seq<((Seq<char>, Seq<char>), u128)>,
    owner: Seq<char>,
    after: Option<Seq<char>>,
) -> Seq<Seq<char>>
    decreases s.len(),
{
    if s.len() == 0 {
        Seq::empty()
    } else {
        let rest = sel_owner_tokens(s.drop_last(), owner, after);
        let e = s.last();
        if e.0.0 == owner && after_cursor(after, e.0.1) {
            rest.push(e.0.1)
        } else {
            rest
        }
    }
}

/// The ids of all tokens on record past the cursor, in store order.
pub open spec fn sel_all_tokens(
    s: Seq<(Seq<char>, crate::tokens::TokenInfoV)>,
    after: Option<Seq<char>>,
) -> Seq<Seq<char>>
    decreases s.len(),
{
    if s.len() == 0 {
        Seq::empty()
    } else {
        let rest = sel_all_tokens(s.drop_last(), after);
        let e = s.last();
        if after_cursor(after, e.0) {
            rest.push(e.0)
        } else {
            rest
        }
    }
}

/// A selection from a store sorted by (owner, operator) with the owner
/// fixed lists its operators in strictly ascending order.
pub proof fn lemma_sel_operators_sorted(
    s: Seq<((Seq<char>, Seq<char>), Expiration)>,
    owner: Seq<char>,
    env: BlockInfo,
    include_expired: bool,
    after: Option<Seq<char>>,
)
    requires
        crate::assoc::sorted_by(s, crate::lex::pair_order()),
    ensures
        ({
            let r = sel_operators(s, owner, env, include_expired, after);
            &&& forall|a: int|
                0 <= a < r.len() ==> exists|j: int|
                    0 <= j < s.len() && (#[trigger] s[j]).0 == (owner, (#[trigger] r[a]).0)
            &&& forall|a: int, b: int|
                0 <= a < b < r.len() ==> str_lt((#[trigger] r[a]).0, (#[trigger] r[b]).0)
        }),
    decreases s.len(),
{
    let ord = crate::lex::pair_order();
    if s.len() > 0 {
        let dl = s.drop_last();
        assert(crate::assoc::sorted_by(dl, ord)) by {
            assert forall|i: int, j: int| 0 <= i < j < dl.len() implies #[trigger] ord(
                dl[i].0,
                dl[j].0,
            ) by {
                assert(ord(s[i].0, s[j].0));
            }
        }
        lemma_sel_operators_sorted(dl, owner, env, include_expired, after);
        let r0 = sel_operators(dl, owner, env, include_expired, after);
        let r = sel_operators(s, owner, env, include_expired, after);
        let e = s.last();
        assert forall|a: int| 0 <= a < r.len() implies exists|j: int|
            0 <= j < s.len() && (#[trigger] s[j]).0 == (owner, (#[trigger] r[a]).0) by {
            if a < r0.len() {
                assert(r[a] == r0[a]);
                let j = choose|j: int| 0 <= j < dl.len() && (#[trigger] dl[j]).0 == (owner, r0[a].0);
                assert(s[j].0 == (owner, r[a].0));
            } else {
                assert(s[s.len() - 1].0 == (owner, r[a].0));
            }
        }
        assert forall|a: int, b: int| 0 <= a < b < r.len() implies str_lt(
            (#[trigger] r[a]).0,
            (#[trigger] r[b]).0,
        ) by {
            if b < r0.len() {
                assert(r[a] == r0[a]);
                assert(r[b] == r0[b]);
            } else if b == r0.len() && r.len() > r0.len() {
                assert(r[a] == r0[a]);
                assert(r[b] == (e.0.1, e.1));
                let j = choose|j: int| 0 <= j < dl.len() && (#[trigger] dl[j]).0 == (owner, r0[a].0);
                assert(ord(s[j].0, e.0));
                crate::lex::lemma_str_lt_trichotomy(owner, owner);
            }
        }
    }
}

/// A selection from a store sorted by (owner, token, spender) with the
/// owner and token fixed lists its spenders in strictly ascending order.
pub proof fn lemma_sel_token_approvals_sorted(
    s: Seq<((Seq<char>, Seq<char>, Seq<char>), Approval)>,
    owner: Seq<char>,
    token: Seq<char>,
    env: BlockInfo,
    include_expired: bool,
)
    requires
        crate::assoc::sorted_by(s, crate::lex::triple_order()),
    ensures
        ({
            let r = sel_token_approvals(s, owner, token, env, include_expired);
            &&& forall|a: int|
                0 <= a < r.len() ==> exists|j: int|
                    0 <= j < s.len() && (#[trigger] s[j]).0 == (owner, token, (#[trigger] r[a]).0)
            &&& forall|a: int, b: int|
                0 <= a < b < r.len() ==> str_lt((#[trigger] r[a]).0, (#[trigger] r[b]).0)
        }),
    decreases s.len(),
{
    let ord = crate::lex::triple_order();
    if s.len() > 0 {
        let dl = s.drop_last();
        assert(crate::assoc::sorted_by(dl, ord)) by {
            assert forall|i: int, j: int| 0 <= i < j < dl.len() implies #[trigger] ord(
                dl[i].0,
                dl[j].0,
            ) by {
                assert(ord(s[i].0, s[j].0));
            }
        }
        lemma_sel_token_approvals_sorted(dl, owner, token, env, include_expired);
        let r0 = sel_token_approvals(dl, owner, token, env, include_expired);
        let r = sel_token_approvals(s, owner, token, env, include_expired);
        let e = s.last();
        assert forall|a: int| 0 <= a < r.len() implies exists|j: int|
            0 <= j < s.len() && (#[trigger] s[j]).0 == (owner, token, (#[trigger] r[a]).0) by {
            if a < r0.len() {
                assert(r[a] == r0[a]);
                let j = choose|j: int|
                    0 <= j < dl.len() && (#[trigger] dl[j]).0 == (owner, token, r0[a].0);
                assert(s[j].0 == (owner, token, r[a].0));
            } else {
                assert(s[s.len() - 1].0 == (owner, token, r[a].0));
            }
        }
        assert forall|a: int, b: int| 0 <= a < b < r.len() implies str_lt(
            (#[trigger] r[a]).0,
            (#[trigger] r[b]).0,
        ) by {
            if b < r0.len() {
                assert(r[a] == r0[a]);
                assert(r[b] == r0[b]);
            } else if b == r0.len() && r.len() > r0.len() {
                assert(r[a] == r0[a]);
                assert(r[b] == (e.0.2, e.1));
                let j = choose|j: int|
                    0 <= j < dl.len() && (#[trigger] dl[j]).0 == (owner, token, r0[a].0);
                assert(ord(s[j].0, e.0));
                crate::lex::lemma_str_lt_trichotomy(owner, owner);
                crate::lex::lemma_str_lt_trichotomy(token, token);
            }
        }
    }
}

/// A selection from the balance store with the token fixed lists its
/// owners in strictly ascending order.
pub proof fn lemma_sel_balances_sorted(
    s: Seq<((Seq<char>, Seq<char>), u128)>,
    token: Seq<char>,
    after: Option<Seq<char>>,
)
    requires
        crate::assoc::sorted_by(s, crate::lex::pair_order()),
    ensures
        ({
            let r = sel_balances(s, token, after);
            &&& forall|a: int|
                0 <= a < r.len() ==> exists|j: int|
                    0 <= j < s.len() && (#[trigger] s[j]).0 == ((#[trigger] r[a]).0, token)
            &&& forall|a: int, b: int|
                0 <= a < b < r.len() ==> str_lt((#[trigger] r[a]).0, (#[trigger] r[b]).0)
        }),
    decreases s.len(),
{
    let ord = crate::lex::pair_order();
    if s.len() > 0 {
        let dl = s.drop_last();
        assert(crate::assoc::sorted_by(dl, ord)) by {
            assert forall|i: int, j: int| 0 <= i < j < dl.len() implies #[trigger] ord(
                dl[i].0,
                dl[j].0,
            ) by {
                assert(ord(s[i].0, s[j].0));
            }
        }
        lemma_sel_balances_sorted(dl, token, after);
        let r0 = sel_balances(dl, token, after);
        let r = sel_balances(s, token, after);
        let e = s.last();
        assert forall|a: int| 0 <= a < r.len() implies exists|j: int|
            0 <= j < s.len() && (#[trigger] s[j]).0 == ((#[trigger] r[a]).0, token) by {
            if a < r0.len() {
                assert(r[a] == r0[a]);
                let j = choose|j: int| 0 <= j < dl.len() && (#[trigger] dl[j]).0 == (r0[a].0, token);
                assert(s[j].0 == (r[a].0, token));
            } else {
                assert(s[s.len() - 1].0 == (r[a].0, token));
            }
        }
        assert forall|a: int, b: int| 0 <= a < b < r.len() implies str_lt(
            (#[trigger] r[a]).0,
            (#[trigger] r[b]).0,
        ) by {
            if b < r0.len() {
                assert(r[a] == r0[a]);
                assert(r[b] == r0[b]);
            } else if b == r0.len() && r.len() > r0.len() {
                assert(r[a] == r0[a]);
                assert(r[b] == (e.0.0, e.1));
                let j = choose|j: int| 0 <= j < dl.len() && (#[trigger] dl[j]).0 == (r0[a].0, token);
                assert(ord(s[j].0, e.0));
                crate::lex::lemma_str_lt_trichotomy(token, token);
            }
        }
    }
}

/// A selection from the balance store with the owner fixed lists their
/// token ids in strictly ascending order.
pub proof fn lemma_sel_owner_tokens_sorted(
    s: Seq<((Seq<char>, Seq<char>), u128)>,
    owner: Seq<char>,
    after: Option<Seq<char>>,
)
    requires
        crate::assoc::sorted_by(s, crate::lex::pair_order()),
    ensures
        ({
            let r = sel_owner_tokens(s, owner, after);
            &&& forall|a: int|
                0 <= a < r.len() ==> exists|j: int|
                    0 <= j < s.len() && (#[trigger] s[j]).0 == (owner, #[trigger] r[a])
            &&& forall|a: int, b: int|
                0 <= a < b < r.len() ==> str_lt(#[trigger] r[a], #[trigger] r[b])
        }),
    decreases s.len(),
{
    let ord = crate::lex::pair_order();
    if s.len() > 0 {
        let dl = s.drop_last();
        assert(crate::assoc::sorted_by(dl, ord)) by {
            assert forall|i: int, j: int| 0 <= i < j < dl.len() implies #[trigger] ord(
                dl[i].0,
                dl[j].0,
            ) by {
                assert(ord(s[i].0, s[j].0));
            }
        }
        lemma_sel_owner_tokens_sorted(dl, owner, after);
        let r0 = sel_owner_tokens(dl, owner, after);
        let r = sel_owner_tokens(s, owner, after);
        let e = s.last();
        assert forall|a: int| 0 <= a < r.len() implies exists|j: int|
            0 <= j < s.len() && (#[trigger] s[j]).0 == (owner, #[trigger] r[a]) by {
            if a < r0.len() {
                assert(r[a] == r0[a]);
                let j = choose|j: int| 0 <= j < dl.len() && (#[trigger] dl[j]).0 == (owner, r0[a]);
                assert(s[j].0 == (owner, r[a]));
            } else {
                assert(s[s.len() - 1].0 == (owner, r[a]));
            }
        }
        assert forall|a: int, b: int| 0 <= a < b < r.len() implies str_lt(
            #[trigger] r[a],
            #[trigger] r[b],
        ) by {
            if b < r0.len() {
                assert(r[a] == r0[a]);
                assert(r[b] == r0[b]);
            } else if b == r0.len() && r.len() > r0.len() {
                assert(r[a] == r0[a]);
                assert(r[b] == e.0.1);
                let j = choose|j: int| 0 <= j < dl.len() && (#[trigger] dl[j]).0 == (owner, r0[a]);
                assert(ord(s[j].0, e.0));
                crate::lex::lemma_str_lt_trichotomy(owner, owner);
            }
        }
    }
}

/// A selection from the token store lists the token ids in strictly
/// ascending order.
pub proof fn lemma_sel_all_tokens_sorted(
    s: Seq<(Seq<char>, crate::tokens::TokenInfoV)>,
    after: Option<Seq<char>>,
)
    requires
        crate::assoc::sorted_by(s, crate::lex::str_order()),
    ensures
        ({
            let r = sel_all_tokens(s, after);
            forall|a: int, b: int|
                0 <= a < b < r.len() ==> str_lt(#[trigger] r[a], #[trigger] r[b])
        }),
        forall|a: int|
            0 <= a < sel_all_tokens(s, after).len() ==> exists|j: int|
                0 <= j < s.len() && (#[trigger] s[j]).0 == #[trigger] sel_all_tokens(s, after)[a],
    decreases s.len(),
{
    let ord = crate::lex::str_order();
    if s.len() > 0 {
        let dl = s.drop_last();
        assert(crate::assoc::sorted_by(dl, ord)) by {
            assert forall|i: int, j: int| 0 <= i < j < dl.len() implies #[trigger] ord(
                dl[i].0,
                dl[j].0,
            ) by {
                assert(ord(s[i].0, s[j].0));
            }
        }
        lemma_sel_all_tokens_sorted(dl, after);
        let r0 = sel_all_tokens(dl, after);
        let r = sel_all_tokens(s, after);
        let e = s.last();
        assert forall|a: int| 0 <= a < r.len() implies exists|j: int|
            0 <= j < s.len() && (#[trigger] s[j]).0 == #[trigger] r[a] by {
            if a < r0.len() {
                assert(r[a] == r0[a]);
                let j = choose|j: int| 0 <= j < dl.len() && (#[trigger] dl[j]).0 == r0[a];
                assert(s[j].0 == r[a]);
            } else {
                assert(s[s.len() - 1].0 == r[a]);
            }
        }
        assert forall|a: int, b: int| 0 <= a < b < r.len() implies str_lt(
            #[trigger] r[a],
            #[trigger] r[b],
        ) by {
            if b < r0.len() {
                assert(r[a] == r0[a]);
                assert(r[b] == r0[b]);
            } else if b == r0.len() && r.len() > r0.len() {
                assert(r[a] == r0[a]);
                assert(r[b] == e.0);
                let j = choose|j: int| 0 <= j < dl.len() && (#[trigger] dl[j]).0 == r0[a];
                assert(ord(s[j].0, e.0));
            }
        }
    }
}

impl Ledger {
    /// The balances for a batch of (owner, token id) queries, in request
    /// order. Never errors; an unknown pair reads zero.
    pub fn balance_of_batch(&self, queries: &Vec<(String, String)>) -> (r: Vec<u128>)
        requires
            self.wf(),
        ensures
            r@.len() == queries@.len(),
            forall|i: int|
                0 <= i < queries@.len() ==> r@[i] == self@.bal(
                    (#[trigger] queries@[i]).0@,
                    queries@[i].1@,
                ),
    {
        let mut r: Vec<u128> = Vec::new();
        let n = queries.len();
        let mut i: usize = 0;
        while i < n
            invariant
                i <= n,
                n == queries@.len(),
                self.wf(),
                r@.len() == i,
                forall|j: int|
                    0 <= j < i ==> r@[j] == self@.bal(
                        (#[trigger] queries@[j]).0@,
                        queries@[j].1@,
                    ),
            decreases n - i,
        {
            let q = &queries[i];
            let b = self.balances.get(q.0.as_str(), q.1.as_str());
            r.push(b);
            i = i + 1;
        }
        r
    }

    /// The stored allowance record of (owner, token, spender), expired or
    /// not; `None` when no record exists.
    pub fn allowance_of(&self, owner: &str, token: &str, spender: &str) -> (r: Option<Approval>)
        requires
            self.wf(),
        ensures
            match r {
                Some(a) => self@.approvals.contains_key((owner@, token@, spender@)) && a
                    == self@.approvals[(owner@, token@, spender@)],
                None => !self@.approvals.contains_key((owner@, token@, spender@)),
            },
    {
        self.approvals.get(owner, token, spender)
    }

    /// The metadata fixed at the token's first mint: its URI and extension
    /// blob; `None` when the token has never been minted.
    pub fn token_info(&self, token: &str) -> (meta: Option<(Option<String>, Option<Vec<u8>>)>)
        requires
            self.wf(),
        ensures
            match meta {
                Some(m) => self@.tokens.contains_key(token@) && m.0.deep_view()
                    == self@.tokens[token@].token_uri && m.1.deep_view()
                    == self@.tokens[token@].extension,
                None => !self@.tokens.contains_key(token@),
            },
    {
        self.tokens.get_metadata(token)
    }

    /// The allowance records of one (owner, token) pair — the live ones, or
    /// all of them when `include_expired` — ordered by spender.
    pub fn token_approvals(&self, env: &BlockInfo, owner: &str, token: &str, include_expired: bool)
        -> (r: Vec<(String, Approval)>)
        requires
            self.wf(),
        ensures
            r.deep_view() == sel_token_approvals(
                self.approvals.pairs(),
                owner@,
                token@,
                *env,
                include_expired,
            ),
            forall|a: int, b: int|
                0 <= a < b < r.deep_view().len() ==> str_lt(
                    (#[trigger] r.deep_view()[a]).0,
                    (#[trigger] r.deep_view()[b]).0,
                ),
    {
        proof {
            lemma_sel_token_approvals_sorted(
                self.approvals.pairs(),
                owner@,
                token@,
                *env,
                include_expired,
            );
        }
        let n = self.approvals.entries.len();
        let mut r: Vec<(String, Approval)> = Vec::new();
        proof {
            assert(self.approvals.pairs().take(0) =~= Seq::<
                ((Seq<char>, Seq<char>, Seq<char>), Approval),
            >::empty());
            assert(r.deep_view() =~= Seq::<(Seq<char>, Approval)>::empty());
        }
        let mut i: usize = 0;
        while i < n
            invariant
                i <= n,
                n == self.approvals.entries@.len(),
                self.wf(),
                r.deep_view() == sel_token_approvals(
                    self.approvals.pairs().take(i as int),
                    owner@,
                    token@,
                    *env,
                    include_expired,
                ),
            decreases n - i,
        {
            let ghost pre = self.approvals.pairs().take(i as int);
            let ghost cur = self.approvals.pairs().take(i as int + 1);
            proof {
                assert(cur.drop_last() =~= pre);
                assert(cur.last() == self.approvals.pairs()[i as int]);
            }
            let e = &self.approvals.entries[i];
            proof {
                assert(self.approvals.pairs()[i as int] == (
                    (e.owner@, e.token_id@, e.spender@),
                    e.approval,
                ));
            }
            let owner_eq = matches!(
                crate::lex::str_compare(e.owner.as_str(), owner),
                crate::lex::StrOrder::Equal
            );
            let token_eq = matches!(
                crate::lex::str_compare(e.token_id.as_str(), token),
                crate::lex::StrOrder::Equal
            );
            if owner_eq && token_eq && (include_expired || !e.approval.expiration.is_expired(env)) {
                let ghost prev = r.deep_view();
                r.push((e.spender.clone(), e.approval));
                proof {
                    assert(r.deep_view() =~= prev.push((e.spender@, e.approval)));
                }
            }
            i = i + 1;
        }
        proof {
            assert(self.approvals.pairs().take(n as int) =~= self.approvals.pairs());
        }
        r
    }

    /// The operator grants of one owner — the live ones, or all of them
    /// when `include_expired` — ascending by operator, starting strictly
    /// after the cursor, at most `limit` of them (clamped to the store's
    /// bounds, 30 by default and 100 at most).
    pub fn approvals_for_all(
        &self,
        env: &BlockInfo,
        owner: &str,
        include_expired: bool,
        start_after: Option<&str>,
        limit: Option<u32>,
    ) -> (r: Vec<(String, Expiration)>)
        requires
            self.wf(),
        ensures
            r.deep_view() == page(
                sel_operators(
                    self.operators.pairs(),
                    owner@,
                    *env,
                    include_expired,
                    start_after.deep_view(),
                ),
                spec_page_limit(limit),
            ),
            forall|a: int, b: int|
                0 <= a < b < r.deep_view().len() ==> str_lt(
                    (#[trigger] r.deep_view()[a]).0,
                    (#[trigger] r.deep_view()[b]).0,
                ),
    {
        proof {
            lemma_sel_operators_sorted(
                self.operators.pairs(),
                owner@,
                *env,
                include_expired,
                start_after.deep_view(),
            );
        }
        let lim = page_limit(limit);
        let n = self.operators.entries.len();
        let mut r: Vec<(String, Expiration)> = Vec::new();
        proof {
            assert(self.operators.pairs().take(0) =~= Seq::<
                ((Seq<char>, Seq<char>), Expiration),
            >::empty());
            assert(r.deep_view() =~= Seq::<(Seq<char>, Expiration)>::empty());
        }
        let mut i: usize = 0;
        while i < n
            invariant
                i <= n,
                n == self.operators.entries@.len(),
                self.wf(),
                lim == spec_page_limit(limit),
                r.deep_view() == page(
                    sel_operators(
                        self.operators.pairs().take(i as int),
                        owner@,
                        *env,
                        include_expired,
                        start_after.deep_view(),
                    ),
                    lim as int,
                ),
                r@.len() <= lim,
                r@.len() < lim ==> r.deep_view() == sel_operators(
                    self.operators.pairs().take(i as int),
                    owner@,
                    *env,
                    include_expired,
                    start_after.deep_view(),
                ),
            decreases n - i,
        {
            let ghost pre = self.operators.pairs().take(i as int);
            let ghost cur = self.operators.pairs().take(i as int + 1);
            let ghost selpre = sel_operators(pre, owner@, *env, include_expired, start_after.deep_view());
            proof {
                assert(cur.drop_last() =~= pre);
                assert(cur.last() == self.operators.pairs()[i as int]);
            }
            let e = &self.operators.entries[i];
            proof {
                assert(self.operators.pairs()[i as int] == ((e.owner@, e.operator@), e.expiration));
            }
            let owner_eq = matches!(
                crate::lex::str_compare(e.owner.as_str(), owner),
                crate::lex::StrOrder::Equal
            );
            if owner_eq && (include_expired || !e.expiration.is_expired(env)) && check_cursor(
                start_after,
                e.operator.as_str(),
            ) && r.len() < lim {
                let ghost prev = r.deep_view();
                r.push((e.operator.clone(), e.expiration));
                proof {
                    assert(r.deep_view() =~= prev.push((e.operator@, e.expiration)));
                    assert(page(selpre.push((e.operator@, e.expiration)), lim as int) =~= r.deep_view());
                }
            } else {
                proof {
                    if owner_eq && (include_expired || !e.expiration.spec_is_expired(env))
                        && after_cursor(start_after.deep_view(), e.operator@) {
                        assert(r@.len() == lim);
                        assert(page(selpre, lim as int) == r.deep_view());
                        assert(selpre.len() >= lim);
                        assert(page(selpre.push((e.operator@, e.expiration)), lim as int)
                            =~= page(selpre, lim as int));
                    }
                }
            }
            i = i + 1;
        }
        proof {
            assert(self.operators.pairs().take(n as int) =~= self.operators.pairs());
        }
        r
    }

    /// The balances of one token across owners, ascending by owner,
    /// starting strictly after the cursor, at most `limit` of them (clamped
    /// to the store's bounds). A record resting at zero is still a record.
    pub fn all_balances(&self, token: &str, start_after: Option<&str>, limit: Option<u32>) -> (r:
        Vec<(String, u128)>)
        requires
            self.wf(),
        ensures
            r.deep_view() == page(
                sel_balances(self.balances.pairs(), token@, start_after.deep_view()),
                spec_page_limit(limit),
            ),
            forall|a: int, b: int|
                0 <= a < b < r.deep_view().len() ==> str_lt(
                    (#[trigger] r.deep_view()[a]).0,
                    (#[trigger] r.deep_view()[b]).0,
                ),
    {
        proof {
            lemma_sel_balances_sorted(self.balances.pairs(), token@, start_after.deep_view());
        }
        let lim = page_limit(limit);
        let n = self.balances.entries.len();
        let mut r: Vec<(String, u128)> = Vec::new();
        proof {
            assert(self.balances.pairs().take(0) =~= Seq::<
                ((Seq<char>, Seq<char>), u128),
            >::empty());
            assert(r.deep_view() =~= Seq::<(Seq<char>, u128)>::empty());
        }
        let mut i: usize = 0;
        while i < n
            invariant
                i <= n,
                n == self.balances.entries@.len(),
                self.wf(),
                lim == spec_page_limit(limit),
                r.deep_view() == page(
                    sel_balances(
                        self.balances.pairs().take(i as int),
                        token@,
                        start_after.deep_view(),
                    ),
                    lim as int,
                ),
                r@.len() <= lim,
                r@.len() < lim ==> r.deep_view() == sel_balances(
                    self.balances.pairs().take(i as int),
                    token@,
                    start_after.deep_view(),
                ),
            decreases n - i,
        {
            let ghost pre = self.balances.pairs().take(i as int);
            let ghost cur = self.balances.pairs().take(i as int + 1);
            let ghost selpre = sel_balances(pre, token@, start_after.deep_view());
            proof {
                assert(cur.drop_last() =~= pre);
                assert(cur.last() == self.balances.pairs()[i as int]);
            }
            let e = &self.balances.entries[i];
            proof {
                assert(self.balances.pairs()[i as int] == ((e.owner@, e.token_id@), e.amount));
            }
            let token_eq = matches!(
                crate::lex::str_compare(e.token_id.as_str(), token),
                crate::lex::StrOrder::Equal
            );
            if token_eq && check_cursor(start_after, e.owner.as_str()) && r.len() < lim {
                let ghost prev = r.deep_view();
                r.push((e.owner.clone(), e.amount));
                proof {
                    assert(r.deep_view() =~= prev.push((e.owner@, e.amount)));
                    assert(page(selpre.push((e.owner@, e.amount)), lim as int) =~= r.deep_view());
                }
            } else {
                proof {
                    if token_eq && after_cursor(start_after.deep_view(), e.owner@) {
                        assert(r@.len() == lim);
                        assert(page(selpre, lim as int) == r.deep_view());
                        assert(selpre.len() >= lim);
                        assert(page(selpre.push((e.owner@, e.amount)), lim as int) =~= page(
                            selpre,
                            lim as int,
                        ));
                    }
                }
            }
            i = i + 1;
        }
        proof {
            assert(self.balances.pairs().take(n as int) =~= self.balances.pairs());
        }
        r
    }

    /// The token ids one owner holds a balance record in, ascending,
    /// starting strictly after the cursor, at most `limit` of them (clamped
    /// to the store's bounds).
    pub fn tokens_of(&self, owner: &str, start_after: Option<&str>, limit: Option<u32>) -> (r: Vec<
        String,
    >)
        requires
            self.wf(),
        ensures
            r.deep_view() == page(
                sel_owner_tokens(self.balances.pairs(), owner@, start_after.deep_view()),
                spec_page_limit(limit),
            ),
            forall|a: int, b: int|
                0 <= a < b < r.deep_view().len() ==> str_lt(
                    #[trigger] r.deep_view()[a],
                    #[trigger] r.deep_view()[b],
                ),
    {
        proof {
            lemma_sel_owner_tokens_sorted(self.balances.pairs(), owner@, start_after.deep_view());
        }
        let lim = page_limit(limit);
        let n = self.balances.entries.len();
        let mut r: Vec<String> = Vec::new();
        proof {
            assert(self.balances.pairs().take(0) =~= Seq::<
                ((Seq<char>, Seq<char>), u128),
            >::empty());
            assert(r.deep_view() =~= Seq::<Seq<char>>::empty());
        }
        let mut i: usize = 0;
        while i < n
            invariant
                i <= n,
                n == self.balances.entries@.len(),
                self.wf(),
                lim == spec_page_limit(limit),
                r.deep_view() == page(
                    sel_owner_tokens(
                        self.balances.pairs().take(i as int),
                        owner@,
                        start_after.deep_view(),
                    ),
                    lim as int,
                ),
                r@.len() <= lim,
                r@.len() < lim ==> r.deep_view() == sel_owner_tokens(
                    self.balances.pairs().take(i as int),
                    owner@,
                    start_after.deep_view(),
                ),
            decreases n - i,
        {
            let ghost pre = self.balances.pairs().take(i as int);
            let ghost cur = self.balances.pairs().take(i as int + 1);
            let ghost selpre = sel_owner_tokens(pre, owner@, start_after.deep_view());
            proof {
                assert(cur.drop_last() =~= pre);
                assert(cur.last() == self.balances.pairs()[i as int]);
            }
            let e = &self.balances.entries[i];
            proof {
                assert(self.balances.pairs()[i as int] == ((e.owner@, e.token_id@), e.amount));
            }
            let owner_eq = matches!(
                crate::lex::str_compare(e.owner.as_str(), owner),
                crate::lex::StrOrder::Equal
            );
            if owner_eq && check_cursor(start_after, e.token_id.as_str()) && r.len() < lim {
                let ghost prev = r.deep_view();
                r.push(e.token_id.clone());
                proof {
                    assert(r.deep_view() =~= prev.push(e.token_id@));
                    assert(page(selpre.push(e.token_id@), lim as int) =~= r.deep_view());
                }
            } else {
                proof {
                    if owner_eq && after_cursor(start_after.deep_view(), e.token_id@) {
                        assert(r@.len() == lim);
                        assert(page(selpre, lim as int) == r.deep_view());
                        assert(selpre.len() >= lim);
                        assert(page(selpre.push(e.token_id@), lim as int) =~= page(
                            selpre,
                            lim as int,
                        ));
                    }
                }
            }
            i = i + 1;
        }
        proof {
            assert(self.balances.pairs().take(n as int) =~= self.balances.pairs());
        }
        r
    }

    /// The ids of all tokens on record, ascending, starting strictly after
    /// the cursor, at most `limit` of them (clamped to the store's bounds).
    pub fn all_tokens(&self, start_after: Option<&str>, limit: Option<u32>) -> (r: Vec<String>)
        requires
            self.wf(),
        ensures
            r.deep_view() == page(
                sel_all_tokens(self.tokens.pairs(), start_after.deep_view()),
                spec_page_limit(limit),
            ),
            forall|a: int, b: int|
                0 <= a < b < r.deep_view().len() ==> str_lt(
                    #[trigger] r.deep_view()[a],
                    #[trigger] r.deep_view()[b],
                ),
    {
        proof {
            lemma_sel_all_tokens_sorted(self.tokens.pairs(), start_after.deep_view());
        }
        let lim = page_limit(limit);
        let n = self.tokens.entries.len();
        let mut r: Vec<String> = Vec::new();
        proof {
            assert(self.tokens.pairs().take(0) =~= Seq::<
                (Seq<char>, crate::tokens::TokenInfoV),
            >::empty());
            assert(r.deep_view() =~= Seq::<Seq<char>>::empty());
        }
        let mut i: usize = 0;
        while i < n
            invariant
                i <= n,
                n == self.tokens.entries@.len(),
                self.wf(),
                lim == spec_page_limit(limit),
                r.deep_view() == page(
                    sel_all_tokens(
                        self.tokens.pairs().take(i as int),
                        start_after.deep_view(),
                    ),
                    lim as int,
                ),
                r@.len() <= lim,
                r@.len() < lim ==> r.deep_view() == sel_all_tokens(
                    self.tokens.pairs().take(i as int),
                    start_after.deep_view(),
                ),
            decreases n - i,
        {
            let ghost pre = self.tokens.pairs().take(i as int);
            let ghost cur = self.tokens.pairs().take(i as int + 1);
            let ghost selpre = sel_all_tokens(pre, start_after.deep_view());
            proof {
                assert(cur.drop_last() =~= pre);
                assert(cur.last() == self.tokens.pairs()[i as int]);
            }
            let e = &self.tokens.entries[i];
            proof {
                assert(self.tokens.pairs()[i as int] == (
                    e.token_id@,
                    crate::tokens::entry_value(*e),
                ));
            }
            if check_cursor(start_after, e.token_id.as_str()) && r.len() < lim {
                let ghost prev = r.deep_view();
                r.push(e.token_id.clone());
                proof {
                    assert(r.deep_view() =~= prev.push(e.token_id@));
                    assert(page(selpre.push(e.token_id@), lim as int) =~= r.deep_view());
                }
            } else {
                proof {
                    if after_cursor(start_after.deep_view(), e.token_id@) {
                        assert(r@.len() == lim);
                        assert(page(selpre, lim as int) == r.deep_view());
                        assert(selpre.len() >= lim);
                        assert(page(selpre.push(e.token_id@), lim as int) =~= page(
                            selpre,
                            lim as int,
                        ));
                    }
                }
            }
            i = i + 1;
        }
        proof {
            assert(self.tokens.pairs().take(n as int) =~= self.tokens.pairs());
        }
        r
    }
}

} // verus!
