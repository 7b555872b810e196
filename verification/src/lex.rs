use vstd::prelude::*;
use vstd::std_specs::iter::IteratorSpec;

verus! {

broadcast use vstd::string::axiom_spec_iter, vstd::string::next_postcondition;

/// Outcome of a three-way lexicographic comparison of strings.
#[derive(Clone, Copy, Debug, PartialEq, Eq, Structural)]
pub enum StrOrder {
    Less,
    Equal,
    Greater,
}

/// Strict lexicographic order on character sequences, comparing characters
/// by unicode scalar value; a proper prefix sorts before its extensions.
pub open spec fn str_lt(a: Seq<char>, b: Seq<char>) -> bool
    decreases a.len() + b.len(),
{
    if b.len() == 0 {
        false
    } else if a.len() == 0 {
        true
    } else if a[0] != b[0] {
        a[0] < b[0]
    } else {
        str_lt(a.drop_first(), b.drop_first())
    }
}

/// `str_lt` is a strict total order: of `a < b`, `a == b`, `b < a`,
/// exactly one holds.
pub proof fn lemma_str_lt_trichotomy(a: Seq<char>, b: Seq<char>)
    ensures
        str_lt(a, b) ==> !str_lt(b, a) && a != b,
        str_lt(b, a) ==> !str_lt(a, b) && a != b,
        !str_lt(a, b) && !str_lt(b, a) ==> a == b,
    decreases a.len() + b.len(),
{
    if a.len() > 0 && b.len() > 0 && a[0] == b[0] {
        lemma_str_lt_trichotomy(a.drop_first(), b.drop_first());
        if !str_lt(a, b) && !str_lt(b, a) {
            assert(a =~= b) by {
                assert(a.drop_first() == b.drop_first());
                assert forall|i: int| 0 <= i < a.len() implies #[trigger] a[i] == b[i] by {
                    if i > 0 {
                        assert(a[i] == a.drop_first()[i - 1]);
                        assert(b[i] == b.drop_first()[i - 1]);
                    }
                }
            }
        }
        if a == b {
            assert(a.drop_first() == b.drop_first());
        }
    } else {
        if a.len() > 0 && b.len() > 0 && a == b {
            assert(a[0] == b[0]);
        }
    }
}

/// `str_lt` is transitive.
pub proof fn lemma_str_lt_trans(a: Seq<char>, b: Seq<char>, c: Seq<char>)
    requires
        str_lt(a, b),
        str_lt(b, c),
    ensures
        str_lt(a, c),
    decreases a.len() + b.len() + c.len(),
{
    if c.len() > 0 && b.len() > 0 && a.len() > 0 {
        if a[0] == b[0] && b[0] == c[0] {
            lemma_str_lt_trans(a.drop_first(), b.drop_first(), c.drop_first());
        }
    }
}

/// Dropping an equal prefix of both strings does not change their order.
pub proof fn lemma_str_lt_common_prefix(a: Seq<char>, b: Seq<char>, k: int)
    requires
        0 <= k <= a.len(),
        k <= b.len(),
        a.take(k) == b.take(k),
    ensures
        str_lt(a, b) == str_lt(a.skip(k), b.skip(k)),
    decreases k,
{
    if k > 0 {
        assert(a[0] == b[0]) by {
            assert(a.take(k)[0] == a[0]);
            assert(b.take(k)[0] == b[0]);
        }
        assert(a.drop_first().take(k - 1) == b.drop_first().take(k - 1)) by {
            assert(a.drop_first().take(k - 1) =~= a.take(k).drop_first());
            assert(b.drop_first().take(k - 1) =~= b.take(k).drop_first());
        }
        lemma_str_lt_common_prefix(a.drop_first(), b.drop_first(), k - 1);
        assert(a.drop_first().skip(k - 1) =~= a.skip(k));
        assert(b.drop_first().skip(k - 1) =~= b.skip(k));
    } else {
        assert(a.skip(0) =~= a);
        assert(b.skip(0) =~= b);
    }
}

/// Lexicographic order on string pairs: first component, then second.
pub open spec fn key2_lt(a1: Seq<char>, a2: Seq<char>, b1: Seq<char>, b2: Seq<char>) -> bool {
    str_lt(a1, b1) || (a1 == b1 && str_lt(a2, b2))
}

/// Lexicographic order on string triples.
pub open spec fn key3_lt(
    a1: Seq<char>,
    a2: Seq<char>,
    a3: Seq<char>,
    b1: Seq<char>,
    b2: Seq<char>,
    b3: Seq<char>,
) -> bool {
    str_lt(a1, b1) || (a1 == b1 && str_lt(a2, b2)) || (a1 == b1 && a2 == b2 && str_lt(a3, b3))
}

/// `key2_lt` is a strict total order on pairs.
pub proof fn lemma_key2_trichotomy(a1: Seq<char>, a2: Seq<char>, b1: Seq<char>, b2: Seq<char>)
    ensures
        key2_lt(a1, a2, b1, b2) ==> !key2_lt(b1, b2, a1, a2) && !(a1 == b1 && a2 == b2),
        key2_lt(b1, b2, a1, a2) ==> !key2_lt(a1, a2, b1, b2) && !(a1 == b1 && a2 == b2),
        !key2_lt(a1, a2, b1, b2) && !key2_lt(b1, b2, a1, a2) ==> a1 == b1 && a2 == b2,
{
    lemma_str_lt_trichotomy(a1, b1);
    lemma_str_lt_trichotomy(a2, b2);
}

/// `key2_lt` is transitive.
pub proof fn lemma_key2_trans(
    a1: Seq<char>,
    a2: Seq<char>,
    b1: Seq<char>,
    b2: Seq<char>,
    c1: Seq<char>,
    c2: Seq<char>,
)
    requires
        key2_lt(a1, a2, b1, b2),
        key2_lt(b1, b2, c1, c2),
    ensures
        key2_lt(a1, a2, c1, c2),
{
    if str_lt(a1, b1) && str_lt(b1, c1) {
        lemma_str_lt_trans(a1, b1, c1);
    }
    if a1 == b1 && b1 == c1 && str_lt(a2, b2) && str_lt(b2, c2) {
        lemma_str_lt_trans(a2, b2, c2);
    }
}

/// `key3_lt` is a strict total order on triples.
pub proof fn lemma_key3_trichotomy(
    a1: Seq<char>,
    a2: Seq<char>,
    a3: Seq<char>,
    b1: Seq<char>,
    b2: Seq<char>,
    b3: Seq<char>,
)
    ensures
        key3_lt(a1, a2, a3, b1, b2, b3) ==> !key3_lt(b1, b2, b3, a1, a2, a3) && !(a1 == b1 && a2
            == b2 && a3 == b3),
        key3_lt(b1, b2, b3, a1, a2, a3) ==> !key3_lt(a1, a2, a3, b1, b2, b3) && !(a1 == b1 && a2
            == b2 && a3 == b3),
        !key3_lt(a1, a2, a3, b1, b2, b3) && !key3_lt(b1, b2, b3, a1, a2, a3) ==> a1 == b1 && a2
            == b2 && a3 == b3,
{
    lemma_str_lt_trichotomy(a1, b1);
    lemma_str_lt_trichotomy(a2, b2);
    lemma_str_lt_trichotomy(a3, b3);
}

/// `key3_lt` is transitive.
pub proof fn lemma_key3_trans(
    a1: Seq<char>,
    a2: Seq<char>,
    a3: Seq<char>,
    b1: Seq<char>,
    b2: Seq<char>,
    b3: Seq<char>,
    c1: Seq<char>,
    c2: Seq<char>,
    c3: Seq<char>,
)
    requires
        key3_lt(a1, a2, a3, b1, b2, b3),
        key3_lt(b1, b2, b3, c1, c2, c3),
    ensures
        key3_lt(a1, a2, a3, c1, c2, c3),
{
    if str_lt(a1, b1) && str_lt(b1, c1) {
        lemma_str_lt_trans(a1, b1, c1);
    }
    if a1 == b1 && b1 == c1 && str_lt(a2, b2) && str_lt(b2, c2) {
        lemma_str_lt_trans(a2, b2, c2);
    }
    if a1 == b1 && b1 == c1 && a2 == b2 && b2 == c2 && str_lt(a3, b3) && str_lt(b3, c3) {
        lemma_str_lt_trans(a3, b3, c3);
    }
}

/// `str_lt` as an order on single string keys.
pub open spec fn str_order() -> spec_fn(Seq<char>, Seq<char>) -> bool {
    |a: Seq<char>, b: Seq<char>| str_lt(a, b)
}

/// `key2_lt` as an order on string-pair keys.
pub open spec fn pair_order() -> spec_fn((Seq<char>, Seq<char>), (Seq<char>, Seq<char>)) -> bool {
    |a: (Seq<char>, Seq<char>), b: (Seq<char>, Seq<char>)| key2_lt(a.0, a.1, b.0, b.1)
}

/// `key3_lt` as an order on string-triple keys.
pub open spec fn triple_order() -> spec_fn(
    (Seq<char>, Seq<char>, Seq<char>),
    (Seq<char>, Seq<char>, Seq<char>),
) -> bool {
    |a: (Seq<char>, Seq<char>, Seq<char>), b: (Seq<char>, Seq<char>, Seq<char>)|
        key3_lt(a.0, a.1, a.2, b.0, b.1, b.2)
}

/// `str_order` is a strict total order.
pub proof fn lemma_str_order_strict()
    ensures
        crate::assoc::strict_order(str_order()),
{
    let o = str_order();
    assert forall|x: Seq<char>, y: Seq<char>| #[trigger] o(x, y) implies x != y && !o(y, x) by {
        lemma_str_lt_trichotomy(x, y);
    }
    assert forall|x: Seq<char>, y: Seq<char>| !(#[trigger] o(x, y)) && !o(y, x) implies x == y by {
        lemma_str_lt_trichotomy(x, y);
    }
    assert forall|x: Seq<char>, y: Seq<char>, z: Seq<char>|
        #[trigger] o(x, y) && #[trigger] o(y, z) implies o(x, z) by {
        lemma_str_lt_trans(x, y, z);
    }
}

/// `pair_order` is a strict total order.
pub proof fn lemma_pair_order_strict()
    ensures
        crate::assoc::strict_order(pair_order()),
{
    let o = pair_order();
    assert forall|x: (Seq<char>, Seq<char>), y: (Seq<char>, Seq<char>)|
        #[trigger] o(x, y) implies x != y && !o(y, x) by {
        lemma_key2_trichotomy(x.0, x.1, y.0, y.1);
    }
    assert forall|x: (Seq<char>, Seq<char>), y: (Seq<char>, Seq<char>)|
        !(#[trigger] o(x, y)) && !o(y, x) implies x == y by {
        lemma_key2_trichotomy(x.0, x.1, y.0, y.1);
    }
    assert forall|x: (Seq<char>, Seq<char>), y: (Seq<char>, Seq<char>), z: (Seq<char>, Seq<char>)|
        #[trigger] o(x, y) && #[trigger] o(y, z) implies o(x, z) by {
        lemma_key2_trans(x.0, x.1, y.0, y.1, z.0, z.1);
    }
}

/// `triple_order` is a strict total order.
pub proof fn lemma_triple_order_strict()
    ensures
        crate::assoc::strict_order(triple_order()),
{
    let o = triple_order();
    assert forall|x: (Seq<char>, Seq<char>, Seq<char>), y: (Seq<char>, Seq<char>, Seq<char>)|
        #[trigger] o(x, y) implies x != y && !o(y, x) by {
        lemma_key3_trichotomy(x.0, x.1, x.2, y.0, y.1, y.2);
    }
    assert forall|x: (Seq<char>, Seq<char>, Seq<char>), y: (Seq<char>, Seq<char>, Seq<char>)|
        !(#[trigger] o(x, y)) && !o(y, x) implies x == y by {
        lemma_key3_trichotomy(x.0, x.1, x.2, y.0, y.1, y.2);
    }
    assert forall|
        x: (Seq<char>, Seq<char>, Seq<char>),
        y: (Seq<char>, Seq<char>, Seq<char>),
        z: (Seq<char>, Seq<char>, Seq<char>),
    |
        #[trigger] o(x, y) && #[trigger] o(y, z) implies o(x, z) by {
        lemma_key3_trans(x.0, x.1, x.2, y.0, y.1, y.2, z.0, z.1, z.2);
    }
}

/// Three-way comparison of two string pairs in the order `key2_lt`.
pub fn key2_compare(a1: &str, a2: &str, b1: &str, b2: &str) -> (o: StrOrder)
    ensures
        (o == StrOrder::Less) == key2_lt(a1@, a2@, b1@, b2@),
        (o == StrOrder::Equal) == (a1@ == b1@ && a2@ == b2@),
        (o == StrOrder::Greater) == key2_lt(b1@, b2@, a1@, a2@),
{
    proof {
        lemma_key2_trichotomy(a1@, a2@, b1@, b2@);
    }
    match str_compare(a1, b1) {
        StrOrder::Less => StrOrder::Less,
        StrOrder::Greater => StrOrder::Greater,
        StrOrder::Equal => str_compare(a2, b2),
    }
}

/// Three-way comparison of two string triples in the order `key3_lt`.
pub fn key3_compare(a1: &str, a2: &str, a3: &str, b1: &str, b2: &str, b3: &str) -> (o: StrOrder)
    ensures
        (o == StrOrder::Less) == key3_lt(a1@, a2@, a3@, b1@, b2@, b3@),
        (o == StrOrder::Equal) == (a1@ == b1@ && a2@ == b2@ && a3@ == b3@),
        (o == StrOrder::Greater) == key3_lt(b1@, b2@, b3@, a1@, a2@, a3@),
{
    proof {
        lemma_key3_trichotomy(a1@, a2@, a3@, b1@, b2@, b3@);
    }
    match str_compare(a1, b1) {
        StrOrder::Less => StrOrder::Less,
        StrOrder::Greater => StrOrder::Greater,
        StrOrder::Equal => match str_compare(a2, b2) {
            StrOrder::Less => StrOrder::Less,
            StrOrder::Greater => StrOrder::Greater,
            StrOrder::Equal => str_compare(a3, b3),
        },
    }
}

/// Three-way comparison of two strings in the order `str_lt`.
pub fn str_compare(a: &str, b: &str) -> (o: StrOrder)
    ensures
        (o == StrOrder::Less) == str_lt(a@, b@),
        (o == StrOrder::Equal) == (a@ == b@),
        (o == StrOrder::Greater) == str_lt(b@, a@),
{
    let mut ac = a.chars();
    let mut bc = b.chars();
    let ghost mut k: int = 0;
    loop
        invariant
            0 <= k <= a@.len(),
            k <= b@.len(),
            ac.remaining() == a@.skip(k),
            bc.remaining() == b@.skip(k),
            a@.take(k) == b@.take(k),
        decreases a@.len() - k,
    {
        proof {
            lemma_str_lt_trichotomy(a@, b@);
            lemma_str_lt_common_prefix(a@, b@, k);
        }
        let na = ac.next();
        let nb = bc.next();
        match (na, nb) {
            (None, None) => {
                proof {
                    assert(a@.skip(k).len() == 0);
                    assert(b@.skip(k).len() == 0);
                    assert(a@ =~= b@) by {
                        assert(a@.take(k) =~= a@);
                        assert(b@.take(k) =~= b@);
                    }
                }
                return StrOrder::Equal;
            }
            (None, Some(_)) => {
                proof {
                    assert(a@.skip(k).len() == 0);
                    assert(b@.skip(k).len() > 0);
                }
                return StrOrder::Less;
            }
            (Some(_), None) => {
                proof {
                    assert(b@.skip(k).len() == 0);
                    assert(a@.skip(k).len() > 0);
                }
                return StrOrder::Greater;
            }
            (Some(x), Some(y)) => {
                proof {
                    assert(a@.skip(k).len() > 0);
                    assert(b@.skip(k).len() > 0);
                    assert(a@.skip(k)[0] == a@[k]);
                    assert(b@.skip(k)[0] == b@[k]);
                    assert(x == a@[k]);
                    assert(y == b@[k]);
                }
                if x < y {
                    return StrOrder::Less;
                } else if y < x {
                    return StrOrder::Greater;
                } else {
                    proof {
                        assert(a@.take(k + 1) =~= b@.take(k + 1)) by {
                            assert(a@.take(k + 1) =~= a@.take(k).push(a@[k]));
                            assert(b@.take(k + 1) =~= b@.take(k).push(b@[k]));
                        }
                        assert(a@.skip(k).drop_first() =~= a@.skip(k + 1));
                        assert(b@.skip(k).drop_first() =~= b@.skip(k + 1));
                        k = k + 1;
                    }
                }
            }
        }
    }
}

} // verus!
