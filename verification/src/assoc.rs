use vstd::prelude::*;

verus! {

/// The finite map described by a sequence of key-value pairs; a later entry
/// for a key would shadow an earlier one, but every store in this crate keeps
/// its keys unique.
pub open spec fn map_of<K, V>(s: Seq<(K, V)>) -> Map<K, V>
    decreases s.len(),
{
    if s.len() == 0 {
        Map::empty()
    } else {
        map_of(s.drop_last()).insert(s.last().0, s.last().1)
    }
}

/// No two entries share a key.
pub open spec fn keys_unique<K, V>(s: Seq<(K, V)>) -> bool {
    forall|i: int, j: int|
        #![trigger s[i], s[j]]
        0 <= i < j < s.len() ==> s[i].0 != s[j].0
}

/// The entries are strictly ascending in the order `lt`.
pub open spec fn sorted_by<K, V>(s: Seq<(K, V)>, lt: spec_fn(K, K) -> bool) -> bool {
    forall|i: int, j: int| 0 <= i < j < s.len() ==> #[trigger] lt(s[i].0, s[j].0)
}

/// `lt` behaves as a strict total order.
pub open spec fn strict_order<K>(lt: spec_fn(K, K) -> bool) -> bool {
    &&& forall|x: K, y: K| #[trigger] lt(x, y) ==> x != y && !lt(y, x)
    &&& forall|x: K, y: K| !(#[trigger] lt(x, y)) && !lt(y, x) ==> x == y
    &&& forall|x: K, y: K, z: K| #[trigger] lt(x, y) && #[trigger] lt(y, z) ==> lt(x, z)
}

/// A strictly sorted sequence has unique keys.
pub proof fn lemma_sorted_unique<K, V>(s: Seq<(K, V)>, lt: spec_fn(K, K) -> bool)
    requires
        sorted_by(s, lt),
        strict_order(lt),
    ensures
        keys_unique(s),
{
    assert forall|i: int, j: int|
        #![trigger s[i], s[j]]
        0 <= i < j < s.len() implies s[i].0 != s[j].0 by {
        assert(lt(s[i].0, s[j].0));
    }
}

/// Each entry of a unique-keyed sequence is in its map, with its value.
pub proof fn lemma_map_of_index<K, V>(s: Seq<(K, V)>, i: int)
    requires
        keys_unique(s),
        0 <= i < s.len(),
    ensures
        map_of(s).contains_key(s[i].0),
        map_of(s)[s[i].0] == s[i].1,
    decreases s.len(),
{
    if i < s.len() - 1 {
        lemma_map_of_index(s.drop_last(), i);
    }
}

/// A key matching no entry is not in the map.
pub proof fn lemma_map_of_absent<K, V>(s: Seq<(K, V)>, k: K)
    requires
        forall|i: int| 0 <= i < s.len() ==> (#[trigger] s[i]).0 != k,
    ensures
        !map_of(s).contains_key(k),
    decreases s.len(),
{
    if s.len() > 0 {
        lemma_map_of_absent(s.drop_last(), k);
    }
}

/// A key in the map is carried by some entry, with the map's value.
pub proof fn lemma_map_of_contains_index<K, V>(s: Seq<(K, V)>, k: K) -> (i: int)
    requires
        map_of(s).contains_key(k),
    ensures
        0 <= i < s.len(),
        s[i].0 == k,
        s[i].1 == map_of(s)[k],
    decreases s.len(),
{
    if s.last().0 == k {
        s.len() - 1
    } else {
        lemma_map_of_contains_index(s.drop_last(), k)
    }
}

/// Inserting a fresh key anywhere in a unique-keyed sequence inserts it in
/// the map.
pub proof fn lemma_map_of_insert<K, V>(s: Seq<(K, V)>, pos: int, k: K, v: V)
    requires
        keys_unique(s),
        0 <= pos <= s.len(),
        forall|i: int| 0 <= i < s.len() ==> (#[trigger] s[i]).0 != k,
    ensures
        map_of(s.insert(pos, (k, v))) == map_of(s).insert(k, v),
    decreases s.len(),
{
    let t = s.insert(pos, (k, v));
    if pos == s.len() {
        assert(t.drop_last() =~= s);
        assert(t.last() == (k, v));
    } else {
        assert(t.last() == s.last());
        assert(t.drop_last() =~= s.drop_last().insert(pos, (k, v)));
        lemma_map_of_insert(s.drop_last(), pos, k, v);
        assert(s.last().0 != k);
        assert(map_of(s.drop_last()).insert(k, v).insert(s.last().0, s.last().1) =~= map_of(
            s.drop_last(),
        ).insert(s.last().0, s.last().1).insert(k, v));
    }
}

/// Replacing the value at one position updates the map at that entry's key.
pub proof fn lemma_map_of_update<K, V>(s: Seq<(K, V)>, pos: int, v: V)
    requires
        keys_unique(s),
        0 <= pos < s.len(),
    ensures
        map_of(s.update(pos, (s[pos].0, v))) == map_of(s).insert(s[pos].0, v),
    decreases s.len(),
{
    let t = s.update(pos, (s[pos].0, v));
    if pos == s.len() - 1 {
        assert(t.drop_last() =~= s.drop_last());
        assert(t.last() == (s[pos].0, v));
        assert(map_of(s.drop_last()).insert(s[pos].0, v) =~= map_of(s.drop_last()).insert(
            s[pos].0,
            s[pos].1,
        ).insert(s[pos].0, v));
    } else {
        assert(t.last() == s.last());
        assert(t.drop_last() =~= s.drop_last().update(pos, (s[pos].0, v)));
        lemma_map_of_update(s.drop_last(), pos, v);
        assert(s.last().0 != s[pos].0);
        assert(map_of(s.drop_last()).insert(s[pos].0, v).insert(s.last().0, s.last().1) =~= map_of(
            s.drop_last(),
        ).insert(s.last().0, s.last().1).insert(s[pos].0, v));
    }
}

/// Removing one position removes that entry's key from the map.
pub proof fn lemma_map_of_remove<K, V>(s: Seq<(K, V)>, pos: int)
    requires
        keys_unique(s),
        0 <= pos < s.len(),
    ensures
        map_of(s.remove(pos)) == map_of(s).remove(s[pos].0),
    decreases s.len(),
{
    let t = s.remove(pos);
    if pos == s.len() - 1 {
        assert(t =~= s.drop_last());
        lemma_map_of_absent(s.drop_last(), s[pos].0);
        assert(map_of(s.drop_last()) =~= map_of(s.drop_last()).insert(
            s[pos].0,
            s[pos].1,
        ).remove(s[pos].0));
    } else {
        assert(t.last() == s.last());
        assert(t.drop_last() =~= s.drop_last().remove(pos));
        lemma_map_of_remove(s.drop_last(), pos);
        assert(s.last().0 != s[pos].0);
        assert(map_of(s.drop_last()).remove(s[pos].0).insert(s.last().0, s.last().1) =~= map_of(
            s.drop_last(),
        ).insert(s.last().0, s.last().1).remove(s[pos].0));
    }
}

/// Inserting between the entries below and above the new key keeps the
/// sequence sorted.
pub proof fn lemma_sorted_insert<K, V>(s: Seq<(K, V)>, pos: int, k: K, v: V, lt: spec_fn(K, K) -> bool)
    requires
        sorted_by(s, lt),
        0 <= pos <= s.len(),
        forall|i: int| 0 <= i < pos ==> lt((#[trigger] s[i]).0, k),
        forall|i: int| pos <= i < s.len() ==> lt(k, (#[trigger] s[i]).0),
    ensures
        sorted_by(s.insert(pos, (k, v)), lt),
{
    let t = s.insert(pos, (k, v));
    assert forall|i: int, j: int| 0 <= i < j < t.len() implies #[trigger] lt(t[i].0, t[j].0) by {
        if i < pos {
            assert(t[i] == s[i]);
        } else if i > pos {
            assert(t[i] == s[i - 1]);
        }
        if j < pos {
            assert(t[j] == s[j]);
        } else if j > pos {
            assert(t[j] == s[j - 1]);
        }
    }
}

/// Replacing the value at a position, keeping its key, keeps the sequence
/// sorted.
pub proof fn lemma_sorted_update<K, V>(s: Seq<(K, V)>, pos: int, v: V, lt: spec_fn(K, K) -> bool)
    requires
        sorted_by(s, lt),
        0 <= pos < s.len(),
    ensures
        sorted_by(s.update(pos, (s[pos].0, v)), lt),
{
    let t = s.update(pos, (s[pos].0, v));
    assert forall|i: int, j: int| 0 <= i < j < t.len() implies #[trigger] lt(t[i].0, t[j].0) by {
        assert(t[i].0 == s[i].0);
        assert(t[j].0 == s[j].0);
    }
}

/// Removing a position keeps the sequence sorted.
pub proof fn lemma_sorted_remove<K, V>(s: Seq<(K, V)>, pos: int, lt: spec_fn(K, K) -> bool)
    requires
        sorted_by(s, lt),
        0 <= pos < s.len(),
    ensures
        sorted_by(s.remove(pos), lt),
{
    let t = s.remove(pos);
    assert forall|i: int, j: int| 0 <= i < j < t.len() implies #[trigger] lt(t[i].0, t[j].0) by {
        if i < pos {
            assert(t[i] == s[i]);
        } else {
            assert(t[i] == s[i + 1]);
        }
        if j < pos {
            assert(t[j] == s[j]);
        } else {
            assert(t[j] == s[j + 1]);
        }
    }
}

} // verus!
