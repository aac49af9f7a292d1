use vstd::prelude::*;

verus! {

/// The association map described by a sequence of key/value pairs, a later
/// entry winning over an earlier one with the same key. The containers in
/// this crate keep at most one entry per key, so for them the map holds
/// exactly the entries.
pub open spec fn pairs_map<K, V>(s: Seq<(K, V)>) -> Map<K, V>
    decreases s.len(),
{
    if s.len() == 0 {
        Map::empty()
    } else {
        pairs_map(s.drop_last()).insert(s.last().0, s.last().1)
    }
}

/// No two entries share a key.
pub open spec fn keys_unique<K, V>(s: Seq<(K, V)>) -> bool {
    forall|i: int, j: int| 0 <= i < j < s.len() ==> (#[trigger] s[i]).0 != (#[trigger] s[j]).0
}

/// The map of an entry sequence has a finite domain.
pub proof fn lemma_pairs_map_finite<K, V>(s: Seq<(K, V)>)
    ensures
        pairs_map(s).dom().finite(),
    decreases s.len(),
{
    if s.len() > 0 {
        lemma_pairs_map_finite(s.drop_last());
    }
}

/// A key is in the map exactly when some entry carries it.
pub proof fn lemma_pairs_map_dom<K, V>(s: Seq<(K, V)>, k: K)
    ensures
        pairs_map(s).dom().contains(k) <==> exists|i: int|
            0 <= i < s.len() && (#[trigger] s[i]).0 == k,
    decreases s.len(),
{
    if s.len() > 0 {
        lemma_pairs_map_dom(s.drop_last(), k);
        if s.last().0 == k {
            assert(s[s.len() - 1].0 == k);
        } else {
            if pairs_map(s).dom().contains(k) {
                let i = choose|i: int|
                    0 <= i < s.len() - 1 && (#[trigger] s.drop_last()[i]).0 == k;
                assert(s[i].0 == k);
            }
            if exists|i: int| 0 <= i < s.len() && (#[trigger] s[i]).0 == k {
                let i = choose|i: int| 0 <= i < s.len() && (#[trigger] s[i]).0 == k;
                assert(i < s.len() - 1);
                assert(s.drop_last()[i].0 == k);
            }
        }
    }
}

/// With unique keys, the map sends each entry's key to that entry's value.
pub proof fn lemma_pairs_map_index<K, V>(s: Seq<(K, V)>, i: int)
    requires
        keys_unique(s),
        0 <= i < s.len(),
    ensures
        pairs_map(s).dom().contains(s[i].0),
        pairs_map(s)[s[i].0] == s[i].1,
    decreases s.len(),
{
    if i == s.len() - 1 {
    } else {
        assert(keys_unique(s.drop_last())) by {
            assert(forall|x: int, y: int|
                0 <= x < y < s.len() - 1 ==> (#[trigger] s.drop_last()[x]).0 != (
                #[trigger] s.drop_last()[y]).0);
        }
        lemma_pairs_map_index(s.drop_last(), i);
        assert(s.drop_last()[i] == s[i]);
        assert(s[i].0 != s.last().0);
    }
}

/// Appending an entry inserts its pair into the map.
pub proof fn lemma_pairs_map_push<K, V>(s: Seq<(K, V)>, p: (K, V))
    ensures
        pairs_map(s.push(p)) == pairs_map(s).insert(p.0, p.1),
{
    assert(s.push(p).drop_last() =~= s);
    assert(s.push(p).last() == p);
}

/// Replacing the entry that carries a key updates that key's value.
pub proof fn lemma_pairs_map_update<K, V>(s: Seq<(K, V)>, i: int, p: (K, V))
    requires
        keys_unique(s),
        0 <= i < s.len(),
        s[i].0 == p.0,
    ensures
        pairs_map(s.update(i, p)) == pairs_map(s).insert(p.0, p.1),
    decreases s.len(),
{
    if i == s.len() - 1 {
        assert(s.update(i, p).drop_last() =~= s.drop_last());
        assert(s.update(i, p).last() == p);
        assert(pairs_map(s.drop_last()).insert(s.last().0, s.last().1).insert(p.0, p.1)
            =~= pairs_map(s.drop_last()).insert(p.0, p.1));
    } else {
        assert(keys_unique(s.drop_last())) by {
            assert(forall|x: int, y: int|
                0 <= x < y < s.len() - 1 ==> (#[trigger] s.drop_last()[x]).0 != (
                #[trigger] s.drop_last()[y]).0);
        }
        lemma_pairs_map_update(s.drop_last(), i, p);
        assert(s.update(i, p).drop_last() =~= s.drop_last().update(i, p));
        assert(s.update(i, p).last() == s.last());
        // the updated key and the last entry's key differ, so the two
        // insertions commute
        assert(s.last().0 != p.0);
        assert(pairs_map(s.drop_last()).insert(p.0, p.1).insert(s.last().0, s.last().1)
            =~= pairs_map(s.drop_last()).insert(s.last().0, s.last().1).insert(p.0, p.1));
    }
}

/// Appending an element and taking the set inserts the element into the set.
pub proof fn lemma_push_to_set<A>(s: Seq<A>, x: A)
    ensures
        s.push(x).to_set() == s.to_set().insert(x),
{
    assert forall|a: A| s.push(x).to_set().contains(a) implies s.to_set().insert(x).contains(
        a,
    ) by {
        let i = choose|i: int| 0 <= i < s.push(x).len() && s.push(x)[i] == a;
        if i < s.len() {
            assert(s[i] == a);
        }
    }
    assert forall|a: A| s.to_set().insert(x).contains(a) implies s.push(x).to_set().contains(
        a,
    ) by {
        if a == x {
            assert(s.push(x)[s.len() as int] == a);
        } else {
            let i = choose|i: int| 0 <= i < s.len() && s[i] == a;
            assert(s.push(x)[i] == a);
        }
    }
    assert(s.push(x).to_set() =~= s.to_set().insert(x));
}

/// Inserting an entry with a fresh key anywhere in the sequence inserts its
/// pair into the map.
pub proof fn lemma_pairs_map_insert_fresh<K, V>(s: Seq<(K, V)>, i: int, p: (K, V))
    requires
        0 <= i <= s.len(),
        forall|j: int| 0 <= j < s.len() ==> (#[trigger] s[j]).0 != p.0,
    ensures
        pairs_map(s.insert(i, p)) == pairs_map(s).insert(p.0, p.1),
    decreases s.len(),
{
    if i == s.len() {
        assert(s.insert(i, p) =~= s.push(p));
        lemma_pairs_map_push(s, p);
    } else {
        assert(s.insert(i, p).drop_last() =~= s.drop_last().insert(i, p));
        assert(s.insert(i, p).last() == s.last());
        lemma_pairs_map_insert_fresh(s.drop_last(), i, p);
        // the fresh key and the last entry's key differ, so the two
        // insertions commute
        assert(s.last().0 != p.0);
        assert(pairs_map(s.drop_last()).insert(p.0, p.1).insert(s.last().0, s.last().1)
            =~= pairs_map(s.drop_last()).insert(s.last().0, s.last().1).insert(p.0, p.1));
    }
}

/// Extending a prefix by one entry inserts that entry's pair.
pub proof fn lemma_pairs_map_take_succ<K, V>(s: Seq<(K, V)>, i: int)
    requires
        0 <= i < s.len(),
    ensures
        pairs_map(s.take(i + 1)) == pairs_map(s.take(i)).insert(s[i].0, s[i].1),
{
    assert(s.take(i + 1) =~= s.take(i).push(s[i]));
    lemma_pairs_map_push(s.take(i), s[i]);
}

} // verus!
