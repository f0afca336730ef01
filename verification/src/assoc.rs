use vstd::prelude::*;

verus! {

/// The finite map that a sequence of key-value pairs denotes; a later pair
/// wins over an earlier one with the same key.
pub open spec fn assoc_map<K, V>(s: Seq<(K, V)>) -> Map<K, V>
    decreases s.len(),
{
    if s.len() == 0 {
        Map::empty()
    } else {
        assoc_map(s.drop_last()).insert(s.last().0, s.last().1)
    }
}

/// Whether no two pairs of `s` share a key.
pub open spec fn assoc_keys_unique<K, V>(s: Seq<(K, V)>) -> bool {
    forall|i: int, j: int| 0 <= i < j < s.len() ==> (#[trigger] s[i]).0 != (#[trigger] s[j]).0
}

/// A key is in the denoted map exactly when some pair of the sequence holds it.
pub proof fn lemma_assoc_map_contains<K, V>(s: Seq<(K, V)>, k: K)
    ensures
        assoc_map(s).contains_key(k) <==> exists|i: int| 0 <= i < s.len() && (#[trigger] s[i]).0
            == k,
    decreases s.len(),
{
    if s.len() > 0 {
        lemma_assoc_map_contains(s.drop_last(), k);
        if s.last().0 == k {
            assert((s[s.len() - 1]).0 == k);
        } else if assoc_map(s).contains_key(k) {
            let i = choose|i: int| 0 <= i < s.drop_last().len() && (#[trigger] s.drop_last()[i]).0
                == k;
            assert((s[i]).0 == k);
        } else if exists|i: int| 0 <= i < s.len() && (#[trigger] s[i]).0 == k {
            let i = choose|i: int| 0 <= i < s.len() && (#[trigger] s[i]).0 == k;
            assert(i < s.len() - 1);
            assert((s.drop_last()[i]).0 == k);
        }
    }
}

/// With unique keys, each pair of the sequence is in the denoted map as given.
pub proof fn lemma_assoc_map_at<K, V>(s: Seq<(K, V)>, i: int)
    requires
        assoc_keys_unique(s),
        0 <= i < s.len(),
    ensures
        assoc_map(s).contains_key(s[i].0),
        assoc_map(s)[s[i].0] == s[i].1,
    decreases s.len(),
{
    if i == s.len() - 1 {
    } else {
        assert(assoc_keys_unique(s.drop_last())) by {
            assert(forall|a: int, b: int|
                0 <= a < b < s.drop_last().len() ==> (#[trigger] s.drop_last()[a]).0 != (
                #[trigger] s.drop_last()[b]).0);
        }
        assert((s.drop_last()[i]) == s[i]);
        lemma_assoc_map_at(s.drop_last(), i);
        assert(s[i].0 != s.last().0);
    }
}

/// Appending a pair denotes inserting its key.
pub proof fn lemma_assoc_map_push<K, V>(s: Seq<(K, V)>, k: K, v: V)
    ensures
        assoc_map(s.push((k, v))) == assoc_map(s).insert(k, v),
{
    assert(s.push((k, v)).drop_last() =~= s);
    assert(s.push((k, v)).last() == (k, v));
}

/// With unique keys, overwriting the pair at `i` denotes inserting its key.
pub proof fn lemma_assoc_map_update<K, V>(s: Seq<(K, V)>, i: int, v: V)
    requires
        assoc_keys_unique(s),
        0 <= i < s.len(),
    ensures
        assoc_map(s.update(i, (s[i].0, v))) == assoc_map(s).insert(s[i].0, v),
    decreases s.len(),
{
    let t = s.update(i, (s[i].0, v));
    if i == s.len() - 1 {
        assert(t.drop_last() =~= s.drop_last());
        assert(t.last() == (s[i].0, v));
        assert(assoc_map(s.drop_last()).insert(s[i].0, s[i].1).insert(s[i].0, v)
            =~= assoc_map(s.drop_last()).insert(s[i].0, v));
    } else {
        assert(assoc_keys_unique(s.drop_last())) by {
            assert(forall|a: int, b: int|
                0 <= a < b < s.drop_last().len() ==> (#[trigger] s.drop_last()[a]).0 != (
                #[trigger] s.drop_last()[b]).0);
        }
        assert((s.drop_last()[i]) == s[i]);
        lemma_assoc_map_update(s.drop_last(), i, v);
        assert(t.drop_last() =~= s.drop_last().update(i, (s[i].0, v)));
        assert(t.last() == s.last());
        assert(s[i].0 != s.last().0);
        assert(assoc_map(s.drop_last()).insert(s[i].0, v).insert(s.last().0, s.last().1)
            =~= assoc_map(s.drop_last()).insert(s.last().0, s.last().1).insert(s[i].0, v));
    }
}

/// With unique keys, dropping the pair at `i` denotes removing its key.
pub proof fn lemma_assoc_map_remove<K, V>(s: Seq<(K, V)>, i: int)
    requires
        assoc_keys_unique(s),
        0 <= i < s.len(),
    ensures
        assoc_map(s.remove(i)) == assoc_map(s).remove(s[i].0),
    decreases s.len(),
{
    let t = s.remove(i);
    if i == s.len() - 1 {
        assert(t =~= s.drop_last());
        lemma_assoc_map_contains(s.drop_last(), s[i].0);
        assert(forall|j: int|
            0 <= j < s.drop_last().len() ==> (#[trigger] s.drop_last()[j]) == s[j]);
        assert(!assoc_map(s.drop_last()).contains_key(s[i].0));
        assert(assoc_map(s.drop_last()).insert(s[i].0, s[i].1).remove(s[i].0) =~= assoc_map(
            s.drop_last(),
        ));
    } else {
        assert(assoc_keys_unique(s.drop_last())) by {
            assert(forall|a: int, b: int|
                0 <= a < b < s.drop_last().len() ==> (#[trigger] s.drop_last()[a]).0 != (
                #[trigger] s.drop_last()[b]).0);
        }
        assert((s.drop_last()[i]) == s[i]);
        lemma_assoc_map_remove(s.drop_last(), i);
        assert(t.drop_last() =~= s.drop_last().remove(i));
        assert(t.last() == s.last());
        assert(s[i].0 != s.last().0);
        assert(assoc_map(s.drop_last()).remove(s[i].0).insert(s.last().0, s.last().1)
            =~= assoc_map(s.drop_last()).insert(s.last().0, s.last().1).remove(s[i].0));
    }
}

/// A sequence with unique keys and a non-empty length denotes a non-empty map,
/// and an empty one denotes the empty map.
pub proof fn lemma_assoc_map_empty<K, V>(s: Seq<(K, V)>)
    ensures
        (s.len() == 0) == (assoc_map(s) =~= Map::<K, V>::empty()),
{
    if s.len() > 0 {
        lemma_assoc_map_contains(s, s[0].0);
        assert((s[0]).0 == s[0].0);
        assert(assoc_map(s).contains_key(s[0].0));
    }
}

} // verus!
