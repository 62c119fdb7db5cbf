//! The mathematical model of an association list: a sequence of key-value
//! pairs with pairwise-distinct keys, read as a finite map. Both the
//! storage substrate and the collection's cache are association lists at
//! the executable level and maps at the specification level.

use vstd::prelude::*;

verus! {

/// The map that a sequence of key-value pairs denotes; later pairs win,
/// though under `distinct_keys` each key occurs at most once.
pub open spec fn assoc_map<K, V>(s: Seq<(K, V)>) -> Map<K, V>
    decreases s.len(),
{
    if s.len() == 0 {
        Map::empty()
    } else {
        assoc_map(s.drop_last()).insert(s.last().0, s.last().1)
    }
}

/// No key occurs at two positions.
pub open spec fn distinct_keys<K, V>(s: Seq<(K, V)>) -> bool {
    forall|i: int, j: int| 0 <= i < j < s.len() ==> s[i].0 != s[j].0
}

/// A key is in the map exactly when some pair carries it.
pub proof fn lemma_assoc_contains<K, V>(s: Seq<(K, V)>, k: K)
    ensures
        assoc_map(s).contains_key(k) <==> exists|i: int| 0 <= i < s.len() && s[i].0 == k,
    decreases s.len(),
{
    if s.len() > 0 {
        lemma_assoc_contains(s.drop_last(), k);
        if s.last().0 == k {
            assert(s[s.len() - 1].0 == k);
        } else if assoc_map(s).contains_key(k) {
            let i = choose|i: int| 0 <= i < s.drop_last().len() && s.drop_last()[i].0 == k;
            assert(s[i].0 == k);
        } else if exists|i: int| 0 <= i < s.len() && s[i].0 == k {
            let i = choose|i: int| 0 <= i < s.len() && s[i].0 == k;
            assert(s.drop_last()[i].0 == k);
        }
    }
}

/// Under distinct keys, the pair at any position gives the map's value at
/// its key.
pub proof fn lemma_assoc_at<K, V>(s: Seq<(K, V)>, j: int)
    requires
        distinct_keys(s),
        0 <= j < s.len(),
    ensures
        assoc_map(s).contains_key(s[j].0),
        assoc_map(s)[s[j].0] == s[j].1,
    decreases s.len(),
{
    if j == s.len() - 1 {
    } else {
        lemma_assoc_at(s.drop_last(), j);
        assert(s.drop_last()[j] == s[j]);
        assert(s.last().0 != s[j].0);
    }
}

/// Appending a pair with a fresh key inserts it into the map.
pub proof fn lemma_assoc_push<K, V>(s: Seq<(K, V)>, k: K, v: V)
    requires
        forall|i: int| 0 <= i < s.len() ==> s[i].0 != k,
    ensures
        assoc_map(s.push((k, v))) == assoc_map(s).insert(k, v),
        distinct_keys(s) ==> distinct_keys(s.push((k, v))),
{
    assert(s.push((k, v)).drop_last() =~= s);
    let t = s.push((k, v));
    assert(distinct_keys(s) ==> forall|i: int, j: int|
        0 <= i < j < t.len() ==> t[i].0 != t[j].0) by {
        if distinct_keys(s) {
            assert forall|i: int, j: int| 0 <= i < j < t.len() implies t[i].0 != t[j].0 by {
                if j < t.len() - 1 {
                    assert(t[i] == s[i] && t[j] == s[j]);
                } else {
                    assert(t[i] == s[i] && t[j].0 == k);
                }
            }
        }
    }
}

/// Replacing the pair at a position, keeping its key, updates the map at
/// that key alone.
pub proof fn lemma_assoc_update<K, V>(s: Seq<(K, V)>, j: int, v: V)
    requires
        distinct_keys(s),
        0 <= j < s.len(),
    ensures
        assoc_map(s.update(j, (s[j].0, v))) == assoc_map(s).insert(s[j].0, v),
        distinct_keys(s.update(j, (s[j].0, v))),
    decreases s.len(),
{
    let t = s.update(j, (s[j].0, v));
    assert(distinct_keys(t)) by {
        assert forall|i: int, l: int| 0 <= i < l < t.len() implies t[i].0 != t[l].0 by {
            assert(t[i].0 == s[i].0 && t[l].0 == s[l].0);
        }
    }
    if j == s.len() - 1 {
        assert(t.drop_last() =~= s.drop_last());
        assert(assoc_map(t) == assoc_map(s.drop_last()).insert(s[j].0, v));
        assert(assoc_map(s) == assoc_map(s.drop_last()).insert(s[j].0, s[j].1));
        assert(assoc_map(s).insert(s[j].0, v) =~= assoc_map(s.drop_last()).insert(s[j].0, v));
    } else {
        assert(t.drop_last() =~= s.drop_last().update(j, (s[j].0, v)));
        assert(s.drop_last()[j] == s[j]);
        lemma_assoc_update(s.drop_last(), j, v);
        assert(s.last().0 != s[j].0);
        assert(assoc_map(t) == assoc_map(s.drop_last()).insert(s[j].0, v).insert(
            s.last().0,
            s.last().1,
        ));
        assert(assoc_map(s.drop_last()).insert(s[j].0, v).insert(s.last().0, s.last().1)
            =~= assoc_map(s.drop_last()).insert(s.last().0, s.last().1).insert(s[j].0, v));
    }
}

/// Removing the pair at a position removes its key from the map.
pub proof fn lemma_assoc_remove<K, V>(s: Seq<(K, V)>, j: int)
    requires
        distinct_keys(s),
        0 <= j < s.len(),
    ensures
        assoc_map(s.remove(j)) == assoc_map(s).remove(s[j].0),
        distinct_keys(s.remove(j)),
    decreases s.len(),
{
    let t = s.remove(j);
    assert(distinct_keys(t)) by {
        assert forall|i: int, l: int| 0 <= i < l < t.len() implies t[i].0 != t[l].0 by {
            let i0 = if i < j { i } else { i + 1 };
            let l0 = if l < j { l } else { l + 1 };
            assert(t[i].0 == s[i0].0 && t[l].0 == s[l0].0);
        }
    }
    if j == s.len() - 1 {
        assert(t =~= s.drop_last());
        lemma_assoc_contains(s.drop_last(), s[j].0);
        assert(forall|i: int| 0 <= i < s.drop_last().len() ==> s.drop_last()[i].0 != s[j].0);
        assert(!assoc_map(s.drop_last()).contains_key(s[j].0));
        assert(assoc_map(s).remove(s[j].0) =~= assoc_map(s.drop_last()));
    } else {
        assert(t.drop_last() =~= s.drop_last().remove(j));
        assert(s.drop_last()[j] == s[j]);
        lemma_assoc_remove(s.drop_last(), j);
        assert(t.last() == s.last());
        assert(assoc_map(t) == assoc_map(s.drop_last()).remove(s[j].0).insert(
            s.last().0,
            s.last().1,
        ));
        assert(s.last().0 != s[j].0);
        assert(assoc_map(s.drop_last()).remove(s[j].0).insert(s.last().0, s.last().1)
            =~= assoc_map(s.drop_last()).insert(s.last().0, s.last().1).remove(s[j].0));
    }
}

} // verus!
