//! Reasoning support for association lists.
//!
//! Several broker tables (suppressors, passes, pools, the connection table,
//! the label registry) are stored as vectors of key/value pairs with distinct
//! keys. `amap` folds such a sequence into the `Map` it denotes; the lemmas
//! here relate the sequence operations the executable code performs to the
//! corresponding `Map` operations the contracts speak of.

use vstd::prelude::*;

verus! {

/// The map denoted by an association sequence; later pairs win, though under
/// `keys_unique` every key occurs at most once.
pub open spec fn amap<K, V>(s: Seq<(K, V)>) -> Map<K, V>
    decreases s.len(),
{
    if s.len() == 0 {
        Map::empty()
    } else {
        amap(s.drop_last()).insert(s.last().0, s.last().1)
    }
}

/// Every key occurs at most once.
pub open spec fn keys_unique<K, V>(s: Seq<(K, V)>) -> bool {
    forall|i: int, j: int| 0 <= i < j < s.len() ==> s[i].0 != s[j].0
}

/// Some pair carries key `k`.
pub open spec fn has_key<K, V>(s: Seq<(K, V)>, k: K) -> bool {
    exists|i: int| 0 <= i < s.len() && s[i].0 == k
}

/// The domain of `amap(s)` is exactly the set of keys occurring in `s`.
pub proof fn lemma_amap_dom<K, V>(s: Seq<(K, V)>)
    ensures
        forall|k: K| #[trigger] amap(s).dom().contains(k) <==> has_key(s, k),
    decreases s.len(),
{
    if s.len() > 0 {
        lemma_amap_dom(s.drop_last());
        assert forall|k: K| #[trigger] amap(s).dom().contains(k) implies has_key(s, k) by {
            if k == s.last().0 {
                assert(s[s.len() - 1].0 == k);
            } else {
                assert(amap(s.drop_last()).dom().contains(k));
                assert(has_key(s.drop_last(), k));
                let i = choose|i: int| 0 <= i < s.drop_last().len() && s.drop_last()[i].0 == k;
                assert(s.drop_last()[i] == s[i]);
                assert(s[i].0 == k);
            }
        }
        assert forall|k: K| has_key(s, k) implies #[trigger] amap(s).dom().contains(k) by {
            let i = choose|i: int| 0 <= i < s.len() && s[i].0 == k;
            if i < s.len() - 1 {
                assert(s.drop_last()[i].0 == k);
                assert(has_key(s.drop_last(), k));
                assert(amap(s.drop_last()).dom().contains(k));
            } else {
                assert(k == s.last().0);
            }
        }
    }
}

/// With unique keys, the pair at index `i` gives the map's value at its key.
pub proof fn lemma_amap_get<K, V>(s: Seq<(K, V)>, i: int)
    requires
        keys_unique(s),
        0 <= i < s.len(),
    ensures
        amap(s).dom().contains(s[i].0),
        amap(s)[s[i].0] == s[i].1,
    decreases s.len(),
{
    if i == s.len() - 1 {
    } else {
        assert(s.drop_last()[i] == s[i]);
        lemma_amap_get(s.drop_last(), i);
        assert(s[i].0 != s.last().0);
    }
}

/// Appending a pair inserts its binding.
pub proof fn lemma_amap_push<K, V>(s: Seq<(K, V)>, k: K, v: V)
    ensures
        amap(s.push((k, v))) == amap(s).insert(k, v),
{
    assert(s.push((k, v)).drop_last() =~= s);
    assert(s.push((k, v)).last() == (k, v));
}

/// Replacing the pair at index `i` by one with the same key overwrites that
/// key's binding.
pub proof fn lemma_amap_update<K, V>(s: Seq<(K, V)>, i: int, v: V)
    requires
        keys_unique(s),
        0 <= i < s.len(),
    ensures
        amap(s.update(i, (s[i].0, v))) == amap(s).insert(s[i].0, v),
    decreases s.len(),
{
    let k = s[i].0;
    let t = s.update(i, (k, v));
    if i == s.len() - 1 {
        assert(t.drop_last() =~= s.drop_last());
        assert(t.last() == (k, v));
        assert(amap(t) == amap(s.drop_last()).insert(k, v));
        assert(amap(s.drop_last()).insert(k, s[i].1).insert(k, v) =~= amap(s.drop_last()).insert(
            k,
            v,
        ));
    } else {
        assert(t.drop_last() =~= s.drop_last().update(i, (k, v)));
        assert(s.drop_last()[i] == s[i]);
        lemma_amap_update(s.drop_last(), i, v);
        assert(t.last() == s.last());
        assert(k != s.last().0);
        assert(amap(s.drop_last()).insert(k, v).insert(s.last().0, s.last().1)
            =~= amap(s.drop_last()).insert(s.last().0, s.last().1).insert(k, v));
    }
}

/// Removing the pair at index `i` removes its key's binding.
pub proof fn lemma_amap_remove<K, V>(s: Seq<(K, V)>, i: int)
    requires
        keys_unique(s),
        0 <= i < s.len(),
    ensures
        amap(s.remove(i)) == amap(s).remove(s[i].0),
    decreases s.len(),
{
    let k = s[i].0;
    let t = s.remove(i);
    if i == s.len() - 1 {
        assert(t =~= s.drop_last());
        lemma_amap_dom::<K, V>(s.drop_last());
        assert(!has_key(s.drop_last(), k)) by {
            if has_key(s.drop_last(), k) {
                let j = choose|j: int|
                    0 <= j < s.drop_last().len() && s.drop_last()[j].0 == k;
                assert(s[j].0 == k);
            }
        }
        assert(amap(s.drop_last()).insert(k, s.last().1).remove(k) =~= amap(s.drop_last()));
    } else {
        assert(t.drop_last() =~= s.drop_last().remove(i));
        assert(s.drop_last()[i] == s[i]);
        lemma_amap_remove(s.drop_last(), i);
        assert(t.last() == s.last());
        assert(k != s.last().0);
        assert(amap(s.drop_last()).remove(k).insert(s.last().0, s.last().1)
            =~= amap(s.drop_last()).insert(s.last().0, s.last().1).remove(k));
        assert(amap(t) == amap(t.drop_last()).insert(t.last().0, t.last().1));
    }
}

/// Removing one pair keeps the remaining keys distinct.
pub proof fn lemma_keys_unique_remove<K, V>(s: Seq<(K, V)>, i: int)
    requires
        keys_unique(s),
        0 <= i < s.len(),
    ensures
        keys_unique(s.remove(i)),
{
    let t = s.remove(i);
    assert forall|a: int, b: int| 0 <= a < b < t.len() implies t[a].0 != t[b].0 by {
        let a2 = if a < i {
            a
        } else {
            a + 1
        };
        let b2 = if b < i {
            b
        } else {
            b + 1
        };
        assert(t[a] == s[a2]);
        assert(t[b] == s[b2]);
    }
}

/// Overwriting one value and appending a fresh key keeps keys distinct.
pub proof fn lemma_keys_unique_update_push<K, V>(s: Seq<(K, V)>, i: int, v: V, k2: K, v2: V)
    requires
        keys_unique(s),
        0 <= i < s.len(),
        !has_key(s, k2),
    ensures
        keys_unique(s.update(i, (s[i].0, v)).push((k2, v2))),
{
    let t = s.update(i, (s[i].0, v)).push((k2, v2));
    assert forall|a: int, b: int| 0 <= a < b < t.len() implies t[a].0 != t[b].0 by {
        if b == t.len() - 1 {
            assert(t[a].0 == s[a].0);
            if t[a].0 == k2 {
                assert(s[a].0 == k2);
            }
        } else {
            assert(t[a].0 == s[a].0);
            assert(t[b].0 == s[b].0);
        }
    }
}

/// Appending a pair with a fresh key keeps keys distinct.
pub proof fn lemma_keys_unique_push<K, V>(s: Seq<(K, V)>, k2: K, v2: V)
    requires
        keys_unique(s),
        !has_key(s, k2),
    ensures
        keys_unique(s.push((k2, v2))),
{
    let t = s.push((k2, v2));
    assert forall|a: int, b: int| 0 <= a < b < t.len() implies t[a].0 != t[b].0 by {
        if b == t.len() - 1 {
            assert(t[a].0 == s[a].0);
            if t[a].0 == k2 {
                assert(s[a].0 == k2);
            }
        } else {
            assert(t[a].0 == s[a].0);
            assert(t[b].0 == s[b].0);
        }
    }
}

} // verus!
