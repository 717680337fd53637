//! Association lists: a sequence of key/value pairs read as a map, where a
//! later pair for a key replaces an earlier one. The library keeps its
//! tables in vectors of pairs with distinct keys.

use vstd::prelude::*;

verus! {

/// The map that the pairs describe; a later pair overrides an earlier one.
pub open spec fn assoc<K, V>(s: Seq<(K, V)>) -> Map<K, V>
    decreases s.len(),
{
    if s.len() == 0 {
        Map::empty()
    } else {
        assoc(s.drop_last()).insert(s.last().0, s.last().1)
    }
}

/// No key occurs twice.
pub open spec fn keys_distinct<K, V>(s: Seq<(K, V)>) -> bool {
    forall|i: int, j: int| 0 <= i < j < s.len() ==> s[i].0 != s[j].0
}

/// A key is in the map exactly when some pair holds it; with distinct keys
/// its value is that pair's value.
pub proof fn lemma_assoc_lookup<K, V>(s: Seq<(K, V)>, k: K)
    requires
        keys_distinct(s),
    ensures
        assoc(s).contains_key(k) <==> exists|i: int| 0 <= i < s.len() && s[i].0 == k,
        forall|i: int| 0 <= i < s.len() && s[i].0 == k ==> assoc(s)[k] == s[i].1,
    decreases s.len(),
{
    if s.len() > 0 {
        let t = s.drop_last();
        lemma_assoc_lookup(t, k);
        if s.last().0 != k {
            if assoc(s).contains_key(k) {
                let i = choose|i: int| 0 <= i < t.len() && t[i].0 == k;
                assert(s[i].0 == k);
            }
            if exists|i: int| 0 <= i < s.len() && s[i].0 == k {
                let i = choose|i: int| 0 <= i < s.len() && s[i].0 == k;
                assert(t[i].0 == k);
            }
        } else {
            let n: int = s.len() - 1;
            assert(s[n].0 == k);
            assert forall|i: int| 0 <= i < s.len() && s[i].0 == k implies assoc(s)[k] == s[i].1 by {
                if i < n {
                    assert(s[i].0 != s[n].0);
                }
            }
        }
    }
}

/// Appending a pair inserts it.
pub proof fn lemma_assoc_push<K, V>(s: Seq<(K, V)>, k: K, v: V)
    ensures
        assoc(s.push((k, v))) == assoc(s).insert(k, v),
{
    assert(s.push((k, v)).drop_last() =~= s);
}

/// Replacing the value of a pair replaces the key's value in the map.
pub proof fn lemma_assoc_update<K, V>(s: Seq<(K, V)>, i: int, v: V)
    requires
        keys_distinct(s),
        0 <= i < s.len(),
    ensures
        assoc(s.update(i, (s[i].0, v))) == assoc(s).insert(s[i].0, v),
        keys_distinct(s.update(i, (s[i].0, v))),
    decreases s.len(),
{
    let u = s.update(i, (s[i].0, v));
    let n: int = s.len() - 1;
    if i == n {
        assert(u.drop_last() =~= s.drop_last());
        assert(assoc(u) =~= assoc(s).insert(s[i].0, v));
    } else {
        let t = s.drop_last();
        lemma_assoc_update(t, i, v);
        assert(u.drop_last() =~= t.update(i, (t[i].0, v)));
        assert(s[i].0 != s[n].0);
        assert(assoc(u) =~= assoc(s).insert(s[i].0, v));
    }
    assert forall|a: int, b: int| 0 <= a < b < u.len() implies u[a].0 != u[b].0 by {
        assert(u[a].0 == s[a].0 && u[b].0 == s[b].0);
    }
}

/// With distinct keys, the map has as many keys as there are pairs.
pub proof fn lemma_assoc_len<K, V>(s: Seq<(K, V)>)
    requires
        keys_distinct(s),
    ensures
        assoc(s).dom().finite(),
        assoc(s).dom().len() == s.len(),
    decreases s.len(),
{
    if s.len() > 0 {
        let t = s.drop_last();
        lemma_assoc_len(t);
        lemma_assoc_lookup(t, s.last().0);
        if assoc(t).contains_key(s.last().0) {
            let i = choose|i: int| 0 <= i < t.len() && t[i].0 == s.last().0;
            assert(s[i].0 == s[s.len() - 1].0);
        }
    }
}

/// The position of the pair whose key is `k`, if there is one.
pub fn position<X>(v: &Vec<(String, X)>, k: &String) -> (r: Option<usize>)
    ensures
        match r {
            Some(i) => i < v@.len() && v@[i as int].0@ == k@,
            None => forall|i: int| 0 <= i < v@.len() ==> v@[i].0@ != k@,
        },
{
    let mut i: usize = 0;
    while i < v.len()
        invariant
            i <= v@.len(),
            forall|j: int| 0 <= j < i ==> v@[j].0@ != k@,
        decreases v@.len() - i,
    {
        if v[i].0 == *k {
            return Some(i);
        }
        i = i + 1;
    }
    None
}

} // verus!
