//! Sequences of key-value pairs in which no key occurs twice, read as maps.

use vstd::prelude::*;

verus! {

/// No key occurs twice.
pub open spec fn keys_unique<K, V>(s: Seq<(K, V)>) -> bool {
    forall|i: int, j: int| 0 <= i < j < s.len() ==> (#[trigger] s[i]).0 != (#[trigger] s[j]).0
}

/// Some pair has the key `k`.
pub open spec fn has_key<K, V>(s: Seq<(K, V)>, k: K) -> bool {
    exists|i: int| 0 <= i < s.len() && (#[trigger] s[i]).0 == k
}

/// An index at which the key `k` stands, if there is one.
pub open spec fn index_of_key<K, V>(s: Seq<(K, V)>, k: K) -> int {
    choose|i: int| 0 <= i < s.len() && (#[trigger] s[i]).0 == k
}

/// The map from each key to the value beside it.
pub open spec fn as_map<K, V>(s: Seq<(K, V)>) -> Map<K, V> {
    Map::new(|k: K| has_key(s, k), |k: K| s[index_of_key(s, k)].1)
}

/// With unique keys, the map holds each pair of the sequence.
pub proof fn lemma_as_map_at<K, V>(s: Seq<(K, V)>, i: int)
    requires
        keys_unique(s),
        0 <= i < s.len(),
    ensures
        has_key(s, s[i].0),
        index_of_key(s, s[i].0) == i,
        as_map(s).contains_key(s[i].0),
        as_map(s)[s[i].0] == s[i].1,
{
    assert(has_key(s, s[i].0));
    let j = index_of_key(s, s[i].0);
    assert(0 <= j < s.len() && s[j].0 == s[i].0);
    if j < i {
        assert(s[j].0 != s[i].0);
    } else if i < j {
        assert(s[i].0 != s[j].0);
    }
}

/// Putting a pair with a new key anywhere into the sequence inserts it into the map.
pub proof fn lemma_as_map_insert<K, V>(s: Seq<(K, V)>, i: int, k: K, v: V)
    requires
        keys_unique(s),
        !has_key(s, k),
        0 <= i <= s.len(),
    ensures
        keys_unique(s.insert(i, (k, v))),
        as_map(s.insert(i, (k, v))) == as_map(s).insert(k, v),
{
    let t = s.insert(i, (k, v));
    assert forall|a: int, b: int| 0 <= a < b < t.len() implies (#[trigger] t[a]).0 != (
    #[trigger] t[b]).0 by {
        let a0 = if a < i { a } else { a - 1 };
        let b0 = if b < i { b } else { b - 1 };
        if a == i {
            assert(t[b] == s[b0]);
        } else if b == i {
            assert(t[a] == s[a0]);
        } else {
            assert(t[a] == s[a0]);
            assert(t[b] == s[b0]);
            assert(s[a0].0 != s[b0].0);
        }
    }
    assert(t[i] == (k, v));
    assert forall|q: K| has_key(t, q) <==> (q == k || has_key(s, q)) by {
        if has_key(t, q) {
            let a = index_of_key(t, q);
            let a0 = if a < i { a } else { a - 1 };
            if a != i {
                assert(t[a] == s[a0]);
            }
        }
        if has_key(s, q) {
            let a0 = index_of_key(s, q);
            let a = if a0 < i { a0 } else { a0 + 1 };
            assert(t[a] == s[a0]);
        }
    }
    assert forall|q: K| has_key(t, q) implies #[trigger] as_map(t)[q] == as_map(s).insert(k, v)[q] by {
        if q == k {
            lemma_as_map_at(t, i);
        } else {
            let a0 = index_of_key(s, q);
            let a = if a0 < i { a0 } else { a0 + 1 };
            assert(t[a] == s[a0]);
            lemma_as_map_at(t, a);
        }
    }
    assert(as_map(t) =~= as_map(s).insert(k, v));
}

/// Replacing the value beside a key updates the map at that key.
pub proof fn lemma_as_map_update<K, V>(s: Seq<(K, V)>, i: int, v: V)
    requires
        keys_unique(s),
        0 <= i < s.len(),
    ensures
        keys_unique(s.update(i, (s[i].0, v))),
        as_map(s.update(i, (s[i].0, v))) == as_map(s).insert(s[i].0, v),
{
    let k = s[i].0;
    let t = s.update(i, (k, v));
    assert forall|a: int, b: int| 0 <= a < b < t.len() implies (#[trigger] t[a]).0 != (
    #[trigger] t[b]).0 by {
        assert(t[a].0 == s[a].0);
        assert(t[b].0 == s[b].0);
    }
    assert forall|q: K| has_key(t, q) <==> has_key(s, q) by {
        if has_key(t, q) {
            let a = index_of_key(t, q);
            assert(s[a].0 == q);
        }
        if has_key(s, q) {
            let a = index_of_key(s, q);
            assert(t[a].0 == q);
        }
    }
    lemma_as_map_at(s, i);
    assert forall|q: K| has_key(t, q) implies #[trigger] as_map(t)[q] == as_map(s).insert(k, v)[q] by {
        let a = index_of_key(s, q);
        lemma_as_map_at(s, a);
        assert(t[a].0 == q);
        lemma_as_map_at(t, a);
    }
    assert(as_map(t) =~= as_map(s).insert(k, v));
}

/// The map of a sequence has finitely many keys: with unique keys, as many
/// as the sequence has pairs.
pub proof fn lemma_as_map_finite<K, V>(s: Seq<(K, V)>)
    ensures
        as_map(s).dom().finite(),
        keys_unique(s) ==> as_map(s).dom().len() == s.len(),
    decreases s.len(),
{
    if s.len() == 0 {
        assert(as_map(s).dom() =~= Set::<K>::empty());
    } else {
        let r = s.drop_last();
        lemma_as_map_finite(r);
        assert forall|q: K| has_key(s, q) <==> (q == s.last().0 || has_key(r, q)) by {
            if has_key(s, q) {
                let a = index_of_key(s, q);
                if a < r.len() {
                    assert(r[a].0 == q);
                }
            }
            if has_key(r, q) {
                let a = index_of_key(r, q);
                assert(s[a].0 == q);
            }
            if q == s.last().0 {
                assert(s[s.len() - 1].0 == q);
            }
        }
        assert(as_map(s).dom() =~= as_map(r).dom().insert(s.last().0));
        if keys_unique(s) {
            assert forall|a: int, b: int| 0 <= a < b < r.len() implies (#[trigger] r[a]).0 != (
            #[trigger] r[b]).0 by {
                assert(r[a] == s[a]);
                assert(r[b] == s[b]);
            }
            if has_key(r, s.last().0) {
                let a = index_of_key(r, s.last().0);
                assert(s[a].0 == s[s.len() - 1].0);
            }
        }
    }
}

} // verus!
