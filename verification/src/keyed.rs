//! Sequences of key–value pairs read as maps.
//!
//! The registry and the table of live challenges are vectors in which no key occurs
//! twice. The lemmas here relate what is done to such a sequence (append, replace,
//! remove, filter) to what happens to the map it stands for.

use vstd::prelude::*;

verus! {

/// No key occurs twice in `s`.
pub open spec fn distinct_keys<K, V>(s: Seq<(K, V)>) -> bool {
    forall|i: int, j: int| 0 <= i < j < s.len() ==> (#[trigger] s[i]).0 != (#[trigger] s[j]).0
}

/// Some pair of `s` has the key `k`.
pub open spec fn holds_key<K, V>(s: Seq<(K, V)>, k: K) -> bool {
    exists|i: int| 0 <= i < s.len() && (#[trigger] s[i]).0 == k
}

/// The place of a pair with the key `k`, where there is one.
pub open spec fn position<K, V>(s: Seq<(K, V)>, k: K) -> int {
    choose|i: int| 0 <= i < s.len() && (#[trigger] s[i]).0 == k
}

/// The map that `s` stands for: its domain is the keys that occur, and each key is
/// mapped to the value it is paired with.
pub open spec fn as_map<K, V>(s: Seq<(K, V)>) -> Map<K, V> {
    Map::new(|k: K| holds_key(s, k), |k: K| s[position(s, k)].1)
}

/// The pair at place `i` is what the map holds for its key.
pub proof fn lemma_lookup<K, V>(s: Seq<(K, V)>, i: int)
    requires
        distinct_keys(s),
        0 <= i < s.len(),
    ensures
        as_map(s).contains_key(s[i].0),
        as_map(s)[s[i].0] == s[i].1,
{
    let k = s[i].0;
    assert(holds_key(s, k));
    let j = position(s, k);
    assert(0 <= j < s.len() && s[j].0 == k);
    if j < i {
        assert(s[j].0 != s[i].0);
    } else if i < j {
        assert(s[i].0 != s[j].0);
    }
}

/// A key that no pair has is not in the map.
pub proof fn lemma_absent<K, V>(s: Seq<(K, V)>, k: K)
    requires
        forall|i: int| 0 <= i < s.len() ==> (#[trigger] s[i]).0 != k,
    ensures
        !as_map(s).contains_key(k),
{
}

/// Appending a pair with a new key inserts it into the map.
pub proof fn lemma_push<K, V>(s: Seq<(K, V)>, k: K, v: V)
    requires
        distinct_keys(s),
        !as_map(s).contains_key(k),
    ensures
        distinct_keys(s.push((k, v))),
        as_map(s.push((k, v))) == as_map(s).insert(k, v),
{
    let t = s.push((k, v));
    assert forall|i: int, j: int| 0 <= i < j < t.len() implies (#[trigger] t[i]).0 != (
    #[trigger] t[j]).0 by {
        if j == s.len() {
            assert(t[i] == s[i]);
            if s[i].0 == k {
                assert(holds_key(s, k));
            }
        } else {
            assert(t[i] == s[i] && t[j] == s[j]);
        }
    }
    assert forall|key: K| as_map(t).contains_key(key) <==> #[trigger] as_map(s).insert(
        k,
        v,
    ).contains_key(key) by {
        if holds_key(t, key) {
            let i = position(t, key);
            if i < s.len() {
                assert(s[i].0 == key);
            }
        }
        if holds_key(s, key) {
            let i = position(s, key);
            assert(t[i].0 == key);
        }
        if key == k {
            assert(t[s.len() as int].0 == key);
        }
    }
    assert forall|key: K| as_map(t).contains_key(key) implies #[trigger] as_map(t)[key]
        == as_map(s).insert(k, v)[key] by {
        let i = position(t, key);
        lemma_lookup(t, i);
        if i < s.len() {
            assert(t[i] == s[i]);
            lemma_lookup(s, i);
        }
    }
    assert(as_map(t) =~= as_map(s).insert(k, v));
}

/// Replacing the value at place `i` replaces what the map holds for its key.
pub proof fn lemma_update<K, V>(s: Seq<(K, V)>, i: int, v: V)
    requires
        distinct_keys(s),
        0 <= i < s.len(),
    ensures
        distinct_keys(s.update(i, (s[i].0, v))),
        as_map(s.update(i, (s[i].0, v))) == as_map(s).insert(s[i].0, v),
{
    let k = s[i].0;
    let t = s.update(i, (k, v));
    assert forall|a: int, b: int| 0 <= a < b < t.len() implies (#[trigger] t[a]).0 != (
    #[trigger] t[b]).0 by {
        assert(t[a].0 == s[a].0 && t[b].0 == s[b].0);
    }
    assert forall|key: K| as_map(t).contains_key(key) <==> #[trigger] as_map(s).insert(
        k,
        v,
    ).contains_key(key) by {
        if holds_key(t, key) {
            let j = position(t, key);
            assert(s[j].0 == key);
        }
        if holds_key(s, key) {
            let j = position(s, key);
            assert(t[j].0 == key);
        }
        if key == k {
            assert(t[i].0 == key);
        }
    }
    assert forall|key: K| as_map(t).contains_key(key) implies #[trigger] as_map(t)[key]
        == as_map(s).insert(k, v)[key] by {
        let j = position(t, key);
        lemma_lookup(t, j);
        if j != i {
            assert(t[j] == s[j]);
            lemma_lookup(s, j);
            if j < i {
                assert(s[j].0 != s[i].0);
            } else {
                assert(s[i].0 != s[j].0);
            }
        }
    }
    assert(as_map(t) =~= as_map(s).insert(k, v));
}

/// Removing the pair at place `i` removes its key from the map.
pub proof fn lemma_remove<K, V>(s: Seq<(K, V)>, i: int)
    requires
        distinct_keys(s),
        0 <= i < s.len(),
    ensures
        distinct_keys(s.remove(i)),
        as_map(s.remove(i)) == as_map(s).remove(s[i].0),
{
    let k = s[i].0;
    let t = s.remove(i);
    let from = |a: int| if a < i { a } else { a + 1 };
    assert forall|a: int| 0 <= a < t.len() implies #[trigger] t[a] == s[from(a)] by {}
    assert forall|a: int, b: int| 0 <= a < b < t.len() implies (#[trigger] t[a]).0 != (
    #[trigger] t[b]).0 by {
        assert(t[a] == s[from(a)] && t[b] == s[from(b)]);
        assert(s[from(a)].0 != s[from(b)].0);
    }
    assert forall|key: K| as_map(t).contains_key(key) <==> #[trigger] as_map(s).remove(
        k,
    ).contains_key(key) by {
        if holds_key(t, key) {
            let j = position(t, key);
            assert(t[j] == s[from(j)]);
            assert(s[from(j)].0 == key);
            if from(j) < i {
                assert(s[from(j)].0 != s[i].0);
            } else {
                assert(s[i].0 != s[from(j)].0);
            }
        }
        if holds_key(s, key) && key != k {
            let j = position(s, key);
            if j < i {
                assert(t[j] == s[j]);
                assert(t[j].0 == key);
            } else {
                assert(t[j - 1] == s[from(j - 1)]);
                assert(t[j - 1].0 == key);
            }
        }
    }
    assert forall|key: K| as_map(t).contains_key(key) implies #[trigger] as_map(t)[key]
        == as_map(s).remove(k)[key] by {
        let j = position(t, key);
        lemma_lookup(t, j);
        assert(t[j] == s[from(j)]);
        lemma_lookup(s, from(j));
    }
    assert(as_map(t) =~= as_map(s).remove(k));
}

} // verus!
