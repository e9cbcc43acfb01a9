//! Specification helpers for sequences of key/value pairs.
//!
//! The store keeps columns as insertion-ordered pair sequences whose keys
//! are unique; these functions give lookups by key a spec-level meaning.

use vstd::prelude::*;

verus! {

/// Some pair of the sequence carries `key`.
pub open spec fn has_key<K, V>(s: Seq<(K, V)>, key: K) -> bool {
    exists|i: int| 0 <= i < s.len() && s[i].0 == key
}

/// The position of the pair carrying `key` (meaningful when `has_key` holds
/// and the keys are unique).
pub open spec fn index_of_key<K, V>(s: Seq<(K, V)>, key: K) -> int {
    choose|i: int| 0 <= i < s.len() && s[i].0 == key
}

/// The value stored under `key`.
pub open spec fn value_of_key<K, V>(s: Seq<(K, V)>, key: K) -> V {
    s[index_of_key(s, key)].1
}

/// No two pairs of the sequence carry the same key.
pub open spec fn unique_keys<K, V>(s: Seq<(K, V)>) -> bool {
    forall|i: int, j: int| 0 <= i < j < s.len() ==> s[i].0 != s[j].0
}

/// The sequence with `key` bound to `v`: updated in place when present,
/// appended otherwise.
pub open spec fn upsert<K, V>(s: Seq<(K, V)>, key: K, v: V) -> Seq<(K, V)> {
    if has_key(s, key) {
        s.update(index_of_key(s, key), (key, v))
    } else {
        s.push((key, v))
    }
}

/// The sequence with the pair carrying `key` taken out, if there was one.
pub open spec fn remove_key<K, V>(s: Seq<(K, V)>, key: K) -> Seq<(K, V)> {
    if has_key(s, key) {
        s.remove(index_of_key(s, key))
    } else {
        s
    }
}

/// With unique keys, a pair found at position `i` is the pair that the
/// spec-level lookup denotes.
pub proof fn lemma_index_of_key_found<K, V>(s: Seq<(K, V)>, key: K, i: int)
    requires
        unique_keys(s),
        0 <= i < s.len(),
        s[i].0 == key,
    ensures
        has_key(s, key),
        index_of_key(s, key) == i,
        value_of_key(s, key) == s[i].1,
{
    assert(has_key(s, key));
    let j = index_of_key(s, key);
    if i < j {
        assert(s[i].0 != s[j].0);
    } else if j < i {
        assert(s[j].0 != s[i].0);
    }
}

/// The spec-level lookup lands inside the sequence whenever the key occurs.
pub proof fn lemma_index_of_key_in_range<K, V>(s: Seq<(K, V)>, key: K)
    requires
        has_key(s, key),
    ensures
        0 <= index_of_key(s, key) < s.len(),
        s[index_of_key(s, key)].0 == key,
{
}

/// Appending a fresh key keeps the keys unique, makes the new key readable,
/// and leaves every other key's value as it was.
pub proof fn lemma_push_new_key<K, V>(s: Seq<(K, V)>, key: K, v: V)
    requires
        unique_keys(s),
        !has_key(s, key),
    ensures
        unique_keys(s.push((key, v))),
        has_key(s.push((key, v)), key),
        index_of_key(s.push((key, v)), key) == s.len(),
        value_of_key(s.push((key, v)), key) == v,
        forall|k2: K| k2 != key ==> has_key(s.push((key, v)), k2) == has_key(s, k2),
        forall|k2: K|
            k2 != key && has_key(s, k2) ==> index_of_key(s.push((key, v)), k2) == index_of_key(
                s,
                k2,
            ) && value_of_key(s.push((key, v)), k2) == value_of_key(s, k2),
    decreases s.len(),
{
    let t = s.push((key, v));
    assert(t[s.len() as int].0 == key);
    lemma_index_of_key_found(t, key, s.len() as int);
    assert forall|k2: K| k2 != key implies has_key(t, k2) == has_key(s, k2) by {
        if has_key(s, k2) {
            let i = index_of_key(s, k2);
            assert(t[i].0 == k2);
        }
        if has_key(t, k2) {
            let i = index_of_key(t, k2);
            assert(0 <= i < t.len() && t[i].0 == k2);
            assert(i < s.len());
            assert(s[i].0 == k2);
        }
    }
    assert forall|k2: K| k2 != key && has_key(s, k2) implies index_of_key(t, k2) == index_of_key(
        s,
        k2,
    ) && value_of_key(t, k2) == value_of_key(s, k2) by {
        let i = index_of_key(s, k2);
        lemma_index_of_key_in_range(s, k2);
        assert(t[i].0 == k2);
        lemma_index_of_key_found(t, k2, i);
    }
}

/// Replacing the value stored at one position, keeping its key, preserves
/// uniqueness and every other key's value.
pub proof fn lemma_update_value<K, V>(s: Seq<(K, V)>, i: int, v: V)
    requires
        unique_keys(s),
        0 <= i < s.len(),
    ensures
        unique_keys(s.update(i, (s[i].0, v))),
        forall|k2: K| has_key(s.update(i, (s[i].0, v)), k2) == has_key(s, k2),
        index_of_key(s.update(i, (s[i].0, v)), s[i].0) == i,
        value_of_key(s.update(i, (s[i].0, v)), s[i].0) == v,
        forall|k2: K|
            k2 != s[i].0 && has_key(s, k2) ==> index_of_key(s.update(i, (s[i].0, v)), k2)
                == index_of_key(s, k2) && value_of_key(s.update(i, (s[i].0, v)), k2)
                == value_of_key(s, k2),
{
    let t = s.update(i, (s[i].0, v));
    assert(forall|j: int| 0 <= j < s.len() ==> t[j].0 == s[j].0);
    lemma_index_of_key_found(s, s[i].0, i);
    assert(t[i].0 == s[i].0);
    lemma_index_of_key_found(t, s[i].0, i);
    assert forall|k2: K| has_key(t, k2) == has_key(s, k2) by {
        if has_key(s, k2) {
            let j = index_of_key(s, k2);
            assert(t[j].0 == k2);
        }
        if has_key(t, k2) {
            let j = index_of_key(t, k2);
            assert(s[j].0 == k2);
        }
    }
    assert forall|k2: K| k2 != s[i].0 && has_key(s, k2) implies index_of_key(t, k2)
        == index_of_key(s, k2) && value_of_key(t, k2) == value_of_key(s, k2) by {
        let j = index_of_key(s, k2);
        lemma_index_of_key_in_range(s, k2);
        assert(j != i);
        assert(t[j] == s[j]);
        lemma_index_of_key_found(t, k2, j);
    }
}

/// Removing the pair at one position takes its key out and leaves every
/// other key's value as it was.
pub proof fn lemma_remove_key<K, V>(s: Seq<(K, V)>, i: int)
    requires
        unique_keys(s),
        0 <= i < s.len(),
    ensures
        unique_keys(s.remove(i)),
        !has_key(s.remove(i), s[i].0),
        forall|k2: K|
            k2 != s[i].0 ==> has_key(s.remove(i), k2) == has_key(s, k2) && (has_key(s, k2)
                ==> value_of_key(s.remove(i), k2) == value_of_key(s, k2)),
{
    let t = s.remove(i);
    assert(forall|j: int| 0 <= j < i ==> t[j] == s[j]);
    assert(forall|j: int| i <= j < t.len() ==> t[j] == s[j + 1]);
    assert forall|j1: int, j2: int| 0 <= j1 < j2 < t.len() implies t[j1].0 != t[j2].0 by {
        if j2 < i {
        } else if j1 < i {
            assert(t[j1] == s[j1] && t[j2] == s[j2 + 1]);
        } else {
            assert(t[j1] == s[j1 + 1] && t[j2] == s[j2 + 1]);
        }
    }
    assert forall|j: int| 0 <= j < t.len() implies t[j].0 != s[i].0 by {
        if j < i {
            assert(t[j] == s[j]);
        } else {
            assert(t[j] == s[j + 1]);
        }
    }
    assert forall|k2: K| k2 != s[i].0 implies has_key(t, k2) == has_key(s, k2) && (has_key(s, k2)
        ==> value_of_key(t, k2) == value_of_key(s, k2)) by {
        if has_key(s, k2) {
            let j = index_of_key(s, k2);
            lemma_index_of_key_in_range(s, k2);
            assert(j != i);
            if j < i {
                assert(t[j] == s[j]);
                lemma_index_of_key_found(t, k2, j);
            } else {
                assert(t[j - 1] == s[j]);
                lemma_index_of_key_found(t, k2, j - 1);
            }
        }
        if has_key(t, k2) {
            let j = index_of_key(t, k2);
            lemma_index_of_key_in_range(t, k2);
            if j < i {
                assert(s[j].0 == k2);
            } else {
                assert(s[j + 1].0 == k2);
            }
        }
    }
}

} // verus!
