//! Association lists: a sequence of (key, value) pairs read as a map.

use vstd::prelude::*;

verus! {

/// No key occurs twice.
pub open spec fn keys_distinct<K, V>(s: Seq<(K, V)>) -> bool {
    forall|i: int, j: int| 0 <= i < s.len() && 0 <= j < s.len() && i != j ==> s[i].0 != s[j].0
}

/// The map that the list stands for.
pub open spec fn assoc_map<K, V>(s: Seq<(K, V)>) -> Map<K, V> {
    Map::new(
        |k: K| exists|i: int| 0 <= i < s.len() && (#[trigger] s[i]).0 == k,
        |k: K| s[choose|i: int| 0 <= i < s.len() && (#[trigger] s[i]).0 == k].1,
    )
}

/// The entry at position `i` is what the map holds for its key.
pub proof fn lemma_assoc_at<K, V>(s: Seq<(K, V)>, i: int)
    requires
        keys_distinct(s),
        0 <= i < s.len(),
    ensures
        assoc_map(s).dom().contains(s[i].0),
        assoc_map(s)[s[i].0] == s[i].1,
{
    let k = s[i].0;
    assert(assoc_map(s).dom().contains(k));
    let j = choose|j: int| 0 <= j < s.len() && (#[trigger] s[j]).0 == k;
    assert(j == i);
}

/// A key held by no entry is not in the map.
pub proof fn lemma_assoc_absent<K, V>(s: Seq<(K, V)>, k: K)
    requires
        forall|i: int| 0 <= i < s.len() ==> (#[trigger] s[i]).0 != k,
    ensures
        !assoc_map(s).dom().contains(k),
{
}

/// Appending an entry with a new key inserts it into the map.
pub proof fn lemma_assoc_push<K, V>(s: Seq<(K, V)>, k: K, v: V)
    requires
        keys_distinct(s),
        !assoc_map(s).dom().contains(k),
    ensures
        keys_distinct(s.push((k, v))),
        assoc_map(s.push((k, v))) == assoc_map(s).insert(k, v),
{
    let t = s.push((k, v));
    assert forall|i: int| 0 <= i < s.len() implies (#[trigger] s[i]).0 != k by {
        if s[i].0 == k {
            assert(assoc_map(s).dom().contains(k));
        }
    }
    assert forall|i: int, j: int|
        0 <= i < t.len() && 0 <= j < t.len() && i != j implies t[i].0 != t[j].0 by {
        if i < s.len() && j < s.len() {
            assert(t[i] == s[i] && t[j] == s[j]);
        } else if i < s.len() {
            assert(t[i] == s[i]);
        } else {
            assert(t[j] == s[j]);
        }
    }
    assert forall|key: K| #[trigger] assoc_map(t).dom().contains(key) == assoc_map(s).insert(
        k,
        v,
    ).dom().contains(key) by {
        if assoc_map(s).dom().contains(key) {
            let i = choose|i: int| 0 <= i < s.len() && (#[trigger] s[i]).0 == key;
            assert(t[i] == s[i]);
        }
        if key == k {
            assert(t[s.len() as int].0 == k);
        }
        if assoc_map(t).dom().contains(key) {
            let i = choose|i: int| 0 <= i < t.len() && (#[trigger] t[i]).0 == key;
            if i < s.len() {
                assert(t[i] == s[i]);
            }
        }
    }
    assert forall|key: K| #[trigger] assoc_map(t).dom().contains(key) implies assoc_map(t)[key]
        == assoc_map(s).insert(k, v)[key] by {
        if key == k {
            lemma_assoc_at(t, s.len() as int);
        } else {
            let i = choose|i: int| 0 <= i < s.len() && (#[trigger] s[i]).0 == key;
            lemma_assoc_at(s, i);
            assert(t[i] == s[i]);
            lemma_assoc_at(t, i);
        }
    }
    assert(assoc_map(t) =~= assoc_map(s).insert(k, v));
}

/// Replacing the value at position `i` updates the map at its key.
pub proof fn lemma_assoc_update<K, V>(s: Seq<(K, V)>, i: int, v: V)
    requires
        keys_distinct(s),
        0 <= i < s.len(),
    ensures
        keys_distinct(s.update(i, (s[i].0, v))),
        assoc_map(s.update(i, (s[i].0, v))) == assoc_map(s).insert(s[i].0, v),
{
    let k = s[i].0;
    let t = s.update(i, (k, v));
    assert forall|a: int, b: int|
        0 <= a < t.len() && 0 <= b < t.len() && a != b implies t[a].0 != t[b].0 by {
        assert(t[a].0 == s[a].0 && t[b].0 == s[b].0);
    }
    assert forall|key: K| #[trigger] assoc_map(t).dom().contains(key) == assoc_map(s).insert(
        k,
        v,
    ).dom().contains(key) by {
        if assoc_map(s).dom().contains(key) {
            let j = choose|j: int| 0 <= j < s.len() && (#[trigger] s[j]).0 == key;
            assert(t[j].0 == key);
        }
        if key == k {
            assert(t[i].0 == k);
        }
        if assoc_map(t).dom().contains(key) {
            let j = choose|j: int| 0 <= j < t.len() && (#[trigger] t[j]).0 == key;
            assert(s[j].0 == key);
        }
    }
    assert forall|key: K| #[trigger] assoc_map(t).dom().contains(key) implies assoc_map(t)[key]
        == assoc_map(s).insert(k, v)[key] by {
        if key == k {
            lemma_assoc_at(t, i);
        } else {
            let j = choose|j: int| 0 <= j < s.len() && (#[trigger] s[j]).0 == key;
            lemma_assoc_at(s, j);
            assert(t[j] == s[j]);
            lemma_assoc_at(t, j);
        }
    }
    assert(assoc_map(t) =~= assoc_map(s).insert(k, v));
}

/// Position of the first entry from `j` on with key `k`, or -1.
pub open spec fn key_index_from<K, V>(s: Seq<(K, V)>, k: K, j: int) -> int
    decreases s.len() - j,
{
    if j < 0 || j >= s.len() {
        -1
    } else if s[j].0 == k {
        j
    } else {
        key_index_from(s, k, j + 1)
    }
}

/// The list after storing `v` under `k`: the entry with key `k` replaced,
/// or a new entry appended.
pub open spec fn put_keyed<K, V>(s: Seq<(K, V)>, k: K, v: V) -> Seq<(K, V)> {
    let j = key_index_from(s, k, 0);
    if j >= 0 {
        s.update(j, (k, v))
    } else {
        s.push((k, v))
    }
}

/// What the search for a key finds.
pub proof fn lemma_key_index_from<K, V>(s: Seq<(K, V)>, k: K, j: int)
    requires
        0 <= j,
    ensures
        -1 <= key_index_from(s, k, j) < s.len(),
        key_index_from(s, k, j) >= 0 ==> key_index_from(s, k, j) >= j && s[key_index_from(s, k, j)].0 == k,
        key_index_from(s, k, j) < 0 ==> forall|i: int| j <= i < s.len() ==> (#[trigger] s[i]).0 != k,
    decreases s.len() - j,
{
    if j < s.len() && s[j].0 != k {
        lemma_key_index_from(s, k, j + 1);
    }
}

/// Storing under a key keeps the keys distinct and gives the map the new
/// value under that key.
pub proof fn lemma_put_keyed<K, V>(s: Seq<(K, V)>, k: K, v: V)
    requires
        keys_distinct(s),
    ensures
        keys_distinct(put_keyed(s, k, v)),
        assoc_map(put_keyed(s, k, v)) == assoc_map(s).insert(k, v),
{
    lemma_key_index_from(s, k, 0);
    let j = key_index_from(s, k, 0);
    if j >= 0 {
        lemma_assoc_update(s, j, v);
    } else {
        lemma_assoc_absent(s, k);
        lemma_assoc_push(s, k, v);
    }
}

} // verus!
