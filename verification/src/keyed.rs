//! Sequences that hold at most one item of each key, read as maps from the
//! key to what the item stands for.

use vstd::prelude::*;

verus! {

/// No two items of `s` have the same key.
pub open spec fn unique_keys<T>(s: Seq<T>, key: spec_fn(T) -> Seq<char>) -> bool {
    forall|i: int, j: int|
        0 <= i < s.len() && 0 <= j < s.len() && key(#[trigger] s[i]) == key(#[trigger] s[j]) ==> i
            == j
}

/// Whether `s` holds an item of key `k`.
pub open spec fn has_key<T>(s: Seq<T>, key: spec_fn(T) -> Seq<char>, k: Seq<char>) -> bool {
    exists|i: int| 0 <= i < s.len() && key(#[trigger] s[i]) == k
}

/// Where `s` holds an item of key `k`.
pub open spec fn place_of<T>(s: Seq<T>, key: spec_fn(T) -> Seq<char>, k: Seq<char>) -> int {
    choose|i: int| 0 <= i < s.len() && key(#[trigger] s[i]) == k
}

/// The map from each key in `s` to what the item of that key stands for.
pub open spec fn keyed_map<T, V>(
    s: Seq<T>,
    key: spec_fn(T) -> Seq<char>,
    val: spec_fn(T) -> V,
) -> Map<Seq<char>, V> {
    Map::new(|k: Seq<char>| has_key(s, key, k), |k: Seq<char>| val(s[place_of(s, key, k)]))
}

/// The item at `i` is what the map holds under its key.
pub proof fn lemma_keyed_at<T, V>(
    s: Seq<T>,
    key: spec_fn(T) -> Seq<char>,
    val: spec_fn(T) -> V,
    i: int,
)
    requires
        unique_keys(s, key),
        0 <= i < s.len(),
    ensures
        keyed_map(s, key, val).dom().contains(key(s[i])),
        keyed_map(s, key, val)[key(s[i])] == val(s[i]),
{
    let k = key(s[i]);
    assert(has_key(s, key, k));
    let p = place_of(s, key, k);
    assert(key(s[p]) == key(s[i]));
}

/// A key that no item has is not in the map.
pub proof fn lemma_keyed_absent<T, V>(
    s: Seq<T>,
    key: spec_fn(T) -> Seq<char>,
    val: spec_fn(T) -> V,
    k: Seq<char>,
)
    requires
        forall|i: int| 0 <= i < s.len() ==> key(#[trigger] s[i]) != k,
    ensures
        !keyed_map(s, key, val).dom().contains(k),
{
}

/// An item of a new key, put at the end, is one more entry of the map.
pub proof fn lemma_keyed_push<T, V>(
    s: Seq<T>,
    key: spec_fn(T) -> Seq<char>,
    val: spec_fn(T) -> V,
    x: T,
)
    requires
        unique_keys(s, key),
        forall|i: int| 0 <= i < s.len() ==> key(#[trigger] s[i]) != key(x),
    ensures
        unique_keys(s.push(x), key),
        keyed_map(s.push(x), key, val) == keyed_map(s, key, val).insert(key(x), val(x)),
{
    let t = s.push(x);
    assert forall|i: int, j: int|
        0 <= i < t.len() && 0 <= j < t.len() && key(#[trigger] t[i]) == key(
            #[trigger] t[j],
        ) implies i == j by {
        if i < s.len() {
            assert(t[i] == s[i]);
        }
        if j < s.len() {
            assert(t[j] == s[j]);
        }
    }
    let a = keyed_map(t, key, val);
    let b = keyed_map(s, key, val).insert(key(x), val(x));
    assert forall|k: Seq<char>| a.dom().contains(k) <==> b.dom().contains(k) by {
        if has_key(t, key, k) {
            let i = place_of(t, key, k);
            if i < s.len() {
                assert(key(s[i]) == k);
            }
        }
        if has_key(s, key, k) {
            let i = place_of(s, key, k);
            assert(key(t[i]) == k);
        }
        if k == key(x) {
            assert(key(t[s.len() as int]) == k);
        }
    }
    assert forall|k: Seq<char>| a.dom().contains(k) implies a[k] == b[k] by {
        let i = place_of(t, key, k);
        lemma_keyed_at(t, key, val, i);
        if i < s.len() {
            assert(t[i] == s[i]);
            lemma_keyed_at(s, key, val, i);
        }
    }
    assert(a =~= b);
}

/// An item put in the place of one with the same key replaces that entry of
/// the map.
pub proof fn lemma_keyed_update<T, V>(
    s: Seq<T>,
    key: spec_fn(T) -> Seq<char>,
    val: spec_fn(T) -> V,
    at: int,
    x: T,
)
    requires
        unique_keys(s, key),
        0 <= at < s.len(),
        key(s[at]) == key(x),
    ensures
        unique_keys(s.update(at, x), key),
        keyed_map(s.update(at, x), key, val) == keyed_map(s, key, val).insert(key(x), val(x)),
{
    let t = s.update(at, x);
    assert forall|i: int, j: int|
        0 <= i < t.len() && 0 <= j < t.len() && key(#[trigger] t[i]) == key(
            #[trigger] t[j],
        ) implies i == j by {
        assert(key(t[i]) == key(s[i]));
        assert(key(t[j]) == key(s[j]));
    }
    let a = keyed_map(t, key, val);
    let b = keyed_map(s, key, val).insert(key(x), val(x));
    assert forall|k: Seq<char>| a.dom().contains(k) <==> b.dom().contains(k) by {
        if has_key(t, key, k) {
            let i = place_of(t, key, k);
            assert(key(s[i]) == k);
        }
        if has_key(s, key, k) {
            let i = place_of(s, key, k);
            assert(key(t[i]) == k);
        }
        if k == key(x) {
            assert(key(t[at]) == k);
        }
    }
    assert forall|k: Seq<char>| a.dom().contains(k) implies a[k] == b[k] by {
        let i = place_of(t, key, k);
        lemma_keyed_at(t, key, val, i);
        if i != at {
            assert(t[i] == s[i]);
            lemma_keyed_at(s, key, val, i);
        }
    }
    assert(a =~= b);
}

/// Taking an item out takes its entry out of the map.
pub proof fn lemma_keyed_remove<T, V>(
    s: Seq<T>,
    key: spec_fn(T) -> Seq<char>,
    val: spec_fn(T) -> V,
    at: int,
)
    requires
        unique_keys(s, key),
        0 <= at < s.len(),
    ensures
        unique_keys(s.remove(at), key),
        keyed_map(s.remove(at), key, val) == keyed_map(s, key, val).remove(key(s[at])),
{
    let t = s.remove(at);
    assert forall|i: int| 0 <= i < t.len() implies #[trigger] t[i] == s[if i < at {
        i
    } else {
        i + 1
    }] by {}
    assert forall|i: int, j: int|
        0 <= i < t.len() && 0 <= j < t.len() && key(#[trigger] t[i]) == key(
            #[trigger] t[j],
        ) implies i == j by {
        let si = if i < at { i } else { i + 1 };
        let sj = if j < at { j } else { j + 1 };
        assert(t[i] == s[si]);
        assert(t[j] == s[sj]);
    }
    let a = keyed_map(t, key, val);
    let b = keyed_map(s, key, val).remove(key(s[at]));
    assert forall|k: Seq<char>| a.dom().contains(k) <==> b.dom().contains(k) by {
        if has_key(t, key, k) {
            let i = place_of(t, key, k);
            let si = if i < at { i } else { i + 1 };
            assert(t[i] == s[si]);
            assert(key(s[si]) == k);
        }
        if has_key(s, key, k) && k != key(s[at]) {
            let i = place_of(s, key, k);
            let ti = if i < at { i } else { i - 1 };
            assert(t[ti] == s[i]);
            assert(key(t[ti]) == k);
        }
    }
    assert forall|k: Seq<char>| a.dom().contains(k) implies a[k] == b[k] by {
        let i = place_of(t, key, k);
        let si = if i < at { i } else { i + 1 };
        assert(t[i] == s[si]);
        lemma_keyed_at(t, key, val, i);
        lemma_keyed_at(s, key, val, si);
    }
    assert(a =~= b);
}

} // verus!
