//! Keyed tables stored as vectors of pairs.
//!
//! The persistent stores of the protocol are modelled as association lists
//! with unique keys.  Keys are compared by their views, so a `String` key
//! matches by its character sequence.

use vstd::prelude::*;

verus! {

/// Entry `i` of `s` exists and carries key `k`.
pub open spec fn key_at<K: View, V>(s: Seq<(K, V)>, k: K::V, i: int) -> bool {
    0 <= i < s.len() && s[i].0@ == k
}

/// Some entry of `s` carries key `k`.
pub open spec fn has_key<K: View, V>(s: Seq<(K, V)>, k: K::V) -> bool {
    exists|i: int| key_at(s, k, i)
}

/// The position of the entry carrying key `k` (meaningful when `has_key`).
pub open spec fn index_of<K: View, V>(s: Seq<(K, V)>, k: K::V) -> int {
    choose|i: int| key_at(s, k, i)
}

/// The value stored under key `k` (meaningful when `has_key`).
pub open spec fn lookup<K: View, V>(s: Seq<(K, V)>, k: K::V) -> V {
    s[index_of(s, k)].1
}

/// No two entries of `s` carry the same key.
pub open spec fn unique_keys<K: View, V>(s: Seq<(K, V)>) -> bool {
    forall|i: int, j: int| 0 <= i < j < s.len() ==> s[i].0@ != s[j].0@
}

/// With unique keys, an entry seen to carry `k` is the entry `index_of`
/// finds.
pub proof fn lemma_key_at_index_of<K: View, V>(s: Seq<(K, V)>, k: K::V, i: int)
    requires
        unique_keys(s),
        key_at(s, k, i),
    ensures
        has_key(s, k),
        index_of(s, k) == i,
        lookup(s, k) == s[i].1,
{
    assert(has_key(s, k));
    let j = index_of(s, k);
    assert(key_at(s, k, j));
    if i != j {
        assert(s[i].0@ == s[j].0@);
        assert(false);
    }
}

/// Replacing the value at position `i` keeps keys unique and leaves every
/// other key bound to its old value.
pub proof fn lemma_update_value<K: View, V>(s: Seq<(K, V)>, i: int, v: V)
    requires
        unique_keys(s),
        0 <= i < s.len(),
    ensures
        unique_keys(s.update(i, (s[i].0, v))),
        forall|k2: K::V| has_key(s.update(i, (s[i].0, v)), k2) == has_key(s, k2),
        forall|k2: K::V|
            has_key(s, k2) && k2 != s[i].0@ ==> #[trigger] lookup(s.update(i, (s[i].0, v)), k2)
                == lookup(s, k2),
        has_key(s.update(i, (s[i].0, v)), s[i].0@),
        lookup(s.update(i, (s[i].0, v)), s[i].0@) == v,
{
    let t = s.update(i, (s[i].0, v));
    assert forall|k2: K::V| has_key(t, k2) == has_key(s, k2) by {
        if has_key(t, k2) {
            let j = index_of(t, k2);
            assert(key_at(t, k2, j));
            assert(key_at(s, k2, j));
        }
        if has_key(s, k2) {
            let j = index_of(s, k2);
            assert(key_at(s, k2, j));
            assert(key_at(t, k2, j));
        }
    }
    assert forall|k2: K::V| has_key(s, k2) && k2 != s[i].0@ implies #[trigger] lookup(t, k2)
        == lookup(s, k2) by {
        let j = index_of(s, k2);
        assert(key_at(s, k2, j));
        assert(j != i);
        assert(key_at(t, k2, j));
        lemma_key_at_index_of(t, k2, j);
    }
    assert(key_at(t, s[i].0@, i));
    lemma_key_at_index_of(t, s[i].0@, i);
}

/// Appending an entry under a fresh key keeps keys unique, binds the new
/// key to the new value, and leaves every other key bound as before.
pub proof fn lemma_push_entry<K: View, V>(s: Seq<(K, V)>, e: (K, V))
    requires
        unique_keys(s),
        !has_key(s, e.0@),
    ensures
        unique_keys(s.push(e)),
        forall|k2: K::V|
            k2 != e.0@ ==> #[trigger] has_key(s.push(e), k2) == has_key(s, k2),
        forall|k2: K::V|
            has_key(s, k2) && k2 != e.0@ ==> #[trigger] lookup(s.push(e), k2) == lookup(s, k2),
        has_key(s.push(e), e.0@),
        lookup(s.push(e), e.0@) == e.1,
{
    let t = s.push(e);
    assert forall|i: int, j: int| 0 <= i < j < t.len() implies t[i].0@ != t[j].0@ by {
        if j == s.len() as int {
            assert(t[i].0@ == s[i].0@);
            if t[i].0@ == e.0@ {
                assert(key_at(s, e.0@, i));
                assert(false);
            }
        }
    }
    assert forall|k2: K::V| k2 != e.0@ implies #[trigger] has_key(t, k2) == has_key(s, k2) by {
        if has_key(t, k2) {
            let j = index_of(t, k2);
            assert(key_at(t, k2, j));
            assert(j != s.len());
            assert(key_at(s, k2, j));
        }
        if has_key(s, k2) {
            let j = index_of(s, k2);
            assert(key_at(s, k2, j));
            assert(key_at(t, k2, j));
        }
    }
    assert forall|k2: K::V| has_key(s, k2) && k2 != e.0@ implies #[trigger] lookup(t, k2)
        == lookup(s, k2) by {
        let j = index_of(s, k2);
        assert(key_at(s, k2, j));
        assert(key_at(t, k2, j));
        lemma_key_at_index_of(t, k2, j);
    }
    assert(key_at(t, e.0@, s.len() as int));
    lemma_key_at_index_of(t, e.0@, s.len() as int);
}

} // verus!
