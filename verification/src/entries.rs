//! Lists of named entries, in which a name stands for the first entry under it.

use crate::text::is_word;
use vstd::prelude::*;

verus! {

/// Where `key` stands among the entries, or their number.
pub open spec fn key_index<V>(m: Seq<(Seq<char>, V)>, key: Seq<char>) -> nat
    decreases m.len(),
{
    if m.len() == 0 {
        0
    } else if m[0].0 == key {
        0
    } else {
        1 + key_index(m.drop_first(), key)
    }
}

/// What `key` stands for.
pub open spec fn lookup<V>(m: Seq<(Seq<char>, V)>, key: Seq<char>) -> Option<V> {
    let k = key_index(m, key);
    if k < m.len() {
        Some(m[k as int].1)
    } else {
        None
    }
}

/// The entries once `key` stands for `v`.
pub open spec fn put<V>(m: Seq<(Seq<char>, V)>, key: Seq<char>, v: V) -> Seq<(Seq<char>, V)> {
    let k = key_index(m, key);
    if k < m.len() {
        m.update(k as int, (key, v))
    } else {
        m.push((key, v))
    }
}

/// Entries under their names.
pub open spec fn keyed<V>(m: Seq<(String, V)>) -> Seq<(Seq<char>, V)> {
    Seq::new(m.len(), |i: int| (m[i].0@, m[i].1))
}

/// Texts under their names.
pub open spec fn text_pairs(m: Seq<(String, String)>) -> Seq<(Seq<char>, Seq<char>)> {
    Seq::new(m.len(), |i: int| (m[i].0@, m[i].1@))
}

/// A name is found at its first entry.
pub proof fn lemma_key_index<V>(m: Seq<(Seq<char>, V)>, key: Seq<char>)
    ensures
        key_index(m, key) <= m.len(),
        key_index(m, key) < m.len() ==> m[key_index(m, key) as int].0 == key,
        forall|i: int| 0 <= i < key_index(m, key) ==> (#[trigger] m[i]).0 != key,
    decreases m.len(),
{
    if m.len() > 0 && m[0].0 != key {
        let rest = m.drop_first();
        lemma_key_index(rest, key);
        assert forall|i: int| 0 <= i < key_index(m, key) implies (#[trigger] m[i]).0 != key by {
            if i > 0 {
                assert(rest[i - 1] == m[i]);
            }
        }
    }
}

/// The first entry under a name is where the name is found.
pub proof fn lemma_key_index_is<V>(m: Seq<(Seq<char>, V)>, key: Seq<char>, k: int)
    requires
        0 <= k <= m.len(),
        k < m.len() ==> m[k].0 == key,
        forall|i: int| 0 <= i < k ==> (#[trigger] m[i]).0 != key,
    ensures
        key_index(m, key) == k,
{
    lemma_key_index(m, key);
    let f = key_index(m, key) as int;
    if f < k {
        assert(m[f].0 == key);
    }
}

/// Where a name is found depends on the names alone.
pub proof fn lemma_same_keys<V, W>(a: Seq<(Seq<char>, V)>, b: Seq<(Seq<char>, W)>, key: Seq<char>)
    requires
        a.len() == b.len(),
        forall|i: int| 0 <= i < a.len() ==> (#[trigger] a[i]).0 == b[i].0,
    ensures
        key_index(a, key) == key_index(b, key),
{
    lemma_key_index(b, key);
    lemma_key_index_is(a, key, key_index(b, key) as int);
}

/// What a name stands for once `put` gave it a value, and that `put` leaves the other
/// names alone.
pub proof fn lemma_put<V>(m: Seq<(Seq<char>, V)>, key: Seq<char>, v: V, other: Seq<char>)
    ensures
        lookup(put(m, key, v), key) == Some(v),
        other != key ==> lookup(put(m, key, v), other) == lookup(m, other),
{
    let after = put(m, key, v);
    let k = key_index(m, key) as int;
    let j = key_index(m, other) as int;
    lemma_key_index(m, key);
    lemma_key_index(m, other);
    assert forall|i: int| 0 <= i < k implies (#[trigger] after[i]).0 != key by {
        assert(after[i] == m[i]);
    }
    lemma_key_index_is(after, key, k);
    if other != key {
        if j < m.len() {
            assert(after[j] == m[j]);
            assert forall|i: int| 0 <= i < j implies (#[trigger] after[i]).0 != other by {
                if i != k {
                    assert(after[i] == m[i]);
                }
            }
            lemma_key_index_is(after, other, j);
        } else {
            assert forall|i: int| 0 <= i < after.len() implies (#[trigger] after[i]).0 != other by {
                if i < m.len() && i != k {
                    assert(after[i] == m[i]);
                }
            }
            lemma_key_index_is(after, other, after.len() as int);
        }
    }
}

/// No name occurs twice.
pub open spec fn distinct_keys<V>(m: Seq<(Seq<char>, V)>) -> bool {
    forall|i: int, j: int|
        #![trigger m[i], m[j]]
        0 <= i < j < m.len() ==> m[i].0 != m[j].0
}

/// `put` never lets a name occur twice.
pub proof fn lemma_put_distinct<V>(m: Seq<(Seq<char>, V)>, key: Seq<char>, v: V)
    requires
        distinct_keys(m),
    ensures
        distinct_keys(put(m, key, v)),
{
    lemma_key_index(m, key);
    let after = put(m, key, v);
    let k = key_index(m, key) as int;
    assert forall|i: int, j: int|
        #![trigger after[i], after[j]]
        0 <= i < j < after.len() implies after[i].0 != after[j].0 by {
        if i != k {
            assert(after[i] == m[i]);
        }
        if j != k {
            assert(after[j] == m[j]);
        }
        if k < m.len() {
            assert(m[k].0 == key);
            assert(m[i].0 != m[j].0);
        } else if j < k {
            assert(m[i].0 != m[j].0);
        }
    }
}

/// Where `key` stands among the entries, or their number.
pub fn position<V>(m: &[(String, V)], key: &str) -> (k: usize)
    ensures
        k == key_index(keyed(m@), key@),
        k <= m@.len(),
{
    let ghost all = keyed(m@);
    let mut k: usize = 0;
    while k < m.len()
        invariant
            k <= m@.len(),
            all == keyed(m@),
            forall|i: int| 0 <= i < k ==> (#[trigger] all[i]).0 != key@,
        decreases m@.len() - k,
    {
        if is_word(&m[k].0, key) {
            proof {
                lemma_key_index_is(all, key@, k as int);
            }
            return k;
        }
        assert(all[k as int].0 != key@);
        k = k + 1;
    }
    proof {
        lemma_key_index_is(all, key@, k as int);
    }
    k
}

} // verus!
