//! Association lists: sequences of (key, value) pairs with distinct keys,
//! seen as maps.

use vstd::prelude::*;

verus! {

pub open spec fn has_key<V>(s: Seq<(Seq<char>, V)>, k: Seq<char>) -> bool {
    exists|i: int| 0 <= i < s.len() && (#[trigger] s[i]).0 == k
}

pub open spec fn keys_unique<V>(s: Seq<(Seq<char>, V)>) -> bool {
    forall|i: int, j: int|
        0 <= i < s.len() && 0 <= j < s.len() && (#[trigger] s[i]).0 == (#[trigger] s[j]).0 ==> i == j
}

pub open spec fn index_of<V>(s: Seq<(Seq<char>, V)>, k: Seq<char>) -> int {
    choose|i: int| 0 <= i < s.len() && (#[trigger] s[i]).0 == k
}

/// The map that an association list stands for.
pub open spec fn assoc_view<V>(s: Seq<(Seq<char>, V)>) -> Map<Seq<char>, V> {
    Map::new(|k: Seq<char>| has_key(s, k), |k: Seq<char>| s[index_of(s, k)].1)
}

/// Each pair of a list with distinct keys is an entry of its map.
pub proof fn lemma_assoc_index<V>(s: Seq<(Seq<char>, V)>, j: int)
    requires
        keys_unique(s),
        0 <= j < s.len(),
    ensures
        assoc_view(s).contains_key(s[j].0),
        assoc_view(s)[s[j].0] == s[j].1,
        index_of(s, s[j].0) == j,
{
    assert(has_key(s, s[j].0));
}

/// Appending a pair with a new key inserts it.
pub proof fn lemma_assoc_push<V>(s: Seq<(Seq<char>, V)>, k: Seq<char>, v: V)
    requires
        keys_unique(s),
        !has_key(s, k),
    ensures
        keys_unique(s.push((k, v))),
        assoc_view(s.push((k, v))) == assoc_view(s).insert(k, v),
{
    let t = s.push((k, v));
    assert forall|i: int, j: int|
        0 <= i < t.len() && 0 <= j < t.len() && (#[trigger] t[i]).0 == (#[trigger] t[j]).0 implies i == j by {
        if i < s.len() && j < s.len() {
            assert(s[i] == t[i] && s[j] == t[j]);
        } else if i < s.len() {
            assert(s[i] == t[i]);
        } else if j < s.len() {
            assert(s[j] == t[j]);
        }
    }
    assert forall|q: Seq<char>| #[trigger] has_key(t, q) == (has_key(s, q) || q == k) by {
        if has_key(s, q) {
            let i = choose|i: int| 0 <= i < s.len() && (#[trigger] s[i]).0 == q;
            assert(t[i] == s[i]);
        }
        if q == k {
            assert(t[s.len() as int].0 == q);
        }
        if has_key(t, q) && q != k {
            let i = choose|i: int| 0 <= i < t.len() && (#[trigger] t[i]).0 == q;
            assert(s[i] == t[i]);
        }
    }
    assert forall|q: Seq<char>| #[trigger] assoc_view(t).contains_key(q)
        implies assoc_view(t)[q] == assoc_view(s).insert(k, v)[q] by {
        let i = index_of(t, q);
        if q == k {
            lemma_assoc_index(t, s.len() as int);
        } else {
            let js = index_of(s, q);
            assert(t[js] == s[js]);
            lemma_assoc_index(t, js);
        }
    }
    assert(assoc_view(t) =~= assoc_view(s).insert(k, v));
}

/// Replacing the value at the position of a key inserts the new value there.
pub proof fn lemma_assoc_update<V>(s: Seq<(Seq<char>, V)>, j: int, v: V)
    requires
        keys_unique(s),
        0 <= j < s.len(),
    ensures
        keys_unique(s.update(j, (s[j].0, v))),
        assoc_view(s.update(j, (s[j].0, v))) == assoc_view(s).insert(s[j].0, v),
{
    let k = s[j].0;
    let t = s.update(j, (k, v));
    assert forall|i: int, l: int|
        0 <= i < t.len() && 0 <= l < t.len() && (#[trigger] t[i]).0 == (#[trigger] t[l]).0 implies i == l by {
        assert(t[i].0 == s[i].0 && t[l].0 == s[l].0);
    }
    assert forall|q: Seq<char>| #[trigger] has_key(t, q) == has_key(s, q) by {
        if has_key(s, q) {
            let i = choose|i: int| 0 <= i < s.len() && (#[trigger] s[i]).0 == q;
            assert(t[i].0 == s[i].0);
        }
        if has_key(t, q) {
            let i = choose|i: int| 0 <= i < t.len() && (#[trigger] t[i]).0 == q;
            assert(t[i].0 == s[i].0);
        }
    }
    assert forall|q: Seq<char>| #[trigger] assoc_view(t).contains_key(q)
        implies assoc_view(t)[q] == assoc_view(s).insert(k, v)[q] by {
        let i = index_of(s, q);
        lemma_assoc_index(s, i);
        assert(t[i].0 == s[i].0);
        lemma_assoc_index(t, i);
    }
    assert(assoc_view(t) =~= assoc_view(s).insert(k, v));
}

pub proof fn lemma_assoc_empty<V>()
    ensures
        keys_unique(Seq::<(Seq<char>, V)>::empty()),
        assoc_view(Seq::<(Seq<char>, V)>::empty()) == Map::<Seq<char>, V>::empty(),
{
    assert(assoc_view(Seq::<(Seq<char>, V)>::empty()) =~= Map::<Seq<char>, V>::empty());
}

} // verus!
