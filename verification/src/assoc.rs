//! Association lists: sequences of key/value pairs with distinct keys, read
//! as maps.  They stand for the hash maps keyed by text.
use vstd::prelude::*;

verus! {

/// No key occurs twice.
pub open spec fn keys_distinct<K, V>(s: Seq<(K, V)>) -> bool {
    forall|i: int, j: int| 0 <= i < j < s.len() ==> (#[trigger] s[i]).0 != (#[trigger] s[j]).0
}

/// Some pair has key `k`.
pub open spec fn has_key<K, V>(s: Seq<(K, V)>, k: K) -> bool {
    exists|i: int| 0 <= i < s.len() && (#[trigger] s[i]).0 == k
}

/// The map of an association list.
pub open spec fn assoc_map<K, V>(s: Seq<(K, V)>) -> Map<K, V> {
    Map::new(
        |k: K| has_key(s, k),
        |k: K| s[choose|i: int| 0 <= i < s.len() && (#[trigger] s[i]).0 == k].1,
    )
}

/// The pair at `j` is what the map holds for its key.
pub proof fn lemma_assoc_index<K, V>(s: Seq<(K, V)>, j: int)
    requires
        keys_distinct(s),
        0 <= j < s.len(),
    ensures
        assoc_map(s).contains_key(s[j].0),
        assoc_map(s)[s[j].0] == s[j].1,
{
    let k = s[j].0;
    assert(has_key(s, k));
    let i = choose|i: int| 0 <= i < s.len() && (#[trigger] s[i]).0 == k;
    if i != j {
        if i < j {
            assert(s[i].0 != s[j].0);
        } else {
            assert(s[j].0 != s[i].0);
        }
    }
}

/// Appending a pair with a new key inserts it.
pub proof fn lemma_assoc_push<K, V>(s: Seq<(K, V)>, k: K, v: V)
    requires
        keys_distinct(s),
        !has_key(s, k),
    ensures
        keys_distinct(s.push((k, v))),
        assoc_map(s.push((k, v))) == assoc_map(s).insert(k, v),
{
    let t = s.push((k, v));
    assert forall|i: int, j: int| 0 <= i < j < t.len() implies (#[trigger] t[i]).0 != (#[trigger] t[j]).0 by {
        if j == s.len() {
            assert(t[i] == s[i]);
        } else {
            assert(t[i] == s[i] && t[j] == s[j]);
        }
    }
    assert forall|x: K| #[trigger] has_key(t, x) <==> has_key(s, x) || x == k by {
        if has_key(s, x) {
            let i = choose|i: int| 0 <= i < s.len() && (#[trigger] s[i]).0 == x;
            assert(t[i] == s[i]);
        }
        if x == k {
            assert(t[s.len() as int].0 == k);
        }
        if has_key(t, x) && x != k {
            let i = choose|i: int| 0 <= i < t.len() && (#[trigger] t[i]).0 == x;
            assert(s[i] == t[i]);
        }
    }
    assert forall|x: K| #[trigger] assoc_map(t).contains_key(x) implies assoc_map(t)[x] == assoc_map(s).insert(k, v)[x] by {
        let i = choose|i: int| 0 <= i < t.len() && (#[trigger] t[i]).0 == x;
        lemma_assoc_index(t, i);
        if i < s.len() {
            assert(t[i] == s[i]);
            lemma_assoc_index(s, i);
        }
    }
    assert(assoc_map(t) =~= assoc_map(s).insert(k, v));
}

/// Replacing the value of the pair at `j` updates its key.
pub proof fn lemma_assoc_update<K, V>(s: Seq<(K, V)>, j: int, v: V)
    requires
        keys_distinct(s),
        0 <= j < s.len(),
    ensures
        keys_distinct(s.update(j, (s[j].0, v))),
        assoc_map(s.update(j, (s[j].0, v))) == assoc_map(s).insert(s[j].0, v),
{
    let t = s.update(j, (s[j].0, v));
    assert forall|i: int, m: int| 0 <= i < m < t.len() implies (#[trigger] t[i]).0 != (#[trigger] t[m]).0 by {
        assert(s[i].0 != s[m].0);
    }
    assert forall|x: K| #[trigger] has_key(t, x) <==> has_key(s, x) by {
        if has_key(s, x) {
            let i = choose|i: int| 0 <= i < s.len() && (#[trigger] s[i]).0 == x;
            assert(t[i].0 == x);
        }
        if has_key(t, x) {
            let i = choose|i: int| 0 <= i < t.len() && (#[trigger] t[i]).0 == x;
            assert(s[i].0 == x);
        }
    }
    assert forall|x: K| #[trigger] assoc_map(t).contains_key(x) implies assoc_map(t)[x] == assoc_map(s).insert(s[j].0, v)[x] by {
        let i = choose|i: int| 0 <= i < t.len() && (#[trigger] t[i]).0 == x;
        lemma_assoc_index(t, i);
        if i != j {
            lemma_assoc_index(s, i);
        }
    }
    assert forall|x: K| #[trigger] assoc_map(s).insert(s[j].0, v).contains_key(x) implies assoc_map(t).contains_key(x) by {
        if x == s[j].0 {
            assert(t[j].0 == x);
        }
    }
    assert(assoc_map(t) =~= assoc_map(s).insert(s[j].0, v));
}

/// Removing the pair at `j` removes its key.
pub proof fn lemma_assoc_remove<K, V>(s: Seq<(K, V)>, j: int)
    requires
        keys_distinct(s),
        0 <= j < s.len(),
    ensures
        keys_distinct(s.remove(j)),
        assoc_map(s.remove(j)) == assoc_map(s).remove(s[j].0),
{
    let t = s.remove(j);
    assert forall|i: int, m: int| 0 <= i < m < t.len() implies (#[trigger] t[i]).0 != (#[trigger] t[m]).0 by {
        let a = if i < j { i } else { i + 1 };
        let b = if m < j { m } else { m + 1 };
        assert(t[i] == s[a] && t[m] == s[b]);
    }
    assert forall|x: K| #[trigger] has_key(t, x) <==> (has_key(s, x) && x != s[j].0) by {
        if has_key(t, x) {
            let i = choose|i: int| 0 <= i < t.len() && (#[trigger] t[i]).0 == x;
            let a = if i < j { i } else { i + 1 };
            assert(t[i] == s[a]);
            if a < j {
                assert(s[a].0 != s[j].0);
            } else {
                assert(s[j].0 != s[a].0);
            }
        }
        if has_key(s, x) && x != s[j].0 {
            let i = choose|i: int| 0 <= i < s.len() && (#[trigger] s[i]).0 == x;
            if i < j {
                assert(t[i] == s[i]);
            } else {
                assert(t[i - 1] == s[i]);
            }
        }
    }
    assert forall|x: K| #[trigger] assoc_map(t).contains_key(x) implies assoc_map(t)[x] == assoc_map(s).remove(s[j].0)[x] by {
        let i = choose|i: int| 0 <= i < t.len() && (#[trigger] t[i]).0 == x;
        lemma_assoc_index(t, i);
        let a = if i < j { i } else { i + 1 };
        assert(t[i] == s[a]);
        lemma_assoc_index(s, a);
    }
    assert(assoc_map(t) =~= assoc_map(s).remove(s[j].0));
}

/// The empty list is the empty map.
pub proof fn lemma_assoc_empty<K, V>()
    ensures
        keys_distinct(Seq::<(K, V)>::empty()),
        assoc_map(Seq::<(K, V)>::empty()) == Map::<K, V>::empty(),
{
    assert(assoc_map(Seq::<(K, V)>::empty()) =~= Map::<K, V>::empty());
}

/// Removing one element of a list without repetitions removes it from its set.
pub proof fn lemma_remove_no_dup<A>(m: Seq<A>, j: int)
    requires
        m.no_duplicates(),
        0 <= j < m.len(),
    ensures
        m.remove(j).no_duplicates(),
        m.remove(j).to_set() == m.to_set().remove(m[j]),
{
    let t = m.remove(j);
    assert forall|a: int, c: int| 0 <= a < t.len() && 0 <= c < t.len() && a != c implies t[a] != t[c] by {
        let x = if a < j { a } else { a + 1 };
        let y = if c < j { c } else { c + 1 };
        assert(t[a] == m[x] && t[c] == m[y]);
    }
    assert forall|v: A| #[trigger] t.to_set().contains(v) <==> m.to_set().remove(m[j]).contains(v) by {
        if t.to_set().contains(v) {
            let a = choose|a: int| 0 <= a < t.len() && t[a] == v;
            let x = if a < j { a } else { a + 1 };
            assert(m[x] == v);
        }
        if m.to_set().remove(m[j]).contains(v) {
            let x = choose|x: int| 0 <= x < m.len() && m[x] == v;
            if x < j {
                assert(t[x] == v);
            } else {
                assert(t[x - 1] == v);
            }
        }
    }
    assert(t.to_set() =~= m.to_set().remove(m[j]));
}

} // verus!
