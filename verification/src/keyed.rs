//! Association lists: sequences of keys with values, in which no key occurs
//! twice.

use vstd::prelude::*;
use crate::text::same_text;

verus! {

/// Whether entry `i` is the one of `key`.
pub open spec fn is_entry<K, V>(s: Seq<(K, V)>, key: K, i: int) -> bool {
    0 <= i < s.len() && s[i].0 == key
}

/// Whether `key` has an entry.
pub open spec fn has_key<K, V>(s: Seq<(K, V)>, key: K) -> bool {
    exists|i: int| is_entry(s, key, i)
}

/// The place of the entry of `key`.
pub open spec fn place<K, V>(s: Seq<(K, V)>, key: K) -> int {
    choose|i: int| is_entry(s, key, i)
}

/// The value of `key`.
pub open spec fn lookup<K, V>(s: Seq<(K, V)>, key: K) -> Option<V> {
    if has_key(s, key) {
        Some(s[place(s, key)].1)
    } else {
        None
    }
}

/// Whether no key occurs twice.
pub open spec fn unique_keys<K, V>(s: Seq<(K, V)>) -> bool {
    forall|i: int, j: int|
        0 <= i < s.len() && 0 <= j < s.len() && (#[trigger] s[i]).0 == (#[trigger] s[j]).0 ==> i
            == j
}

/// The list as a map.
pub open spec fn as_map<K, V>(s: Seq<(K, V)>) -> Map<K, V> {
    Map::new(|k: K| has_key(s, k), |k: K| s[place(s, k)].1)
}

/// The place of a key is the only one it has.
pub proof fn lemma_place<K, V>(s: Seq<(K, V)>, key: K, i: int)
    requires
        unique_keys(s),
        is_entry(s, key, i),
    ensures
        has_key(s, key),
        place(s, key) == i,
        lookup(s, key) == Some(s[i].1),
        as_map(s).contains_key(key),
        as_map(s)[key] == s[i].1,
{
    assert(is_entry(s, key, place(s, key)));
}

/// A new entry at the end.
pub proof fn lemma_push<K, V>(s: Seq<(K, V)>, key: K, value: V)
    requires
        unique_keys(s),
        !has_key(s, key),
    ensures
        unique_keys(s.push((key, value))),
        as_map(s.push((key, value))) == as_map(s).insert(key, value),
{
    let t = s.push((key, value));
    assert forall|i: int, j: int|
        0 <= i < t.len() && 0 <= j < t.len() && (#[trigger] t[i]).0 == (#[trigger]
        t[j]).0 implies i == j by {
        if i < s.len() && j == s.len() {
            assert(is_entry(s, key, i));
        }
        if j < s.len() && i == s.len() {
            assert(is_entry(s, key, j));
        }
    }
    let m = as_map(s).insert(key, value);
    assert forall|k: K|
        #![trigger as_map(t).dom().contains(k)]
        #![trigger m.dom().contains(k)]
        #![trigger m[k]]
        as_map(t).dom().contains(k) == m.dom().contains(k) && (m.dom().contains(k) ==> as_map(t)[k]
            == m[k]) by {
        if k == key {
            lemma_place(t, k, s.len() as int);
        } else if has_key(s, k) {
            assert(is_entry(s, k, place(s, k)));
            lemma_place(t, k, place(s, k));
        } else if has_key(t, k) {
            assert(is_entry(t, k, place(t, k)));
            assert(is_entry(s, k, place(t, k)));
        }
    }
    assert(as_map(t) =~= m);
}

/// Another value for an entry.
pub proof fn lemma_update<K, V>(s: Seq<(K, V)>, i: int, value: V)
    requires
        unique_keys(s),
        0 <= i < s.len(),
    ensures
        unique_keys(s.update(i, (s[i].0, value))),
        as_map(s.update(i, (s[i].0, value))) == as_map(s).insert(s[i].0, value),
{
    let key = s[i].0;
    let t = s.update(i, (key, value));
    assert forall|a: int, b: int|
        0 <= a < t.len() && 0 <= b < t.len() && (#[trigger] t[a]).0 == (#[trigger]
        t[b]).0 implies a == b by {
        assert(s[a].0 == t[a].0 && s[b].0 == t[b].0);
    }
    let m = as_map(s).insert(key, value);
    assert forall|k: K|
        #![trigger as_map(t).dom().contains(k)]
        #![trigger m.dom().contains(k)]
        #![trigger m[k]]
        as_map(t).dom().contains(k) == m.dom().contains(k) && (m.dom().contains(k) ==> as_map(t)[k]
            == m[k]) by {
        if k == key {
            lemma_place(t, k, i);
        } else if has_key(s, k) {
            let p = place(s, k);
            assert(is_entry(s, k, p));
            assert(is_entry(t, k, p));
            lemma_place(t, k, p);
        } else if has_key(t, k) {
            assert(is_entry(t, k, place(t, k)));
            assert(is_entry(s, k, place(t, k)));
        }
    }
    assert(as_map(t) =~= m);
}

/// One entry less.
pub proof fn lemma_remove<K, V>(s: Seq<(K, V)>, i: int)
    requires
        unique_keys(s),
        0 <= i < s.len(),
    ensures
        unique_keys(s.remove(i)),
        as_map(s.remove(i)) == as_map(s).remove(s[i].0),
{
    let key = s[i].0;
    let t = s.remove(i);
    assert forall|a: int, b: int|
        0 <= a < t.len() && 0 <= b < t.len() && (#[trigger] t[a]).0 == (#[trigger]
        t[b]).0 implies a == b by {
        let x = if a < i {
            a
        } else {
            a + 1
        };
        let y = if b < i {
            b
        } else {
            b + 1
        };
        assert(s[x].0 == s[y].0);
    }
    let m = as_map(s).remove(key);
    assert forall|k: K|
        #![trigger as_map(t).dom().contains(k)]
        #![trigger m.dom().contains(k)]
        #![trigger m[k]]
        as_map(t).dom().contains(k) == m.dom().contains(k) && (m.dom().contains(k) ==> as_map(t)[k]
            == m[k]) by {
        if k == key {
            if has_key(t, k) {
                let p = place(t, k);
                assert(is_entry(t, k, p));
                let q = if p < i {
                    p
                } else {
                    p + 1
                };
                assert(s[q].0 == s[i].0);
            }
        } else if has_key(s, k) {
            let p = place(s, k);
            assert(is_entry(s, k, p));
            let q = if p < i {
                p
            } else {
                p - 1
            };
            assert(is_entry(t, k, q));
            lemma_place(t, k, q);
        } else if has_key(t, k) {
            let p = place(t, k);
            assert(is_entry(t, k, p));
            let q = if p < i {
                p
            } else {
                p + 1
            };
            assert(is_entry(s, k, q));
        }
    }
    assert(as_map(t) =~= m);
}

/// A list whose keys are strings, with their texts as keys.
pub open spec fn named<V>(v: Seq<(String, V)>) -> Seq<(Seq<char>, V)> {
    v.map_values(|e: (String, V)| (e.0@, e.1))
}

/// The place of a name in a list.
pub fn find_named<V>(v: &Vec<(String, V)>, name: &str) -> (r: Option<usize>)
    ensures
        match r {
            Some(i) => is_entry(named(v@), name@, i as int) && has_key(named(v@), name@),
            None => !has_key(named(v@), name@),
        },
{
    let mut i: usize = 0;
    while i < v.len()
        invariant
            i <= v@.len(),
            forall|k: int| 0 <= k < i ==> !#[trigger] is_entry(named(v@), name@, k),
        decreases v@.len() - i,
    {
        assert(named(v@)[i as int] == (v@[i as int].0@, v@[i as int].1));
        if same_text(&v[i].0, name) {
            assert(is_entry(named(v@), name@, i as int));
            return Some(i);
        }
        i += 1;
    }
    None
}

/// A list with names is shown whole and in order, and what lies under a key is what its entry
/// holds.
pub proof fn law_named_lists_are_shown_whole<V>(v: Seq<(String, V)>, s: Seq<(Seq<char>, V)>, i: int)
    requires
        unique_keys(s),
        0 <= i < s.len(),
    ensures
        named(v).len() == v.len(),
        0 <= i < v.len() ==> named(v)[i] == (v[i].0@, v[i].1),
        as_map(s).contains_key(s[i].0),
        as_map(s)[s[i].0] == s[i].1,
        forall|k: Seq<char>| #[trigger]
            as_map(s).contains_key(k) ==> exists|j: int|
                0 <= j < s.len() && (#[trigger] s[j]).0 == k,
        forall|j: int| 0 <= j < s.len() && (#[trigger] s[j]).0 == s[i].0 ==> j == i,
{
    lemma_place(s, s[i].0, i);
    assert forall|k: Seq<char>| #[trigger] as_map(s).contains_key(k) implies exists|j: int|
        0 <= j < s.len() && (#[trigger] s[j]).0 == k by {
        let j = place(s, k);
        assert(is_entry(s, k, j));
        assert(s[j].0 == k);
    }
}

} // verus!
