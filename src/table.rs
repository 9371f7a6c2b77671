//! A small map from strings to values, kept as a vector of entries with
//! distinct keys, and read through its view as a `Map`.

use vstd::prelude::*;

verus! {

pub open spec fn has_key<V>(s: Seq<(String, V)>, k: Seq<char>) -> bool {
    exists|i: int| 0 <= i < s.len() && (#[trigger] s[i]).0@ == k
}

pub open spec fn index_of<V>(s: Seq<(String, V)>, k: Seq<char>) -> int {
    choose|i: int| 0 <= i < s.len() && (#[trigger] s[i]).0@ == k
}

pub open spec fn keys_unique<V>(s: Seq<(String, V)>) -> bool {
    forall|i: int, j: int| 0 <= i < s.len() && 0 <= j < s.len() && i != j ==> (#[trigger] s[i]).0@ != (#[trigger] s[j]).0@
}

/// The entries read as a map from key to value.
pub open spec fn entry_map<V>(s: Seq<(String, V)>) -> Map<Seq<char>, V> {
    Map::new(|k: Seq<char>| has_key(s, k), |k: Seq<char>| s[index_of(s, k)].1)
}

proof fn lemma_index_of<V>(s: Seq<(String, V)>, i: int)
    requires
        keys_unique(s),
        0 <= i < s.len(),
    ensures
        has_key(s, s[i].0@),
        index_of(s, s[i].0@) == i,
        entry_map(s)[s[i].0@] == s[i].1,
{
    assert(has_key(s, s[i].0@));
}

/// Position of `k` among the entries.
pub fn find_key<V>(entries: &Vec<(String, V)>, k: &str) -> (r: Option<usize>)
    ensures
        r is Some <==> has_key(entries@, k@),
        r matches Some(i) ==> i < entries@.len() && entries@[i as int].0@ == k@,
{
    let key: String = k.to_owned();
    let mut i: usize = 0;
    while i < entries.len()
        invariant
            key@ == k@,
            i <= entries@.len(),
            forall|j: int| 0 <= j < i ==> (#[trigger] entries@[j]).0@ != k@,
        decreases entries@.len() - i,
    {
        if entries[i].0 == key {
            return Some(i);
        }
        i += 1;
    }
    None
}

/// The value stored under `k`.
pub fn get_entry<'a, V>(entries: &'a Vec<(String, V)>, k: &str) -> (r: Option<&'a V>)
    requires
        keys_unique(entries@),
    ensures
        r is Some <==> entry_map(entries@).contains_key(k@),
        r matches Some(v) ==> *v == entry_map(entries@)[k@],
{
    match find_key(entries, k) {
        Some(i) => {
            proof {
                lemma_index_of(entries@, i as int);
            }
            Some(&entries[i].1)
        },
        None => None,
    }
}

/// Stores `value` under `key`, replacing what was there.
pub fn insert_entry<V>(entries: &mut Vec<(String, V)>, key: String, value: V)
    requires
        keys_unique(old(entries)@),
    ensures
        keys_unique(final(entries)@),
        entry_map(final(entries)@) == entry_map(old(entries)@).insert(key@, value),
{
    let ghost k = key@;
    match find_key(entries, key.as_str()) {
        Some(i) => {
            entries.set(i, (key, value));
            proof {
                let s = final(entries)@;
                assert forall|a: int, b: int| 0 <= a < s.len() && 0 <= b < s.len() && a != b implies (#[trigger] s[a]).0@ != (#[trigger] s[b]).0@ by {
                    assert(old(entries)@[a].0@ != old(entries)@[b].0@);
                }
                lemma_index_of(s, i as int);
                assert forall|kk: Seq<char>| #[trigger] has_key(s, kk) implies kk == k || has_key(old(entries)@, kk) by {
                    let j = index_of(s, kk);
                    if j != i {
                        assert(old(entries)@[j] == s[j]);
                    }
                }
                assert forall|kk: Seq<char>| kk != k && has_key(old(entries)@, kk) implies has_key(s, kk) && s[index_of(s, kk)].1 == old(entries)@[index_of(old(entries)@, kk)].1 by {
                    let j = index_of(old(entries)@, kk);
                    assert(j != i);
                    assert(s[j] == old(entries)@[j]);
                    lemma_index_of(s, j);
                }
                assert(entry_map(s) =~= entry_map(old(entries)@).insert(k, value));
            }
        },
        None => {
            entries.push((key, value));
            proof {
                let s = final(entries)@;
                let n = old(entries)@.len();
                assert forall|a: int, b: int| 0 <= a < s.len() && 0 <= b < s.len() && a != b implies (#[trigger] s[a]).0@ != (#[trigger] s[b]).0@ by {
                    if a < n && b < n {
                        assert(old(entries)@[a].0@ != old(entries)@[b].0@);
                    } else if a == n {
                        assert(s[b] == old(entries)@[b]);
                    } else {
                        assert(s[a] == old(entries)@[a]);
                    }
                }
                lemma_index_of(s, n as int);
                assert forall|kk: Seq<char>| #[trigger] has_key(s, kk) implies kk == k || has_key(old(entries)@, kk) by {
                    let j = index_of(s, kk);
                    if j != n {
                        assert(old(entries)@[j] == s[j]);
                    }
                }
                assert forall|kk: Seq<char>| kk != k && has_key(old(entries)@, kk) implies has_key(s, kk) && s[index_of(s, kk)].1 == old(entries)@[index_of(old(entries)@, kk)].1 by {
                    let j = index_of(old(entries)@, kk);
                    assert(s[j] == old(entries)@[j]);
                    lemma_index_of(s, j);
                }
                assert(entry_map(s) =~= entry_map(old(entries)@).insert(k, value));
            }
        },
    }
}

/// Removes the entry under `k`, if any.
pub fn remove_entry<V>(entries: &mut Vec<(String, V)>, k: &str)
    requires
        keys_unique(old(entries)@),
    ensures
        keys_unique(final(entries)@),
        entry_map(final(entries)@) == entry_map(old(entries)@).remove(k@),
{
    match find_key(entries, k) {
        Some(i) => {
            let ghost o = entries@;
            let _ = entries.remove(i);
            proof {
                let s = final(entries)@;
                assert forall|a: int, b: int| 0 <= a < s.len() && 0 <= b < s.len() && a != b implies (#[trigger] s[a]).0@ != (#[trigger] s[b]).0@ by {
                    let oa = if a < i { a } else { a + 1 };
                    let ob = if b < i { b } else { b + 1 };
                    assert(s[a] == o[oa]);
                    assert(s[b] == o[ob]);
                    assert(o[oa].0@ != o[ob].0@);
                }
                assert forall|kk: Seq<char>| #[trigger] has_key(s, kk) implies kk != k@ && has_key(o, kk) by {
                    let j = index_of(s, kk);
                    let oj = if j < i { j } else { j + 1 };
                    assert(s[j] == o[oj]);
                    assert(o[oj].0@ != o[i as int].0@);
                }
                assert forall|kk: Seq<char>| kk != k@ && has_key(o, kk) implies has_key(s, kk) && s[index_of(s, kk)].1 == o[index_of(o, kk)].1 by {
                    let j = index_of(o, kk);
                    let sj = if j < i { j } else { j - 1 };
                    assert(j != i);
                    assert(s[sj] == o[j]);
                    lemma_index_of(s, sj);
                }
                assert(entry_map(s) =~= entry_map(o).remove(k@));
            }
        },
        None => {
            assert(entry_map(entries@) =~= entry_map(entries@).remove(k@));
        },
    }
}

} // verus!
