//! Keyed lists: a list of (key, value) entries read as a map from texts to
//! values. A key stands for the first entry that carries it; the functions
//! here never let a key occur twice.
use vstd::prelude::*;

verus! {

/// Entry `i` is the first one carrying key `k`.
pub open spec fn is_first_key<V>(entries: Seq<(String, V)>, k: Seq<char>, i: int) -> bool {
    &&& 0 <= i < entries.len()
    &&& entries[i].0@ == k
    &&& forall|j: int| 0 <= j < i ==> entries[j].0@ != k
}

/// Some entry carries key `k`.
pub open spec fn has_key<V>(entries: Seq<(String, V)>, k: Seq<char>) -> bool {
    exists|i: int| 0 <= i < entries.len() && #[trigger] entries[i].0@ == k
}

/// The position of the first entry carrying key `k`.
pub open spec fn index_of_key<V>(entries: Seq<(String, V)>, k: Seq<char>) -> int {
    choose|i: int| is_first_key(entries, k, i)
}

/// The value stored under key `k`.
pub open spec fn value_of_key<V>(entries: Seq<(String, V)>, k: Seq<char>) -> V {
    entries[index_of_key(entries, k)].1
}

/// No key occurs twice.
pub open spec fn keys_distinct<V>(entries: Seq<(String, V)>) -> bool {
    forall|i: int, j: int|
        0 <= i < j < entries.len() ==> #[trigger] entries[i].0@ != #[trigger] entries[j].0@
}

/// The position of the first entry carrying key `k` is that entry.
pub proof fn lemma_index_of_key<V>(entries: Seq<(String, V)>, k: Seq<char>, i: int)
    requires
        is_first_key(entries, k, i),
    ensures
        index_of_key(entries, k) == i,
{
    let c = choose|c: int| is_first_key(entries, k, c);
    assert(is_first_key(entries, k, c));
    if c < i {
        assert(entries[c].0@ != k);
    } else if i < c {
        assert(entries[i].0@ != k);
    }
}

/// When some entry carries key `k`, there is a first one.
pub proof fn lemma_first_key_exists<V>(entries: Seq<(String, V)>, k: Seq<char>, j: int)
    requires
        0 <= j < entries.len(),
        entries[j].0@ == k,
    ensures
        is_first_key(entries, k, index_of_key(entries, k)),
        index_of_key(entries, k) <= j,
    decreases j,
{
    if exists|m: int| 0 <= m < j && #[trigger] entries[m].0@ == k {
        let m = choose|m: int| 0 <= m < j && #[trigger] entries[m].0@ == k;
        lemma_first_key_exists(entries, k, m);
    } else {
        assert(is_first_key(entries, k, j));
        lemma_index_of_key(entries, k, j);
    }
}

/// Replacing the value of entry `i`, or appending an entry under a new
/// key, keeps the keys distinct.
pub proof fn lemma_keys_after_update<V>(entries: Seq<(String, V)>, i: int, e: (String, V))
    requires
        keys_distinct(entries),
        0 <= i < entries.len(),
        e.0@ == entries[i].0@,
    ensures
        keys_distinct(entries.update(i, e)),
        forall|k: Seq<char>| has_key(entries.update(i, e), k) <==> has_key(entries, k),
{
    let n = entries.update(i, e);
    assert forall|a: int, b: int| 0 <= a < b < n.len() implies #[trigger] n[a].0@
        != #[trigger] n[b].0@ by {
        assert(n[a].0@ == entries[a].0@);
        assert(n[b].0@ == entries[b].0@);
    }
    assert forall|k: Seq<char>| has_key(n, k) <==> has_key(entries, k) by {
        if has_key(n, k) {
            let j = choose|j: int| 0 <= j < n.len() && #[trigger] n[j].0@ == k;
            assert(entries[j].0@ == k);
        }
        if has_key(entries, k) {
            let j = choose|j: int| 0 <= j < entries.len() && #[trigger] entries[j].0@ == k;
            assert(n[j].0@ == k);
        }
    }
}

/// Appending an entry under a key not present yet keeps keys distinct.
pub proof fn lemma_keys_after_push<V>(entries: Seq<(String, V)>, e: (String, V))
    requires
        keys_distinct(entries),
        !has_key(entries, e.0@),
    ensures
        keys_distinct(entries.push(e)),
        forall|k: Seq<char>| has_key(entries.push(e), k) <==> (has_key(entries, k) || k == e.0@),
        is_first_key(entries.push(e), e.0@, entries.len() as int),
{
    let n = entries.push(e);
    assert forall|a: int, b: int| 0 <= a < b < n.len() implies #[trigger] n[a].0@
        != #[trigger] n[b].0@ by {
        assert(n[a] == entries[a]);
        if b < entries.len() {
            assert(n[b] == entries[b]);
        } else {
            assert(entries[a].0@ != e.0@);
        }
    }
    assert forall|k: Seq<char>| has_key(n, k) <==> (has_key(entries, k) || k == e.0@) by {
        if has_key(n, k) {
            let j = choose|j: int| 0 <= j < n.len() && #[trigger] n[j].0@ == k;
            if j < entries.len() {
                assert(entries[j].0@ == k);
            }
        }
        if has_key(entries, k) {
            let j = choose|j: int| 0 <= j < entries.len() && #[trigger] entries[j].0@ == k;
            assert(n[j].0@ == k);
        }
        if k == e.0@ {
            assert(n[entries.len() as int].0@ == k);
        }
    }
    assert forall|j: int| 0 <= j < entries.len() implies n[j].0@ != e.0@ by {
        assert(n[j] == entries[j]);
    }
}

/// Removing an entry from a list with distinct keys keeps the keys
/// distinct and drops exactly that entry's key.
pub proof fn lemma_keys_after_remove<V>(entries: Seq<(String, V)>, i: int)
    requires
        keys_distinct(entries),
        0 <= i < entries.len(),
    ensures
        keys_distinct(entries.remove(i)),
        !has_key(entries.remove(i), entries[i].0@),
        forall|k: Seq<char>|
            k != entries[i].0@ ==> #[trigger] has_key(entries.remove(i), k) == has_key(entries, k),
{
    let n = entries.remove(i);
    assert forall|j: int| 0 <= j < n.len() implies #[trigger] n[j] == if j < i {
        entries[j]
    } else {
        entries[j + 1]
    } by {}
    assert forall|a: int, b: int| 0 <= a < b < n.len() implies #[trigger] n[a].0@
        != #[trigger] n[b].0@ by {
        let a2 = if a < i { a } else { a + 1 };
        let b2 = if b < i { b } else { b + 1 };
        assert(n[a] == entries[a2] && n[b] == entries[b2]);
    }
    if has_key(n, entries[i].0@) {
        let j = choose|j: int| 0 <= j < n.len() && #[trigger] n[j].0@ == entries[i].0@;
        let j2 = if j < i { j } else { j + 1 };
        assert(n[j] == entries[j2]);
        if j2 < i {
            assert(entries[j2].0@ != entries[i].0@);
        } else {
            assert(entries[i].0@ != entries[j2].0@);
        }
    }
    assert forall|k: Seq<char>| k != entries[i].0@ implies #[trigger] has_key(n, k) == has_key(
        entries,
        k,
    ) by {
        if has_key(n, k) {
            let j = choose|j: int| 0 <= j < n.len() && #[trigger] n[j].0@ == k;
            let j2 = if j < i { j } else { j + 1 };
            assert(n[j] == entries[j2]);
            assert(entries[j2].0@ == k);
        }
        if has_key(entries, k) {
            let j = choose|j: int| 0 <= j < entries.len() && #[trigger] entries[j].0@ == k;
            assert(j != i);
            let j2 = if j < i { j } else { j - 1 };
            assert(n[j2] == entries[j]);
            assert(n[j2].0@ == k);
        }
    }
}

/// The position of the first entry carrying `key`.
pub fn find_key<V>(entries: &Vec<(String, V)>, key: &String) -> (r: Option<usize>)
    ensures
        match r {
            Some(i) => is_first_key(entries@, key@, i as int) && index_of_key(entries@, key@) == i,
            None => !has_key(entries@, key@),
        },
{
    let mut i: usize = 0;
    while i < entries.len()
        invariant
            i <= entries@.len(),
            forall|j: int| 0 <= j < i ==> entries@[j].0@ != key@,
        decreases entries@.len() - i,
    {
        if entries[i].0 == *key {
            proof {
                lemma_index_of_key(entries@, key@, i as int);
            }
            return Some(i);
        }
        i += 1;
    }
    None
}

/// Stores `value` under `key`: the value of an entry already carrying the
/// key is replaced, otherwise a new entry is appended.
pub fn insert_entry<V>(entries: &mut Vec<(String, V)>, key: String, value: V)
    ensures
        has_key(old(entries)@, key@) ==> final(entries)@ == old(entries)@.update(
            index_of_key(old(entries)@, key@),
            (key, value),
        ),
        !has_key(old(entries)@, key@) ==> final(entries)@ == old(entries)@.push((key, value)),
        has_key(final(entries)@, key@),
        value_of_key(final(entries)@, key@) == value,
        forall|k: Seq<char>|
            k != key@ ==> #[trigger] has_key(final(entries)@, k) == has_key(old(entries)@, k),
        forall|k: Seq<char>|
            k != key@ && has_key(old(entries)@, k) ==> #[trigger] value_of_key(final(entries)@, k)
                == value_of_key(old(entries)@, k),
{
    let ghost old_entries = entries@;
    let ghost k0 = key@;
    match find_key(entries, &key) {
        Some(i) => {
            entries.set(i, (key, value));
            proof {
                lemma_first_after_update(old_entries, i as int, entries@[i as int]);
                lemma_index_of_key(entries@, k0, i as int);
                assert forall|k: Seq<char>|
                    k != k0 && has_key(old_entries, k) implies #[trigger] value_of_key(entries@, k)
                    == value_of_key(old_entries, k) by {
                    let j = choose|j: int| 0 <= j < old_entries.len() && #[trigger] old_entries[j].0@ == k;
                    lemma_first_key_exists(old_entries, k, j);
                    let f = index_of_key(old_entries, k);
                    assert(old_entries[i as int].0@ == k0);
                    assert(f != i);
                    assert(entries@ == old_entries.update(i as int, entries@[i as int]));
                    assert(index_of_key(entries@, k) == f);
                    assert(entries@[f] == old_entries[f]);
                }
            }
        },
        None => {
            entries.push((key, value));
            proof {
                lemma_first_after_push(old_entries, entries@.last());
                lemma_index_of_key(entries@, k0, old_entries.len() as int);
                assert forall|k: Seq<char>|
                    k != k0 && has_key(old_entries, k) implies #[trigger] value_of_key(entries@, k)
                    == value_of_key(old_entries, k) by {
                    let j = choose|j: int| 0 <= j < old_entries.len() && #[trigger] old_entries[j].0@ == k;
                    lemma_first_key_exists(old_entries, k, j);
                    let f = index_of_key(old_entries, k);
                    assert(entries@[f] == old_entries[f]);
                }
            }
        },
    }
}

/// Replacing entry `i` by one with the same key keeps every key where it
/// was.
pub proof fn lemma_first_after_update<V>(entries: Seq<(String, V)>, i: int, e: (String, V))
    requires
        0 <= i < entries.len(),
        e.0@ == entries[i].0@,
    ensures
        forall|k: Seq<char>| #[trigger] has_key(entries.update(i, e), k) == has_key(entries, k),
        forall|k: Seq<char>, j: int|
            #[trigger] is_first_key(entries.update(i, e), k, j) == is_first_key(entries, k, j),
        forall|k: Seq<char>|
            has_key(entries, k) ==> #[trigger] index_of_key(entries.update(i, e), k)
                == index_of_key(entries, k),
        is_first_key(entries, e.0@, i) ==> is_first_key(entries.update(i, e), e.0@, i),
{
    let n = entries.update(i, e);
    assert forall|j: int| 0 <= j < n.len() implies (#[trigger] n[j]).0@ == entries[j].0@ by {}
    assert forall|k: Seq<char>| #[trigger] has_key(n, k) == has_key(entries, k) by {
        if has_key(n, k) {
            let j = choose|j: int| 0 <= j < n.len() && #[trigger] n[j].0@ == k;
            assert(entries[j].0@ == k);
        }
        if has_key(entries, k) {
            let j = choose|j: int| 0 <= j < entries.len() && #[trigger] entries[j].0@ == k;
            assert(n[j].0@ == k);
        }
    }
    assert forall|k: Seq<char>, j: int| #[trigger]
        is_first_key(n, k, j) == is_first_key(entries, k, j) by {
        if 0 <= j < n.len() {
            assert(n[j].0@ == entries[j].0@);
            assert(forall|m: int| 0 <= m < j ==> n[m].0@ == entries[m].0@);
        }
    }
    assert forall|k: Seq<char>| has_key(entries, k) implies #[trigger] index_of_key(n, k)
        == index_of_key(entries, k) by {
        let j = choose|j: int| 0 <= j < entries.len() && #[trigger] entries[j].0@ == k;
        lemma_first_key_exists(entries, k, j);
        let f = index_of_key(entries, k);
        assert(is_first_key(n, k, f));
        lemma_index_of_key(n, k, f);
    }
}

/// Appending an entry keeps every key already present where it was.
pub proof fn lemma_first_after_push<V>(entries: Seq<(String, V)>, e: (String, V))
    ensures
        forall|k: Seq<char>|
            has_key(entries, k) ==> #[trigger] index_of_key(entries.push(e), k) == index_of_key(
                entries,
                k,
            ),
        forall|k: Seq<char>|
            k != e.0@ ==> #[trigger] has_key(entries.push(e), k) == has_key(entries, k),
        !has_key(entries, e.0@) ==> is_first_key(entries.push(e), e.0@, entries.len() as int),
{
    let n = entries.push(e);
    assert forall|j: int| 0 <= j < entries.len() implies (#[trigger] n[j]) == entries[j] by {}
    assert forall|k: Seq<char>| has_key(entries, k) implies #[trigger] index_of_key(n, k)
        == index_of_key(entries, k) by {
        let j = choose|j: int| 0 <= j < entries.len() && #[trigger] entries[j].0@ == k;
        lemma_first_key_exists(entries, k, j);
        let f = index_of_key(entries, k);
        assert(n[f] == entries[f]);
        assert(is_first_key(n, k, f));
        lemma_index_of_key(n, k, f);
    }
    assert forall|k: Seq<char>| k != e.0@ implies #[trigger] has_key(n, k) == has_key(entries, k) by {
        if has_key(n, k) {
            let j = choose|j: int| 0 <= j < n.len() && #[trigger] n[j].0@ == k;
            assert(j < entries.len());
            assert(entries[j].0@ == k);
        }
        if has_key(entries, k) {
            let j = choose|j: int| 0 <= j < entries.len() && #[trigger] entries[j].0@ == k;
            assert(n[j].0@ == k);
        }
    }
    if !has_key(entries, e.0@) {
        assert forall|j: int| 0 <= j < entries.len() implies n[j].0@ != e.0@ by {
            assert(n[j] == entries[j]);
        }
    }
}

/// Removes the first entry carrying `key`, if any.
pub fn remove_entry<V>(entries: &mut Vec<(String, V)>, key: &String)
    ensures
        has_key(old(entries)@, key@) ==> final(entries)@ == old(entries)@.remove(
            index_of_key(old(entries)@, key@),
        ),
        !has_key(old(entries)@, key@) ==> final(entries)@ == old(entries)@,
{
    match find_key(entries, key) {
        Some(i) => {
            entries.remove(i);
        },
        None => {},
    }
}

} // verus!
