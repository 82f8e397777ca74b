//! Maps kept as lists of entries.

use vstd::prelude::*;

verus! {

/// No two entries share a key.
pub open spec fn distinct<K, V>(entries: Seq<(K, V)>) -> bool {
    forall|i: int, j: int|
        0 <= i < j < entries.len() ==> (#[trigger] entries[i]).0 != (#[trigger] entries[j]).0
}

/// Whether the entries hold a key.
pub open spec fn holds<K, V>(entries: Seq<(K, V)>, key: K) -> bool {
    exists|i: int| 0 <= i < entries.len() && (#[trigger] entries[i]).0 == key
}

/// The map that the entries make up.
pub open spec fn map_of<K, V>(entries: Seq<(K, V)>) -> Map<K, V> {
    Map::new(
        |key: K| holds(entries, key),
        |key: K|
            entries[choose|i: int| 0 <= i < entries.len() && (#[trigger] entries[i]).0 == key].1,
    )
}

/// The map gives each key the value that its entry has.
pub proof fn lemma_entry<K, V>(entries: Seq<(K, V)>, i: int)
    requires
        distinct(entries),
        0 <= i < entries.len(),
    ensures
        map_of(entries).contains_key(entries[i].0),
        map_of(entries)[entries[i].0] == entries[i].1,
{
    let key = entries[i].0;
    assert(entries[i].0 == key);
    let j = choose|j: int| 0 <= j < entries.len() && (#[trigger] entries[j]).0 == key;
    assert(entries[j].0 == key);
    if j < i {
        assert(entries[j].0 != entries[i].0);
    }
    if i < j {
        assert(entries[i].0 != entries[j].0);
    }
}

/// A key of the map has an entry.
pub proof fn lemma_key<K, V>(entries: Seq<(K, V)>, key: K) -> (i: int)
    requires
        distinct(entries),
        map_of(entries).contains_key(key),
    ensures
        0 <= i < entries.len(),
        entries[i].0 == key,
        map_of(entries)[key] == entries[i].1,
{
    let i = choose|i: int| 0 <= i < entries.len() && (#[trigger] entries[i]).0 == key;
    lemma_entry(entries, i);
    i
}

/// An entry with a new key adds the key.
pub proof fn lemma_push<K, V>(entries: Seq<(K, V)>, key: K, value: V)
    requires
        distinct(entries),
        !map_of(entries).contains_key(key),
    ensures
        distinct(entries.push((key, value))),
        map_of(entries.push((key, value))) == map_of(entries).insert(key, value),
{
    let more = entries.push((key, value));
    assert(distinct(more)) by {
        assert forall|i: int, j: int| 0 <= i < j < more.len() implies (#[trigger] more[i]).0 != (
        #[trigger] more[j]).0 by {
            assert(more[i] == entries[i]);
            if j == entries.len() {
                assert(entries[i].0 != key) by {
                    assert(!holds(entries, key));
                }
            } else {
                assert(more[j] == entries[j]);
            }
        }
    }
    assert forall|k: K| map_of(more).contains_key(k) == map_of(entries).insert(
        key,
        value,
    ).contains_key(k) by {
        if holds(more, k) {
            let i = choose|i: int| 0 <= i < more.len() && (#[trigger] more[i]).0 == k;
            if i < entries.len() {
                assert(entries[i].0 == k);
            }
        }
        if holds(entries, k) {
            let i = choose|i: int| 0 <= i < entries.len() && (#[trigger] entries[i]).0 == k;
            assert(more[i].0 == k);
        }
        assert(more[entries.len() as int].0 == key);
    }
    assert forall|k: K| map_of(more).contains_key(k) implies map_of(more)[k] == map_of(
        entries,
    ).insert(key, value)[k] by {
        let i = lemma_key(more, k);
        if i < entries.len() {
            lemma_entry(entries, i);
            assert(more[i] == entries[i]);
            assert(more[i].0 != more[entries.len() as int].0);
        }
    }
    assert(map_of(more) =~= map_of(entries).insert(key, value));
}

/// An entry with another value changes the value.
pub proof fn lemma_update<K, V>(entries: Seq<(K, V)>, i: int, value: V)
    requires
        distinct(entries),
        0 <= i < entries.len(),
    ensures
        distinct(entries.update(i, (entries[i].0, value))),
        map_of(entries.update(i, (entries[i].0, value))) == map_of(entries).insert(
            entries[i].0,
            value,
        ),
{
    let key = entries[i].0;
    let other = entries.update(i, (key, value));
    assert(forall|j: int| 0 <= j < other.len() ==> (#[trigger] other[j]).0 == entries[j].0);
    assert forall|k: K| map_of(other).contains_key(k) == map_of(entries).insert(
        key,
        value,
    ).contains_key(k) by {
        if holds(other, k) {
            let j = choose|j: int| 0 <= j < other.len() && (#[trigger] other[j]).0 == k;
            assert(entries[j].0 == k);
        }
        if holds(entries, k) {
            let j = choose|j: int| 0 <= j < entries.len() && (#[trigger] entries[j]).0 == k;
            assert(other[j].0 == k);
        }
        assert(other[i].0 == key);
    }
    assert forall|k: K| map_of(other).contains_key(k) implies map_of(other)[k] == map_of(
        entries,
    ).insert(key, value)[k] by {
        let j = lemma_key(other, k);
        if j != i {
            assert(other[j] == entries[j]);
            lemma_entry(entries, j);
            lemma_entry(other, i);
            if j < i {
                assert(entries[j].0 != entries[i].0);
            } else {
                assert(entries[i].0 != entries[j].0);
            }
        }
    }
    assert(map_of(other) =~= map_of(entries).insert(key, value));
}

/// Without its entry the key is gone.
pub proof fn lemma_remove<K, V>(entries: Seq<(K, V)>, i: int)
    requires
        distinct(entries),
        0 <= i < entries.len(),
    ensures
        distinct(entries.remove(i)),
        map_of(entries.remove(i)) == map_of(entries).remove(entries[i].0),
{
    let key = entries[i].0;
    let less = entries.remove(i);
    assert forall|j: int| 0 <= j < less.len() implies #[trigger] less[j] == entries[if j < i {
        j
    } else {
        j + 1
    }] by {}
    assert forall|k: K| map_of(less).contains_key(k) == map_of(entries).remove(key).contains_key(
        k,
    ) by {
        if holds(less, k) {
            let j = choose|j: int| 0 <= j < less.len() && (#[trigger] less[j]).0 == k;
            let m = if j < i {
                j
            } else {
                j + 1
            };
            assert(entries[m].0 == k);
            assert(entries[m].0 != entries[i].0);
        }
        if holds(entries, k) && k != key {
            let j = choose|j: int| 0 <= j < entries.len() && (#[trigger] entries[j]).0 == k;
            let m = if j < i {
                j
            } else {
                j - 1
            };
            assert(less[m].0 == k);
        }
    }
    assert forall|k: K| map_of(less).contains_key(k) implies map_of(less)[k] == map_of(
        entries,
    ).remove(key)[k] by {
        let j = lemma_key(less, k);
        lemma_entry(
            entries,
            if j < i {
                j
            } else {
                j + 1
            },
        );
    }
    assert(map_of(less) =~= map_of(entries).remove(key));
}

/// Entries make up an empty map only where there are none.
pub proof fn lemma_empty<K, V>(entries: Seq<(K, V)>)
    requires
        distinct(entries),
    ensures
        entries.len() == 0 <==> map_of(entries) == Map::<K, V>::empty(),
{
    if entries.len() == 0 {
        assert(map_of(entries) =~= Map::<K, V>::empty());
    } else {
        lemma_entry(entries, 0);
    }
}

} // verus!
