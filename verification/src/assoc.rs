//! A mapping kept as a list of entries, each a key with its value, in which
//! no key stands twice.

use vstd::prelude::*;

verus! {

/// Some entry has the key.
pub open spec fn has_key<V>(entries: Seq<(Seq<char>, V)>, key: Seq<char>) -> bool {
    exists|i: int| 0 <= i < entries.len() && (#[trigger] entries[i]).0 == key
}

/// The place of an entry that has the key.
pub open spec fn position<V>(entries: Seq<(Seq<char>, V)>, key: Seq<char>) -> int {
    choose|i: int| 0 <= i < entries.len() && (#[trigger] entries[i]).0 == key
}

/// No key stands twice.
pub open spec fn distinct_keys<V>(entries: Seq<(Seq<char>, V)>) -> bool {
    forall|i: int, j: int|
        0 <= i < j < entries.len() ==> (#[trigger] entries[i]).0 != (#[trigger] entries[j]).0
}

/// The mapping that the entries stand for.
pub open spec fn as_map<V>(entries: Seq<(Seq<char>, V)>) -> Map<Seq<char>, V> {
    Map::new(
        |key: Seq<char>| has_key(entries, key),
        |key: Seq<char>| entries[position(entries, key)].1,
    )
}

/// Entry `i` maps its key to its value.
pub proof fn lemma_entry<V>(entries: Seq<(Seq<char>, V)>, i: int)
    requires
        distinct_keys(entries),
        0 <= i < entries.len(),
    ensures
        as_map(entries).contains_key(entries[i].0),
        as_map(entries)[entries[i].0] == entries[i].1,
{
    let key = entries[i].0;
    assert(has_key(entries, key));
    let j = position(entries, key);
    assert(entries[j].0 == key);
    if i < j {
        assert(entries[i].0 != entries[j].0);
    }
    if j < i {
        assert(entries[j].0 != entries[i].0);
    }
}

/// A new entry with a key that no entry has inserts that key.
pub proof fn lemma_push<V>(entries: Seq<(Seq<char>, V)>, key: Seq<char>, value: V)
    requires
        distinct_keys(entries),
        !has_key(entries, key),
    ensures
        distinct_keys(entries.push((key, value))),
        as_map(entries.push((key, value))) == as_map(entries).insert(key, value),
{
    let more = entries.push((key, value));
    assert forall|i: int, j: int| 0 <= i < j < more.len() implies (#[trigger] more[i]).0 != (
    #[trigger] more[j]).0 by {
        if j < entries.len() {
            assert(entries[i].0 != entries[j].0);
        } else {
            assert(entries[i].0 != key);
        }
    }
    assert forall|k: Seq<char>| has_key(more, k) <==> (has_key(entries, k) || k == key) by {
        if has_key(more, k) {
            let i = position(more, k);
            if i < entries.len() {
                assert(entries[i].0 == k);
            }
        }
        if has_key(entries, k) {
            let i = position(entries, k);
            assert(more[i].0 == k);
        }
        if k == key {
            assert(more[entries.len() as int].0 == k);
        }
    }
    assert forall|k: Seq<char>| has_key(more, k) implies as_map(more)[k] == as_map(
        entries,
    ).insert(key, value)[k] by {
        let i = position(more, k);
        lemma_entry(more, i);
        if i < entries.len() {
            assert(entries[i].0 == k);
            lemma_entry(entries, i);
        }
    }
    assert(as_map(more) =~= as_map(entries).insert(key, value));
}

/// A new value in entry `i` replaces the value of its key.
pub proof fn lemma_update<V>(entries: Seq<(Seq<char>, V)>, i: int, value: V)
    requires
        distinct_keys(entries),
        0 <= i < entries.len(),
    ensures
        distinct_keys(entries.update(i, (entries[i].0, value))),
        as_map(entries.update(i, (entries[i].0, value))) == as_map(entries).insert(
            entries[i].0,
            value,
        ),
{
    let key = entries[i].0;
    let changed = entries.update(i, (key, value));
    assert forall|a: int, b: int| 0 <= a < b < changed.len() implies (#[trigger] changed[a]).0
        != (#[trigger] changed[b]).0 by {
        assert(entries[a].0 != entries[b].0);
    }
    assert forall|k: Seq<char>| has_key(changed, k) <==> has_key(entries, k) by {
        if has_key(changed, k) {
            let a = position(changed, k);
            assert(entries[a].0 == k);
        }
        if has_key(entries, k) {
            let a = position(entries, k);
            assert(changed[a].0 == k);
        }
    }
    assert(has_key(entries, key)) by {
        assert(entries[i].0 == key);
    }
    assert forall|k: Seq<char>| has_key(changed, k) implies as_map(changed)[k] == as_map(
        entries,
    ).insert(key, value)[k] by {
        let a = position(changed, k);
        lemma_entry(changed, a);
        assert(entries[a].0 == k);
        lemma_entry(entries, a);
        if k == key {
            lemma_entry(entries, i);
            if a < i {
                assert(entries[a].0 != entries[i].0);
            }
            if i < a {
                assert(entries[i].0 != entries[a].0);
            }
        }
    }
    assert(as_map(changed) =~= as_map(entries).insert(key, value));
}

/// The same keys in the same order, each value replaced by what `f` makes of
/// it.
pub open spec fn with_values<V, W>(entries: Seq<(Seq<char>, V)>, f: spec_fn(V) -> W) -> Seq<
    (Seq<char>, W),
> {
    Seq::new(entries.len(), |i: int| (entries[i].0, f(entries[i].1)))
}

/// Replacing the values entry by entry replaces them in the mapping.
pub proof fn lemma_with_values<V, W>(entries: Seq<(Seq<char>, V)>, f: spec_fn(V) -> W)
    requires
        distinct_keys(entries),
    ensures
        distinct_keys(with_values(entries, f)),
        as_map(with_values(entries, f)) == as_map(entries).map_values(f),
{
    let mapped = with_values(entries, f);
    assert forall|i: int, j: int| 0 <= i < j < mapped.len() implies (#[trigger] mapped[i]).0 != (
    #[trigger] mapped[j]).0 by {
        assert(entries[i].0 != entries[j].0);
    }
    assert forall|k: Seq<char>| has_key(mapped, k) <==> has_key(entries, k) by {
        if has_key(mapped, k) {
            let i = position(mapped, k);
            assert(entries[i].0 == k);
        }
        if has_key(entries, k) {
            let i = position(entries, k);
            assert(mapped[i].0 == k);
        }
    }
    assert forall|k: Seq<char>| has_key(mapped, k) implies as_map(mapped)[k] == as_map(
        entries,
    ).map_values(f)[k] by {
        let i = position(mapped, k);
        lemma_entry(mapped, i);
        assert(entries[i].0 == k);
        lemma_entry(entries, i);
    }
    assert(as_map(mapped) =~= as_map(entries).map_values(f));
}

} // verus!
