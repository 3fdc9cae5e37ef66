//! Entries in the order in which their keys first came: what an
//! `indexmap::IndexMap` holds, and what putting a key, merging and comparing
//! do to it.

use indexmap::IndexMap;
use vstd::prelude::*;

verus! {

/// `indexmap::IndexMap`, a hash map that keeps its entries in the order in
/// which their keys were first inserted.
#[verifier::external_type_specification]
#[verifier::external_body]
#[verifier::reject_recursive_types(K)]
#[verifier::reject_recursive_types(V)]
#[verifier::reject_recursive_types(S)]
pub struct ExIndexMap<K, V, S>(IndexMap<K, V, S>);

/// The index of the first entry of `entries` that has the key `key`, or the
/// length of `entries` when there is none.
pub open spec fn key_index<V>(entries: Seq<(u64, V)>, key: u64) -> int
    decreases entries.len(),
{
    if entries.len() == 0 || entries[0].0 == key {
        0
    } else {
        1 + key_index(entries.drop_first(), key)
    }
}

/// `entries` after `key` is bound to `value`: in the place of the entry that
/// has the key, or at the end when there is none.
pub open spec fn put<V>(entries: Seq<(u64, V)>, key: u64, value: V) -> Seq<(u64, V)> {
    if key_index(entries, key) < entries.len() {
        entries.update(key_index(entries, key), (key, value))
    } else {
        entries.push((key, value))
    }
}

/// No two entries have the same key.
pub open spec fn distinct_keys<V>(entries: Seq<(u64, V)>) -> bool {
    forall|i: int, j: int| 0 <= i < j < entries.len() ==> entries[i].0 != entries[j].0
}

/// `key_index` stays within the entries, passes over no entry with the key,
/// and stops at one unless it reaches the end.
pub proof fn lemma_key_index<V>(entries: Seq<(u64, V)>, key: u64)
    ensures
        0 <= key_index(entries, key) <= entries.len(),
        forall|j: int| 0 <= j < key_index(entries, key) ==> (#[trigger] entries[j]).0 != key,
        key_index(entries, key) < entries.len() ==> entries[key_index(entries, key)].0 == key,
    decreases entries.len(),
{
    if entries.len() == 0 || entries[0].0 == key {
    } else {
        let rest = entries.drop_first();
        lemma_key_index(rest, key);
        assert forall|j: int| 0 <= j < key_index(entries, key) implies (#[trigger] entries[j]).0
            != key by {
            if j > 0 {
                assert(entries[j] == rest[j - 1]);
            }
        }
        assert(key_index(entries, key) < entries.len() ==> entries[key_index(entries, key)]
            == rest[key_index(rest, key)]);
    }
}

/// An index that passes over no entry with the key and stops at one, or at
/// the end, is the one `key_index` gives.
pub proof fn lemma_key_index_is<V>(entries: Seq<(u64, V)>, key: u64, k: int)
    requires
        0 <= k <= entries.len(),
        forall|j: int| 0 <= j < k ==> (#[trigger] entries[j]).0 != key,
        k < entries.len() ==> entries[k].0 == key,
    ensures
        key_index(entries, key) == k,
    decreases entries.len(),
{
    if entries.len() == 0 || entries[0].0 == key {
        if k > 0 {
            assert(entries[0].0 != key);
        }
    } else {
        let rest = entries.drop_first();
        assert forall|j: int| 0 <= j < k - 1 implies (#[trigger] rest[j]).0 != key by {
            assert(rest[j] == entries[j + 1]);
        }
        if k < entries.len() {
            assert(rest[k - 1] == entries[k]);
        }
        lemma_key_index_is(rest, key, k - 1);
    }
}

/// Among distinct keys, each entry is the one that its key finds.
pub proof fn lemma_key_index_of_entry<V>(entries: Seq<(u64, V)>, i: int)
    requires
        distinct_keys(entries),
        0 <= i < entries.len(),
    ensures
        key_index(entries, entries[i].0) == i,
{
    lemma_key_index_is(entries, entries[i].0, i);
}

/// `put` keeps the keys distinct, keeps the place of every entry that was
/// there, and binds the key to the value.
pub proof fn lemma_put<V>(entries: Seq<(u64, V)>, key: u64, value: V)
    requires
        distinct_keys(entries),
    ensures
        distinct_keys(put(entries, key, value)),
        put(entries, key, value).len() >= entries.len(),
        key_index(put(entries, key, value), key) == key_index(entries, key),
        put(entries, key, value)[key_index(entries, key)] == (key, value),
        forall|i: int|
            0 <= i < entries.len() ==> (#[trigger] put(entries, key, value)[i]).0 == entries[i].0,
        forall|i: int|
            0 <= i < entries.len() && i != key_index(entries, key) ==> #[trigger] put(
                entries,
                key,
                value,
            )[i] == entries[i],
{
    lemma_key_index(entries, key);
    let after = put(entries, key, value);
    lemma_key_index_is(after, key, key_index(entries, key));
}

/// The entries that `added` leaves in `base` when each of them is put there
/// in turn: an entry of `added` takes the place of the entry of `base` that
/// has its key, or comes after all of them.
pub open spec fn merged<V>(base: Seq<(u64, V)>, added: Seq<(u64, V)>) -> Seq<(u64, V)>
    decreases added.len(),
{
    if added.len() == 0 {
        base
    } else {
        put(merged(base, added.drop_last()), added.last().0, added.last().1)
    }
}

/// Merging keeps the keys distinct.
pub proof fn lemma_merged_distinct<V>(base: Seq<(u64, V)>, added: Seq<(u64, V)>)
    requires
        distinct_keys(base),
    ensures
        distinct_keys(merged(base, added)),
    decreases added.len(),
{
    if added.len() > 0 {
        lemma_merged_distinct(base, added.drop_last());
        lemma_put(merged(base, added.drop_last()), added.last().0, added.last().1);
    }
}

/// Whether two collections of entries hold the same: they are of one length,
/// and each entry of `a` has its key bound to the same value in `b`.
pub open spec fn same_entries<V>(a: Seq<(u64, V)>, b: Seq<(u64, V)>) -> bool {
    a.len() == b.len() && forall|i: int|
        0 <= i < a.len() ==> key_index(b, (#[trigger] a[i]).0) < b.len() && b[key_index(
            b,
            a[i].0,
        )].1 == a[i].1
}

/// Entries with distinct keys hold the same as themselves.
pub proof fn lemma_same_as_itself<V>(entries: Seq<(u64, V)>)
    requires
        distinct_keys(entries),
    ensures
        same_entries(entries, entries),
{
    assert forall|i: int| 0 <= i < entries.len() implies key_index(
        entries,
        (#[trigger] entries[i]).0,
    ) < entries.len() && entries[key_index(entries, entries[i].0)].1 == entries[i].1 by {
        lemma_key_index_of_entry(entries, i);
    }
}

/// Whether an entry has the key `key`.
pub open spec fn has_key<V>(entries: Seq<(u64, V)>, key: u64) -> bool {
    key_index(entries, key) < entries.len()
}

/// The place of the entry that must not be picked: that of the key picked
/// last, where there is another entry to pick instead.
pub open spec fn avoided<V>(entries: Seq<(u64, V)>, latest: Option<u64>) -> Option<int> {
    match latest {
        Some(key) => if entries.len() >= 2 && has_key(entries, key) {
            Some(key_index(entries, key))
        } else {
            None
        },
        None => None,
    }
}

/// How many entries can be picked.
pub open spec fn candidates<V>(entries: Seq<(u64, V)>, latest: Option<u64>) -> int {
    if avoided(entries, latest) is Some {
        entries.len() - 1
    } else {
        entries.len() as int
    }
}

/// The place of the entry that the choice `choice` picks among the
/// candidates: the candidates are counted in order, without the entry that
/// must not be picked.
pub open spec fn picked<V>(entries: Seq<(u64, V)>, latest: Option<u64>, choice: int) -> int {
    match avoided(entries, latest) {
        Some(avoided) => if choice >= avoided {
            choice + 1
        } else {
            choice
        },
        None => choice,
    }
}

/// A choice among the candidates picks an entry, and among two entries or
/// more it does not pick the key that was picked last.
pub proof fn lemma_picked<V>(entries: Seq<(u64, V)>, latest: Option<u64>, choice: int)
    requires
        distinct_keys(entries),
        0 <= choice < candidates(entries, latest),
    ensures
        0 <= picked(entries, latest, choice) < entries.len(),
        key_index(entries, entries[picked(entries, latest, choice)].0) == picked(
            entries,
            latest,
            choice,
        ),
        entries.len() >= 2 ==> Some(entries[picked(entries, latest, choice)].0) != latest,
{
    let at = picked(entries, latest, choice);
    if latest is Some {
        lemma_key_index(entries, latest->0);
    }
    assert(0 <= at < entries.len());
    lemma_key_index_of_entry(entries, at);
}

} // verus!
