//! The catalog: the words of the database by their hash, in the order in
//! which the database gives them.

use crate::model::entries::{
    distinct_keys, key_index, lemma_key_index, lemma_key_index_is, lemma_put, merged, put,
};
use crate::model::word::{same_group, word_views, Word, WordHash, WordView};
use indexmap::IndexMap;
use std::collections::hash_map::RandomState;
use vstd::prelude::*;

verus! {

/// What an `indexmap::IndexMap` of words holds: its entries, in the map's
/// order. The functions below say what each call of the map does to them.
pub uninterp spec fn word_entries(map: IndexMap<u64, Word, RandomState>) -> Seq<(u64, Word)>;

/// `IndexMap::new`: a map without entries.
#[verifier::external_body]
fn words_new() -> (map: IndexMap<u64, Word>)
    ensures
        word_entries(map) == Seq::<(u64, Word)>::empty(),
{
    IndexMap::new()
}

/// `IndexMap::len`: the number of entries.
#[verifier::external_body]
fn words_len(map: &IndexMap<u64, Word>) -> (len: usize)
    ensures
        len == word_entries(*map).len(),
{
    map.len()
}

/// `IndexMap::insert`: where an entry has the key, its value is replaced and
/// it keeps its place; else the new entry comes last. The call is taken not
/// to unwind.
#[verifier::external_body]
fn words_insert(map: &mut IndexMap<u64, Word>, key: u64, value: Word)
    ensures
        word_entries(*final(map)) == put(word_entries(*old(map)), key, value),
    no_unwind
{
    map.insert(key, value);
}

/// `IndexMap::get_index`: the entry at the place `index`, if the map has as
/// many.
#[verifier::external_body]
fn words_get_index(map: &IndexMap<u64, Word>, index: usize) -> (entry: Option<(u64, &Word)>)
    ensures
        match entry {
            Some((key, word)) => index < word_entries(*map).len() && (key, *word) == word_entries(
                *map,
            )[index as int],
            None => index >= word_entries(*map).len(),
        },
{
    map.get_index(index).map(|(key, word)| (*key, word))
}

/// `IndexMap::get_index_of`: the place of the entry that has the key, if
/// there is one.
#[verifier::external_body]
fn words_index_of(map: &IndexMap<u64, Word>, key: u64) -> (index: Option<usize>)
    ensures
        match index {
            Some(i) => i == key_index(word_entries(*map), key) && i < word_entries(*map).len(),
            None => key_index(word_entries(*map), key) == word_entries(*map).len(),
        },
{
    map.get_index_of(&key)
}

/// Words, each by its view and under its hash.
pub open spec fn keyed(words: Seq<WordView>) -> Seq<(u64, WordView)> {
    words.map_values(|w: WordView| (w.hash, w))
}

/// The catalog that holds `words`: each is put under its hash in turn, so
/// that of two words with one hash the later is kept, in the place of the
/// earlier.
pub open spec fn cataloged(words: Seq<WordView>) -> Seq<(u64, WordView)> {
    merged(Seq::empty(), keyed(words))
}

/// Whether `word` belongs to the same group as `to`, on the same side, and
/// is another word.
pub open spec fn is_seealso(word: WordView, to: WordView) -> bool {
    to.group is Some && word.group == to.group && word != to
}

/// Whether `word` belongs to the same group as `to`, on the other side, and
/// is another word.
pub open spec fn is_opposite(word: WordView, to: WordView) -> bool {
    match (word.group, to.group) {
        (Some((side, rule)), Some((other_side, other_rule))) => side == !other_side && rule
            == other_rule && word != to,
        _ => false,
    }
}

/// The words of a catalog, in its order.
pub open spec fn words_of(entries: Seq<(u64, WordView)>) -> Seq<WordView> {
    entries.map_values(|e: (u64, WordView)| e.1)
}

/// The words of `entries` that go with `to` by its group and side.
pub open spec fn seealso_spec(entries: Seq<(u64, WordView)>, to: WordView) -> Seq<WordView> {
    words_of(entries).filter(|w: WordView| is_seealso(w, to))
}

/// The words of `entries` that stand against `to`: of its group, on the
/// other side.
pub open spec fn opposite_spec(entries: Seq<(u64, WordView)>, to: WordView) -> Seq<WordView> {
    words_of(entries).filter(|w: WordView| is_opposite(w, to))
}

/// Entries of words, each word by its view.
pub open spec fn views_of_words(entries: Seq<(u64, Word)>) -> Seq<(u64, WordView)> {
    entries.map_values(|e: (u64, Word)| (e.0, e.1@))
}

/// The views of entries have the keys of the entries.
proof fn lemma_word_views_keys(entries: Seq<(u64, Word)>, key: u64)
    ensures
        key_index(views_of_words(entries), key) == key_index(entries, key),
        distinct_keys(views_of_words(entries)) == distinct_keys(entries),
{
    let views = views_of_words(entries);
    lemma_key_index(entries, key);
    lemma_key_index_is(views, key, key_index(entries, key));
    if distinct_keys(entries) {
        assert(distinct_keys(views));
    }
    if distinct_keys(views) {
        assert forall|i: int, j: int| 0 <= i < j < entries.len() implies entries[i].0
            != entries[j].0 by {
            assert(views[i].0 == entries[i].0);
            assert(views[j].0 == entries[j].0);
        }
    }
}

/// `put` and the views of entries can be taken in either order.
proof fn lemma_word_views_put(entries: Seq<(u64, Word)>, key: u64, value: Word)
    ensures
        views_of_words(put(entries, key, value)) == put(views_of_words(entries), key, value@),
{
    lemma_word_views_keys(entries, key);
    lemma_key_index(entries, key);
    assert(views_of_words(put(entries, key, value)) =~= put(
        views_of_words(entries),
        key,
        value@,
    ));
}

/// Whether every entry stands under the hash of its word.
pub open spec fn keyed_by_hash(entries: Seq<(u64, WordView)>) -> bool {
    forall|i: int| 0 <= i < entries.len() ==> (#[trigger] entries[i]).0 == entries[i].1.hash
}

/// The words of the trainer by their hash, in the order in which they came.
pub struct Catalog {
    words: IndexMap<u64, Word>,
}

impl View for Catalog {
    type V = Seq<(u64, WordView)>;

    closed spec fn view(&self) -> Seq<(u64, WordView)> {
        views_of_words(word_entries(self.words))
    }
}

impl Catalog {
    /// No two words stand under one hash, and each stands under its own.
    #[verifier::type_invariant]
    spec fn well_keyed(self) -> bool {
        distinct_keys(word_entries(self.words)) && keyed_by_hash(
            views_of_words(word_entries(self.words)),
        )
    }

    /// A catalog without words.
    pub fn new() -> (catalog: Self)
        ensures
            catalog@ == Seq::<(u64, WordView)>::empty(),
    {
        let catalog = Catalog { words: words_new() };
        assert(catalog@ =~= Seq::<(u64, WordView)>::empty());
        catalog
    }

    /// Put `word` under its hash: in the place of the word that stands
    /// there, or after all others.
    pub fn insert(&mut self, word: Word)
        ensures
            final(self)@ == put(old(self)@, word@.hash, word@),
    {
        let key = word.hash().value();
        proof {
            use_type_invariant(&*self);
            let entries = word_entries(self.words);
            lemma_put(entries, key, word);
            lemma_word_views_put(entries, key, word);
            lemma_key_index(entries, key);
            assert(keyed_by_hash(views_of_words(put(entries, key, word)))) by {
                let before = views_of_words(entries);
                let after = views_of_words(put(entries, key, word));
                assert forall|i: int| 0 <= i < after.len() implies (#[trigger] after[i]).0
                    == after[i].1.hash by {
                    if i < before.len() && i != key_index(entries, key) {
                        assert(after[i] == before[i]);
                    }
                }
            }
        }
        words_insert(&mut self.words, key, word);
    }

    /// The catalog of `words`, each put under its hash in turn.
    pub fn from_words(words: Vec<Word>) -> (catalog: Self)
        ensures
            catalog@ == cataloged(word_views(words@)),
    {
        let ghost wanted = keyed(word_views(words@));
        let mut catalog = Catalog::new();
        let mut i: usize = 0;
        assert(wanted.take(0) =~= Seq::<(u64, WordView)>::empty());
        while i < words.len()
            invariant
                i <= words.len(),
                wanted == keyed(word_views(words@)),
                catalog@ == merged(Seq::empty(), wanted.take(i as int)),
            decreases words.len() - i,
        {
            proof {
                assert(wanted.take(i + 1).drop_last() =~= wanted.take(i as int));
                assert(wanted.take(i + 1).last() == (words@[i as int]@.hash, words@[i as int]@));
            }
            catalog.insert(words[i].clone());
            i += 1;
        }
        assert(wanted.take(wanted.len() as int) =~= wanted);
        catalog
    }

    /// How many words the catalog holds. No two of them have one hash, and
    /// each stands under its own.
    pub fn len(&self) -> (len: usize)
        ensures
            len == self@.len(),
            distinct_keys(self@),
            keyed_by_hash(self@),
    {
        proof {
            use_type_invariant(self);
            lemma_word_views_keys(word_entries(self.words), 0);
        }
        words_len(&self.words)
    }

    /// The word at the place `index`, if there are as many.
    pub fn get_index(&self, index: usize) -> (word: Option<&Word>)
        ensures
            match word {
                Some(w) => index < self@.len() && self@[index as int] == (w@.hash, w@),
                None => index >= self@.len(),
            },
    {
        proof {
            use_type_invariant(self);
            lemma_word_views_keys(word_entries(self.words), 0);
        }
        match words_get_index(&self.words, index) {
            Some((_, word)) => Some(word),
            None => None,
        }
    }

    /// The place of the word that has the hash `hash`, if there is one.
    pub fn index_of(&self, hash: WordHash) -> (index: Option<usize>)
        ensures
            match index {
                Some(i) => i == key_index(self@, hash@) && i < self@.len(),
                None => key_index(self@, hash@) == self@.len(),
            },
    {
        proof {
            lemma_word_views_keys(word_entries(self.words), hash@);
        }
        words_index_of(&self.words, hash.value())
    }

    /// The word that has the hash `hash`, if there is one.
    pub fn get(&self, hash: WordHash) -> (word: Option<&Word>)
        ensures
            match word {
                Some(w) => key_index(self@, hash@) < self@.len() && self@[key_index(self@, hash@)]
                    == (hash@, w@),
                None => key_index(self@, hash@) == self@.len(),
            },
    {
        match self.index_of(hash) {
            Some(index) => {
                proof {
                    lemma_key_index(self@, hash@);
                }
                self.get_index(index)
            },
            None => None,
        }
    }

    /// Get words with the same group and rule.
    pub fn seealso(&self, word: &Word) -> (res: Vec<Word>)
        ensures
            word_views(res@) == seealso_spec(self@, word@),
            word@.group is None ==> res@.len() == 0,
    {
        let ghost all = words_of(self@);
        let ghost wanted = |w: WordView| is_seealso(w, word@);
        let group = word.group();
        let n = self.len();
        let mut res: Vec<Word> = Vec::new();
        let mut i: usize = 0;
        proof {
            reveal(Seq::filter);
            assert(all.take(0) =~= Seq::<WordView>::empty());
        }
        while i < n
            invariant
                i <= n,
                n == self@.len(),
                all == words_of(self@),
                wanted == |w: WordView| is_seealso(w, word@),
                group == word@.group,
                word_views(res@) == all.take(i as int).filter(wanted),
                group is None ==> res@.len() == 0,
            decreases n - i,
        {
            match self.get_index(i) {
                Some(other) => {
                    proof {
                        reveal(Seq::filter);
                        assert(all.take(i + 1).drop_last() =~= all.take(i as int));
                        assert(all.take(i + 1).last() == other@);
                    }
                    let other_group = other.group();
                    if group.is_some() && same_group(&other_group, &group) && *other != *word {
                        let found = other.clone();
                        proof {
                            assert(word_views(res@.push(found)) =~= word_views(res@).push(found@));
                        }
                        res.push(found);
                    }
                },
                None => {},
            }
            i += 1;
        }
        assert(all.take(n as int) =~= all);
        res
    }

    /// Get words with the same group but opposite rule.
    pub fn opposite(&self, word: &Word) -> (res: Vec<Word>)
        ensures
            word_views(res@) == opposite_spec(self@, word@),
            word@.group is None ==> res@.len() == 0,
    {
        let ghost all = words_of(self@);
        let ghost wanted = |w: WordView| is_opposite(w, word@);
        let group = word.group();
        let n = self.len();
        let mut res: Vec<Word> = Vec::new();
        let mut i: usize = 0;
        proof {
            reveal(Seq::filter);
            assert(all.take(0) =~= Seq::<WordView>::empty());
        }
        while i < n
            invariant
                i <= n,
                n == self@.len(),
                all == words_of(self@),
                wanted == |w: WordView| is_opposite(w, word@),
                group == word@.group,
                word_views(res@) == all.take(i as int).filter(wanted),
                group is None ==> res@.len() == 0,
            decreases n - i,
        {
            match self.get_index(i) {
                Some(other) => {
                    proof {
                        reveal(Seq::filter);
                        assert(all.take(i + 1).drop_last() =~= all.take(i as int));
                        assert(all.take(i + 1).last() == other@);
                    }
                    let against = match (other.group(), group) {
                        (Some(theirs), Some(ours)) => theirs.0 == !ours.0 && theirs.1 == ours.1,
                        _ => false,
                    };
                    if against && *other != *word {
                        let found = other.clone();
                        proof {
                            assert(word_views(res@.push(found)) =~= word_views(res@).push(found@));
                        }
                        res.push(found);
                    }
                },
                None => {},
            }
            i += 1;
        }
        assert(all.take(n as int) =~= all);
        res
    }
}

} // verus!
