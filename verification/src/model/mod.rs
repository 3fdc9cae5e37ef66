//! The trainer's model: the words of the database, what to ask next, and how
//! well each word is known.

pub mod catalog;
pub mod entries;
pub mod parse;
pub mod statistics;
pub mod variant;
pub mod word;

pub use self::catalog::Catalog;
pub use self::parse::ParseError;
pub use self::statistics::{CardResult, Stats};
pub use self::variant::Variant;
pub use self::word::{Word, WordHash};

use self::catalog::{cataloged, keyed_by_hash, opposite_spec, seealso_spec};
use self::entries::{candidates, distinct_keys, lemma_picked, merged, picked};
use self::parse::{error_views, parse, parse_spec};
use self::statistics::{
    choose_below, current_time, fresh_entries, values_of, StatsView, Timestamp,
};
use self::word::{word_views, WordView};
use vstd::prelude::*;

verus! {

/// Struct that manages whole logic of trainer.
pub struct Model {
    pub stats: Stats,
    latest: Option<WordHash>,
    words: Catalog,
}

/// What a `Model` holds, as plain values: the catalog, the hash of the word
/// that was asked last, and the statistics.
pub struct ModelView {
    pub catalog: Seq<(u64, WordView)>,
    pub latest: Option<u64>,
    pub stats: StatsView,
}

/// The hashes of words.
pub open spec fn hashes_of(words: Seq<WordView>) -> Seq<u64> {
    words.map_values(|w: WordView| w.hash)
}

impl ModelView {
    /// The model of a database: the catalog of its words, and for each word
    /// the record of a word never asked.
    pub open spec fn new(text: Seq<char>) -> ModelView {
        ModelView {
            catalog: cataloged(parse_spec(text).words),
            latest: None,
            stats: StatsView {
                entries: merged(Seq::empty(), fresh_entries(hashes_of(parse_spec(text).words))),
                latest: None,
            },
        }
    }

    /// How many words can be asked next: all of them, or all but the one
    /// asked last where there are two or more.
    pub open spec fn candidates(self) -> int {
        candidates(self.catalog, self.latest)
    }

    /// The place in the catalog of the word that the choice `choice` picks
    /// among those that can be asked next.
    pub open spec fn picked(self, choice: int) -> int {
        picked(self.catalog, self.latest, choice)
    }

    /// The word that is asked for the choice `choice`.
    pub open spec fn next_word(self, choice: int) -> WordView {
        self.catalog[self.picked(choice)].1
    }

    /// The model after the word for the choice `choice` was asked at the
    /// moment `now`: the word is the one asked last, and its record takes
    /// note of the moment.
    pub open spec fn next_with(self, choice: int, now: Timestamp) -> ModelView {
        ModelView {
            catalog: self.catalog,
            latest: Some(self.next_word(choice).hash),
            stats: self.stats.occured(self.next_word(choice).hash, now),
        }
    }
}

/// No immediate repeat: of two words asked one after the other, from a
/// catalog of two words or more, the second is not the first.
pub proof fn lemma_words_dont_repeat(
    model: ModelView,
    first: int,
    first_now: Timestamp,
    second: int,
    second_now: Timestamp,
)
    requires
        distinct_keys(model.catalog),
        keyed_by_hash(model.catalog),
        model.catalog.len() >= 2,
        0 <= first < model.candidates(),
        0 <= second < model.next_with(first, first_now).candidates(),
    ensures
        model.next_with(first, first_now).next_word(second) != model.next_word(first),
        model.next_with(first, first_now).next_word(second).hash != model.next_word(first).hash,
{
    let after = model.next_with(first, first_now);
    lemma_picked(model.catalog, model.latest, first);
    lemma_picked(after.catalog, after.latest, second);
}

impl View for Model {
    type V = ModelView;

    closed spec fn view(&self) -> ModelView {
        ModelView {
            catalog: self.words@,
            latest: match self.latest {
                Some(hash) => Some(hash@),
                None => None,
            },
            stats: self.stats@,
        }
    }
}

impl Model {
    /// Create the model of the database `data`; with it come the errors of
    /// the lines that could not be read.
    pub fn new(data: &str) -> (res: (Self, Vec<ParseError>))
        ensures
            res.0@ == ModelView::new(data@),
            error_views(res.1@) == parse_spec(data@).errors,
    {
        let (words, errors) = parse(data);
        let mut hashes: Vec<WordHash> = Vec::new();
        let mut i: usize = 0;
        let ghost wanted = hashes_of(word_views(words@));
        while i < words.len()
            invariant
                i <= words.len(),
                wanted == hashes_of(word_views(words@)),
                values_of(hashes@) == wanted.take(i as int),
            decreases words.len() - i,
        {
            let hash = words[i].hash();
            proof {
                assert(values_of(hashes@.push(hash)) =~= values_of(hashes@).push(hash@));
                assert(wanted.take(i + 1) =~= wanted.take(i as int).push(wanted[i as int]));
            }
            hashes.push(hash);
            i += 1;
        }
        assert(wanted.take(wanted.len() as int) =~= wanted);
        let stats = Stats::new(hashes);
        let model = Model { stats, latest: None, words: Catalog::from_words(words) };
        (model, errors)
    }

    /// How many words the catalog holds.
    pub fn len(&self) -> (len: usize)
        ensures
            len == self@.catalog.len(),
    {
        self.words.len()
    }

    /// The catalog of the words.
    pub fn catalog(&self) -> (catalog: &Catalog)
        ensures
            catalog@ == self@.catalog,
    {
        &self.words
    }

    /// The hash of the word that was asked last.
    pub fn latest(&self) -> (latest: Option<WordHash>)
        ensures
            match latest {
                Some(hash) => self@.latest == Some(hash@),
                None => self@.latest is None,
            },
    {
        self.latest
    }

    /// Ask the word that the choice `choice` picks among those that can be
    /// asked, at the moment `now`.
    pub fn next_with(&mut self, choice: usize, now: Timestamp) -> (word: Word)
        requires
            choice < old(self)@.candidates(),
        ensures
            final(self)@ == old(self)@.next_with(choice as int, now),
            word@ == old(self)@.next_word(choice as int),
    {
        let n = self.words.len();
        let avoided = if n >= 2 {
            match self.latest {
                Some(latest) => self.words.index_of(latest),
                None => None,
            }
        } else {
            None
        };
        let at = match avoided {
            Some(avoided) => if choice >= avoided {
                choice + 1
            } else {
                choice
            },
            None => choice,
        };
        assert(at == self@.picked(choice as int));
        match self.words.get_index(at) {
            Some(found) => {
                let word = found.clone();
                let hash = word.hash();
                self.stats.occured_at(hash, now);
                self.latest = Some(hash);
                word
            },
            None => {
                proof {
                    lemma_picked(self@.catalog, self@.latest, choice as int);
                }
                assert(false);
                Word::new("", 0)
            },
        }
    }

    /// Get new word: one of the catalog, and not the one asked last where
    /// the catalog holds two or more. The record of the word takes note of
    /// the present moment.
    pub fn next(&mut self) -> (word: Word)
        requires
            old(self)@.catalog.len() > 0,
        ensures
            exists|choice: int, now: Timestamp|
                0 <= choice < old(self)@.candidates() && final(self)@ == #[trigger] old(
                    self,
                )@.next_with(choice, now) && word@ == old(self)@.next_word(choice),
            final(self)@.catalog == old(self)@.catalog,
            final(self)@.latest == Some(word@.hash),
            old(self)@.catalog.len() >= 2 ==> Some(word@.hash) != old(self)@.latest,
    {
        let n = self.words.len();
        let skip = n >= 2 && match self.latest {
            Some(latest) => self.words.index_of(latest).is_some(),
            None => false,
        };
        let candidates = if skip {
            n - 1
        } else {
            n
        };
        assert(candidates == self@.candidates());
        let now = current_time();
        match choose_below(candidates) {
            Some(choice) => {
                proof {
                    lemma_picked(self@.catalog, self@.latest, choice as int);
                }
                self.next_with(choice, now)
            },
            None => {
                assert(false);
                Word::new("", 0)
            },
        }
    }

    /// Get words with the same group and rule.
    pub fn seealso(&self, word: &Word) -> (res: Vec<Word>)
        ensures
            word_views(res@) == seealso_spec(self@.catalog, word@),
            word@.group is None ==> res@.len() == 0,
    {
        self.words.seealso(word)
    }

    /// Get word with the same group but opposite rule.
    pub fn opposite(&self, word: &Word) -> (res: Vec<Word>)
        ensures
            word_views(res@) == opposite_spec(self@.catalog, word@),
            word@.group is None ==> res@.len() == 0,
    {
        self.words.opposite(word)
    }
}

} // verus!
