//! A word of the catalog: its text, where its stress falls, and what is
//! shown with it.

use crate::model::variant::{
    append_detail, text_of, variant_views, with_detail_suffix, Variant, VariantView,
};
use crate::util::{
    chars_of, decimal, decimal_string, get_vowel_positions, indices_of, str_to_lowercase, string_of, trim,
    trim_range, uppercase_letter, uppercase_letter_spec, vowel_positions_spec,
};
use std::num::ParseIntError;
use vstd::prelude::*;
use vstd::std_specs::cmp::PartialEqSpecImpl;

verus! {

/// The value that `fxhash::hash64` returns for a string of the characters
/// `text`.
pub uninterp spec fn fx_hash64(text: Seq<char>) -> u64;

/// `fxhash::hash64` on a string: the hasher starts from a fixed state and
/// reads the string's bytes, so the result depends on the characters alone.
/// It reads them in words of the target's byte order: the name stands for the
/// value on the target that the library is built for.
#[verifier::external_body]
fn hash_text(text: &str) -> (hash: u64)
    ensures
        hash == fx_hash64(text@),
{
    fxhash::hash64(text)
}

/// `std::num::ParseIntError`, the error of reading a number from a string.
#[verifier::external_type_specification]
#[verifier::external_body]
pub struct ExParseIntError(ParseIntError);

/// The number that `str::parse` reads from the text `s` as a `u64`, if it
/// reads one.
pub uninterp spec fn parsed_u64(s: Seq<char>) -> Option<u64>;

/// `str::parse` for `u64`: whether a number is read, and which, depends on
/// the characters of the string alone.
#[verifier::external_body]
fn parse_u64(s: &str) -> (res: Result<u64, ParseIntError>)
    ensures
        match res {
            Ok(value) => parsed_u64(s@) == Some(value),
            Err(_) => parsed_u64(s@) is None,
        },
{
    s.parse()
}

/// The fingerprint of a word's text, by which the catalog and the statistics
/// find the word.
#[derive(Debug, Clone, Copy, PartialEq, Eq, Hash, Structural)]
pub struct WordHash(u64);

impl View for WordHash {
    type V = u64;

    closed spec fn view(&self) -> u64 {
        self.0
    }
}

impl WordHash {
    /// The fingerprint of `word`, which is taken as it is.
    pub fn new(word: &str) -> (hash: Self)
        ensures
            hash@ == fx_hash64(word@),
    {
        WordHash(hash_text(word))
    }

    /// The fingerprint that has the value `value`.
    pub fn from_value(value: u64) -> (hash: Self)
        ensures
            hash@ == value,
    {
        WordHash(value)
    }

    /// The fingerprint as a number.
    pub fn value(&self) -> (value: u64)
        ensures
            value == self@,
    {
        self.0
    }

    /// The fingerprint in decimal digits, as it is written where statistics
    /// are stored.
    pub fn display(&self) -> (res: String)
        ensures
            res@ == decimal(self@ as nat),
    {
        decimal_string(self.0)
    }

    /// The fingerprint that is written in `s` in decimal digits.
    pub fn from_str(s: &str) -> (res: Result<Self, ParseIntError>)
        ensures
            match res {
                Ok(hash) => parsed_u64(s@) == Some(hash@),
                Err(_) => parsed_u64(s@) is None,
            },
    {
        match parse_u64(s) {
            Ok(value) => Ok(WordHash(value)),
            Err(error) => Err(error),
        }
    }

    /// The fingerprint of the text of `word`, computed anew.
    pub fn from(word: &Word) -> (hash: Self)
        ensures
            hash@ == fx_hash64(word@.text),
    {
        WordHash::new(word.inner.as_str())
    }
}

/// Correct way to set emphasis at a word.
#[derive(Debug)]
pub struct Word {
    /// Preevaluated hash of word.
    hash: WordHash,
    /// Word in lowercase.
    inner: String,
    /// Detail that defines correct emphasis.
    detail: Option<String>,
    /// Position of correct emphasis.
    emphasis: usize,
    /// Words with the same group are shown after failure.
    group: Option<(bool, u64)>,
    /// Explanation shown after failure.
    explanation: Option<String>,
}

/// What a `Word` holds, as plain values.
pub struct WordView {
    pub hash: u64,
    pub text: Seq<char>,
    pub detail: Option<Seq<char>>,
    pub emphasis: int,
    pub group: Option<(bool, u64)>,
    pub explanation: Option<Seq<char>>,
}

impl WordView {
    /// The word that `Word::new` builds from `token` and `emphasis`.
    pub open spec fn new(token: Seq<char>, emphasis: int) -> WordView {
        WordView {
            hash: fx_hash64(str_to_lowercase(token)),
            text: str_to_lowercase(token),
            detail: None,
            emphasis,
            group: None,
            explanation: None,
        }
    }

    /// This word with the detail `detail`, trimmed.
    pub open spec fn with_detail(self, detail: Seq<char>) -> WordView {
        WordView { detail: Some(trim(detail)), ..self }
    }

    /// This word in the group named `group`, on the side `inverted`.
    pub open spec fn with_group(self, group: Seq<char>, inverted: bool) -> WordView {
        WordView { group: Some((inverted, fx_hash64(str_to_lowercase(group)))), ..self }
    }

    /// This word with the explanation `explanation`.
    pub open spec fn with_explanation(self, explanation: Seq<char>) -> WordView {
        WordView { explanation: Some(explanation), ..self }
    }

    /// The hash is the fingerprint of the text.
    pub open spec fn wf(self) -> bool {
        self.hash == fx_hash64(self.text)
    }

    /// The answers to offer for this word: one for each vowel of its text, in
    /// the order of their positions, each with the word's text and detail.
    pub open spec fn variants(self) -> Seq<VariantView> {
        vowel_positions_spec(self.text).map_values(
            |p: int| VariantView { emphasis: p, word: self.text, detail: self.detail },
        )
    }

    /// The text that shows the word: the stressed letter in uppercase, then
    /// the detail.
    pub open spec fn display(self) -> Seq<char> {
        with_detail_suffix(uppercase_letter_spec(self.text, self.emphasis), self.detail)
    }
}

/// Words, each by its view.
pub open spec fn word_views(words: Seq<Word>) -> Seq<WordView> {
    words.map_values(|w: Word| w@)
}

impl View for Word {
    type V = WordView;

    closed spec fn view(&self) -> WordView {
        WordView {
            hash: self.hash@,
            text: self.inner@,
            detail: text_of(self.detail),
            emphasis: self.emphasis as int,
            group: self.group,
            explanation: text_of(self.explanation),
        }
    }
}

/// Whether two optional strings hold the same text.
pub fn same_text(a: &Option<String>, b: &Option<String>) -> (same: bool)
    ensures
        same == (text_of(*a) == text_of(*b)),
{
    match (a, b) {
        (Some(x), Some(y)) => *x == *y,
        (None, None) => true,
        _ => false,
    }
}

/// Whether two optional groups are the same group and side.
pub fn same_group(a: &Option<(bool, u64)>, b: &Option<(bool, u64)>) -> (same: bool)
    ensures
        same == (*a == *b),
{
    match (a, b) {
        (Some(x), Some(y)) => x.0 == y.0 && x.1 == y.1,
        (None, None) => true,
        _ => false,
    }
}

/// A copy of an optional string.
pub fn copy_text(text: &Option<String>) -> (copy: Option<String>)
    ensures
        copy == *text,
{
    match text {
        Some(t) => Some(t.clone()),
        None => None,
    }
}

impl Clone for Word {
    fn clone(&self) -> (copy: Self)
        ensures
            copy == *self,
    {
        proof {
            use_type_invariant(self);
        }
        Word {
            hash: self.hash,
            inner: self.inner.clone(),
            detail: copy_text(&self.detail),
            emphasis: self.emphasis,
            group: self.group,
            explanation: copy_text(&self.explanation),
        }
    }
}

impl PartialEq for Word {
    fn eq(&self, other: &Self) -> (equal: bool) {
        self.hash == other.hash && self.inner == other.inner && same_text(
            &self.detail,
            &other.detail,
        ) && self.emphasis == other.emphasis && same_group(&self.group, &other.group)
            && same_text(&self.explanation, &other.explanation)
    }
}

impl PartialEqSpecImpl for Word {
    open spec fn obeys_eq_spec() -> bool {
        true
    }

    open spec fn eq_spec(&self, other: &Self) -> bool {
        self@ == other@
    }
}

impl Eq for Word {

}

impl Word {
    /// The hash is the fingerprint of the text.
    #[verifier::type_invariant]
    spec fn hash_of_text(self) -> bool {
        self.hash@ == fx_hash64(self.inner@)
    }

    /// The word `word`, lowercased, with its stress on the character at
    /// `emphasis`.
    pub fn new(word: &str, emphasis: usize) -> (res: Self)
        ensures
            res@ == WordView::new(word@, emphasis as int),
    {
        let inner = word.to_lowercase();
        Word {
            hash: WordHash::new(inner.as_str()),
            inner,
            detail: None,
            emphasis,
            group: None,
            explanation: None,
        }
    }

    /// Attach a detail, without the whitespace around it.
    pub fn with_detail(self, detail: &str) -> (res: Self)
        ensures
            res@ == self@.with_detail(detail@),
    {
        let v = chars_of(detail);
        let (start, end) = trim_range(&v, 0, v.len());
        assert(v@.subrange(0, v@.len() as int) =~= v@);
        proof {
            use_type_invariant(&self);
        }
        let mut res = self;
        res.detail = Some(string_of(&v, start, end));
        res
    }

    /// Put the word in the group named `group`, whose name counts without
    /// regard to case, on the side that `inverted` tells.
    pub fn with_group(self, group: &str, inverted: bool) -> (res: Self)
        ensures
            res@ == self@.with_group(group@, inverted),
    {
        let name = group.to_lowercase();
        proof {
            use_type_invariant(&self);
        }
        let mut res = self;
        res.group = Some((inverted, hash_text(name.as_str())));
        res
    }

    /// Attach an explanation, as it is.
    pub fn with_explanation(self, explanation: &str) -> (res: Self)
        ensures
            res@ == self@.with_explanation(explanation@),
    {
        let v = chars_of(explanation);
        let text = string_of(&v, 0, v.len());
        assert(v@.subrange(0, v@.len() as int) =~= v@);
        proof {
            use_type_invariant(&self);
        }
        let mut res = self;
        res.explanation = Some(text);
        res
    }

    /// Get inner word in lowercase. Use `display` to get the text with the
    /// stressed letter in uppercase.
    pub fn inner(&self) -> (text: &str)
        ensures
            text@ == self@.text,
    {
        self.inner.as_str()
    }

    /// Get hash of word.
    pub fn hash(&self) -> (hash: WordHash)
        ensures
            hash@ == self@.hash,
            self@.wf(),
    {
        proof {
            use_type_invariant(self);
        }
        self.hash
    }

    /// The detail that tells this word from others of the same spelling.
    pub fn detail(&self) -> (detail: &Option<String>)
        ensures
            text_of(*detail) == self@.detail,
    {
        &self.detail
    }

    /// The position of the stressed character.
    pub fn emphasis(&self) -> (emphasis: usize)
        ensures
            emphasis as int == self@.emphasis,
    {
        self.emphasis
    }

    /// The side and the hash of the rule that the word belongs to.
    pub fn group(&self) -> (group: Option<(bool, u64)>)
        ensures
            group == self@.group,
    {
        self.group
    }

    /// The explanation to show after a failure.
    pub fn explanation(&self) -> (explanation: &Option<String>)
        ensures
            text_of(*explanation) == self@.explanation,
    {
        &self.explanation
    }

    /// The answers to offer for this word.
    pub fn variants(&self) -> (res: Vec<Variant>)
        ensures
            variant_views(res@) == self@.variants(),
    {
        let positions = get_vowel_positions(self.inner.as_str());
        let ghost wanted = self@.variants();
        let mut res: Vec<Variant> = Vec::new();
        let mut i: usize = 0;
        while i < positions.len()
            invariant
                i <= positions.len(),
                indices_of(positions@) == vowel_positions_spec(self@.text),
                wanted == self@.variants(),
                variant_views(res@) == wanted.take(i as int),
            decreases positions.len() - i,
        {
            let variant = Variant {
                emphasis: positions[i],
                word: self.inner.clone(),
                detail: copy_text(&self.detail),
            };
            proof {
                assert(indices_of(positions@)[i as int] == positions@[i as int]);
                assert(variant@ == wanted[i as int]);
                assert(variant_views(res@.push(variant)) =~= variant_views(res@).push(variant@));
                assert(wanted.take(i + 1) =~= wanted.take(i as int).push(wanted[i as int]));
            }
            res.push(variant);
            i += 1;
        }
        assert(wanted.take(wanted.len() as int) =~= wanted);
        res
    }

    /// Whether the stress falls on the character at `emphasis`.
    pub fn is_answer(&self, emphasis: usize) -> (correct: bool)
        ensures
            correct == (self@.emphasis == emphasis),
    {
        self.emphasis == emphasis
    }

    /// The text to show for this word.
    pub fn display(&self) -> (res: String)
        ensures
            res@ == self@.display(),
    {
        let marked = uppercase_letter(self.inner.as_str(), self.emphasis);
        append_detail(marked, &self.detail)
    }
}

} // verus!
