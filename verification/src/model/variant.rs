//! A candidate placement of the stress, shown as an answer to choose.

use crate::util::{chars_of, string_of, uppercase_letter, uppercase_letter_spec};
use vstd::prelude::*;

verus! {

/// Variant is a possibly incorrect way of setting emphasis at a word.
#[derive(Debug, Clone, PartialEq, Eq)]
pub struct Variant {
    pub emphasis: usize,
    pub word: String,
    pub detail: Option<String>,
}

/// What a `Variant` holds, as plain values.
pub struct VariantView {
    pub emphasis: int,
    pub word: Seq<char>,
    pub detail: Option<Seq<char>>,
}

/// The text of an optional string.
pub open spec fn text_of(s: Option<String>) -> Option<Seq<char>> {
    match s {
        Some(text) => Some(text@),
        None => None,
    }
}

impl View for Variant {
    type V = VariantView;

    open spec fn view(&self) -> VariantView {
        VariantView { emphasis: self.emphasis as int, word: self.word@, detail: text_of(self.detail) }
    }
}

/// Variants, each by its view.
pub open spec fn variant_views(variants: Seq<Variant>) -> Seq<VariantView> {
    variants.map_values(|v: Variant| v@)
}

/// `c` as a variant shows it: the letter whose dots would give the stress
/// away is shown without them.
pub open spec fn undotted(c: char) -> char {
    if c == 'ё' {
        'е'
    } else {
        c
    }
}

/// `text`, followed by a space and the detail where there is one.
pub open spec fn with_detail_suffix(text: Seq<char>, detail: Option<Seq<char>>) -> Seq<char> {
    match detail {
        Some(d) => text + seq![' '] + d,
        None => text,
    }
}

/// The text that shows a variant: its word without dots on `ё`, the letter
/// at the candidate position in uppercase, then the detail.
pub open spec fn variant_text(v: VariantView) -> Seq<char> {
    with_detail_suffix(
        uppercase_letter_spec(v.word.map_values(|c: char| undotted(c)), v.emphasis),
        v.detail,
    )
}

/// `text` and, where there is a detail, a space and the detail after it.
pub fn append_detail(text: String, detail: &Option<String>) -> (res: String)
    ensures
        res@ == with_detail_suffix(text@, text_of(*detail)),
{
    match detail {
        Some(d) => {
            proof {
                reveal_strlit(" ");
            }
            let res = text.concat(" ").concat(d.as_str());
            assert(" "@ =~= seq![' ']);
            res
        },
        None => text,
    }
}

impl Variant {
    /// The text to show for this variant.
    pub fn display(&self) -> (res: String)
        ensures
            res@ == variant_text(self@),
    {
        let v = chars_of(self.word.as_str());
        let mut plain: Vec<char> = Vec::new();
        let mut i: usize = 0;
        while i < v.len()
            invariant
                i <= v.len(),
                plain@ == v@.take(i as int).map_values(|c: char| undotted(c)),
            decreases v.len() - i,
        {
            let c = if v[i] == 'ё' {
                'е'
            } else {
                v[i]
            };
            plain.push(c);
            assert(v@.take(i + 1).map_values(|c: char| undotted(c)) =~= v@.take(
                i as int,
            ).map_values(|c: char| undotted(c)).push(undotted(v@[i as int])));
            i += 1;
        }
        assert(v@.take(v@.len() as int) =~= v@);
        let plain_text = string_of(&plain, 0, plain.len());
        assert(plain@.subrange(0, plain@.len() as int) =~= plain@);
        let marked = uppercase_letter(plain_text.as_str(), self.emphasis);
        append_detail(marked, &self.detail)
    }
}

} // verus!
