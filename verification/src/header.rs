//! What the header of a card tells: how many words were passed, and how much
//! time has gone by.

use crate::util::{decimal_padded, decimal_padded_string};
use vstd::prelude::*;
use vstd::string::StringExecFns;

verus! {

/// The form of the word for "words" that goes with the number `num`.
pub open spec fn words_ending_spec(num: int) -> Seq<char> {
    if 5 <= num < 20 {
        "слов"@
    } else if num % 10 == 1 {
        "слово"@
    } else if 2 <= num % 10 <= 4 {
        "слова"@
    } else {
        "слов"@
    }
}

/// The form of the word for "words" that goes with the number `num`.
pub fn words_ending(num: u32) -> (ending: &'static str)
    ensures
        ending@ == words_ending_spec(num as int),
{
    let ending = num % 10;
    if num >= 5 && num < 20 {
        "слов"
    } else if ending == 1 {
        "слово"
    } else if 2 <= ending && ending <= 4 {
        "слова"
    } else {
        "слов"
    }
}

/// The time of `seconds` seconds as minutes and seconds, with the hours
/// before them once an hour is full; each part in two digits at least.
pub open spec fn clock_spec(seconds: nat) -> Seq<char> {
    let hours = seconds / 3600;
    let minutes = seconds % 3600 / 60;
    let rest = seconds % 60;
    if hours == 0 {
        decimal_padded(minutes) + ":"@ + decimal_padded(rest)
    } else {
        decimal_padded(hours) + ":"@ + decimal_padded(minutes) + ":"@ + decimal_padded(rest)
    }
}

/// The time of `seconds` seconds, as the header shows it.
pub fn clock(seconds: u64) -> (text: String)
    ensures
        text@ == clock_spec(seconds as nat),
{
    let hours = seconds / 3600;
    let minutes = seconds % 3600 / 60;
    let rest = seconds % 60;
    let tail = decimal_padded_string(minutes).concat(":").concat(
        decimal_padded_string(rest).as_str(),
    );
    if hours == 0 {
        tail
    } else {
        let text = decimal_padded_string(hours).concat(":").concat(tail.as_str());
        assert(text@ =~= clock_spec(seconds as nat));
        text
    }
}

} // verus!
