//! Character and string helpers shared by the parser and the word model.
//!
//! Text is modelled as `Seq<char>`. The executable code works on a `Vec<char>`
//! and on index ranges into it, and builds a `String` only for what it returns.

use vstd::prelude::*;

verus! {

/// Whether `char::is_whitespace` holds of `c` (the Unicode property
/// `White_Space`).
pub uninterp spec fn char_is_whitespace(c: char) -> bool;

/// Whether `char::is_uppercase` holds of `c` (the Unicode property
/// `Uppercase`).
pub uninterp spec fn char_is_uppercase(c: char) -> bool;

/// The characters that `str::to_lowercase` returns for the text `s`.
pub uninterp spec fn str_to_lowercase(s: Seq<char>) -> Seq<char>;

/// The characters that `char::to_uppercase` yields for `c`.
pub uninterp spec fn char_to_uppercase(c: char) -> Seq<char>;

/// `char::is_whitespace`: the result is the Unicode property `White_Space`
/// of the character, which this library only names.
pub assume_specification[ char::is_whitespace ](c: char) -> (b: bool)
    ensures
        b == char_is_whitespace(c),
;

/// `char::is_uppercase`: the result is the Unicode property `Uppercase` of the
/// character, which this library only names.
pub assume_specification[ char::is_uppercase ](c: char) -> (b: bool)
    ensures
        b == char_is_uppercase(c),
;

/// `str::to_lowercase`: the result depends on the characters of the text
/// alone; the Unicode mapping itself is only named.
pub assume_specification[ str::to_lowercase ](s: &str) -> (lower: String)
    ensures
        lower@ == str_to_lowercase(s@),
;

/// `String::push`: appends one character to the end of the string.
pub assume_specification[ String::push ](s: &mut String, c: char)
    ensures
        final(s)@ == old(s)@.push(c),
;

/// `char::to_uppercase`, collected into a string: the uppercase mapping of one
/// character, which may be more than one character long.
#[verifier::external_body]
fn uppercase_of(c: char) -> (upper: String)
    ensures
        upper@ == char_to_uppercase(c),
{
    c.to_uppercase().collect()
}

/// The predicate "is whitespace".
pub open spec fn whitespace() -> spec_fn(char) -> bool {
    |c: char| char_is_whitespace(c)
}

/// The predicate "is not whitespace".
pub open spec fn non_whitespace() -> spec_fn(char) -> bool {
    |c: char| !char_is_whitespace(c)
}

/// The predicate "is an uppercase letter".
pub open spec fn uppercase() -> spec_fn(char) -> bool {
    |c: char| char_is_uppercase(c)
}

/// The predicate "is one of the characters of `set`".
pub open spec fn one_of(set: Seq<char>) -> spec_fn(char) -> bool {
    |c: char| set.contains(c)
}

/// The index of the first character of `s` that satisfies `p`, or the length
/// of `s` when there is none.
pub open spec fn find_first(s: Seq<char>, p: spec_fn(char) -> bool) -> int
    decreases s.len(),
{
    if s.len() == 0 || p(s[0]) {
        0
    } else {
        1 + find_first(s.drop_first(), p)
    }
}

/// `find_first` stays within the text, passes over no match, and stops at a
/// match unless it reaches the end.
pub proof fn lemma_find_first(s: Seq<char>, p: spec_fn(char) -> bool)
    ensures
        0 <= find_first(s, p) <= s.len(),
        forall|j: int| 0 <= j < find_first(s, p) ==> !p(#[trigger] s[j]),
        find_first(s, p) < s.len() ==> p(s[find_first(s, p)]),
    decreases s.len(),
{
    if s.len() == 0 || p(s[0]) {
    } else {
        let t = s.drop_first();
        lemma_find_first(t, p);
        assert forall|j: int| 0 <= j < find_first(s, p) implies !p(#[trigger] s[j]) by {
            if j > 0 {
                assert(s[j] == t[j - 1]);
            }
        }
        assert(find_first(s, p) < s.len() ==> s[find_first(s, p)] == t[find_first(t, p)]);
    }
}

/// An index that passes over no match and stops at a match, or at the end, is
/// the one `find_first` gives.
pub proof fn lemma_find_first_is(s: Seq<char>, p: spec_fn(char) -> bool, k: int)
    requires
        0 <= k <= s.len(),
        forall|j: int| 0 <= j < k ==> !p(#[trigger] s[j]),
        k < s.len() ==> p(s[k]),
    ensures
        find_first(s, p) == k,
    decreases s.len(),
{
    if s.len() == 0 || p(s[0]) {
        if k > 0 {
            assert(!p(s[0]));
        }
    } else {
        let t = s.drop_first();
        assert(k > 0);
        assert forall|j: int| 0 <= j < k - 1 implies !p(#[trigger] t[j]) by {
            assert(t[j] == s[j + 1]);
        }
        if k < s.len() {
            assert(t[k - 1] == s[k]);
        }
        lemma_find_first_is(t, p, k - 1);
    }
}

/// `s` without its leading whitespace.
pub open spec fn trim_start(s: Seq<char>) -> Seq<char> {
    s.skip(find_first(s, non_whitespace()))
}

/// `s` without its trailing whitespace.
pub open spec fn trim_end(s: Seq<char>) -> Seq<char>
    decreases s.len(),
{
    if s.len() > 0 && char_is_whitespace(s.last()) {
        trim_end(s.drop_last())
    } else {
        s
    }
}

/// `s` without its leading and trailing whitespace.
pub open spec fn trim(s: Seq<char>) -> Seq<char> {
    trim_end(trim_start(s))
}

/// A prefix of `s` that ends in no whitespace, and after which `s` holds
/// whitespace only, is `trim_end(s)`.
pub proof fn lemma_trim_end_is(s: Seq<char>, k: int)
    requires
        0 <= k <= s.len(),
        forall|j: int| k <= j < s.len() ==> char_is_whitespace(#[trigger] s[j]),
        k > 0 ==> !char_is_whitespace(s[k - 1]),
    ensures
        trim_end(s) == s.take(k),
    decreases s.len(),
{
    if s.len() > 0 && char_is_whitespace(s.last()) {
        let t = s.drop_last();
        assert(k < s.len());
        assert forall|j: int| k <= j < t.len() implies char_is_whitespace(#[trigger] t[j]) by {
            assert(t[j] == s[j]);
        }
        lemma_trim_end_is(t, k);
        assert(t.take(k) =~= s.take(k));
    } else {
        if k < s.len() {
            assert(char_is_whitespace(s[s.len() - 1]));
        }
        assert(s.take(k) =~= s);
    }
}

/// The part of `s` that lies between markers: after the first character that
/// is in `opening` (from the start of `s` when `opening` is empty) and up to
/// the next character that is in `closing` (to the end of `s` when there is
/// none).
pub open spec fn between_tags(s: Seq<char>, opening: Seq<char>, closing: Seq<char>) -> Seq<char> {
    let start = if opening.len() == 0 {
        0
    } else if find_first(s, one_of(opening)) < s.len() {
        find_first(s, one_of(opening)) + 1
    } else {
        s.len() as int
    };
    let rest = s.skip(start);
    rest.take(find_first(rest, one_of(closing)))
}

/// `between_tags`, with an empty part counted as no part.
pub open spec fn subslice_tags_spec(s: Seq<char>, opening: Seq<char>, closing: Seq<char>) -> Option<
    Seq<char>,
> {
    let part = between_tags(s, opening, closing);
    if part.len() == 0 {
        None
    } else {
        Some(part)
    }
}

/// The index of the first uppercase letter of `s`, if it has one.
pub open spec fn first_uppercase_spec(s: Seq<char>) -> Option<int> {
    if find_first(s, uppercase()) < s.len() {
        Some(find_first(s, uppercase()))
    } else {
        None
    }
}

/// Whether `c` is one of the ten lowercase Russian vowels.
pub open spec fn is_vowel(c: char) -> bool {
    c == 'а' || c == 'у' || c == 'о' || c == 'и' || c == 'э' || c == 'ы' || c == 'я' || c == 'ю'
        || c == 'е' || c == 'ё'
}

/// The indices below `n` at which `s` holds a vowel, in ascending order.
pub open spec fn vowel_indices(s: Seq<char>, n: int) -> Seq<int> {
    Seq::new(n as nat, |i: int| i).filter(|i: int| is_vowel(s[i]))
}

/// Indices as mathematical integers.
pub open spec fn indices_of(indices: Seq<usize>) -> Seq<int> {
    indices.map_values(|p: usize| p as int)
}

/// The positions of the vowels of `s`, after lowercasing, in ascending order.
pub open spec fn vowel_positions_spec(s: Seq<char>) -> Seq<int> {
    vowel_indices(str_to_lowercase(s), str_to_lowercase(s).len() as int)
}

/// `s` with the character at `pos` replaced by its uppercase mapping; `s`
/// itself when `pos` is past its end.
pub open spec fn uppercase_letter_spec(s: Seq<char>, pos: int) -> Seq<char> {
    if 0 <= pos < s.len() {
        s.take(pos) + char_to_uppercase(s[pos]) + s.skip(pos + 1)
    } else {
        s
    }
}

/// The characters of a string, in order.
pub fn chars_of(s: &str) -> (v: Vec<char>)
    ensures
        v@ == s@,
{
    let mut v: Vec<char> = Vec::new();
    for c in it: s.chars()
        invariant
            v@ == it.history(),
    {
        v.push(c);
    }
    v
}

/// The characters `v[from..to]` as a string.
pub fn string_of(v: &Vec<char>, from: usize, to: usize) -> (s: String)
    requires
        from <= to <= v.len(),
    ensures
        s@ == v@.subrange(from as int, to as int),
{
    let mut s = String::new();
    let mut i: usize = from;
    while i < to
        invariant
            from <= i <= to <= v.len(),
            s@ == v@.subrange(from as int, i as int),
        decreases to - i,
    {
        s.push(v[i]);
        assert(v@.subrange(from as int, i as int).push(v@[i as int]) =~= v@.subrange(
            from as int,
            i + 1,
        ));
        i += 1;
    }
    s
}

/// Whether `c` occurs in `set`.
pub fn is_one_of(set: &[char], c: char) -> (found: bool)
    ensures
        found == set@.contains(c),
{
    let mut i: usize = 0;
    while i < set.len()
        invariant
            i <= set.len(),
            forall|j: int| 0 <= j < i ==> set@[j] != c,
        decreases set.len() - i,
    {
        if set[i] == c {
            return true;
        }
        i += 1;
    }
    false
}

/// The first index in `from..to` at which `v` holds a character of `set`, or
/// `to` when there is none.
pub fn find_one_of(v: &Vec<char>, from: usize, to: usize, set: &[char]) -> (i: usize)
    requires
        from <= to <= v.len(),
    ensures
        from <= i <= to,
        i - from == find_first(v@.subrange(from as int, to as int), one_of(set@)),
{
    let ghost s = v@.subrange(from as int, to as int);
    let mut i: usize = from;
    while i < to && !is_one_of(set, v[i])
        invariant
            from <= i <= to <= v.len(),
            s == v@.subrange(from as int, to as int),
            forall|j: int| 0 <= j < i - from ==> !one_of(set@)(#[trigger] s[j]),
        decreases to - i,
    {
        i += 1;
    }
    proof {
        lemma_find_first_is(s, one_of(set@), i - from);
    }
    i
}

/// The first index in `from..to` at which `v` holds whitespace, or `to` when
/// there is none.
pub fn find_whitespace(v: &Vec<char>, from: usize, to: usize) -> (i: usize)
    requires
        from <= to <= v.len(),
    ensures
        from <= i <= to,
        i - from == find_first(v@.subrange(from as int, to as int), whitespace()),
{
    let ghost s = v@.subrange(from as int, to as int);
    let mut i: usize = from;
    while i < to && !v[i].is_whitespace()
        invariant
            from <= i <= to <= v.len(),
            s == v@.subrange(from as int, to as int),
            forall|j: int| 0 <= j < i - from ==> !whitespace()(#[trigger] s[j]),
        decreases to - i,
    {
        i += 1;
    }
    proof {
        lemma_find_first_is(s, whitespace(), i - from);
    }
    i
}

/// The first index in `from..to` at which `v` holds an uppercase letter, or
/// `to` when there is none.
pub fn find_uppercase(v: &Vec<char>, from: usize, to: usize) -> (i: usize)
    requires
        from <= to <= v.len(),
    ensures
        from <= i <= to,
        i - from == find_first(v@.subrange(from as int, to as int), uppercase()),
{
    let ghost s = v@.subrange(from as int, to as int);
    let mut i: usize = from;
    while i < to && !v[i].is_uppercase()
        invariant
            from <= i <= to <= v.len(),
            s == v@.subrange(from as int, to as int),
            forall|j: int| 0 <= j < i - from ==> !uppercase()(#[trigger] s[j]),
        decreases to - i,
    {
        i += 1;
    }
    proof {
        lemma_find_first_is(s, uppercase(), i - from);
    }
    i
}

/// The bounds of `v[from..to]` without its leading whitespace.
pub fn trim_start_range(v: &Vec<char>, from: usize, to: usize) -> (start: usize)
    requires
        from <= to <= v.len(),
    ensures
        from <= start <= to,
        v@.subrange(start as int, to as int) == trim_start(v@.subrange(from as int, to as int)),
{
    let ghost s = v@.subrange(from as int, to as int);
    let mut i: usize = from;
    while i < to && v[i].is_whitespace()
        invariant
            from <= i <= to <= v.len(),
            s == v@.subrange(from as int, to as int),
            forall|j: int| 0 <= j < i - from ==> !non_whitespace()(#[trigger] s[j]),
        decreases to - i,
    {
        i += 1;
    }
    proof {
        lemma_find_first_is(s, non_whitespace(), i - from);
        assert(s.skip(i - from) =~= v@.subrange(i as int, to as int));
    }
    i
}

/// The bounds of `v[from..to]` without its trailing whitespace.
pub fn trim_end_range(v: &Vec<char>, from: usize, to: usize) -> (end: usize)
    requires
        from <= to <= v.len(),
    ensures
        from <= end <= to,
        v@.subrange(from as int, end as int) == trim_end(v@.subrange(from as int, to as int)),
{
    let ghost s = v@.subrange(from as int, to as int);
    let mut i: usize = to;
    while i > from && v[i - 1].is_whitespace()
        invariant
            from <= i <= to <= v.len(),
            s == v@.subrange(from as int, to as int),
            forall|j: int| i - from <= j < s.len() ==> char_is_whitespace(#[trigger] s[j]),
        decreases i,
    {
        i -= 1;
    }
    proof {
        lemma_trim_end_is(s, i - from);
        assert(s.take(i - from) =~= v@.subrange(from as int, i as int));
    }
    i
}

/// The bounds of `v[from..to]` without its leading and trailing whitespace.
pub fn trim_range(v: &Vec<char>, from: usize, to: usize) -> (bounds: (usize, usize))
    requires
        from <= to <= v.len(),
    ensures
        from <= bounds.0 <= bounds.1 <= to,
        v@.subrange(bounds.0 as int, bounds.1 as int) == trim(
            v@.subrange(from as int, to as int),
        ),
{
    let start = trim_start_range(v, from, to);
    let end = trim_end_range(v, start, to);
    (start, end)
}

/// The bounds in `v[from..to]` of the part between markers (see
/// `between_tags`).
pub fn between_tags_range(
    v: &Vec<char>,
    from: usize,
    to: usize,
    opening: &[char],
    closing: &[char],
) -> (bounds: (usize, usize))
    requires
        from <= to <= v.len(),
    ensures
        from <= bounds.0 <= bounds.1 <= to,
        v@.subrange(bounds.0 as int, bounds.1 as int) == between_tags(
            v@.subrange(from as int, to as int),
            opening@,
            closing@,
        ),
{
    let ghost s = v@.subrange(from as int, to as int);
    let start = if opening.len() == 0 {
        from
    } else {
        let at = find_one_of(v, from, to, opening);
        if at < to {
            at + 1
        } else {
            to
        }
    };
    let end = find_one_of(v, start, to, closing);
    proof {
        assert(s.skip(start - from) =~= v@.subrange(start as int, to as int));
        assert(v@.subrange(start as int, to as int).take(end - start) =~= v@.subrange(
            start as int,
            end as int,
        ));
    }
    (start, end)
}

/// `s` without the whitespace around it, as a string of its own.
pub fn trimmed(s: &str) -> (res: String)
    ensures
        res@ == trim(s@),
{
    let v = chars_of(s);
    let (start, end) = trim_range(&v, 0, v.len());
    assert(v@.subrange(0, v@.len() as int) =~= v@);
    string_of(&v, start, end)
}

/// How many characters of `s` are in `set`.
pub open spec fn count_of(s: Seq<char>, set: Seq<char>) -> nat {
    s.filter(one_of(set)).len()
}

/// How many characters of `v[from..to]` are in `set`.
pub fn count_one_of(v: &Vec<char>, from: usize, to: usize, set: &[char]) -> (count: usize)
    requires
        from <= to <= v.len(),
    ensures
        count == count_of(v@.subrange(from as int, to as int), set@),
{
    let mut count: usize = 0;
    let mut i: usize = from;
    proof {
        reveal(Seq::filter);
        assert(v@.subrange(from as int, from as int).len() == 0);
    }
    while i < to
        invariant
            from <= i <= to <= v.len(),
            count <= i - from,
            count == count_of(v@.subrange(from as int, i as int), set@),
        decreases to - i,
    {
        proof {
            reveal(Seq::filter);
            let next = v@.subrange(from as int, i + 1);
            assert(next.drop_last() =~= v@.subrange(from as int, i as int));
            assert(next.last() == v@[i as int]);
        }
        if is_one_of(set, v[i]) {
            count += 1;
        }
        i += 1;
    }
    count
}

/// Whether `v[from..to]` holds the character `c`.
pub fn range_contains(v: &Vec<char>, from: usize, to: usize, c: char) -> (found: bool)
    requires
        from <= to <= v.len(),
    ensures
        found == v@.subrange(from as int, to as int).contains(c),
{
    let ghost s = v@.subrange(from as int, to as int);
    let mut i: usize = from;
    while i < to
        invariant
            from <= i <= to <= v.len(),
            s == v@.subrange(from as int, to as int),
            forall|j: int| 0 <= j < i - from ==> s[j] != c,
        decreases to - i,
    {
        if v[i] == c {
            assert(s[i - from] == c);
            return true;
        }
        i += 1;
    }
    false
}

/// Make the letter of `s` at position `pos` uppercase.
pub fn uppercase_letter(s: &str, pos: usize) -> (res: String)
    ensures
        res@ == uppercase_letter_spec(s@, pos as int),
{
    let v = chars_of(s);
    if pos < v.len() {
        let head = string_of(&v, 0, pos);
        let upper = uppercase_of(v[pos]);
        let tail = string_of(&v, pos + 1, v.len());
        let res = head.concat(upper.as_str()).concat(tail.as_str());
        res
    } else {
        let res = string_of(&v, 0, v.len());
        assert(v@.subrange(0, v@.len() as int) =~= v@);
        res
    }
}

/// Whether `c` is one of the ten lowercase Russian vowels.
pub fn is_vowel_char(c: char) -> (b: bool)
    ensures
        b == is_vowel(c),
{
    c == 'а' || c == 'у' || c == 'о' || c == 'и' || c == 'э' || c == 'ы' || c == 'я' || c == 'ю'
        || c == 'е' || c == 'ё'
}

/// Get the positions of all vowels in `s`, after lowercasing it.
pub fn get_vowel_positions(s: &str) -> (positions: Vec<usize>)
    ensures
        indices_of(positions@) == vowel_positions_spec(s@),
{
    let lower = s.to_lowercase();
    let v = chars_of(lower.as_str());
    let mut positions: Vec<usize> = Vec::new();
    let mut i: usize = 0;
    while i < v.len()
        invariant
            i <= v.len(),
            v@ == str_to_lowercase(s@),
            indices_of(positions@) == vowel_indices(v@, i as int),
        decreases v.len() - i,
    {
        proof {
            lemma_vowel_indices_step(v@, i as int);
        }
        if is_vowel_char(v[i]) {
            assert(indices_of(positions@.push(i)) =~= indices_of(positions@).push(i as int));
            positions.push(i);
        }
        i += 1;
    }
    positions
}

/// What one more index adds to `vowel_indices`.
pub proof fn lemma_vowel_indices_step(s: Seq<char>, n: int)
    requires
        0 <= n,
    ensures
        vowel_indices(s, 0) == Seq::<int>::empty(),
        vowel_indices(s, n + 1) == if is_vowel(s[n]) {
            vowel_indices(s, n).push(n)
        } else {
            vowel_indices(s, n)
        },
{
    reveal(Seq::filter);
    let all = Seq::new((n + 1) as nat, |i: int| i);
    assert(all.drop_last() =~= Seq::new(n as nat, |i: int| i));
    assert(all.last() == n);
    assert(Seq::new(0nat, |i: int| i).len() == 0);
}

/// Get the position of the first uppercase letter.
pub fn first_uppercase_position(s: &str) -> (pos: Option<usize>)
    ensures
        match pos {
            Some(i) => first_uppercase_spec(s@) == Some(i as int),
            None => first_uppercase_spec(s@) is None,
        },
{
    let v = chars_of(s);
    let i = find_uppercase(&v, 0, v.len());
    assert(v@.subrange(0, v@.len() as int) =~= v@);
    if i < v.len() {
        Some(i)
    } else {
        None
    }
}

/// Get the part of `s` between tags.
pub fn subslice_tags(s: &str, opening: &[char], closing: &[char]) -> (part: Option<String>)
    ensures
        match part {
            Some(text) => subslice_tags_spec(s@, opening@, closing@) == Some(text@),
            None => subslice_tags_spec(s@, opening@, closing@) is None,
        },
{
    let v = chars_of(s);
    assert(v@.subrange(0, v@.len() as int) =~= v@);
    let (start, end) = between_tags_range(&v, 0, v.len(), opening, closing);
    if start == end {
        None
    } else {
        Some(string_of(&v, start, end))
    }
}

/// The character of the decimal digit `d`.
pub open spec fn digit_char(d: int) -> char {
    if d == 0 {
        '0'
    } else if d == 1 {
        '1'
    } else if d == 2 {
        '2'
    } else if d == 3 {
        '3'
    } else if d == 4 {
        '4'
    } else if d == 5 {
        '5'
    } else if d == 6 {
        '6'
    } else if d == 7 {
        '7'
    } else if d == 8 {
        '8'
    } else {
        '9'
    }
}

/// The number `n` written in decimal digits, without leading zeros.
pub open spec fn decimal(n: nat) -> Seq<char>
    decreases n,
{
    if n < 10 {
        seq![digit_char(n as int)]
    } else {
        decimal(n / 10).push(digit_char((n % 10) as int))
    }
}

/// The number `n` written in decimal digits, in two digits at least.
pub open spec fn decimal_padded(n: nat) -> Seq<char> {
    if n < 10 {
        seq!['0'] + decimal(n)
    } else {
        decimal(n)
    }
}

/// The character of the decimal digit `d`.
pub fn digit_of(d: u64) -> (c: char)
    requires
        d < 10,
    ensures
        c == digit_char(d as int),
{
    if d == 0 {
        '0'
    } else if d == 1 {
        '1'
    } else if d == 2 {
        '2'
    } else if d == 3 {
        '3'
    } else if d == 4 {
        '4'
    } else if d == 5 {
        '5'
    } else if d == 6 {
        '6'
    } else if d == 7 {
        '7'
    } else if d == 8 {
        '8'
    } else {
        '9'
    }
}

/// Append the decimal digits of `n` to `s`.
pub fn push_decimal(s: &mut String, n: u64)
    ensures
        final(s)@ == old(s)@ + decimal(n as nat),
    decreases n,
{
    if n >= 10 {
        push_decimal(s, n / 10);
    }
    s.push(digit_of(n % 10));
    assert(final(s)@ =~= old(s)@ + decimal(n as nat));
}

/// The number `n` written in decimal digits.
pub fn decimal_string(n: u64) -> (s: String)
    ensures
        s@ == decimal(n as nat),
{
    let mut s = String::new();
    push_decimal(&mut s, n);
    assert(s@ =~= decimal(n as nat));
    s
}

/// The number `n` written in decimal digits, in two digits at least.
pub fn decimal_padded_string(n: u64) -> (s: String)
    ensures
        s@ == decimal_padded(n as nat),
{
    let mut s = String::new();
    if n < 10 {
        s.push('0');
    }
    push_decimal(&mut s, n);
    assert(s@ =~= decimal_padded(n as nat));
    s
}

} // verus!
