//! The parser of the word database.
//!
//! The database is a text of lines. A line that starts with `>` binds an
//! explanation to a tag; any other line that is neither empty nor a comment
//! describes one word. Every line is read on its own: a line that cannot be
//! read gives an error and the lines after it are read all the same.

use crate::model::word::{word_views, Word, WordView};
use crate::util::{
    between_tags, between_tags_range, chars_of, count_of, count_one_of, decimal, find_first,
    find_one_of, find_uppercase, find_whitespace, first_uppercase_spec, lemma_find_first,
    one_of, push_decimal, range_contains, str_to_lowercase, string_of, trim, trim_range,
    trim_start, trim_start_range, trimmed, whitespace,
};
use vstd::hash_map::StringHashMap;
use vstd::prelude::*;
use vstd::string::StringExecFns;

verus! {

/// Why a line that defines an explanation could not be read.
#[derive(Debug, PartialEq, Eq)]
pub enum ExplanationParseError {
    /// The line has no `:` between the tag and the text.
    DelimiterNotFound,
}

/// Why a line that describes a word could not be read.
#[derive(Debug, PartialEq, Eq)]
pub enum WordParseError {
    /// The word has no uppercase letter to mark its stress.
    EmphasisNotFound(String),
    /// The line names more than one group.
    MoreThanOneGroup(String),
    /// The line refers to an explanation that no earlier line defines.
    ExplanationNotDefined { tag: String, word: String },
    /// An explanation tag was expected and not found.
    NoExplanationTag,
    /// The explanation is empty.
    ExplanationEmpty,
}

/// An error of the parser, with the number of the line that it is about.
#[derive(Debug, PartialEq, Eq)]
pub enum ParseError {
    WordParseError { line: usize, inner: WordParseError },
    ExplanationParseError { line: usize, inner: ExplanationParseError },
}

/// What a `WordParseError` holds, as plain values.
pub enum WordParseErrorView {
    EmphasisNotFound(Seq<char>),
    MoreThanOneGroup(Seq<char>),
    ExplanationNotDefined { tag: Seq<char>, word: Seq<char> },
    NoExplanationTag,
    ExplanationEmpty,
}

/// What a `ParseError` holds, as plain values.
pub enum ParseErrorView {
    Word { line: int, inner: WordParseErrorView },
    Explanation { line: int, inner: ExplanationParseError },
}

impl View for WordParseError {
    type V = WordParseErrorView;

    open spec fn view(&self) -> WordParseErrorView {
        match *self {
            WordParseError::EmphasisNotFound(token) => WordParseErrorView::EmphasisNotFound(
                token@,
            ),
            WordParseError::MoreThanOneGroup(word) => WordParseErrorView::MoreThanOneGroup(word@),
            WordParseError::ExplanationNotDefined { tag, word } => {
                WordParseErrorView::ExplanationNotDefined { tag: tag@, word: word@ }
            },
            WordParseError::NoExplanationTag => WordParseErrorView::NoExplanationTag,
            WordParseError::ExplanationEmpty => WordParseErrorView::ExplanationEmpty,
        }
    }
}

impl View for ParseError {
    type V = ParseErrorView;

    open spec fn view(&self) -> ParseErrorView {
        match *self {
            ParseError::WordParseError { line, inner } => ParseErrorView::Word {
                line: line as int,
                inner: inner@,
            },
            ParseError::ExplanationParseError { line, inner } => ParseErrorView::Explanation {
                line: line as int,
                inner,
            },
        }
    }
}

/// Errors, each by its view.
pub open spec fn error_views(errors: Seq<ParseError>) -> Seq<ParseErrorView> {
    errors.map_values(|e: ParseError| e@)
}

impl ExplanationParseError {
    /// What the error says.
    pub open spec fn text(self) -> Seq<char> {
        "`:` delimiter not found."@
    }

    /// What the error says.
    pub fn message(&self) -> (res: String)
        ensures
            res@ == self.text(),
    {
        String::from_str("`:` delimiter not found.")
    }
}

impl WordParseErrorView {
    /// What the error says.
    pub open spec fn text(self) -> Seq<char> {
        match self {
            WordParseErrorView::EmphasisNotFound(token) => {
                "Word must contain emphasis specified by uppercase letter; Word `"@ + token
                    + "` has no emphasis."@
            },
            WordParseErrorView::MoreThanOneGroup(word) => {
                "Word `"@ + word
                    + "` has multiple groups defined. Currently only one group allowed."@
            },
            WordParseErrorView::ExplanationNotDefined { tag, word } => {
                "Explanation tag `"@ + tag + "` for `"@ + word + "` not defined."@
            },
            WordParseErrorView::NoExplanationTag => {
                "Explanation tag not found although it was expected."@
            },
            WordParseErrorView::ExplanationEmpty => "Explanation can't be empty."@,
        }
    }
}

impl WordParseError {
    /// What the error says.
    pub fn message(&self) -> (res: String)
        ensures
            res@ == self@.text(),
    {
        match self {
            WordParseError::EmphasisNotFound(token) => String::from_str(
                "Word must contain emphasis specified by uppercase letter; Word `",
            ).concat(token.as_str()).concat("` has no emphasis."),
            WordParseError::MoreThanOneGroup(word) => String::from_str("Word `").concat(
                word.as_str(),
            ).concat("` has multiple groups defined. Currently only one group allowed."),
            WordParseError::ExplanationNotDefined { tag, word } => String::from_str(
                "Explanation tag `",
            ).concat(tag.as_str()).concat("` for `").concat(word.as_str()).concat(
                "` not defined.",
            ),
            WordParseError::NoExplanationTag => String::from_str(
                "Explanation tag not found although it was expected.",
            ),
            WordParseError::ExplanationEmpty => String::from_str("Explanation can't be empty."),
        }
    }
}

impl ParseErrorView {
    /// What the error says: the number of the line, then what is wrong with
    /// the line.
    pub open spec fn text(self) -> Seq<char> {
        match self {
            ParseErrorView::Word { line, inner } => "Line "@ + decimal(line as nat) + ": "@
                + inner.text(),
            ParseErrorView::Explanation { line, inner } => "Line "@ + decimal(line as nat) + ": "@
                + inner.text(),
        }
    }
}

impl ParseError {
    /// What the error says.
    pub fn message(&self) -> (res: String)
        ensures
            res@ == self@.text(),
    {
        let mut res = String::from_str("Line ");
        match self {
            ParseError::WordParseError { line, inner } => {
                push_decimal(&mut res, *line as u64);
                res.concat(": ").concat(inner.message().as_str())
            },
            ParseError::ExplanationParseError { line, inner } => {
                push_decimal(&mut res, *line as u64);
                res.concat(": ").concat(inner.message().as_str())
            },
        }
    }

    /// The error `inner` of a word line, found on line `line`.
    pub fn new_word(line: usize, inner: WordParseError) -> (error: ParseError)
        ensures
            error@ == (ParseErrorView::Word { line: line as int, inner: inner@ }),
    {
        ParseError::WordParseError { line, inner }
    }

    /// The error `inner` of an explanation line, found on line `line`.
    pub fn new_explanation(line: usize, inner: ExplanationParseError) -> (error: ParseError)
        ensures
            error@ == (ParseErrorView::Explanation { line: line as int, inner }),
    {
        ParseError::ExplanationParseError { line, inner }
    }
}

/// Binding between a tag and the text that explains an accentuation.
#[derive(Debug, Clone, PartialEq, Eq)]
pub struct Explanation {
    pub tag: String,
    pub text: String,
}

/// The characters that end the detail of a word line.
pub open spec fn detail_end() -> Seq<char> {
    seq![':', '!', '>', '<']
}

/// The characters that start the group of a word line.
pub open spec fn group_start() -> Seq<char> {
    seq![':', '!']
}

/// The characters that end the group of a word line.
pub open spec fn group_end() -> Seq<char> {
    seq!['>', '<']
}

/// The tag and the text that the body of an explanation line defines: what
/// stands before its first `:`, trimmed and lowercased, and what stands after
/// it, trimmed.
pub open spec fn explanation_spec(body: Seq<char>) -> Result<
    (Seq<char>, Seq<char>),
    ExplanationParseError,
> {
    let at = find_first(body, one_of(seq![':']));
    if at < body.len() {
        Ok((str_to_lowercase(trim(body.take(at))), trim(body.skip(at + 1))))
    } else {
        Err(ExplanationParseError::DelimiterNotFound)
    }
}

impl Explanation {
    /// Read the body of an explanation line, which is the line without its
    /// leading `>`.
    pub fn from_str(s: &str) -> (res: Result<Explanation, ExplanationParseError>)
        ensures
            match res {
                Ok(e) => explanation_spec(s@) == Ok::<_, ExplanationParseError>((e.tag@, e.text@)),
                Err(e) => explanation_spec(s@) == Err::<(Seq<char>, Seq<char>), _>(e),
            },
    {
        let v = chars_of(s);
        let colon: [char; 1] = [':'];
        assert(colon@ =~= seq![':']);
        assert(v@.subrange(0, v@.len() as int) =~= v@);
        let at = find_one_of(&v, 0, v.len(), &colon);
        if at < v.len() {
            let (t0, t1) = trim_range(&v, 0, at);
            let (x0, x1) = trim_range(&v, at + 1, v.len());
            let tag = string_of(&v, t0, t1).to_lowercase();
            let text = string_of(&v, x0, x1);
            Ok(Explanation { tag, text })
        } else {
            Err(ExplanationParseError::DelimiterNotFound)
        }
    }
}

/// The explanations that the lines read so far define, by tag.
pub struct Explanations {
    map: StringHashMap<String>,
}

impl View for Explanations {
    type V = Map<Seq<char>, Seq<char>>;

    closed spec fn view(&self) -> Map<Seq<char>, Seq<char>> {
        self.map@.map_values(|text: String| text@)
    }
}

impl Explanations {
    /// No explanations.
    pub fn new() -> (res: Self)
        ensures
            res@ == Map::<Seq<char>, Seq<char>>::empty(),
    {
        let res = Explanations { map: StringHashMap::new() };
        assert(res@ =~= Map::<Seq<char>, Seq<char>>::empty());
        res
    }

    /// Bind `text` to `tag`, in place of what was bound to it before.
    pub fn insert(&mut self, tag: String, text: String)
        ensures
            final(self)@ == old(self)@.insert(tag@, text@),
    {
        self.map.insert(tag, text);
        assert(self@ =~= old(self)@.insert(tag@, text@));
    }

    /// The text bound to `tag`, if there is one.
    pub fn get(&self, tag: &str) -> (res: Option<&String>)
        ensures
            match res {
                Some(text) => self@.contains_key(tag@) && self@[tag@] == text@,
                None => !self@.contains_key(tag@),
            },
    {
        self.map.get(tag)
    }
}

/// The token of a word line, and what follows its first whitespace, trimmed,
/// where the line has any.
pub open spec fn split_token(line: Seq<char>) -> (Seq<char>, Option<Seq<char>>) {
    let at = find_first(line, whitespace());
    if at < line.len() {
        (line.take(at), Some(trim(line.skip(at + 1))))
    } else {
        (line, None)
    }
}

/// `word` with the detail that `rest` gives: what stands before its first
/// marker, trimmed, unless that is empty.
pub open spec fn attach_detail(word: WordView, rest: Seq<char>) -> WordView {
    let raw = between_tags(rest, Seq::empty(), detail_end());
    if trim(raw).len() > 0 {
        word.with_detail(raw)
    } else {
        word
    }
}

/// `word` with the group that `rest` gives: the name that stands between its
/// first `:` or `!` and the next `>` or `<`, trimmed, unless nothing stands
/// there; the word is on the inverted side when `rest` holds a `!`.
pub open spec fn attach_group(word: WordView, rest: Seq<char>) -> WordView {
    let raw = between_tags(rest, group_start(), group_end());
    if raw.len() > 0 {
        word.with_group(trim(raw), rest.contains('!'))
    } else {
        word
    }
}

/// `word` with the explanation that `rest` gives. What follows the first `>`
/// is a tag, looked up in `explanations` without regard to case; where
/// nothing follows a `>`, what follows the first `<` is the explanation
/// itself.
pub open spec fn attach_explanation(
    word: WordView,
    rest: Seq<char>,
    explanations: Map<Seq<char>, Seq<char>>,
) -> Result<WordView, WordParseErrorView> {
    let reference = between_tags(rest, seq!['>'], Seq::empty());
    let inline = between_tags(rest, seq!['<'], Seq::empty());
    if reference.len() > 0 {
        let tag = str_to_lowercase(trim(reference));
        if explanations.contains_key(tag) {
            Ok(word.with_explanation(trim(explanations[tag])))
        } else {
            Err(WordParseErrorView::ExplanationNotDefined { tag, word: word.text })
        }
    } else if inline.len() > 0 {
        Ok(word.with_explanation(trim(inline)))
    } else {
        Ok(word)
    }
}

/// What a word line, already trimmed, describes.
pub open spec fn parse_word_spec(
    line: Seq<char>,
    explanations: Map<Seq<char>, Seq<char>>,
) -> Result<WordView, WordParseErrorView> {
    let (token, rest) = split_token(line);
    match first_uppercase_spec(token) {
        None => Err(WordParseErrorView::EmphasisNotFound(token)),
        Some(emphasis) => {
            let word = WordView::new(token, emphasis);
            match rest {
                None => Ok(word),
                Some(rest) => {
                    let word = attach_detail(word, rest);
                    if count_of(rest, group_start()) > 1 {
                        Err(WordParseErrorView::MoreThanOneGroup(word.text))
                    } else {
                        attach_explanation(attach_group(word, rest), rest, explanations)
                    }
                },
            }
        },
    }
}

/// Whether a trimmed line is to be read: it is neither empty nor a comment.
pub open spec fn should_parse_spec(line: Seq<char>) -> bool {
    line.len() > 0 && !(line.len() >= 2 && line[0] == '/' && line[1] == '/')
}

/// What one line gives.
#[derive(Debug)]
pub enum ParseResult {
    Word(Word),
    Explanation(String, String),
    Error(ParseError),
}

/// What a `ParseResult` holds, as plain values.
pub enum ParseResultView {
    Word(WordView),
    Explanation(Seq<char>, Seq<char>),
    Error(ParseErrorView),
}

impl View for ParseResult {
    type V = ParseResultView;

    open spec fn view(&self) -> ParseResultView {
        match *self {
            ParseResult::Word(word) => ParseResultView::Word(word@),
            ParseResult::Explanation(tag, text) => ParseResultView::Explanation(tag@, text@),
            ParseResult::Error(error) => ParseResultView::Error(error@),
        }
    }
}

/// What the line `text`, which is line `line` of the database, gives; `None`
/// for a line that is empty or a comment.
pub open spec fn parse_line_spec(
    line: int,
    text: Seq<char>,
    explanations: Map<Seq<char>, Seq<char>>,
) -> Option<ParseResultView> {
    let text = trim(text);
    if !should_parse_spec(text) {
        None
    } else if text[0] == '>' {
        Some(
            match explanation_spec(trim_start(text.skip(1))) {
                Ok((tag, body)) => ParseResultView::Explanation(tag, body),
                Err(inner) => ParseResultView::Error(ParseErrorView::Explanation { line, inner }),
            },
        )
    } else {
        Some(
            match parse_word_spec(text, explanations) {
                Ok(word) => ParseResultView::Word(word),
                Err(inner) => ParseResultView::Error(ParseErrorView::Word { line, inner }),
            },
        )
    }
}

/// What the parser has gathered from the lines read so far.
pub struct ParseState {
    pub words: Seq<WordView>,
    pub explanations: Map<Seq<char>, Seq<char>>,
    pub errors: Seq<ParseErrorView>,
}

/// The state after the line `text`, which is line `line`, is read in the
/// state `state`.
pub open spec fn parse_step(state: ParseState, line: int, text: Seq<char>) -> ParseState {
    match parse_line_spec(line, text, state.explanations) {
        None => state,
        Some(ParseResultView::Word(word)) => ParseState { words: state.words.push(word), ..state },
        Some(ParseResultView::Explanation(tag, body)) => ParseState {
            explanations: state.explanations.insert(tag, body),
            ..state
        },
        Some(ParseResultView::Error(error)) => ParseState {
            errors: state.errors.push(error),
            ..state
        },
    }
}

/// The state after all of `lines` are read, in order, from an empty state.
pub open spec fn parse_lines(lines: Seq<Seq<char>>) -> ParseState
    decreases lines.len(),
{
    if lines.len() == 0 {
        ParseState { words: Seq::empty(), explanations: Map::empty(), errors: Seq::empty() }
    } else {
        parse_step(parse_lines(lines.drop_last()), lines.len() - 1, lines.last())
    }
}

/// `line` without a carriage return at its end.
pub open spec fn without_cr(line: Seq<char>) -> Seq<char> {
    if line.len() > 0 && line.last() == '\r' {
        line.drop_last()
    } else {
        line
    }
}

/// The lines of a text. A line ends at a line feed, or at the end of the
/// text; a carriage return before the line feed belongs to the line ending.
/// After the last line feed no empty line follows.
pub open spec fn lines_spec(text: Seq<char>) -> Seq<Seq<char>>
    decreases text.len(),
    via lines_spec_decreases
{
    let at = find_first(text, one_of(seq!['\n']));
    if text.len() == 0 {
        Seq::empty()
    } else if at < text.len() {
        seq![without_cr(text.take(at))] + lines_spec(text.skip(at + 1))
    } else {
        seq![text]
    }
}

#[via_fn]
proof fn lines_spec_decreases(text: Seq<char>) {
    lemma_find_first(text, one_of(seq!['\n']));
}

/// The words and the errors that the database `text` gives.
pub open spec fn parse_spec(text: Seq<char>) -> ParseState {
    parse_lines(lines_spec(text))
}

/// Whether a line counts: trimmed, it is neither empty nor a comment.
pub open spec fn is_significant(text: Seq<char>) -> bool {
    should_parse_spec(trim(text))
}

/// Whether a line defines an explanation: it counts, starts with `>` and has
/// a `:` after it.
pub open spec fn defines_explanation(text: Seq<char>) -> bool {
    is_significant(text) && trim(text)[0] == '>' && explanation_spec(
        trim_start(trim(text).skip(1)),
    ) is Ok
}

/// Every line that counts gives one word, one error or one explanation.
pub proof fn lemma_parse_lines_count(lines: Seq<Seq<char>>)
    ensures
        parse_lines(lines).words.len() + parse_lines(lines).errors.len() + lines.filter(
            |l: Seq<char>| defines_explanation(l),
        ).len() == lines.filter(|l: Seq<char>| is_significant(l)).len(),
    decreases lines.len(),
{
    reveal(Seq::filter);
    if lines.len() > 0 {
        lemma_parse_lines_count(lines.drop_last());
    }
}

/// Parser totality: for a database in which no line defines an explanation,
/// the words and the errors that `parse` returns are together as many as the
/// lines that are neither blank nor comments. (A line that defines an
/// explanation gives neither a word nor an error.)
pub proof fn lemma_parse_total(text: Seq<char>)
    requires
        forall|i: int|
            0 <= i < lines_spec(text).len() ==> !defines_explanation(#[trigger] lines_spec(text)[i]),
    ensures
        parse_spec(text).words.len() + parse_spec(text).errors.len() == lines_spec(text).filter(
            |l: Seq<char>| is_significant(l),
        ).len(),
{
    let lines = lines_spec(text);
    let defining = lines.filter(|l: Seq<char>| defines_explanation(l));
    lemma_parse_lines_count(lines);
    if defining.len() > 0 {
        lines.lemma_filter_contains_rev(|l: Seq<char>| defines_explanation(l), defining[0]);
    }
}

/// Whether a trimmed line is to be read.
pub fn should_parse(s: &str) -> (res: bool)
    ensures
        res == should_parse_spec(s@),
{
    let v = chars_of(s);
    v.len() > 0 && !(v.len() >= 2 && v[0] == '/' && v[1] == '/')
}

/// Read a word line, already trimmed.
pub fn parse_word(line: &str, explanations: &Explanations) -> (res: Result<Word, WordParseError>)
    ensures
        match res {
            Ok(word) => parse_word_spec(line@, explanations@) == Ok::<_, WordParseErrorView>(
                word@,
            ),
            Err(error) => parse_word_spec(line@, explanations@) == Err::<WordView, _>(error@),
        },
{
    let v = chars_of(line);
    let n = v.len();
    assert(v@.subrange(0, n as int) =~= v@);
    let at = find_whitespace(&v, 0, n);
    assert(v@.subrange(0, at as int) =~= v@.take(at as int));
    let ghost token = split_token(line@).0;
    assert(token == v@.subrange(0, at as int));
    let emphasis = find_uppercase(&v, 0, at);
    let token_text = string_of(&v, 0, at);
    if emphasis == at {
        return Err(WordParseError::EmphasisNotFound(token_text));
    }
    let mut word = Word::new(token_text.as_str(), emphasis);
    if at == n {
        return Ok(word);
    }
    let (from, to) = trim_range(&v, at + 1, n);
    let ghost rest = v@.subrange(from as int, to as int);
    assert(v@.subrange(at + 1, n as int) =~= v@.skip(at + 1));
    assert(split_token(line@).1 == Some(rest));

    let no_marker: [char; 0] = [];
    let detail_closing: [char; 4] = [':', '!', '>', '<'];
    let group_opening: [char; 2] = [':', '!'];
    let group_closing: [char; 2] = ['>', '<'];
    let reference_opening: [char; 1] = ['>'];
    let inline_opening: [char; 1] = ['<'];
    assert(no_marker@ =~= Seq::<char>::empty());
    assert(detail_closing@ =~= detail_end());
    assert(group_opening@ =~= group_start());
    assert(group_closing@ =~= group_end());
    assert(reference_opening@ =~= seq!['>']);
    assert(inline_opening@ =~= seq!['<']);

    // Detail
    let (d0, d1) = between_tags_range(&v, from, to, &no_marker, &detail_closing);
    let (t0, t1) = trim_range(&v, d0, d1);
    if t0 < t1 {
        let raw = string_of(&v, d0, d1);
        word = word.with_detail(raw.as_str());
    }
    assert(word@ == attach_detail(WordView::new(token, emphasis as int), rest));
    // Group
    if count_one_of(&v, from, to, &group_opening) > 1 {
        return Err(WordParseError::MoreThanOneGroup(word.inner().to_owned()));
    }
    let (g0, g1) = between_tags_range(&v, from, to, &group_opening, &group_closing);
    if g0 < g1 {
        let (h0, h1) = trim_range(&v, g0, g1);
        let name = string_of(&v, h0, h1);
        let inverted = range_contains(&v, from, to, '!');
        word = word.with_group(name.as_str(), inverted);
    }
    assert(word@ == attach_group(
        attach_detail(WordView::new(token, emphasis as int), rest),
        rest,
    ));
    // Explanation
    let (e0, e1) = between_tags_range(&v, from, to, &reference_opening, &no_marker);
    if e0 < e1 {
        let (x0, x1) = trim_range(&v, e0, e1);
        let tag = string_of(&v, x0, x1).to_lowercase();
        match explanations.get(tag.as_str()) {
            Some(text) => {
                let text = trimmed(text.as_str());
                word = word.with_explanation(text.as_str());
            },
            None => {
                return Err(
                    WordParseError::ExplanationNotDefined { tag, word: word.inner().to_owned() },
                );
            },
        }
    } else {
        let (i0, i1) = between_tags_range(&v, from, to, &inline_opening, &no_marker);
        if i0 < i1 {
            let (y0, y1) = trim_range(&v, i0, i1);
            let text = string_of(&v, y0, y1);
            word = word.with_explanation(text.as_str());
        }
    }
    Ok(word)
}

/// Read one line of the database, which is its line `line`.
pub fn parse_line(line: usize, text: &str, explanations: &Explanations) -> (res: Option<
    ParseResult,
>)
    ensures
        match res {
            Some(result) => parse_line_spec(line as int, text@, explanations@) == Some(result@),
            None => parse_line_spec(line as int, text@, explanations@) is None,
        },
{
    let text = trimmed(text);
    if !should_parse(text.as_str()) {
        return None;
    }
    let v = chars_of(text.as_str());
    let res = if v[0] == '>' {
        let start = trim_start_range(&v, 1, v.len());
        assert(v@.subrange(1, v@.len() as int) =~= v@.skip(1));
        let body = string_of(&v, start, v.len());
        match Explanation::from_str(body.as_str()) {
            Ok(explanation) => ParseResult::Explanation(explanation.tag, explanation.text),
            Err(source) => ParseResult::Error(ParseError::new_explanation(line, source)),
        }
    } else {
        match parse_word(text.as_str(), explanations) {
            Ok(word) => ParseResult::Word(word),
            Err(source) => ParseResult::Error(ParseError::new_word(line, source)),
        }
    };
    Some(res)
}

/// What adding one line at the end does to `parse_lines`.
proof fn lemma_parse_lines_push(lines: Seq<Seq<char>>, text: Seq<char>)
    ensures
        parse_lines(lines.push(text)) == parse_step(parse_lines(lines), lines.len() as int, text),
{
    assert(lines.push(text).drop_last() =~= lines);
}

/// Read the database `s`: the words that its lines describe, in order, and
/// the errors of the lines that could not be read, in order.
pub fn parse(s: &str) -> (res: (Vec<Word>, Vec<ParseError>))
    ensures
        word_views(res.0@) == parse_spec(s@).words,
        error_views(res.1@) == parse_spec(s@).errors,
{
    let v = chars_of(s);
    let n = v.len();
    let mut words: Vec<Word> = Vec::new();
    let mut explanations = Explanations::new();
    let mut errors: Vec<ParseError> = Vec::new();
    let newline: [char; 1] = ['\n'];
    let mut pos: usize = 0;
    let mut line: usize = 0;
    let ghost mut done: Seq<Seq<char>> = Seq::empty();
    proof {
        assert(v@.skip(0) =~= v@);
        assert(word_views(words@) =~= parse_lines(done).words);
        assert(error_views(errors@) =~= parse_lines(done).errors);
    }
    while pos < n
        invariant
            n == v.len(),
            pos <= n,
            line <= pos,
            line == done.len(),
            newline@ == seq!['\n'],
            lines_spec(v@) == done + lines_spec(v@.skip(pos as int)),
            word_views(words@) == parse_lines(done).words,
            error_views(errors@) == parse_lines(done).errors,
            explanations@ == parse_lines(done).explanations,
        decreases n - pos,
    {
        let ghost rest = v@.skip(pos as int);
        let at = find_one_of(&v, pos, n, &newline);
        assert(v@.subrange(pos as int, n as int) =~= rest);
        let end = if at < n && at > pos && v[at - 1] == '\r' {
            at - 1
        } else {
            at
        };
        let text = string_of(&v, pos, end);
        let next = if at < n {
            at + 1
        } else {
            n
        };
        proof {
            let found = at - pos;
            assert(rest.take(found) =~= v@.subrange(pos as int, at as int));
            if at < n {
                assert(text@ =~= without_cr(rest.take(found)));
                assert(rest.skip(found + 1) =~= v@.skip(next as int));
                assert(done + (seq![text@] + lines_spec(v@.skip(next as int))) =~= done.push(text@)
                    + lines_spec(v@.skip(next as int)));
            } else {
                assert(text@ =~= rest);
                assert(v@.skip(next as int).len() == 0);
                assert(done + seq![text@] =~= done.push(text@) + lines_spec(v@.skip(next as int)));
            }
            lemma_parse_lines_push(done, text@);
        }
        match parse_line(line, text.as_str(), &explanations) {
            Some(ParseResult::Word(word)) => {
                proof {
                    assert(word_views(words@.push(word)) =~= word_views(words@).push(word@));
                }
                words.push(word);
            },
            Some(ParseResult::Explanation(tag, body)) => {
                explanations.insert(tag, body);
            },
            Some(ParseResult::Error(error)) => {
                proof {
                    assert(error_views(errors@.push(error))
                        =~= error_views(errors@).push(error@));
                }
                errors.push(error);
            },
            None => {},
        }
        proof {
            done = done.push(text@);
        }
        pos = next;
        line += 1;
    }
    proof {
        assert(v@.skip(n as int).len() == 0);
        assert(done + lines_spec(v@.skip(n as int)) =~= done);
    }
    (words, errors)
}

} // verus!
