use emphasis_trainer::model::parse::{
    parse, parse_line, parse_word, should_parse, Explanation, ExplanationParseError, Explanations,
    ParseError, ParseResult, WordParseError,
};
use emphasis_trainer::model::Word;

#[test]
fn test_detail() {
    let data = "
        отзЫв (посла)
        Отзыв (о книге)
        ";
    let correct = (
        vec![
            Word::new("отзыв", 3).with_detail("(посла)"),
            Word::new("отзыв", 0).with_detail("(о книге)"),
        ],
        Vec::new(),
    );
    assert_eq!(parse(data), correct);
}

#[test]
fn test_group() {
    let data = "
        водопровОд : ПРОВОД
        газопровОд : ПРОВОД
        нефтепровОд : ПРОВОД
        ";
    let correct = (
        vec![
            Word::new("водопровод", 8).with_group("ПРОВОД", false),
            Word::new("газопровод", 8).with_group("ПРОВОД", false),
            Word::new("нефтепровод", 9).with_group("ПРОВОД", false),
        ],
        Vec::new(),
    );
    assert_eq!(parse(data), correct);
}

#[test]
fn test_explanation() {
    let data = "
        > ПРОВЕРКА: Просто проверка работоспособности.
        слОво > ПРОВЕРКА
        ";
    let correct = (
        vec![Word::new("слово", 2).with_explanation("Просто проверка работоспособности.")],
        Vec::new(),
    );
    assert_eq!(parse(data), correct);
}

#[test]
fn explanation_defined_later_is_not_found() {
    let data = "слОво > ПРОВЕРКА\n> ПРОВЕРКА: Просто проверка работоспособности.";
    let (words, errors) = parse(data);
    assert!(words.is_empty());
    assert_eq!(
        errors,
        vec![ParseError::new_word(
            0,
            WordParseError::ExplanationNotDefined {
                tag: String::from("проверка"),
                word: String::from("слово"),
            },
        )]
    );
}

#[test]
fn word_without_uppercase_has_no_emphasis() {
    let (words, errors) = parse("слово\nдосУг");
    assert_eq!(words, vec![Word::new("досуг", 3)]);
    assert_eq!(
        errors,
        vec![ParseError::new_word(0, WordParseError::EmphasisNotFound(String::from("слово")))]
    );
    assert_eq!(
        errors[0].message(),
        "Line 0: Word must contain emphasis specified by uppercase letter; \
         Word `слово` has no emphasis."
    );
}

#[test]
fn more_than_one_group_is_refused() {
    let (words, errors) = parse("бАнты\nслОво : один ! два");
    assert_eq!(words, vec![Word::new("банты", 1)]);
    assert_eq!(
        errors,
        vec![ParseError::new_word(1, WordParseError::MoreThanOneGroup(String::from("слово")))]
    );
    assert_eq!(
        errors[0].message(),
        "Line 1: Word `слово` has multiple groups defined. Currently only one group allowed."
    );
}

#[test]
fn explanation_without_delimiter_is_refused() {
    let (words, errors) = parse("\n\n> ПРОВЕРКА без двоеточия\nслОво");
    assert_eq!(words, vec![Word::new("слово", 2)]);
    assert_eq!(
        errors,
        vec![ParseError::new_explanation(2, ExplanationParseError::DelimiterNotFound)]
    );
    assert_eq!(errors[0].message(), "Line 2: `:` delimiter not found.");
}

#[test]
fn undefined_explanation_message() {
    let (_, errors) = parse("слОво > Тег");
    assert_eq!(
        errors[0].message(),
        "Line 0: Explanation tag `тег` for `слово` not defined."
    );
    assert_eq!(
        WordParseError::NoExplanationTag.message(),
        "Explanation tag not found although it was expected."
    );
    assert_eq!(WordParseError::ExplanationEmpty.message(), "Explanation can't be empty.");
}

#[test]
fn blank_and_comment_lines_are_passed_over() {
    let data = "// первая строка\r\n\r\n   \r\n  // ещё\r\nдосУг\r\n//бАнты";
    let (words, errors) = parse(data);
    assert_eq!(words, vec![Word::new("досуг", 3)]);
    assert!(errors.is_empty());
    assert_eq!(parse(""), (Vec::new(), Vec::new()));
    assert_eq!(parse("\n\n"), (Vec::new(), Vec::new()));
}

#[test]
fn every_counted_line_gives_a_word_or_an_error() {
    let data = "досУг\n\nслово\n// нет\nбАнты : а : б\nтОрты (мн. ч.)\nОтзыв > нет\n";
    let (words, errors) = parse(data);
    assert_eq!(words.len(), 2);
    assert_eq!(errors.len(), 3);
    assert_eq!(words.len() + errors.len(), 5);
    // A line that defines an explanation gives neither.
    let (words, errors) = parse("> тег: текст\nдосУг > ТЕГ");
    assert_eq!(words, vec![Word::new("досуг", 3).with_explanation("текст")]);
    assert!(errors.is_empty());
}

#[test]
fn rest_of_a_word_line() {
    let data = "
        > тег: Первое.
        > ТЕГ : Второе.
        бОроду (вин. п.) !  Борода  > тег
        тОрты < Всегда на первом слоге.
        грАжданство : Гражданин < на корне >
        слОво\t(часть речи):п
    ";
    let (words, errors) = parse(data);
    assert!(errors.is_empty());
    assert_eq!(
        words,
        vec![
            Word::new("бороду", 1)
                .with_detail("(вин. п.)")
                .with_group("борода", true)
                .with_explanation("Второе."),
            Word::new("торты", 1).with_explanation("Всегда на первом слоге."),
            Word::new("гражданство", 2)
                .with_group("Гражданин", false)
                .with_explanation("на корне >"),
            Word::new("слово", 2).with_detail("(часть речи)").with_group("П", false),
        ]
    );
}

#[test]
fn single_lines_and_explanations() {
    let mut explanations = Explanations::new();
    explanations.insert(String::from("тег"), String::from(" текст "));
    assert_eq!(explanations.get("тег"), Some(&String::from(" текст ")));
    assert_eq!(explanations.get("нет"), None);
    assert_eq!(
        parse_word("слОво > ТЕГ", &explanations),
        Ok(Word::new("слово", 2).with_explanation("текст"))
    );
    assert_eq!(
        parse_word("слОво > нет", &explanations),
        Err(WordParseError::ExplanationNotDefined {
            tag: String::from("нет"),
            word: String::from("слово"),
        })
    );
    assert!(parse_line(3, "  // слОво", &explanations).is_none());
    assert!(parse_line(3, "   ", &explanations).is_none());
    match parse_line(3, " > Имя : Текст ", &explanations) {
        Some(ParseResult::Explanation(tag, text)) => {
            assert_eq!(tag, "имя");
            assert_eq!(text, "Текст");
        }
        other => panic!("{:?}", other),
    }
    match parse_line(4, "слово", &explanations) {
        Some(ParseResult::Error(error)) => assert_eq!(
            error,
            ParseError::new_word(4, WordParseError::EmphasisNotFound(String::from("слово")))
        ),
        other => panic!("{:?}", other),
    }
    assert!(should_parse("слово"));
    assert!(should_parse("/"));
    assert!(!should_parse(""));
    assert!(!should_parse("//"));
    assert_eq!(
        Explanation::from_str("a:b:c"),
        Ok(Explanation { tag: String::from("a"), text: String::from("b:c") })
    );
    assert_eq!(Explanation::from_str("abc"), Err(ExplanationParseError::DelimiterNotFound));
}
