use emphasis_trainer::model::parse::parse;
use emphasis_trainer::model::statistics::Timestamp;
use emphasis_trainer::model::{Catalog, Model, Variant, Word, WordHash};

const DATA: &str = "
// Имена существительные
> ПРОВОД: В словах с корнем -провод- в значении «трубопровод» ударение падает на последний слог.
> МН: Во множественном числе ударение остаётся на том же слоге, что и в единственном.
водопровОд : ПРОВОД > провод
газопровОд : ПРОВОД > провод
мусоропровОд : ПРОВОД > провод
нефтепровОд : ПРОВОД > провод
электропрОвод ! ПРОВОД < Провод — не трубопровод, ударение на корне.
аэропОрты : МН > мн
бАнты : МН > мн
бухгАлтеров : МН > мн
шАрфы : МН > мн
тОрты : МН > мн
бОроду (вин. п.)
вероисповЕдание
граждАнство
дефИс
диспансЕр
договорЁнность
докумЕнт
досУг
жалюзИ
знАчимость
каталОг
квартАл
киломЕтр
корЫсть
крАны
лЕкторы
локтЯ (род. п.)
мЕстностей (род. п. мн. ч.)
намЕрение
нарОст
нЕдруг
недУг
некролОг
нЕнависть
нОвости
новостЕй
нОгтя (род. п.)
Отрочество
партЕр
портфЕль
пОручни
придАное
призЫв
свЁкла
сирОты
срЕдства
созЫв
столЯр
тамОжня
цемЕнт
цЕнтнер
цепОчка
щавЕль
экспЕрт
// Глаголы
> ЖЕН: В глаголах прошедшего времени женского рода ударение обычно падает на окончание.
бралА : ЖЕН > жен
бралАсь : ЖЕН > жен
взялА : ЖЕН > жен
взялАсь : ЖЕН > жен
влилАсь : ЖЕН > жен
ворвалАсь : ЖЕН > жен
воспринялА : ЖЕН > жен
гналА : ЖЕН > жен
добралАсь : ЖЕН > жен
ждалА : ЖЕН > жен
жилОсь
занялА : ЖЕН > жен
заперлА : ЖЕН > жен
клАла ! ЖЕН < Исключение, ударение на основе.
крАлась ! ЖЕН < Исключение, ударение на основе.
послАла ! ЖЕН < Исключение, ударение на основе.
звонИт
включИт
облегчИть
окружИт
опОшлить
освЕдомиться
отбылА : ЖЕН > жен
откУпорил
позвонИт
углубИть
чЕрпать
щемИт
щЁлкать
// Прилагательные и наречия
вернА (кратк. ж. р.)
знАчимый
красИвее
красИвейший
кУхонный
ловкА (кратк. ж. р.)
мозаИчный
оптОвый
прозорлИва (кратк. ж. р.)
слИвовый
вОвремя
дОверху
донЕльзя
дОнизу
дОсуха
зАсветло
зАтемно
красИвее (нареч.)
надОлго
ненадОлго
";

#[test]
fn test_all_data_loaded_correctly() {
    let (_, errors) = Model::new(DATA);
    assert!(errors.is_empty());
}

/// Test that word isn't shown twice in a row.
#[test]
fn test_words_dont_repeat() {
    let (mut model, _) = Model::new(DATA);
    let mut last = None;
    for _ in 0..5000 {
        let word = model.next();
        assert_ne!(Some(word.clone()), last);
        last = Some(word);
    }
}

#[test]
fn model_holds_every_word_once() {
    let (model, errors) = Model::new(DATA);
    assert!(errors.is_empty());
    // One word stands twice in the data, once with a detail.
    assert_eq!(model.len(), 102);
    assert_eq!(model.stats.len(), 102);
    assert_eq!(model.latest(), None);
    assert_eq!(model.catalog().len(), 102);
}

#[test]
fn next_with_skips_the_word_asked_last() {
    let (mut model, _) = Model::new("бАнты\nтОрты\nдосУг");
    let now = Timestamp { secs: 10, nanos: 0 };
    // Nothing was asked yet: three candidates, in the catalog's order.
    let first = model.next_with(1, now);
    assert_eq!(first, Word::new("торты", 1));
    assert_eq!(model.latest(), Some(first.hash()));
    // Two candidates are left: the first and the third word.
    assert_eq!(model.next_with(1, now), Word::new("досуг", 3));
    assert_eq!(model.next_with(0, now), Word::new("банты", 1));
    assert_eq!(model.next_with(0, now), Word::new("торты", 1));
    let record = model.stats.get(first.hash()).unwrap();
    assert_eq!(record.last_occured(), Some(now));
    assert_eq!(record.group().level(), 0);
}

#[test]
fn single_word_is_always_returned() {
    let (mut model, _) = Model::new("досУг");
    for _ in 0..10 {
        assert_eq!(model.next(), Word::new("досуг", 3));
    }
}

#[test]
fn group_symmetry() {
    let (words, errors) =
        parse("водопровОд : ПРОВОД\nгазопровОд : ПРОВОД\nнефтепровОд : ПРОВОД");
    assert!(errors.is_empty());
    assert_eq!(words.len(), 3);
    assert_eq!(words[0].group(), words[1].group());
    assert_eq!(words[1].group(), words[2].group());
    assert_eq!(words[0].group().map(|g| g.0), Some(false));
    let catalog = Catalog::from_words(words.clone());
    assert_eq!(catalog.seealso(&words[0]), vec![words[1].clone(), words[2].clone()]);
    assert_eq!(catalog.seealso(&words[1]), vec![words[0].clone(), words[2].clone()]);
    assert_eq!(catalog.seealso(&words[2]), vec![words[0].clone(), words[1].clone()]);
    for word in &words {
        assert!(catalog.opposite(word).is_empty());
    }
}

#[test]
fn opposite_finds_the_other_side() {
    let (model, errors) = Model::new(DATA);
    assert!(errors.is_empty());
    let rule = Word::new("водопровод", 8).with_group("провод", false).with_explanation(
        "В словах с корнем -провод- в значении «трубопровод» ударение падает на последний слог.",
    );
    let exception = Word::new("электропровод", 9)
        .with_group("провод", true)
        .with_explanation("Провод — не трубопровод, ударение на корне.");
    assert_eq!(model.opposite(&rule), vec![exception.clone()]);
    assert_eq!(model.seealso(&rule).len(), 3);
    assert_eq!(model.opposite(&exception).len(), 4);
    assert!(model.seealso(&exception).is_empty());
    let plain = Word::new("досуг", 3);
    assert!(model.seealso(&plain).is_empty());
    assert!(model.opposite(&plain).is_empty());
}

#[test]
fn later_word_takes_the_place_of_one_with_its_text() {
    let (words, _) = parse("отзЫв (посла)\nдосУг\nОтзыв (о книге)");
    let catalog = Catalog::from_words(words);
    assert_eq!(catalog.len(), 2);
    assert_eq!(
        catalog.get_index(0),
        Some(&Word::new("отзыв", 0).with_detail("(о книге)"))
    );
    assert_eq!(catalog.get_index(1), Some(&Word::new("досуг", 3)));
    assert_eq!(catalog.get_index(2), None);
    assert_eq!(catalog.index_of(WordHash::new("досуг")), Some(1));
    assert_eq!(catalog.index_of(WordHash::new("нет")), None);
    assert_eq!(catalog.get(WordHash::new("досуг")), Some(&Word::new("досуг", 3)));
}

#[test]
fn variants_are_the_vowel_positions() {
    let word = Word::new("слово", 2);
    let variants = word.variants();
    assert_eq!(
        variants,
        vec![
            Variant { emphasis: 2, word: String::from("слово"), detail: None },
            Variant { emphasis: 4, word: String::from("слово"), detail: None },
        ]
    );
    let word = Word::new("отзыв", 3).with_detail(" (посла) ");
    let variants = word.variants();
    assert_eq!(variants.len(), 2);
    assert_eq!(variants[0].emphasis, 0);
    assert_eq!(variants[1].emphasis, 3);
    for variant in &variants {
        assert_eq!(variant.word, "отзыв");
        assert_eq!(variant.detail, Some(String::from("(посла)")));
    }
}

#[test]
fn word_is_lowercased_and_hashed() {
    let word = Word::new("СлОво", 2);
    assert_eq!(word.inner(), "слово");
    assert_eq!(word.emphasis(), 2);
    assert_eq!(word.hash().value(), fxhash::hash64("слово"));
    assert_eq!(word.hash(), WordHash::new("слово"));
    assert_eq!(WordHash::from(&word), word.hash());
    assert_eq!(WordHash::from_value(7).value(), 7);
    let grouped = word.with_group("ПРОВОД", true);
    assert_eq!(grouped.group(), Some((true, fxhash::hash64("провод"))));
}

#[test]
fn display_marks_the_stress() {
    assert_eq!(Word::new("слово", 2).display(), "слОво");
    assert_eq!(Word::new("отзыв", 3).with_detail("(посла)").display(), "отзЫв (посла)");
    assert_eq!(Word::new("да", 5).display(), "да");
    let variant = Variant { emphasis: 2, word: String::from("свёкла"), detail: None };
    assert_eq!(variant.display(), "свЕкла");
    let variant =
        Variant { emphasis: 5, word: String::from("свёкла"), detail: Some(String::from("(овощ)")) };
    assert_eq!(variant.display(), "свеклА (овощ)");
}

#[test]
fn answers_and_hash_digits() {
    let word = Word::new("слово", 2);
    assert!(word.is_answer(2));
    assert!(!word.is_answer(4));
    assert_eq!(WordHash::from_value(1234).display(), "1234");
    assert_eq!(word.hash().display(), fxhash::hash64("слово").to_string());
    assert_eq!(word.detail(), &None);
    assert_eq!(word.explanation(), &None);
    let word = word.with_detail(" (часть речи) ").with_explanation(" как есть ");
    assert_eq!(word.detail(), &Some(String::from("(часть речи)")));
    assert_eq!(word.explanation(), &Some(String::from(" как есть ")));
}

#[test]
fn hash_is_read_from_its_digits() {
    assert_eq!(WordHash::from_str("1234"), Ok(WordHash::from_value(1234)));
    assert_eq!(WordHash::from_str("18446744073709551615"), Ok(WordHash::from_value(u64::MAX)));
    assert!(WordHash::from_str("18446744073709551616").is_err());
    assert!(WordHash::from_str("").is_err());
    assert!(WordHash::from_str("12a").is_err());
    assert!(WordHash::from_str("-1").is_err());
    let hash = WordHash::new("слово");
    assert_eq!(WordHash::from_str(&hash.display()), Ok(hash));
}
