use emphasis_trainer::header::{clock, words_ending};
use emphasis_trainer::util::{decimal_padded_string, decimal_string};

#[test]
fn words_ending_follows_the_number() {
    assert_eq!(words_ending(0), "слов");
    assert_eq!(words_ending(1), "слово");
    assert_eq!(words_ending(2), "слова");
    assert_eq!(words_ending(4), "слова");
    assert_eq!(words_ending(5), "слов");
    assert_eq!(words_ending(11), "слов");
    assert_eq!(words_ending(14), "слов");
    assert_eq!(words_ending(19), "слов");
    assert_eq!(words_ending(20), "слов");
    assert_eq!(words_ending(21), "слово");
    assert_eq!(words_ending(22), "слова");
    assert_eq!(words_ending(25), "слов");
    assert_eq!(words_ending(101), "слово");
}

#[test]
fn clock_shows_hours_once_there_are_any() {
    assert_eq!(clock(0), "00:00");
    assert_eq!(clock(59), "00:59");
    assert_eq!(clock(60), "01:00");
    assert_eq!(clock(3599), "59:59");
    assert_eq!(clock(3600), "01:00:00");
    assert_eq!(clock(3661), "01:01:01");
    assert_eq!(clock(360_000), "100:00:00");
}

#[test]
fn decimal_digits() {
    assert_eq!(decimal_string(0), "0");
    assert_eq!(decimal_string(7), "7");
    assert_eq!(decimal_string(10), "10");
    assert_eq!(decimal_string(1234567890), "1234567890");
    assert_eq!(decimal_string(u64::MAX), u64::MAX.to_string());
    assert_eq!(decimal_padded_string(0), "00");
    assert_eq!(decimal_padded_string(9), "09");
    assert_eq!(decimal_padded_string(10), "10");
    assert_eq!(decimal_padded_string(123), "123");
}
