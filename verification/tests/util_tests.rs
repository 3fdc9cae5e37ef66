use emphasis_trainer::util::{
    first_uppercase_position, get_vowel_positions, subslice_tags, trimmed, uppercase_letter,
};

#[test]
fn test_subslice_tags() {
    let data = subslice_tags("Hello, <world>", &['<'], &['>']);
    assert_eq!(data, Some(String::from("world")));
}

#[test]
fn subslice_tags_edges() {
    assert_eq!(subslice_tags("Hello, <world>", &[], &['<']), Some(String::from("Hello, ")));
    assert_eq!(subslice_tags("Hello, <world>", &['<'], &[]), Some(String::from("world>")));
    assert_eq!(subslice_tags("Hello, <world>", &['!'], &['>']), None);
    assert_eq!(subslice_tags("<>", &['<'], &['>']), None);
    assert_eq!(subslice_tags("a<", &['<'], &['>']), None);
    assert_eq!(subslice_tags("", &[], &[]), None);
    assert_eq!(subslice_tags("a:b!c>d", &[':', '!'], &['>', '<']), Some(String::from("b!c")));
    assert_eq!(subslice_tags("abc", &[], &[]), Some(String::from("abc")));
}

#[test]
fn uppercase_letter_at_position() {
    assert_eq!(uppercase_letter("слово", 2), "слОво");
    assert_eq!(uppercase_letter("слово", 0), "Слово");
    assert_eq!(uppercase_letter("слово", 4), "словО");
    assert_eq!(uppercase_letter("слово", 5), "слово");
    assert_eq!(uppercase_letter("", 0), "");
    // One character may become several.
    assert_eq!(uppercase_letter("maß", 2), "maSS");
}

#[test]
fn vowel_positions() {
    assert_eq!(get_vowel_positions("слово"), vec![2, 4]);
    assert_eq!(get_vowel_positions("СЛОВО"), vec![2, 4]);
    assert_eq!(get_vowel_positions("аэропорты"), vec![0, 1, 3, 5, 8]);
    assert_eq!(get_vowel_positions("ёж юла яд"), vec![0, 3, 5, 7]);
    assert_eq!(get_vowel_positions("крч"), Vec::<usize>::new());
    assert_eq!(get_vowel_positions("word"), Vec::<usize>::new());
}

#[test]
fn first_uppercase() {
    assert_eq!(first_uppercase_position("слОво"), Some(2));
    assert_eq!(first_uppercase_position("СлОво"), Some(0));
    assert_eq!(first_uppercase_position("слово"), None);
    assert_eq!(first_uppercase_position(""), None);
    assert_eq!(first_uppercase_position("словО"), Some(4));
}

#[test]
fn trimmed_drops_whitespace_around() {
    assert_eq!(trimmed("  a b\t\r\n"), "a b");
    assert_eq!(trimmed("\u{a0}а\u{3000}"), "а");
    assert_eq!(trimmed("   "), "");
    assert_eq!(trimmed(""), "");
    assert_eq!(trimmed("a"), "a");
}
