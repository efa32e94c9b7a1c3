use fuzzy_item::text::{chars_of, fold_char, fold_chars, to_lower};

#[test]
fn chars_of_lists_the_characters() {
    assert_eq!(chars_of(""), Vec::<char>::new());
    assert_eq!(chars_of("aé€😀"), vec!['a', 'é', '€', '😀']);
}

#[test]
fn fold_char_prefers_the_head_of_the_mapping() {
    assert_eq!(fold_char(&vec!['a'], 'A'), 'a');
    assert_eq!(fold_char(&vec!['i', '\u{307}'], '\u{130}'), 'i');
    assert_eq!(fold_char(&vec!['x'], 'x'), 'x');
    assert_eq!(fold_char(&vec![], 'Q'), 'Q');
}

#[test]
fn to_lower_folds_one_character() {
    assert_eq!(to_lower('A'), 'a');
    assert_eq!(to_lower('Z'), 'z');
    assert_eq!(to_lower('a'), 'a');
    assert_eq!(to_lower('5'), '5');
    assert_eq!(to_lower('Ä'), 'ä');
    assert_eq!(to_lower('Σ'), 'σ');
    assert_eq!(to_lower('\u{130}'), 'i');
    assert_eq!(to_lower('😀'), '😀');
}

#[test]
fn fold_chars_folds_every_character_in_place() {
    assert_eq!(fold_chars(&vec![]), Vec::<char>::new());
    assert_eq!(
        fold_chars(&vec!['H', 'e', 'L', 'L', 'o', ' ', 'Ö', '\u{130}', '!']),
        vec!['h', 'e', 'l', 'l', 'o', ' ', 'ö', 'i', '!']
    );
}
