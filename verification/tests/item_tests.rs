use fuzzy_item::item::Item;

#[test]
fn plain_line_is_kept() {
    let item = Item::new(String::from("Hello World"), false);
    assert_eq!(item.get_text(), "Hello World");
    assert_eq!(item.get_lower_chars().len(), 11);
    assert!(item.get_ansi_states().is_empty());
}

#[test]
fn empty_line_gives_empty_item() {
    for use_ansi in [false, true] {
        let item = Item::new(String::new(), use_ansi);
        assert_eq!(item.get_text(), "");
        assert!(item.get_lower_chars().is_empty());
        assert!(item.get_ansi_states().is_empty());
    }
}

#[test]
fn lower_chars_are_folded() {
    let item = Item::new(String::from("AbC dEF-9"), false);
    assert_eq!(
        item.get_lower_chars(),
        &['a', 'b', 'c', ' ', 'd', 'e', 'f', '-', '9'][..]
    );
}

#[test]
fn lower_chars_count_characters_not_bytes() {
    let item = Item::new(String::from("ÄÖ€😀"), false);
    assert_eq!(item.get_text().len(), 11);
    assert_eq!(item.get_lower_chars(), &['ä', 'ö', '€', '😀'][..]);
}

#[test]
fn lower_chars_keep_positions_when_a_mapping_has_two_scalars() {
    // U+0130 lowers to 'i' followed by a combining dot; only the first stays.
    let item = Item::new(String::from("\u{130}x"), false);
    assert_eq!(item.get_text().chars().count(), 2);
    assert_eq!(item.get_lower_chars(), &['i', 'x'][..]);
}

#[test]
fn lower_chars_fold_each_character_on_its_own() {
    // A capital sigma at the end of a word folds like any other.
    let item = Item::new(String::from("ΑΣ"), false);
    assert_eq!(item.get_lower_chars(), &['α', 'σ'][..]);
}

#[test]
fn lower_chars_match_the_text_position_by_position() {
    let text = "Grüße, WORLD! Ünïcödé ÀÉÎ";
    for use_ansi in [false, true] {
        let item = Item::new(String::from(text), use_ansi);
        let chars: Vec<char> = item.get_text().chars().collect();
        let lower = item.get_lower_chars();
        assert_eq!(lower.len(), chars.len());
        for (i, c) in chars.iter().enumerate() {
            assert_eq!(lower[i], c.to_lowercase().next().unwrap());
        }
    }
}

#[test]
fn clean_line_is_the_same_with_and_without_parsing() {
    for text in ["", "plain", "src/main.rs:12: fn main()", "ÄÖ€😀 [1;31m not a sequence"] {
        let parsed = Item::new(String::from(text), true);
        let kept = Item::new(String::from(text), false);
        assert_eq!(parsed.get_text(), text);
        assert_eq!(parsed.get_text(), kept.get_text());
        assert_eq!(parsed.get_lower_chars(), kept.get_lower_chars());
        assert!(parsed.get_ansi_states().is_empty());
        assert!(kept.get_ansi_states().is_empty());
    }
}

#[test]
fn unparsed_line_keeps_its_escape_sequences() {
    let raw = "ab\u{1b}[1;31mcd\u{1b}[0m";
    let item = Item::new(String::from(raw), false);
    assert_eq!(item.get_text(), raw);
    assert!(item.get_ansi_states().is_empty());
    assert_eq!(item.get_lower_chars().len(), raw.chars().count());
}

#[test]
fn style_sequence_is_stripped() {
    let item = Item::new(String::from("ab\u{1b}[1;31mcd\u{1b}[0m"), true);
    assert_eq!(item.get_text(), "abcd");
    assert_eq!(item.get_lower_chars(), &['a', 'b', 'c', 'd'][..]);
    assert_eq!(item.get_ansi_states(), &vec![(2usize, 1u32), (2, 31), (4, 0)]);
}

#[test]
fn parsed_line_is_folded_after_stripping() {
    let item = Item::new(String::from("\u{1b}[32mPATH\u{1b}[m/To"), true);
    assert_eq!(item.get_text(), "PATH/To");
    assert_eq!(item.get_lower_chars(), &['p', 'a', 't', 'h', '/', 't', 'o'][..]);
    assert_eq!(item.get_ansi_states(), &vec![(0usize, 32u32), (4, 0)]);
}

#[test]
fn offsets_count_bytes_of_the_plain_text() {
    let item = Item::new(String::from("é€\u{1b}[4mx😀\u{1b}[0m"), true);
    assert_eq!(item.get_text(), "é€x😀");
    assert_eq!(item.get_ansi_states(), &vec![(5usize, 4u32), (10, 0)]);
}

#[test]
fn offsets_never_decrease_and_stay_within_the_text() {
    let lines = [
        "\u{1b}[1mbold\u{1b}[0m and \u{1b}[38;5;196mred\u{1b}[m",
        "\u{1b}\u{1b}[\u{1b}[0;1;;m\u{1b}[",
        "a\u{1b}[31mä\u{1b}[32m€\u{1b}[33m😀\u{1b}[0m",
        "\u{1b}[m\u{1b}[m\u{1b}[m",
    ];
    for line in lines {
        let item = Item::new(String::from(line), true);
        let len = item.get_text().len();
        let states = item.get_ansi_states();
        assert!(!states.is_empty());
        let mut last = 0;
        for &(offset, _) in states.iter() {
            assert!(offset >= last);
            assert!(offset <= len);
            assert!(item.get_text().is_char_boundary(offset));
            last = offset;
        }
    }
}

#[test]
fn parsed_text_holds_no_escape_character() {
    let lines = [
        "\u{1b}",
        "a\u{1b}b",
        "\u{1b}[31",
        "\u{1b}[\u{1b}[0m0m",
        "x\u{1b}[1my\u{1b}]0;title\u{7}z",
    ];
    for line in lines {
        let item = Item::new(String::from(line), true);
        assert!(!item.get_text().contains('\u{1b}'));
    }
}
