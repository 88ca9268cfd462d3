use emojifinder::text::{
    begins_with, chars_of, drop_last_char, is_white_space, push_decimal, same_text, split_words,
};

#[test]
fn words_are_cut_at_white_space() {
    assert_eq!(split_words("grinning face"), vec!["grinning", "face"]);
    assert_eq!(split_words("  a\tb\n\nc  "), vec!["a", "b", "c"]);
    assert_eq!(split_words("one"), vec!["one"]);
    assert!(split_words("").is_empty());
    assert!(split_words(" \t\r\n").is_empty());
    assert_eq!(split_words("\u{7b11}\u{3000}\u{9854}"), vec!["\u{7b11}", "\u{9854}"]);
    assert_eq!(split_words("a\u{a0}b\u{2003}c\u{85}d"), vec!["a", "b", "c", "d"]);
    assert_eq!(split_words("zero\u{200b}width"), vec!["zero\u{200b}width"]);
}

#[test]
fn words_are_cut_as_the_standard_library_cuts() {
    let texts = [
        "",
        " ",
        "a",
        " a",
        "a ",
        "a b",
        "\u{1f600} \u{1f431}",
        "x\u{1680}y\u{2028}z\u{2029}w\u{202f}v\u{205f}u",
        "\u{b}\u{c}\u{1c}\u{1f}",
        "tab\tnew\nline",
    ];
    for text in texts {
        let expected: Vec<String> = text.split_whitespace().map(|s| s.to_string()).collect();
        assert_eq!(split_words(text), expected, "{:?}", text);
    }
}

#[test]
fn white_space_is_what_the_standard_library_says() {
    for n in 0..0x11_0000u32 {
        if let Some(c) = char::from_u32(n) {
            assert_eq!(is_white_space(c), c.is_whitespace(), "{:x}", n);
        }
    }
}

#[test]
fn texts_are_compared_by_character() {
    assert!(same_text("", ""));
    assert!(same_text("caf\u{e9}", "caf\u{e9}"));
    assert!(!same_text("caf\u{e9}", "cafe\u{301}"));
    assert!(!same_text("cat", "cats"));
    assert!(!same_text("cat", "Cat"));
    assert!(!same_text("a", ""));
}

#[test]
fn beginnings() {
    assert!(begins_with("category", "cat"));
    assert!(begins_with("cat", "cat"));
    assert!(begins_with("cat", ""));
    assert!(begins_with("", ""));
    assert!(!begins_with("cat", "cats"));
    assert!(!begins_with("", "c"));
    assert!(!begins_with("scatter", "cat"));
    assert!(begins_with("\u{e9}t\u{e9}", "\u{e9}"));
    assert!(!begins_with("\u{e9}t\u{e9}", "\u{e8}"));
    assert!(!begins_with("\u{1f600}", "\u{1f601}"));
}

#[test]
fn characters_of_a_text() {
    assert_eq!(chars_of("a\u{e9}\u{1f600}"), vec!['a', '\u{e9}', '\u{1f600}']);
    assert!(chars_of("").is_empty());
}

#[test]
fn last_character_is_taken_off() {
    let mut text = "a\u{1f600}".to_string();
    drop_last_char(&mut text);
    assert_eq!(text, "a");
    drop_last_char(&mut text);
    assert_eq!(text, "");
    drop_last_char(&mut text);
    assert_eq!(text, "");
}

#[test]
fn numbers_in_decimal() {
    for n in [0u64, 1, 9, 10, 11, 99, 100, 101, 65535, 1_000_000, u64::MAX] {
        let mut text = "n=".to_string();
        push_decimal(&mut text, n);
        assert_eq!(text, format!("n={}", n));
    }
}
