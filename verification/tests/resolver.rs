use emojifinder::emoji::Emoji;
use emojifinder::locale::{distinct, find, resolve, resolve_at, DEFAULT_LOCALE};

fn names(entries: &[(&str, &str)]) -> Vec<(String, String)> {
    entries.iter().map(|(code, name)| (code.to_string(), name.to_string())).collect()
}

#[test]
fn default_locale_is_english() {
    assert_eq!(DEFAULT_LOCALE, "en");
}

#[test]
fn exact_code_is_found_first() {
    let map = names(&[("en", "grinning"), ("en_GB", "grinning, old chap"), ("fr", "sourire")]);
    assert_eq!(resolve(&map, "en_GB").map(String::as_str), Some("grinning, old chap"));
    assert_eq!(resolve(&map, "fr").map(String::as_str), Some("sourire"));
    assert_eq!(resolve_at(&map, "en_GB"), Some(1));
}

#[test]
fn regional_variant_falls_back_to_its_language() {
    let map = names(&[("en", "grinning")]);
    assert_eq!(resolve(&map, "en_GB").map(String::as_str), Some("grinning"));
    let map = names(&[("en", "grinning"), ("fr", "sourire")]);
    assert_eq!(resolve(&map, "fr_CA").map(String::as_str), Some("sourire"));
}

#[test]
fn unknown_locale_falls_back_to_default() {
    let map = names(&[("fr", "sourire"), ("en", "grinning")]);
    assert_eq!(resolve(&map, "de").map(String::as_str), Some("grinning"));
    assert_eq!(resolve(&map, "de_AT").map(String::as_str), Some("grinning"));
    assert_eq!(resolve(&map, "").map(String::as_str), Some("grinning"));
}

#[test]
fn nothing_serves_without_default() {
    let map = names(&[("fr", "sourire")]);
    assert_eq!(resolve(&map, "de"), None);
    assert_eq!(resolve_at(&map, "de"), None);
    let empty: Vec<(String, String)> = Vec::new();
    assert_eq!(resolve(&empty, "en"), None);
}

#[test]
fn short_codes_are_not_cut() {
    // Three characters are a whole code, not a variant of its first two.
    let map = names(&[("fi", "hymy")]);
    assert_eq!(resolve(&map, "fil"), None);
    assert_eq!(resolve(&map, "fi_").map(String::as_str), None);
    assert_eq!(resolve(&map, "fi_F").map(String::as_str), Some("hymy"));
}

#[test]
fn length_counts_characters_not_bytes() {
    // Two characters of two bytes each: four bytes, but no regional variant.
    let map = names(&[("\u{e9}\u{e8}", "x")]);
    assert_eq!(resolve(&map, "\u{e9}\u{e8}\u{ea}"), None);
    assert_eq!(resolve(&map, "\u{e9}\u{e8}\u{ea}\u{eb}").map(String::as_str), Some("x"));
}

#[test]
fn first_entry_of_a_code_counts() {
    let map = names(&[("en", "first"), ("en", "second")]);
    assert_eq!(find(&map, "en"), Some(0));
    assert_eq!(resolve(&map, "en").map(String::as_str), Some("first"));
    assert!(!distinct(&map));
    assert!(distinct(&names(&[("en", "a"), ("fr", "a")])));
}

#[test]
fn resolving_twice_gives_the_same() {
    let map = names(&[("en", "grinning"), ("fr", "sourire")]);
    assert_eq!(resolve(&map, "fr_CA"), resolve(&map, "fr_CA"));
    assert_eq!(resolve(&map, "xx"), resolve(&map, "xx"));
}

#[test]
fn name_of_a_record_has_a_placeholder() {
    let mut emoji = Emoji::new("\u{1f600}".to_string(), String::new()).unwrap();
    assert_eq!(emoji.name("en"), "Unknown");
    emoji.set_name("fr", "sourire".to_string());
    assert_eq!(emoji.name("de"), "Unknown");
    assert_eq!(emoji.name("fr_CA"), "sourire");
    emoji.set_name("en", "grinning".to_string());
    assert_eq!(emoji.name("en_GB"), "grinning");
    assert_eq!(emoji.name("de"), "grinning");
}
