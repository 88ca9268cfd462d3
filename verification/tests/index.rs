use emojifinder::emoji::Emoji;
use emojifinder::index::Index;
use emojifinder::text::distinct_texts;

fn emoji(value: &str, names: &[(&str, &str)]) -> Emoji {
    let mut emoji = Emoji::new(value.to_string(), String::new()).unwrap();
    for (code, name) in names {
        emoji.set_name(code, name.to_string());
    }
    emoji
}

fn codes(list: &[&str]) -> Vec<String> {
    list.iter().map(|c| c.to_string()).collect()
}

#[test]
fn items_show_character_and_name() {
    let index = Index::new(
        vec![
            emoji("\u{1f600}", &[("en", "grinning face"), ("fr", "visage rieur")]),
            emoji("\u{1f431}", &[("fr", "chat")]),
            emoji("\"", &[("en", "quote")]),
        ],
        codes(&["en", "fr"]),
    );
    assert_eq!(
        index.items("en"),
        vec!["\"\u{1f600}\": grinning face", "\"\u{1f431}\": Unknown", "\"\\\"\": quote"]
    );
    assert_eq!(
        index.items("fr_CA"),
        vec!["\"\u{1f600}\": visage rieur", "\"\u{1f431}\": chat", "\"\\\"\": quote"]
    );
    assert!(Index::new(Vec::new(), Vec::new()).items("en").is_empty());
}

#[test]
fn items_follow_the_order_of_the_last_search() {
    let mut index = Index::new(
        vec![emoji("a", &[("en", "dog")]), emoji("b", &[("en", "cat")])],
        codes(&["en"]),
    );
    index.search("en", "cat");
    assert_eq!(index.items("en"), vec!["\"b\": cat", "\"a\": dog"]);
}

#[test]
fn language_is_the_first_wanted_that_is_known() {
    let index = Index::new(Vec::new(), codes(&["en", "fr", "de_CH", "ja"]));
    assert_eq!(index.find_language(&codes(&["de_CH", "fr"])), "de_CH");
    assert_eq!(index.find_language(&codes(&["it", "pt_BR", "ja", "fr"])), "ja");
    assert_eq!(index.find_language(&codes(&["fr"])), "fr");
}

#[test]
fn language_falls_back_to_default() {
    let index = Index::new(Vec::new(), codes(&["fr", "ja"]));
    assert_eq!(index.find_language(&codes(&["it", "de"])), "en");
    assert_eq!(index.find_language(&Vec::new()), "en");
    assert_eq!(Index::new(Vec::new(), Vec::new()).find_language(&codes(&["fr"])), "en");
}

#[test]
fn known_locales() {
    let index = Index::new(Vec::new(), codes(&["en", "fr"]));
    assert!(index.has_locale("fr"));
    assert!(!index.has_locale("f"));
    assert!(!index.has_locale("fr_CA"));
    assert!(!index.has_locale(""));
}

#[test]
fn no_record_without_a_character() {
    assert!(Emoji::new(String::new(), "<svg/>".to_string()).is_none());
    let made = Emoji::new("x".to_string(), "<svg/>".to_string()).unwrap();
    assert_eq!(made.value, "x");
    assert_eq!(made.svg, "<svg/>");
    assert!(made.name.is_empty());
    assert!(made.keywords.is_empty());
    assert_eq!(made.rank, 0);
    assert!(made.is_valid());
}

#[test]
fn setting_a_name_replaces_the_old_one() {
    let mut e = emoji("x", &[("en", "one"), ("fr", "un")]);
    e.set_name("en", "two".to_string());
    assert_eq!(
        e.name,
        vec![("en".to_string(), "two".to_string()), ("fr".to_string(), "un".to_string())]
    );
    e.set_name("de", "zwei".to_string());
    assert_eq!(e.name.len(), 3);
    assert_eq!(e.name[2], ("de".to_string(), "zwei".to_string()));
    assert!(e.is_valid());
}

#[test]
fn setting_keywords_replaces_the_old_ones() {
    let mut e = emoji("x", &[]);
    e.set_keywords("en", codes(&["a", "b"]));
    e.set_keywords("fr", codes(&["c"]));
    e.set_keywords("en", codes(&["d"]));
    assert_eq!(e.keywords, vec![("en".to_string(), codes(&["d"])), ("fr".to_string(), codes(&["c"]))]);
    assert!(e.is_valid());
}

#[test]
fn glyph_source_is_kept_as_it_came() {
    let svg = "<svg xmlns=\"http://www.w3.org/2000/svg\">\n\t<path d=\"M0 0\u{2026}\"/>\n</svg>\n";
    let e = Emoji::new("x".to_string(), svg.to_string()).unwrap();
    let index = Index::new(vec![e], Vec::new());
    let back = Index::from_bytes(&index.to_bytes().unwrap()).unwrap();
    assert_eq!(back.emojis[0].svg, svg);
    assert_eq!(back.emojis[0].value, "x");
}

#[test]
fn texts_that_stand_twice() {
    assert!(distinct_texts(&codes(&[])));
    assert!(distinct_texts(&codes(&["en"])));
    assert!(distinct_texts(&codes(&["en", "en_GB", "EN", ""])));
    assert!(!distinct_texts(&codes(&["en", "fr", "en"])));
    assert!(!distinct_texts(&codes(&["", ""])));
}

#[test]
fn search_keeps_an_index_valid() {
    let mut index = Index::new(
        vec![emoji("a", &[("en", "dog")]), emoji("b", &[("en", "cat")])],
        codes(&["en"]),
    );
    assert!(index.is_valid());
    index.search("en", "cat");
    assert!(index.is_valid());
}
