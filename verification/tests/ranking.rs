use emojifinder::emoji::Emoji;
use emojifinder::index::Index;
use emojifinder::rank::rank_of;
use emojifinder::score::{rank_similarity, EXACT, PREFIX, UNIT};

fn emoji(value: &str, name: &str, keywords: &[&str]) -> Emoji {
    let mut emoji = Emoji::new(value.to_string(), String::new()).unwrap();
    emoji.set_name("en", name.to_string());
    emoji.set_keywords("en", keywords.iter().map(|k| k.to_string()).collect());
    emoji
}

fn two_faces() -> Index {
    Index::new(
        vec![
            emoji("\u{1f600}", "grinning face", &["happy", "smile"]),
            emoji("\u{1f431}", "cat face", &["animal", "cat"]),
        ],
        vec!["en".to_string()],
    )
}

fn values(index: &Index) -> Vec<&str> {
    index.emojis.iter().map(|e| e.value.as_str()).collect()
}

fn ranks(index: &Index) -> Vec<u64> {
    index.emojis.iter().map(|e| e.rank).collect()
}

#[test]
fn cat_query_ranks_cat_first() {
    let mut index = two_faces();
    index.search("en", "cat");
    assert_eq!(values(&index), vec!["\u{1f431}", "\u{1f600}"]);
    let noise = rank_similarity("cat", "animal");
    assert_eq!(index.emojis[0].rank, PREFIX + noise + EXACT);
    assert!(index.emojis[0].rank >= 8 * UNIT);
    assert!(index.emojis[1].rank < UNIT);
    assert_eq!(
        index.emojis[1].rank,
        rank_similarity("cat", "grinning face")
            + rank_similarity("cat", "happy")
            + rank_similarity("cat", "smile")
    );
}

#[test]
fn rank_is_a_sum_over_words_and_fields() {
    let mut record = emoji("\u{1f431}", "cat", &["cat", "cat nap", "kitten"]);
    record.update_rank("en", "cat");
    let one = EXACT + EXACT + (EXACT + rank_similarity("cat", "nap")) + rank_similarity("cat", "kitten");
    assert_eq!(record.rank, one);
    record.update_rank("en", "cat  cat\tcat\n");
    assert_eq!(record.rank, 3 * one);
}

#[test]
fn several_matches_outrank_one_strong_match() {
    let mut index = Index::new(
        vec![
            emoji("a", "sun", &["bright"]),
            emoji("b", "sunny", &["sunshine", "sunrise", "sunset"]),
        ],
        vec!["en".to_string()],
    );
    index.search("en", "sun");
    assert_eq!(values(&index), vec!["b", "a"]);
    assert_eq!(index.emojis[0].rank, 4 * PREFIX);
    assert_eq!(index.emojis[1].rank, EXACT + rank_similarity("sun", "bright"));
}

#[test]
fn name_is_scored_whole_and_keywords_word_by_word() {
    let mut record = emoji("x", "red heart", &["red heart"]);
    record.update_rank("en", "heart");
    assert_eq!(
        record.rank,
        rank_similarity("heart", "red heart") + rank_similarity("heart", "red") + EXACT
    );
}

#[test]
fn record_without_texts_ranks_zero() {
    let mut bare = Emoji::new("x".to_string(), "<svg/>".to_string()).unwrap();
    bare.rank = 77;
    bare.update_rank("en", "anything at all");
    assert_eq!(bare.rank, 0);
    assert_eq!(bare.name("en"), "Unknown");
}

#[test]
fn search_uses_the_resolved_locale() {
    let mut record = Emoji::new("x".to_string(), String::new()).unwrap();
    record.set_name("en", "cat".to_string());
    record.set_name("fr", "chat".to_string());
    record.set_keywords("fr", vec!["minou".to_string()]);
    record.update_rank("fr_CA", "chat");
    // The name comes from `fr`; the keywords from `fr` too.
    assert_eq!(record.rank, EXACT + rank_similarity("chat", "minou"));
    record.update_rank("de", "cat");
    // Name from the default locale; no keywords there.
    assert_eq!(record.rank, EXACT);
}

#[test]
fn searching_twice_gives_the_same() {
    let mut index = two_faces();
    index.search("en", "face smile");
    let order = values(&index).iter().map(|v| v.to_string()).collect::<Vec<_>>();
    let first = ranks(&index);
    index.search("en", "face smile");
    assert_eq!(values(&index), order);
    assert_eq!(ranks(&index), first);
}

#[test]
fn one_more_matching_keyword_raises_the_rank() {
    let mut without = emoji("x", "cat face", &["animal"]);
    let mut with = emoji("x", "cat face", &["animal", "kitty cat"]);
    without.update_rank("en", "cat");
    with.update_rank("en", "cat");
    assert!(with.rank > without.rank);
    assert_eq!(with.rank, without.rank + rank_similarity("cat", "kitty") + EXACT);
}

#[test]
fn empty_query_resets_ranks_and_keeps_order() {
    let mut index = two_faces();
    index.search("en", "cat");
    assert_eq!(values(&index), vec!["\u{1f431}", "\u{1f600}"]);
    index.search("en", "");
    assert_eq!(values(&index), vec!["\u{1f431}", "\u{1f600}"]);
    assert_eq!(ranks(&index), vec![0, 0]);
    index.search("en", " \t\u{a0}\u{3000}\n");
    assert_eq!(values(&index), vec!["\u{1f431}", "\u{1f600}"]);
    assert_eq!(ranks(&index), vec![0, 0]);
}

#[test]
fn equal_ranks_keep_their_order() {
    let mut list = Vec::new();
    for i in 0..50 {
        let name = if i % 3 == 0 { "cat" } else if i % 3 == 1 { "category" } else { "dog" };
        list.push(emoji(&format!("e{}", i), name, &[]));
    }
    let mut index = Index::new(list, vec!["en".to_string()]);
    index.search("en", "cat");
    let mut expected = Vec::new();
    for rest in 0..3 {
        for i in 0..50 {
            if i % 3 == rest {
                expected.push(format!("e{}", i));
            }
        }
    }
    assert_eq!(values(&index), expected);
    assert_eq!(index.emojis[0].rank, EXACT);
    assert_eq!(index.emojis[17].rank, PREFIX);
    assert_eq!(index.emojis[49].rank, 0);
}

#[test]
fn sort_orders_by_the_ranks_that_stand() {
    let mut index = two_faces();
    index.emojis[0].rank = 1;
    index.emojis[1].rank = 2;
    index.sort();
    assert_eq!(values(&index), vec!["\u{1f431}", "\u{1f600}"]);
    assert_eq!(ranks(&index), vec![2, 1]);
    index.emojis[0].rank = 1;
    index.emojis[1].rank = 1;
    index.sort();
    assert_eq!(values(&index), vec!["\u{1f431}", "\u{1f600}"]);
}

#[test]
fn search_keeps_locale_codes_and_records() {
    let mut index = two_faces();
    index.search("en", "happy");
    assert_eq!(index.locale_codes, vec!["en".to_string()]);
    assert_eq!(index.emojis.len(), 2);
    assert_eq!(index.emojis[0].name("en"), "grinning face");
}

#[test]
fn search_of_an_empty_index() {
    let mut index = Index::new(Vec::new(), Vec::new());
    index.search("en", "cat");
    assert!(index.emojis.is_empty());
}

#[test]
fn large_sums_are_exact() {
    let tokens: Vec<String> = (0..4).map(|_| "w".to_string()).collect();
    let phrase: String = (0..4000).map(|_| "w ").collect();
    let keywords = vec![phrase.clone(), phrase];
    assert_eq!(rank_of(&tokens[..1].to_vec(), None, Some(&keywords[..1].to_vec())), 4000 * EXACT);
    assert_eq!(rank_of(&tokens, Some("w"), Some(&keywords)), 4 * 8001 * EXACT);
}

#[test]
fn rank_of_given_words() {
    let tokens = vec!["cat".to_string(), "face".to_string()];
    let keywords = vec!["animal".to_string(), "cat".to_string()];
    let rank = rank_of(&tokens, Some("cat face"), Some(&keywords));
    assert_eq!(
        rank,
        PREFIX + rank_similarity("cat", "animal") + EXACT
            + rank_similarity("face", "cat face")
            + rank_similarity("face", "animal")
            + rank_similarity("face", "cat")
    );
    assert_eq!(rank_of(&tokens, None, None), 0);
    assert_eq!(rank_of(&Vec::new(), Some("cat face"), Some(&keywords)), 0);
}
