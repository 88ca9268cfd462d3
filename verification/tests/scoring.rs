use emojifinder::score::{fixed_from_single, rank_similarity, EXACT, PREFIX, SINGLE_ONE, UNIT};

fn as_number(points: u64) -> f64 {
    points as f64 / UNIT as f64
}

#[test]
fn exact_match_scores_five() {
    assert_eq!(rank_similarity("cat", "cat"), EXACT);
    assert_eq!(as_number(rank_similarity("cat", "cat")), 5.0);
}

#[test]
fn prefix_match_scores_three() {
    assert_eq!(rank_similarity("cat", "category"), PREFIX);
    assert_eq!(as_number(rank_similarity("cat", "category")), 3.0);
}

#[test]
fn exact_and_prefix_are_case_sensitive() {
    assert!(rank_similarity("Cat", "cat") < PREFIX);
    assert!(rank_similarity("cat", "Category") < PREFIX);
}

#[test]
fn other_pairs_score_their_trigram_similarity() {
    assert_eq!(rank_similarity("food", "foo"), UNIT / 2);
    assert_eq!(rank_similarity("ab", "a"), UNIT / 4);
    assert_eq!(rank_similarity("barred", "bar"), UNIT / 8 * 3);
    assert_eq!(rank_similarity("srsly", "sir sly"), 0x4ccc_cd00);
    assert_eq!(rank_similarity("abc", "def"), 0);
}

#[test]
fn trigram_similarity_folds_case() {
    assert_eq!(rank_similarity("Figaro", "figaro?"), UNIT);
}

#[test]
fn scorer_puts_exact_over_prefix_over_fuzzy() {
    let exact = rank_similarity("cat", "cat");
    let prefix = rank_similarity("cat", "category");
    let fuzzy = rank_similarity("cat", "scatter");
    let none = rank_similarity("cat", "dog");
    assert!(exact > prefix);
    assert!(prefix > fuzzy);
    assert!(fuzzy > none);
    assert!(fuzzy <= UNIT);
    assert_eq!(none, 0);
}

#[test]
fn empty_words_score_nothing() {
    assert_eq!(rank_similarity("", "anything"), 0);
    assert_eq!(rank_similarity("anything", ""), 0);
    assert_eq!(rank_similarity("", ""), 0);
}

#[test]
fn a_long_candidate_does_not_outscore_a_prefix() {
    let long = "catastrophically long candidate text that shares a few letters";
    assert!(rank_similarity("cat", "cats") > rank_similarity("cap", long));
    assert_eq!(rank_similarity("cat", long), PREFIX);
}

#[test]
fn fixed_point_of_plain_numbers() {
    assert_eq!(fixed_from_single(1.0f32.to_bits()), UNIT);
    assert_eq!(fixed_from_single(SINGLE_ONE), UNIT);
    assert_eq!(fixed_from_single(0.5f32.to_bits()), 0x8000_0000);
    assert_eq!(fixed_from_single(0.25f32.to_bits()), 0x4000_0000);
    assert_eq!(fixed_from_single(0.375f32.to_bits()), 0x6000_0000);
    assert_eq!(fixed_from_single(0.0f32.to_bits()), 0);
}

#[test]
fn fixed_point_rounds_down() {
    for value in [0.3f32, 0.1, 0.7, 0.999_999_9, 1e-3, 1e-7, 3e-10, 1e-12, 1e-30] {
        let expected = (value as f64 * 4_294_967_296.0).floor() as u64;
        assert_eq!(fixed_from_single(value.to_bits()), expected, "{}", value);
    }
}

#[test]
fn fixed_point_of_what_is_no_score() {
    assert_eq!(fixed_from_single(f32::NAN.to_bits()), 0);
    assert_eq!(fixed_from_single(f32::INFINITY.to_bits()), 0);
    assert_eq!(fixed_from_single(f32::NEG_INFINITY.to_bits()), 0);
    assert_eq!(fixed_from_single((-0.5f32).to_bits()), 0);
    assert_eq!(fixed_from_single((-0.0f32).to_bits()), 0);
    assert_eq!(fixed_from_single(2.0f32.to_bits()), 0);
    assert_eq!(fixed_from_single(1.000_000_1f32.to_bits()), 0);
    assert_eq!(fixed_from_single(f32::MIN_POSITIVE.to_bits()), 0);
    assert_eq!(fixed_from_single(1), 0);
}

#[test]
fn scorer_takes_any_text() {
    let texts = [
        "?", "...", " ", "\t", "a", "ab", "_", "\u{130}", "\u{df}", "\u{65e5}\u{672c}\u{8a9e}",
        "\u{1f600}", "a b", " a", "a ", "--a--", "A", "\u{0}", "e\u{301}", "\u{fb01}", "I\u{307}",
    ];
    for query in texts {
        for candidate in texts {
            let points = rank_similarity(query, candidate);
            if query == candidate {
                assert_eq!(points, EXACT, "{:?} {:?}", query, candidate);
            } else if candidate.starts_with(query) {
                assert_eq!(points, PREFIX, "{:?} {:?}", query, candidate);
            } else {
                assert!(points <= UNIT, "{:?} {:?}", query, candidate);
                let expected = trigram::similarity(query, candidate);
                assert_eq!(points as f64 / UNIT as f64, expected as f64, "{:?} {:?}", query, candidate);
            }
        }
    }
}

#[test]
fn scoring_twice_gives_the_same() {
    for _ in 0..3 {
        assert_eq!(rank_similarity("grin", "grinning"), PREFIX);
        assert_eq!(rank_similarity("smile", "simile"), rank_similarity("smile", "simile"));
    }
    assert!(rank_similarity("smile", "simile") > 0);
}
