//! The rank of a record: the sum of the scores of every word of the query
//! against the record's name and against every word of its keywords.
//!
//! A record that matches in several places outranks one that matches well in
//! one place: the scores add up, they are not the best of them. The sum is
//! kept in 64 bits and stops at the largest number they hold.

use vstd::prelude::*;
use crate::score::{rank_similarity, score};
use crate::text::{split_words, words};

verus! {

/// The score of one query word against each of `candidates`, summed.
pub open spec fn score_words(token: Seq<char>, candidates: Seq<Seq<char>>) -> nat
    decreases candidates.len(),
{
    if candidates.len() == 0 {
        0
    } else {
        score_words(token, candidates.drop_last()) + score(token, candidates.last()) as nat
    }
}

/// The score of one query word against every word of each keyword phrase,
/// summed.
pub open spec fn score_keywords(token: Seq<char>, keywords: Seq<Seq<char>>) -> nat
    decreases keywords.len(),
{
    if keywords.len() == 0 {
        0
    } else {
        score_keywords(token, keywords.drop_last()) + score_words(token, words(keywords.last()))
    }
}

/// The score of one query word against a record: against its name, taken
/// whole, where it has one, and against its keywords.
pub open spec fn score_token(
    token: Seq<char>,
    name: Option<Seq<char>>,
    keywords: Seq<Seq<char>>,
) -> nat {
    (match name {
        Some(text) => score(token, text) as nat,
        None => 0,
    }) + score_keywords(token, keywords)
}

/// The scores of all query words against a record, summed.
pub open spec fn score_query(
    tokens: Seq<Seq<char>>,
    name: Option<Seq<char>>,
    keywords: Seq<Seq<char>>,
) -> nat
    decreases tokens.len(),
{
    if tokens.len() == 0 {
        0
    } else {
        score_query(tokens.drop_last(), name, keywords) + score_token(
            tokens.last(),
            name,
            keywords,
        )
    }
}

/// A sum as a rank holds it: itself, or the largest rank if it is above that.
pub open spec fn capped(total: nat) -> u64 {
    if total > u64::MAX {
        u64::MAX
    } else {
        total as u64
    }
}

/// What one more keyword phrase adds to the sum of a query: the scores of
/// every query word against every word of the phrase.
pub open spec fn gain(tokens: Seq<Seq<char>>, keyword: Seq<char>) -> nat
    decreases tokens.len(),
{
    if tokens.len() == 0 {
        0
    } else {
        gain(tokens.drop_last(), keyword) + score_words(tokens.last(), words(keyword))
    }
}

/// A sum over words is at least the score of any one of them.
pub proof fn lemma_score_words_covers(token: Seq<char>, candidates: Seq<Seq<char>>, at: int)
    requires
        0 <= at < candidates.len(),
    ensures
        score_words(token, candidates) >= score(token, candidates[at]),
    decreases candidates.len(),
{
    if at < candidates.len() - 1 {
        lemma_score_words_covers(token, candidates.drop_last(), at);
    }
}

/// What a phrase adds is at least the score of any query word against any
/// word of the phrase.
pub proof fn lemma_gain_covers(tokens: Seq<Seq<char>>, keyword: Seq<char>, t: int, w: int)
    requires
        0 <= t < tokens.len(),
        0 <= w < words(keyword).len(),
    ensures
        gain(tokens, keyword) >= score(tokens[t], words(keyword)[w]),
    decreases tokens.len(),
{
    if t < tokens.len() - 1 {
        lemma_gain_covers(tokens.drop_last(), keyword, t, w);
    } else {
        lemma_score_words_covers(tokens[t], words(keyword), w);
    }
}

/// With one more keyword phrase, a record's sum is what it was plus what the
/// phrase adds.
pub proof fn lemma_keyword_adds(
    tokens: Seq<Seq<char>>,
    name: Option<Seq<char>>,
    keywords: Seq<Seq<char>>,
    keyword: Seq<char>,
)
    ensures
        score_query(tokens, name, keywords.push(keyword)) == score_query(tokens, name, keywords)
            + gain(tokens, keyword),
    decreases tokens.len(),
{
    if tokens.len() > 0 {
        lemma_keyword_adds(tokens.drop_last(), name, keywords, keyword);
        assert(keywords.push(keyword).drop_last() =~= keywords);
    }
}

/// Adds the scores of `token` against each of `candidates` to `rank`.
fn add_words(rank: u64, total: Ghost<nat>, token: &str, candidates: &Vec<String>) -> (sum: u64)
    requires
        rank == capped(total@),
    ensures
        sum == capped(total@ + score_words(token@, candidates.deep_view())),
{
    let mut sum = rank;
    let mut i: usize = 0;
    while i < candidates.len()
        invariant
            i <= candidates@.len(),
            sum == capped(total@ + score_words(token@, candidates.deep_view().take(i as int))),
        decreases candidates@.len() - i,
    {
        let points = rank_similarity(token, candidates[i].as_str());
        proof {
            let seen = candidates.deep_view().take(i as int + 1);
            assert(seen.drop_last() =~= candidates.deep_view().take(i as int));
            assert(seen.last() == candidates@[i as int]@);
        }
        sum = sum.saturating_add(points);
        i += 1;
    }
    proof {
        assert(candidates.deep_view().take(i as int) =~= candidates.deep_view());
    }
    sum
}

/// Adds the scores of `token` against every word of each keyword phrase to
/// `rank`.
fn add_keywords(rank: u64, total: Ghost<nat>, token: &str, keywords: &Vec<String>) -> (sum: u64)
    requires
        rank == capped(total@),
    ensures
        sum == capped(total@ + score_keywords(token@, keywords.deep_view())),
{
    let mut sum = rank;
    let mut i: usize = 0;
    while i < keywords.len()
        invariant
            i <= keywords@.len(),
            sum == capped(total@ + score_keywords(token@, keywords.deep_view().take(i as int))),
        decreases keywords@.len() - i,
    {
        let pieces = split_words(keywords[i].as_str());
        let ghost before = total@ + score_keywords(token@, keywords.deep_view().take(i as int));
        proof {
            let seen = keywords.deep_view().take(i as int + 1);
            assert(seen.drop_last() =~= keywords.deep_view().take(i as int));
            assert(seen.last() == keywords@[i as int]@);
        }
        sum = add_words(sum, Ghost(before), token, &pieces);
        i += 1;
    }
    proof {
        assert(keywords.deep_view().take(i as int) =~= keywords.deep_view());
    }
    sum
}

/// The view of a name that may be missing.
pub open spec fn name_text(name: Option<&str>) -> Option<Seq<char>> {
    match name {
        Some(text) => Some(text@),
        None => None,
    }
}

/// The views of keywords that may be missing: none, where they are.
pub open spec fn keyword_texts(keywords: Option<&Vec<String>>) -> Seq<Seq<char>> {
    match keywords {
        Some(list) => list.deep_view(),
        None => Seq::empty(),
    }
}

/// The rank that a query, cut into words, gives a record with this name and
/// these keywords.
pub fn rank_of(tokens: &Vec<String>, name: Option<&str>, keywords: Option<&Vec<String>>) -> (rank:
    u64)
    ensures
        rank == capped(score_query(tokens.deep_view(), name_text(name), keyword_texts(keywords))),
{
    let mut rank: u64 = 0;
    let mut i: usize = 0;
    while i < tokens.len()
        invariant
            i <= tokens@.len(),
            rank == capped(
                score_query(
                    tokens.deep_view().take(i as int),
                    name_text(name),
                    keyword_texts(keywords),
                ),
            ),
        decreases tokens@.len() - i,
    {
        let token = tokens[i].as_str();
        let ghost before = score_query(
            tokens.deep_view().take(i as int),
            name_text(name),
            keyword_texts(keywords),
        );
        proof {
            let seen = tokens.deep_view().take(i as int + 1);
            assert(seen.drop_last() =~= tokens.deep_view().take(i as int));
            assert(seen.last() == tokens@[i as int]@);
        }
        if let Some(text) = name {
            rank = rank.saturating_add(rank_similarity(token, text));
        }
        let ghost named = before + match name {
            Some(text) => score(token@, text@) as nat,
            None => 0,
        };
        if let Some(list) = keywords {
            rank = add_keywords(rank, Ghost(named), token, list);
        }
        i += 1;
    }
    proof {
        assert(tokens.deep_view().take(i as int) =~= tokens.deep_view());
    }
    rank
}

} // verus!
