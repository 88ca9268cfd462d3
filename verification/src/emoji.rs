//! One emoji: its character, its names and keywords by locale, its picture.

use vstd::prelude::*;
use vstd::string::*;
use crate::locale::{
    distinct, find, keys, lemma_position_exists, position, resolve_at, resolved,
};
use crate::rank::{
    capped, gain, keyword_texts, lemma_gain_covers, lemma_keyword_adds, name_text, rank_of,
    score_query,
};
use crate::score::score;
use crate::text::{split_words, words};

verus! {

/// One emoji of the index.
///
/// `name` and `keywords` are lists of entries keyed by locale code; a code
/// stands at most once in each. `rank` is what the last search gave the
/// record and means nothing before the first: it is no part of the record's
/// stored form.
#[derive(Clone, Debug)]
pub struct Emoji {
    /// The character sequence itself; never empty.
    pub value: String,
    /// The display name, by locale.
    pub name: Vec<(String, String)>,
    /// The keyword phrases, by locale.
    pub keywords: Vec<(String, Vec<String>)>,
    /// The source text of the picture, kept as it came.
    pub svg: String,
    /// The score of the last search, in fixed point.
    pub rank: u64,
}

/// The name of a record that has none for the reader's locale.
pub const UNKNOWN: &'static str = "Unknown";

/// What an [`Emoji`] holds, as plain texts and numbers.
pub struct EmojiView {
    pub value: Seq<char>,
    pub name: Seq<(Seq<char>, Seq<char>)>,
    pub keywords: Seq<(Seq<char>, Seq<Seq<char>>)>,
    pub svg: Seq<char>,
    pub rank: u64,
}

/// The first halves of a list of pairs.
pub open spec fn firsts<V>(entries: Seq<(Seq<char>, V)>) -> Seq<Seq<char>> {
    Seq::new(entries.len(), |i: int| entries[i].0)
}

/// A list of entries with the entry of `key` set to `entry`: in the place of
/// the entry that the key had, or at the end if it had none.
pub open spec fn with_entry<V>(
    entries: Seq<(Seq<char>, V)>,
    key: Seq<char>,
    value: V,
) -> Seq<(Seq<char>, V)> {
    match position(firsts(entries), key) {
        Some(at) => entries.update(at, (key, value)),
        None => entries.push((key, value)),
    }
}

/// Setting the entry of a key leaves a list without double keys so.
pub proof fn lemma_with_entry_distinct<V>(entries: Seq<(Seq<char>, V)>, key: Seq<char>, value: V)
    requires
        firsts(entries).no_duplicates(),
    ensures
        firsts(with_entry(entries, key, value)).no_duplicates(),
{
    let made = with_entry(entries, key, value);
    match position(firsts(entries), key) {
        Some(at) => {
            assert(crate::locale::is_first(firsts(entries), key, at));
            assert(firsts(made) =~= firsts(entries));
        },
        None => {
            assert forall|i: int| 0 <= i < entries.len() implies firsts(entries)[i] != key by {
                if firsts(entries)[i] == key {
                    lemma_position_exists(firsts(entries), key, i);
                }
            }
            assert(firsts(made) =~= firsts(entries).push(key));
        },
    }
}

impl EmojiView {
    /// The name that serves `lang`, if one does.
    pub open spec fn name_for(self, lang: Seq<char>) -> Option<Seq<char>> {
        match resolved(firsts(self.name), lang) {
            Some(at) => Some(self.name[at].1),
            None => None,
        }
    }

    /// The keyword phrases that serve `lang`; none, if no entry does.
    pub open spec fn keywords_for(self, lang: Seq<char>) -> Seq<Seq<char>> {
        match resolved(firsts(self.keywords), lang) {
            Some(at) => self.keywords[at].1,
            None => Seq::empty(),
        }
    }

    /// The sum of the scores that `query` earns against this record in `lang`.
    pub open spec fn total(self, lang: Seq<char>, query: Seq<char>) -> nat {
        score_query(words(query), self.name_for(lang), self.keywords_for(lang))
    }

    /// This record with the rank that `query` gives it in `lang`.
    pub open spec fn scored(self, lang: Seq<char>, query: Seq<char>) -> EmojiView {
        EmojiView { rank: capped(self.total(lang, query)), ..self }
    }

    /// This record with another rank.
    pub open spec fn with_rank(self, rank: u64) -> EmojiView {
        EmojiView { rank, ..self }
    }

    /// The record is as the data model asks: it has a character, and no
    /// locale has two names or two keyword lists.
    pub open spec fn wf(self) -> bool {
        &&& self.value.len() > 0
        &&& firsts(self.name).no_duplicates()
        &&& firsts(self.keywords).no_duplicates()
    }
}

/// One more keyword that matches raises the rank. Let two records differ
/// only in that the second has one keyword phrase more, at the end of the
/// phrases that serve `lang`, and let the query match that phrase: some word
/// of the one scores above 0 against some word of the other. Then `query`
/// gives the second record a higher rank than the first, unless the first
/// already holds the largest rank.
pub proof fn lemma_keyword_raises_rank(
    before: EmojiView,
    after: EmojiView,
    lang: Seq<char>,
    query: Seq<char>,
    keyword: Seq<char>,
)
    requires
        after.name_for(lang) == before.name_for(lang),
        after.keywords_for(lang) == before.keywords_for(lang).push(keyword),
        exists|t: int, w: int|
            0 <= t < words(query).len() && 0 <= w < words(keyword).len() && score(
                #[trigger] words(query)[t],
                #[trigger] words(keyword)[w],
            ) > 0,
        before.total(lang, query) < u64::MAX,
    ensures
        after.total(lang, query) == before.total(lang, query) + gain(words(query), keyword),
        gain(words(query), keyword) > 0,
        after.scored(lang, query).rank > before.scored(lang, query).rank,
{
    lemma_keyword_adds(words(query), before.name_for(lang), before.keywords_for(lang), keyword);
    let (t, w) = choose|t: int, w: int|
        0 <= t < words(query).len() && 0 <= w < words(keyword).len() && score(
            #[trigger] words(query)[t],
            #[trigger] words(keyword)[w],
        ) > 0;
    lemma_gain_covers(words(query), keyword, t, w);
}

impl View for Emoji {
    type V = EmojiView;

    open spec fn view(&self) -> EmojiView {
        EmojiView {
            value: self.value@,
            name: self.name.deep_view(),
            keywords: self.keywords.deep_view(),
            svg: self.svg@,
            rank: self.rank,
        }
    }
}

impl Emoji {
    /// The keys of the exec lists are the keys of their views.
    pub proof fn lemma_keys(&self)
        ensures
            keys(self.name@) == firsts(self@.name),
            keys(self.keywords@) == firsts(self@.keywords),
    {
        assert(keys(self.name@) =~= firsts(self@.name));
        assert(keys(self.keywords@) =~= firsts(self@.keywords));
    }

    /// A record of the given character and picture, with no names and no
    /// keywords yet. There is no record without a character.
    pub fn new(value: String, svg: String) -> (made: Option<Emoji>)
        ensures
            match made {
                Some(emoji) => {
                    &&& emoji.value == value
                    &&& emoji.svg == svg
                    &&& emoji.name@.len() == 0
                    &&& emoji.keywords@.len() == 0
                    &&& emoji.rank == 0
                    &&& emoji@.wf()
                },
                None => value@.len() == 0,
            },
    {
        if value.as_str().is_empty() {
            return None;
        }
        let emoji = Emoji { value, name: Vec::new(), keywords: Vec::new(), svg, rank: 0 };
        assert(firsts(emoji@.name) =~= Seq::<Seq<char>>::empty());
        assert(firsts(emoji@.keywords) =~= Seq::<Seq<char>>::empty());
        Some(emoji)
    }

    /// Gives the record its name in the locale `lang`, in place of the name
    /// that it had there, if it had one.
    pub fn set_name(&mut self, lang: &str, name: String)
        ensures
            final(self)@ == (EmojiView {
                name: with_entry(old(self)@.name, lang@, name@),
                ..old(self)@
            }),
            old(self)@.wf() ==> final(self)@.wf(),
    {
        proof {
            self.lemma_keys();
            if self@.wf() {
                lemma_with_entry_distinct(self@.name, lang@, name@);
            }
        }
        let ghost before = self@.name;
        let ghost text = name@;
        match find(&self.name, lang) {
            Some(at) => {
                self.name[at] = (String::from_str(lang), name);
                assert(self@.name =~= before.update(at as int, (lang@, text)));
            },
            None => {
                self.name.push((String::from_str(lang), name));
                assert(self@.name =~= before.push((lang@, text)));
            },
        }
    }

    /// Gives the record its keyword phrases in the locale `lang`, in place of
    /// those that it had there, if it had any.
    pub fn set_keywords(&mut self, lang: &str, keywords: Vec<String>)
        ensures
            final(self)@ == (EmojiView {
                keywords: with_entry(old(self)@.keywords, lang@, keywords.deep_view()),
                ..old(self)@
            }),
            old(self)@.wf() ==> final(self)@.wf(),
    {
        proof {
            self.lemma_keys();
            if self@.wf() {
                lemma_with_entry_distinct(self@.keywords, lang@, keywords.deep_view());
            }
        }
        let ghost before = self@.keywords;
        let ghost texts = keywords.deep_view();
        match find(&self.keywords, lang) {
            Some(at) => {
                self.keywords[at] = (String::from_str(lang), keywords);
                assert(self@.keywords =~= before.update(at as int, (lang@, texts)));
            },
            None => {
                self.keywords.push((String::from_str(lang), keywords));
                assert(self@.keywords =~= before.push((lang@, texts)));
            },
        }
    }

    /// Whether the record is as the data model asks.
    pub fn is_valid(&self) -> (ok: bool)
        ensures
            ok == self@.wf(),
    {
        proof {
            self.lemma_keys();
        }
        !self.value.as_str().is_empty() && distinct(&self.name) && distinct(&self.keywords)
    }

    /// The display name for `lang`, or `Unknown` where no entry serves.
    pub fn name<'a>(&'a self, lang: &str) -> (text: &'a str)
        ensures
            text@ == match self@.name_for(lang@) {
                Some(name) => name,
                None => UNKNOWN@,
            },
    {
        proof {
            self.lemma_keys();
        }
        match resolve_at(&self.name, lang) {
            Some(at) => self.name[at].1.as_str(),
            None => UNKNOWN,
        }
    }

    /// Scores the record against `query` in `lang` and stores the sum as its
    /// rank. Nothing else of the record changes.
    pub fn update_rank(&mut self, lang: &str, query: &str)
        ensures
            final(self)@ == old(self)@.scored(lang@, query@),
    {
        proof {
            self.lemma_keys();
        }
        let tokens = split_words(query);
        let name = match resolve_at(&self.name, lang) {
            Some(at) => Some(self.name[at].1.as_str()),
            None => None,
        };
        let keywords = match resolve_at(&self.keywords, lang) {
            Some(at) => Some(&self.keywords[at].1),
            None => None,
        };
        assert(name_text(name) == self@.name_for(lang@));
        assert(keyword_texts(keywords) == self@.keywords_for(lang@));
        let rank = rank_of(&tokens, name, keywords);
        self.rank = rank;
    }
}

} // verus!
