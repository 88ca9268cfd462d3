//! The index: the emoji in their current order, and the locales of the data.

use vstd::prelude::*;
use vstd::string::*;
use crate::emoji::{Emoji, EmojiView, UNKNOWN};
use crate::locale::DEFAULT_LOCALE;
use crate::order::{
    descending, is_ranking, lemma_ranking_keeps_records, lemma_ranking_unique, sort_by_rank,
};
use crate::text::{distinct_texts, finished, is_space, quote, quoted, same_text, words};

verus! {

/// The whole data set.
///
/// `emojis` stand in the order in which they were put in, until a search
/// re-orders them. `locale_codes` names every locale that the data set has
/// texts for.
#[derive(Debug)]
pub struct Index {
    pub emojis: Vec<Emoji>,
    pub locale_codes: Vec<String>,
}

/// What an [`Index`] holds, as plain texts and numbers.
pub struct IndexView {
    pub emojis: Seq<EmojiView>,
    pub locale_codes: Seq<Seq<char>>,
}

impl IndexView {
    /// This index with every rank at 0: what its stored form keeps of it.
    pub open spec fn unranked(self) -> IndexView {
        IndexView {
            emojis: Seq::new(self.emojis.len(), |i: int| self.emojis[i].with_rank(0)),
            locale_codes: self.locale_codes,
        }
    }

    /// The records, each with the rank that `query` gives it in `lang`.
    pub open spec fn scored(self, lang: Seq<char>, query: Seq<char>) -> Seq<EmojiView> {
        Seq::new(self.emojis.len(), |i: int| self.emojis[i].scored(lang, query))
    }

    /// The line that shows the record in place `at` to a reader of `lang`.
    pub open spec fn item(self, lang: Seq<char>, at: int) -> Seq<char> {
        quoted(self.emojis[at].value) + ": "@ + match self.emojis[at].name_for(lang) {
            Some(name) => name,
            None => UNKNOWN@,
        }
    }

    /// Every record is as the data model asks.
    pub open spec fn records_wf(self) -> bool {
        forall|i: int| 0 <= i < self.emojis.len() ==> (#[trigger] self.emojis[i]).wf()
    }

    /// The index is as the data model asks: every record is, and no locale
    /// code stands twice in the list of codes.
    pub open spec fn wf(self) -> bool {
        &&& self.records_wf()
        &&& self.locale_codes.no_duplicates()
    }
}

/// The views of a list of records.
pub open spec fn views(emojis: Seq<Emoji>) -> Seq<EmojiView> {
    Seq::new(emojis.len(), |i: int| emojis[i]@)
}

impl View for Index {
    type V = IndexView;

    open spec fn view(&self) -> IndexView {
        IndexView { emojis: views(self.emojis@), locale_codes: self.locale_codes.deep_view() }
    }
}

/// A search that is made twice gives what it gave the first time. Let `once`
/// be the records after a search, and `twice` the records after the same
/// search on `once`. Then `twice` is `once`: the same records in the same
/// places with the same ranks.
pub proof fn lemma_search_repeats(
    index: IndexView,
    lang: Seq<char>,
    query: Seq<char>,
    once: Seq<EmojiView>,
    twice: Seq<EmojiView>,
)
    requires
        is_ranking(index.scored(lang, query), once),
        is_ranking(
            IndexView { emojis: once, locale_codes: index.locale_codes }.scored(lang, query),
            twice,
        ),
    ensures
        twice == once,
{
    let first = index.scored(lang, query);
    let again = IndexView { emojis: once, locale_codes: index.locale_codes }.scored(lang, query);
    lemma_ranking_keeps_records(first, once);
    assert forall|i: int| 0 <= i < once.len() implies again[i] == once[i] by {
        let k = choose|k: int| 0 <= k < first.len() && first[k] == once[i];
        assert(first[k] == index.emojis[k].scored(lang, query));
        assert(once[i].name_for(lang) == index.emojis[k].name_for(lang));
        assert(once[i].keywords_for(lang) == index.emojis[k].keywords_for(lang));
    }
    assert(again =~= once);
    lemma_ranking_unique(once, once, twice);
}

/// A query without words changes no order. Every record then has rank 0,
/// and the records stand as they stood.
pub proof fn lemma_blank_query_keeps_order(
    index: IndexView,
    lang: Seq<char>,
    query: Seq<char>,
    after: Seq<EmojiView>,
)
    requires
        words(query).len() == 0,
        is_ranking(index.scored(lang, query), after),
    ensures
        after == index.unranked().emojis,
{
    let scored = index.scored(lang, query);
    assert(scored =~= index.unranked().emojis);
    assert(descending(scored));
    lemma_ranking_unique(scored, scored, after);
}

/// The empty text has no words, and neither has a text of white space only.
pub proof fn lemma_blank_has_no_words(text: Seq<char>)
    requires
        forall|i: int| 0 <= i < text.len() ==> is_space(text[i]),
    ensures
        words(text).len() == 0,
    decreases text.len(),
{
    if text.len() > 0 {
        lemma_blank_has_no_words(text.skip(1));
        assert(finished(Seq::<char>::empty()) + words(text.skip(1)) =~= words(
            text.skip(1),
        ));
    }
}

/// Whether `code` stands in `codes`.
pub open spec fn has_code(codes: Seq<Seq<char>>, code: Seq<char>) -> bool {
    exists|k: int| 0 <= k < codes.len() && codes[k] == code
}

/// Whether `at` is the first place of `wanted` whose code stands in `codes`.
pub open spec fn is_first_known(codes: Seq<Seq<char>>, wanted: Seq<Seq<char>>, at: int) -> bool {
    &&& 0 <= at < wanted.len()
    &&& has_code(codes, wanted[at])
    &&& forall|j: int| 0 <= j < at ==> !has_code(codes, #[trigger] wanted[j])
}

impl Default for Index {
    /// The index of no records and no locale codes.
    fn default() -> (index: Index)
        ensures
            index.emojis@.len() == 0,
            index.locale_codes@.len() == 0,
    {
        Index { emojis: Vec::new(), locale_codes: Vec::new() }
    }
}

impl Index {
    /// An index of the given records and locale codes.
    pub fn new(emojis: Vec<Emoji>, locale_codes: Vec<String>) -> (index: Index)
        ensures
            index.emojis == emojis,
            index.locale_codes == locale_codes,
    {
        Index { emojis, locale_codes }
    }

    /// Whether the index is as the data model asks.
    pub fn is_valid(&self) -> (ok: bool)
        ensures
            ok == self@.wf(),
    {
        let mut i: usize = 0;
        while i < self.emojis.len()
            invariant
                i <= self.emojis@.len(),
                forall|j: int| 0 <= j < i ==> (#[trigger] self@.emojis[j]).wf(),
            decreases self.emojis@.len() - i,
        {
            if !self.emojis[i].is_valid() {
                assert(self@.emojis[i as int] == self.emojis@[i as int]@);
                return false;
            }
            assert(self@.emojis[i as int] == self.emojis@[i as int]@);
            i += 1;
        }
        distinct_texts(&self.locale_codes)
    }

    /// Whether the data set has texts for the locale `code`.
    pub fn has_locale(&self, code: &str) -> (found: bool)
        ensures
            found == has_code(self@.locale_codes, code@),
    {
        let mut k: usize = 0;
        while k < self.locale_codes.len()
            invariant
                k <= self.locale_codes@.len(),
                forall|j: int| 0 <= j < k ==> self@.locale_codes[j] != code@,
            decreases self.locale_codes@.len() - k,
        {
            if same_text(self.locale_codes[k].as_str(), code) {
                assert(self@.locale_codes[k as int] == code@);
                return true;
            }
            k += 1;
        }
        false
    }

    /// The locale to show the index in: the first of `wanted`, the locales
    /// that the user prefers, best first, that the data set has texts for;
    /// the default locale if it has texts for none of them.
    pub fn find_language(&self, wanted: &Vec<String>) -> (lang: String)
        ensures
            forall|at: int|
                is_first_known(self@.locale_codes, wanted.deep_view(), at) ==> lang@
                    == wanted.deep_view()[at],
            (forall|at: int|
                0 <= at < wanted@.len() ==> !has_code(
                    self@.locale_codes,
                    #[trigger] wanted.deep_view()[at],
                )) ==> lang@ == DEFAULT_LOCALE@,
    {
        let mut i: usize = 0;
        while i < wanted.len()
            invariant
                i <= wanted@.len(),
                forall|j: int|
                    0 <= j < i ==> !has_code(self@.locale_codes, #[trigger] wanted.deep_view()[j]),
            decreases wanted@.len() - i,
        {
            if self.has_locale(wanted[i].as_str()) {
                assert(wanted.deep_view()[i as int] == wanted@[i as int]@);
                return wanted[i].clone();
            }
            assert(wanted.deep_view()[i as int] == wanted@[i as int]@);
            i += 1;
        }
        String::from_str(DEFAULT_LOCALE)
    }

    /// The lines that show the records to a reader of `lang`, in the order of
    /// the records: the character as `{:?}` writes it, a colon, and the name.
    pub fn items(&self, lang: &str) -> (lines: Vec<String>)
        ensures
            lines@.len() == self@.emojis.len(),
            forall|at: int|
                0 <= at < lines@.len() ==> (#[trigger] lines@[at])@ == self@.item(lang@, at),
    {
        let mut lines: Vec<String> = Vec::new();
        let mut i: usize = 0;
        while i < self.emojis.len()
            invariant
                i <= self.emojis@.len(),
                lines@.len() == i,
                forall|at: int|
                    0 <= at < i ==> (#[trigger] lines@[at])@ == self@.item(lang@, at),
            decreases self.emojis@.len() - i,
        {
            let emoji = &self.emojis[i];
            let mut line = quote(emoji.value.as_str());
            line.append(": ");
            line.append(emoji.name(lang));
            assert(self@.emojis[i as int] == emoji@);
            lines.push(line);
            i += 1;
        }
        lines
    }

    /// Puts the records in the order of their ranks as they are: best first,
    /// and records of equal rank in the order in which they stood.
    pub fn sort(&mut self)
        ensures
            is_ranking(old(self)@.emojis, final(self)@.emojis),
            final(self)@.locale_codes == old(self)@.locale_codes,
            old(self)@.wf() ==> final(self)@.wf(),
    {
        let mut list: Vec<Emoji> = Vec::new();
        core::mem::swap(&mut self.emojis, &mut list);
        self.emojis = sort_by_rank(list);
        proof {
            lemma_ranking_keeps_records(old(self)@.emojis, self@.emojis);
        }
    }

    /// Scores every record against `query` in `lang` and puts the records in
    /// the order of their ranks: best first, and records of equal rank in the
    /// order in which they stood before the search.
    pub fn search(&mut self, lang: &str, query: &str)
        ensures
            is_ranking(old(self)@.scored(lang@, query@), final(self)@.emojis),
            final(self)@.locale_codes == old(self)@.locale_codes,
            old(self)@.wf() ==> final(self)@.wf(),
    {
        let mut i: usize = 0;
        while i < self.emojis.len()
            invariant
                i <= self.emojis@.len(),
                self.emojis@.len() == old(self).emojis@.len(),
                self.locale_codes == old(self).locale_codes,
                forall|k: int|
                    0 <= k < i ==> (#[trigger] self.emojis@[k])@ == old(self)@.emojis[k].scored(
                        lang@,
                        query@,
                    ),
                forall|k: int|
                    i <= k < self.emojis@.len() ==> (#[trigger] self.emojis@[k]) == old(
                        self,
                    ).emojis@[k],
            decreases self.emojis@.len() - i,
        {
            self.emojis[i].update_rank(lang, query);
            i += 1;
        }
        assert(self@.emojis =~= old(self)@.scored(lang@, query@));
        assert(old(self)@.wf() ==> self@.wf()) by {
            if old(self)@.wf() {
                assert forall|k: int| 0 <= k < self@.emojis.len() implies (
                #[trigger] self@.emojis[k]).wf() by {
                    assert(old(self)@.emojis[k].wf());
                }
                assert(self@.locale_codes == old(self)@.locale_codes);
            }
        }
        self.sort();
    }
}

} // verus!
