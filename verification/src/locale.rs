//! Picking the entry of a locale-keyed list that serves a requested locale.
//!
//! A record keeps its names and keywords in lists of entries, each keyed by a
//! locale code such as `en` or `en_GB`. A request is served by the entry of
//! that very code; failing that, and if the code is longer than three
//! characters, by the entry of its first two characters (the language of a
//! regional variant); failing that, by the entry of [`DEFAULT_LOCALE`]. Where
//! a code occurs twice in a list, its first entry counts.
//!
//! The two-character rule is a simplification: it does not know language
//! codes of three letters.

use vstd::prelude::*;
use vstd::string::*;
use crate::text::same_text;

verus! {

/// The locale that serves when nothing closer to the request is found.
pub const DEFAULT_LOCALE: &'static str = "en";

/// The locale codes of a list of entries, in order.
pub open spec fn keys<V>(entries: Seq<(String, V)>) -> Seq<Seq<char>> {
    Seq::new(entries.len(), |i: int| entries[i].0@)
}

/// Whether `at` is the first place in `keys` that holds `key`.
pub open spec fn is_first(keys: Seq<Seq<char>>, key: Seq<char>, at: int) -> bool {
    &&& 0 <= at < keys.len()
    &&& keys[at] == key
    &&& forall|j: int| 0 <= j < at ==> keys[j] != key
}

/// The first place in `keys` that holds `key`, if there is one.
pub open spec fn position(keys: Seq<Seq<char>>, key: Seq<char>) -> Option<int> {
    if exists|at: int| is_first(keys, key, at) {
        Some(choose|at: int| is_first(keys, key, at))
    } else {
        None
    }
}

/// The language of a regional locale code: its first two characters, for a
/// code of more than three.
pub open spec fn language(requested: Seq<char>) -> Option<Seq<char>> {
    if requested.len() > 3 {
        Some(requested.take(2))
    } else {
        None
    }
}

/// The place of the entry that serves `requested`, if any does.
pub open spec fn resolved(keys: Seq<Seq<char>>, requested: Seq<char>) -> Option<int> {
    if position(keys, requested) is Some {
        position(keys, requested)
    } else if language(requested) is Some && position(keys, language(requested).unwrap()) is Some {
        position(keys, language(requested).unwrap())
    } else {
        position(keys, DEFAULT_LOCALE@)
    }
}

/// The first place that holds a key is its position.
pub proof fn lemma_position_found(keys: Seq<Seq<char>>, key: Seq<char>, at: int)
    requires
        is_first(keys, key, at),
    ensures
        position(keys, key) == Some(at),
{
    let chosen = choose|at: int| is_first(keys, key, at);
    assert(is_first(keys, key, chosen));
    if chosen < at {
        assert(keys[chosen] != key);
    }
    if at < chosen {
        assert(keys[at] != key);
    }
}

/// A key that stands somewhere has a position.
pub proof fn lemma_position_exists(keys: Seq<Seq<char>>, key: Seq<char>, at: int)
    requires
        0 <= at < keys.len(),
        keys[at] == key,
    ensures
        position(keys, key) is Some,
    decreases at,
{
    if forall|j: int| 0 <= j < at ==> keys[j] != key {
        assert(is_first(keys, key, at));
    } else {
        let j = choose|j: int| 0 <= j < at && keys[j] == key;
        lemma_position_exists(keys, key, j);
    }
}

/// A key that stands nowhere has no position.
pub proof fn lemma_position_missing(keys: Seq<Seq<char>>, key: Seq<char>)
    requires
        forall|j: int| 0 <= j < keys.len() ==> keys[j] != key,
    ensures
        position(keys, key) is None,
{
}

/// Finds the first entry with the given locale code.
pub fn find<V>(entries: &Vec<(String, V)>, key: &str) -> (found: Option<usize>)
    ensures
        found is Some <==> position(keys(entries@), key@) is Some,
        found is Some ==> found.unwrap() as int == position(keys(entries@), key@).unwrap(),
        found is Some ==> found.unwrap() < entries@.len(),
{
    let mut i: usize = 0;
    while i < entries.len()
        invariant
            i <= entries@.len(),
            forall|j: int| 0 <= j < i ==> keys(entries@)[j] != key@,
        decreases entries@.len() - i,
    {
        if same_text(entries[i].0.as_str(), key) {
            proof {
                lemma_position_found(keys(entries@), key@, i as int);
            }
            return Some(i);
        }
        i += 1;
    }
    proof {
        lemma_position_missing(keys(entries@), key@);
    }
    None
}

/// Whether no locale code stands twice in the list.
pub fn distinct<V>(entries: &Vec<(String, V)>) -> (ok: bool)
    ensures
        ok == keys(entries@).no_duplicates(),
{
    let mut i: usize = 0;
    while i < entries.len()
        invariant
            i <= entries@.len(),
            forall|a: int, b: int|
                0 <= a < b < entries@.len() && a < i ==> keys(entries@)[a] != keys(entries@)[b],
        decreases entries@.len() - i,
    {
        let mut j: usize = i + 1;
        while j < entries.len()
            invariant
                i < j <= entries@.len(),
                forall|a: int, b: int|
                    0 <= a < b < entries@.len() && a < i ==> keys(entries@)[a] != keys(
                        entries@,
                    )[b],
                forall|b: int| i < b < j ==> keys(entries@)[i as int] != keys(entries@)[b],
            decreases entries@.len() - j,
        {
            if same_text(entries[i].0.as_str(), entries[j].0.as_str()) {
                assert(keys(entries@)[i as int] == keys(entries@)[j as int]);
                return false;
            }
            j += 1;
        }
        i += 1;
    }
    assert forall|a: int, b: int|
        0 <= a < keys(entries@).len() && 0 <= b < keys(entries@).len() && a != b implies keys(
        entries@,
    )[a] != keys(entries@)[b] by {
        if a < b {
            assert(keys(entries@)[a] != keys(entries@)[b]);
        } else {
            assert(keys(entries@)[b] != keys(entries@)[a]);
        }
    }
    true
}

/// Finds the entry that serves the requested locale: its place in the list.
pub fn resolve_at<V>(entries: &Vec<(String, V)>, requested: &str) -> (found: Option<usize>)
    ensures
        found is Some <==> resolved(keys(entries@), requested@) is Some,
        found is Some ==> found.unwrap() as int == resolved(keys(entries@), requested@).unwrap(),
        found is Some ==> found.unwrap() < entries@.len(),
{
    let exact = find(entries, requested);
    if exact.is_some() {
        return exact;
    }
    if requested.unicode_len() > 3 {
        let family = find(entries, requested.substring_char(0, 2));
        if family.is_some() {
            return family;
        }
    }
    find(entries, DEFAULT_LOCALE)
}

/// Finds the entry that serves the requested locale, and hands out what it
/// holds. `None` says that no entry serves: the caller then has its own
/// placeholder.
pub fn resolve<'a, V>(entries: &'a Vec<(String, V)>, requested: &str) -> (found: Option<&'a V>)
    ensures
        found is Some <==> resolved(keys(entries@), requested@) is Some,
        found is Some ==> *found.unwrap() == entries@[resolved(
            keys(entries@),
            requested@,
        ).unwrap()].1,
{
    match resolve_at(entries, requested) {
        Some(at) => Some(&entries[at].1),
        None => None,
    }
}

} // verus!
