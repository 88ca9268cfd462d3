//! Reading an index from its stored form.
//!
//! Each reader takes the bytes and the place to read at, and hands back the
//! item with the place behind it, or the error. What it hands back is what
//! the format's `take_..` function of the same item finds in the bytes from
//! that place on.

use vstd::prelude::*;
use vstd::bytes::u64_from_le_bytes;
use vstd::slice::slice_subrange;
use vstd::string::*;
use vstd::utf8::*;
use crate::emoji::{Emoji, EmojiView};
use crate::format::{
    index_bytes, take_byte, take_emoji, take_index, take_items, take_keywords, take_list,
    take_name, take_number, take_text, take_texts, Reason, Stop, TAG_EMOJIS, TAG_KEYWORDS,
    TAG_LOCALES, TAG_NAME, TAG_SVG, TAG_VALUE, VERSION,
};
use crate::index::{views, Index, IndexView};
use crate::roundtrip::lemma_index_taken;
use crate::text::{decimal_text, push_decimal};

verus! {

/// Why an index could not be read.
#[derive(Clone, Copy, Debug, PartialEq, Eq, Structural)]
pub enum DecodeError {
    /// The block of bytes could not be decompressed.
    Compression,
    /// The decompressed bytes are not the stored form of an index: reading
    /// stopped at the byte `offset` for the given reason.
    Malformed { offset: usize, reason: Reason },
    /// The bytes were read, but the record in place `record` is not as the
    /// data model asks.
    Invalid { record: usize },
    /// The bytes were read, but a locale code stands twice in the list of
    /// locale codes.
    Locales,
}

impl Reason {
    /// The words for this reason.
    pub open spec fn words(self) -> Seq<char> {
        match self {
            Reason::Truncated => "the data ends too early"@,
            Reason::Expected { byte } => "expected the mark "@ + decimal_text(byte as nat),
            Reason::Text => "a text is not UTF-8"@,
            Reason::Trailing => "data follows the end of the index"@,
        }
    }
}

impl DecodeError {
    /// The words for this error.
    pub open spec fn words(self) -> Seq<char> {
        match self {
            DecodeError::Compression => "the block cannot be decompressed"@,
            DecodeError::Malformed { offset, reason } => "byte "@ + decimal_text(offset as nat)
                + ": "@ + reason.words(),
            DecodeError::Invalid { record } => "record "@ + decimal_text(record as nat)
                + " has no character or names a locale twice"@,
            DecodeError::Locales => "a locale code stands twice in the list of locales"@,
        }
    }

    /// Says in words what is wrong, and where.
    pub fn message(&self) -> (text: String)
        ensures
            text@ == self.words(),
    {
        match self {
            DecodeError::Compression => String::from_str("the block cannot be decompressed"),
            DecodeError::Malformed { offset, reason } => {
                let mut text = String::from_str("byte ");
                push_decimal(&mut text, *offset as u64);
                text.append(": ");
                match reason {
                    Reason::Truncated => text.append("the data ends too early"),
                    Reason::Expected { byte } => {
                        text.append("expected the mark ");
                        push_decimal(&mut text, *byte as u64);
                    },
                    Reason::Text => text.append("a text is not UTF-8"),
                    Reason::Trailing => text.append("data follows the end of the index"),
                }
                assert(text@ =~= self.words());
                text
            },
            DecodeError::Invalid { record } => {
                let mut text = String::from_str("record ");
                push_decimal(&mut text, *record as u64);
                text.append(" has no character or names a locale twice");
                text
            },
            DecodeError::Locales => String::from_str(
                "a locale code stands twice in the list of locales",
            ),
        }
    }
}

/// The error for a reader that stopped in bytes of which `total` were given.
pub open spec fn fault(total: nat, stop: Stop) -> DecodeError {
    DecodeError::Malformed { offset: (total - stop.left) as usize, reason: stop.reason }
}

/// What reading a list gives, with the items in `front` put before it.
pub open spec fn after<T>(front: Seq<T>, found: Result<(Seq<T>, Seq<u8>), Stop>) -> Result<
    (Seq<T>, Seq<u8>),
    Stop,
> {
    match found {
        Ok((items, rest)) => Ok((front + items, rest)),
        Err(stop) => Err(stop),
    }
}

/// Reading `count` items is reading the first, then the others.
pub proof fn lemma_items_next<T>(
    front: Seq<T>,
    s: Seq<u8>,
    count: nat,
    one: spec_fn(Seq<u8>) -> Result<(T, Seq<u8>), Stop>,
)
    requires
        count > 0,
    ensures
        one(s) matches Ok((item, rest)) ==> after(front, take_items(s, count, one)) == after(
            front.push(item),
            take_items(rest, (count - 1) as nat, one),
        ),
        one(s) matches Err(stop) ==> take_items(s, count, one) == Err::<(Seq<T>, Seq<u8>), Stop>(
            stop,
        ),
{
    match one(s) {
        Ok((item, rest)) => {
            match take_items(rest, (count - 1) as nat, one) {
                Ok((others, behind)) => {
                    assert(front + (seq![item] + others) =~= front.push(item) + others);
                },
                Err(_) => {},
            }
        },
        Err(_) => {},
    }
}

/// With nothing put before it, a list is as it was read.
pub proof fn lemma_after_nothing<T>(found: Result<(Seq<T>, Seq<u8>), Stop>)
    ensures
        after(Seq::<T>::empty(), found) == found,
{
    match found {
        Ok((items, rest)) => {
            assert(Seq::<T>::empty() + items =~= items);
        },
        Err(_) => {},
    }
}

/// Calls `String::from_utf8` on a copy of the bytes: the text that they
/// encode, where they are UTF-8.
#[verifier::external_body]
fn text_of(bytes: &[u8]) -> (text: Option<String>)
    ensures
        match text {
            Some(s) => valid_utf8(bytes@) && s@ == decode_utf8(bytes@),
            None => !valid_utf8(bytes@),
        },
{
    String::from_utf8(bytes.to_vec()).ok()
}

fn read_byte(b: &[u8], at: usize, byte: u8) -> (found: Result<usize, DecodeError>)
    requires
        at <= b@.len(),
    ensures
        match take_byte(b@.skip(at as int), byte) {
            Ok(rest) => found matches Ok(next) && at < next <= b@.len() && b@.skip(next as int)
                == rest,
            Err(stop) => found matches Err(e) && e == fault(b@.len(), stop),
        },
{
    if at >= b.len() {
        return Err(DecodeError::Malformed { offset: at, reason: Reason::Truncated });
    }
    if b[at] != byte {
        return Err(DecodeError::Malformed { offset: at, reason: Reason::Expected { byte } });
    }
    assert(b@.skip(at as int).skip(1) =~= b@.skip(at as int + 1));
    Ok(at + 1)
}

fn read_number(b: &[u8], at: usize) -> (found: Result<(u64, usize), DecodeError>)
    requires
        at <= b@.len(),
    ensures
        match take_number(b@.skip(at as int)) {
            Ok((n, rest)) => found matches Ok((m, next)) && m == n && at < next <= b@.len()
                && b@.skip(next as int) == rest,
            Err(stop) => found matches Err(e) && e == fault(b@.len(), stop),
        },
{
    if b.len() - at < 8 {
        return Err(DecodeError::Malformed { offset: at, reason: Reason::Truncated });
    }
    let n = u64_from_le_bytes(slice_subrange(b, at, at + 8));
    assert(b@.skip(at as int).take(8) =~= b@.subrange(at as int, at as int + 8));
    assert(b@.skip(at as int).skip(8) =~= b@.skip(at as int + 8));
    Ok((n, at + 8))
}

fn read_text(b: &[u8], at: usize) -> (found: Result<(String, usize), DecodeError>)
    requires
        at <= b@.len(),
    ensures
        match take_text(b@.skip(at as int)) {
            Ok((text, rest)) => found matches Ok((s, next)) && s@ == text && at < next <= b@.len()
                && b@.skip(next as int) == rest,
            Err(stop) => found matches Err(e) && e == fault(b@.len(), stop),
        },
{
    let (n, start) = match read_number(b, at) {
        Ok(found) => found,
        Err(e) => { return Err(e); },
    };
    if ((b.len() - start) as u64) < n {
        return Err(DecodeError::Malformed { offset: start, reason: Reason::Truncated });
    }
    let end = start + n as usize;
    let payload = slice_subrange(b, start, end);
    assert(b@.skip(start as int).take(n as int) =~= payload@);
    assert(b@.skip(start as int).skip(n as int) =~= b@.skip(end as int));
    match text_of(payload) {
        Some(s) => Ok((s, end)),
        None => Err(DecodeError::Malformed { offset: start, reason: Reason::Text }),
    }
}

fn read_texts(b: &[u8], at: usize) -> (found: Result<(Vec<String>, usize), DecodeError>)
    requires
        at <= b@.len(),
    ensures
        match take_texts(b@.skip(at as int)) {
            Ok((texts, rest)) => found matches Ok((list, next)) && list.deep_view() == texts && at
                < next <= b@.len() && b@.skip(next as int) == rest,
            Err(stop) => found matches Err(e) && e == fault(b@.len(), stop),
        },
{
    let ghost one = |r: Seq<u8>| take_text(r);
    let (count, start) = match read_number(b, at) {
        Ok(found) => found,
        Err(e) => { return Err(e); },
    };
    let mut list: Vec<String> = Vec::new();
    let mut cur = start;
    let mut i: u64 = 0;
    assert(list.deep_view() + Seq::<Seq<char>>::empty() =~= Seq::<Seq<char>>::empty());
    assert(list.deep_view() =~= Seq::<Seq<char>>::empty());
    proof {
        lemma_after_nothing(take_items(b@.skip(start as int), count as nat, one));
    }
    while i < count
        invariant
            i <= count,
            start <= cur <= b@.len(),
            one == |r: Seq<u8>| take_text(r),
            take_number(b@.skip(at as int)) == Ok::<(u64, Seq<u8>), Stop>(
                (count, b@.skip(start as int)),
            ),
            take_items(b@.skip(start as int), count as nat, one) == after(
                list.deep_view(),
                take_items(b@.skip(cur as int), (count - i) as nat, one),
            ),
        decreases count - i,
    {
        proof {
            lemma_items_next(list.deep_view(), b@.skip(cur as int), (count - i) as nat, one);
        }
        match read_text(b, cur) {
            Err(e) => { return Err(e); },
            Ok((s, next)) => {
                let ghost front = list.deep_view();
                let ghost text = s@;
                list.push(s);
                assert(list.deep_view() =~= front.push(text));
                cur = next;
            },
        }
        i += 1;
    }
    assert(list.deep_view() + Seq::<Seq<char>>::empty() =~= list.deep_view());
    Ok((list, cur))
}

fn read_names(b: &[u8], at: usize) -> (found: Result<(Vec<(String, String)>, usize), DecodeError>)
    requires
        at <= b@.len(),
    ensures
        match take_list(b@.skip(at as int), |r: Seq<u8>| take_name(r)) {
            Ok((entries, rest)) => found matches Ok((list, next)) && list.deep_view() == entries
                && at < next <= b@.len() && b@.skip(next as int) == rest,
            Err(stop) => found matches Err(e) && e == fault(b@.len(), stop),
        },
{
    let ghost one = |r: Seq<u8>| take_name(r);
    let (count, start) = match read_number(b, at) {
        Ok(found) => found,
        Err(e) => { return Err(e); },
    };
    let mut list: Vec<(String, String)> = Vec::new();
    let mut cur = start;
    let mut i: u64 = 0;
    assert(list.deep_view() =~= Seq::<(Seq<char>, Seq<char>)>::empty());
    proof {
        lemma_after_nothing(take_items(b@.skip(start as int), count as nat, one));
    }
    while i < count
        invariant
            i <= count,
            start <= cur <= b@.len(),
            one == |r: Seq<u8>| take_name(r),
            take_number(b@.skip(at as int)) == Ok::<(u64, Seq<u8>), Stop>(
                (count, b@.skip(start as int)),
            ),
            take_items(b@.skip(start as int), count as nat, one) == after(
                list.deep_view(),
                take_items(b@.skip(cur as int), (count - i) as nat, one),
            ),
        decreases count - i,
    {
        proof {
            lemma_items_next(list.deep_view(), b@.skip(cur as int), (count - i) as nat, one);
        }
        let (code, middle) = match read_text(b, cur) {
            Ok(found) => found,
            Err(e) => { return Err(e); },
        };
        let (name, next) = match read_text(b, middle) {
            Ok(found) => found,
            Err(e) => { return Err(e); },
        };
        let ghost front = list.deep_view();
        let ghost entry = (code@, name@);
        list.push((code, name));
        assert(list.deep_view() =~= front.push(entry));
        cur = next;
        i += 1;
    }
    assert(list.deep_view() + Seq::<(Seq<char>, Seq<char>)>::empty() =~= list.deep_view());
    Ok((list, cur))
}

fn read_keywords(b: &[u8], at: usize) -> (found: Result<
    (Vec<(String, Vec<String>)>, usize),
    DecodeError,
>)
    requires
        at <= b@.len(),
    ensures
        match take_list(b@.skip(at as int), |r: Seq<u8>| take_keywords(r)) {
            Ok((entries, rest)) => found matches Ok((list, next)) && list.deep_view() == entries
                && at < next <= b@.len() && b@.skip(next as int) == rest,
            Err(stop) => found matches Err(e) && e == fault(b@.len(), stop),
        },
{
    let ghost one = |r: Seq<u8>| take_keywords(r);
    let (count, start) = match read_number(b, at) {
        Ok(found) => found,
        Err(e) => { return Err(e); },
    };
    let mut list: Vec<(String, Vec<String>)> = Vec::new();
    let mut cur = start;
    let mut i: u64 = 0;
    assert(list.deep_view() =~= Seq::<(Seq<char>, Seq<Seq<char>>)>::empty());
    proof {
        lemma_after_nothing(take_items(b@.skip(start as int), count as nat, one));
    }
    while i < count
        invariant
            i <= count,
            start <= cur <= b@.len(),
            one == |r: Seq<u8>| take_keywords(r),
            take_number(b@.skip(at as int)) == Ok::<(u64, Seq<u8>), Stop>(
                (count, b@.skip(start as int)),
            ),
            take_items(b@.skip(start as int), count as nat, one) == after(
                list.deep_view(),
                take_items(b@.skip(cur as int), (count - i) as nat, one),
            ),
        decreases count - i,
    {
        proof {
            lemma_items_next(list.deep_view(), b@.skip(cur as int), (count - i) as nat, one);
        }
        let (code, middle) = match read_text(b, cur) {
            Ok(found) => found,
            Err(e) => { return Err(e); },
        };
        let (phrases, next) = match read_texts(b, middle) {
            Ok(found) => found,
            Err(e) => { return Err(e); },
        };
        let ghost front = list.deep_view();
        let ghost entry = (code@, phrases.deep_view());
        list.push((code, phrases));
        assert(list.deep_view() =~= front.push(entry));
        cur = next;
        i += 1;
    }
    assert(list.deep_view() + Seq::<(Seq<char>, Seq<Seq<char>>)>::empty() =~= list.deep_view());
    Ok((list, cur))
}

fn read_emoji(b: &[u8], at: usize) -> (found: Result<(Emoji, usize), DecodeError>)
    requires
        at <= b@.len(),
    ensures
        match take_emoji(b@.skip(at as int)) {
            Ok((emoji, rest)) => found matches Ok((read, next)) && read@ == emoji && at < next
                <= b@.len() && b@.skip(next as int) == rest,
            Err(stop) => found matches Err(e) && e == fault(b@.len(), stop),
        },
{
    let at1 = match read_byte(b, at, TAG_VALUE) {
        Ok(next) => next,
        Err(e) => { return Err(e); },
    };
    let (value, at2) = match read_text(b, at1) {
        Ok(found) => found,
        Err(e) => { return Err(e); },
    };
    let at3 = match read_byte(b, at2, TAG_NAME) {
        Ok(next) => next,
        Err(e) => { return Err(e); },
    };
    let (name, at4) = match read_names(b, at3) {
        Ok(found) => found,
        Err(e) => { return Err(e); },
    };
    let at5 = match read_byte(b, at4, TAG_KEYWORDS) {
        Ok(next) => next,
        Err(e) => { return Err(e); },
    };
    let (keywords, at6) = match read_keywords(b, at5) {
        Ok(found) => found,
        Err(e) => { return Err(e); },
    };
    let at7 = match read_byte(b, at6, TAG_SVG) {
        Ok(next) => next,
        Err(e) => { return Err(e); },
    };
    let (svg, at8) = match read_text(b, at7) {
        Ok(found) => found,
        Err(e) => { return Err(e); },
    };
    Ok((Emoji { value, name, keywords, svg, rank: 0 }, at8))
}

fn read_emojis(b: &[u8], at: usize) -> (found: Result<(Vec<Emoji>, usize), DecodeError>)
    requires
        at <= b@.len(),
    ensures
        match take_list(b@.skip(at as int), |r: Seq<u8>| take_emoji(r)) {
            Ok((emojis, rest)) => found matches Ok((list, next)) && views(list@) == emojis && at
                < next <= b@.len() && b@.skip(next as int) == rest,
            Err(stop) => found matches Err(e) && e == fault(b@.len(), stop),
        },
{
    let ghost one = |r: Seq<u8>| take_emoji(r);
    let (count, start) = match read_number(b, at) {
        Ok(found) => found,
        Err(e) => { return Err(e); },
    };
    let mut list: Vec<Emoji> = Vec::new();
    let mut cur = start;
    let mut i: u64 = 0;
    assert(views(list@) =~= Seq::<EmojiView>::empty());
    proof {
        lemma_after_nothing(take_items(b@.skip(start as int), count as nat, one));
    }
    while i < count
        invariant
            i <= count,
            start <= cur <= b@.len(),
            one == |r: Seq<u8>| take_emoji(r),
            take_number(b@.skip(at as int)) == Ok::<(u64, Seq<u8>), Stop>(
                (count, b@.skip(start as int)),
            ),
            take_items(b@.skip(start as int), count as nat, one) == after(
                views(list@),
                take_items(b@.skip(cur as int), (count - i) as nat, one),
            ),
        decreases count - i,
    {
        proof {
            lemma_items_next(views(list@), b@.skip(cur as int), (count - i) as nat, one);
        }
        let (emoji, next) = match read_emoji(b, cur) {
            Ok(found) => found,
            Err(e) => { return Err(e); },
        };
        let ghost front = views(list@);
        let ghost read = emoji@;
        list.push(emoji);
        assert(views(list@) =~= front.push(read));
        cur = next;
        i += 1;
    }
    assert(views(list@) + Seq::<EmojiView>::empty() =~= views(list@));
    Ok((list, cur))
}

/// What reading the stored form of an index gives: the index, or the error
/// with the place at which reading stopped.
pub open spec fn parsed(bytes: Seq<u8>) -> Result<IndexView, DecodeError> {
    match take_index(bytes) {
        Ok(index) => Ok(index),
        Err(stop) => Err(fault(bytes.len(), stop)),
    }
}

/// Reads an index from its stored form, as it is before compression. An
/// index comes out of nothing but its own stored form, and with every rank
/// at 0.
pub fn deserialize(bytes: &[u8]) -> (found: Result<Index, DecodeError>)
    ensures
        match parsed(bytes@) {
            Ok(index) => found matches Ok(read) && read@ == index,
            Err(error) => found matches Err(e) && e == error,
        },
        found matches Ok(read) ==> bytes@ == index_bytes(read@) && read@ == read@.unranked(),
{
    proof {
        lemma_index_taken(bytes@);
    }
    assert(bytes@.skip(0) =~= bytes@);
    let at1 = match read_byte(bytes, 0, VERSION) {
        Ok(next) => next,
        Err(e) => { return Err(e); },
    };
    let at2 = match read_byte(bytes, at1, TAG_EMOJIS) {
        Ok(next) => next,
        Err(e) => { return Err(e); },
    };
    let (emojis, at3) = match read_emojis(bytes, at2) {
        Ok(found) => found,
        Err(e) => { return Err(e); },
    };
    let at4 = match read_byte(bytes, at3, TAG_LOCALES) {
        Ok(next) => next,
        Err(e) => { return Err(e); },
    };
    let (locale_codes, at5) = match read_texts(bytes, at4) {
        Ok(found) => found,
        Err(e) => { return Err(e); },
    };
    if at5 < bytes.len() {
        return Err(DecodeError::Malformed { offset: at5, reason: Reason::Trailing });
    }
    Ok(Index { emojis, locale_codes })
}

} // verus!
