//! The stored form of an index, byte by byte.
//!
//! ```text
//! index    = VERSION  TAG_EMOJIS list(emoji)  TAG_LOCALES list(text)
//! emoji    = TAG_VALUE text  TAG_NAME list(text text)
//!            TAG_KEYWORDS list(text list(text))  TAG_SVG text
//! list(x)  = number  x ... x        the number says how many
//! text     = number  bytes          the number says how many bytes; UTF-8
//! number   = 8 bytes, low byte first
//! ```
//!
//! Every field is announced by its tag, so a reader notices at once when it
//! is handed a field it did not expect. A rank is not stored: a record that
//! is read has rank 0.
//!
//! The functions named `take_..` say what a reader finds at the start of some
//! bytes: the item and the bytes behind it, or why and where it stopped.

use vstd::prelude::*;
use vstd::bytes::*;
use vstd::utf8::*;
use crate::emoji::EmojiView;
use crate::index::IndexView;

verus! {

/// The first byte of a stored index.
pub const VERSION: u8 = 1;

/// Announces the list of records.
pub const TAG_EMOJIS: u8 = 0x01;

/// Announces the list of locale codes.
pub const TAG_LOCALES: u8 = 0x02;

/// Announces the character of a record.
pub const TAG_VALUE: u8 = 0x10;

/// Announces the names of a record.
pub const TAG_NAME: u8 = 0x11;

/// Announces the keywords of a record.
pub const TAG_KEYWORDS: u8 = 0x12;

/// Announces the picture of a record.
pub const TAG_SVG: u8 = 0x13;

/// Why a reader stopped.
#[derive(Clone, Copy, Debug, PartialEq, Eq, Structural)]
pub enum Reason {
    /// The bytes end before the item is complete.
    Truncated,
    /// Another byte stands where this version or tag was expected.
    Expected { byte: u8 },
    /// The bytes of a text are not UTF-8.
    Text,
    /// Bytes follow the end of the index.
    Trailing,
}

/// Where a reader stopped: why, and how many bytes it had left then.
pub struct Stop {
    pub reason: Reason,
    pub left: nat,
}

// ---------------------------------------------------------------- writing

/// A number as 8 bytes, low byte first.
pub open spec fn number_bytes(n: u64) -> Seq<u8> {
    spec_u64_to_le_bytes(n)
}

/// A text: the number of its bytes, then the bytes.
pub open spec fn text_bytes(text: Seq<char>) -> Seq<u8> {
    number_bytes(encode_utf8(text).len() as u64) + encode_utf8(text)
}

/// The items of a list, one after the other, each in the given form.
pub open spec fn items_bytes<T>(items: Seq<T>, form: spec_fn(T) -> Seq<u8>) -> Seq<u8>
    decreases items.len(),
{
    if items.len() == 0 {
        Seq::empty()
    } else {
        form(items[0]) + items_bytes(items.drop_first(), form)
    }
}

/// A list: the number of its items, then the items.
pub open spec fn list_bytes<T>(items: Seq<T>, form: spec_fn(T) -> Seq<u8>) -> Seq<u8> {
    number_bytes(items.len() as u64) + items_bytes(items, form)
}

/// A list of texts.
pub open spec fn texts_bytes(texts: Seq<Seq<char>>) -> Seq<u8> {
    list_bytes(texts, |text: Seq<char>| text_bytes(text))
}

/// One name of a record: the locale code, then the name.
pub open spec fn name_bytes(entry: (Seq<char>, Seq<char>)) -> Seq<u8> {
    text_bytes(entry.0) + text_bytes(entry.1)
}

/// The keywords of a record in one locale: the locale code, then the phrases.
pub open spec fn keywords_bytes(entry: (Seq<char>, Seq<Seq<char>>)) -> Seq<u8> {
    text_bytes(entry.0) + texts_bytes(entry.1)
}

/// A field: its tag, then what it holds.
pub open spec fn field_bytes(tag: u8, content: Seq<u8>) -> Seq<u8> {
    seq![tag] + content
}

/// One record, without its rank.
pub open spec fn emoji_bytes(emoji: EmojiView) -> Seq<u8> {
    field_bytes(TAG_VALUE, text_bytes(emoji.value)) + field_bytes(
        TAG_NAME,
        list_bytes(emoji.name, |entry: (Seq<char>, Seq<char>)| name_bytes(entry)),
    ) + field_bytes(
        TAG_KEYWORDS,
        list_bytes(emoji.keywords, |entry: (Seq<char>, Seq<Seq<char>>)| keywords_bytes(entry)),
    ) + field_bytes(TAG_SVG, text_bytes(emoji.svg))
}

/// A whole index.
pub open spec fn index_bytes(index: IndexView) -> Seq<u8> {
    seq![VERSION] + field_bytes(
        TAG_EMOJIS,
        list_bytes(index.emojis, |emoji: EmojiView| emoji_bytes(emoji)),
    ) + field_bytes(TAG_LOCALES, texts_bytes(index.locale_codes))
}

// ---------------------------------------------------------------- reading

/// Reads one byte, which must be `byte`.
pub open spec fn take_byte(s: Seq<u8>, byte: u8) -> Result<Seq<u8>, Stop> {
    if s.len() == 0 {
        Err(Stop { reason: Reason::Truncated, left: 0 })
    } else if s[0] != byte {
        Err(Stop { reason: Reason::Expected { byte }, left: s.len() })
    } else {
        Ok(s.skip(1))
    }
}

/// Reads a number.
pub open spec fn take_number(s: Seq<u8>) -> Result<(u64, Seq<u8>), Stop> {
    if s.len() < 8 {
        Err(Stop { reason: Reason::Truncated, left: s.len() })
    } else {
        Ok((spec_u64_from_le_bytes(s.take(8)), s.skip(8)))
    }
}

/// Reads a text.
pub open spec fn take_text(s: Seq<u8>) -> Result<(Seq<char>, Seq<u8>), Stop> {
    match take_number(s) {
        Err(stop) => Err(stop),
        Ok((n, rest)) => if rest.len() < n {
            Err(Stop { reason: Reason::Truncated, left: rest.len() })
        } else if !valid_utf8(rest.take(n as int)) {
            Err(Stop { reason: Reason::Text, left: rest.len() })
        } else {
            Ok((decode_utf8(rest.take(n as int)), rest.skip(n as int)))
        },
    }
}

/// Reads `count` items, each as `one` reads it.
pub open spec fn take_items<T>(
    s: Seq<u8>,
    count: nat,
    one: spec_fn(Seq<u8>) -> Result<(T, Seq<u8>), Stop>,
) -> Result<(Seq<T>, Seq<u8>), Stop>
    decreases count,
{
    if count == 0 {
        Ok((Seq::empty(), s))
    } else {
        match one(s) {
            Err(stop) => Err(stop),
            Ok((first, rest)) => match take_items(rest, (count - 1) as nat, one) {
                Err(stop) => Err(stop),
                Ok((others, behind)) => Ok((seq![first] + others, behind)),
            },
        }
    }
}

/// Reads a list: the number of its items, then the items.
pub open spec fn take_list<T>(
    s: Seq<u8>,
    one: spec_fn(Seq<u8>) -> Result<(T, Seq<u8>), Stop>,
) -> Result<(Seq<T>, Seq<u8>), Stop> {
    match take_number(s) {
        Err(stop) => Err(stop),
        Ok((n, rest)) => take_items(rest, n as nat, one),
    }
}

/// Reads a list of texts.
pub open spec fn take_texts(s: Seq<u8>) -> Result<(Seq<Seq<char>>, Seq<u8>), Stop> {
    take_list(s, |r: Seq<u8>| take_text(r))
}

/// Reads one name of a record.
pub open spec fn take_name(s: Seq<u8>) -> Result<((Seq<char>, Seq<char>), Seq<u8>), Stop> {
    match take_text(s) {
        Err(stop) => Err(stop),
        Ok((code, rest)) => match take_text(rest) {
            Err(stop) => Err(stop),
            Ok((name, behind)) => Ok(((code, name), behind)),
        },
    }
}

/// Reads the keywords of a record in one locale.
pub open spec fn take_keywords(s: Seq<u8>) -> Result<
    ((Seq<char>, Seq<Seq<char>>), Seq<u8>),
    Stop,
> {
    match take_text(s) {
        Err(stop) => Err(stop),
        Ok((code, rest)) => match take_texts(rest) {
            Err(stop) => Err(stop),
            Ok((phrases, behind)) => Ok(((code, phrases), behind)),
        },
    }
}

/// Reads a tag and the text behind it.
pub open spec fn take_tagged_text(s: Seq<u8>, tag: u8) -> Result<(Seq<char>, Seq<u8>), Stop> {
    match take_byte(s, tag) {
        Err(stop) => Err(stop),
        Ok(rest) => take_text(rest),
    }
}

/// Reads a tag and the list behind it.
pub open spec fn take_tagged_list<T>(
    s: Seq<u8>,
    tag: u8,
    one: spec_fn(Seq<u8>) -> Result<(T, Seq<u8>), Stop>,
) -> Result<(Seq<T>, Seq<u8>), Stop> {
    match take_byte(s, tag) {
        Err(stop) => Err(stop),
        Ok(rest) => take_list(rest, one),
    }
}

/// Reads one record.
pub open spec fn take_emoji(s: Seq<u8>) -> Result<(EmojiView, Seq<u8>), Stop> {
    match take_tagged_text(s, TAG_VALUE) {
        Err(stop) => Err(stop),
        Ok((value, s1)) => match take_tagged_list(s1, TAG_NAME, |r: Seq<u8>| take_name(r)) {
            Err(stop) => Err(stop),
            Ok((name, s2)) => match take_tagged_list(
                s2,
                TAG_KEYWORDS,
                |r: Seq<u8>| take_keywords(r),
            ) {
                Err(stop) => Err(stop),
                Ok((keywords, s3)) => match take_tagged_text(s3, TAG_SVG) {
                    Err(stop) => Err(stop),
                    Ok((svg, s4)) => Ok(
                        (EmojiView { value, name, keywords, svg, rank: 0 }, s4),
                    ),
                },
            },
        },
    }
}

/// Reads a whole index, which must end where the bytes end.
pub open spec fn take_index(s: Seq<u8>) -> Result<IndexView, Stop> {
    match take_byte(s, VERSION) {
        Err(stop) => Err(stop),
        Ok(s1) => match take_tagged_list(s1, TAG_EMOJIS, |r: Seq<u8>| take_emoji(r)) {
            Err(stop) => Err(stop),
            Ok((emojis, s2)) => match take_tagged_list(
                s2,
                TAG_LOCALES,
                |r: Seq<u8>| take_text(r),
            ) {
                Err(stop) => Err(stop),
                Ok((locale_codes, s3)) => if s3.len() > 0 {
                    Err(Stop { reason: Reason::Trailing, left: s3.len() })
                } else {
                    Ok(IndexView { emojis, locale_codes })
                },
            },
        },
    }
}

} // verus!
