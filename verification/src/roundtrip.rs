//! What was written is read back, and what is read was written so: the
//! proofs, item by item.

use vstd::prelude::*;
use vstd::bytes::*;
use vstd::utf8::*;
use crate::emoji::EmojiView;
use crate::format::{
    emoji_bytes, field_bytes, index_bytes, items_bytes, keywords_bytes, list_bytes, name_bytes,
    number_bytes,
    take_byte, take_emoji, take_index, take_items, take_keywords, take_list, take_name,
    take_number, take_tagged_list, take_tagged_text, take_text, take_texts, text_bytes,
    texts_bytes, Stop, TAG_EMOJIS, TAG_KEYWORDS, TAG_LOCALES, TAG_NAME, TAG_SVG, TAG_VALUE,
    VERSION,
};
use crate::index::IndexView;

verus! {

/// A text whose byte count fits the number that announces it.
pub open spec fn text_fits(text: Seq<char>) -> bool {
    encode_utf8(text).len() <= u64::MAX
}

/// A list of texts whose counts all fit.
pub open spec fn texts_fit(texts: Seq<Seq<char>>) -> bool {
    &&& texts.len() <= u64::MAX
    &&& forall|i: int| 0 <= i < texts.len() ==> text_fits(#[trigger] texts[i])
}

/// A record whose counts all fit.
pub open spec fn emoji_fits(emoji: EmojiView) -> bool {
    &&& text_fits(emoji.value)
    &&& text_fits(emoji.svg)
    &&& emoji.name.len() <= u64::MAX
    &&& forall|i: int|
        0 <= i < emoji.name.len() ==> text_fits((#[trigger] emoji.name[i]).0) && text_fits(
            emoji.name[i].1,
        )
    &&& emoji.keywords.len() <= u64::MAX
    &&& forall|i: int|
        0 <= i < emoji.keywords.len() ==> text_fits((#[trigger] emoji.keywords[i]).0)
            && texts_fit(emoji.keywords[i].1)
}

/// An index whose counts all fit: one that a machine can hold.
pub open spec fn index_fits(index: IndexView) -> bool {
    &&& index.emojis.len() <= u64::MAX
    &&& forall|i: int| 0 <= i < index.emojis.len() ==> emoji_fits(#[trigger] index.emojis[i])
    &&& texts_fit(index.locale_codes)
}

/// `one` reads `item` back from its form, whatever follows.
pub open spec fn reads_back<T>(
    item: T,
    back: T,
    form: spec_fn(T) -> Seq<u8>,
    one: spec_fn(Seq<u8>) -> Result<(T, Seq<u8>), Stop>,
) -> bool {
    forall|rest: Seq<u8>| #[trigger] one(form(item) + rest) == Ok::<(T, Seq<u8>), Stop>((back, rest))
}

/// Three runs of bytes, one behind the other, in either grouping.
pub proof fn lemma_join(a: Seq<u8>, b: Seq<u8>, c: Seq<u8>)
    ensures
        a + b + c == a + (b + c),
{
    assert(a + b + c =~= a + (b + c));
}

pub proof fn lemma_take_byte(byte: u8, rest: Seq<u8>)
    ensures
        take_byte(seq![byte] + rest, byte) == Ok::<Seq<u8>, Stop>(rest),
{
    assert((seq![byte] + rest).skip(1) =~= rest);
}

pub proof fn lemma_take_number(n: u64, rest: Seq<u8>)
    ensures
        take_number(number_bytes(n) + rest) == Ok::<(u64, Seq<u8>), Stop>((n, rest)),
{
    lemma_auto_spec_u64_to_from_le_bytes();
    let s = number_bytes(n) + rest;
    assert(s.take(8) =~= number_bytes(n));
    assert(s.skip(8) =~= rest);
}

pub proof fn lemma_take_text(text: Seq<char>, rest: Seq<u8>)
    requires
        text_fits(text),
    ensures
        take_text(text_bytes(text) + rest) == Ok::<(Seq<char>, Seq<u8>), Stop>((text, rest)),
{
    broadcast use {encode_utf8_decode_utf8, encode_utf8_valid_utf8};

    let bytes = encode_utf8(text);
    let n = bytes.len() as u64;
    assert(text_bytes(text) + rest =~= number_bytes(n) + (bytes + rest));
    lemma_take_number(n, bytes + rest);
    assert((bytes + rest).take(n as int) =~= bytes);
    assert((bytes + rest).skip(n as int) =~= rest);
}

/// A list whose items are each read back is read back whole.
pub proof fn lemma_take_items<T>(
    items: Seq<T>,
    backs: Seq<T>,
    form: spec_fn(T) -> Seq<u8>,
    one: spec_fn(Seq<u8>) -> Result<(T, Seq<u8>), Stop>,
    rest: Seq<u8>,
)
    requires
        items.len() == backs.len(),
        forall|i: int| 0 <= i < items.len() ==> reads_back(items[i], backs[i], form, one),
    ensures
        take_items(items_bytes(items, form) + rest, items.len(), one) == Ok::<
            (Seq<T>, Seq<u8>),
            Stop,
        >((backs, rest)),
    decreases items.len(),
{
    if items.len() == 0 {
        assert(items_bytes(items, form) + rest =~= rest);
        assert(backs =~= Seq::<T>::empty());
    } else {
        let tail = items_bytes(items.drop_first(), form) + rest;
        assert(items_bytes(items, form) + rest =~= form(items[0]) + tail);
        assert(reads_back(items[0], backs[0], form, one));
        assert(one(form(items[0]) + tail) == Ok::<(T, Seq<u8>), Stop>((backs[0], tail)));
        assert forall|i: int| 0 <= i < items.drop_first().len() implies reads_back(
            items.drop_first()[i],
            backs.drop_first()[i],
            form,
            one,
        ) by {
            assert(reads_back(items[i + 1], backs[i + 1], form, one));
        }
        lemma_take_items(items.drop_first(), backs.drop_first(), form, one, rest);
        assert(seq![backs[0]] + backs.drop_first() =~= backs);
    }
}

/// A list of at most 2^64 - 1 items, each read back, is read back whole.
pub proof fn lemma_take_list<T>(
    items: Seq<T>,
    backs: Seq<T>,
    form: spec_fn(T) -> Seq<u8>,
    one: spec_fn(Seq<u8>) -> Result<(T, Seq<u8>), Stop>,
    rest: Seq<u8>,
)
    requires
        items.len() <= u64::MAX,
        items.len() == backs.len(),
        forall|i: int| 0 <= i < items.len() ==> reads_back(items[i], backs[i], form, one),
    ensures
        take_list(list_bytes(items, form) + rest, one) == Ok::<(Seq<T>, Seq<u8>), Stop>(
            (backs, rest),
        ),
{
    let n = items.len() as u64;
    assert(list_bytes(items, form) + rest =~= number_bytes(n) + (items_bytes(items, form) + rest));
    lemma_take_number(n, items_bytes(items, form) + rest);
    lemma_take_items(items, backs, form, one, rest);
}

pub proof fn lemma_take_texts(texts: Seq<Seq<char>>, rest: Seq<u8>)
    requires
        texts_fit(texts),
    ensures
        take_texts(texts_bytes(texts) + rest) == Ok::<(Seq<Seq<char>>, Seq<u8>), Stop>(
            (texts, rest),
        ),
{
    let form = |text: Seq<char>| text_bytes(text);
    let one = |r: Seq<u8>| take_text(r);
    assert forall|i: int| 0 <= i < texts.len() implies reads_back(
        texts[i],
        texts[i],
        form,
        one,
    ) by {
        assert forall|r: Seq<u8>| #[trigger] one(form(texts[i]) + r) == Ok::<
            (Seq<char>, Seq<u8>),
            Stop,
        >((texts[i], r)) by {
            lemma_take_text(texts[i], r);
        }
    }
    lemma_take_list(texts, texts, form, one, rest);
}

pub proof fn lemma_take_name(entry: (Seq<char>, Seq<char>), rest: Seq<u8>)
    requires
        text_fits(entry.0),
        text_fits(entry.1),
    ensures
        take_name(name_bytes(entry) + rest) == Ok::<((Seq<char>, Seq<char>), Seq<u8>), Stop>(
            (entry, rest),
        ),
{
    assert(name_bytes(entry) + rest =~= text_bytes(entry.0) + (text_bytes(entry.1) + rest));
    lemma_take_text(entry.0, text_bytes(entry.1) + rest);
    lemma_take_text(entry.1, rest);
}

pub proof fn lemma_take_keywords(entry: (Seq<char>, Seq<Seq<char>>), rest: Seq<u8>)
    requires
        text_fits(entry.0),
        texts_fit(entry.1),
    ensures
        take_keywords(keywords_bytes(entry) + rest) == Ok::<
            ((Seq<char>, Seq<Seq<char>>), Seq<u8>),
            Stop,
        >((entry, rest)),
{
    assert(keywords_bytes(entry) + rest =~= text_bytes(entry.0) + (texts_bytes(entry.1) + rest));
    lemma_take_text(entry.0, texts_bytes(entry.1) + rest);
    lemma_take_texts(entry.1, rest);
}

pub proof fn lemma_take_tagged_text(tag: u8, text: Seq<char>, rest: Seq<u8>)
    requires
        text_fits(text),
    ensures
        take_tagged_text(field_bytes(tag, text_bytes(text)) + rest, tag) == Ok::<
            (Seq<char>, Seq<u8>),
            Stop,
        >((text, rest)),
{
    lemma_join(seq![tag], text_bytes(text), rest);
    lemma_take_byte(tag, text_bytes(text) + rest);
    lemma_take_text(text, rest);
}

pub proof fn lemma_take_tagged_list<T>(
    tag: u8,
    items: Seq<T>,
    backs: Seq<T>,
    form: spec_fn(T) -> Seq<u8>,
    one: spec_fn(Seq<u8>) -> Result<(T, Seq<u8>), Stop>,
    rest: Seq<u8>,
)
    requires
        items.len() <= u64::MAX,
        items.len() == backs.len(),
        forall|i: int| 0 <= i < items.len() ==> reads_back(items[i], backs[i], form, one),
    ensures
        take_tagged_list(field_bytes(tag, list_bytes(items, form)) + rest, tag, one) == Ok::<
            (Seq<T>, Seq<u8>),
            Stop,
        >((backs, rest)),
{
    lemma_join(seq![tag], list_bytes(items, form), rest);
    lemma_take_byte(tag, list_bytes(items, form) + rest);
    lemma_take_list(items, backs, form, one, rest);
}

/// Every name that fits is read back.
pub proof fn lemma_names_read_back(entries: Seq<(Seq<char>, Seq<char>)>)
    requires
        forall|i: int|
            0 <= i < entries.len() ==> text_fits((#[trigger] entries[i]).0) && text_fits(
                entries[i].1,
            ),
    ensures
        forall|i: int|
            0 <= i < entries.len() ==> reads_back(
                #[trigger] entries[i],
                entries[i],
                |entry: (Seq<char>, Seq<char>)| name_bytes(entry),
                |r: Seq<u8>| take_name(r),
            ),
{
    let form = |entry: (Seq<char>, Seq<char>)| name_bytes(entry);
    let one = |r: Seq<u8>| take_name(r);
    assert forall|i: int| 0 <= i < entries.len() implies reads_back(
        #[trigger] entries[i],
        entries[i],
        form,
        one,
    ) by {
        assert forall|r: Seq<u8>| #[trigger] one(form(entries[i]) + r) == Ok::<
            ((Seq<char>, Seq<char>), Seq<u8>),
            Stop,
        >((entries[i], r)) by {
            lemma_take_name(entries[i], r);
        }
    }
}

/// All keywords that fit are read back.
pub proof fn lemma_keywords_read_back(entries: Seq<(Seq<char>, Seq<Seq<char>>)>)
    requires
        forall|i: int|
            0 <= i < entries.len() ==> text_fits((#[trigger] entries[i]).0) && texts_fit(
                entries[i].1,
            ),
    ensures
        forall|i: int|
            0 <= i < entries.len() ==> reads_back(
                #[trigger] entries[i],
                entries[i],
                |entry: (Seq<char>, Seq<Seq<char>>)| keywords_bytes(entry),
                |r: Seq<u8>| take_keywords(r),
            ),
{
    let form = |entry: (Seq<char>, Seq<Seq<char>>)| keywords_bytes(entry);
    let one = |r: Seq<u8>| take_keywords(r);
    assert forall|i: int| 0 <= i < entries.len() implies reads_back(
        #[trigger] entries[i],
        entries[i],
        form,
        one,
    ) by {
        assert forall|r: Seq<u8>| #[trigger] one(form(entries[i]) + r) == Ok::<
            ((Seq<char>, Seq<Seq<char>>), Seq<u8>),
            Stop,
        >((entries[i], r)) by {
            lemma_take_keywords(entries[i], r);
        }
    }
}

/// A record is read back as it was written, with rank 0.
pub proof fn lemma_take_emoji(emoji: EmojiView, rest: Seq<u8>)
    requires
        emoji_fits(emoji),
    ensures
        take_emoji(emoji_bytes(emoji) + rest) == Ok::<(EmojiView, Seq<u8>), Stop>(
            (emoji.with_rank(0), rest),
        ),
{
    let name_form = |entry: (Seq<char>, Seq<char>)| name_bytes(entry);
    let name_one = |r: Seq<u8>| take_name(r);
    let keywords_form = |entry: (Seq<char>, Seq<Seq<char>>)| keywords_bytes(entry);
    let keywords_one = |r: Seq<u8>| take_keywords(r);
    let f1 = field_bytes(TAG_VALUE, text_bytes(emoji.value));
    let f2 = field_bytes(TAG_NAME, list_bytes(emoji.name, name_form));
    let f3 = field_bytes(TAG_KEYWORDS, list_bytes(emoji.keywords, keywords_form));
    let f4 = field_bytes(TAG_SVG, text_bytes(emoji.svg));
    let s3 = f4 + rest;
    let s2 = f3 + s3;
    let s1 = f2 + s2;
    let s0 = f1 + s1;
    assert(emoji_bytes(emoji) + rest == s0) by {
        lemma_join(f1 + f2 + f3, f4, rest);
        lemma_join(f1 + f2, f3, s3);
        lemma_join(f1, f2, s2);
    }
    lemma_take_tagged_text(TAG_VALUE, emoji.value, s1);
    lemma_names_read_back(emoji.name);
    lemma_take_tagged_list(TAG_NAME, emoji.name, emoji.name, name_form, name_one, s2);
    lemma_keywords_read_back(emoji.keywords);
    lemma_take_tagged_list(
        TAG_KEYWORDS,
        emoji.keywords,
        emoji.keywords,
        keywords_form,
        keywords_one,
        s3,
    );
    lemma_take_tagged_text(TAG_SVG, emoji.svg, rest);
}

/// An index is read back as it was written, with every rank at 0.
pub proof fn lemma_take_index(index: IndexView)
    requires
        index_fits(index),
    ensures
        take_index(index_bytes(index)) == Ok::<IndexView, Stop>(index.unranked()),
{
    let emoji_form = |emoji: EmojiView| emoji_bytes(emoji);
    let emoji_one = |r: Seq<u8>| take_emoji(r);
    let text_form = |text: Seq<char>| text_bytes(text);
    let text_one = |r: Seq<u8>| take_text(r);
    let f1 = field_bytes(TAG_EMOJIS, list_bytes(index.emojis, emoji_form));
    let f2 = field_bytes(TAG_LOCALES, texts_bytes(index.locale_codes));
    let s3 = Seq::<u8>::empty();
    let s2 = f2 + s3;
    let s1 = f1 + s2;
    assert(index_bytes(index) == seq![VERSION] + s1) by {
        assert(f2 + s3 =~= f2);
        lemma_join(seq![VERSION], f1, f2);
    }
    lemma_take_byte(VERSION, s1);
    let backs = index.unranked().emojis;
    assert forall|i: int| 0 <= i < index.emojis.len() implies reads_back(
        index.emojis[i],
        backs[i],
        emoji_form,
        emoji_one,
    ) by {
        assert forall|r: Seq<u8>| #[trigger] emoji_one(emoji_form(index.emojis[i]) + r) == Ok::<
            (EmojiView, Seq<u8>),
            Stop,
        >((backs[i], r)) by {
            lemma_take_emoji(index.emojis[i], r);
        }
    }
    lemma_take_tagged_list(TAG_EMOJIS, index.emojis, backs, emoji_form, emoji_one, s2);
    assert forall|i: int| 0 <= i < index.locale_codes.len() implies reads_back(
        index.locale_codes[i],
        index.locale_codes[i],
        text_form,
        text_one,
    ) by {
        assert forall|r: Seq<u8>| #[trigger]
            text_one(text_form(index.locale_codes[i]) + r) == Ok::<(Seq<char>, Seq<u8>), Stop>(
                (index.locale_codes[i], r),
            ) by {
            lemma_take_text(index.locale_codes[i], r);
        }
    }
    lemma_take_tagged_list(
        TAG_LOCALES,
        index.locale_codes,
        index.locale_codes,
        text_form,
        text_one,
        s3,
    );
}

// ------------------------------------------------ what is read was written

/// What `one` reads is what `form` writes: whenever it reads an item, the
/// bytes that it read are the form of that item.
#[verifier::opaque]
pub open spec fn reads_only<T>(
    form: spec_fn(T) -> Seq<u8>,
    one: spec_fn(Seq<u8>) -> Result<(T, Seq<u8>), Stop>,
) -> bool {
    forall|s: Seq<u8>| written(s, form, #[trigger] one(s))
}

/// If an item was found in `s`, then `s` is the form of that item and what
/// was left behind it.
pub open spec fn written<T>(
    s: Seq<u8>,
    form: spec_fn(T) -> Seq<u8>,
    found: Result<(T, Seq<u8>), Stop>,
) -> bool {
    match found {
        Ok((item, rest)) => s == form(item) + rest,
        Err(_) => true,
    }
}

pub proof fn lemma_byte_taken(s: Seq<u8>, byte: u8)
    ensures
        take_byte(s, byte) matches Ok(rest) ==> s == seq![byte] + rest,
{
    if take_byte(s, byte) is Ok {
        assert(s =~= seq![byte] + s.skip(1));
    }
}

pub proof fn lemma_number_taken(s: Seq<u8>)
    ensures
        take_number(s) matches Ok((n, rest)) ==> s == number_bytes(n) + rest,
{
    if take_number(s) is Ok {
        lemma_auto_spec_u64_to_from_le_bytes();
        assert(spec_u64_to_le_bytes(spec_u64_from_le_bytes(s.take(8))) == s.take(8));
        assert(s =~= s.take(8) + s.skip(8));
    }
}

pub proof fn lemma_text_taken(s: Seq<u8>)
    ensures
        take_text(s) matches Ok((text, rest)) ==> s == text_bytes(text) + rest && text_fits(text),
{
    broadcast use decode_utf8_encode_utf8;

    match take_text(s) {
        Ok((text, rest)) => {
            lemma_number_taken(s);
            let (n, behind) = take_number(s)->Ok_0;
            let payload = behind.take(n as int);
            assert(encode_utf8(decode_utf8(payload)) == payload);
            assert(behind =~= payload + rest);
            assert(s =~= text_bytes(text) + rest);
        },
        Err(_) => {},
    }
}

/// A list that was read item by item was written item by item.
pub proof fn lemma_items_taken<T>(
    s: Seq<u8>,
    count: nat,
    form: spec_fn(T) -> Seq<u8>,
    one: spec_fn(Seq<u8>) -> Result<(T, Seq<u8>), Stop>,
)
    requires
        reads_only(form, one),
    ensures
        take_items(s, count, one) matches Ok((items, rest)) ==> items.len() == count && s
            == items_bytes(items, form) + rest,
    decreases count,
{
    if count == 0 {
        assert(items_bytes(Seq::<T>::empty(), form) + s =~= s);
    } else {
        assert(written(s, form, one(s))) by {
            reveal(reads_only);
        }
        match one(s) {
            Ok((first, behind)) => {
                lemma_items_taken(behind, (count - 1) as nat, form, one);
                match take_items(behind, (count - 1) as nat, one) {
                    Ok((others, rest)) => {
                        let items = seq![first] + others;
                        assert(items.drop_first() =~= others);
                        assert(s =~= items_bytes(items, form) + rest);
                    },
                    Err(_) => {},
                }
            },
            Err(_) => {},
        }
    }
}

pub proof fn lemma_list_taken<T>(
    s: Seq<u8>,
    form: spec_fn(T) -> Seq<u8>,
    one: spec_fn(Seq<u8>) -> Result<(T, Seq<u8>), Stop>,
)
    requires
        reads_only(form, one),
    ensures
        take_list(s, one) matches Ok((items, rest)) ==> items.len() <= u64::MAX && s == list_bytes(
            items,
            form,
        ) + rest,
{
    match take_number(s) {
        Ok((n, behind)) => {
            lemma_number_taken(s);
            lemma_items_taken(behind, n as nat, form, one);
            match take_items(behind, n as nat, one) {
                Ok((items, rest)) => {
                    assert(s =~= list_bytes(items, form) + rest);
                },
                Err(_) => {},
            }
        },
        Err(_) => {},
    }
}

pub proof fn lemma_texts_read_only()
    ensures
        reads_only(|text: Seq<char>| text_bytes(text), |r: Seq<u8>| take_text(r)),
{
    let form = |text: Seq<char>| text_bytes(text);
    let one = |r: Seq<u8>| take_text(r);
    assert forall|s: Seq<u8>| written(s, form, #[trigger] one(s)) by {
        lemma_text_taken(s);
    }
    reveal(reads_only);
}

pub proof fn lemma_texts_taken(s: Seq<u8>)
    ensures
        take_texts(s) matches Ok((texts, rest)) ==> s == texts_bytes(texts) + rest,
{
    lemma_texts_read_only();
    lemma_list_taken(s, |text: Seq<char>| text_bytes(text), |r: Seq<u8>| take_text(r));
}

pub proof fn lemma_names_read_only()
    ensures
        reads_only(
            |entry: (Seq<char>, Seq<char>)| name_bytes(entry),
            |r: Seq<u8>| take_name(r),
        ),
{
    let form = |entry: (Seq<char>, Seq<char>)| name_bytes(entry);
    let one = |r: Seq<u8>| take_name(r);
    assert forall|s: Seq<u8>| written(s, form, #[trigger] one(s)) by {
        lemma_text_taken(s);
        match take_text(s) {
            Ok((code, behind)) => {
                lemma_text_taken(behind);
                match take_text(behind) {
                    Ok((name, rest)) => {
                        assert(s =~= name_bytes((code, name)) + rest);
                    },
                    Err(_) => {},
                }
            },
            Err(_) => {},
        }
    }
    reveal(reads_only);
}

pub proof fn lemma_keywords_read_only()
    ensures
        reads_only(
            |entry: (Seq<char>, Seq<Seq<char>>)| keywords_bytes(entry),
            |r: Seq<u8>| take_keywords(r),
        ),
{
    let form = |entry: (Seq<char>, Seq<Seq<char>>)| keywords_bytes(entry);
    let one = |r: Seq<u8>| take_keywords(r);
    assert forall|s: Seq<u8>| written(s, form, #[trigger] one(s)) by {
        lemma_text_taken(s);
        match take_text(s) {
            Ok((code, behind)) => {
                lemma_texts_taken(behind);
                match take_texts(behind) {
                    Ok((phrases, rest)) => {
                        assert(s =~= keywords_bytes((code, phrases)) + rest);
                    },
                    Err(_) => {},
                }
            },
            Err(_) => {},
        }
    }
    reveal(reads_only);
}

pub proof fn lemma_emoji_taken(s: Seq<u8>)
    ensures
        take_emoji(s) matches Ok((emoji, rest)) ==> s == emoji_bytes(emoji) + rest && emoji.rank
            == 0,
{
    let name_form = |entry: (Seq<char>, Seq<char>)| name_bytes(entry);
    let name_one = |r: Seq<u8>| take_name(r);
    let keywords_form = |entry: (Seq<char>, Seq<Seq<char>>)| keywords_bytes(entry);
    let keywords_one = |r: Seq<u8>| take_keywords(r);
    lemma_names_read_only();
    lemma_keywords_read_only();
    lemma_tagged_text_taken(s, TAG_VALUE);
    match take_tagged_text(s, TAG_VALUE) {
        Ok((value, s1)) => {
            lemma_tagged_list_taken(s1, TAG_NAME, name_form, name_one);
            match take_tagged_list(s1, TAG_NAME, name_one) {
                Ok((name, s2)) => {
                    lemma_tagged_list_taken(s2, TAG_KEYWORDS, keywords_form, keywords_one);
                    match take_tagged_list(s2, TAG_KEYWORDS, keywords_one) {
                        Ok((keywords, s3)) => {
                            lemma_tagged_text_taken(s3, TAG_SVG);
                            match take_tagged_text(s3, TAG_SVG) {
                                Ok((svg, s4)) => {
                                    let f1 = field_bytes(TAG_VALUE, text_bytes(value));
                                    let f2 = field_bytes(TAG_NAME, list_bytes(name, name_form));
                                    let f3 = field_bytes(
                                        TAG_KEYWORDS,
                                        list_bytes(keywords, keywords_form),
                                    );
                                    let f4 = field_bytes(TAG_SVG, text_bytes(svg));
                                    lemma_join(f1 + f2 + f3, f4, s4);
                                    lemma_join(f1 + f2, f3, s3);
                                    lemma_join(f1, f2, s2);
                                },
                                Err(_) => {},
                            }
                        },
                        Err(_) => {},
                    }
                },
                Err(_) => {},
            }
        },
        Err(_) => {},
    }
}

pub proof fn lemma_emojis_read_only()
    ensures
        reads_only(|emoji: EmojiView| emoji_bytes(emoji), |r: Seq<u8>| take_emoji(r)),
{
    let form = |emoji: EmojiView| emoji_bytes(emoji);
    let one = |r: Seq<u8>| take_emoji(r);
    assert forall|s: Seq<u8>| written(s, form, #[trigger] one(s)) by {
        lemma_emoji_taken(s);
    }
    reveal(reads_only);
}

pub proof fn lemma_tagged_text_taken(s: Seq<u8>, tag: u8)
    ensures
        take_tagged_text(s, tag) matches Ok((text, rest)) ==> s == field_bytes(
            tag,
            text_bytes(text),
        ) + rest,
{
    match take_byte(s, tag) {
        Ok(behind) => {
            lemma_byte_taken(s, tag);
            lemma_text_taken(behind);
            match take_text(behind) {
                Ok((text, rest)) => {
                    lemma_join(seq![tag], text_bytes(text), rest);
                },
                Err(_) => {},
            }
        },
        Err(_) => {},
    }
}

pub proof fn lemma_tagged_list_taken<T>(
    s: Seq<u8>,
    tag: u8,
    form: spec_fn(T) -> Seq<u8>,
    one: spec_fn(Seq<u8>) -> Result<(T, Seq<u8>), Stop>,
)
    requires
        reads_only(form, one),
    ensures
        take_tagged_list(s, tag, one) matches Ok((items, rest)) ==> s == field_bytes(
            tag,
            list_bytes(items, form),
        ) + rest,
{
    match take_byte(s, tag) {
        Ok(behind) => {
            lemma_byte_taken(s, tag);
            lemma_list_taken(behind, form, one);
            match take_list(behind, one) {
                Ok((items, rest)) => {
                    lemma_join(seq![tag], list_bytes(items, form), rest);
                },
                Err(_) => {},
            }
        },
        Err(_) => {},
    }
}

/// Only the stored form of an index reads as that index: a reader that
/// finds an index in some bytes was handed what a writer makes of it.
pub proof fn lemma_index_taken(s: Seq<u8>)
    ensures
        take_index(s) matches Ok(index) ==> s == index_bytes(index) && index == index.unranked(),
{
    let emoji_form = |emoji: EmojiView| emoji_bytes(emoji);
    let emoji_one = |r: Seq<u8>| take_emoji(r);
    let text_form = |text: Seq<char>| text_bytes(text);
    let text_one = |r: Seq<u8>| take_text(r);
    lemma_emojis_read_only();
    lemma_texts_read_only();
    lemma_byte_taken(s, VERSION);
    match take_byte(s, VERSION) {
        Ok(s1) => {
            lemma_tagged_list_taken(s1, TAG_EMOJIS, emoji_form, emoji_one);
            match take_tagged_list(s1, TAG_EMOJIS, emoji_one) {
                Ok((emojis, s2)) => {
                    lemma_tagged_list_taken(s2, TAG_LOCALES, text_form, text_one);
                    match take_tagged_list(s2, TAG_LOCALES, text_one) {
                        Ok((locale_codes, s3)) => {
                            if s3.len() == 0 {
                                let index = IndexView { emojis, locale_codes };
                                let f1 = field_bytes(
                                    TAG_EMOJIS,
                                    list_bytes(emojis, emoji_form),
                                );
                                let f2 = field_bytes(TAG_LOCALES, texts_bytes(locale_codes));
                                assert(f2 + s3 =~= f2);
                                lemma_join(seq![VERSION], f1, f2);
                                lemma_ranks_read(s1, TAG_EMOJIS);
                                assert(index.unranked().emojis =~= index.emojis);
                            }
                        },
                        Err(_) => {},
                    }
                },
                Err(_) => {},
            }
        },
        Err(_) => {},
    }
}

/// Every record that is read has rank 0.
pub proof fn lemma_items_unranked(s: Seq<u8>, count: nat)
    ensures
        take_items(s, count, |r: Seq<u8>| take_emoji(r)) matches Ok((emojis, rest)) ==> forall|
            i: int,
        | 0 <= i < emojis.len() ==> (#[trigger] emojis[i]).rank == 0,
    decreases count,
{
    let one = |r: Seq<u8>| take_emoji(r);
    if count > 0 {
        match one(s) {
            Ok((first, behind)) => {
                lemma_items_unranked(behind, (count - 1) as nat);
            },
            Err(_) => {},
        }
    }
}

/// Every record of a list that is read has rank 0.
pub proof fn lemma_ranks_read(s: Seq<u8>, tag: u8)
    ensures
        take_tagged_list(s, tag, |r: Seq<u8>| take_emoji(r)) matches Ok((emojis, rest))
            ==> forall|i: int| 0 <= i < emojis.len() ==> (#[trigger] emojis[i]).rank == 0,
{
    match take_byte(s, tag) {
        Ok(behind) => {
            match take_number(behind) {
                Ok((n, items)) => {
                    lemma_items_unranked(items, n as nat);
                },
                Err(_) => {},
            }
        },
        Err(_) => {},
    }
}

} // verus!
