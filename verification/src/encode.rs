//! Writing an index in its stored form.

use vstd::prelude::*;
use vstd::bytes::u64_to_le_bytes;
use vstd::slice::slice_to_vec;
use vstd::string::*;
use crate::emoji::{Emoji, EmojiView};
use crate::format::{
    emoji_bytes, field_bytes, index_bytes, items_bytes, keywords_bytes, list_bytes, name_bytes,
    number_bytes,
    text_bytes, texts_bytes, TAG_EMOJIS, TAG_KEYWORDS, TAG_LOCALES, TAG_NAME, TAG_SVG, TAG_VALUE,
    VERSION,
};
use crate::index::Index;
use crate::roundtrip::{emoji_fits, index_fits, text_fits, texts_fit};

verus! {

/// The items of a list with one more are the items of the list, then the
/// one more.
pub proof fn lemma_items_push<T>(items: Seq<T>, form: spec_fn(T) -> Seq<u8>, last: T)
    ensures
        items_bytes(items.push(last), form) == items_bytes(items, form) + form(last),
    decreases items.len(),
{
    if items.len() == 0 {
        assert(items.push(last).drop_first() =~= Seq::<T>::empty());
        assert(items_bytes(items.push(last).drop_first(), form) =~= Seq::<u8>::empty());
        assert(items_bytes(items, form) =~= Seq::<u8>::empty());
        assert(items_bytes(items.push(last), form) =~= items_bytes(items, form) + form(last));
    } else {
        assert(items.push(last).drop_first() =~= items.drop_first().push(last));
        lemma_items_push(items.drop_first(), form, last);
        assert(items_bytes(items.push(last), form) =~= items_bytes(items, form) + form(last));
    }
}

fn put_byte(out: &mut Vec<u8>, byte: u8)
    ensures
        final(out)@ == old(out)@ + seq![byte],
{
    out.push(byte);
    assert(out@ =~= old(out)@ + seq![byte]);
}

fn put_number(out: &mut Vec<u8>, n: u64)
    ensures
        final(out)@ == old(out)@ + number_bytes(n),
{
    let mut bytes = u64_to_le_bytes(n);
    out.append(&mut bytes);
}

fn put_text(out: &mut Vec<u8>, text: &str)
    ensures
        final(out)@ == old(out)@ + text_bytes(text@),
        text_fits(text@),
{
    let bytes = text.as_bytes();
    put_number(out, bytes.len() as u64);
    let mut copy = slice_to_vec(bytes);
    out.append(&mut copy);
    assert(out@ =~= old(out)@ + text_bytes(text@));
}

fn put_texts(out: &mut Vec<u8>, texts: &Vec<String>)
    ensures
        final(out)@ == old(out)@ + texts_bytes(texts.deep_view()),
        texts_fit(texts.deep_view()),
{
    let ghost form = |text: Seq<char>| text_bytes(text);
    let ghost all = texts.deep_view();
    put_number(out, texts.len() as u64);
    let mut i: usize = 0;
    proof {
        assert(items_bytes(all.take(0), form) =~= Seq::<u8>::empty());
        assert(out@ =~= old(out)@ + number_bytes(all.len() as u64) + items_bytes(
            all.take(0),
            form,
        ));
    }
    while i < texts.len()
        invariant
            i <= texts@.len(),
            all == texts.deep_view(),
            form == |text: Seq<char>| text_bytes(text),
            out@ == old(out)@ + number_bytes(all.len() as u64) + items_bytes(
                all.take(i as int),
                form,
            ),
            forall|k: int| 0 <= k < i ==> text_fits(#[trigger] all[k]),
        decreases texts@.len() - i,
    {
        put_text(out, texts[i].as_str());
        proof {
            lemma_items_push(all.take(i as int), form, all[i as int]);
            assert(all.take(i as int).push(all[i as int]) =~= all.take(i as int + 1));
            assert(out@ =~= old(out)@ + number_bytes(all.len() as u64) + items_bytes(
                all.take(i as int + 1),
                form,
            ));
        }
        i += 1;
    }
    proof {
        assert(all.take(i as int) =~= all);
        assert(out@ =~= old(out)@ + texts_bytes(all));
    }
}

fn put_names(out: &mut Vec<u8>, entries: &Vec<(String, String)>)
    ensures
        final(out)@ == old(out)@ + list_bytes(
            entries.deep_view(),
            |entry: (Seq<char>, Seq<char>)| name_bytes(entry),
        ),
        entries@.len() <= u64::MAX,
        forall|k: int|
            0 <= k < entries@.len() ==> text_fits((#[trigger] entries.deep_view()[k]).0)
                && text_fits(entries.deep_view()[k].1),
{
    let ghost form = |entry: (Seq<char>, Seq<char>)| name_bytes(entry);
    let ghost all = entries.deep_view();
    put_number(out, entries.len() as u64);
    let mut i: usize = 0;
    proof {
        assert(items_bytes(all.take(0), form) =~= Seq::<u8>::empty());
        assert(out@ =~= old(out)@ + number_bytes(all.len() as u64) + items_bytes(
            all.take(0),
            form,
        ));
    }
    while i < entries.len()
        invariant
            i <= entries@.len(),
            all == entries.deep_view(),
            form == |entry: (Seq<char>, Seq<char>)| name_bytes(entry),
            out@ == old(out)@ + number_bytes(all.len() as u64) + items_bytes(
                all.take(i as int),
                form,
            ),
            forall|k: int| 0 <= k < i ==> text_fits((#[trigger] all[k]).0) && text_fits(all[k].1),
        decreases entries@.len() - i,
    {
        let ghost before = out@;
        put_text(out, entries[i].0.as_str());
        put_text(out, entries[i].1.as_str());
        proof {
            assert(all[i as int] == (entries@[i as int].0@, entries@[i as int].1@));
            assert(out@ =~= before + name_bytes(all[i as int]));
            lemma_items_push(all.take(i as int), form, all[i as int]);
            assert(all.take(i as int).push(all[i as int]) =~= all.take(i as int + 1));
            assert(out@ =~= old(out)@ + number_bytes(all.len() as u64) + items_bytes(
                all.take(i as int + 1),
                form,
            ));
        }
        i += 1;
    }
    proof {
        assert(all.take(i as int) =~= all);
        assert(out@ =~= old(out)@ + list_bytes(all, form));
    }
}

fn put_keywords(out: &mut Vec<u8>, entries: &Vec<(String, Vec<String>)>)
    ensures
        final(out)@ == old(out)@ + list_bytes(
            entries.deep_view(),
            |entry: (Seq<char>, Seq<Seq<char>>)| keywords_bytes(entry),
        ),
        entries@.len() <= u64::MAX,
        forall|k: int|
            0 <= k < entries@.len() ==> text_fits((#[trigger] entries.deep_view()[k]).0)
                && texts_fit(entries.deep_view()[k].1),
{
    let ghost form = |entry: (Seq<char>, Seq<Seq<char>>)| keywords_bytes(entry);
    let ghost all = entries.deep_view();
    put_number(out, entries.len() as u64);
    let mut i: usize = 0;
    proof {
        assert(items_bytes(all.take(0), form) =~= Seq::<u8>::empty());
        assert(out@ =~= old(out)@ + number_bytes(all.len() as u64) + items_bytes(
            all.take(0),
            form,
        ));
    }
    while i < entries.len()
        invariant
            i <= entries@.len(),
            all == entries.deep_view(),
            form == |entry: (Seq<char>, Seq<Seq<char>>)| keywords_bytes(entry),
            out@ == old(out)@ + number_bytes(all.len() as u64) + items_bytes(
                all.take(i as int),
                form,
            ),
            forall|k: int| 0 <= k < i ==> text_fits((#[trigger] all[k]).0) && texts_fit(all[k].1),
        decreases entries@.len() - i,
    {
        let ghost before = out@;
        put_text(out, entries[i].0.as_str());
        put_texts(out, &entries[i].1);
        proof {
            assert(all[i as int] == (entries@[i as int].0@, entries@[i as int].1.deep_view()));
            assert(out@ =~= before + keywords_bytes(all[i as int]));
            lemma_items_push(all.take(i as int), form, all[i as int]);
            assert(all.take(i as int).push(all[i as int]) =~= all.take(i as int + 1));
            assert(out@ =~= old(out)@ + number_bytes(all.len() as u64) + items_bytes(
                all.take(i as int + 1),
                form,
            ));
        }
        i += 1;
    }
    proof {
        assert(all.take(i as int) =~= all);
        assert(out@ =~= old(out)@ + list_bytes(all, form));
    }
}

fn put_emoji(out: &mut Vec<u8>, emoji: &Emoji)
    ensures
        final(out)@ == old(out)@ + emoji_bytes(emoji@),
        emoji_fits(emoji@),
{
    put_byte(out, TAG_VALUE);
    put_text(out, emoji.value.as_str());
    put_byte(out, TAG_NAME);
    put_names(out, &emoji.name);
    put_byte(out, TAG_KEYWORDS);
    put_keywords(out, &emoji.keywords);
    put_byte(out, TAG_SVG);
    put_text(out, emoji.svg.as_str());
    assert(out@ =~= old(out)@ + emoji_bytes(emoji@));
}

/// The stored form of an index, before it is compressed.
pub fn serialize(index: &Index) -> (out: Vec<u8>)
    ensures
        out@ == index_bytes(index@),
        index_fits(index@),
{
    let ghost form = |emoji: EmojiView| emoji_bytes(emoji);
    let ghost all = index@.emojis;
    let mut out: Vec<u8> = Vec::new();
    put_byte(&mut out, VERSION);
    put_byte(&mut out, TAG_EMOJIS);
    put_number(&mut out, index.emojis.len() as u64);
    let ghost head = seq![VERSION] + seq![TAG_EMOJIS] + number_bytes(all.len() as u64);
    let mut i: usize = 0;
    proof {
        assert(items_bytes(all.take(0), form) =~= Seq::<u8>::empty());
        assert(out@ =~= head + items_bytes(all.take(0), form));
    }
    while i < index.emojis.len()
        invariant
            i <= index.emojis@.len(),
            all == index@.emojis,
            form == |emoji: EmojiView| emoji_bytes(emoji),
            head == seq![VERSION] + seq![TAG_EMOJIS] + number_bytes(all.len() as u64),
            out@ == head + items_bytes(all.take(i as int), form),
            forall|k: int| 0 <= k < i ==> emoji_fits(#[trigger] all[k]),
        decreases index.emojis@.len() - i,
    {
        put_emoji(&mut out, &index.emojis[i]);
        proof {
            lemma_items_push(all.take(i as int), form, all[i as int]);
            assert(all.take(i as int).push(all[i as int]) =~= all.take(i as int + 1));
            assert(out@ =~= head + items_bytes(all.take(i as int + 1), form));
        }
        i += 1;
    }
    proof {
        assert(all.take(i as int) =~= all);
    }
    put_byte(&mut out, TAG_LOCALES);
    put_texts(&mut out, &index.locale_codes);
    assert(out@ =~= index_bytes(index@));
    out
}

} // verus!
