//! Reading the names of the files that a data set is built from.
//!
//! A picture lies in a file named `emoji_u`, then the code points of the
//! emoji in hexadecimal, joined by `_`. The annotations of a locale lie in a
//! file named by the locale code, then `.xml`; in them the keyword phrases of
//! an emoji stand in one text, parted by ` | `.

use vstd::prelude::*;
use vstd::string::*;
use vstd::utf8::*;
use crate::emoji::{with_entry, Emoji, EmojiView};
use crate::error::Error;
use crate::text::{begins_with, chars_of, push_char, quote, quoted, same_text};

verus! {

/// What the name of a picture file begins with.
pub const GLYPH_PREFIX: &'static str = "emoji_u";

/// The kind of annotation that holds the name of an emoji; every other kind
/// holds keywords.
pub const NAME_KIND: &'static str = "tts";

/// What an error about a picture file's name begins with.
pub const BAD_GLYPH: &'static str = "Invalid char: ";

/// The number that a hexadecimal digit stands for.
pub open spec fn digit_of(c: char) -> Option<nat> {
    let n = c as u32;
    if 0x30 <= n <= 0x39 {
        Some((n - 0x30) as nat)
    } else if 0x61 <= n <= 0x66 {
        Some((n - 0x61 + 10) as nat)
    } else if 0x41 <= n <= 0x46 {
        Some((n - 0x41 + 10) as nat)
    } else {
        None
    }
}

/// The number that a run of hexadecimal digits stands for; 0 for none.
pub open spec fn digits_value(digits: Seq<char>) -> Option<nat>
    decreases digits.len(),
{
    if digits.len() == 0 {
        Some(0)
    } else {
        match (digits_value(digits.drop_last()), digit_of(digits.last())) {
            (Some(high), Some(low)) => Some(high * 16 + low),
            _ => None,
        }
    }
}

/// The character whose code point the digits write: there is none if there
/// are no digits, if one of them is no hexadecimal digit, or if no character
/// has that code point.
pub open spec fn scalar_of(digits: Seq<char>) -> Option<char> {
    match digits_value(digits) {
        Some(n) => if digits.len() > 0 && n <= 0x10ffff && is_scalar(n as u32) {
            Some((n as u32) as char)
        } else {
            None
        },
        None => None,
    }
}

/// The pieces of `rest` between the separators, where `piece` holds the
/// characters of the piece that was begun before `rest`.
pub open spec fn pieces_after(piece: Seq<char>, rest: Seq<char>, bar: char) -> Seq<Seq<char>>
    decreases rest.len(),
{
    if rest.len() == 0 {
        seq![piece]
    } else if rest[0] == bar {
        seq![piece] + pieces_after(Seq::empty(), rest.skip(1), bar)
    } else {
        pieces_after(piece.push(rest[0]), rest.skip(1), bar)
    }
}

/// The pieces of a text between the separators: one more than there are
/// separators, and empty where two separators meet.
pub open spec fn pieces(text: Seq<char>, bar: char) -> Seq<Seq<char>> {
    pieces_after(Seq::empty(), text, bar)
}

/// Whether a text begins with the bar that parts keyword phrases.
pub open spec fn bar_at(rest: Seq<char>) -> bool {
    rest.len() >= 3 && rest[0] == ' ' && rest[1] == '|' && rest[2] == ' '
}

/// The phrases of `rest` between the bars, where `phrase` holds the
/// characters of the phrase that was begun before `rest`.
pub open spec fn phrases_after(phrase: Seq<char>, rest: Seq<char>) -> Seq<Seq<char>>
    decreases rest.len(),
{
    if rest.len() == 0 {
        seq![phrase]
    } else if bar_at(rest) {
        seq![phrase] + phrases_after(Seq::empty(), rest.skip(3))
    } else {
        phrases_after(phrase.push(rest[0]), rest.skip(1))
    }
}

/// The keyword phrases that one text of an annotation holds: what stands
/// between the bars, read from left to right.
pub open spec fn phrases(text: Seq<char>) -> Seq<Seq<char>> {
    phrases_after(Seq::empty(), text)
}

/// The locale that a file of annotations is for, by its name.
pub open spec fn annotation_locale(name: Seq<char>) -> Option<Seq<char>> {
    if name.len() >= 4 && name.skip(name.len() - 4) == seq!['.', 'x', 'm', 'l'] {
        Some(name.take(name.len() - 4))
    } else {
        None
    }
}

/// What the name of a file says of the picture in it.
pub enum Glyph {
    /// The file is no picture of an emoji.
    Other,
    /// The name does not write code points of characters.
    Broken,
    /// The picture shows a sequence of several characters.
    Sequence,
    /// The picture shows this one character.
    One(char),
}

/// What the stem of a file name, the name without its extension, says.
pub open spec fn glyph(stem: Seq<char>) -> Glyph {
    let codes = pieces(stem.skip(GLYPH_PREFIX@.len() as int), '_');
    if !GLYPH_PREFIX@.is_prefix_of(stem) {
        Glyph::Other
    } else if exists|i: int| 0 <= i < codes.len() && scalar_of(#[trigger] codes[i]) is None {
        Glyph::Broken
    } else if codes.len() > 1 {
        Glyph::Sequence
    } else {
        Glyph::One(scalar_of(codes[0]).unwrap())
    }
}

/// Calls `char::from_u32`: the character of a code point, if it has one.
#[verifier::external_body]
fn char_of(n: u32) -> (found: Option<char>)
    ensures
        match found {
            Some(c) => c as u32 == n,
            None => !is_scalar(n),
        },
{
    char::from_u32(n)
}

/// Reads one hexadecimal digit.
pub fn hex_digit(c: char) -> (found: Option<u32>)
    ensures
        match found {
            Some(d) => digit_of(c) == Some(d as nat) && d < 16,
            None => digit_of(c) is None,
        },
{
    let n: u32 = c as u32;
    if 0x30 <= n && n <= 0x39 {
        Some(n - 0x30)
    } else if 0x61 <= n && n <= 0x66 {
        Some(n - 0x61 + 10)
    } else if 0x41 <= n && n <= 0x46 {
        Some(n - 0x41 + 10)
    } else {
        None
    }
}

/// Digits that write a number above the last code point write no character,
/// whatever follows them.
pub proof fn lemma_too_large(digits: Seq<char>, upto: int)
    requires
        0 <= upto <= digits.len(),
        digits_value(digits.take(upto)) matches Some(n) && n > 0x10ffff,
    ensures
        scalar_of(digits) is None,
    decreases digits.len() - upto,
{
    if upto == digits.len() {
        assert(digits.take(upto) =~= digits);
    } else {
        assert(digits.take(upto + 1).drop_last() =~= digits.take(upto));
        if digits_value(digits.take(upto + 1)) is Some {
            lemma_too_large(digits, upto + 1);
        } else {
            lemma_broken(digits, upto + 1);
        }
    }
}

/// Digits of which the first few write no number write none.
pub proof fn lemma_broken(digits: Seq<char>, upto: int)
    requires
        0 <= upto <= digits.len(),
        digits_value(digits.take(upto)) is None,
    ensures
        digits_value(digits) is None,
    decreases digits.len() - upto,
{
    if upto == digits.len() {
        assert(digits.take(upto) =~= digits);
    } else {
        assert(digits.take(upto + 1).drop_last() =~= digits.take(upto));
        lemma_broken(digits, upto + 1);
    }
}

/// Reads the character whose code point stands in `chars` from `from` up to
/// `to`, in hexadecimal.
pub fn read_scalar(chars: &Vec<char>, from: usize, to: usize) -> (found: Option<char>)
    requires
        from <= to <= chars@.len(),
    ensures
        found == scalar_of(chars@.subrange(from as int, to as int)),
{
    let ghost digits = chars@.subrange(from as int, to as int);
    if from == to {
        return None;
    }
    let mut n: u32 = 0;
    let mut i: usize = from;
    assert(digits.take(0) =~= Seq::<char>::empty());
    while i < to
        invariant
            from <= i <= to <= chars@.len(),
            digits == chars@.subrange(from as int, to as int),
            digits_value(digits.take(i - from)) == Some(n as nat),
            n <= 0x10ffff,
        decreases to - i,
    {
        proof {
            assert(digits.take(i - from + 1).drop_last() =~= digits.take(i - from));
            assert(digits.take(i - from + 1).last() == chars@[i as int]);
        }
        match hex_digit(chars[i]) {
            None => {
                proof {
                    lemma_broken(digits, i - from + 1);
                }
                return None;
            },
            Some(d) => {
                n = n * 16 + d;
                if n > 0x10ffff {
                    proof {
                        lemma_too_large(digits, i - from + 1);
                    }
                    return None;
                }
            },
        }
        i += 1;
    }
    proof {
        assert(digits.take(i - from) =~= digits);
    }
    match char_of(n) {
        Some(c) => {
            proof {
                char_u32_cast(c, n);
            }
            Some(c)
        },
        None => None,
    }
}

/// The error for a file name that writes no code points of characters.
fn bad_glyph(codes: &str) -> (error: Error)
    ensures
        error.spec_kind() is Parse,
        error.spec_kind().detail() == BAD_GLYPH@ + quoted(codes@),
{
    let mut text = String::from_str(BAD_GLYPH);
    text.append(quote(codes).as_str());
    Error::parse(text.as_str())
}

/// Reads the stem of a file name: the character whose picture the file
/// holds, or nothing for a file that is to be left out, which is one that is
/// no picture of an emoji or that shows a sequence of several characters. A
/// name that begins like a picture's and then writes no code points of
/// characters is an error.
pub fn glyph_value(stem: &str) -> (found: Result<Option<String>, Error>)
    ensures
        match glyph(stem@) {
            Glyph::One(c) => found matches Ok(Some(value)) && value@ == seq![c],
            Glyph::Other => found matches Ok(None),
            Glyph::Sequence => found matches Ok(None),
            Glyph::Broken => found matches Err(e) && e.spec_kind() is Parse
                && e.spec_kind().detail() == BAD_GLYPH@ + quoted(
                stem@.skip(GLYPH_PREFIX@.len() as int),
            ),
        },
{
    proof {
        reveal_strlit("emoji_u");
    }
    if !begins_with(stem, GLYPH_PREFIX) {
        return Ok(None);
    }
    let chars = chars_of(stem);
    let ghost codes = pieces(stem@.skip(7), '_');
    let ghost mut done: Seq<Seq<char>> = Seq::empty();
    let mut first: Option<char> = None;
    let mut count: usize = 0;
    let mut start: usize = 7;
    let mut i: usize = 7;
    proof {
        assert(chars@.subrange(7, 7) =~= Seq::<char>::empty());
        assert(done + pieces(stem@.skip(7), '_') =~= codes);
    }
    while i < chars.len()
        invariant
            chars@ == stem@,
            GLYPH_PREFIX@.len() == 7,
            GLYPH_PREFIX@.is_prefix_of(stem@),
            7 <= start <= i <= chars@.len(),
            codes == pieces(stem@.skip(7), '_'),
            codes == done + pieces_after(
                chars@.subrange(start as int, i as int),
                chars@.skip(i as int),
                '_',
            ),
            done.len() == count <= i,
            forall|k: int| 0 <= k < done.len() ==> scalar_of(#[trigger] done[k]) is Some,
            count == 0 ==> first is None,
            count > 0 ==> first == scalar_of(done[0]),
        decreases chars@.len() - i,
    {
        let ghost piece = chars@.subrange(start as int, i as int);
        let ghost rest = chars@.skip(i as int);
        proof {
            assert(rest[0] == chars@[i as int]);
            assert(rest.skip(1) =~= chars@.skip(i as int + 1));
            assert(stem@.skip(7) =~= stem@.subrange(7, chars@.len() as int));
        }
        if chars[i] == '_' {
            proof {
                assert(codes =~= done.push(piece) + pieces_after(Seq::empty(), rest.skip(1), '_'));
                assert(codes[done.len() as int] == piece);
                assert(chars@.subrange(i as int + 1, i as int + 1) =~= Seq::<char>::empty());
            }
            match read_scalar(&chars, start, i) {
                None => {
                    return Err(bad_glyph(stem.substring_char(7, chars.len())));
                },
                Some(c) => {
                    if count == 0 {
                        first = Some(c);
                    }
                    count += 1;
                    proof {
                        done = done.push(piece);
                    }
                },
            }
            start = i + 1;
        } else {
            proof {
                assert(piece.push(rest[0]) =~= chars@.subrange(start as int, i as int + 1));
            }
        }
        i += 1;
    }
    let ghost piece = chars@.subrange(start as int, i as int);
    proof {
        assert(chars@.skip(i as int) =~= Seq::<char>::empty());
        assert(codes =~= done.push(piece));
        assert(codes[done.len() as int] == piece);
        assert(stem@.skip(7) =~= stem@.subrange(7, chars@.len() as int));
    }
    match read_scalar(&chars, start, i) {
        None => Err(bad_glyph(stem.substring_char(7, chars.len()))),
        Some(c) => {
            assert forall|k: int| 0 <= k < codes.len() implies scalar_of(
                #[trigger] codes[k],
            ) is Some by {
                if k < done.len() {
                    assert(codes[k] == done[k]);
                }
            }
            if count == 0 {
                let mut value = String::new();
                push_char(&mut value, c);
                assert(value@ =~= seq![c]);
                Ok(Some(value))
            } else {
                Ok(None)
            }
        },
    }
}

/// Cuts the keywords of an annotation into its phrases.
pub fn split_keywords(text: &str) -> (list: Vec<String>)
    ensures
        list.deep_view() == phrases(text@),
{
    let chars = chars_of(text);
    let mut list: Vec<String> = Vec::new();
    let mut start: usize = 0;
    let mut i: usize = 0;
    proof {
        assert(text@.subrange(0, 0) =~= Seq::<char>::empty());
        assert(text@.skip(0) =~= text@);
        assert(list.deep_view() + phrases(text@) =~= phrases(text@));
    }
    while i < chars.len()
        invariant
            chars@ == text@,
            start <= i <= chars@.len(),
            phrases(text@) == list.deep_view() + phrases_after(
                text@.subrange(start as int, i as int),
                text@.skip(i as int),
            ),
        decreases chars@.len() - i,
    {
        let ghost phrase = text@.subrange(start as int, i as int);
        let ghost rest = text@.skip(i as int);
        let ghost done = list.deep_view();
        if chars.len() - i >= 3 && chars[i] == ' ' && chars[i + 1] == '|' && chars[i + 2] == ' ' {
            list.push(text.substring_char(start, i).to_owned());
            proof {
                assert(bar_at(rest));
                assert(list.deep_view() =~= done.push(phrase));
                assert(rest.skip(3) =~= text@.skip(i as int + 3));
                assert(text@.subrange(i as int + 3, i as int + 3) =~= Seq::<char>::empty());
                assert(done + (seq![phrase] + phrases_after(Seq::empty(), rest.skip(3)))
                    =~= list.deep_view() + phrases_after(Seq::empty(), rest.skip(3)));
            }
            start = i + 3;
            i += 3;
        } else {
            proof {
                assert(!bar_at(rest));
                assert(rest.skip(1) =~= text@.skip(i as int + 1));
                assert(phrase.push(rest[0]) =~= text@.subrange(start as int, i as int + 1));
            }
            i += 1;
        }
    }
    let ghost phrase = text@.subrange(start as int, i as int);
    let ghost done = list.deep_view();
    proof {
        assert(text@.skip(i as int) =~= Seq::<char>::empty());
    }
    list.push(text.substring_char(start, i).to_owned());
    assert(list.deep_view() =~= done + seq![phrase]);
    list
}

/// Whether an annotation of this kind holds a name.
pub open spec fn is_name_kind(kind: Option<&str>) -> bool {
    kind matches Some(text) && text@ == NAME_KIND@
}

/// Takes one annotation into a record: its text is the record's name in
/// `lang` if the annotation is of the kind that holds names, and else the
/// record's keyword phrases in `lang`, cut at the bars.
pub fn annotate(emoji: &mut Emoji, lang: &str, kind: Option<&str>, text: &str)
    ensures
        final(emoji)@ == if is_name_kind(kind) {
            EmojiView { name: with_entry(old(emoji)@.name, lang@, text@), ..old(emoji)@ }
        } else {
            EmojiView {
                keywords: with_entry(old(emoji)@.keywords, lang@, phrases(text@)),
                ..old(emoji)@
            }
        },
        old(emoji)@.wf() ==> final(emoji)@.wf(),
{
    let names = match kind {
        Some(found) => same_text(found, NAME_KIND),
        None => false,
    };
    if names {
        emoji.set_name(lang, text.to_owned());
    } else {
        emoji.set_keywords(lang, split_keywords(text));
    }
}

/// Reads the name of a file of annotations: the locale that it is for, or
/// nothing for a file that holds no annotations.
pub fn locale_of_file(name: &str) -> (found: Option<String>)
    ensures
        match annotation_locale(name@) {
            Some(code) => found matches Some(text) && text@ == code,
            None => found is None,
        },
{
    let chars = chars_of(name);
    let n = chars.len();
    if n < 4 {
        return None;
    }
    if chars[n - 4] == '.' && chars[n - 3] == 'x' && chars[n - 2] == 'm' && chars[n - 1] == 'l' {
        assert(name@.skip(n - 4) =~= seq!['.', 'x', 'm', 'l']);
        assert(name@.take(n - 4) =~= name@.subrange(0, n - 4));
        Some(name.substring_char(0, n - 4).to_owned())
    } else {
        assert(name@.skip(n - 4)[0] == name@[n - 4]);
        assert(name@.skip(n - 4)[1] == name@[n - 3]);
        assert(name@.skip(n - 4)[2] == name@[n - 2]);
        assert(name@.skip(n - 4)[3] == name@[n - 1]);
        None
    }
}

} // verus!
