//! Comparing texts, cutting them into words, and writing them.

use vstd::prelude::*;
use vstd::string::*;
use vstd::utf8::*;

verus! {

/// White space as Unicode defines it (the property `White_Space`).
pub open spec fn is_space(c: char) -> bool {
    let n = c as u32;
    ||| 0x09 <= n <= 0x0d
    ||| n == 0x20
    ||| n == 0x85
    ||| n == 0xa0
    ||| n == 0x1680
    ||| 0x2000 <= n <= 0x200a
    ||| n == 0x2028
    ||| n == 0x2029
    ||| n == 0x202f
    ||| n == 0x205f
    ||| n == 0x3000
}

/// The word that has been read so far, if it holds anything.
pub open spec fn finished(word: Seq<char>) -> Seq<Seq<char>> {
    if word.len() == 0 {
        Seq::empty()
    } else {
        seq![word]
    }
}

/// The words of `rest`, read from left to right, where `word` holds the
/// characters of the word that was begun before `rest`.
pub open spec fn words_after(word: Seq<char>, rest: Seq<char>) -> Seq<Seq<char>>
    decreases rest.len(),
{
    if rest.len() == 0 {
        finished(word)
    } else if is_space(rest[0]) {
        finished(word) + words_after(Seq::empty(), rest.skip(1))
    } else {
        words_after(word.push(rest[0]), rest.skip(1))
    }
}

/// The words of a text: its longest runs of characters that are not white
/// space, in the order in which they stand.
pub open spec fn words(text: Seq<char>) -> Seq<Seq<char>> {
    words_after(Seq::empty(), text)
}

/// Whether two texts hold the same characters.
pub fn same_text(a: &str, b: &str) -> (same: bool)
    ensures
        same == (a@ == b@),
{
    broadcast use {encode_utf8_decode_utf8, encode_utf8_valid_utf8};

    let left = a.as_bytes();
    let right = b.as_bytes();
    if left.len() != right.len() {
        return false;
    }
    let mut i: usize = 0;
    while i < left.len()
        invariant
            left@ == encode_utf8(a@),
            right@ == encode_utf8(b@),
            left@.len() == right@.len(),
            i <= left@.len(),
            forall|k: int| 0 <= k < i ==> left@[k] == right@[k],
        decreases left@.len() - i,
    {
        if left[i] != right[i] {
            return false;
        }
        i += 1;
    }
    assert(left@ =~= right@);
    assert(decode_utf8(encode_utf8(a@)) == a@);
    assert(decode_utf8(encode_utf8(b@)) == b@);
    true
}

/// The bytes of two texts, one behind the other, are the bytes of the first
/// behind the bytes of the second.
pub proof fn lemma_bytes_add(a: Seq<char>, b: Seq<char>)
    ensures
        encode_utf8(a + b) == encode_utf8(a) + encode_utf8(b),
    decreases a.len(),
{
    if a.len() == 0 {
        assert(a + b =~= b);
        assert(encode_utf8(a) + encode_utf8(b) =~= encode_utf8(b));
    } else {
        assert((a + b).drop_first() =~= a.drop_first() + b);
        lemma_bytes_add(a.drop_first(), b);
        assert(encode_utf8(a + b) =~= encode_utf8(a) + encode_utf8(b));
    }
}

/// A text begins with another if its bytes begin with the bytes of the other.
pub proof fn lemma_prefix_of_bytes(prefix: Seq<char>, text: Seq<char>)
    requires
        encode_utf8(prefix).is_prefix_of(encode_utf8(text)),
    ensures
        prefix.is_prefix_of(text),
    decreases prefix.len(),
{
    if prefix.len() > 0 {
        let short = encode_utf8(prefix);
        let long = encode_utf8(text);
        encode_utf8_first_scalar(prefix);
        assert(short.len() > 0);
        assert(short =~= long.subrange(0, short.len() as int));
        assert(text.len() > 0);
        encode_utf8_first_scalar(text);
        let width = length_of_first_scalar(short);
        assert(width <= short.len());
        assert forall|k: int| 0 <= k < width implies short[k] == long[k] by {
            assert(short[k] == long.subrange(0, short.len() as int)[k]);
        }
        assert(short[0] == long[0]);
        assert(decode_first_scalar(short) == decode_first_scalar(long));
        char_u32_cast(prefix[0], decode_first_scalar(short));
        char_u32_cast(text[0], decode_first_scalar(long));
        assert(prefix[0] == text[0]);
        let rest_short = encode_utf8(prefix.drop_first());
        let rest_long = encode_utf8(text.drop_first());
        assert(short =~= encode_scalar(prefix[0] as u32) + rest_short);
        assert(long =~= encode_scalar(text[0] as u32) + rest_long);
        assert(rest_short =~= short.skip(width));
        assert(rest_long =~= long.skip(width));
        assert(rest_short =~= rest_long.subrange(0, rest_short.len() as int)) by {
            assert forall|k: int| 0 <= k < rest_short.len() implies rest_short[k]
                == rest_long[k] by {
                assert(short[k + width] == long.subrange(0, short.len() as int)[k + width]);
            }
        }
        lemma_prefix_of_bytes(prefix.drop_first(), text.drop_first());
        assert(prefix.drop_first() =~= text.drop_first().subrange(
            0,
            prefix.drop_first().len() as int,
        ));
        assert(prefix =~= text.subrange(0, prefix.len() as int)) by {
            assert forall|k: int| 0 <= k < prefix.len() implies prefix[k] == text[k] by {
                if k > 0 {
                    assert(prefix.drop_first()[k - 1] == text.drop_first().subrange(
                        0,
                        prefix.drop_first().len() as int,
                    )[k - 1]);
                }
            }
        }
    }
}

/// Whether `text` begins with the characters of `prefix`.
pub fn begins_with(text: &str, prefix: &str) -> (found: bool)
    ensures
        found == prefix@.is_prefix_of(text@),
{
    let long = text.as_bytes();
    let short = prefix.as_bytes();
    proof {
        if prefix@.is_prefix_of(text@) {
            let rest = text@.skip(prefix@.len() as int);
            assert(prefix@ =~= text@.subrange(0, prefix@.len() as int));
            assert(text@ =~= prefix@ + rest);
            lemma_bytes_add(prefix@, rest);
            assert(short@ =~= long@.subrange(0, short@.len() as int));
        }
    }
    if short.len() > long.len() {
        return false;
    }
    let mut i: usize = 0;
    while i < short.len()
        invariant
            short@.len() <= long@.len(),
            i <= short@.len(),
            forall|k: int| 0 <= k < i ==> short@[k] == long@[k],
            prefix@.is_prefix_of(text@) ==> short@ == long@.subrange(0, short@.len() as int),
        decreases short@.len() - i,
    {
        if short[i] != long[i] {
            assert(long@.subrange(0, short@.len() as int)[i as int] == long@[i as int]);
            return false;
        }
        i += 1;
    }
    proof {
        assert(short@ =~= long@.subrange(0, short@.len() as int));
        lemma_prefix_of_bytes(prefix@, text@);
    }
    true
}

/// What `{:?}` makes of a text: the text between double quotes, with the
/// characters that cannot stand there written as escapes.
pub uninterp spec fn quoted(text: Seq<char>) -> Seq<char>;

/// Calls `format!` with `{:?}` on a text.
#[verifier::external_body]
pub(crate) fn quote(text: &str) -> (out: String)
    ensures
        out@ == quoted(text@),
{
    format!("{:?}", text)
}

/// Whether no text stands twice in the list.
pub fn distinct_texts(list: &Vec<String>) -> (ok: bool)
    ensures
        ok == list.deep_view().no_duplicates(),
{
    let mut i: usize = 0;
    while i < list.len()
        invariant
            i <= list@.len(),
            forall|a: int, b: int|
                0 <= a < b < list@.len() && a < i ==> list.deep_view()[a] != list.deep_view()[b],
        decreases list@.len() - i,
    {
        let mut j: usize = i + 1;
        while j < list.len()
            invariant
                i < j <= list@.len(),
                forall|a: int, b: int|
                    0 <= a < b < list@.len() && a < i ==> list.deep_view()[a] != list.deep_view()[b],
                forall|b: int| i < b < j ==> list.deep_view()[i as int] != list.deep_view()[b],
            decreases list@.len() - j,
        {
            if same_text(list[i].as_str(), list[j].as_str()) {
                assert(list.deep_view()[i as int] == list.deep_view()[j as int]);
                return false;
            }
            j += 1;
        }
        i += 1;
    }
    assert forall|a: int, b: int|
        0 <= a < list.deep_view().len() && 0 <= b < list.deep_view().len() && a
            != b implies list.deep_view()[a] != list.deep_view()[b] by {
        if a < b {
            assert(list.deep_view()[a] != list.deep_view()[b]);
        } else {
            assert(list.deep_view()[b] != list.deep_view()[a]);
        }
    }
    true
}

/// Calls `String::push`: puts one character at the end of a text.
#[verifier::external_body]
pub(crate) fn push_char(text: &mut String, c: char)
    ensures
        final(text)@ == old(text)@.push(c),
{
    text.push(c)
}

/// Takes the last character off a text, if it has one.
pub fn drop_last_char(text: &mut String)
    ensures
        final(text)@ == if old(text)@.len() > 0 {
            old(text)@.drop_last()
        } else {
            old(text)@
        },
{
    let n = text.as_str().unicode_len();
    if n > 0 {
        let shorter = text.as_str().substring_char(0, n - 1).to_owned();
        *text = shorter;
    }
}

/// The character of a decimal digit.
pub open spec fn digit_char(d: nat) -> char {
    ((0x30 + d) as u8) as char
}

/// A number written in decimal.
pub open spec fn decimal_text(n: nat) -> Seq<char>
    decreases n,
{
    if n < 10 {
        seq![digit_char(n)]
    } else {
        decimal_text(n / 10).push(digit_char(n % 10))
    }
}

/// Writes a number in decimal at the end of a text.
pub fn push_decimal(text: &mut String, n: u64)
    ensures
        final(text)@ == old(text)@ + decimal_text(n as nat),
    decreases n,
{
    if n >= 10 {
        push_decimal(text, n / 10);
    }
    let ghost before = text@;
    let digit: u8 = 0x30 + (n % 10) as u8;
    push_char(text, digit as char);
    proof {
        if n >= 10 {
            assert(text@ =~= old(text)@ + decimal_text(n as nat));
        } else {
            assert(text@ =~= old(text)@ + decimal_text(n as nat));
        }
    }
}

/// Whether a character is white space.
pub fn is_white_space(c: char) -> (white: bool)
    ensures
        white == is_space(c),
{
    let n: u32 = c as u32;
    (0x09 <= n && n <= 0x0d) || n == 0x20 || n == 0x85 || n == 0xa0 || n == 0x1680 || (0x2000 <= n
        && n <= 0x200a) || n == 0x2028 || n == 0x2029 || n == 0x202f || n == 0x205f || n == 0x3000
}

/// The characters of a text, one by one.
pub fn chars_of(text: &str) -> (list: Vec<char>)
    ensures
        list@ == text@,
{
    broadcast use group_string_axioms;

    let mut list: Vec<char> = Vec::new();
    for c in it: text.chars()
        invariant
            list@ == it.history(),
            it.seq() == text@,
    {
        list.push(c);
    }
    assert(list@ =~= text@);
    list
}

/// Cuts a text into its words.
pub fn split_words(text: &str) -> (list: Vec<String>)
    ensures
        list.deep_view() == words(text@),
{
    let chars = chars_of(text);
    let mut list: Vec<String> = Vec::new();
    let mut start: usize = 0;
    let mut i: usize = 0;
    proof {
        assert(text@.subrange(0, 0) =~= Seq::<char>::empty());
        assert(text@.skip(0) =~= text@);
        assert(list.deep_view() =~= Seq::<Seq<char>>::empty());
        assert(list.deep_view() + words(text@) =~= words(text@));
    }
    while i < chars.len()
        invariant
            chars@ == text@,
            start <= i <= chars@.len(),
            words(text@) == list.deep_view() + words_after(
                text@.subrange(start as int, i as int),
                text@.skip(i as int),
            ),
        decreases chars@.len() - i,
    {
        let ghost word = text@.subrange(start as int, i as int);
        let ghost rest = text@.skip(i as int);
        let ghost done = list.deep_view();
        proof {
            assert(rest[0] == text@[i as int]);
            assert(rest.skip(1) =~= text@.skip(i as int + 1));
        }
        if is_white_space(chars[i]) {
            if start < i {
                list.push(text.substring_char(start, i).to_owned());
                assert(list.deep_view() =~= done.push(word));
            }
            proof {
                assert(text@.subrange(i as int + 1, i as int + 1) =~= Seq::<char>::empty());
                assert(done + (finished(word) + words_after(Seq::empty(), rest.skip(1)))
                    =~= list.deep_view() + words_after(Seq::empty(), rest.skip(1)));
            }
            start = i + 1;
        } else {
            proof {
                assert(word.push(rest[0]) =~= text@.subrange(start as int, i as int + 1));
            }
        }
        i += 1;
    }
    let ghost word = text@.subrange(start as int, i as int);
    let ghost done = list.deep_view();
    proof {
        assert(text@.skip(i as int) =~= Seq::<char>::empty());
    }
    if start < i {
        list.push(text.substring_char(start, i).to_owned());
        assert(list.deep_view() =~= done.push(word));
    }
    assert(list.deep_view() =~= done + finished(word));
    list
}

} // verus!
