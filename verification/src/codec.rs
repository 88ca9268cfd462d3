//! The index as one block of bytes: its stored form, compressed.
//!
//! Writing puts the index in its stored form and compresses that. Reading
//! decompresses, reads the stored form, and then looks at every record: an
//! index comes out only if each is as the data model asks. A block that
//! cannot be read gives an error that says where reading stopped; it never
//! gives an empty index.

use vstd::prelude::*;
use vstd::string::*;
use crate::block::{compress, decompress, packed, unpacked, LEVEL, MAX_CONTENT};
use crate::decode::{deserialize, parsed, DecodeError};
use crate::emoji::EmojiView;
use crate::encode::serialize;
use crate::format::{index_bytes, VERSION};
use crate::index::{Index, IndexView};
use crate::text::distinct_texts;
use crate::roundtrip::{index_fits, lemma_take_index};

verus! {

/// Why an index could not be written.
#[derive(Clone, Copy, Debug, PartialEq, Eq, Structural)]
pub enum EncodeError {
    /// The compressor refused the stored form or failed on it.
    Compression,
}

impl EncodeError {
    /// Says in words what is wrong.
    pub fn message(&self) -> (text: String)
        ensures
            text@ == "the index cannot be compressed"@,
    {
        String::from_str("the index cannot be compressed")
    }
}

/// Whether `at` is the place of the first record that is not as the data
/// model asks.
pub open spec fn is_first_invalid(emojis: Seq<EmojiView>, at: int) -> bool {
    &&& 0 <= at < emojis.len()
    &&& !emojis[at].wf()
    &&& forall|j: int| 0 <= j < at ==> (#[trigger] emojis[j]).wf()
}

/// The place of the first record that is not as the data model asks.
pub open spec fn first_invalid(emojis: Seq<EmojiView>) -> int {
    choose|at: int| is_first_invalid(emojis, at)
}

/// An index that was read, if it is as the data model asks; else the error
/// that names the first record that is not, or that says that the locale
/// codes are not.
pub open spec fn checked(index: IndexView) -> Result<IndexView, DecodeError> {
    if !index.records_wf() {
        Err(DecodeError::Invalid { record: first_invalid(index.emojis) as usize })
    } else if !index.locale_codes.no_duplicates() {
        Err(DecodeError::Locales)
    } else {
        Ok(index)
    }
}

/// What reading a block gives.
pub open spec fn decoded(block: Seq<u8>) -> Result<IndexView, DecodeError> {
    match unpacked(block) {
        None => Err(DecodeError::Compression),
        Some(raw) => match parsed(raw) {
            Err(error) => Err(error),
            Ok(index) => checked(index),
        },
    }
}

/// The first invalid record is the one at its place.
pub proof fn lemma_first_invalid(emojis: Seq<EmojiView>, at: int)
    requires
        is_first_invalid(emojis, at),
    ensures
        first_invalid(emojis) == at,
{
    let chosen = first_invalid(emojis);
    assert(is_first_invalid(emojis, chosen));
    if chosen < at {
        assert(emojis[chosen].wf());
    }
    if at < chosen {
        assert(emojis[at].wf());
    }
}

/// Looks at every record of an index that was read, and at its locale codes.
pub fn check(index: Index) -> (found: Result<Index, DecodeError>)
    ensures
        match checked(index@) {
            Ok(valid) => found matches Ok(same) && same@ == valid,
            Err(error) => found matches Err(e) && e == error,
        },
{
    let mut i: usize = 0;
    while i < index.emojis.len()
        invariant
            i <= index.emojis@.len(),
            forall|j: int| 0 <= j < i ==> (#[trigger] index@.emojis[j]).wf(),
        decreases index.emojis@.len() - i,
    {
        if !index.emojis[i].is_valid() {
            proof {
                assert(index@.emojis[i as int] == index.emojis@[i as int]@);
                lemma_first_invalid(index@.emojis, i as int);
            }
            return Err(DecodeError::Invalid { record: i });
        }
        assert(index@.emojis[i as int] == index.emojis@[i as int]@);
        i += 1;
    }
    if !distinct_texts(&index.locale_codes) {
        return Err(DecodeError::Locales);
    }
    Ok(index)
}

/// An index that one machine can hold and that is as the data model asks
/// comes back from the block it was written to as it was, with every rank at
/// 0.
pub proof fn lemma_round_trip(index: IndexView, block: Seq<u8>)
    requires
        index_fits(index),
        index.wf(),
        unpacked(block) == Some(index_bytes(index)),
    ensures
        decoded(block) == Ok::<IndexView, DecodeError>(index.unranked()),
{
    lemma_take_index(index);
    let back = index.unranked();
    assert forall|i: int| 0 <= i < back.emojis.len() implies (#[trigger] back.emojis[i]).wf() by {
        assert(index.emojis[i].wf());
        assert(back.emojis[i] == index.emojis[i].with_rank(0));
    }
}

/// What writing gives, for what the compressor gave: the block that it made,
/// or the error that says that it made none.
pub fn block_or_error(made: Result<Vec<u8>, std::io::Error>) -> (out: Result<
    Vec<u8>,
    EncodeError,
>)
    ensures
        match made {
            Ok(block) => out == Ok::<Vec<u8>, EncodeError>(block),
            Err(_) => out == Err::<Vec<u8>, EncodeError>(EncodeError::Compression),
        },
{
    match made {
        Ok(block) => Ok(block),
        Err(_) => Err(EncodeError::Compression),
    }
}

impl Index {
    /// Reads an index from a block of bytes. An index comes out of nothing
    /// but a block that holds its own stored form, and it comes out as the
    /// data model asks, with every rank at 0.
    pub fn from_bytes(bytes: &[u8]) -> (found: Result<Index, DecodeError>)
        ensures
            match decoded(bytes@) {
                Ok(index) => found matches Ok(read) && read@ == index && index.wf(),
                Err(error) => found matches Err(e) && e == error,
            },
            bytes@.len() < 4 ==> found == Err::<Index, DecodeError>(DecodeError::Compression),
            found matches Ok(read) ==> unpacked(bytes@) == Some(index_bytes(read@)) && read@
                == read@.unranked(),
    {
        let raw = match decompress(bytes) {
            Ok(raw) => raw,
            Err(_) => { return Err(DecodeError::Compression); },
        };
        match deserialize(raw.as_slice()) {
            Ok(index) => check(index),
            Err(e) => Err(e),
        }
    }

    /// Writes the index to a block of bytes. The ranks are not written.
    ///
    /// The stored form of the index is handed to the compressor at the
    /// highest level. Whether the compressor makes a block of it is its own
    /// affair: it needs memory of its own, and it takes no more than
    /// [`MAX_CONTENT`] bytes. The block that it makes holds the index, and
    /// [`block_or_error`] says what is handed out for what it gave.
    pub fn to_bytes(&self) -> (made: Result<Vec<u8>, EncodeError>)
        ensures
            match made {
                Ok(block) => {
                    &&& block@ == packed(index_bytes(self@), LEVEL)
                    &&& unpacked(block@) == Some(index_bytes(self@))
                    &&& self@.wf() ==> decoded(block@) == Ok::<IndexView, DecodeError>(
                        self@.unranked(),
                    )
                },
                Err(error) => error == EncodeError::Compression,
            },
            index_bytes(self@).len() > MAX_CONTENT ==> made is Err,
    {
        let raw = serialize(self);
        assert(raw@.len() > 0) by {
            assert(raw@[0] == VERSION);
        }
        let made = compress(raw.as_slice(), LEVEL);
        proof {
            if made is Ok && self@.wf() {
                lemma_round_trip(self@, made->Ok_0@);
            }
        }
        block_or_error(made)
    }
}

} // verus!
