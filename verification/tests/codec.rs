use emojifinder::codec::{block_or_error, check, EncodeError};
use emojifinder::decode::{deserialize, DecodeError};
use emojifinder::emoji::Emoji;
use emojifinder::encode::serialize;
use emojifinder::format::{
    Reason, TAG_EMOJIS, TAG_KEYWORDS, TAG_LOCALES, TAG_NAME, TAG_SVG, TAG_VALUE, VERSION,
};
use emojifinder::index::Index;

fn sample() -> Index {
    let mut grin = Emoji::new("\u{1f600}".to_string(), "<svg>grin \u{e9}</svg>".to_string()).unwrap();
    grin.set_name("en", "grinning face".to_string());
    grin.set_name("de", "grinsendes Gesicht".to_string());
    grin.set_keywords("en", vec!["face".to_string(), "grin".to_string()]);
    grin.set_keywords("de", Vec::new());
    grin.set_keywords("ja", vec!["\u{9854}".to_string(), "".to_string()]);
    let bare = Emoji::new("\u{1f431}".to_string(), String::new()).unwrap();
    let mut flag = Emoji::new("\u{1f1eb}\u{1f1f7}".to_string(), "<svg/>".to_string()).unwrap();
    flag.set_name("fr", "".to_string());
    Index::new(
        vec![grin, bare, flag],
        vec!["en".to_string(), "de".to_string(), "ja".to_string(), "fr".to_string()],
    )
}

fn same_stored(a: &Index, b: &Index) {
    assert_eq!(a.locale_codes, b.locale_codes);
    assert_eq!(a.emojis.len(), b.emojis.len());
    for (x, y) in a.emojis.iter().zip(b.emojis.iter()) {
        assert_eq!(x.value, y.value);
        assert_eq!(x.name, y.name);
        assert_eq!(x.keywords, y.keywords);
        assert_eq!(x.svg, y.svg);
    }
}

fn number(n: u64) -> Vec<u8> {
    n.to_le_bytes().to_vec()
}

fn text(s: &str) -> Vec<u8> {
    let mut out = number(s.len() as u64);
    out.extend_from_slice(s.as_bytes());
    out
}

fn pack(raw: &[u8]) -> Vec<u8> {
    lz4::block::compress(raw, None, true).unwrap()
}

fn malformed(offset: usize, reason: Reason) -> DecodeError {
    DecodeError::Malformed { offset, reason }
}

#[test]
fn round_trip_keeps_every_field() {
    let mut index = sample();
    index.search("en", "grin");
    assert!(index.emojis[0].rank > 0);
    let block = index.to_bytes().unwrap();
    let back = Index::from_bytes(&block).unwrap();
    same_stored(&index, &back);
    for emoji in &back.emojis {
        assert_eq!(emoji.rank, 0);
    }
}

#[test]
fn round_trip_of_an_empty_index() {
    let index = Index::new(Vec::new(), Vec::new());
    let back = Index::from_bytes(&index.to_bytes().unwrap()).unwrap();
    assert!(back.emojis.is_empty());
    assert!(back.locale_codes.is_empty());
}

#[test]
fn round_trip_of_many_records() {
    let mut list = Vec::new();
    for i in 0..2000u32 {
        let mut emoji = Emoji::new(char::from_u32(0x4e00 + i).unwrap().to_string(), format!("<svg id='{}'/>", i)).unwrap();
        if i % 2 == 0 {
            emoji.set_name("en", format!("name {}", i));
        }
        if i % 3 == 0 {
            emoji.set_keywords("en", (0..i % 7).map(|k| format!("kw{} {}", k, i)).collect());
        }
        list.push(emoji);
    }
    let index = Index::new(list, vec!["en".to_string()]);
    let block = index.to_bytes().unwrap();
    assert!(block.len() < serialize(&index).len());
    same_stored(&index, &Index::from_bytes(&block).unwrap());
}

#[test]
fn writing_twice_gives_the_same_bytes() {
    let index = sample();
    assert_eq!(index.to_bytes().unwrap(), index.to_bytes().unwrap());
    assert_eq!(serialize(&index), serialize(&index));
}

#[test]
fn block_is_the_compressed_stored_form() {
    let index = sample();
    let raw = serialize(&index);
    let block = index.to_bytes().unwrap();
    assert_ne!(block, raw);
    assert_eq!(lz4::block::decompress(&block, None).unwrap(), raw);
    assert_eq!(&block[..4], &(raw.len() as u32).to_le_bytes());
}

#[test]
fn stored_form_byte_by_byte() {
    let mut emoji = Emoji::new("A".to_string(), "s".to_string()).unwrap();
    emoji.set_name("en", "a".to_string());
    emoji.set_keywords("en", vec!["k".to_string(), "".to_string()]);
    emoji.rank = 12345;
    let index = Index::new(vec![emoji], vec!["en".to_string()]);
    let mut expected = vec![VERSION, TAG_EMOJIS];
    expected.extend(number(1));
    expected.push(TAG_VALUE);
    expected.extend(text("A"));
    expected.push(TAG_NAME);
    expected.extend(number(1));
    expected.extend(text("en"));
    expected.extend(text("a"));
    expected.push(TAG_KEYWORDS);
    expected.extend(number(1));
    expected.extend(text("en"));
    expected.extend(number(2));
    expected.extend(text("k"));
    expected.extend(text(""));
    expected.push(TAG_SVG);
    expected.extend(text("s"));
    expected.push(TAG_LOCALES);
    expected.extend(number(1));
    expected.extend(text("en"));
    assert_eq!(serialize(&index), expected);
    assert_eq!(&expected[..11], &[1, 1, 1, 0, 0, 0, 0, 0, 0, 0, 0x10]);
    assert_eq!(&expected[11..20], &[1, 0, 0, 0, 0, 0, 0, 0, b'A']);
    let back = deserialize(&expected).unwrap();
    same_stored(&index, &back);
    assert_eq!(back.emojis[0].rank, 0);
}

#[test]
fn text_length_counts_bytes() {
    let index = Index::new(Vec::new(), vec!["\u{e9}".to_string()]);
    let raw = serialize(&index);
    let mut expected = vec![VERSION, TAG_EMOJIS];
    expected.extend(number(0));
    expected.push(TAG_LOCALES);
    expected.extend(number(1));
    expected.extend(number(2));
    expected.extend([0xc3, 0xa9]);
    assert_eq!(raw, expected);
}

#[test]
fn short_block_is_refused() {
    assert_eq!(Index::from_bytes(&[]).unwrap_err(), DecodeError::Compression);
    assert_eq!(Index::from_bytes(&[1, 2, 3]).unwrap_err(), DecodeError::Compression);
}

#[test]
fn corrupt_block_is_refused() {
    let mut block = sample().to_bytes().unwrap();
    block.truncate(block.len() / 2);
    assert_eq!(Index::from_bytes(&block).unwrap_err(), DecodeError::Compression);
    assert_eq!(
        Index::from_bytes(&[0xff, 0xff, 0xff, 0xff, 0, 0]).unwrap_err(),
        DecodeError::Compression
    );
}

#[test]
fn block_of_something_else_is_refused() {
    let error = Index::from_bytes(&pack(b"not an index at all")).unwrap_err();
    assert_eq!(error, malformed(0, Reason::Expected { byte: VERSION }));
}

#[test]
fn empty_stored_form_is_truncated() {
    assert_eq!(deserialize(&[]).unwrap_err(), malformed(0, Reason::Truncated));
    assert_eq!(deserialize(&[VERSION]).unwrap_err(), malformed(1, Reason::Truncated));
    assert_eq!(
        deserialize(&[VERSION, TAG_EMOJIS, 0, 0, 0]).unwrap_err(),
        malformed(2, Reason::Truncated)
    );
}

#[test]
fn every_cut_of_a_stored_form_is_refused() {
    let raw = serialize(&sample());
    for cut in 0..raw.len() {
        match deserialize(&raw[..cut]) {
            Err(DecodeError::Malformed { offset, reason: Reason::Truncated }) => {
                assert!(offset <= cut)
            }
            other => panic!("cut at {}: {:?}", cut, other.map(|_| ())),
        }
    }
    assert!(deserialize(&raw).is_ok());
}

#[test]
fn missing_field_is_named() {
    let mut raw = vec![VERSION, TAG_EMOJIS];
    raw.extend(number(1));
    raw.push(TAG_VALUE);
    raw.extend(text("A"));
    // The names are missing: the keywords follow at once.
    raw.push(TAG_KEYWORDS);
    raw.extend(number(0));
    assert_eq!(deserialize(&raw).unwrap_err(), malformed(20, Reason::Expected { byte: TAG_NAME }));
    assert_eq!(
        Index::from_bytes(&pack(&raw)).unwrap_err(),
        malformed(20, Reason::Expected { byte: TAG_NAME })
    );
}

#[test]
fn wrong_version_is_refused() {
    let mut raw = serialize(&sample());
    raw[0] = 2;
    assert_eq!(deserialize(&raw).unwrap_err(), malformed(0, Reason::Expected { byte: VERSION }));
    raw[0] = VERSION;
    raw[1] = TAG_LOCALES;
    assert_eq!(deserialize(&raw).unwrap_err(), malformed(1, Reason::Expected { byte: TAG_EMOJIS }));
}

#[test]
fn text_that_is_not_utf8_is_refused() {
    let mut raw = vec![VERSION, TAG_EMOJIS];
    raw.extend(number(0));
    raw.push(TAG_LOCALES);
    raw.extend(number(1));
    raw.extend(number(2));
    raw.extend([0xc3, 0x28]);
    assert_eq!(deserialize(&raw).unwrap_err(), malformed(27, Reason::Text));
}

#[test]
fn text_longer_than_the_bytes_is_refused() {
    let mut raw = vec![VERSION, TAG_EMOJIS];
    raw.extend(number(0));
    raw.push(TAG_LOCALES);
    raw.extend(number(1));
    raw.extend(number(u64::MAX));
    raw.extend(b"en");
    assert_eq!(deserialize(&raw).unwrap_err(), malformed(27, Reason::Truncated));
}

#[test]
fn list_longer_than_the_bytes_is_refused() {
    let mut raw = vec![VERSION, TAG_EMOJIS];
    raw.extend(number(u64::MAX));
    assert_eq!(deserialize(&raw).unwrap_err(), malformed(10, Reason::Truncated));
    let mut raw = vec![VERSION, TAG_EMOJIS];
    raw.extend(number(0));
    raw.push(TAG_LOCALES);
    raw.extend(number(3));
    raw.extend(text("en"));
    assert_eq!(deserialize(&raw).unwrap_err(), malformed(29, Reason::Truncated));
}

#[test]
fn trailing_bytes_are_refused() {
    let mut raw = serialize(&sample());
    let end = raw.len();
    raw.push(0);
    assert_eq!(deserialize(&raw).unwrap_err(), malformed(end, Reason::Trailing));
}

#[test]
fn record_without_character_is_refused() {
    let mut index = sample();
    index.emojis[1].value = String::new();
    let block = index.to_bytes().unwrap();
    assert_eq!(Index::from_bytes(&block).unwrap_err(), DecodeError::Invalid { record: 1 });
    // The stored form itself reads well: it is the record that is refused.
    let read = deserialize(&serialize(&index)).unwrap();
    assert_eq!(check(read).unwrap_err(), DecodeError::Invalid { record: 1 });
}

#[test]
fn record_with_a_locale_twice_is_refused() {
    let mut index = sample();
    index.emojis[2].keywords.push(("en".to_string(), Vec::new()));
    index.emojis[2].keywords.push(("en".to_string(), vec!["x".to_string()]));
    assert!(!index.emojis[2].is_valid());
    assert_eq!(
        Index::from_bytes(&index.to_bytes().unwrap()).unwrap_err(),
        DecodeError::Invalid { record: 2 }
    );
    index.emojis[0].name.push(("de".to_string(), "noch eins".to_string()));
    assert_eq!(
        Index::from_bytes(&index.to_bytes().unwrap()).unwrap_err(),
        DecodeError::Invalid { record: 0 }
    );
}

#[test]
fn valid_index_passes_the_check() {
    let index = sample();
    assert!(index.emojis.iter().all(|e| e.is_valid()));
    let checked = check(sample()).unwrap();
    same_stored(&index, &checked);
}

#[test]
fn compressor_gives_back_what_it_took() {
    let mode = Some(lz4::block::CompressionMode::HIGHCOMPRESSION(emojifinder::block::LEVEL));
    let long: Vec<u8> = (0..100_000u32).map(|i| (i * i % 251) as u8).collect();
    for content in [&b"a"[..], &b"short text"[..], &[0u8; 4096][..], &long[..]] {
        let block = lz4::block::compress(content, mode, true).unwrap();
        assert_eq!(lz4::block::decompress(&block, None).unwrap(), content);
    }
}

#[test]
fn encode_error_is_one_kind() {
    assert_eq!(EncodeError::Compression, EncodeError::Compression);
}

#[test]
fn errors_say_what_is_wrong_and_where() {
    assert_eq!(DecodeError::Compression.message(), "the block cannot be decompressed");
    assert_eq!(
        malformed(0, Reason::Truncated).message(),
        "byte 0: the data ends too early"
    );
    assert_eq!(
        malformed(20, Reason::Expected { byte: TAG_NAME }).message(),
        "byte 20: expected the mark 17"
    );
    assert_eq!(malformed(1234567, Reason::Text).message(), "byte 1234567: a text is not UTF-8");
    assert_eq!(
        malformed(usize::MAX, Reason::Trailing).message(),
        format!("byte {}: data follows the end of the index", usize::MAX)
    );
    assert_eq!(
        DecodeError::Invalid { record: 10 }.message(),
        "record 10 has no character or names a locale twice"
    );
    assert_eq!(EncodeError::Compression.message(), "the index cannot be compressed");
}

#[test]
fn locale_code_twice_is_refused() {
    let mut index = sample();
    index.locale_codes.push("de".to_string());
    assert!(!index.is_valid());
    assert_eq!(Index::from_bytes(&index.to_bytes().unwrap()).unwrap_err(), DecodeError::Locales);
    assert_eq!(
        DecodeError::Locales.message(),
        "a locale code stands twice in the list of locales"
    );
    // A record that is not valid is named first.
    index.emojis[0].value = String::new();
    assert_eq!(
        Index::from_bytes(&index.to_bytes().unwrap()).unwrap_err(),
        DecodeError::Invalid { record: 0 }
    );
}

#[test]
fn what_is_read_is_valid() {
    let index = sample();
    assert!(index.is_valid());
    assert!(Index::from_bytes(&index.to_bytes().unwrap()).unwrap().is_valid());
    assert!(Index::default().is_valid());
    assert!(Index::default().emojis.is_empty());
}

#[test]
fn block_or_the_error_of_the_compressor() {
    assert_eq!(block_or_error(Ok(vec![1, 2, 3])), Ok(vec![1, 2, 3]));
    assert_eq!(block_or_error(Ok(Vec::new())), Ok(Vec::new()));
    let refused = std::io::Error::new(std::io::ErrorKind::InvalidInput, "too long");
    assert_eq!(block_or_error(Err(refused)), Err(EncodeError::Compression));
    let failed = std::io::Error::new(std::io::ErrorKind::Other, "failed");
    assert_eq!(block_or_error(Err(failed)), Err(EncodeError::Compression));
}
