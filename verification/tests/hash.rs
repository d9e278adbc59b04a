use opal::hash::{ContentHash, ContentHasher, HashBuilder, HashParseError, HASH_HEX_LEN};

#[test]
fn test_same_input_same_hash() {
    assert_eq!(
        ContentHash::of(b"export default 1"),
        ContentHash::of(b"export default 1")
    );
    assert_ne!(ContentHash::of(b"a"), ContentHash::of(b"b"));
    assert_eq!(ContentHash::of(b"").to_hex().len(), HASH_HEX_LEN);
}

#[test]
fn test_hex_round_trip() {
    let hash = ContentHash::of(b"round trip");
    assert_eq!(ContentHash::parse_hex(&hash.to_hex()).unwrap(), hash);
    assert!(ContentHash::parse_hex("abc").is_err());
    assert!(ContentHash::parse_hex(&"z".repeat(HASH_HEX_LEN)).is_err());
}

#[test]
fn test_streaming_matches_in_memory() {
    // Larger than BLAKE3's internal chunk size, so the streaming path
    // actually spans multiple chunks.
    let data = vec![7u8; 100_000];
    let mut hasher = ContentHasher::new();
    for chunk in data.chunks(4096) {
        hasher.update(chunk);
    }
    assert_eq!(hasher.finish(), ContentHash::of(&data));
}

#[test]
fn test_chunked_hashing_matches_whole() {
    let mut hasher = ContentHasher::new();
    hasher.update(b"import a ").update(b"from './a.js';");
    assert_eq!(hasher.finish(), ContentHash::of(b"import a from './a.js';"));
}

#[test]
fn test_builder_is_domain_separated() {
    let one = HashBuilder::new("opal.graph.v1").push_str("a").finish();
    let two = HashBuilder::new("opal.memo.v1").push_str("a").finish();
    assert_ne!(one, two);
}

#[test]
fn test_builder_parts_are_unambiguous() {
    let split_one = HashBuilder::new("d").push_str("ab").push_str("c").finish();
    let split_two = HashBuilder::new("d").push_str("a").push_str("bc").finish();
    assert_ne!(split_one, split_two);
}

#[test]
fn the_empty_input_has_its_published_digest() {
    assert_eq!(
        ContentHash::of(b"").to_hex(),
        "af1349b9f5f9a1a6a0404dea36dcc9499bcb25c9adc112b7cc9a93cae41f3262"
    );
    assert_eq!(ContentHash::of(b"").to_string(), ContentHash::of(b"").to_hex());
}

#[test]
fn parts_are_framed_by_their_length() {
    let mut framed: Vec<u8> = Vec::new();
    for part in [&b"d"[..], b"text", &7u64.to_le_bytes(), b"raw"] {
        framed.extend_from_slice(&(part.len() as u64).to_le_bytes());
        framed.extend_from_slice(part);
    }
    let mut builder = HashBuilder::new("d");
    builder.push_str("text");
    builder.push_u64(7);
    builder.push_bytes(b"raw");
    assert_eq!(builder.finish(), ContentHash::of(&framed));
}

#[test]
fn hash_bytes_go_in_and_out() {
    let hash = ContentHash::of(b"bytes");
    assert_eq!(ContentHash::from_bytes(*hash.as_bytes()), hash);
    assert!(hash.same(&ContentHash::of(b"bytes")));
    assert!(!hash.same(&ContentHash::of(b"other")));
    let mut builder = HashBuilder::new("d");
    builder.push_hash(&hash);
    let mut bytes = HashBuilder::new("d");
    bytes.push_bytes(hash.as_bytes());
    assert_eq!(builder.finish(), bytes.finish());
}

#[test]
fn unreadable_hashes_say_why() {
    let short = ContentHash::parse_hex("abc").unwrap_err();
    assert_eq!(short, HashParseError::Length(3));
    assert_eq!(short.to_string(), "expected 64 hex characters, got 3");

    let digit = ContentHash::parse_hex(&"g".repeat(HASH_HEX_LEN)).unwrap_err();
    assert_eq!(digit, HashParseError::Digit);
    assert_eq!(digit.to_string(), "value is not lowercase hex");

    // The length that counts is the one in bytes.
    assert_eq!(
        ContentHash::parse_hex(&"ä".repeat(HASH_HEX_LEN / 2)).unwrap_err(),
        HashParseError::Digit
    );
    let upper = ContentHash::of(b"").to_hex().to_uppercase();
    assert_eq!(ContentHash::parse_hex(&upper).unwrap(), ContentHash::of(b""));
}

#[test]
fn a_plus_sign_is_no_hex_digit() {
    let text = format!("+{}", "0".repeat(63));
    assert!(ContentHash::parse_hex(&text).is_err());
}
