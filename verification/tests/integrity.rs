use opal::integrity::{base64_decode, base64_encode, Algorithm, Integrity, IntegrityError};

#[test]
fn test_base64_round_trips() {
    for payload in [&b""[..], b"f", b"fo", b"foo", b"foob", b"fooba", b"foobar"] {
        let encoded = base64_encode(payload);
        assert_eq!(base64_decode(&encoded).unwrap(), payload, "{encoded}");
    }
    assert_eq!(base64_encode(b"foobar"), "Zm9vYmFy");
    assert_eq!(base64_encode(b"fo"), "Zm8=");
}

#[test]
fn test_verifies_matching_bytes() {
    let integrity = Integrity::of(Algorithm::Sha512, b"tarball bytes");
    integrity.verify(b"tarball bytes").unwrap();
    assert!(matches!(
        integrity.verify(b"other bytes"),
        Err(IntegrityError::Mismatch { .. })
    ));
}

#[test]
fn test_round_trips_through_its_string_form() {
    let integrity = Integrity::of(Algorithm::Sha512, b"payload");
    let text = integrity.to_string();
    assert!(text.starts_with("sha512-"));
    assert_eq!(Integrity::parse(&text).unwrap(), integrity);
}

#[test]
fn test_prefers_sha512_when_several_are_offered() {
    let strong = Integrity::of(Algorithm::Sha512, b"payload");
    let weak = Integrity::of(Algorithm::Sha1, b"payload");
    let combined = format!("{} {}", weak.to_string(), strong.to_string());
    assert_eq!(Integrity::parse(&combined).unwrap(), strong);
}

#[test]
fn test_legacy_shasum() {
    let expected = Integrity::of(Algorithm::Sha1, b"payload");
    let hex: String = expected
        .digest()
        .iter()
        .map(|byte| format!("{byte:02x}"))
        .collect();
    assert_eq!(Integrity::from_shasum(&hex).unwrap(), expected);
    assert!(Integrity::from_shasum("nope").is_err());
}

#[test]
fn test_rejects_unknown_algorithms() {
    assert!(Integrity::parse("md5-abc").is_err());
    assert!(Integrity::parse("").is_err());
}

#[test]
fn digests_are_the_published_ones() {
    assert_eq!(
        Integrity::of(Algorithm::Sha1, b"foo").to_string(),
        Integrity::from_shasum("0beec7b5ea3f0fdbc95d0dd47f3c5bc275da8a33")
            .unwrap()
            .to_string()
    );
    assert_eq!(
        Integrity::of(Algorithm::Sha512, b"").to_string(),
        "sha512-z4PhNX7vuL3xVChQ1m2AB9Yg5AULVxXcg/SpIdNs6c5H0NE8XYXysP+DGNKHfuwvY7kxvUdBeoGlODJ6+SfaPg=="
    );
    assert_eq!(Algorithm::Sha1.digest(b"").len(), 20);
    assert_eq!(Algorithm::Sha512.digest(b"").len(), 64);
    assert_eq!(Algorithm::Sha1.name(), "sha1");
    assert_eq!(Integrity::of(Algorithm::Sha1, b"").algorithm(), Algorithm::Sha1);
}

#[test]
fn malformed_base64_is_refused() {
    assert_eq!(base64_decode("Zm9v!"), None);
    assert_eq!(base64_decode("Z"), base64_decode("Z="));
    assert_eq!(base64_decode("Zm8"), Some(b"fo".to_vec()));
}

#[test]
fn integrity_failures_say_what_was_wrong() {
    let error = Integrity::parse("md5-abc").unwrap_err();
    assert!(error.to_string().contains("md5-abc"), "{}", error.to_string());
    let integrity = Integrity::of(Algorithm::Sha512, b"real");
    let error = integrity.verify(b"fake").unwrap_err();
    let message = error.to_string();
    assert!(message.contains(&integrity.to_string()), "{message}");
    assert!(message.contains(&Integrity::of(Algorithm::Sha512, b"fake").to_string()));
}
