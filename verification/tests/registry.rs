use opal::json::{parse_text, Json};
use opal::registry::{
    check_status, file_failure, packument_failure, source_of, Download, NpmRegistry, Packument,
    RegistryError, Source,
};
use opal::semver::Version;

fn document(text: &str) -> Json {
    parse_text(text).unwrap()
}

fn sample() -> Json {
    document(
        r#"{
        "name": "demo",
        "dist-tags": { "latest": "1.2.0", "next": "2.0.0-rc.1" },
        "versions": {
            "1.0.0": {
                "version": "1.0.0",
                "dependencies": { "left-pad": "^1.0.0" },
                "dist": { "tarball": "https://example.invalid/demo-1.0.0.tgz", "integrity": "sha512-Zm9vYmFy" }
            },
            "1.2.0": {
                "version": "1.2.0",
                "dist": { "tarball": "https://example.invalid/demo-1.2.0.tgz", "shasum": "0beec7b5ea3f0fdbc95d0dd47f3c5bc275da8a33" }
            },
            "not-a-version": { "dist": { "tarball": "x", "integrity": "sha512-Zm9vYmFy" } },
            "1.3.0": { "version": "1.3.0" }
        }
    }"#,
    )
}

#[test]
fn test_parses_versions_and_tags() {
    let packument = Packument::parse("demo", &sample());
    assert_eq!(packument.versions.len(), 2);
    assert_eq!(
        packument.dist_tags.get_str("latest").map(|tag| tag.to_string()),
        Some("1.2.0".to_string())
    );

    let metadata = packument.version(&Version::new(1, 0, 0)).unwrap();
    assert_eq!(metadata.manifest.requirements.len(), 1);
    assert_eq!(metadata.tarball, "https://example.invalid/demo-1.0.0.tgz");
}

#[test]
fn test_skips_unusable_entries_rather_than_failing() {
    let packument = Packument::parse("demo", &sample());
    // "not-a-version" is unparseable and "1.3.0" has no dist; neither can be
    // installed, and neither prevents installing the rest.
    assert!(packument.version(&Version::new(1, 3, 0)).is_none());
}

#[test]
fn test_falls_back_to_shasum_when_integrity_is_absent() {
    let packument = Packument::parse("demo", &sample());
    let metadata = packument.version(&Version::new(1, 2, 0)).unwrap();
    assert!(metadata.integrity.to_string().starts_with("sha1-"));
}

#[test]
fn test_packument_url_shapes() {
    let http = NpmRegistry::new("https://registry.npmjs.org/");
    assert_eq!(
        http.packument_url("@scope/pkg"),
        "https://registry.npmjs.org/@scope%2fpkg"
    );
    let file = NpmRegistry::new("file:///tmp/fixture");
    assert_eq!(
        file.packument_url("@scope/pkg"),
        "file:///tmp/fixture/@scope/pkg.json"
    );
}

#[test]
fn documents_are_read_from_their_bytes() {
    let read = Packument::read("demo", "https://example.invalid/demo", br#"{ "versions": {} }"#);
    assert_eq!(read.unwrap().versions.len(), 0);
    let error = Packument::read("demo", "https://example.invalid/demo", b"<html>").unwrap_err();
    assert!(error.to_string().contains("https://example.invalid/demo"));
}

#[test]
fn urls_name_their_source() {
    assert_eq!(
        source_of("file:///tmp/fixture/a.json"),
        Source::File("/tmp/fixture/a.json".to_string())
    );
    assert_eq!(source_of("https://registry.npmjs.org/a"), Source::Http);
}

#[test]
fn failures_are_classified() {
    assert!(check_status("u", 200).is_ok());
    assert!(check_status("u", 404).is_err());
    assert!(check_status("u", 500).is_err());
    let missing = packument_failure("ghost", check_status("u", 404).unwrap_err());
    assert!(matches!(missing, RegistryError::NotFound(_)), "{missing:?}");
    let other = packument_failure("ghost", check_status("u", 500).unwrap_err());
    assert!(!matches!(other, RegistryError::NotFound(_)), "{other:?}");
    let absent = packument_failure("ghost", file_failure("file:///x", true, "gone"));
    assert!(matches!(absent, RegistryError::NotFound(_)), "{absent:?}");
    let denied = packument_failure("ghost", file_failure("file:///x", false, "denied"));
    assert!(denied.to_string().contains("denied"));
}

#[test]
fn downloads_are_the_chunks_in_order() {
    let mut download = Download::new();
    assert!(download.absorb(b"abc").is_some());
    download.absorb(b"def");
    assert_eq!(download.finish(), b"abcdef");
}

#[test]
fn usable_versions_are_found_under_themselves() {
    let packument = Packument::parse(
        "demo",
        &document(
            r#"{ "versions": {
                "1.0.0": { "dist": { "tarball": "a", "shasum": "0000000000000000000000000000000000000000" } },
                "2.0.0": { "dist": { "tarball": "b" } },
                "v3": { "dist": { "tarball": "c", "shasum": "0000000000000000000000000000000000000000" } }
            } }"#,
        ),
    );
    let first = packument.version(&Version::new(1, 0, 0)).unwrap();
    assert_eq!(first.tarball, "a");
    assert_eq!(first.version, Version::new(1, 0, 0));
    assert!(packument.version(&Version::new(2, 0, 0)).is_none());
    assert!(packument.version(&Version::new(3, 0, 0)).is_none());
}
