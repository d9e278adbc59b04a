use std::cmp::Ordering;

use opal::resolve::satisfied_by;
use opal::semver::{Range, SemverError, Version};

fn version(text: &str) -> Version {
    Version::parse(text).expect(text)
}

fn range(text: &str) -> Range {
    Range::parse(text).expect(text)
}

fn matches(range_text: &str, version_text: &str) -> bool {
    range(range_text).satisfies(&version(version_text))
}

#[test]
fn test_parses_and_renders_versions() {
    assert_eq!(version("1.2.3").to_string(), "1.2.3");
    assert_eq!(version("v1.2.3").to_string(), "1.2.3");
    assert_eq!(version("1.2.3-alpha.1").to_string(), "1.2.3-alpha.1");
    assert_eq!(
        version("1.2.3-0.beta+build.5").to_string(),
        "1.2.3-0.beta+build.5"
    );
}

#[test]
fn test_rejects_malformed_versions() {
    for text in ["1.2", "1.2.3.4", "01.2.3", "1.2.3-", "1.2.3+", "a.b.c", ""] {
        assert!(Version::parse(text).is_err(), "{text:?} should not parse");
    }
}

#[test]
fn test_orders_prereleases_below_their_release() {
    assert!(version("1.0.0-alpha") < version("1.0.0"));
    assert!(version("1.0.0-alpha") < version("1.0.0-alpha.1"));
    assert!(version("1.0.0-alpha.1") < version("1.0.0-alpha.beta"));
    assert!(version("1.0.0-beta.2") < version("1.0.0-beta.11"));
    assert!(version("1.0.0-rc.1") < version("1.0.0"));
    assert!(version("1.0.0") < version("1.0.1"));
}

#[test]
fn test_build_metadata_is_ignored_when_ordering() {
    assert_eq!(
        version("1.0.0+a").partial_cmp(&version("1.0.0+b")),
        Some(Ordering::Equal)
    );
}

#[test]
fn test_caret_ranges() {
    assert!(matches("^1.2.3", "1.2.3"));
    assert!(matches("^1.2.3", "1.9.9"));
    assert!(!matches("^1.2.3", "1.2.2"));
    assert!(!matches("^1.2.3", "2.0.0"));
    // Below 1.0.0 the left-most non-zero part is the one that is locked.
    assert!(matches("^0.2.3", "0.2.9"));
    assert!(!matches("^0.2.3", "0.3.0"));
    assert!(matches("^0.0.3", "0.0.3"));
    assert!(!matches("^0.0.3", "0.0.4"));
    assert!(matches("^1.2.x", "1.5.0"));
    assert!(matches("^0.0.x", "0.0.9"));
    assert!(!matches("^0.0.x", "0.1.0"));
}

#[test]
fn test_tilde_ranges() {
    assert!(matches("~1.2.3", "1.2.9"));
    assert!(!matches("~1.2.3", "1.3.0"));
    assert!(matches("~1.2", "1.2.9"));
    assert!(!matches("~1.2", "1.3.0"));
    assert!(matches("~1", "1.9.9"));
    assert!(!matches("~1", "2.0.0"));
}

#[test]
fn test_wildcards_and_partials() {
    assert!(matches("*", "9.9.9"));
    assert!(matches("", "9.9.9"));
    assert!(matches("1.x", "1.9.9"));
    assert!(!matches("1.x", "2.0.0"));
    assert!(matches("1.2", "1.2.9"));
    assert!(!matches("1.2", "1.3.0"));
}

#[test]
fn test_comparator_sets_and_unions() {
    assert!(matches(">=1.2.0 <2.0.0", "1.9.0"));
    assert!(!matches(">=1.2.0 <2.0.0", "2.0.0"));
    assert!(matches(">= 1.2.0 < 2.0.0", "1.9.0"));
    assert!(matches("^1 || ^3", "3.1.0"));
    assert!(!matches("^1 || ^3", "2.0.0"));
    assert!(matches(">1.2", "1.3.0"));
    assert!(!matches(">1.2", "1.2.9"));
    assert!(matches("<=1.2", "1.2.9"));
    assert!(!matches("<=1.2", "1.3.0"));
}

#[test]
fn test_hyphen_ranges() {
    assert!(matches("1.2.3 - 2.3.4", "2.3.4"));
    assert!(!matches("1.2.3 - 2.3.4", "2.3.5"));
    assert!(matches("1.2 - 2.3", "2.3.9"));
    assert!(!matches("1.2 - 2.3", "2.4.0"));
    assert!(matches("1.2.3 - 2", "2.9.9"));
    assert!(!matches("1.2.3 - 2", "3.0.0"));
}

#[test]
fn test_prereleases_need_an_explicit_invitation() {
    // The rule that keeps every range from picking up alphas.
    assert!(!matches(">=1.0.0", "2.0.0-beta.1"));
    assert!(!matches("*", "1.0.0-beta.1"));
    assert!(!matches("^1.0.0", "1.5.0-beta.1"));
    assert!(matches(">=1.0.0-beta.1", "1.0.0-beta.2"));
    assert!(matches("^1.0.0-beta.1", "1.0.0-rc.1"));
    assert!(matches("1.0.0-beta.1", "1.0.0-beta.1"));
}

#[test]
fn test_max_satisfying_picks_the_highest_match() {
    let versions: Vec<Version> = ["1.0.0", "1.2.0", "1.9.3", "2.0.0", "2.1.0-rc.1"]
        .iter()
        .map(|text| version(text))
        .collect();
    assert_eq!(
        range("^1.0.0")
            .max_satisfying(&versions)
            .unwrap()
            .to_string(),
        "1.9.3"
    );
    assert_eq!(
        range("*").max_satisfying(&versions).unwrap().to_string(),
        "2.0.0"
    );
    assert!(range("^3.0.0").max_satisfying(&versions).is_none());
}

#[test]
fn test_rejects_malformed_ranges() {
    for text in ["^", ">=", "1.2.3 -", "not-a-range", "1.2.3.4"] {
        assert!(Range::parse(text).is_err(), "{text:?} should not parse");
    }
}


#[test]
fn rejections_carry_the_text_as_given() {
    let error = Version::parse("1.2").unwrap_err();
    assert_eq!(error, SemverError::Version("1.2".to_string()));
    assert_eq!(error.to_string(), "\"1.2\" is not a valid version");
    let error = Range::parse("1.2.3 -").unwrap_err();
    assert_eq!(error, SemverError::Range("1.2.3 -".to_string()));
    assert_eq!(error.to_string(), "\"1.2.3 -\" is not a valid version range");
}

#[test]
fn versions_read_back() {
    for text in ["0.0.0", "1.2.3-alpha.1", "1.2.3-0.beta+build.5", "10.20.30+x"] {
        let parsed = version(text);
        assert_eq!(version(&parsed.to_string()), parsed, "{text}");
    }
    assert!(version("1.0.0-rc.1").is_prerelease());
    assert!(!version("1.0.0+rc.1").is_prerelease());
    assert_eq!(version("1.2.3"), Version::new(1, 2, 3));
}

#[test]
fn numbers_stop_at_the_largest_that_fits() {
    assert!(Version::parse("18446744073709551615.0.0").is_ok());
    assert!(Version::parse("18446744073709551616.0.0").is_err());
    assert!(Version::parse("1.0.0-99999999999999999999").is_err());
    assert!(Version::parse("1.0.0-99999999999999999999a").is_ok());
}

#[test]
fn precedence_is_total() {
    let ascending = [
        "1.0.0-alpha",
        "1.0.0-alpha.1",
        "1.0.0-alpha.beta",
        "1.0.0-beta.2",
        "1.0.0-beta.11",
        "1.0.0",
        "1.0.1",
        "1.1.0",
        "2.0.0",
    ];
    for (i, left) in ascending.iter().enumerate() {
        for (j, right) in ascending.iter().enumerate() {
            let expected = if i < j {
                Ordering::Less
            } else if i == j {
                Ordering::Equal
            } else {
                Ordering::Greater
            };
            assert_eq!(version(left).partial_cmp(&version(right)), Some(expected));
        }
    }
}

#[test]
fn empty_and_any_ranges_agree() {
    for text in ["0.0.0", "9.9.9", "1.0.0-rc.1"] {
        let v = version(text);
        assert_eq!(Range::any().satisfies(&v), range("").satisfies(&v));
        assert_eq!(Range::any().satisfies(&v), range("*").satisfies(&v));
    }
    assert_eq!(range("^1.2.3").as_str(), "^1.2.3");
    assert_eq!(range(" ^1.2.3 ").to_string(), range(" ^1.2.3 ").as_str());
}

#[test]
fn caret_and_tilde_bounds_are_exact() {
    assert!(matches("^1", "1.0.0"));
    assert!(!matches("^1", "0.9.9"));
    assert!(matches("^0", "0.9.9"));
    assert!(!matches("^0", "1.0.0"));
    assert!(matches("^0.1", "0.1.5"));
    assert!(!matches("^0.1", "0.2.0"));
    assert!(matches("=1.2", "1.2.7"));
    assert!(matches("v1.2.3", "1.2.3"));
    assert!(!matches("<1.2", "1.2.0"));
    assert!(matches(">=1.2", "1.2.0"));
}

#[test]
fn equally_high_matches_give_the_last() {
    let versions = vec![version("1.0.0+a"), version("1.0.0+b")];
    let highest = range("*").max_satisfying(&versions).unwrap();
    assert_eq!(highest.to_string(), "1.0.0+b");
}

#[test]
fn edges_are_checked_against_their_range() {
    assert!(satisfied_by(&range("^1.0.0"), &version("1.2.0")));
    assert!(!satisfied_by(&range("^1.0.0"), &version("2.0.0")));
}

#[test]
fn caret_and_tilde_have_a_closed_form() {
    let numbers = [0u64, 1, 2, 9];
    for major in numbers {
        for minor in numbers {
            for patch in numbers {
                let caret = range(&format!("^{major}.{minor}.{patch}"));
                let tilde = range(&format!("~{major}.{minor}.{patch}"));
                for x in numbers {
                    for y in numbers {
                        for z in numbers {
                            let v = Version::new(x, y, z);
                            let taken = if major > 0 {
                                x == major && (y, z) >= (minor, patch)
                            } else if minor > 0 {
                                x == 0 && y == minor && z >= patch
                            } else {
                                x == 0 && y == 0 && z == patch
                            };
                            assert_eq!(satisfied_by(&caret, &v), taken);
                            let near = x == major && y == minor && z >= patch;
                            assert_eq!(satisfied_by(&tilde, &v), near);
                        }
                    }
                }
            }
        }
    }
}
