use opal::integrity::{Algorithm, Integrity};
use opal::lockfile::{parse, path_in, render, LockfileError};
use opal::manifest::DependencyClass;
use opal::resolve::{
    PackageId, RequirementRecord, Resolution, ResolvedEdge, ResolvedPackage,
};
use opal::semver::Version;
use opal::sorted::SortedMap;

fn sample() -> Resolution {
    let mut packages = SortedMap::new();
    let express = PackageId::new("express", Version::new(4, 18, 2));
    packages.insert(
        express.clone(),
        ResolvedPackage {
            id: express,
            tarball: "https://registry.example/express-4.18.2.tgz".to_string(),
            integrity: Integrity::of(Algorithm::Sha512, b"express"),
            dependencies: vec![ResolvedEdge {
                name: "accepts".to_string(),
                spec: ">=1.3.0 <2".to_string(),
                version: Version::new(1, 3, 8),
            }],
        },
    );
    let accepts = PackageId::new("accepts", Version::new(1, 3, 8));
    packages.insert(
        accepts.clone(),
        ResolvedPackage {
            id: accepts,
            tarball: "https://registry.example/accepts-1.3.8.tgz".to_string(),
            integrity: Integrity::of(Algorithm::Sha512, b"accepts"),
            dependencies: Vec::new(),
        },
    );

    Resolution {
        requirements: vec![RequirementRecord {
            class: DependencyClass::Runtime,
            name: "express".to_string(),
            spec: "^4.18.2".to_string(),
        }],
        packages,
        skipped: vec![("fsevents".to_string(), "not in the registry".to_string())],
    }
}

#[test]
fn test_round_trips() {
    let resolution = sample();
    let text = render(&resolution);
    let parsed = parse("opal.lock", &text).unwrap();
    assert_eq!(parsed, resolution);
}

#[test]
fn test_render_is_stable_and_sorted() {
    let text = render(&sample());
    let kinds: Vec<&str> = text
        .lines()
        .skip(1)
        .map(|line| line.split(' ').next().unwrap())
        .collect();
    assert_eq!(kinds, vec!["require", "pkg", "pkg", "dep", "skip"]);
    // Package order puts accepts before express, whatever order they were
    // resolved in.
    assert!(text.contains("\npkg accepts 1.3.8 "));
    assert_eq!(render(&sample()), text);
}

#[test]
fn test_ranges_containing_spaces_survive() {
    let text = render(&sample());
    assert!(text.contains("dep express 4.18.2 accepts 1.3.8 >=1.3.0 <2\n"));
    let parsed = parse("opal.lock", &text).unwrap();
    let express = parsed
        .package(&PackageId::new("express", Version::new(4, 18, 2)))
        .unwrap();
    assert_eq!(express.dependencies[0].spec, ">=1.3.0 <2");
}

#[test]
fn test_rejects_a_future_version() {
    let error = parse("opal.lock", "opal-lock 99\n").unwrap_err();
    assert!(matches!(error, LockfileError::Version { .. }));
}

#[test]
fn test_rejects_malformed_lines() {
    for text in [
        "opal-lock 1\npkg only-a-name\n",
        "opal-lock 1\nnonsense a b\n",
        "opal-lock 1\ndep ghost 1.0.0 x 1.0.0 ^1\n",
    ] {
        assert!(parse("opal.lock", text).is_err(), "{text:?}");
    }
}

#[test]
fn lockfiles_stand_in_the_project_root() {
    assert_eq!(path_in("/project"), "/project/opal.lock");
}

#[test]
fn the_rendering_is_exact() {
    let expected = format!(
        "opal-lock 1\n\
         require dependency express ^4.18.2\n\
         pkg accepts 1.3.8 {} https://registry.example/accepts-1.3.8.tgz\n\
         pkg express 4.18.2 {} https://registry.example/express-4.18.2.tgz\n\
         dep express 4.18.2 accepts 1.3.8 >=1.3.0 <2\n\
         skip fsevents not in the registry\n",
        Integrity::of(Algorithm::Sha512, b"accepts").to_string(),
        Integrity::of(Algorithm::Sha512, b"express").to_string(),
    );
    assert_eq!(render(&sample()), expected);
}

#[test]
fn malformed_lines_are_counted_from_one() {
    let error = parse("opal.lock", "opal-lock 1\n\npkg only-a-name\n").unwrap_err();
    match &error {
        LockfileError::Malformed { line, .. } => assert_eq!(*line, 3),
        other => panic!("{other:?}"),
    }
    assert!(error.to_string().contains("opal.lock"), "{}", error.to_string());
    assert!(parse("opal.lock", "").is_err());
    assert!(parse("opal.lock", "something else\n").is_err());
}

#[test]
fn every_class_reads_back() {
    for class in [
        DependencyClass::Runtime,
        DependencyClass::Development,
        DependencyClass::Optional,
        DependencyClass::Peer,
        DependencyClass::OptionalPeer,
    ] {
        let resolution = Resolution {
            requirements: vec![RequirementRecord {
                class,
                name: "a".to_string(),
                spec: "^1 || ^2".to_string(),
            }],
            packages: SortedMap::new(),
            skipped: Vec::new(),
        };
        assert_eq!(parse("x", &render(&resolution)).unwrap(), resolution);
    }
}
