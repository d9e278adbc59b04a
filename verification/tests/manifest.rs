use opal::json::{parse_text, Json};
use opal::manifest::{DependencyClass, Manifest, ManifestError, Spec};

fn document(text: &str) -> Json {
    parse_text(text).unwrap()
}

fn manifest(json: Json) -> Manifest {
    Manifest::from_value(&json)
}

#[test]
fn test_reads_dependency_classes() {
    let manifest = manifest(document(
        r#"{
        "name": "app",
        "version": "1.0.0",
        "dependencies": { "express": "^4.18.2" },
        "devDependencies": { "jest": "^29.0.0" },
        "optionalDependencies": { "fsevents": "^2.3.0" },
        "peerDependencies": { "react": "^18.0.0", "supports-color": "*" },
        "peerDependenciesMeta": { "supports-color": { "optional": true } }
    }"#,
    ));

    assert_eq!(manifest.name.as_deref(), Some("app"));
    assert_eq!(manifest.class_of("express"), Some(DependencyClass::Runtime));
    assert_eq!(
        manifest.class_of("jest"),
        Some(DependencyClass::Development)
    );
    assert_eq!(
        manifest.class_of("fsevents"),
        Some(DependencyClass::Optional)
    );
    assert_eq!(manifest.class_of("react"), Some(DependencyClass::Peer));
    assert_eq!(
        manifest.class_of("supports-color"),
        Some(DependencyClass::OptionalPeer)
    );
}

#[test]
fn test_installable_excludes_peers_and_optionally_dev() {
    let manifest = manifest(document(
        r#"{
        "dependencies": { "a": "^1.0.0" },
        "devDependencies": { "b": "^1.0.0" },
        "optionalDependencies": { "c": "^1.0.0" },
        "peerDependencies": { "d": "^1.0.0" }
    }"#,
    ));

    let names: Vec<&str> = manifest
        .installable(false)
        .iter()
        .map(|requirement| requirement.name.as_str())
        .collect();
    assert_eq!(names, vec!["a", "c"]);

    let with_dev: Vec<&str> = manifest
        .installable(true)
        .iter()
        .map(|requirement| requirement.name.as_str())
        .collect();
    assert_eq!(with_dev, vec!["a", "b", "c"]);
}

#[test]
fn test_classifies_specs() {
    let manifest = manifest(document(
        r#"{
        "dependencies": {
            "ranged": "^1.0.0",
            "tagged": "latest",
            "from-git": "git+https://example.invalid/x.git",
            "local": "file:../local"
        }
    }"#,
    ));
    let spec = |name: &str| {
        manifest
            .requirements
            .iter()
            .find(|requirement| requirement.name == name)
            .map(|requirement| requirement.spec.clone())
            .unwrap()
    };
    assert!(matches!(spec("ranged"), Spec::Range(_)));
    assert_eq!(spec("tagged"), Spec::Tag("latest".to_string()));
    assert!(matches!(spec("from-git"), Spec::Unsupported(_)));
    assert!(matches!(spec("local"), Spec::Unsupported(_)));
}

#[test]
fn test_survives_wrong_types() {
    let manifest = manifest(document(
        r#"{
        "name": 42,
        "version": "not-a-version",
        "dependencies": { "a": 1, "b": "^1.0.0" },
        "bin": 7
    }"#,
    ));
    assert_eq!(manifest.name, None);
    assert_eq!(manifest.version, None);
    assert_eq!(manifest.requirements.len(), 1);
    assert_eq!(manifest.requirements[0].name, "b");
    assert!(manifest.bin.is_empty());
}

#[test]
fn test_bin_string_and_map_forms() {
    let string_form = manifest(document(
        r#"{
        "name": "@scope/tool",
        "bin": "./cli.js"
    }"#,
    ));
    assert_eq!(
        string_form.bin.get_str("tool").map(String::as_str),
        Some("./cli.js")
    );

    let map_form = manifest(document(
        r#"{
        "name": "tool",
        "bin": { "tool": "./cli.js", "tool-dev": "./dev.js" }
    }"#,
    ));
    assert_eq!(map_form.bin.len(), 2);
}

#[test]
fn documents_that_are_no_json_are_refused() {
    let error = Manifest::parse("/project/package.json", "{ nope").unwrap_err();
    assert!(matches!(error, ManifestError::Json { .. }));
    assert!(error.to_string().starts_with("/project/package.json: "));
    let read = Manifest::parse("/project/package.json", r#"{ "name": "app" }"#).unwrap();
    assert_eq!(read.name.as_deref(), Some("app"));
}

#[test]
fn specs_are_told_apart() {
    assert!(matches!(Spec::parse(""), Spec::Range(_)));
    assert!(matches!(Spec::parse("1.x || 2"), Spec::Range(_)));
    assert_eq!(Spec::parse("next"), Spec::Tag("next".to_string()));
    assert!(matches!(Spec::parse("npm:other@1"), Spec::Unsupported(_)));
    assert!(matches!(Spec::parse("user/repo"), Spec::Unsupported(_)));
    assert_eq!(Spec::parse("^1.2.3").to_string(), "^1.2.3");
}

#[test]
fn requirements_are_sorted_by_class_and_name() {
    let manifest = manifest(document(
        r#"{ "devDependencies": { "a": "1" }, "dependencies": { "z": "1", "b": "1" } }"#,
    ));
    let names: Vec<&str> = manifest
        .requirements
        .iter()
        .map(|requirement| requirement.name.as_str())
        .collect();
    assert_eq!(names, vec!["b", "z", "a"]);
    assert_eq!(manifest.class_of("absent"), None);
}

#[test]
fn classes_know_whether_absence_is_fine() {
    assert!(DependencyClass::Optional.tolerates_absence());
    assert!(DependencyClass::OptionalPeer.tolerates_absence());
    assert!(!DependencyClass::Runtime.tolerates_absence());
    assert!(!DependencyClass::Development.tolerates_absence());
}

#[test]
fn specs_read_back() {
    for text in [" ^1.2.3 ", "", "  ", "1 || 2", "latest", " next ", "file:../x", "a b"] {
        let spec = Spec::parse(text);
        assert_eq!(Spec::parse(&spec.to_string()), spec, "{text:?}");
    }
}
