use opal::graph::exports::{holds_text, is_builtin, match_subpath, select_condition, split_bare_specifier};
use opal::graph::resolver::ResolverOptions;
use opal::json::{parse_text, Json};

fn document(text: &str) -> Json {
    parse_text(text).unwrap()
}

#[test]
fn test_split_bare_specifier() {
    assert_eq!(split_bare_specifier("react"), ("react".into(), ".".into()));
    assert_eq!(
        split_bare_specifier("react-dom/client"),
        ("react-dom".into(), "./client".into())
    );
    assert_eq!(
        split_bare_specifier("@scope/pkg"),
        ("@scope/pkg".into(), ".".into())
    );
    assert_eq!(
        split_bare_specifier("@scope/pkg/deep/path"),
        ("@scope/pkg".into(), "./deep/path".into())
    );
}

#[test]
fn test_builtin_detection_covers_subpaths() {
    assert!(is_builtin("fs"));
    assert!(is_builtin("fs/promises"));
    assert!(!is_builtin("fs-extra"));
    assert!(!is_builtin("react"));
}

#[test]
fn test_conditions_are_matched_in_declaration_order() {
    let exports = document(r#"{
        "import": "./esm.mjs",
        "require": "./cjs.cjs",
        "default": "./fallback.js"
    }"#);
    let (selected, _) = match_subpath(&exports, ".").unwrap();
    assert_eq!(
        select_condition(selected, &vec!["node".into(), "import".into()]).unwrap(),
        "./esm.mjs"
    );
    assert_eq!(
        select_condition(selected, &vec!["node".into(), "require".into()]).unwrap(),
        "./cjs.cjs"
    );
    assert_eq!(
        select_condition(selected, &vec!["browser".into()]).unwrap(),
        "./fallback.js"
    );
}

#[test]
fn test_subpath_patterns_prefer_the_longest_prefix() {
    let exports = document(r#"{
        "./features/*": "./src/features/*.js",
        "./*": "./src/*.js"
    }"#);
    let (value, captured) = match_subpath(&exports, "./features/a").unwrap();
    assert_eq!(value.as_text().map(String::as_str), Some("./src/features/*.js"));
    assert_eq!(captured.as_deref(), Some("a"));
}

#[test]
fn test_null_export_blocks_a_subpath() {
    let exports = document(r#"{ "./internal/*": null }"#);
    let (value, _) = match_subpath(&exports, "./internal/x").unwrap();
    assert_eq!(select_condition(value, &vec!["node".into()]), None);
}

#[test]
fn test_array_export_falls_back_to_first_usable() {
    let exports = document(r#"{ ".": [{ "browser": "./b.js" }, "./fallback.js"] }"#);
    let (value, _) = match_subpath(&exports, ".").unwrap();
    assert_eq!(
        select_condition(value, &vec!["node".into()]).unwrap(),
        "./fallback.js"
    );
}

#[test]
fn test_options_digest_changes_with_options() {
    let baseline = ResolverOptions::default();
    let mut changed = baseline.clone();
    changed.follow_type_only_imports = true;
    assert_ne!(baseline.digest(), changed.digest());
}

#[test]
fn string_sugar_is_for_the_package_root() {
    let exports = document(r#""./main.js""#);
    assert!(match_subpath(&exports, ".").is_some());
    assert!(match_subpath(&exports, "./deep").is_none());
    let conditions = document(r#"{ "import": "./esm.mjs" }"#);
    assert!(match_subpath(&conditions, "./deep").is_none());
}

#[test]
fn exact_subpaths_come_before_patterns() {
    let exports = document(r#"{ "./*": "./src/*.js", "./a": "./exact.js" }"#);
    let (value, captured) = match_subpath(&exports, "./a").unwrap();
    assert_eq!(value.as_text().map(String::as_str), Some("./exact.js"));
    assert_eq!(captured, None);
}

#[test]
fn nested_conditions_that_lead_nowhere_fall_through() {
    let value = document(r#"{ "node": { "browser": "./b.js" }, "default": "./d.js" }"#);
    assert_eq!(
        select_condition(&value, &vec!["node".into()]).unwrap(),
        "./d.js"
    );
    assert!(holds_text(&vec!["a".to_string(), "b".to_string()], "b"));
    assert!(!holds_text(&vec!["a".to_string()], "b"));
}

#[test]
fn every_option_counts() {
    let baseline = ResolverOptions::default();
    let mut extended = baseline.clone();
    extended.extensions.push(".vue".to_string());
    let mut conditioned = baseline.clone();
    conditioned.conditions.push(".vue".to_string());
    assert_ne!(extended.digest(), baseline.digest());
    assert_ne!(conditioned.digest(), baseline.digest());
    assert_ne!(conditioned.digest(), extended.digest());
    assert_eq!(baseline.digest(), ResolverOptions::default().digest());
}
