use opal::atomic::unique_name;
use opal::cache::{CacheError, CacheRoot, Surroundings};
use opal::diagnose::{classify, directories, Found, Severity};
use opal::fault::FaultPoint;
use opal::graph::{
    Dependency, DependencyKind, DependencyTarget, ModuleGraphBuilder, ModuleSystem, SourceKind,
};
use opal::hash::ContentHash;
use opal::json::{parse_bytes, parse_text, Json};
use opal::locks::{cache_lock_path, install_lock_path};
use opal::manifest::{DependencyClass, Manifest};
use opal::path::NormalizedPath;
use opal::projects::ProjectIndex;
use opal::sorted::{sort, SortedMap};

#[test]
fn test_layout_is_stable() {
    let root = CacheRoot::at("/cache/opal");
    assert_eq!(root.cas_dir(), "/cache/opal/cas");
    assert_eq!(root.records_dir(), "/cache/opal/memo");
}

#[test]
fn test_fault_point_names_round_trip() {
    for point in [
        FaultPoint::CasMidWrite,
        FaultPoint::CasBeforeRename,
        FaultPoint::MemoBeforeRename,
    ] {
        assert_eq!(FaultPoint::parse(point.name()), Some(point));
    }
    assert_eq!(FaultPoint::parse("nonsense"), None);
}

#[test]
fn test_unique_names_do_not_repeat() {
    let names: Vec<String> = (0..100).map(|count| unique_name("t", 1, count, 7)).collect();
    let mut unique = names.clone();
    unique.sort();
    unique.dedup();
    assert_eq!(unique.len(), names.len());
}

#[test]
fn temp_names_hold_what_makes_them_unique() {
    assert_eq!(unique_name("obj", 12, 3, 456), "obj-12-3-456.tmp");
}

#[test]
fn the_cache_is_found_from_the_environment() {
    let explicit = Surroundings {
        explicit: Some("/given"),
        home: None,
        xdg: None,
        has_library: false,
    };
    assert_eq!(CacheRoot::discover(&explicit).unwrap().path(), "/given");
    let home = Surroundings { explicit: None, home: Some("/home/u"), ..explicit };
    assert_eq!(CacheRoot::discover(&home).unwrap().path(), "/home/u/.cache/opal");
    let xdg = Surroundings { xdg: Some("/xdg"), ..home };
    assert_eq!(CacheRoot::discover(&xdg).unwrap().path(), "/xdg/opal");
    let relative = Surroundings { xdg: Some("xdg"), ..home };
    assert_eq!(
        CacheRoot::discover(&relative).unwrap().path(),
        "/home/u/.cache/opal"
    );
    let library = Surroundings { has_library: true, ..home };
    assert_eq!(
        CacheRoot::discover(&library).unwrap().path(),
        "/home/u/Library/Caches/opal"
    );
    let nowhere = Surroundings { home: None, ..home };
    assert!(matches!(
        CacheRoot::discover(&nowhere),
        Err(CacheError::NoHome)
    ));
    assert_eq!(CacheRoot::at("/c").projects_dir(), "/c/projects");
}

#[test]
fn records_are_idempotent_and_readable() {
    let index = ProjectIndex::at("/cache/projects");
    assert_eq!(index.directory(), "/cache/projects");
    assert_eq!(index.entry_path("/a"), index.entry_path("/a"));
    assert_ne!(index.entry_path("/a"), index.entry_path("/b"));
    let texts = vec![
        ProjectIndex::entry_text("/b"),
        ProjectIndex::entry_text("/a"),
        ProjectIndex::entry_text("/b"),
        "  \n".to_string(),
    ];
    let known = ProjectIndex::known(&texts);
    let paths: Vec<&str> = known.iter().map(|root| root.path.as_str()).collect();
    assert_eq!(paths, vec!["/a", "/b"]);
}

#[test]
fn locks_stand_beside_what_they_guard() {
    assert_eq!(
        install_lock_path("/project/node_modules"),
        "/project/node_modules/.opal-lock"
    );
    assert_eq!(cache_lock_path("/cache"), "/cache/.opal-cache-lock");
}

#[test]
fn absent_packages_are_explained_by_their_class() {
    let mut builder = ModuleGraphBuilder::new(NormalizedPath::new("/project"));
    let entry = builder.insert(
        NormalizedPath::new("/project/src/index.js"),
        ContentHash::of(b""),
        SourceKind::JavaScript,
        ModuleSystem::Cjs,
    );
    for specifier in ["declared", "peer/deep", "@who/knows/x", "./gone.js"] {
        builder.add_dependency(
            entry,
            Dependency {
                specifier: specifier.to_string(),
                kind: DependencyKind::Require,
                target: DependencyTarget::Unresolved { reason: "absent".to_string() },
            },
        );
    }
    let graph = builder.finish();
    let looked_at: Vec<String> = directories(&graph)
        .iter()
        .map(|directory| directory.to_string())
        .collect();
    assert_eq!(looked_at[0], "src");
    assert_eq!(looked_at[1], ".");
    assert!(looked_at.iter().all(|directory| directory == "src" || directory == "."));

    let document = parse_text(
        r#"{ "dependencies": { "declared": "1" }, "peerDependencies": { "peer": "1" },
             "peerDependenciesMeta": { "peer": { "optional": true } } }"#,
    )
    .unwrap();
    let mut manifests = SortedMap::new();
    manifests.insert(
        NormalizedPath::new("."),
        Found { manifest: Some(Manifest::from_value(&document)) },
    );
    let open = classify(&graph, &manifests);
    assert_eq!(open[0].package, "declared");
    assert_eq!(open[0].severity, Severity::Error);
    assert_eq!(
        open[0].explain(),
        "declared is a declared dependency but is not installed — run `opal install`"
    );
    assert_eq!(open[1].package, "peer");
    assert_eq!(open[1].class, Some(DependencyClass::OptionalPeer));
    assert_eq!(open[1].severity, Severity::Informational);
    assert_eq!(open[2].package, "@who/knows");
    assert_eq!(
        open[2].explain(),
        "@who/knows is imported by src/index.js but declared by nothing"
    );
}

#[test]
fn documents_keep_the_order_of_their_fields() {
    let value = parse_text(r#"{ "z": 1, "a": [true, null, "t"] }"#).unwrap();
    let fields = value.as_object().unwrap();
    assert_eq!(fields[0].0, "z");
    assert_eq!(fields[0].1, Json::Number);
    assert_eq!(
        fields[1].1,
        Json::Array(vec![Json::Bool(true), Json::Null, Json::Text("t".to_string())])
    );
    assert_eq!(value.get("z"), Some(&Json::Number));
    assert_eq!(value.get_text("z"), None);
    assert!(parse_bytes(b"[1, 2").is_err());
    assert_eq!(parse_bytes(b"\"x\""), Ok(Json::Text("x".to_string())));
}

#[test]
fn sorted_maps_keep_one_value_per_key() {
    let mut map: SortedMap<String, String> = SortedMap::new();
    assert!(map.is_empty());
    map.insert("b".to_string(), "1".to_string());
    map.insert("a".to_string(), "2".to_string());
    map.insert("b".to_string(), "3".to_string());
    assert_eq!(map.len(), 2);
    assert_eq!(map.key_at(0), "a");
    assert_eq!(map.get_str("b").map(String::as_str), Some("3"));
    assert_eq!(map.remove(&"b".to_string()), Some("3".to_string()));
    assert_eq!(map.get_str("b"), None);
    assert_eq!(
        sort(vec!["c".to_string(), "a".to_string(), "b".to_string()]),
        vec!["a", "b", "c"]
    );
}
