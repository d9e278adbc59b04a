use opal::cas::Cas;
use opal::hash::ContentHash;
use opal::integrity::{Algorithm, Integrity};
use opal::link::{
    bin_directories, bin_links, classify_entry, materialize, owning_directories, package_manifest,
    plan, read_marker, reconcile, relative_to_root, slot_for, strip_last_package, Entry, Fetched,
    FetchedPackage, Layout, Markers,
};
use opal::manifest::DependencyClass;
use opal::package::{PackageFile, PackageIndex};
use opal::path::NormalizedPath;
use opal::resolve::{
    PackageId, RequirementRecord, Resolution, ResolvedEdge, ResolvedPackage,
};
use opal::semver::Version;
use opal::sorted::SortedMap;

fn package(
    name: &str,
    version: (u64, u64, u64),
    deps: &[(&str, (u64, u64, u64))],
) -> ResolvedPackage {
    let id = PackageId::new(name, Version::new(version.0, version.1, version.2));
    ResolvedPackage {
        id: id.clone(),
        tarball: format!("file:///fixture/{name}.tgz"),
        integrity: Integrity::of(Algorithm::Sha512, name.as_bytes()),
        dependencies: deps
            .iter()
            .map(|(name, version)| ResolvedEdge {
                name: (*name).to_string(),
                spec: "*".to_string(),
                version: Version::new(version.0, version.1, version.2),
            })
            .collect(),
    }
}

fn resolution(roots: &[&str], packages: Vec<ResolvedPackage>) -> Resolution {
    let mut by_id = SortedMap::new();
    for package in packages {
        by_id.insert(package.id.clone(), package);
    }
    Resolution {
        requirements: roots
            .iter()
            .map(|name| RequirementRecord {
                class: DependencyClass::Runtime,
                name: (*name).to_string(),
                spec: "*".to_string(),
            })
            .collect(),
        packages: by_id,
        skipped: Vec::new(),
    }
}

fn paths(layout: &Layout) -> Vec<String> {
    (0..layout.len())
        .map(|at| {
            format!(
                "{} = {}",
                layout.key_at(at).as_str(),
                layout.value_at(at).to_string()
            )
        })
        .collect()
}

#[test]
fn test_hoists_a_simple_tree_flat() {
    let layout = plan(&resolution(
        &["a"],
        vec![
            package("a", (1, 0, 0), &[("b", (1, 0, 0))]),
            package("b", (1, 0, 0), &[]),
        ],
    ))
    .unwrap();
    assert_eq!(
        paths(&layout),
        vec![
            "node_modules/a = a@1.0.0".to_string(),
            "node_modules/b = b@1.0.0".to_string(),
        ]
    );
}

#[test]
fn link_test_conflicting_versions_nest_under_the_dependent() {
    let layout = plan(&resolution(
        &["a", "b"],
        vec![
            package("a", (1, 0, 0), &[("shared", (1, 0, 0))]),
            package("b", (1, 0, 0), &[("shared", (2, 0, 0))]),
            package("shared", (1, 0, 0), &[]),
            package("shared", (2, 0, 0), &[]),
        ],
    ))
    .unwrap();
    // One of them wins the hoisted slot; the other nests. Which one is
    // decided by sorted order, so it is stable across runs.
    assert!(layout.contains_key(&NormalizedPath::new("node_modules/shared")));
    assert!(
        layout.contains_key(&NormalizedPath::new("node_modules/b/node_modules/shared"))
            || layout.contains_key(&NormalizedPath::new("node_modules/a/node_modules/shared"))
    );
    assert_eq!(layout.len(), 4);
}

#[test]
fn test_dependency_cycles_terminate() {
    let layout = plan(&resolution(
        &["a"],
        vec![
            package("a", (1, 0, 0), &[("b", (1, 0, 0))]),
            package("b", (1, 0, 0), &[("a", (1, 0, 0))]),
        ],
    ))
    .unwrap();
    assert_eq!(layout.len(), 2);
}

#[test]
fn cycles_through_two_versions_end() {
    let layout = plan(&resolution(
        &["a", "b"],
        vec![
            package("a", (2, 0, 0), &[("b", (1, 0, 0))]),
            package("b", (1, 0, 0), &[("a", (1, 0, 0))]),
            package("a", (1, 0, 0), &[("b", (2, 0, 0))]),
            package("b", (2, 0, 0), &[("a", (2, 0, 0))]),
        ],
    ))
    .unwrap();
    assert_eq!(
        paths(&layout),
        vec![
            "node_modules/a = a@2.0.0".to_string(),
            "node_modules/a/node_modules/a = a@1.0.0".to_string(),
            "node_modules/a/node_modules/b = b@1.0.0".to_string(),
            "node_modules/b = b@2.0.0".to_string(),
        ]
    );
}

#[test]
fn roots_are_what_their_ranges_take() {
    let mut given = resolution(
        &["a", "b"],
        vec![
            package("a", (1, 5, 0), &[]),
            package("a", (2, 0, 0), &[]),
            package("b", (1, 0, 0), &[("a", (2, 0, 0))]),
        ],
    );
    for spec in ["^1.0.0", "latest"] {
        given.requirements[0].spec = spec.to_string();
        let layout = plan(&given).unwrap();
        assert_eq!(
            paths(&layout),
            vec![
                "node_modules/a = a@1.5.0".to_string(),
                "node_modules/b = b@1.0.0".to_string(),
                "node_modules/b/node_modules/a = a@2.0.0".to_string(),
            ]
        );
    }
}

#[test]
fn roots_that_nothing_satisfies_take_the_highest_version() {
    let mut given = resolution(
        &["a", "b", "absent"],
        vec![
            package("a", (1, 5, 0), &[]),
            package("a", (2, 0, 0), &[]),
            package("b", (1, 0, 0), &[]),
        ],
    );
    given.requirements[0].spec = "^3.0.0".to_string();
    assert_eq!(
        given.roots(),
        vec![
            PackageId::new("a", Version::new(2, 0, 0)),
            PackageId::new("b", Version::new(1, 0, 0)),
        ]
    );
}

#[test]
fn a_name_in_two_classes_is_one_root() {
    let mut given = resolution(
        &["a", "a", "b"],
        vec![
            package("a", (1, 5, 0), &[]),
            package("a", (2, 0, 0), &[]),
            package("b", (1, 0, 0), &[("a", (1, 5, 0))]),
        ],
    );
    given.requirements[1].class = DependencyClass::Development;
    for (runtime, dev, taken) in [
        ("^1.0.0", "^2.0.0", (2, 0, 0)),
        ("^2.0.0", "^1.0.0", (2, 0, 0)),
        ("^1.0.0", "^1.5.0", (1, 5, 0)),
    ] {
        given.requirements[0].spec = runtime.to_string();
        given.requirements[1].spec = dev.to_string();
        let chosen = Version::new(taken.0, taken.1, taken.2);
        assert_eq!(
            given.roots(),
            vec![
                PackageId::new("a", chosen.clone()),
                PackageId::new("b", Version::new(1, 0, 0)),
            ]
        );
        let mut expected = vec![
            format!("node_modules/a = a@{}", chosen.to_string()),
            "node_modules/b = b@1.0.0".to_string(),
        ];
        if taken == (2, 0, 0) {
            expected.push("node_modules/b/node_modules/a = a@1.5.0".to_string());
        }
        assert_eq!(paths(&plan(&given).unwrap()), expected);
    }
}

#[test]
fn dependencies_that_were_not_resolved_are_placed_without_their_own() {
    let layout = plan(&resolution(
        &["a"],
        vec![package("a", (1, 0, 0), &[("b", (1, 0, 0))])],
    ))
    .unwrap();
    assert_eq!(
        paths(&layout),
        vec![
            "node_modules/a = a@1.0.0".to_string(),
            "node_modules/b = b@1.0.0".to_string(),
        ]
    );
}

#[test]
fn test_plan_is_deterministic() {
    let build = || {
        plan(&resolution(
            &["a", "b"],
            vec![
                package("a", (1, 0, 0), &[("shared", (1, 0, 0)), ("x", (1, 0, 0))]),
                package("b", (1, 0, 0), &[("shared", (2, 0, 0))]),
                package("shared", (1, 0, 0), &[]),
                package("shared", (2, 0, 0), &[]),
                package("x", (1, 0, 0), &[]),
            ],
        ))
        .unwrap()
    };
    assert_eq!(paths(&build()), paths(&build()));
}

#[test]
fn test_scoped_packages_keep_their_scope_directory() {
    let layout = plan(&resolution(
        &["@scope/a"],
        vec![package("@scope/a", (1, 0, 0), &[])],
    ))
    .unwrap();
    assert_eq!(
        paths(&layout),
        vec!["node_modules/@scope/a = @scope/a@1.0.0".to_string()]
    );
}

#[test]
fn test_owning_directories_walk_up_through_nesting() {
    let owner = NormalizedPath::new("node_modules/a/node_modules/b");
    let chain: Vec<String> = owning_directories(&owner)
        .iter()
        .map(|directory| directory.to_string())
        .collect();
    assert_eq!(
        chain,
        vec![
            ".".to_string(),
            "node_modules/a".to_string(),
            "node_modules/a/node_modules/b".to_string(),
        ]
    );
}

#[test]
fn the_second_version_of_a_conflict_nests() {
    let layout = plan(&resolution(
        &["a", "b"],
        vec![
            package("a", (1, 0, 0), &[("shared", (1, 0, 0))]),
            package("b", (1, 0, 0), &[("shared", (2, 0, 0))]),
            package("shared", (1, 0, 0), &[]),
            package("shared", (2, 0, 0), &[]),
        ],
    ))
    .unwrap();
    assert_eq!(
        paths(&layout),
        vec![
            "node_modules/a = a@1.0.0".to_string(),
            "node_modules/b = b@1.0.0".to_string(),
            "node_modules/b/node_modules/shared = shared@2.0.0".to_string(),
            "node_modules/shared = shared@1.0.0".to_string(),
        ]
    );
}

fn fetched(name: &str, files: &[(&str, &[u8], bool)]) -> FetchedPackage {
    let mut index = SortedMap::new();
    for (path, contents, executable) in files {
        index.insert(
            NormalizedPath::new(path),
            PackageFile {
                hash: ContentHash::of(contents),
                size: contents.len() as u64,
                executable: *executable,
            },
        );
    }
    FetchedPackage {
        index_hash: ContentHash::of(name.as_bytes()),
        index: PackageIndex {
            format: 1,
            name: name.to_string(),
            version: Version::new(1, 0, 0),
            files: index,
        },
    }
}

fn one_package() -> (Layout, Fetched) {
    let mut layout = SortedMap::new();
    let id = PackageId::new("a", Version::new(1, 0, 0));
    layout.insert(NormalizedPath::new("node_modules/a"), id.clone());
    let mut packages = SortedMap::new();
    packages.insert(
        id,
        fetched("a", &[("index.js", b"1", false), ("bin/cli.js", b"#!", true)]),
    );
    (layout, packages)
}

#[test]
fn a_package_is_its_files_and_a_marker() {
    let (_, packages) = one_package();
    let cas = Cas::at("/cache/cas");
    let written = materialize(
        "/project",
        &NormalizedPath::new("node_modules/a"),
        packages.value_at(0),
        &cas,
    );
    assert_eq!(written.directory, "/project/node_modules/a");
    assert_eq!(written.marker_path, "/project/node_modules/a/.opal-package");
    assert_eq!(written.files.len(), 2);
    assert_eq!(
        written.files[0].destination,
        "/project/node_modules/a/bin/cli.js"
    );
    assert!(written.files[0].executable);
    assert!(!written.files[1].executable);
    assert_eq!(
        written.files[1].source,
        cas.object_path(&ContentHash::of(b"1"))
    );
    let marker = read_marker(&written.marker).unwrap();
    assert_eq!(marker.name, "a");
    assert_eq!(marker.version, "1.0.0");
    assert_eq!(marker.index_hash, ContentHash::of(b"a"));
}

#[test]
fn reconciling_twice_changes_nothing() {
    let (layout, packages) = one_package();
    let empty: Markers = SortedMap::new();
    let first = reconcile(&empty, &layout, &packages);
    assert_eq!(first.additions.len(), 1);
    assert_eq!(first.removals.len(), 0);
    assert_eq!(first.report().added, 1);

    let cas = Cas::at("/cache/cas");
    let written = materialize(
        "/project",
        &first.additions[0].path,
        packages.get(&first.additions[0].id).unwrap(),
        &cas,
    );
    let mut actual: Markers = SortedMap::new();
    actual.insert(
        NormalizedPath::new("node_modules/a"),
        read_marker(&written.marker).unwrap(),
    );
    let second = reconcile(&actual, &layout, &packages);
    assert_eq!(second.additions.len(), 0);
    assert_eq!(second.removals.len(), 0);
    assert_eq!(second.unchanged, 1);
}

/// Carries out the first removals and additions of a run over `start`, emptying
/// one directory more than are written where `torn` says so.
fn run_for(
    start: &Markers,
    layout: &Layout,
    packages: &Fetched,
    removals: usize,
    additions: usize,
    torn: bool,
) -> Markers {
    let difference = reconcile(start, layout, packages);
    let mut dropped: Vec<NormalizedPath> = Vec::new();
    dropped.extend(difference.removals.iter().take(removals).cloned());
    let emptied = additions + if torn { 1 } else { 0 };
    dropped.extend(difference.additions.iter().take(emptied).map(|a| a.path.clone()));
    let mut left: Markers = SortedMap::new();
    for i in 0..start.len() {
        let path = start.key_at(i);
        if !dropped.iter().any(|root| path.starts_with(root)) {
            left.insert(path.clone(), start.value_at(i).clone());
        }
    }
    let cas = Cas::at("/cache/cas");
    for addition in difference.additions.iter().take(additions) {
        let package = packages.get(&addition.id).unwrap();
        let written = materialize("/project", &addition.path, package, &cas);
        left.insert(addition.path.clone(), read_marker(&written.marker).unwrap());
    }
    left
}

#[test]
fn runs_that_stop_early_can_be_resumed() {
    let mut layout: Layout = SortedMap::new();
    let mut packages: Fetched = SortedMap::new();
    for (path, name) in [
        ("node_modules/a", "a"),
        ("node_modules/a/node_modules/b", "b"),
        ("node_modules/c", "c"),
    ] {
        let id = PackageId::new(name, Version::new(1, 0, 0));
        layout.insert(NormalizedPath::new(path), id.clone());
        packages.insert(id, fetched(name, &[("index.js", name.as_bytes(), false)]));
    }
    let mut start: Markers = SortedMap::new();
    for (path, name) in [
        ("node_modules/a", "old"),
        ("node_modules/a/node_modules/b", "b"),
        ("node_modules/c", "c"),
        ("node_modules/gone", "gone"),
    ] {
        let hash = ContentHash::of(name.as_bytes()).to_hex();
        start.insert(
            NormalizedPath::new(path),
            read_marker(&format!("{name} 1.0.0 {hash}\n")).unwrap(),
        );
    }

    let whole = reconcile(&start, &layout, &packages);
    assert_eq!(whole.removals.len(), 2);
    assert_eq!(whole.additions.len(), 2);
    assert_eq!(whole.unchanged, 1);
    let clean: Markers = SortedMap::new();
    let expected = run_for(&clean, &layout, &packages, 0, 3, false);
    assert_eq!(expected.len(), 3);

    for (removals, additions, torn) in [
        (0, 0, false),
        (1, 0, false),
        (2, 0, false),
        (2, 0, true),
        (2, 1, false),
        (2, 1, true),
        (2, 2, false),
    ] {
        let stopped = run_for(&start, &layout, &packages, removals, additions, torn);
        let rest = reconcile(&stopped, &layout, &packages);
        let ended = run_for(
            &stopped,
            &layout,
            &packages,
            rest.removals.len(),
            rest.additions.len(),
            false,
        );
        assert_eq!(ended, expected);
    }
}

#[test]
fn what_is_nested_in_a_rebuilt_package_is_rebuilt() {
    let mut layout: Layout = SortedMap::new();
    let mut packages: Fetched = SortedMap::new();
    let mut start: Markers = SortedMap::new();
    for (path, name) in [("node_modules/b", "b"), ("node_modules/b/node_modules/s", "s")] {
        let id = PackageId::new(name, Version::new(1, 0, 0));
        layout.insert(NormalizedPath::new(path), id.clone());
        packages.insert(id, fetched(name, &[("index.js", name.as_bytes(), false)]));
    }
    let hash = ContentHash::of(b"s").to_hex();
    start.insert(
        NormalizedPath::new("node_modules/b/node_modules/s"),
        read_marker(&format!("s 1.0.0 {hash}\n")).unwrap(),
    );
    let difference = reconcile(&start, &layout, &packages);
    assert_eq!(difference.additions.len(), 2);
    assert_eq!(difference.removals.len(), 0);
    assert_eq!(difference.unchanged, 0);
    let ended = run_for(&start, &layout, &packages, 0, 2, false);
    assert_eq!(ended.len(), 2);
    assert_eq!(reconcile(&ended, &layout, &packages).unchanged, 2);
}

#[test]
fn what_is_no_longer_planned_goes() {
    let (_, packages) = one_package();
    let mut actual: Markers = SortedMap::new();
    actual.insert(
        NormalizedPath::new("node_modules/gone"),
        read_marker(&format!("gone 1.0.0 {}\n", ContentHash::of(b"gone").to_hex())).unwrap(),
    );
    let empty: Layout = SortedMap::new();
    let difference = reconcile(&actual, &empty, &packages);
    assert_eq!(difference.removals.len(), 1);
    assert_eq!(difference.removals[0].as_str(), "node_modules/gone");
}

#[test]
fn planned_packages_that_were_not_fetched_are_missing() {
    let (layout, _) = one_package();
    let nothing: Fetched = SortedMap::new();
    let empty: Markers = SortedMap::new();
    let difference = reconcile(&empty, &layout, &nothing);
    assert_eq!(difference.missing, Some(PackageId::new("a", Version::new(1, 0, 0))));
}

#[test]
fn torn_markers_are_no_markers() {
    assert!(read_marker("").is_none());
    assert!(read_marker("a 1.0.0").is_none());
    assert!(read_marker("a 1.0.0 nothex").is_none());
}

#[test]
fn commands_link_into_the_owners_bin_directory() {
    let (layout, _) = one_package();
    let directories = bin_directories(&layout);
    assert_eq!(directories.len(), 1);
    let owner = directories.key_at(0);
    assert_eq!(owner.as_str(), "node_modules");
    let manifest =
        package_manifest(br#"{ "name": "a", "bin": { "tool": "./bin/cli.js" } }"#).unwrap();
    let links = bin_links(owner, &NormalizedPath::new("node_modules/a"), &manifest);
    assert_eq!(links.len(), 1);
    assert_eq!(links[0].command, "tool");
    assert_eq!(links[0].target.as_str(), "bin/cli.js");
    assert_eq!(links[0].link.as_ref().unwrap().as_str(), "../a/bin/cli.js");
    assert!(package_manifest(b"not json").is_none());
}

#[test]
fn slots_and_their_owners() {
    let root = NormalizedPath::new(".");
    let slot = slot_for(&root, "@scope/a");
    assert_eq!(slot.as_str(), "node_modules/@scope/a");
    assert_eq!(strip_last_package(&slot).unwrap().as_str(), ".");
    let nested = slot_for(&slot, "b");
    assert_eq!(nested.as_str(), "node_modules/@scope/a/node_modules/b");
    assert_eq!(strip_last_package(&nested).unwrap(), slot);
}

#[test]
fn directory_entries_are_told_apart() {
    assert_eq!(classify_entry("@scope", true), Entry::Scope);
    assert_eq!(classify_entry("react", true), Entry::Package);
    assert_eq!(classify_entry(".bin", true), Entry::Other);
    assert_eq!(classify_entry("react", false), Entry::Other);
    assert_eq!(
        relative_to_root("/project", "/project/node_modules/a")
            .unwrap()
            .as_str(),
        "node_modules/a"
    );
    assert!(relative_to_root("/project", "relative").is_err());
}
