use opal::graph::{
    Dependency, DependencyKind, DependencyTarget, Diagnostic, ModuleGraph, ModuleGraphBuilder,
    ModuleId, ModuleSystem, SnapshotError, SourceKind, SNAPSHOT_VERSION,
};
use opal::hash::ContentHash;
use opal::path::NormalizedPath;

fn sample() -> ModuleGraph {
    let root = NormalizedPath::new("/project");
    let mut builder = ModuleGraphBuilder::new(root);
    let entry = builder.insert(
        NormalizedPath::new("/project/z-entry.js"),
        ContentHash::of(b"entry"),
        SourceKind::JavaScript,
        ModuleSystem::Esm,
    );
    let leaf = builder.insert(
        NormalizedPath::new("/project/a-leaf.js"),
        ContentHash::of(b"leaf"),
        SourceKind::JavaScript,
        ModuleSystem::Esm,
    );
    builder.add_dependency(
        entry,
        Dependency {
            specifier: "./a-leaf.js".to_string(),
            kind: DependencyKind::StaticImport,
            target: DependencyTarget::Module { id: ModuleId::new(leaf) },
        },
    );
    builder.add_dependency(
        entry,
        Dependency {
            specifier: "node:fs".to_string(),
            kind: DependencyKind::StaticImport,
            target: DependencyTarget::Builtin { name: "fs".to_string() },
        },
    );
    builder.finish()
}

#[test]
fn test_modules_are_sorted_and_edges_follow() {
    let graph = sample();
    let paths: Vec<&str> = graph.modules().iter().map(|m| m.path.as_str()).collect();
    assert_eq!(paths, vec!["a-leaf.js", "z-entry.js"]);

    // The entry was inserted first but sorts last; its edge must have been
    // renumbered to still point at the leaf.
    let entry = graph.module(graph.entry());
    assert_eq!(entry.path.as_str(), "z-entry.js");
    assert_eq!(
        entry.dependencies[0].target,
        DependencyTarget::Module { id: ModuleId::new(0) }
    );
    assert_eq!(graph.edge_count(), 2);
    assert_eq!(graph.dependents(ModuleId::new(0)), vec![graph.entry()]);
}

#[test]
fn test_snapshot_round_trip_preserves_identity() {
    let graph = sample();
    let snapshot = graph.to_snapshot();
    let restored = ModuleGraph::from_snapshot(graph.root(), graph.to_snapshot()).unwrap();

    assert_eq!(restored.digest(), graph.digest());
    assert_eq!(restored.to_snapshot(), snapshot);
    assert_eq!(restored.entry(), graph.entry());
}

#[test]
fn test_digest_tracks_content_and_shape() {
    let graph = sample();
    let baseline = graph.digest();

    let mut changed = graph.to_snapshot();
    changed.modules[0].content_hash = ContentHash::of(b"different");
    let changed = ModuleGraph::from_snapshot(graph.root(), changed).unwrap();
    assert_ne!(changed.digest(), baseline);

    let mut reworded = graph.to_snapshot();
    reworded.diagnostics.push(Diagnostic {
        module: NormalizedPath::new("a-leaf.js"),
        message: "advisory".to_string(),
    });
    let reworded = ModuleGraph::from_snapshot(graph.root(), reworded).unwrap();
    assert_eq!(reworded.digest(), baseline);
}

#[test]
fn test_snapshot_version_mismatch_is_refused() {
    let graph = sample();
    let mut snapshot = graph.to_snapshot();
    snapshot.version = SNAPSHOT_VERSION + 1;
    assert!(matches!(
        ModuleGraph::from_snapshot(graph.root(), snapshot),
        Err(SnapshotError::Version(_))
    ));
}

#[test]
fn test_absolute_path_rebuilds_from_root() {
    let graph = sample();
    assert_eq!(
        graph.absolute_path(graph.entry()).as_str(),
        "/project/z-entry.js"
    );
}

#[test]
fn snapshots_that_do_not_hang_together_are_refused() {
    let graph = sample();
    let mut lost = graph.to_snapshot();
    lost.entry = NormalizedPath::new("gone.js");
    let error = ModuleGraph::from_snapshot(graph.root(), lost).unwrap_err();
    assert!(matches!(error, SnapshotError::EntryMissing(_)));
    assert!(error.to_string().contains("gone.js"));

    let mut dangling = graph.to_snapshot();
    dangling.modules[1].dependencies[0].target =
        DependencyTarget::Module { id: ModuleId::new(7) };
    assert!(matches!(
        ModuleGraph::from_snapshot(graph.root(), dangling),
        Err(SnapshotError::DanglingEdge(id)) if id.index() == 7
    ));
}

#[test]
fn diagnostics_do_not_enter_the_digest() {
    let graph = sample();
    let mut shuffled = graph.to_snapshot();
    shuffled.diagnostics.push(Diagnostic {
        module: NormalizedPath::new("z-entry.js"),
        message: "later".to_string(),
    });
    shuffled.diagnostics.push(Diagnostic {
        module: NormalizedPath::new("a-leaf.js"),
        message: "earlier".to_string(),
    });
    let restored = ModuleGraph::from_snapshot(graph.root(), shuffled).unwrap();
    assert_eq!(restored.digest(), graph.digest());
}

#[test]
fn graphs_find_their_modules() {
    let graph = sample();
    assert_eq!(graph.len(), 2);
    assert!(!graph.is_empty());
    assert_eq!(graph.root().as_str(), "/project");
    assert_eq!(graph.id_of(&NormalizedPath::new("a-leaf.js")), Some(ModuleId::new(0)));
    assert_eq!(graph.id_of(&NormalizedPath::new("absent.js")), None);
    assert!(graph.unresolved().is_empty());
    assert!(graph.diagnostics().is_empty());
}

#[test]
fn unresolved_edges_are_listed_with_their_module() {
    let mut builder = ModuleGraphBuilder::new(NormalizedPath::new("/project"));
    let entry = builder.insert(
        NormalizedPath::new("/project/index.js"),
        ContentHash::of(b""),
        SourceKind::JavaScript,
        ModuleSystem::Cjs,
    );
    builder.add_dependency(
        entry,
        Dependency {
            specifier: "ghost".to_string(),
            kind: DependencyKind::Require,
            target: DependencyTarget::Unresolved { reason: "not installed".to_string() },
        },
    );
    builder.add_diagnostic(&NormalizedPath::new("/project/index.js"), "ghost");
    let graph = builder.finish();
    let open = graph.unresolved();
    assert_eq!(open.len(), 1);
    assert_eq!(open[0].0.path.as_str(), "index.js");
    assert_eq!(open[0].1.specifier, "ghost");
    assert_eq!(graph.diagnostics()[0].module.as_str(), "index.js");
}

#[test]
fn kinds_have_names() {
    assert_eq!(SourceKind::JavaScript.name(), "JavaScript");
    assert_eq!(ModuleSystem::Esm.name(), "Esm");
    assert_eq!(DependencyKind::ExportFrom.name(), "ExportFrom");
    assert!(DependencyKind::Require.is_require_like());
    assert!(DependencyKind::TsImportEquals.is_require_like());
    assert!(!DependencyKind::DynamicImport.is_require_like());
    assert!(SourceKind::Tsx.is_parsed());
    assert!(!SourceKind::Json.is_parsed());
}

#[test]
fn every_part_of_the_shape_counts() {
    let graph = sample();
    let baseline = graph.digest();
    let mut respelled = graph.to_snapshot();
    respelled.modules[1].dependencies[0].specifier = "./a-leaf".to_string();
    let mut rekinded = graph.to_snapshot();
    rekinded.modules[1].dependencies[0].kind = DependencyKind::Require;
    let mut redirected = graph.to_snapshot();
    redirected.modules[1].dependencies[1].target =
        DependencyTarget::Builtin { name: "path".to_string() };
    let mut resystemed = graph.to_snapshot();
    resystemed.modules[0].system = ModuleSystem::Cjs;
    let mut shorter = graph.to_snapshot();
    shorter.modules[1].dependencies.pop();
    for changed in [respelled, rekinded, redirected, resystemed, shorter] {
        let changed = ModuleGraph::from_snapshot(graph.root(), changed).unwrap();
        assert_ne!(changed.digest(), baseline);
    }
    // Where the project lies makes no difference.
    let elsewhere = NormalizedPath::new("/elsewhere");
    let moved = ModuleGraph::from_snapshot(&elsewhere, graph.to_snapshot()).unwrap();
    assert_eq!(moved.digest(), baseline);
}
