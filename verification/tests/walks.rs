use std::collections::BTreeMap;

use opal::cas::gc::{collect, Candidate, GcOptions};
use opal::cas::Cas;
use opal::graph::memo::{
    accept_record, live_outputs, restore, validate, CacheStatus, GraphCache, MemoKey, MemoRecord,
    MissReason,
};
use opal::graph::resolver::{
    Fact, Facts, Progress, Question, Resolution, ResolveError, Resolver, ResolverOptions,
};
use opal::graph::syntax::{imports_of, Import, Node, Syntax};
use opal::graph::{
    DependencyKind, DependencyTarget, GraphSnapshot, ModuleGraph, ModuleSystem, SourceKind,
};
use opal::hash::ContentHash;
use opal::path::NormalizedPath;
use opal::sorted::SortedMap;

/// A project whose files are kept in memory.
struct Project {
    root: NormalizedPath,
    files: BTreeMap<String, Vec<u8>>,
}

impl Project {
    fn new() -> Self {
        Project::at("/project")
    }

    fn at(root: &str) -> Self {
        Project { root: NormalizedPath::new(root), files: BTreeMap::new() }
    }

    fn write(&mut self, relative: &str, contents: &str) -> &mut Self {
        let path = self.root.join(relative).into_string();
        self.files.insert(path, contents.as_bytes().to_vec());
        self
    }

    fn remove(&mut self, relative: &str) {
        self.files.remove(self.root.join(relative).as_str());
    }

    fn fact(&self, path: &NormalizedPath) -> Fact {
        match self.files.get(path.as_str()) {
            Some(bytes) => Fact::of(path, bytes),
            None => Fact::Missing,
        }
    }
}

fn entry(path: &str) -> NormalizedPath {
    NormalizedPath::new(path)
}

fn resolve_with(
    project: &Project,
    from: &str,
    options: &ResolverOptions,
) -> Result<Resolution, ResolveError> {
    let mut facts = Facts::new();
    let mut resolver = Resolver::start(&project.root, &entry(from), options);
    loop {
        match resolver.step(&facts) {
            Progress::Next(next) => resolver = next,
            Progress::Done(done) => return Ok(done.finish()),
            Progress::Failed(error) => return Err(error),
            Progress::Ask(same, Question::File(path)) => {
                let fact = project.fact(&path);
                facts.files.insert(path, fact);
                resolver = same;
            }
        }
    }
}

fn graph_of(project: &Project, from: &str) -> Resolution {
    resolve_with(project, from, &ResolverOptions::default()).unwrap()
}

fn specifiers(resolution: &Resolution, module: &str) -> Vec<(String, String)> {
    let graph = &resolution.graph;
    let id = graph.id_of(&entry(module)).expect("module in graph");
    graph
        .module(id)
        .dependencies
        .iter()
        .map(|dependency| {
            let target = match &dependency.target {
                DependencyTarget::Module { id } => graph.module(*id).path.to_string(),
                DependencyTarget::Builtin { name } => format!("builtin:{name}"),
                DependencyTarget::Unresolved { .. } => "unresolved".to_string(),
            };
            (dependency.specifier.clone(), target)
        })
        .collect()
}

#[test]
fn test_resolves_relative_extensionless_and_index_specifiers() {
    let mut project = Project::new();
    project
        .write(
            "index.js",
            "import './sibling.js';\nimport './extensionless';\nimport './folder';\n",
        )
        .write("sibling.js", "")
        .write("extensionless.js", "")
        .write("folder/index.js", "");

    let resolution = graph_of(&project, "index.js");
    assert_eq!(
        specifiers(&resolution, "index.js"),
        vec![
            ("./sibling.js".to_string(), "sibling.js".to_string()),
            (
                "./extensionless".to_string(),
                "extensionless.js".to_string()
            ),
            ("./folder".to_string(), "folder/index.js".to_string()),
        ]
    );
}

#[test]
fn test_cycles_terminate_with_one_module_each() {
    let mut project = Project::new();
    project
        .write("a.js", "import './b.js';\nexport const a = 1;\n")
        .write("b.js", "import './a.js';\nexport const b = 1;\n");

    let resolution = graph_of(&project, "a.js");
    assert_eq!(resolution.graph.len(), 2);
    assert_eq!(resolution.graph.edge_count(), 2);
}

#[test]
fn test_require_and_dynamic_import_are_distinct_edges() {
    let mut project = Project::new();
    project
        .write(
            "index.js",
            "const a = require('./a.js');\nconst b = import('./b.js');\nexport { a, b };\n",
        )
        .write("a.js", "")
        .write("b.js", "");

    let resolution = graph_of(&project, "index.js");
    let id = resolution.graph.id_of(&entry("index.js")).unwrap();
    let kinds: Vec<DependencyKind> = resolution
        .graph
        .module(id)
        .dependencies
        .iter()
        .map(|dependency| dependency.kind)
        .collect();
    assert_eq!(
        kinds,
        vec![DependencyKind::Require, DependencyKind::DynamicImport]
    );
}

#[test]
fn test_type_only_imports_are_not_edges_by_default() {
    let mut project = Project::new();
    project
        .write(
            "index.ts",
            "import type { T } from './types';\nimport { value } from './value';\nexport const x: T = value;\n",
        )
        .write("types.ts", "export interface T { a: number }\n")
        .write("value.ts", "export const value = { a: 1 };\n");

    let resolution = graph_of(&project, "index.ts");
    assert_eq!(
        specifiers(&resolution, "index.ts"),
        vec![("./value".to_string(), "value.ts".to_string())]
    );

    let following = ResolverOptions {
        follow_type_only_imports: true,
        ..ResolverOptions::default()
    };
    let resolution = resolve_with(&project, "index.ts", &following).unwrap();
    assert_eq!(resolution.graph.len(), 3);
}

#[test]
fn test_typescript_resolves_through_its_emitted_js_specifier() {
    let mut project = Project::new();
    project
        .write(
            "index.ts",
            "import { a } from './a.js';\nexport const b = a;\n",
        )
        .write("a.ts", "export const a = 1;\n");

    let resolution = graph_of(&project, "index.ts");
    assert_eq!(
        specifiers(&resolution, "index.ts"),
        vec![("./a.js".to_string(), "a.ts".to_string())]
    );
}

#[test]
fn test_exports_conditions_follow_the_edge_kind() {
    let mut project = Project::new();
    project
        .write(
            "index.js",
            "import esm from 'pkg';\nconst cjs = require('pkg');\nexport { esm, cjs };\n",
        )
        .write(
            "node_modules/pkg/package.json",
            r#"{ "exports": { "import": "./esm.mjs", "require": "./cjs.cjs" } }"#,
        )
        .write("node_modules/pkg/esm.mjs", "export default 1;\n")
        .write("node_modules/pkg/cjs.cjs", "module.exports = 1;\n");

    let resolution = graph_of(&project, "index.js");
    assert_eq!(
        specifiers(&resolution, "index.js"),
        vec![
            ("pkg".to_string(), "node_modules/pkg/esm.mjs".to_string()),
            ("pkg".to_string(), "node_modules/pkg/cjs.cjs".to_string()),
        ]
    );
}

#[test]
fn test_module_system_follows_nearest_package_type() {
    let mut project = Project::new();
    project
        .write("package.json", r#"{ "type": "module" }"#)
        .write("index.js", "import './legacy/old.js';\n")
        .write("legacy/package.json", r#"{ "type": "commonjs" }"#)
        .write("legacy/old.js", "module.exports = 1;\n");

    let resolution = graph_of(&project, "index.js");
    let entry_id = resolution.graph.id_of(&entry("index.js")).unwrap();
    let legacy_id = resolution.graph.id_of(&entry("legacy/old.js")).unwrap();
    assert_eq!(resolution.graph.module(entry_id).system, ModuleSystem::Esm);
    assert_eq!(resolution.graph.module(legacy_id).system, ModuleSystem::Cjs);
}

#[test]
fn test_unresolved_specifiers_are_recorded_not_fatal() {
    let mut project = Project::new();
    project.write(
        "index.js",
        "import 'not-installed';\nimport './gone.js';\nimport 'node:fs';\n",
    );

    let resolution = graph_of(&project, "index.js");
    assert_eq!(resolution.graph.unresolved().len(), 2);
    assert_eq!(resolution.graph.diagnostics().len(), 2);

    let targets = specifiers(&resolution, "index.js");
    assert_eq!(
        targets[2],
        ("node:fs".to_string(), "builtin:fs".to_string())
    );
}

#[test]
fn test_malformed_package_json_does_not_stop_resolution() {
    let mut project = Project::new();
    project
        .write("index.js", "import 'pkg';\n")
        .write("node_modules/pkg/package.json", "{ this is not json")
        .write("node_modules/pkg/index.js", "module.exports = 1;\n");

    let resolution = graph_of(&project, "index.js");
    assert_eq!(
        specifiers(&resolution, "index.js"),
        vec![("pkg".to_string(), "node_modules/pkg/index.js".to_string())]
    );
    assert!(
        resolution
            .graph
            .diagnostics()
            .iter()
            .any(|diagnostic| diagnostic.message.contains("invalid JSON"))
    );
}

#[test]
fn test_json_and_opaque_files_are_leaf_modules() {
    let mut project = Project::new();
    project
        .write(
            "index.js",
            "import data from './data.json';\nconst native = require('./addon.node');\nexport { data, native };\n",
        )
        .write("data.json", r#"{ "a": 1 }"#)
        .write("addon.node", "not really a binary");

    let resolution = graph_of(&project, "index.js");
    let json = resolution.graph.id_of(&entry("data.json")).unwrap();
    let node = resolution.graph.id_of(&entry("addon.node")).unwrap();
    assert_eq!(resolution.graph.module(json).source, SourceKind::Json);
    assert_eq!(resolution.graph.module(node).source, SourceKind::Opaque);
    assert!(resolution.graph.module(json).dependencies.is_empty());
}

#[test]
fn test_trace_records_the_probes_a_result_depends_on() {
    let mut project = Project::new();
    project
        .write("index.js", "import './x';\n")
        .write("x/index.js", "");

    let resolution = graph_of(&project, "index.js");
    // `./x` was probed as a file, and as `./x.js`, before the directory index
    // won. Those absences are what a later run has to re-check.
    assert!(resolution.trace.missing.contains_key(&entry("x")));
    assert!(resolution.trace.missing.contains_key(&entry("x.js")));
    assert!(resolution.trace.files.contains_key(&entry("x/index.js")));
}

/// A cache whose records and graphs are kept in memory.
struct Cache {
    cache: GraphCache,
    records: BTreeMap<String, MemoRecord>,
    objects: BTreeMap<ContentHash, GraphSnapshot>,
}

struct Cached {
    graph: ModuleGraph,
    status: CacheStatus,
    output: ContentHash,
}

fn copy_trace(record: &MemoRecord) -> MemoRecord {
    let mut files = SortedMap::new();
    for at in 0..record.trace.files.len() {
        files.insert(
            record.trace.files.key_at(at).clone(),
            *record.trace.files.value_at(at),
        );
    }
    let mut missing = SortedMap::new();
    for at in 0..record.trace.missing.len() {
        missing.insert(record.trace.missing.key_at(at).clone(), ());
    }
    MemoRecord {
        version: record.version,
        entry: record.entry.clone(),
        trace: opal::graph::resolver::ResolveTrace { files, missing },
        output: record.output,
    }
}

fn copy_snapshot(root: &NormalizedPath, snapshot: &GraphSnapshot) -> GraphSnapshot {
    GraphSnapshot {
        version: snapshot.version,
        entry: root.join(snapshot.entry.as_str()).relative_to(root).unwrap(),
        modules: snapshot.modules.iter().map(|module| module.clone()).collect(),
        diagnostics: snapshot.diagnostics.iter().map(|one| one.clone()).collect(),
    }
}

impl Cache {
    fn new() -> Self {
        Cache {
            cache: GraphCache::at(Cas::at("/cache/cas"), "/cache/memo"),
            records: BTreeMap::new(),
            objects: BTreeMap::new(),
        }
    }

    fn reopen(&self) -> Self {
        let root = NormalizedPath::new("/");
        Cache {
            cache: GraphCache::at(Cas::at("/cache/cas"), "/cache/memo"),
            records: self
                .records
                .iter()
                .map(|(path, record)| (path.clone(), copy_trace(record)))
                .collect(),
            objects: self
                .objects
                .iter()
                .map(|(hash, snapshot)| (*hash, copy_snapshot(&root, snapshot)))
                .collect(),
        }
    }

    fn lookup(
        &self,
        key: MemoKey,
        project: &Project,
    ) -> Result<(ModuleGraph, ContentHash), MissReason> {
        let found = self.records.get(&self.cache.record_path(key));
        let record = accept_record(found.map(|record| Ok(copy_trace(record))))?;
        let files = &record.trace.files;
        let actual = (0..files.len())
            .map(|at| {
                let path = project.root.join(files.key_at(at).as_str());
                project.files.get(path.as_str()).map(|bytes| ContentHash::of(bytes))
            })
            .collect();
        let missing = &record.trace.missing;
        let present = (0..missing.len())
            .map(|at| {
                let path = project.root.join(missing.key_at(at).as_str());
                project.files.contains_key(path.as_str())
            })
            .collect();
        if let Some(reason) = validate(&record.trace, &actual, &present) {
            return Err(reason);
        }
        let stored = self.objects.get(&record.output);
        let stored = stored.map(|snapshot| Ok(copy_snapshot(&project.root, snapshot)));
        let graph = restore(&project.root, &record.output, stored).unwrap()?;
        Ok((graph, record.output))
    }

    fn resolve(&mut self, project: &Project, from: &str, options: &ResolverOptions) -> Cached {
        let key = MemoKey::for_graph(&entry(from), options);
        match self.lookup(key, project) {
            Ok((graph, output)) => Cached { graph, status: CacheStatus::Hit, output },
            Err(reason) => {
                let resolution = resolve_with(project, from, options).unwrap();
                let snapshot = resolution.graph.to_snapshot();
                let output = ContentHash::of(format!("{snapshot:?}").as_bytes());
                self.objects.insert(output, snapshot);
                self.records.insert(
                    self.cache.record_path(key),
                    MemoRecord::new(entry(from), resolution.trace, output),
                );
                Cached { graph: resolution.graph, status: CacheStatus::Miss(reason), output }
            }
        }
    }

    fn live_outputs(&self) -> Vec<ContentHash> {
        let outputs = self.records.values().map(|record| record.output).collect();
        let live = live_outputs(&outputs);
        (0..live.len()).map(|at| *live.key_at(at)).collect()
    }

    fn collect(&mut self, live: &[ContentHash]) -> usize {
        let candidates = self
            .objects
            .keys()
            .map(|hash| Candidate { hash: *hash, mismatched: false, size: 1 })
            .collect();
        let marked = live_outputs(&live.to_vec());
        let sweep = collect(&candidates, &marked, &Vec::new(), &GcOptions::default());
        for hash in &sweep.objects {
            self.objects.remove(hash);
        }
        sweep.report.objects_removed
    }
}

fn resolve(cache: &mut Cache, project: &Project, from: &str) -> (ModuleGraph, CacheStatus) {
    let resolved = cache.resolve(project, from, &ResolverOptions::default());
    (resolved.graph, resolved.status)
}

fn app() -> Project {
    let mut project = Project::new();
    project
        .write("index.js", "import './direct.js';\n")
        .write("direct.js", "import './transitive.js';\n")
        .write("transitive.js", "export const value = 1;\n");
    project
}

#[test]
fn test_unchanged_input_hits_with_an_identical_graph() {
    let mut project = app();
    let mut cache = Cache::new();

    let (first, cold) = resolve(&mut cache, &project, "index.js");
    let (second, warm) = resolve(&mut cache, &project, "index.js");

    assert_eq!(cold, CacheStatus::Miss(MissReason::NoRecord));
    assert_eq!(warm, CacheStatus::Hit);
    assert_eq!(first.digest(), second.digest());
    assert_eq!(first.to_snapshot(), second.to_snapshot());
}

#[test]
fn test_changing_file_content_misses() {
    let mut project = app();
    let mut cache = Cache::new();

    resolve(&mut cache, &project, "index.js");
    project.write("transitive.js", "export const value = 2;\n");

    let (_, status) = resolve(&mut cache, &project, "index.js");
    assert_eq!(
        status,
        CacheStatus::Miss(MissReason::InputChanged(entry("transitive.js")))
    );
}

#[test]
fn test_rewriting_identical_content_still_hits() {
    let mut project = app();
    let mut cache = Cache::new();

    resolve(&mut cache, &project, "index.js");
    project.write("transitive.js", "export const value = 1;\n");

    let (_, status) = resolve(&mut cache, &project, "index.js");
    assert_eq!(status, CacheStatus::Hit);
}

#[test]
fn test_removing_a_file_misses() {
    let mut project = app();
    let mut cache = Cache::new();

    resolve(&mut cache, &project, "index.js");
    project.remove("transitive.js");

    let (_, status) = resolve(&mut cache, &project, "index.js");
    assert_eq!(
        status,
        CacheStatus::Miss(MissReason::InputRemoved(entry("transitive.js")))
    );
}

#[test]
fn test_adding_a_file_that_shadows_a_resolution_misses() {
    // Nothing that was read has changed — only a path that was probed and found
    // absent now exists. Without negative dependencies this is a stale hit.
    let mut project = Project::new();
    project
        .write("index.js", "import './x';\n")
        .write("x/index.js", "export const x = 1;\n");
    let mut cache = Cache::new();

    let (before, _) = resolve(&mut cache, &project, "index.js");
    project.write("x.js", "export const x = 2;\n");
    let (after, status) = resolve(&mut cache, &project, "index.js");

    assert_eq!(
        status,
        CacheStatus::Miss(MissReason::MissingPathAppeared(entry("x.js")))
    );
    assert_ne!(before.digest(), after.digest());
}

#[test]
fn test_adding_an_unrelated_file_still_hits() {
    let mut project = app();
    let mut cache = Cache::new();

    resolve(&mut cache, &project, "index.js");
    project.write("docs/readme.md", "unrelated\n");

    let (_, status) = resolve(&mut cache, &project, "index.js");
    assert_eq!(status, CacheStatus::Hit);
}

#[test]
fn test_changing_resolver_options_misses_without_disturbing_the_old_entry() {
    let mut project = app();
    let mut cache = Cache::new();

    resolve(&mut cache, &project, "index.js");

    let changed = ResolverOptions {
        follow_type_only_imports: true,
        ..ResolverOptions::default()
    };
    let other = cache.resolve(&project, "index.js", &changed);
    assert_eq!(other.status, CacheStatus::Miss(MissReason::NoRecord));

    let (_, status) = resolve(&mut cache, &project, "index.js");
    assert_eq!(status, CacheStatus::Hit);
}

#[test]
fn test_a_second_tool_hits_the_shared_cache() {
    let mut project = app();
    let mut first_tool = Cache::new();

    let (from_first, cold) = resolve(&mut first_tool, &project, "index.js");
    assert!(!cold.is_hit());

    let mut second_tool = first_tool.reopen();
    let (from_second, warm) = resolve(&mut second_tool, &project, "index.js");

    assert_eq!(warm, CacheStatus::Hit);
    assert_eq!(from_first.digest(), from_second.digest());
}

#[test]
fn test_two_projects_with_identical_content_share_one_graph() {
    // Same relative entry, same content: the memo key collides on purpose and
    // the trace validates, so the second project reuses the first's graph.
    let first = app();
    let second = app();
    let mut cache = Cache::new();

    let cold = cache.resolve(&first, "index.js", &ResolverOptions::default());
    let warm = cache.resolve(&second, "index.js", &ResolverOptions::default());

    assert_eq!(warm.status, CacheStatus::Hit);
    assert_eq!(cold.graph.digest(), warm.graph.digest());
    assert_eq!(cold.output, warm.output);
}

#[test]
fn test_two_projects_with_different_content_do_not_collide() {
    let first = app();
    let mut second = app();
    second.write("transitive.js", "export const value = 99;\n");
    let mut cache = Cache::new();

    resolve(&mut cache, &first, "index.js");
    let (_, status) = resolve(&mut cache, &second, "index.js");

    assert_eq!(
        status,
        CacheStatus::Miss(MissReason::InputChanged(entry("transitive.js")))
    );
}

#[test]
fn test_collecting_the_graph_object_misses_and_recovers() {
    let mut project = app();
    let mut cache = Cache::new();

    let cold = cache.resolve(&project, "index.js", &ResolverOptions::default());

    // GC with an empty live set: the record survives, its graph does not.
    cache.collect(&[]);
    let (_, status) = resolve(&mut cache, &project, "index.js");
    assert_eq!(
        status,
        CacheStatus::Miss(MissReason::OutputEvicted(cold.output))
    );

    let (_, status) = resolve(&mut cache, &project, "index.js");
    assert_eq!(status, CacheStatus::Hit);
}

#[test]
fn test_live_outputs_keep_graphs_through_gc() {
    let mut project = app();
    let mut cache = Cache::new();

    resolve(&mut cache, &project, "index.js");
    let live = cache.live_outputs();
    assert_eq!(live.len(), 1);

    assert_eq!(cache.collect(&live), 0);

    let (_, status) = resolve(&mut cache, &project, "index.js");
    assert_eq!(status, CacheStatus::Hit);
}

#[test]
fn a_missing_entry_is_an_error() {
    let project = Project::new();
    let error = match resolve_with(&project, "index.js", &ResolverOptions::default()) {
        Err(error) => error,
        Ok(_) => panic!("resolved nothing"),
    };
    assert!(matches!(error, ResolveError::EntryNotFound(_)));
    assert!(error.to_string().contains("index.js"));
}

#[test]
fn the_realistic_project_has_its_shape() {
    let mut project = Project::new();
    project
        .write("package.json", r#"{ "type": "module" }"#)
        .write(
            "src/index.js",
            "import { util } from './util.js';\nimport path from 'node:path';\nimport widget from '@scope/widget';\nimport missing from 'not-installed';\nexport * from './reexport.js';\nconst lazy = await import('./lazy.js');\n",
        )
        .write("src/util.js", "import data from './data.json' with { type: 'json' };\n")
        .write("src/data.json", "{ }\n")
        .write("src/lazy.js", "")
        .write("src/reexport.js", "")
        .write(
            "node_modules/@scope/widget/package.json",
            r#"{ "exports": { ".": { "import": "./esm/index.mjs", "require": "./cjs/index.cjs" } } }"#,
        )
        .write("node_modules/@scope/widget/esm/index.mjs", "");
    let resolution = graph_of(&project, "src/index.js");
    assert_eq!(
        specifiers(&resolution, "src/index.js"),
        vec![
            ("./util.js".to_string(), "src/util.js".to_string()),
            ("node:path".to_string(), "builtin:path".to_string()),
            (
                "@scope/widget".to_string(),
                "node_modules/@scope/widget/esm/index.mjs".to_string()
            ),
            ("not-installed".to_string(), "unresolved".to_string()),
            ("./reexport.js".to_string(), "src/reexport.js".to_string()),
            ("./lazy.js".to_string(), "src/lazy.js".to_string()),
        ]
    );
    assert_eq!(resolution.graph.len(), 6);
}

#[test]
fn records_of_another_format_miss() {
    let record = MemoRecord {
        version: 99,
        ..MemoRecord::new(
            entry("a"),
            opal::graph::resolver::ResolveTrace {
                files: SortedMap::new(),
                missing: SortedMap::new(),
            },
            ContentHash::of(b""),
        )
    };
    assert_eq!(
        accept_record(Some(Ok(record))).unwrap_err(),
        MissReason::FormatVersion(99)
    );
    let unreadable = accept_record(Some(Err("torn".to_string()))).unwrap_err();
    assert_eq!(unreadable, MissReason::RecordUnreadable("torn".to_string()));
    assert_eq!(accept_record(None).unwrap_err(), MissReason::NoRecord);
}

#[test]
fn statuses_are_spelled_out() {
    assert_eq!(CacheStatus::Hit.to_string(), "HIT");
    assert_eq!(
        CacheStatus::Miss(MissReason::InputChanged(entry("a.js"))).to_string(),
        "MISS (changed: a.js)"
    );
    assert_eq!(
        CacheStatus::Miss(MissReason::FormatVersion(2)).to_string(),
        "MISS (record format v2)"
    );
}

#[test]
fn record_paths_are_sharded() {
    let cache = GraphCache::at(Cas::at("/cache/cas"), "/cache/memo");
    let key = MemoKey::for_graph(&entry("index.js"), &ResolverOptions::default());
    let hex = key.to_hex();
    assert_eq!(
        cache.record_path(key),
        format!("/cache/memo/{}/{hex}.json", &hex[0..2])
    );
    let other = MemoKey::for_graph(&entry("other.js"), &ResolverOptions::default());
    assert_ne!(other.to_hex(), hex);
}

#[test]
fn files_that_are_no_text_are_noted() {
    let mut project = Project::new();
    project.write("index.js", "import './broken.js';\n");
    project.files.insert("/project/broken.js".to_string(), vec![0xff, 0xfe]);
    let resolution = graph_of(&project, "index.js");
    assert_eq!(resolution.graph.len(), 2);
    assert_eq!(resolution.graph.diagnostics().len(), 1);
}

#[test]
fn nodes_import_what_they_name() {
    let some = |text: &str| Some(text.to_string());
    let nodes = vec![
        Node::Import("a".to_string(), true),
        Node::Import("b".to_string(), false),
        Node::ExportFrom("c".to_string(), true),
        Node::ExportAll("d".to_string(), false),
        Node::ImportCall(some("e")),
        Node::ImportCall(None),
        Node::Call(some("require"), some("f")),
        Node::Call(some("required"), some("g")),
        Node::Call(None, some("h")),
        Node::Call(some("require"), None),
        Node::ImportEquals(some("i"), true),
        Node::ImportEquals(None, true),
    ];
    let import = |specifier: &str, kind: DependencyKind, type_only: bool| Import {
        specifier: specifier.to_string(),
        kind,
        type_only,
    };
    assert_eq!(
        imports_of(&nodes),
        vec![
            import("a", DependencyKind::StaticImport, false),
            import("b", DependencyKind::StaticImport, true),
            import("c", DependencyKind::ExportFrom, false),
            import("d", DependencyKind::ExportFrom, true),
            import("e", DependencyKind::DynamicImport, false),
            import("f", DependencyKind::Require, false),
            import("i", DependencyKind::TsImportEquals, false),
        ]
    );
}

#[test]
fn trouble_is_said_in_words() {
    let syntax = |panicked: bool, errors: usize| Syntax { panicked, errors, nodes: Vec::new() };
    assert_eq!(syntax(false, 0).trouble(), None);
    assert_eq!(
        syntax(false, 2).trouble().unwrap(),
        "2 syntax error(s); parsed on a best-effort basis"
    );
    assert_eq!(
        syntax(true, 1).trouble().unwrap(),
        "parser could not recover; imports may be missing"
    );
}

#[test]
fn every_form_of_import_is_read_from_source() {
    let mut project = Project::new();
    project.write(
        "main.ts",
        concat_lines(&[
            "import a from './a';",
            "import type { B } from './b';",
            "export { c } from './c';",
            "export * from './d';",
            "const e = import('./e');",
            "const f = require('./f');",
            "import g = require('./g');",
            "const h = import(name);",
        ])
        .as_str(),
    );
    for name in ["a", "b", "c", "d", "e", "f", "g"] {
        project.write(&format!("{name}.ts"), "");
    }
    let resolution = graph_of(&project, "main.ts");
    let found: Vec<String> = specifiers(&resolution, "main.ts")
        .into_iter()
        .map(|(specifier, _)| specifier)
        .collect();
    assert_eq!(found, vec!["./a", "./c", "./d", "./e", "./f", "./g"]);
}

fn concat_lines(lines: &[&str]) -> String {
    lines.join("\n")
}

#[test]
fn graphs_have_their_shape() {
    let mut project = Project::new();
    project
        .write(
            "src/index.js",
            "import './b'; import './b'; import '../a'; import './nope'; require('./b');\n",
        )
        .write("src/b.js", "import './index'; import './data.json'; import './gone';\n")
        .write("src/data.json", "{}")
        .write("a.js", "import '../outside.js';\n")
        .write("../outside.js", "import 'nowhere';\n")
        .write("unused.js", "");
    let resolution = graph_of(&project, "src/index.js");
    let graph = &resolution.graph;

    // Modules ascend strictly, and are found by their paths.
    let paths: Vec<&str> = graph.modules().iter().map(|m| m.path.as_str()).collect();
    assert_eq!(
        paths,
        vec!["../outside.js", "a.js", "src/b.js", "src/data.json", "src/index.js"]
    );
    for (at, module) in graph.modules().iter().enumerate() {
        let id = graph.id_of(&module.path).unwrap();
        assert_eq!(id.index(), at);
        assert_eq!(graph.module(id).path, module.path);
        let absolute = graph.absolute_path(id);
        assert!(project.files.contains_key(absolute.as_str()));
        assert_eq!(absolute.relative_to(graph.root()).unwrap(), module.path);
    }
    assert!(graph.id_of(&entry("unused.js")).is_none());

    // Edges are the imports, each once for each kind.
    let edges = specifiers(&resolution, "src/index.js");
    let named: Vec<&str> = edges.iter().map(|(specifier, _)| specifier.as_str()).collect();
    assert_eq!(named, vec!["./b", "../a", "./nope", "./b"]);
    assert!(specifiers(&resolution, "src/data.json").is_empty());

    // Everything is reached from the entry.
    let mut reached = vec![graph.entry().index()];
    let mut at = 0;
    while at < reached.len() {
        for edge in &graph.modules()[reached[at]].dependencies {
            if let DependencyTarget::Module { id } = &edge.target {
                if !reached.contains(&id.index()) {
                    reached.push(id.index());
                }
            }
        }
        at += 1;
    }
    reached.sort();
    assert_eq!(reached, vec![0, 1, 2, 3, 4]);

    // What leads nowhere is reported, in strict order.
    let said: Vec<(&str, &str)> = graph
        .diagnostics()
        .iter()
        .map(|d| (d.module.as_str(), d.message.as_str()))
        .collect();
    for (module, edge) in graph.unresolved() {
        if let DependencyTarget::Unresolved { reason } = &edge.target {
            let message = format!("cannot resolve {:?}: {reason}", edge.specifier);
            assert!(said.contains(&(module.path.as_str(), message.as_str())), "{message}");
        }
    }
    assert_eq!(graph.unresolved().len(), 3);
    assert!(said.windows(2).all(|pair| pair[0] < pair[1]));
}
