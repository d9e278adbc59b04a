use std::collections::BTreeMap;

use opal::cas::gc::{collect, Candidate, GcOptions};
use opal::cas::{Cas, Placement, Put};
use opal::fixtures::{packument_json, FixtureRegistry, Package, Published};
use opal::gc::{all_live, mark, prune_pointers, Known, Project};
use opal::hash::ContentHash;
use opal::install::{
    course, Course, Gathering, InstallError, InstallOptions, InstallReport,
};
use opal::integrity::{Algorithm, Integrity};
use opal::json::Json;
use opal::link::{self, Fetched, FetchedPackage, LinkReport, Markers};
use opal::lockfile;
use opal::manifest::Manifest;
use opal::native::NativePath;
use opal::package::{pointer_target, pointer_text, PackageIndex, PackageStore};
use opal::projects::ProjectIndex;
use opal::registry::{NpmRegistry, Packument, RegistryError};
use opal::resolve::{
    Answer, PackageId, Progress, Resolution, ResolveError, ResolveOptions, Resolver,
};
use opal::sorted::SortedMap;
use serde_json::Value;

fn value_of(document: &Json) -> Value {
    match document {
        Json::Null => Value::Null,
        Json::Bool(value) => Value::Bool(*value),
        Json::Number => unreachable!("fixtures hold no numbers"),
        Json::Text(value) => Value::String(value.clone()),
        Json::Array(items) => Value::Array(items.iter().map(value_of).collect()),
        Json::Object(fields) => fields
            .iter()
            .map(|(name, value)| (name.clone(), value_of(value)))
            .collect(),
    }
}

fn copy_index(index: &PackageIndex) -> PackageIndex {
    let mut files = SortedMap::new();
    for at in 0..index.files.len() {
        files.insert(index.files.key_at(at).clone(), *index.files.value_at(at));
    }
    PackageIndex {
        format: index.format,
        name: index.name.clone(),
        version: index.version.clone(),
        files,
    }
}

/// A registry, a cache and a project, all of them in memory.
struct Sandbox {
    registry: FixtureRegistry,
    published: BTreeMap<String, Vec<Published>>,
    tarballs: BTreeMap<String, Vec<u8>>,
    store: PackageStore,
    objects: BTreeMap<String, Vec<u8>>,
    pointers: BTreeMap<String, String>,
    indexes: BTreeMap<ContentHash, PackageIndex>,
    projects: ProjectIndex,
    entries: BTreeMap<String, String>,
    manifest: String,
    lockfile: Option<String>,
    tree: BTreeMap<String, String>,
}

impl Sandbox {
    fn new() -> Self {
        Sandbox {
            registry: FixtureRegistry::at("/registry"),
            published: BTreeMap::new(),
            tarballs: BTreeMap::new(),
            store: PackageStore::at(Cas::at("/cache/cas"), "/cache"),
            objects: BTreeMap::new(),
            pointers: BTreeMap::new(),
            indexes: BTreeMap::new(),
            projects: ProjectIndex::at("/cache/projects"),
            entries: BTreeMap::new(),
            manifest: String::new(),
            lockfile: None,
            tree: BTreeMap::new(),
        }
    }

    fn publish(&mut self, package: Package) -> &mut Self {
        let manifest = value_of(&package.manifest_json()).to_string().into_bytes();
        let bytes = package.tarball(manifest).unwrap();
        let tarball = self.registry.tarball_path(&package.name, &package.version);
        let integrity = Integrity::of(Algorithm::Sha512, &bytes);
        self.tarballs.insert(tarball.clone(), bytes);
        let name = package.name.clone();
        let entry = Published { package, integrity, tarball };
        self.published.entry(name).or_default().push(entry);
        self
    }

    fn project(&mut self, manifest: &str) -> &mut Self {
        self.manifest = manifest.to_string();
        self
    }

    fn answer(&self, name: &str) -> Answer {
        let url = NpmRegistry::new(&self.registry.url()).packument_url(name);
        assert_eq!(url, format!("file://{}", self.registry.packument_path(name)));
        let Some(published) = self.published.get(name) else {
            return Answer::Refused(RegistryError::NotFound(name.to_string()));
        };
        let text = value_of(&packument_json(name, published)).to_string();
        Answer::Found(Packument::read(name, &url, text.as_bytes()).unwrap())
    }

    fn resolve(
        &self,
        manifest: &Manifest,
        options: &ResolveOptions,
    ) -> Result<Resolution, ResolveError> {
        let mut answers = SortedMap::new();
        let mut resolver = Resolver::start(manifest, options);
        loop {
            match resolver.step(&answers) {
                Progress::Stepped => {}
                Progress::Done => return Ok(resolver.finish()),
                Progress::Ask(name) => {
                    let answer = self.answer(&name);
                    answers.insert(name, answer);
                }
                Progress::Dangling { name, .. } => panic!("{name} has a dangling tag"),
                Progress::Failed(error) => return Err(error),
            }
        }
    }

    fn put(&mut self, bytes: &[u8]) -> ContentHash {
        let mut put = Put::new();
        put.chunk(bytes);
        let stored = self.objects.contains_key(&put.target(self.store.cas()));
        match put
            .place(self.store.cas(), &ContentHash::of(bytes), stored)
            .unwrap()
        {
            Placement::Rename { hash, target, .. } => {
                self.objects.insert(target, bytes.to_vec());
                hash
            }
            Placement::Drop { hash } => hash,
        }
    }

    fn lookup(&self, integrity: &Integrity) -> Option<FetchedPackage> {
        let text = self.pointers.get(&self.store.pointer_path(integrity))?;
        let index_hash = pointer_target(text)?;
        let index = copy_index(self.indexes.get(&index_hash)?);
        Some(FetchedPackage { index_hash, index })
    }

    fn install(&mut self) -> Result<InstallReport, InstallError> {
        self.install_with(&InstallOptions::default())
    }

    fn install_with(&mut self, options: &InstallOptions) -> Result<InstallReport, InstallError> {
        let manifest = Manifest::parse("/project/package.json", &self.manifest).unwrap();
        let path = lockfile::path_in("/project");
        let existing = self
            .lockfile
            .as_ref()
            .map(|text| lockfile::parse(&path, text).unwrap());
        let mut resolved_anew = false;
        let resolution = match course(existing, &manifest, options)? {
            Course::Reuse(resolution) => resolution,
            Course::Resolve => {
                resolved_anew = true;
                let wanted = ResolveOptions { include_development: options.include_development };
                self.resolve(&manifest, &wanted).map_err(InstallError::Resolve)?
            }
        };
        let mut gathering = Gathering::new();
        for at in 0..resolution.packages.len() {
            let package = resolution.packages.value_at(at);
            if let Some(found) = self.lookup(&package.integrity) {
                gathering.take(&package.id, true, found);
                continue;
            }
            let bytes = self.tarballs[package.tarball.trim_start_matches("file://")].clone();
            let ingest = self
                .store
                .ingest(&package.id.name, &package.id.version, &package.integrity, &bytes)
                .map_err(InstallError::Package)?;
            for write in &ingest.writes {
                self.put(&write.contents);
            }
            let index = ingest.end.map_err(InstallError::Package)?;
            let hash = self.put(format!("{index:?}").as_bytes());
            self.indexes.insert(hash, index);
            let pointer = self.store.pointer_path(&package.integrity);
            self.pointers.insert(pointer, pointer_text(&hash));
            let found = self.lookup(&package.integrity).unwrap();
            gathering.take(&package.id, false, found);
        }
        self.lockfile = Some(lockfile::render(&resolution));
        let layout = link::plan(&resolution).unwrap();
        let link = self.link(&layout, gathering.fetched());
        self.entries.insert(
            self.projects.entry_path("/project"),
            ProjectIndex::entry_text("/project"),
        );
        Ok(gathering.report(resolved_anew, &layout, link, resolution.skipped))
    }

    fn link(&mut self, layout: &link::Layout, fetched: &Fetched) -> LinkReport {
        let mut actual: Markers = SortedMap::new();
        for (path, text) in &self.tree {
            if let Some(directory) = path.strip_suffix("/.opal-package") {
                if let Some(marker) = link::read_marker(text) {
                    let relative = link::relative_to_root("/project", directory).unwrap();
                    actual.insert(relative, marker);
                }
            }
        }
        let difference = link::reconcile(&actual, layout, fetched);
        assert_eq!(difference.missing, None);
        for path in &difference.removals {
            let prefix = format!("/project/{}/", path.as_str());
            self.tree.retain(|file, _| !file.starts_with(&prefix));
        }
        for addition in &difference.additions {
            let package = fetched.get(&addition.id).unwrap();
            let written =
                link::materialize("/project", &addition.path, package, self.store.cas());
            let prefix = format!("{}/", written.directory);
            self.tree.retain(|file, _| !file.starts_with(&prefix));
            for file in &written.files {
                let bytes = self.objects[&file.source].clone();
                let text = String::from_utf8(bytes).unwrap();
                self.tree.insert(file.destination.clone(), text);
            }
            self.tree.insert(written.marker_path, written.marker);
        }
        difference.report()
    }

    fn installed(&self, relative: &str) -> bool {
        self.tree.contains_key(&format!("/project/{relative}/.opal-package"))
    }

    fn lockfile(&self) -> String {
        self.lockfile.clone().unwrap()
    }

    fn known(&self) -> Vec<NativePath> {
        ProjectIndex::known(&self.entries.values().cloned().collect())
    }

    fn locked(&self) -> Project {
        match &self.lockfile {
            None => Project::Gone,
            Some(text) => {
                let resolution = lockfile::parse("/project/opal.lock", text).unwrap();
                Project::Locked(
                    (0..resolution.packages.len())
                        .map(|at| self.lookup(&resolution.packages.value_at(at).integrity))
                        .collect(),
                )
            }
        }
    }

    fn sweep(&mut self, live: &opal::cas::gc::Live) -> opal::cas::gc::GcReport {
        let candidates = self
            .objects
            .values()
            .map(|bytes| Candidate {
                hash: ContentHash::of(bytes),
                mismatched: false,
                size: bytes.len() as u64,
            })
            .collect();
        let sweep = collect(&candidates, live, &Vec::new(), &GcOptions::default());
        for hash in &sweep.objects {
            self.objects.remove(&self.store.cas().object_path(hash));
        }
        sweep.report
    }
}

#[test]
fn test_installs_a_flat_tree() {
    let mut sandbox = Sandbox::new();
    sandbox
        .publish(Package::new("b", "1.0.0"))
        .publish(Package::new("a", "1.0.0").dependency("b", "^1.0.0"));
    sandbox.project(
        r#"{ "name": "app", "version": "1.0.0", "dependencies": { "a": "^1.0.0" } }"#,
    );

    let report = sandbox.install().expect("install");

    assert_eq!(report.packages, 2);
    assert_eq!(report.fetched, 2);
    assert!(sandbox.installed("node_modules/a"));
    assert!(sandbox.installed("node_modules/b"));
    assert!(sandbox.tree.contains_key("/project/node_modules/a/package.json"));
    assert!(sandbox.tree.contains_key("/project/node_modules/a/index.js"));
}

#[test]
fn test_second_run_changes_nothing() {
    let mut sandbox = Sandbox::new();
    sandbox.publish(Package::new("a", "1.0.0"));
    sandbox.project(r#"{ "dependencies": { "a": "^1.0.0" } }"#);

    let first = sandbox.install().expect("first install");
    let lockfile = sandbox.lockfile();
    let second = sandbox.install().expect("second install");

    assert!(first.resolved, "the first run has no lockfile to reuse");
    assert!(!second.resolved, "the second run reuses opal.lock");
    assert_eq!(second.fetched, 0, "contents are already in the store");
    assert_eq!(second.already_stored, 1);
    assert_eq!(second.link.added, 0);
    assert_eq!(second.link.unchanged, 1);
    assert_eq!(sandbox.lockfile(), lockfile, "lockfile must be stable");
}

#[test]
fn test_editing_package_json_re_resolves() {
    let mut sandbox = Sandbox::new();
    sandbox
        .publish(Package::new("a", "1.0.0"))
        .publish(Package::new("a", "2.0.0"));
    sandbox.project(r#"{ "dependencies": { "a": "^1.0.0" } }"#);
    sandbox.install().expect("install");
    assert!(sandbox.lockfile().contains("pkg a 1.0.0 "));

    sandbox.project(r#"{ "dependencies": { "a": "^2.0.0" } }"#);
    let report = sandbox.install().expect("reinstall");

    assert!(report.resolved);
    assert!(sandbox.lockfile().contains("pkg a 2.0.0 "));
    assert!(!sandbox.lockfile().contains("pkg a 1.0.0 "));
    // The old version is gone from the tree, not merely shadowed.
    let marker = &sandbox.tree["/project/node_modules/a/.opal-package"];
    assert!(marker.contains("2.0.0"));
}

#[test]
fn test_frozen_lockfile_refuses_to_re_resolve() {
    let mut sandbox = Sandbox::new();
    sandbox
        .publish(Package::new("a", "1.0.0"))
        .publish(Package::new("a", "2.0.0"));
    sandbox.project(r#"{ "dependencies": { "a": "^1.0.0" } }"#);
    sandbox.install().expect("install");

    sandbox.project(r#"{ "dependencies": { "a": "^2.0.0" } }"#);
    let options = InstallOptions { frozen_lockfile: true, ..InstallOptions::default() };
    assert!(matches!(
        sandbox.install_with(&options),
        Err(InstallError::LockfileOutdated)
    ));
}

#[test]
fn test_removing_a_dependency_removes_it_from_the_tree() {
    let mut sandbox = Sandbox::new();
    sandbox
        .publish(Package::new("a", "1.0.0"))
        .publish(Package::new("b", "1.0.0"));
    sandbox.project(r#"{ "dependencies": { "a": "^1.0.0", "b": "^1.0.0" } }"#);
    sandbox.install().expect("install");
    assert!(sandbox.installed("node_modules/b"));

    sandbox.project(r#"{ "dependencies": { "a": "^1.0.0" } }"#);
    let report = sandbox.install().expect("reinstall");

    assert_eq!(report.link.removed, 1);
    assert!(!sandbox.tree.keys().any(|path| path.starts_with("/project/node_modules/b/")));
    assert!(sandbox.installed("node_modules/a"));
}

#[test]
fn test_a_package_without_its_marker_is_rebuilt() {
    let mut sandbox = Sandbox::new();
    sandbox.publish(Package::new("a", "1.0.0"));
    sandbox.project(r#"{ "dependencies": { "a": "^1.0.0" } }"#);
    sandbox.install().expect("install");

    // Exactly the state a kill mid-materialization leaves: files present,
    // marker absent.
    sandbox.tree.remove("/project/node_modules/a/.opal-package");
    sandbox.tree.remove("/project/node_modules/a/index.js");

    let report = sandbox.install().expect("reinstall");
    assert_eq!(report.link.added, 1);
    assert!(sandbox.tree.contains_key("/project/node_modules/a/index.js"));
    assert!(sandbox.installed("node_modules/a"));
}

#[test]
fn test_a_tampered_tarball_is_refused() {
    let mut sandbox = Sandbox::new();
    sandbox.publish(Package::new("a", "1.0.0"));
    sandbox.project(r#"{ "dependencies": { "a": "^1.0.0" } }"#);

    // Rewrite the tarball after publishing, leaving the packument's integrity
    // pointing at the original bytes.
    sandbox
        .tarballs
        .insert("/registry/tarballs/a-1.0.0.tgz".to_string(), b"not a tarball".to_vec());

    let error = sandbox.install().expect_err("install must fail");
    assert!(matches!(error, InstallError::Package(_)));
    assert!(sandbox.tree.is_empty());
}

#[test]
fn test_missing_optional_dependency_is_skipped_not_fatal() {
    let mut sandbox = Sandbox::new();
    sandbox
        .publish(Package::new("a", "1.0.0").optional_dependency("never-published", "^1.0.0"));
    sandbox.project(r#"{ "dependencies": { "a": "^1.0.0" } }"#);

    let report = sandbox.install().expect("install");
    assert!(sandbox.installed("node_modules/a"));
    assert_eq!(report.skipped.len(), 1);
    assert_eq!(report.skipped[0].0, "never-published");
    assert!(sandbox.lockfile().contains("skip never-published"));
}

#[test]
fn test_dist_tags_resolve() {
    let mut sandbox = Sandbox::new();
    sandbox
        .publish(Package::new("a", "1.0.0"))
        .publish(Package::new("a", "1.4.0"));
    sandbox.project(r#"{ "dependencies": { "a": "latest" } }"#);

    sandbox.install().expect("install");
    assert!(sandbox.lockfile().contains("pkg a 1.4.0 "));
}

#[test]
fn test_production_install_skips_dev_dependencies() {
    let mut sandbox = Sandbox::new();
    sandbox
        .publish(Package::new("a", "1.0.0"))
        .publish(Package::new("tool", "1.0.0"));
    sandbox.project(
        r#"{ "dependencies": { "a": "^1.0.0" }, "devDependencies": { "tool": "^1.0.0" } }"#,
    );

    let options = InstallOptions { include_development: false, ..InstallOptions::default() };
    sandbox.install_with(&options).expect("install");

    assert!(sandbox.installed("node_modules/a"));
    assert!(!sandbox.installed("node_modules/tool"));
}

#[test]
fn test_gc_keeps_an_installed_tree_alive() {
    let mut sandbox = Sandbox::new();
    sandbox
        .publish(Package::new("b", "1.0.0"))
        .publish(Package::new("a", "1.0.0").dependency("b", "^1.0.0"));
    sandbox.project(r#"{ "dependencies": { "a": "^1.0.0" } }"#);
    sandbox.install().expect("install");

    let root = sandbox.known().remove(0);
    let marks = mark(&vec![Known { root, project: sandbox.locked() }], &Vec::new());
    let live = all_live(&marks, &SortedMap::new());
    let report = sandbox.sweep(&live);
    assert_eq!(marks.projects, 1);
    assert_eq!(marks.packages, 2);
    assert_eq!(
        report.objects_removed, 0,
        "a lockfile's packages must survive collection"
    );

    // Still installable and still intact afterwards.
    let after = sandbox.install().expect("reinstall");
    assert_eq!(after.link.added, 0);
    assert_eq!(after.fetched, 0);
}

#[test]
fn test_gc_collects_once_the_project_is_gone() {
    let mut sandbox = Sandbox::new();
    sandbox.publish(Package::new("a", "1.0.0"));
    sandbox.project(r#"{ "dependencies": { "a": "^1.0.0" } }"#);
    sandbox.install().expect("install");
    let before = sandbox.objects.len();
    assert!(before > 0);

    sandbox.lockfile = None;
    let root = sandbox.known().remove(0);
    let marks = mark(&vec![Known { root, project: sandbox.locked() }], &Vec::new());
    assert_eq!(marks.forgotten.len(), 1);
    assert!(marks.live.is_empty());
    for path in &marks.forgotten {
        let entry = sandbox.projects.entry_path(&path.path);
        sandbox.entries.remove(&entry);
    }
    assert!(sandbox.known().is_empty());

    let report = sandbox.sweep(&marks.live);
    assert_eq!(report.objects_removed, before);
    let stored = sandbox
        .pointers
        .values()
        .map(|text| {
            let target = pointer_target(text).unwrap();
            sandbox.objects.contains_key(&sandbox.store.cas().object_path(&target))
        })
        .collect();
    assert_eq!(prune_pointers(&stored).len(), 1);
}

#[test]
fn test_an_extra_project_root_marks_without_being_recorded() {
    let mut sandbox = Sandbox::new();
    sandbox.publish(Package::new("a", "1.0.0"));
    sandbox.project(r#"{ "dependencies": { "a": "^1.0.0" } }"#);
    sandbox.install().expect("install");

    // The CI case: forget the project, then mark it explicitly by path.
    let entry = sandbox.projects.entry_path("/project");
    sandbox.entries.remove(&entry);
    let marks = mark(&Vec::new(), &vec![sandbox.locked()]);
    let report = sandbox.sweep(&marks.live);

    assert_eq!(report.objects_removed, 0);
    assert!(
        sandbox.known().is_empty(),
        "an --project root is marked, not recorded"
    );
}

#[test]
fn unreadable_lockfiles_keep_their_entry() {
    let project = Project::Unreadable {
        path: "/project/opal.lock".to_string(),
        message: "torn".to_string(),
    };
    let root = NativePath { path: "/project".to_string() };
    let marks = mark(&vec![Known { root, project }], &Vec::new());
    assert!(marks.forgotten.is_empty());
    assert_eq!(marks.unreadable.len(), 1);
    assert_eq!(marks.projects, 0);
}

#[test]
fn packages_that_were_never_fetched_are_counted() {
    let marks = mark(&Vec::new(), &vec![Project::Locked(vec![None, None])]);
    assert_eq!(marks.unfetched, 2);
    assert!(marks.live.is_empty());
}

#[test]
fn required_packages_that_are_not_there_fail() {
    let mut sandbox = Sandbox::new();
    sandbox.project(r#"{ "dependencies": { "ghost": "^1.0.0" } }"#);
    let error = sandbox.install().unwrap_err();
    assert!(matches!(error, InstallError::Resolve(_)));
    assert!(error.to_string().contains("ghost"));
}

#[test]
fn versions_nobody_published_fail() {
    let mut sandbox = Sandbox::new();
    sandbox.publish(Package::new("a", "1.0.0"));
    sandbox.project(r#"{ "dependencies": { "a": "^9.0.0" } }"#);
    assert!(sandbox.install().is_err());
    sandbox.project(r#"{ "dependencies": { "a": "no-such-tag" } }"#);
    assert!(sandbox.install().is_err());
    sandbox.project(r#"{ "dependencies": { "a": "git+https://x.invalid/a.git" } }"#);
    assert!(sandbox.install().is_err());
}

#[test]
fn one_version_serves_every_range_it_fits() {
    let mut sandbox = Sandbox::new();
    sandbox
        .publish(Package::new("shared", "1.0.0"))
        .publish(Package::new("shared", "1.5.0"))
        .publish(Package::new("a", "1.0.0").dependency("shared", "^1.0.0"))
        .publish(Package::new("b", "1.0.0").dependency("shared", "^1.2.0"));
    sandbox.project(r#"{ "dependencies": { "a": "^1.0.0", "b": "^1.0.0" } }"#);
    let report = sandbox.install().expect("install");
    assert_eq!(report.packages, 3);
    assert!(sandbox.lockfile().contains("pkg shared 1.5.0 "));
}

#[test]
fn a_scope_is_no_directory_of_the_registry() {
    let registry = FixtureRegistry::at("/registry");
    assert_eq!(registry.url(), "file:///registry");
    assert_eq!(
        registry.tarball_path("@scope/a", "1.0.0"),
        "/registry/tarballs/@scope_a-1.0.0.tgz"
    );
    assert_eq!(registry.packument_path("@scope/a"), "/registry/@scope/a.json");
}

#[test]
fn fixtures_bring_an_index_unless_they_have_one() {
    let plain = Package::new("a", "1.0.0").contents(b"{}".to_vec());
    let names: Vec<&str> = plain.iter().map(|file| file.path.as_str()).collect();
    assert_eq!(names, vec!["index.js", "package.json"]);
    assert_eq!(plain[0].contents, b"module.exports = \"a\";\n");

    let own = Package::new("a", "1.0.0")
        .file("index.js", "mine")
        .executable("bin.js", "#!")
        .bin("a", "./bin.js")
        .optional_peer("p", "^1")
        .contents(b"{}".to_vec());
    let names: Vec<&str> = own.iter().map(|file| file.path.as_str()).collect();
    assert_eq!(names, vec!["bin.js", "index.js", "package.json"]);
    assert!(own[0].executable);
    assert_eq!(own[1].contents, b"mine");
}

#[test]
fn package_ids_are_name_at_version() {
    let id = PackageId::new("a", opal::semver::Version::new(1, 2, 3));
    assert_eq!(id.to_string(), "a@1.2.3");
}

#[test]
fn fixture_documents_hold_what_was_given() {
    let package = Package::new("a", "1.0.0")
        .dependency("b", "^1")
        .optional_dependency("c", "^2")
        .optional_peer("z", "*")
        .optional_peer("d", "*")
        .bin("a", "./cli.js");
    let manifest = value_of(&package.manifest_json());
    assert_eq!(
        manifest.to_string(),
        r#"{"name":"a","version":"1.0.0","main":"index.js","dependencies":{"b":"^1"},"optionalDependencies":{"c":"^2"},"peerDependencies":{"d":"*","z":"*"},"peerDependenciesMeta":{"d":{"optional":true},"z":{"optional":true}},"bin":{"a":"./cli.js"}}"#
    );
    let published = vec![
        Published {
            package: Package::new("a", "1.0.0"),
            integrity: Integrity::of(Algorithm::Sha1, b"one"),
            tarball: "/t/a-1.0.0.tgz".to_string(),
        },
        Published {
            package: Package::new("a", "1.1.0"),
            integrity: Integrity::of(Algorithm::Sha1, b"two"),
            tarball: "/t/a-1.1.0.tgz".to_string(),
        },
        Published {
            package: Package::new("a", "1.0.0"),
            integrity: Integrity::of(Algorithm::Sha1, b"three"),
            tarball: "/t/again.tgz".to_string(),
        },
    ];
    let read = Packument::parse("a", &packument_json("a", &published));
    assert_eq!(read.versions.len(), 2);
    assert_eq!(read.versions.value_at(0).tarball, "file:///t/again.tgz");
    assert_eq!(read.dist_tags.value_at(0).to_string(), "1.0.0");
}

#[test]
fn test_conflicting_versions_nest_under_the_dependent() {
    let mut sandbox = Sandbox::new();
    sandbox
        .publish(Package::new("shared", "1.0.0"))
        .publish(Package::new("shared", "2.0.0"))
        .publish(Package::new("a", "1.0.0").dependency("shared", "^1.0.0"))
        .publish(Package::new("b", "1.0.0").dependency("shared", "^2.0.0"));
    sandbox.project(r#"{ "dependencies": { "a": "^1.0.0", "b": "^1.0.0" } }"#);

    sandbox.install().expect("install");

    // One version wins the hoisted slot, the other nests. Both are present, and
    // each dependent resolves to the one it asked for.
    assert!(sandbox.installed("node_modules/shared"));
    let nested = sandbox.installed("node_modules/a/node_modules/shared")
        || sandbox.installed("node_modules/b/node_modules/shared");
    assert!(nested, "the conflicting version should have nested");
}

fn world() -> Sandbox {
    let mut sandbox = Sandbox::new();
    sandbox
        .publish(Package::new("leaf", "1.0.0"))
        .publish(Package::new("shared", "1.0.0"))
        .publish(Package::new("shared", "2.0.0"))
        .publish(
            Package::new("tool", "1.0.0")
                .executable("cli.js", "#!/usr/bin/env node\nconsole.log('tool');\n")
                .bin("tool", "./cli.js"),
        )
        .publish(
            Package::new("a", "1.0.0")
                .dependency("leaf", "^1.0.0")
                .dependency("shared", "^1.0.0"),
        )
        .publish(Package::new("b", "1.0.0").dependency("shared", "^2.0.0"));
    sandbox.project(
        r#"{
            "name": "app",
            "version": "1.0.0",
            "dependencies": { "a": "^1.0.0", "b": "^1.0.0", "tool": "^1.0.0" }
        }"#,
    );
    sandbox
}

#[test]
fn test_an_uninterrupted_install_is_reproducible() {
    let mut first = world();
    let mut second = world();
    first.install().expect("install");
    second.install().expect("install");

    assert_eq!(first.lockfile(), second.lockfile());
    assert_eq!(
        first.tree, second.tree,
        "two clean installs of the same project must agree"
    );
    assert!(!first.tree.is_empty());
}

#[test]
fn installs_resume_without_any_one_marker() {
    let mut reference = world();
    reference.install().expect("install");
    let markers: Vec<String> = reference
        .tree
        .keys()
        .filter(|file| file.ends_with("/.opal-package"))
        .cloned()
        .collect();
    assert_eq!(markers.len(), 6);
    for marker in markers {
        let mut torn = world();
        torn.install().expect("install");
        // A directory that was being written has lost what was in it.
        let prefix = marker.strip_suffix(".opal-package").unwrap().to_string();
        torn.tree.retain(|file, _| !file.starts_with(&prefix));
        torn.install().expect("resume");
        assert_eq!(torn.tree, reference.tree);
    }
}

#[test]
fn marks_are_what_lockfiles_name() {
    let mut sandbox = Sandbox::new();
    sandbox
        .publish(Package::new("a", "1.0.0"))
        .project(r#"{ "dependencies": { "a": "^1.0.0" } }"#);
    sandbox.install().unwrap();
    let here = NativePath { path: "/project".to_string() };
    let gone = NativePath { path: "/gone".to_string() };
    let index = match sandbox.locked() {
        Project::Locked(packages) => packages.into_iter().next().unwrap().unwrap(),
        _ => panic!("the project is locked"),
    };
    let marks = mark(
        &vec![
            Known { root: gone.clone(), project: Project::Gone },
            Known { root: here, project: sandbox.locked() },
        ],
        &vec![Project::Gone],
    );
    assert_eq!(marks.live.len(), 1 + index.index.files.len());
    assert!(marks.live.contains_key(&index.index_hash));
    for at in 0..index.index.files.len() {
        assert!(marks.live.contains_key(&index.index.files.value_at(at).hash));
    }
    assert_eq!(marks.forgotten.len(), 1);
    assert_eq!(marks.forgotten[0].path, gone.path);
}

#[test]
fn gatherings_count_what_came_from_where() {
    let mut sandbox = Sandbox::new();
    sandbox
        .publish(Package::new("a", "1.0.0").dependency("b", "^1.0.0"))
        .publish(Package::new("b", "1.1.0"))
        .project(r#"{ "dependencies": { "b": "^1.0.0" } }"#);
    let first = sandbox.install().unwrap();
    assert_eq!((first.fetched, first.already_stored, first.packages), (1, 0, 1));
    assert!(first.resolved);
    sandbox.project(r#"{ "dependencies": { "a": "^1.0.0" } }"#);
    let second = sandbox.install().unwrap();
    assert_eq!((second.fetched, second.already_stored, second.packages), (1, 1, 2));
    let third = sandbox.install().unwrap();
    assert_eq!((third.fetched, third.already_stored, third.packages), (0, 2, 2));
    assert!(!third.resolved);
}
