//! The mark phase for package contents.
//!
//! The store's collector sweeps anything outside a live set, and deliberately
//! knows nothing about where that set comes from: that is this module's job.
//! An object is live when some project's `opal.lock` still names the package it
//! belongs to:
//!
//! ```text
//! opal.lock -> integrity -> pointer -> package index -> every file hash
//! ```
//!
//! Without this, the first collection after an install would find package
//! objects unreferenced and collect a working tree's contents. Marking and
//! sweeping happen under one lock, which is the caller's.

use vstd::prelude::*;
use crate::cas::gc::{Candidate, GcOptions, GcReport, Live};
use crate::cas::CasError;
use crate::link::{FetchedModel, FetchedPackage};
use crate::native::{NativePath, NativePathModel};
use crate::package::{PackageError, PackageFile};
use crate::path::NormalizedPath;
use crate::projects::ProjectError;
use crate::sorted::SortedMap;
use crate::{cas, hash, package, projects, sorted, text};

verus! {

/// What went wrong with a collection.
#[derive(Debug)]
pub enum GcError {
    Package(PackageError),
    Cas(CasError),
    Projects(ProjectError),
    Io { path: String, message: String },
}

/// The message for a failure.
pub open spec fn gc_error_text(e: GcError) -> Seq<char> {
    match e {
        GcError::Package(e) => package::package_error_text(e),
        GcError::Cas(e) => cas::cas_error_text(e),
        GcError::Projects(e) => projects::project_error_text(e),
        GcError::Io { path, message } => path@ + ": "@ + message@,
    }
}

impl GcError {
    /// The message shown to the user.
    pub fn to_string(&self) -> (r: String)
        ensures
            r@ == gc_error_text(*self),
    {
        match self {
            GcError::Package(e) => e.to_string(),
            GcError::Cas(e) => e.to_string(),
            GcError::Projects(e) => e.to_string(),
            GcError::Io { path, message } => {
                let mut out = text::chars_of(path.as_str());
                text::append_str(&mut out, ": ");
                text::append_str(&mut out, message.as_str());
                text::string_of(&out)
            },
        }
    }
}

// ---------------------------------------------------------------------------
// Marking.

/// What was found of a project.
#[derive(Debug)]
pub enum Project {
    /// There is no lockfile.
    Gone,
    /// There is one that cannot be read, which is not evidence that the project is
    /// gone: its entry stays, and nothing is collected on its account.
    Unreadable { path: String, message: String },
    /// The packages that the lockfile names, as far as they were fetched into this
    /// cache.
    Locked(Vec<Option<FetchedPackage>>),
}

/// What a `Project` stands for.
#[verifier::ext_equal]
pub enum ProjectModel {
    Gone,
    Unreadable { path: Seq<char>, message: Seq<char> },
    Locked(Seq<Option<FetchedModel>>),
}

impl View for Project {
    type V = ProjectModel;

    open spec fn view(&self) -> ProjectModel {
        match self {
            Project::Gone => ProjectModel::Gone,
            Project::Unreadable { path, message } => ProjectModel::Unreadable {
                path: path@,
                message: message@,
            },
            Project::Locked(packages) => ProjectModel::Locked(package_views(packages@)),
        }
    }
}

/// The packages that a list of them stands for.
pub open spec fn package_views(list: Seq<Option<FetchedPackage>>) -> Seq<Option<FetchedModel>> {
    list.map_values(|p: Option<FetchedPackage>| text::view_of(p))
}

/// Hashes.
pub type Hashes = Seq<(Seq<u8>, ())>;

/// What was marked.
#[verifier::ext_equal]
pub struct MarksModel {
    pub live: Hashes,
    pub projects: nat,
    pub packages: nat,
    pub unfetched: nat,
    pub forgotten: Seq<NativePathModel>,
    pub unreadable: Seq<(Seq<char>, Seq<char>)>,
}

/// Nothing was marked.
pub open spec fn no_marks() -> MarksModel {
    MarksModel {
        live: Seq::empty(),
        projects: 0,
        packages: 0,
        unfetched: 0,
        forgotten: Seq::empty(),
        unreadable: Seq::empty(),
    }
}

/// Hashes with those of some files.
pub open spec fn with_files(live: Hashes, files: package::Files) -> Hashes
    decreases files.len(),
{
    if files.len() == 0 {
        live
    } else {
        sorted::put(with_files(live, files.drop_last()), files.last().1.hash, ())
    }
}

/// Marks with a package: its index, and every file that the index names.
pub open spec fn with_package(marks: MarksModel, package: Option<FetchedModel>) -> MarksModel {
    match package {
        Some(fetched) => MarksModel {
            live: with_files(
                sorted::put(marks.live, fetched.index_hash, ()),
                fetched.index.files,
            ),
            packages: marks.packages + 1,
            ..marks
        },
        None => MarksModel { unfetched: marks.unfetched + 1, ..marks },
    }
}

/// Marks with some packages.
pub open spec fn with_packages(marks: MarksModel, packages: Seq<Option<FetchedModel>>) -> MarksModel
    decreases packages.len(),
{
    if packages.len() == 0 {
        marks
    } else {
        with_package(with_packages(marks, packages.drop_last()), packages.last())
    }
}

/// Marks with a project.
pub open spec fn with_project(marks: MarksModel, project: ProjectModel) -> MarksModel {
    match project {
        ProjectModel::Gone => marks,
        ProjectModel::Unreadable { path, message } => MarksModel {
            unreadable: marks.unreadable.push((path, message)),
            ..marks
        },
        ProjectModel::Locked(packages) => with_packages(
            MarksModel { projects: marks.projects + 1, ..marks },
            packages,
        ),
    }
}

/// Marks with the projects that the index knows. One that is gone cannot keep
/// anything alive, so it is forgotten.
pub open spec fn with_known(known: Seq<(NativePathModel, ProjectModel)>) -> MarksModel
    decreases known.len(),
{
    if known.len() == 0 {
        no_marks()
    } else {
        let (path, project) = known.last();
        let marks = with_project(with_known(known.drop_last()), project);
        if project is Gone {
            MarksModel { forgotten: marks.forgotten.push(path), ..marks }
        } else {
            marks
        }
    }
}

/// Marks with projects that are not in the index.
pub open spec fn with_extra(marks: MarksModel, extra: Seq<ProjectModel>) -> MarksModel
    decreases extra.len(),
{
    if extra.len() == 0 {
        marks
    } else {
        with_project(with_extra(marks, extra.drop_last()), extra.last())
    }
}

/// What a collection must leave alone, and what was seen along the way.
#[derive(Debug)]
pub struct Marks {
    /// Objects that must survive: package indexes and every file they name.
    pub live: Live,
    pub projects: usize,
    pub packages: usize,
    /// Recorded projects that no longer exist, or no longer have a lockfile. Their
    /// entries are to be dropped.
    pub forgotten: Vec<NativePath>,
    /// Lockfile entries whose contents were never fetched into this cache.
    pub unfetched: usize,
    /// Lockfiles that exist but could not be read.
    pub unreadable: Vec<(String, String)>,
}

/// The pairs of texts that a list of them stands for.
pub open spec fn warnings(list: Seq<(String, String)>) -> Seq<(Seq<char>, Seq<char>)> {
    list.map_values(|p: (String, String)| (p.0@, p.1@))
}

impl View for Marks {
    type V = MarksModel;

    open spec fn view(&self) -> MarksModel {
        MarksModel {
            live: self.live@,
            projects: self.projects as nat,
            packages: self.packages as nat,
            unfetched: self.unfetched as nat,
            forgotten: sorted::list_views(self.forgotten@),
            unreadable: warnings(self.unreadable@),
        }
    }
}

impl Default for Marks {
    fn default() -> (r: Self)
        ensures
            r@ == no_marks(),
    {
        let r = Marks {
            live: SortedMap::new(),
            projects: 0,
            packages: 0,
            forgotten: Vec::new(),
            unfetched: 0,
            unreadable: Vec::new(),
        };
        assert(r@.forgotten =~= Seq::empty());
        assert(r@.unreadable =~= Seq::empty());
        r
    }
}

/// The number of packages that a project names.
pub open spec fn package_count(project: ProjectModel) -> nat {
    match project {
        ProjectModel::Locked(packages) => packages.len(),
        _ => 0,
    }
}

/// The number of packages that projects name.
pub open spec fn packages_in(projects: Seq<ProjectModel>) -> nat
    decreases projects.len(),
{
    if projects.len() == 0 {
        0
    } else {
        packages_in(projects.drop_last()) + package_count(projects.last())
    }
}

fn mark_files(live: &mut Live, files: &SortedMap<NormalizedPath, PackageFile>)
    ensures
        final(live)@ == with_files(old(live)@, files@),
{
    let ghost start = live@;
    let n: usize = files.len();
    let mut i: usize = 0;
    assert(files@.take(0) =~= Seq::empty());
    while i < n
        invariant
            i <= n,
            n == files@.len(),
            live@ == with_files(start, files@.take(i as int)),
        decreases n - i,
    {
        let p = files.key_at(i);
        let file = files.value_at(i);
        proof {
            assert(files@.take(i + 1).drop_last() =~= files@.take(i as int));
            assert(files@.take(i + 1).last() == (p@, file@));
        }
        live.insert(file.hash, ());
        i += 1;
    }
    assert(files@.take(i as int) =~= files@);
}

proof fn lemma_counts(marks: MarksModel, packages: Seq<Option<FetchedModel>>)
    ensures
        with_packages(marks, packages).projects == marks.projects,
        with_packages(marks, packages).packages <= marks.packages + packages.len(),
        with_packages(marks, packages).unfetched <= marks.unfetched + packages.len(),
        with_packages(marks, packages).forgotten == marks.forgotten,
        with_packages(marks, packages).unreadable == marks.unreadable,
    decreases packages.len(),
{
    if packages.len() > 0 {
        lemma_counts(marks, packages.drop_last());
    }
}

impl Marks {
    /// Marks one project.
    fn mark_project(&mut self, project: &Project)
        requires
            old(self).projects < usize::MAX,
            old(self).packages + package_count(project@) <= usize::MAX,
            old(self).unfetched + package_count(project@) <= usize::MAX,
        ensures
            final(self)@ == with_project(old(self)@, project@),
    {
        match project {
            Project::Gone => {},
            Project::Unreadable { path, message } => {
                let ghost before = self@.unreadable;
                let pair = (path.clone(), message.clone());
                self.unreadable.push(pair);
                assert(self@.unreadable =~= before.push((path@, message@)));
            },
            Project::Locked(packages) => {
                self.projects = self.projects + 1;
                let ghost start = self@;
                let ghost all = package_views(packages@);
                let mut i: usize = 0;
                assert(all.take(0) =~= Seq::empty());
                assert(all.len() == packages@.len());
                while i < packages.len()
                    invariant
                        i <= packages@.len(),
                        all == package_views(packages@),
                        all.len() == packages@.len(),
                        start.packages + all.len() <= usize::MAX,
                        start.unfetched + all.len() <= usize::MAX,
                        self@ == with_packages(start, all.take(i as int)),
                    decreases packages@.len() - i,
                {
                    proof {
                        assert(all.take(i + 1).drop_last() =~= all.take(i as int));
                        assert(all.take(i + 1).last() == text::view_of(packages@[i as int]));
                        lemma_counts(start, all.take(i as int));
                    }
                    match &packages[i] {
                        Some(fetched) => {
                            self.live.insert(fetched.index_hash, ());
                            mark_files(&mut self.live, &fetched.index.files);
                            self.packages = self.packages + 1;
                        },
                        None => {
                            self.unfetched = self.unfetched + 1;
                        },
                    }
                    i += 1;
                }
                assert(all.take(i as int) =~= all);
            },
        }
    }
}

/// A project that the index knows.
#[derive(Debug)]
pub struct Known {
    pub root: NativePath,
    pub project: Project,
}

impl View for Known {
    type V = (NativePathModel, ProjectModel);

    open spec fn view(&self) -> (NativePathModel, ProjectModel) {
        (self.root@, self.project@)
    }
}

/// The projects among those that an index knows.
pub open spec fn projects_of(known: Seq<(NativePathModel, ProjectModel)>) -> Seq<ProjectModel> {
    known.map_values(|k: (NativePathModel, ProjectModel)| k.1)
}

/// Builds the live set from every project this cache knows about.
///
/// `extra` projects are marked without being recorded, for CI, where the cache
/// outlives the checkout that filled it.
pub fn mark(known: &Vec<Known>, extra: &Vec<Project>) -> (r: Marks)
    requires
        known@.len() + extra@.len() <= usize::MAX,
        packages_in(projects_of(sorted::list_views(known@))) + packages_in(
            sorted::list_views(extra@),
        ) <= usize::MAX,
    ensures
        r@ == with_extra(with_known(sorted::list_views(known@)), sorted::list_views(extra@)),
{
    let ghost all = sorted::list_views(known@);
    let ghost more = sorted::list_views(extra@);
    let ghost locked = projects_of(all);
    let mut marks: Marks = Default::default();
    let mut i: usize = 0;
    assert(all.take(0) =~= Seq::empty());
    assert(locked.take(0) =~= Seq::empty());
    assert(all.len() == known@.len());
    assert(more.len() == extra@.len());
    while i < known.len()
        invariant
            i <= known@.len(),
            all == sorted::list_views(known@),
            all.len() == known@.len(),
            more.len() == extra@.len(),
            locked == projects_of(all),
            known@.len() + extra@.len() <= usize::MAX,
            packages_in(locked) + packages_in(more) <= usize::MAX,
            marks@ == with_known(all.take(i as int)),
            marks.projects <= i,
            marks.packages <= packages_in(locked.take(i as int)),
            marks.unfetched <= packages_in(locked.take(i as int)),
        decreases known@.len() - i,
    {
        let one = &known[i];
        proof {
            assert(all.take(i + 1).drop_last() =~= all.take(i as int));
            assert(all.take(i + 1).last() == one@);
            assert(locked.take(i + 1).drop_last() =~= locked.take(i as int));
            assert(locked.take(i + 1).last() == one.project@);
            lemma_packages_grow(locked, i + 1);
            if let ProjectModel::Locked(packages) = one.project@ {
                lemma_counts(
                    MarksModel { projects: marks@.projects + 1, ..marks@ },
                    packages,
                );
            }
        }
        marks.mark_project(&one.project);
        if let Project::Gone = &one.project {
            let ghost before = marks@.forgotten;
            let root = one.root.clone();
            marks.forgotten.push(root);
            assert(marks@.forgotten =~= before.push(root@));
        }
        i += 1;
    }
    assert(all.take(i as int) =~= all);
    assert(locked.take(i as int) =~= locked);
    let ghost start = marks@;
    let mut k: usize = 0;
    assert(more.take(0) =~= Seq::empty());
    while k < extra.len()
        invariant
            k <= extra@.len(),
            more == sorted::list_views(extra@),
            more.len() == extra@.len(),
            known@.len() + extra@.len() <= usize::MAX,
            packages_in(locked) + packages_in(more) <= usize::MAX,
            marks@ == with_extra(start, more.take(k as int)),
            marks.projects <= known@.len() + k,
            marks.packages <= packages_in(locked) + packages_in(more.take(k as int)),
            marks.unfetched <= packages_in(locked) + packages_in(more.take(k as int)),
        decreases extra@.len() - k,
    {
        let one = &extra[k];
        proof {
            assert(more.take(k + 1).drop_last() =~= more.take(k as int));
            assert(more.take(k + 1).last() == one@);
            lemma_packages_grow(more, k + 1);
            if let ProjectModel::Locked(packages) = one@ {
                lemma_counts(
                    MarksModel { projects: marks@.projects + 1, ..marks@ },
                    packages,
                );
            }
        }
        marks.mark_project(one);
        k += 1;
    }
    assert(more.take(k as int) =~= more);
    marks
}

proof fn lemma_packages_grow(list: Seq<ProjectModel>, n: int)
    requires
        0 <= n <= list.len(),
    ensures
        packages_in(list.take(n)) <= packages_in(list),
    decreases list.len() - n,
{
    if n == list.len() {
        assert(list.take(n) =~= list);
    } else {
        assert(list.take(n + 1).drop_last() =~= list.take(n));
        lemma_packages_grow(list, n + 1);
    }
}

// ---------------------------------------------------------------------------
// Collecting.

/// What one collection did.
#[derive(Debug)]
pub struct Collection {
    pub marks: Marks,
    pub sweep: GcReport,
    pub pointers_pruned: usize,
}

/// The hashes of two sets.
pub open spec fn union(a: Hashes, b: Hashes) -> Hashes
    decreases b.len(),
{
    if b.len() == 0 {
        a
    } else {
        sorted::put(union(a, b.drop_last()), b.last().0, ())
    }
}

/// Everything that a sweep must leave alone: package contents, and what the other
/// mark phase found, the graph snapshots that memo records still point at. A miss
/// in either one collects live objects.
pub fn all_live(marks: &Marks, also_live: &Live) -> (r: Live)
    ensures
        r@ == union(union(Seq::empty(), marks@.live), also_live@),
{
    let mut live: Live = SortedMap::new();
    extend(&mut live, &marks.live);
    extend(&mut live, also_live);
    live
}

fn extend(live: &mut Live, more: &Live)
    ensures
        final(live)@ == union(old(live)@, more@),
{
    let ghost start = live@;
    let n: usize = more.len();
    let mut i: usize = 0;
    assert(more@.take(0) =~= Seq::empty());
    while i < n
        invariant
            i <= n,
            n == more@.len(),
            live@ == union(start, more@.take(i as int)),
        decreases n - i,
    {
        let hash = more.key_at(i);
        proof {
            assert(more@.take(i + 1).drop_last() =~= more@.take(i as int));
            assert(more@.take(i + 1).last() == (hash@, ()));
        }
        live.insert(*hash, ());
        i += 1;
    }
    assert(more@.take(i as int) =~= more@);
}

/// Pointers that lead nowhere, by position.
pub open spec fn dangling(stored: Seq<bool>) -> Seq<usize>
    decreases stored.len(),
{
    if stored.len() == 0 {
        Seq::empty()
    } else if stored.last() {
        dangling(stored.drop_last())
    } else {
        dangling(stored.drop_last()).push((stored.len() - 1) as usize)
    }
}

/// The pointers to remove, by position: those whose package index is no longer in
/// the store, given for each pointer whether it is.
///
/// Safe at any time: a dangling pointer is treated as a miss anyway, so this only
/// stops them accumulating.
pub fn prune_pointers(stored: &Vec<bool>) -> (r: Vec<usize>)
    ensures
        r@ == dangling(stored@),
{
    let mut out: Vec<usize> = Vec::new();
    let mut i: usize = 0;
    assert(stored@.take(0) =~= Seq::empty());
    while i < stored.len()
        invariant
            i <= stored@.len(),
            out@ == dangling(stored@.take(i as int)),
        decreases stored@.len() - i,
    {
        assert(stored@.take(i + 1).drop_last() =~= stored@.take(i as int));
        if !stored[i] {
            out.push(i);
        }
        i += 1;
    }
    assert(stored@.take(i as int) =~= stored@);
    out
}

// ---------------------------------------------------------------------------
// What a lockfile names is live.

proof fn lemma_put_hash(live: Hashes, hash: Seq<u8>, other: Seq<u8>)
    requires
        sorted::ascending(live),
    ensures
        sorted::ascending(sorted::put(live, hash, ())),
        sorted::holds(sorted::put(live, hash, ()), hash),
        sorted::holds(live, other) ==> sorted::holds(sorted::put(live, hash, ()), other),
{
    sorted::lemma_put_ascending(live, hash, ());
    sorted::lemma_put_lookup(live, hash, (), hash);
    sorted::lemma_put_lookup(live, hash, (), other);
}

proof fn lemma_with_files(live: Hashes, files: package::Files, other: Seq<u8>)
    requires
        sorted::ascending(live),
    ensures
        sorted::ascending(with_files(live, files)),
        sorted::holds(live, other) ==> sorted::holds(with_files(live, files), other),
        forall|i: int|
            0 <= i < files.len() ==> sorted::holds(
                with_files(live, files),
                (#[trigger] files[i]).1.hash,
            ),
    decreases files.len(),
{
    if files.len() > 0 {
        let front = files.drop_last();
        let before = with_files(live, front);
        lemma_with_files(live, front, other);
        lemma_put_hash(before, files.last().1.hash, other);
        assert forall|i: int| 0 <= i < files.len() implies sorted::holds(
            with_files(live, files),
            (#[trigger] files[i]).1.hash,
        ) by {
            if i < front.len() {
                assert(front[i] == files[i]);
                lemma_put_hash(before, files.last().1.hash, files[i].1.hash);
            }
        }
    }
}

proof fn lemma_with_packages(
    marks: MarksModel,
    packages: Seq<Option<FetchedModel>>,
    other: Seq<u8>,
)
    requires
        sorted::ascending(marks.live),
    ensures
        sorted::ascending(with_packages(marks, packages).live),
        sorted::holds(marks.live, other) ==> sorted::holds(
            with_packages(marks, packages).live,
            other,
        ),
    decreases packages.len(),
{
    if packages.len() > 0 {
        let before = with_packages(marks, packages.drop_last());
        lemma_with_packages(marks, packages.drop_last(), other);
        if let Some(fetched) = packages.last() {
            lemma_put_hash(before.live, fetched.index_hash, other);
            lemma_with_files(
                sorted::put(before.live, fetched.index_hash, ()),
                fetched.index.files,
                other,
            );
        }
    }
}

proof fn lemma_package_is_live(
    marks: MarksModel,
    packages: Seq<Option<FetchedModel>>,
    k: int,
    hash: Seq<u8>,
)
    requires
        sorted::ascending(marks.live),
        0 <= k < packages.len(),
        packages[k] matches Some(fetched) && belongs_to(fetched, hash),
    ensures
        sorted::holds(with_packages(marks, packages).live, hash),
    decreases packages.len(),
{
    let front = packages.drop_last();
    let before = with_packages(marks, front);
    lemma_with_packages(marks, front, hash);
    if k < front.len() {
        assert(front[k] == packages[k]);
        lemma_package_is_live(marks, front, k, hash);
        lemma_with_packages(before, seq![packages.last()], hash);
        assert(seq![packages.last()].drop_last() =~= Seq::empty());
        assert(with_packages(before, seq![packages.last()].drop_last()) == before);
    } else {
        let fetched = packages[k]->0;
        let live = sorted::put(before.live, fetched.index_hash, ());
        lemma_put_hash(before.live, fetched.index_hash, hash);
        lemma_with_files(live, fetched.index.files, hash);
        if hash != fetched.index_hash {
            let i = choose|i: int|
                0 <= i < fetched.index.files.len() && (#[trigger] fetched.index.files[i]).1.hash
                    == hash;
            assert(sorted::holds(
                with_files(live, fetched.index.files),
                fetched.index.files[i].1.hash,
            ));
        }
    }
}

/// Whether an object belongs to a package: it is its index, or one of its files.
pub open spec fn belongs_to(package: FetchedModel, hash: Seq<u8>) -> bool {
    hash == package.index_hash || exists|i: int|
        0 <= i < package.index.files.len() && (#[trigger] package.index.files[i]).1.hash == hash
}

/// Whether a project's lockfile names a package that an object belongs to.
pub open spec fn keeps_alive(project: ProjectModel, hash: Seq<u8>) -> bool {
    match project {
        ProjectModel::Locked(packages) => exists|k: int|
            0 <= k < packages.len() && #[trigger] names(packages[k], hash),
        _ => false,
    }
}

/// Whether an object belongs to a package that was fetched.
pub open spec fn names(package: Option<FetchedModel>, hash: Seq<u8>) -> bool {
    package matches Some(fetched) && belongs_to(fetched, hash)
}

proof fn lemma_with_project(marks: MarksModel, project: ProjectModel, hash: Seq<u8>)
    requires
        sorted::ascending(marks.live),
    ensures
        sorted::ascending(with_project(marks, project).live),
        sorted::holds(marks.live, hash) ==> sorted::holds(with_project(marks, project).live, hash),
        keeps_alive(project, hash) ==> sorted::holds(with_project(marks, project).live, hash),
{
    if let ProjectModel::Locked(packages) = project {
        let start = MarksModel { projects: marks.projects + 1, ..marks };
        lemma_with_packages(start, packages, hash);
        if keeps_alive(project, hash) {
            let k = choose|k: int| 0 <= k < packages.len() && #[trigger] names(packages[k], hash);
            lemma_package_is_live(start, packages, k, hash);
        }
    }
}

proof fn lemma_with_known(known: Seq<(NativePathModel, ProjectModel)>, hash: Seq<u8>)
    ensures
        sorted::ascending(with_known(known).live),
        forall|i: int|
            0 <= i < known.len() && keeps_alive((#[trigger] known[i]).1, hash) ==> sorted::holds(
                with_known(known).live,
                hash,
            ),
    decreases known.len(),
{
    if known.len() > 0 {
        let front = known.drop_last();
        lemma_with_known(front, hash);
        lemma_with_project(with_known(front), known.last().1, hash);
        assert forall|i: int|
            0 <= i < known.len() && keeps_alive((#[trigger] known[i]).1, hash) implies sorted::holds(
            with_known(known).live,
            hash,
        ) by {
            if i < front.len() {
                assert(front[i] == known[i]);
            }
        }
    }
}

proof fn lemma_with_extra(marks: MarksModel, extra: Seq<ProjectModel>, hash: Seq<u8>)
    requires
        sorted::ascending(marks.live),
    ensures
        sorted::ascending(with_extra(marks, extra).live),
        sorted::holds(marks.live, hash) ==> sorted::holds(with_extra(marks, extra).live, hash),
        forall|i: int|
            0 <= i < extra.len() && keeps_alive(#[trigger] extra[i], hash) ==> sorted::holds(
                with_extra(marks, extra).live,
                hash,
            ),
    decreases extra.len(),
{
    if extra.len() > 0 {
        let front = extra.drop_last();
        lemma_with_extra(marks, front, hash);
        lemma_with_project(with_extra(marks, front), extra.last(), hash);
        assert forall|i: int|
            0 <= i < extra.len() && keeps_alive(#[trigger] extra[i], hash) implies sorted::holds(
            with_extra(marks, extra).live,
            hash,
        ) by {
            if i < front.len() {
                assert(front[i] == extra[i]);
            }
        }
    }
}

proof fn lemma_union(a: Hashes, b: Hashes, hash: Seq<u8>)
    requires
        sorted::ascending(a),
        sorted::ascending(b),
    ensures
        sorted::ascending(union(a, b)),
        sorted::holds(a, hash) || sorted::holds(b, hash) ==> sorted::holds(union(a, b), hash),
    decreases b.len(),
{
    if b.len() > 0 {
        let front = b.drop_last();
        assert(sorted::ascending(front)) by {
            assert forall|i: int, j: int| 0 <= i < j < front.len() implies crate::order::precedes(
                crate::order::Rank::rank((#[trigger] front[i]).0),
                crate::order::Rank::rank((#[trigger] front[j]).0),
            ) by {
                assert(front[i] == b[i] && front[j] == b[j]);
            }
        }
        lemma_union(a, front, hash);
        lemma_put_hash(union(a, front), b.last().0, hash);
        if sorted::holds(b, hash) {
            sorted::lemma_slot(b, hash);
            let at = sorted::slot(b, hash) as int;
            hash::lemma_bytes_rank_injective(b[at].0, hash);
            if at < front.len() {
                assert(front[at] == b[at]);
                sorted::lemma_holds_at(front, hash, at);
            }
        }
    } else {
        sorted::lemma_slot(b, hash);
    }
}

/// Storing a hash adds that hash, and no other.
proof fn lemma_put_adds(live: Hashes, hash: Seq<u8>, other: Seq<u8>)
    requires
        sorted::ascending(live),
    ensures
        sorted::holds(sorted::put(live, hash, ()), other) ==> sorted::holds(live, other) || other
            == hash,
{
    sorted::lemma_put_lookup(live, hash, (), other);
    hash::lemma_bytes_rank_injective(other, hash);
}

proof fn lemma_files_add(live: Hashes, files: package::Files, other: Seq<u8>)
    requires
        sorted::ascending(live),
        sorted::holds(with_files(live, files), other),
        !sorted::holds(live, other),
    ensures
        exists|i: int| 0 <= i < files.len() && (#[trigger] files[i]).1.hash == other,
    decreases files.len(),
{
    if files.len() > 0 {
        let front = files.drop_last();
        lemma_with_files(live, front, other);
        lemma_put_adds(with_files(live, front), files.last().1.hash, other);
        if sorted::holds(with_files(live, front), other) {
            lemma_files_add(live, front, other);
            let i = choose|i: int| 0 <= i < front.len() && (#[trigger] front[i]).1.hash == other;
            assert(files[i] == front[i]);
        } else {
            assert(files[files.len() - 1].1.hash == other);
        }
    }
}

proof fn lemma_packages_add(
    marks: MarksModel,
    packages: Seq<Option<FetchedModel>>,
    other: Seq<u8>,
)
    requires
        sorted::ascending(marks.live),
        sorted::holds(with_packages(marks, packages).live, other),
        !sorted::holds(marks.live, other),
    ensures
        exists|k: int| 0 <= k < packages.len() && #[trigger] names(packages[k], other),
    decreases packages.len(),
{
    if packages.len() > 0 {
        let front = packages.drop_last();
        let before = with_packages(marks, front);
        lemma_with_packages(marks, front, other);
        if sorted::holds(before.live, other) {
            lemma_packages_add(marks, front, other);
            let k = choose|k: int| 0 <= k < front.len() && #[trigger] names(front[k], other);
            assert(names(packages[k], other));
        } else {
            let fetched = packages.last()->0;
            let live = sorted::put(before.live, fetched.index_hash, ());
            lemma_put_hash(before.live, fetched.index_hash, other);
            lemma_put_adds(before.live, fetched.index_hash, other);
            if !sorted::holds(live, other) {
                lemma_files_add(live, fetched.index.files, other);
            }
            assert(names(packages[packages.len() - 1], other));
        }
    }
}

proof fn lemma_project_adds(marks: MarksModel, project: ProjectModel, other: Seq<u8>)
    requires
        sorted::ascending(marks.live),
        sorted::holds(with_project(marks, project).live, other),
        !sorted::holds(marks.live, other),
    ensures
        keeps_alive(project, other),
{
    if let ProjectModel::Locked(packages) = project {
        lemma_packages_add(MarksModel { projects: marks.projects + 1, ..marks }, packages, other);
    }
}

proof fn lemma_known_add(known: Seq<(NativePathModel, ProjectModel)>, other: Seq<u8>)
    requires
        sorted::holds(with_known(known).live, other),
    ensures
        exists|i: int| 0 <= i < known.len() && keeps_alive((#[trigger] known[i]).1, other),
    decreases known.len(),
{
    if known.len() == 0 {
        sorted::lemma_slot(no_marks().live, other);
    } else {
        let front = known.drop_last();
        lemma_with_known(front, other);
        if sorted::holds(with_known(front).live, other) {
            lemma_known_add(front, other);
            let i = choose|i: int|
                0 <= i < front.len() && keeps_alive((#[trigger] front[i]).1, other);
            assert(known[i] == front[i]);
        } else {
            lemma_project_adds(with_known(front), known.last().1, other);
            assert(keeps_alive(known[known.len() - 1].1, other));
        }
    }
}

proof fn lemma_extra_adds(marks: MarksModel, extra: Seq<ProjectModel>, other: Seq<u8>)
    requires
        sorted::ascending(marks.live),
        sorted::holds(with_extra(marks, extra).live, other),
        !sorted::holds(marks.live, other),
    ensures
        exists|i: int| 0 <= i < extra.len() && keeps_alive(#[trigger] extra[i], other),
    decreases extra.len(),
{
    if extra.len() > 0 {
        let front = extra.drop_last();
        lemma_with_extra(marks, front, other);
        if sorted::holds(with_extra(marks, front).live, other) {
            lemma_extra_adds(marks, front, other);
            let i = choose|i: int| 0 <= i < front.len() && keeps_alive(#[trigger] front[i], other);
            assert(extra[i] == front[i]);
        } else {
            lemma_project_adds(with_extra(marks, front), extra.last(), other);
            assert(keeps_alive(extra[extra.len() - 1], other));
        }
    }
}

/// What is marked is exactly what some project's lockfile names: an index, or a
/// file of a package that was fetched.
pub proof fn marks_are_exact(
    known: Seq<(NativePathModel, ProjectModel)>,
    extra: Seq<ProjectModel>,
    hash: Seq<u8>,
)
    ensures
        sorted::holds(with_extra(with_known(known), extra).live, hash) <==> (exists|i: int|
            0 <= i < known.len() && keeps_alive((#[trigger] known[i]).1, hash)) || (exists|i: int|
            0 <= i < extra.len() && keeps_alive(#[trigger] extra[i], hash)),
{
    let marks = with_known(known);
    lemma_with_known(known, hash);
    lemma_with_extra(marks, extra, hash);
    if sorted::holds(with_extra(marks, extra).live, hash) {
        if sorted::holds(marks.live, hash) {
            lemma_known_add(known, hash);
        } else {
            lemma_extra_adds(marks, extra, hash);
        }
    }
}

proof fn lemma_packages_forget(marks: MarksModel, packages: Seq<Option<FetchedModel>>)
    ensures
        with_packages(marks, packages).forgotten == marks.forgotten,
    decreases packages.len(),
{
    if packages.len() > 0 {
        lemma_packages_forget(marks, packages.drop_last());
    }
}

proof fn lemma_project_forgets(marks: MarksModel, project: ProjectModel)
    ensures
        with_project(marks, project).forgotten == marks.forgotten,
{
    if let ProjectModel::Locked(packages) = project {
        lemma_packages_forget(MarksModel { projects: marks.projects + 1, ..marks }, packages);
    }
}

/// The places of the projects that are gone, in order.
pub open spec fn gone_from(known: Seq<(NativePathModel, ProjectModel)>) -> Seq<NativePathModel>
    decreases known.len(),
{
    if known.len() == 0 {
        Seq::empty()
    } else if known.last().1 is Gone {
        gone_from(known.drop_last()).push(known.last().0)
    } else {
        gone_from(known.drop_last())
    }
}

/// What is forgotten is exactly the projects of the index that are gone. A project
/// that is given besides is never forgotten.
pub proof fn only_gone_projects_are_forgotten(
    known: Seq<(NativePathModel, ProjectModel)>,
    extra: Seq<ProjectModel>,
)
    ensures
        with_extra(with_known(known), extra).forgotten == gone_from(known),
    decreases known.len() + extra.len(),
{
    if extra.len() > 0 {
        let front = extra.drop_last();
        only_gone_projects_are_forgotten(known, front);
        lemma_project_forgets(with_extra(with_known(known), front), extra.last());
    } else if known.len() > 0 {
        let front = known.drop_last();
        only_gone_projects_are_forgotten(front, extra);
        lemma_project_forgets(with_known(front), known.last().1);
    }
}

/// A collection never takes a working tree's contents: an object that belongs to
/// a package that some project's lockfile names, or that the other mark phase
/// found, is not swept, unless verifying was asked for and its content is not
/// what its key says.
pub proof fn collections_spare_what_lockfiles_name(
    known: Seq<(NativePathModel, ProjectModel)>,
    extra: Seq<ProjectModel>,
    also_live: Hashes,
    candidates: Seq<Candidate>,
    options: GcOptions,
    c: Candidate,
)
    requires
        sorted::ascending(also_live),
        !cas::gc::is_corrupt(c, options),
        (exists|i: int|
            0 <= i < known.len() && keeps_alive((#[trigger] known[i]).1, c.hash@)) || (exists|i: int|
            0 <= i < extra.len() && keeps_alive(#[trigger] extra[i], c.hash@)) || sorted::holds(
            also_live,
            c.hash@,
        ),
    ensures
        !cas::gc::swept(
            candidates,
            union(union(Seq::empty(), with_extra(with_known(known), extra).live), also_live),
            options,
        ).contains(c),
{
    let marks = with_extra(with_known(known), extra);
    lemma_with_known(known, c.hash@);
    lemma_with_extra(with_known(known), extra, c.hash@);
    lemma_union(Seq::empty(), marks.live, c.hash@);
    let first = union(Seq::empty(), marks.live);
    lemma_union(first, also_live, c.hash@);
    let live = union(first, also_live);
    cas::gc::live_objects_survive(candidates, live, options, c);
}

/// A pointer is pruned if the package index it leads to is no longer stored, and only
/// then.
pub proof fn pointers_that_lead_nowhere_go(stored: Seq<bool>, k: usize)
    requires
        stored.len() <= usize::MAX,
    ensures
        dangling(stored).contains(k) <==> k < stored.len() && !stored[k as int],
    decreases stored.len(),
{
    let all = dangling(stored);
    if stored.len() > 0 {
        let rest = stored.drop_last();
        let front = dangling(rest);
        pointers_that_lead_nowhere_go(rest, k);
        if all.contains(k) {
            let j = choose|j: int| 0 <= j < all.len() && all[j] == k;
            if j < front.len() {
                assert(front[j] == k);
            }
        }
        if k < stored.len() && !stored[k as int] {
            if k < rest.len() {
                let j = choose|j: int| 0 <= j < front.len() && front[j] == k;
                assert(all[j] == k);
            } else {
                assert(all[all.len() - 1] == k);
            }
        }
    }
}

/// The number of packages of a project that are there, or that are not.
pub open spec fn packages_that(project: ProjectModel, there: bool) -> nat {
    match project {
        ProjectModel::Locked(packages) => packages.filter(
            |p: Option<FetchedModel>| p is Some == there,
        ).len(),
        _ => 0,
    }
}

proof fn lemma_packages_count(marks: MarksModel, packages: Seq<Option<FetchedModel>>)
    ensures
        ({
            let after = with_packages(marks, packages);
            &&& after.packages == marks.packages + packages_that(
                ProjectModel::Locked(packages),
                true,
            )
            &&& after.unfetched == marks.unfetched + packages_that(
                ProjectModel::Locked(packages),
                false,
            )
        }),
    decreases packages.len(),
{
    reveal(Seq::filter);
    if packages.len() > 0 {
        lemma_packages_count(marks, packages.drop_last());
    }
}

/// What a project adds to what was seen: a project with a lockfile counts as one, with
/// each of its packages that was fetched, or was not; a lockfile that cannot be read is
/// listed with the reason, and one that is gone adds nothing.
pub proof fn projects_count_once(marks: MarksModel, project: ProjectModel)
    ensures
        ({
            let after = with_project(marks, project);
            &&& after.projects == marks.projects + if project is Locked {
                1int
            } else {
                0
            }
            &&& after.packages == marks.packages + packages_that(project, true)
            &&& after.unfetched == marks.unfetched + packages_that(project, false)
            &&& after.unreadable == match project {
                ProjectModel::Unreadable { path, message } => marks.unreadable.push((path, message)),
                _ => marks.unreadable,
            }
        }),
{
    if let ProjectModel::Locked(packages) = project {
        let first = MarksModel { projects: marks.projects + 1, ..marks };
        lemma_packages_count(first, packages);
        lemma_counts(first, packages);
    }
}

proof fn lemma_union_adds(a: Hashes, b: Hashes, hash: Seq<u8>)
    requires
        sorted::ascending(a),
        sorted::ascending(b),
        sorted::holds(union(a, b), hash),
    ensures
        sorted::holds(a, hash) || sorted::holds(b, hash),
    decreases b.len(),
{
    if b.len() > 0 {
        let front = b.drop_last();
        assert(sorted::ascending(front)) by {
            assert forall|i: int, j: int| 0 <= i < j < front.len() implies crate::order::precedes(
                crate::order::Rank::rank((#[trigger] front[i]).0),
                crate::order::Rank::rank((#[trigger] front[j]).0),
            ) by {
                assert(front[i] == b[i] && front[j] == b[j]);
            }
        }
        lemma_union(a, front, hash);
        if b.last().0 == hash {
            sorted::lemma_holds_at(b, hash, b.len() - 1);
        } else {
            lemma_put_adds(union(a, front), b.last().0, hash);
            lemma_union_adds(a, front, hash);
            if sorted::holds(front, hash) {
                sorted::lemma_slot(front, hash);
                let at = sorted::slot(front, hash) as int;
                hash::lemma_bytes_rank_injective(front[at].0, hash);
                assert(b[at] == front[at]);
                sorted::lemma_holds_at(b, hash, at);
            }
        }
    }
}

/// What a sweep leaves alone is what lockfiles name and what memo records point at, and
/// nothing else.
pub proof fn live_is_marked_or_remembered(marked: Hashes, remembered: Hashes, hash: Seq<u8>)
    requires
        sorted::ascending(marked),
        sorted::ascending(remembered),
    ensures
        sorted::holds(union(union(Seq::empty(), marked), remembered), hash) <==> sorted::holds(
            marked,
            hash,
        ) || sorted::holds(remembered, hash),
{
    let none = Seq::<(Seq<u8>, ())>::empty();
    let first = union(none, marked);
    lemma_union(none, marked, hash);
    lemma_union(first, remembered, hash);
    if sorted::holds(union(first, remembered), hash) {
        lemma_union_adds(first, remembered, hash);
        if sorted::holds(first, hash) {
            lemma_union_adds(none, marked, hash);
            sorted::lemma_slot(none, hash);
        }
    }
}

} // verus!
