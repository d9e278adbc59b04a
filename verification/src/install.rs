//! The install pipeline's decisions.
//!
//! ```text
//! package.json -> resolution -> opal.lock -> download -> verify -> store -> node_modules
//! ```
//!
//! The order matters: the lockfile is written from the resolution *before*
//! anything is downloaded, so a crash during download leaves a valid lockfile
//! describing what should be there. Every later stage is keyed by content, so
//! re-running skips whatever is already done: a re-run with an unchanged
//! lockfile goes straight to linking.

use vstd::prelude::*;
use crate::link::{Contents, Fetched, FetchedModel, FetchedPackage, Layout, LinkError, LinkReport};
use crate::lockfile::LockfileError;
use crate::manifest::{Manifest, ManifestError, ManifestModel};
use crate::order::Rank;
use crate::package::PackageError;
use crate::projects::ProjectError;
use crate::registry::RegistryError;
use crate::resolve::{
    PackageId, PackageIdModel, Packages, Resolution, ResolutionModel, ResolveError,
};
use crate::sorted::SortedMap;
use crate::{link, lockfile, manifest, order, package, projects, registry, resolve, sorted, text};

verus! {

/// Why an install failed.
#[derive(Debug)]
pub enum InstallError {
    Io { path: String, message: String },
    Manifest(ManifestError),
    Registry(RegistryError),
    Resolve(ResolveError),
    Lockfile(LockfileError),
    Package(PackageError),
    Link(LinkError),
    Projects(ProjectError),
    LockfileOutdated,
}

/// The message for a failure.
pub open spec fn install_error_text(e: InstallError) -> Seq<char> {
    match e {
        InstallError::Io { path, message } => path@ + ": "@ + message@,
        InstallError::Manifest(e) => manifest::manifest_error_text(e),
        InstallError::Registry(e) => registry::registry_error_text(e@),
        InstallError::Resolve(e) => resolve::resolve_error_text(e@),
        InstallError::Lockfile(e) => lockfile::lockfile_error_text(e),
        InstallError::Package(e) => package::package_error_text(e),
        InstallError::Link(e) => link::link_error_text(e),
        InstallError::Projects(e) => projects::project_error_text(e),
        InstallError::LockfileOutdated =>
            "opal.lock does not match package.json, and --frozen-lockfile was requested"@,
    }
}

impl InstallError {
    /// The message shown to the user.
    pub fn to_string(&self) -> (r: String)
        ensures
            r@ == install_error_text(*self),
    {
        match self {
            InstallError::Io { path, message } => {
                let mut out = text::chars_of(path.as_str());
                text::append_str(&mut out, ": ");
                text::append_str(&mut out, message.as_str());
                text::string_of(&out)
            },
            InstallError::Manifest(e) => e.to_string(),
            InstallError::Registry(e) => e.to_string(),
            InstallError::Resolve(e) => e.to_string(),
            InstallError::Lockfile(e) => e.to_string(),
            InstallError::Package(e) => e.to_string(),
            InstallError::Link(e) => e.to_string(),
            InstallError::Projects(e) => e.to_string(),
            InstallError::LockfileOutdated =>
                "opal.lock does not match package.json, and --frozen-lockfile was requested".to_string(),
        }
    }
}

/// How to install.
#[derive(Clone, Copy, Debug)]
pub struct InstallOptions {
    pub include_development: bool,
    /// CI mode: refuse to re-resolve, so a stale lockfile fails the build
    /// instead of being quietly rewritten.
    pub frozen_lockfile: bool,
}

impl Default for InstallOptions {
    fn default() -> (r: Self)
        ensures
            r.include_development,
            !r.frozen_lockfile,
    {
        InstallOptions { include_development: true, frozen_lockfile: false }
    }
}

/// What an install did.
#[derive(Debug)]
pub struct InstallReport {
    pub packages: usize,
    pub resolved: bool,
    pub fetched: usize,
    pub already_stored: usize,
    pub link: LinkReport,
    pub skipped: Vec<(String, String)>,
}

impl Default for InstallReport {
    fn default() -> (r: Self)
        ensures
            r.packages == 0 && r.fetched == 0 && r.already_stored == 0,
            !r.resolved,
            r.skipped@.len() == 0,
            r.link.added == 0 && r.link.removed == 0 && r.link.unchanged == 0,
            r.link.files_linked == 0 && r.link.files_copied == 0 && r.link.bins == 0,
    {
        InstallReport {
            packages: 0,
            resolved: false,
            fetched: 0,
            already_stored: 0,
            link: Default::default(),
            skipped: Vec::new(),
        }
    }
}

/// What an install goes by.
#[derive(Debug)]
pub enum Course {
    /// The lockfile as it is.
    Reuse(Resolution),
    /// A new resolution, which the lockfile is written from.
    Resolve,
}

/// Whether a lockfile describes what a manifest asks for.
pub open spec fn is_current(
    existing: Option<ResolutionModel>,
    manifest: ManifestModel,
    include_development: bool,
) -> bool {
    existing matches Some(resolution) && resolve::declared_records(manifest, include_development)
        == resolution.requirements
}

/// Decides what an install goes by: the lockfile as long as it describes what
/// `package.json` asks for, and else a new resolution, unless that was ruled out.
pub fn course(
    existing: Option<Resolution>,
    manifest: &Manifest,
    options: &InstallOptions,
) -> (r: Result<Course, InstallError>)
    ensures
        match r {
            Ok(Course::Reuse(resolution)) => {
                &&& is_current(text::view_of(existing), manifest@, options.include_development)
                &&& existing == Some(resolution)
            },
            Ok(Course::Resolve) => {
                &&& !is_current(text::view_of(existing), manifest@, options.include_development)
                &&& !options.frozen_lockfile
            },
            Err(InstallError::LockfileOutdated) => {
                &&& !is_current(text::view_of(existing), manifest@, options.include_development)
                &&& options.frozen_lockfile
            },
            Err(_) => false,
        },
{
    if let Some(resolution) = existing {
        if resolve::requirements_match(&resolution, manifest, options.include_development) {
            return Ok(Course::Reuse(resolution));
        }
    }
    if options.frozen_lockfile {
        Err(InstallError::LockfileOutdated)
    } else {
        Ok(Course::Resolve)
    }
}

// ---------------------------------------------------------------------------
// Fetching.

/// The contents of packages as they come in.
pub struct Gathering {
    fetched: Fetched,
    /// For each package whether the store had it already.
    origins: Vec<bool>,
}

/// What a `Gathering` stands for.
#[verifier::ext_equal]
pub struct GatheringModel {
    pub fetched: Contents,
    pub origins: Seq<bool>,
}

impl View for Gathering {
    type V = GatheringModel;

    closed spec fn view(&self) -> GatheringModel {
        GatheringModel { fetched: self.fetched@, origins: self.origins@ }
    }
}

/// Nothing came in yet.
pub open spec fn nothing_gathered() -> GatheringModel {
    GatheringModel { fetched: Seq::empty(), origins: Seq::empty() }
}

/// What was gathered, with one more package.
pub open spec fn with_supply(
    before: GatheringModel,
    id: PackageIdModel,
    stored: bool,
    package: FetchedModel,
) -> GatheringModel {
    GatheringModel {
        fetched: sorted::put(before.fetched, id, package),
        origins: before.origins.push(stored),
    }
}

/// How many of the flags are `wanted`.
pub open spec fn count_of(flags: Seq<bool>, wanted: bool) -> nat
    decreases flags.len(),
{
    if flags.len() == 0 {
        0
    } else {
        count_of(flags.drop_last(), wanted) + if flags.last() == wanted {
            1nat
        } else {
            0nat
        }
    }
}

/// The stored and the downloaded are all there are.
proof fn lemma_counts_add_up(flags: Seq<bool>)
    ensures
        count_of(flags, true) + count_of(flags, false) == flags.len(),
    decreases flags.len(),
{
    if flags.len() > 0 {
        lemma_counts_add_up(flags.drop_last());
    }
}

fn count(flags: &Vec<bool>, wanted: bool) -> (n: usize)
    ensures
        n == count_of(flags@, wanted),
{
    let mut n: usize = 0;
    let mut i: usize = 0;
    while i < flags.len()
        invariant
            i <= flags@.len(),
            n <= i,
            n == count_of(flags@.take(i as int), wanted),
        decreases flags@.len() - i,
    {
        assert(flags@.take(i + 1).drop_last() =~= flags@.take(i as int));
        if flags[i] == wanted {
            n = n + 1;
        }
        i += 1;
    }
    assert(flags@.take(i as int) =~= flags@);
    n
}

impl Gathering {
    /// Nothing came in yet.
    pub fn new() -> (r: Self)
        ensures
            r@ == nothing_gathered(),
    {
        Gathering { fetched: SortedMap::new(), origins: Vec::new() }
    }

    /// Takes a package in; `stored` says whether the store had it already.
    pub fn take(&mut self, id: &PackageId, stored: bool, package: FetchedPackage)
        ensures
            final(self)@ == with_supply(old(self)@, id@, stored, package@),
    {
        self.fetched.insert(id.clone(), package);
        self.origins.push(stored);
    }

    /// What came in.
    pub fn fetched(&self) -> (r: &Fetched)
        ensures
            r@ == self@.fetched,
    {
        &self.fetched
    }

    /// What an install did that gathered this.
    pub fn report(
        &self,
        resolved: bool,
        layout: &Layout,
        link: LinkReport,
        skipped: Vec<(String, String)>,
    ) -> (r: InstallReport)
        ensures
            r.packages == layout@.len(),
            r.resolved == resolved,
            r.fetched == count_of(self@.origins, false),
            r.already_stored == count_of(self@.origins, true),
            r.fetched + r.already_stored == self@.origins.len(),
            r.link == link,
            r.skipped == skipped,
    {
        proof {
            lemma_counts_add_up(self.origins@);
        }
        InstallReport {
            packages: layout.len(),
            resolved,
            fetched: count(&self.origins, false),
            already_stored: count(&self.origins, true),
            link,
            skipped,
        }
    }
}

/// What was gathered once a supply came in for each of some packages, in order.
pub open spec fn gathered(packages: Packages, supplies: Seq<(bool, FetchedModel)>) -> GatheringModel
    decreases packages.len(),
{
    if packages.len() == 0 {
        nothing_gathered()
    } else {
        with_supply(
            gathered(packages.drop_last(), supplies.drop_last()),
            packages.last().0,
            supplies.last().0,
            supplies.last().1,
        )
    }
}

/// Once every package of a resolution came in, each is there under its id, with
/// the contents that came for it, and nothing else is.
pub proof fn gatherings_hold_every_package(packages: Packages, supplies: Seq<(bool, FetchedModel)>)
    requires
        sorted::ascending(packages),
        supplies.len() == packages.len(),
    ensures
        gathered(packages, supplies).fetched == Seq::new(
            packages.len(),
            |i: int| (packages[i].0, supplies[i].1),
        ),
        gathered(packages, supplies).origins == Seq::new(packages.len(), |i: int| supplies[i].0),
    decreases packages.len(),
{
    if packages.len() > 0 {
        let front = packages.drop_last();
        let rest = supplies.drop_last();
        assert forall|i: int, j: int| 0 <= i < j < front.len() implies order::precedes(
            (#[trigger] front[i]).0.rank(),
            (#[trigger] front[j]).0.rank(),
        ) by {
            assert(front[i] == packages[i] && front[j] == packages[j]);
        }
        gatherings_hold_every_package(front, rest);
        let before = gathered(front, rest).fetched;
        let id = packages.last().0;
        assert forall|i: int| 0 <= i < before.len() implies order::precedes(
            (#[trigger] before[i]).0.rank(),
            id.rank(),
        ) by {
            assert(before[i].0 == packages[i].0);
            assert(packages[packages.len() - 1].0 == id);
        }
        sorted::lemma_slot_is(before, id, before.len() as int);
        assert(gathered(packages, supplies).fetched =~= Seq::new(
            packages.len(),
            |i: int| (packages[i].0, supplies[i].1),
        ));
        assert(gathered(packages, supplies).origins =~= Seq::new(
            packages.len(),
            |i: int| supplies[i].0,
        ));
    }
}

} // verus!
