//! Semver resolution: `package.json` plus the registry, into a resolved graph.
//!
//! The algorithm is npm's in spirit: walk requirements breadth-first, and for
//! each one reuse an already-selected version if it satisfies, otherwise take
//! the highest version the range allows. Reuse is what keeps the tree small;
//! the layout planner is what copes with the conflicts reuse cannot avoid.
//!
//! Determinism is a requirement, not a nicety: a lockfile that differs between
//! two runs over the same inputs is a lockfile nobody can review. Every
//! collection here is ordered, and the work queue is drained in order.
//!
//! The registry is asked by the caller: a step that needs an answer which is
//! not there yet says so and changes nothing.

use vstd::prelude::*;
use crate::integrity::{Integrity, IntegrityModel};
use crate::manifest::{
    DependencyClass, Manifest, ManifestModel, Requirement, RequirementModel, Spec, SpecModel,
};
use crate::order::{Order, Rank, Ranked};
use crate::registry::{
    MetadataModel, Packument, PackumentModel, RegistryError, RegistryErrorModel,
};
use crate::semver::{Range, Version, VersionModel};
use crate::sorted::SortedMap;
use crate::json::JsonModel;
use crate::{json, manifest, order, registry, semver, sorted, text};

verus! {

// ---------------------------------------------------------------------------
// What a resolution is made of.

/// Why a project could not be resolved.
#[derive(Debug)]
pub enum ResolveError {
    Registry(RegistryError),
    NoMatchingVersion { name: String, spec: String, available: usize },
    UnsupportedSpec { name: String, spec: String },
}

/// What a `ResolveError` stands for.
#[verifier::ext_equal]
pub enum ResolveErrorModel {
    Registry(RegistryErrorModel),
    NoMatchingVersion { name: Seq<char>, spec: Seq<char>, available: nat },
    UnsupportedSpec { name: Seq<char>, spec: Seq<char> },
}

impl View for ResolveError {
    type V = ResolveErrorModel;

    open spec fn view(&self) -> ResolveErrorModel {
        match self {
            ResolveError::Registry(error) => ResolveErrorModel::Registry(error@),
            ResolveError::NoMatchingVersion { name, spec, available } =>
                ResolveErrorModel::NoMatchingVersion {
                name: name@,
                spec: spec@,
                available: *available as nat,
            },
            ResolveError::UnsupportedSpec { name, spec } => ResolveErrorModel::UnsupportedSpec {
                name: name@,
                spec: spec@,
            },
        }
    }
}

/// The message for a failure.
pub open spec fn resolve_error_text(error: ResolveErrorModel) -> Seq<char> {
    match error {
        ResolveErrorModel::Registry(error) => registry::registry_error_text(error),
        ResolveErrorModel::NoMatchingVersion { name, spec, available } => "no version of "@ + name
            + " satisfies "@ + spec + " (registry offers "@ + text::decimal(available) + ")"@,
        ResolveErrorModel::UnsupportedSpec { name, spec } => name + "@"@ + spec
            + " is not a supported dependency specifier (v1 resolves the public registry only)"@,
    }
}

impl ResolveError {
    /// The message shown to the user.
    pub fn to_string(&self) -> (r: String)
        ensures
            r@ == resolve_error_text(self@),
    {
        match self {
            ResolveError::Registry(error) => error.to_string(),
            ResolveError::NoMatchingVersion { name, spec, available } => {
                let mut out = text::chars_of("no version of ");
                text::append_str(&mut out, name.as_str());
                text::append_str(&mut out, " satisfies ");
                text::append_str(&mut out, spec.as_str());
                text::append_str(&mut out, " (registry offers ");
                text::append(&mut out, &text::render_decimal(*available as u64));
                text::append_str(&mut out, ")");
                text::string_of(&out)
            },
            ResolveError::UnsupportedSpec { name, spec } => {
                let mut out = text::chars_of(name.as_str());
                text::append_str(&mut out, "@");
                text::append_str(&mut out, spec.as_str());
                text::append_str(
                    &mut out,
                    " is not a supported dependency specifier (v1 resolves the public registry only)",
                );
                text::string_of(&out)
            },
        }
    }
}

/// One version of one package.
#[derive(PartialEq, Eq, Hash, Debug)]
pub struct PackageId {
    pub name: String,
    pub version: Version,
}

/// What a `PackageId` stands for.
#[verifier::ext_equal]
pub struct PackageIdModel {
    pub name: Seq<char>,
    pub version: VersionModel,
}

impl View for PackageId {
    type V = PackageIdModel;

    open spec fn view(&self) -> PackageIdModel {
        PackageIdModel { name: self.name@, version: self.version@ }
    }
}

impl Clone for PackageId {
    fn clone(&self) -> (r: Self)
        ensures
            r@ == self@,
    {
        PackageId { name: self.name.clone(), version: self.version.clone() }
    }
}

impl Rank for PackageIdModel {
    /// By name first, by version second.
    open spec fn rank(self) -> Seq<int> {
        order::closed_text(self.name) + self.version.rank()
    }
}

impl Ranked for PackageId {
    fn compare(&self, other: &Self) -> (r: Order) {
        proof {
            order::lemma_closed_text(
                self.name@,
                other.name@,
                self.version@.rank(),
                other.version@.rank(),
            );
            order::lemma_closed_text(
                other.name@,
                self.name@,
                other.version@.rank(),
                self.version@.rank(),
            );
        }
        match order::compare_text(self.name.as_str(), other.name.as_str()) {
            Order::Equal => self.version.compare(&other.version),
            decided => decided,
        }
    }
}

/// A package as it is written: name and version.
pub open spec fn id_text(id: PackageIdModel) -> Seq<char> {
    id.name + "@"@ + semver::version_text(id.version)
}

impl PackageId {
    /// A version of a package.
    pub fn new(name: &str, version: Version) -> (r: Self)
        ensures
            r@ == (PackageIdModel { name: name@, version: version@ }),
    {
        PackageId { name: name.to_string(), version }
    }

    /// The package as it is written.
    pub fn to_string(&self) -> (r: String)
        ensures
            r@ == id_text(self@),
    {
        let mut out = text::chars_of(self.name.as_str());
        text::append_str(&mut out, "@");
        text::append(&mut out, &self.version.render());
        text::string_of(&out)
    }
}

/// One resolved edge: what was asked for, and what it resolved to.
#[derive(PartialEq, Eq, Debug)]
pub struct ResolvedEdge {
    pub name: String,
    pub spec: String,
    pub version: Version,
}

/// What a `ResolvedEdge` stands for.
#[verifier::ext_equal]
pub struct EdgeModel {
    pub name: Seq<char>,
    pub spec: Seq<char>,
    pub version: VersionModel,
}

impl View for ResolvedEdge {
    type V = EdgeModel;

    open spec fn view(&self) -> EdgeModel {
        EdgeModel { name: self.name@, spec: self.spec@, version: self.version@ }
    }
}

impl Clone for ResolvedEdge {
    fn clone(&self) -> (r: Self)
        ensures
            r@ == self@,
    {
        ResolvedEdge {
            name: self.name.clone(),
            spec: self.spec.clone(),
            version: self.version.clone(),
        }
    }
}

impl Rank for EdgeModel {
    /// By name first, by specifier second.
    open spec fn rank(self) -> Seq<int> {
        order::closed_text(self.name) + order::text_rank(self.spec)
    }
}

impl Ranked for ResolvedEdge {
    fn compare(&self, other: &Self) -> (r: Order) {
        proof {
            order::lemma_closed_text(
                self.name@,
                other.name@,
                order::text_rank(self.spec@),
                order::text_rank(other.spec@),
            );
            order::lemma_closed_text(
                other.name@,
                self.name@,
                order::text_rank(other.spec@),
                order::text_rank(self.spec@),
            );
        }
        match order::compare_text(self.name.as_str(), other.name.as_str()) {
            Order::Equal => order::compare_text(self.spec.as_str(), other.spec.as_str()),
            decided => decided,
        }
    }
}

/// The edges that a list of them stands for.
pub open spec fn edges(list: Seq<ResolvedEdge>) -> Seq<EdgeModel> {
    sorted::list_views(list)
}

/// The package that an edge leads to.
pub open spec fn edge_target(edge: EdgeModel) -> PackageIdModel {
    PackageIdModel { name: edge.name, version: edge.version }
}

/// A package as it was resolved.
#[derive(PartialEq, Eq, Debug)]
pub struct ResolvedPackage {
    pub id: PackageId,
    pub tarball: String,
    pub integrity: Integrity,
    /// Sorted by dependency name.
    pub dependencies: Vec<ResolvedEdge>,
}

/// What a `ResolvedPackage` stands for.
#[verifier::ext_equal]
pub struct ResolvedPackageModel {
    pub id: PackageIdModel,
    pub tarball: Seq<char>,
    pub integrity: IntegrityModel,
    pub dependencies: Seq<EdgeModel>,
}

impl View for ResolvedPackage {
    type V = ResolvedPackageModel;

    open spec fn view(&self) -> ResolvedPackageModel {
        ResolvedPackageModel {
            id: self.id@,
            tarball: self.tarball@,
            integrity: self.integrity@,
            dependencies: edges(self.dependencies@),
        }
    }
}

/// A copy of a list of edges.
pub fn copy_edges(list: &Vec<ResolvedEdge>) -> (out: Vec<ResolvedEdge>)
    ensures
        edges(out@) == edges(list@),
{
    let ghost all = edges(list@);
    let mut out: Vec<ResolvedEdge> = Vec::new();
    let mut i: usize = 0;
    while i < list.len()
        invariant
            i <= list@.len(),
            all == edges(list@),
            edges(out@) == all.take(i as int),
        decreases list@.len() - i,
    {
        let ghost done = out@;
        let copy = list[i].clone();
        out.push(copy);
        assert(edges(out@) =~= edges(done).push(copy@));
        assert(all.take(i + 1) =~= all.take(i as int).push(copy@));
        i += 1;
    }
    assert(all.take(i as int) =~= all);
    out
}

impl Clone for ResolvedPackage {
    fn clone(&self) -> (r: Self)
        ensures
            r@ == self@,
    {
        ResolvedPackage {
            id: self.id.clone(),
            tarball: self.tarball.clone(),
            integrity: self.integrity.clone(),
            dependencies: copy_edges(&self.dependencies),
        }
    }
}

/// What the root project asked for, kept so a `package.json` edit can be
/// detected without re-resolving.
#[derive(PartialEq, Eq, Debug)]
pub struct RequirementRecord {
    pub class: DependencyClass,
    pub name: String,
    pub spec: String,
}

/// What a `RequirementRecord` stands for.
#[verifier::ext_equal]
pub struct RecordModel {
    pub class: DependencyClass,
    pub name: Seq<char>,
    pub spec: Seq<char>,
}

impl View for RequirementRecord {
    type V = RecordModel;

    open spec fn view(&self) -> RecordModel {
        RecordModel { class: self.class, name: self.name@, spec: self.spec@ }
    }
}

impl Clone for RequirementRecord {
    fn clone(&self) -> (r: Self)
        ensures
            r@ == self@,
    {
        RequirementRecord {
            class: self.class,
            name: self.name.clone(),
            spec: self.spec.clone(),
        }
    }
}

impl Rank for RecordModel {
    open spec fn rank(self) -> Seq<int> {
        manifest::class_and_name_rank(self.class, self.name)
    }
}

impl Ranked for RequirementRecord {
    fn compare(&self, other: &Self) -> (r: Order) {
        manifest::compare_class_and_name(
            self.class,
            self.name.as_str(),
            other.class,
            other.name.as_str(),
        )
    }
}

/// The records that a list of them stands for.
pub open spec fn records(list: Seq<RequirementRecord>) -> Seq<RecordModel> {
    sorted::list_views(list)
}

/// A resolved project.
#[derive(PartialEq, Eq, Debug)]
pub struct Resolution {
    pub requirements: Vec<RequirementRecord>,
    pub packages: SortedMap<PackageId, ResolvedPackage>,
    /// Optional dependencies that do not exist or have no matching version.
    /// Recorded so an install can say why something is absent.
    pub skipped: Vec<(String, String)>,
}

/// The packages of a resolution, in order.
pub type Packages = Seq<(PackageIdModel, ResolvedPackageModel)>;

/// What a `Resolution` stands for.
#[verifier::ext_equal]
pub struct ResolutionModel {
    pub requirements: Seq<RecordModel>,
    pub packages: Seq<(PackageIdModel, ResolvedPackageModel)>,
    pub skipped: Seq<(Seq<char>, Seq<char>)>,
}

/// The pairs of texts that a list of them stands for.
pub open spec fn text_pairs(list: Seq<(String, String)>) -> Seq<(Seq<char>, Seq<char>)> {
    list.map_values(|p: (String, String)| (p.0@, p.1@))
}

impl View for Resolution {
    type V = ResolutionModel;

    open spec fn view(&self) -> ResolutionModel {
        ResolutionModel {
            requirements: records(self.requirements@),
            packages: self.packages@,
            skipped: text_pairs(self.skipped@),
        }
    }
}

/// The versions among packages that have a given name, in order.
pub open spec fn versions_named(packages: Packages, name: Seq<char>) -> Seq<VersionModel>
    decreases packages.len(),
{
    if packages.len() == 0 {
        Seq::empty()
    } else {
        let front = versions_named(packages.drop_last(), name);
        if packages.last().0.name == name {
            front.push(packages.last().0.version)
        } else {
            front
        }
    }
}

/// Whether a package depends on another.
pub open spec fn is_depended_on(packages: Packages, id: PackageIdModel) -> bool {
    exists|i: int, k: int|
        0 <= i < packages.len() && 0 <= k < packages[i].1.dependencies.len() && edge_target(
            #[trigger] packages[i].1.dependencies[k],
        ) == id
}

/// The last of some versions of a package that nothing depends on.
pub open spec fn last_free(
    packages: Packages,
    name: Seq<char>,
    found: Seq<VersionModel>,
) -> Option<VersionModel>
    decreases found.len(),
{
    if found.len() == 0 {
        None
    } else if !is_depended_on(packages, PackageIdModel { name, version: found.last() }) {
        Some(found.last())
    } else {
        last_free(packages, name, found.drop_last())
    }
}

/// The version that a root requirement picks: the highest in its range. A tag says
/// nothing of versions; whatever it named is there, so that is the highest version
/// which nothing depends on, or the highest of all where there is none.
pub open spec fn picked_version(packages: Packages, record: RecordModel) -> Option<VersionModel> {
    let found = versions_named(packages, record.name);
    match semver::range_of(record.spec) {
        Some(range) => match semver::highest(range, found) {
            Some(at) => Some(found[at]),
            None => None,
        },
        None => match last_free(packages, record.name, found) {
            Some(version) => Some(version),
            None => last_of(found),
        },
    }
}

/// The last of some versions.
pub open spec fn last_of(found: Seq<VersionModel>) -> Option<VersionModel> {
    if found.len() > 0 {
        Some(found.last())
    } else {
        None
    }
}

/// The highest version that the requirements of a name pick.
pub open spec fn best_pick(
    requirements: Seq<RecordModel>,
    packages: Packages,
    name: Seq<char>,
) -> Option<VersionModel>
    decreases requirements.len(),
{
    if requirements.len() == 0 {
        None
    } else {
        let front = best_pick(requirements.drop_last(), packages, name);
        let pick = picked_version(packages, requirements.last());
        if requirements.last().name != name {
            front
        } else {
            match (front, pick) {
                (Some(a), Some(b)) => Some(
                    if semver::version_before(a, b) {
                        b
                    } else {
                        a
                    },
                ),
                (None, _) => pick,
                (_, None) => front,
            }
        }
    }
}

/// The root version of a name: the highest that its requirements pick, or the
/// highest of all where they pick none.
pub open spec fn root_version(
    requirements: Seq<RecordModel>,
    packages: Packages,
    name: Seq<char>,
) -> Option<VersionModel> {
    match best_pick(requirements, packages, name) {
        Some(version) => Some(version),
        None => last_of(versions_named(packages, name)),
    }
}

/// The root packages of the first `n` requirements, in their order.
pub open spec fn root_targets(
    requirements: Seq<RecordModel>,
    packages: Packages,
    n: nat,
) -> Seq<PackageIdModel>
    decreases n,
{
    if n == 0 {
        Seq::empty()
    } else {
        let front = root_targets(requirements, packages, (n - 1) as nat);
        let name = requirements[n - 1].name;
        match root_version(requirements, packages, name) {
            Some(version) => front.push(PackageIdModel { name, version }),
            None => front,
        }
    }
}

/// The root-level packages of a resolution, in order: one for each name that is
/// required and was resolved.
pub open spec fn roots_of(r: ResolutionModel) -> Seq<PackageIdModel> {
    sorted::deduped(
        sorted::stable_sorted(root_targets(r.requirements, r.packages, r.requirements.len())),
    )
}

/// Whether two versions are the same in every part, build metadata too.
pub fn same_version(a: &Version, b: &Version) -> (r: bool)
    ensures
        r == (a@ == b@),
{
    if a.major != b.major || a.minor != b.minor || a.patch != b.patch {
        return false;
    }
    let built = match (&a.build, &b.build) {
        (Some(x), Some(y)) => text::same_text(x.as_str(), y.as_str()),
        (None, None) => true,
        _ => false,
    };
    if !built {
        return false;
    }
    // Numbers and build are the same, so the prerelease decides.
    let found = a.compare(b);
    assert(found is Equal <==> semver::same_precedence(a@, b@));
    found == Order::Equal
}

/// Whether two packages are the same in every part.
pub fn same_id(a: &PackageId, b: &PackageId) -> (r: bool)
    ensures
        r == (a@ == b@),
{
    text::same_text(a.name.as_str(), b.name.as_str()) && same_version(&a.version, &b.version)
}

impl Resolution {
    /// A package of the resolution.
    pub fn package(&self, id: &PackageId) -> (r: Option<&ResolvedPackage>)
        ensures
            match r {
                Some(package) => sorted::lookup(self@.packages, id@) == Some(package@),
                None => sorted::lookup(self@.packages, id@) is None,
            },
    {
        self.packages.get(id)
    }

    /// Root-level edges, resolved: one for each name.
    pub fn roots(&self) -> (r: Vec<PackageId>)
        ensures
            sorted::list_views(r@) == roots_of(self@),
            forall|i: int, j: int|
                0 <= i < j < r@.len() ==> (#[trigger] r@[i]).name@ != (#[trigger] r@[j]).name@,
    {
        let ghost all = self@.requirements;
        let mut targets: Vec<PackageId> = Vec::new();
        let mut i: usize = 0;
        assert(sorted::list_views(targets@) =~= Seq::empty());
        while i < self.requirements.len()
            invariant
                i <= self.requirements@.len(),
                all == self@.requirements,
                all == records(self.requirements@),
                self.packages@ == self@.packages,
                sorted::list_views(targets@) == root_targets(all, self.packages@, i as nat),
            decreases self.requirements@.len() - i,
        {
            let ghost done = sorted::list_views(targets@);
            let record = &self.requirements[i];
            assert(all[i as int] == record@);
            if let Some(version) = self.choose_root(record.name.as_str()) {
                let id = PackageId::new(record.name.as_str(), version);
                targets.push(id);
                assert(sorted::list_views(targets@) =~= done.push(id@));
            }
            i += 1;
        }
        let sorted_targets = sorted::sort(targets);
        let ghost list = sorted::list_views(sorted_targets@);
        let mut out: Vec<PackageId> = Vec::new();
        let mut k: usize = 0;
        assert(sorted::list_views(out@) =~= Seq::empty());
        while k < sorted_targets.len()
            invariant
                k <= sorted_targets@.len(),
                list == sorted::list_views(sorted_targets@),
                sorted::list_views(out@) == sorted::deduped(list.take(k as int)),
            decreases sorted_targets@.len() - k,
        {
            let ghost done = sorted::list_views(out@);
            proof {
                assert(list.take(k + 1).drop_last() =~= list.take(k as int));
                assert(list.take(k + 1).last() == sorted_targets@[k as int]@);
                assert(done.len() == out@.len());
                if out@.len() > 0 {
                    assert(done.last() == out@[out@.len() - 1]@);
                }
            }
            if out.len() == 0 || !same_id(&out[out.len() - 1], &sorted_targets[k]) {
                let copy = sorted_targets[k].clone();
                out.push(copy);
                assert(sorted::list_views(out@) =~= done.push(copy@));
            }
            k += 1;
        }
        proof {
            assert(list.take(k as int) =~= list);
            lemma_roots_differ(self@);
            let roots = sorted::list_views(out@);
            assert forall|i: int, j: int| 0 <= i < j < out@.len() implies (
            #[trigger] out@[i]).name@ != (#[trigger] out@[j]).name@ by {
                assert(roots[i] == out@[i]@ && roots[j] == out@[j]@);
            }
        }
        out
    }

    /// The root version of a name.
    fn choose_root(&self, name: &str) -> (r: Option<Version>)
        ensures
            text::view_of(r) == root_version(self@.requirements, self@.packages, name@),
    {
        let ghost all = self@.requirements;
        let mut best: Option<Version> = None;
        let mut i: usize = 0;
        while i < self.requirements.len()
            invariant
                i <= self.requirements@.len(),
                all == self@.requirements,
                all == records(self.requirements@),
                self.packages@ == self@.packages,
                text::view_of(best) == best_pick(all.take(i as int), self.packages@, name@),
            decreases self.requirements@.len() - i,
        {
            let record = &self.requirements[i];
            proof {
                assert(all.take(i + 1).drop_last() =~= all.take(i as int));
                assert(all.take(i + 1).last() == record@);
            }
            if text::same_text(record.name.as_str(), name) {
                if let Some(pick) = pick_version(&self.packages, record) {
                    best = match best {
                        Some(before) => if before.compare(&pick) == Order::Less {
                            Some(pick)
                        } else {
                            Some(before)
                        },
                        None => Some(pick),
                    };
                }
            }
            i += 1;
        }
        assert(all.take(i as int) =~= all);
        if best.is_some() {
            return best;
        }
        let found = named(&self.packages, name);
        let ghost versions = semver::versions(found@);
        assert(versions.len() == found@.len());
        if found.len() > 0 {
            let last = found[found.len() - 1];
            assert(versions.last() == last@);
            Some(last.clone())
        } else {
            None
        }
    }
}

/// The versions among packages that have a given name.
fn named<'a>(packages: &'a SortedMap<PackageId, ResolvedPackage>, name: &str) -> (r: Vec<
    &'a Version,
>)
    ensures
        semver::versions(r@) == versions_named(packages@, name@),
{
    let mut out: Vec<&'a Version> = Vec::new();
    let n: usize = packages.len();
    let mut i: usize = 0;
    assert(semver::versions(out@) =~= Seq::empty());
    while i < n
        invariant
            i <= n,
            n == packages@.len(),
            semver::versions(out@) == versions_named(packages@.take(i as int), name@),
        decreases n - i,
    {
        let ghost done = semver::versions(out@);
        assert(packages@.take(i + 1).drop_last() =~= packages@.take(i as int));
        let id = packages.key_at(i);
        if text::same_text(id.name.as_str(), name) {
            out.push(&id.version);
            assert(semver::versions(out@) =~= done.push(id.version@));
        }
        i += 1;
    }
    assert(packages@.take(i as int) =~= packages@);
    out
}

/// Whether a package depends on another.
fn depended_on(
    packages: &SortedMap<PackageId, ResolvedPackage>,
    name: &str,
    version: &Version,
) -> (r: bool)
    ensures
        r == is_depended_on(packages@, PackageIdModel { name: name@, version: version@ }),
{
    let ghost id = PackageIdModel { name: name@, version: version@ };
    let n: usize = packages.len();
    let mut i: usize = 0;
    while i < n
        invariant
            i <= n,
            n == packages@.len(),
            id == (PackageIdModel { name: name@, version: version@ }),
            forall|a: int, k: int|
                0 <= a < i && 0 <= k < packages@[a].1.dependencies.len() ==> edge_target(
                    #[trigger] packages@[a].1.dependencies[k],
                ) != id,
        decreases n - i,
    {
        let package = packages.value_at(i);
        let ghost found = packages@[i as int].1.dependencies;
        let mut k: usize = 0;
        while k < package.dependencies.len()
            invariant
                i < n,
                n == packages@.len(),
                k <= package.dependencies@.len(),
                found == packages@[i as int].1.dependencies,
                found == edges(package.dependencies@),
                id == (PackageIdModel { name: name@, version: version@ }),
                forall|a: int| 0 <= a < k ==> edge_target(#[trigger] found[a]) != id,
            decreases package.dependencies@.len() - k,
        {
            let edge = &package.dependencies[k];
            assert(found[k as int] == edge@);
            if text::same_text(edge.name.as_str(), name) && same_version(&edge.version, version) {
                assert(edge_target(packages@[i as int].1.dependencies[k as int]) == id);
                return true;
            }
            k += 1;
        }
        i += 1;
    }
    false
}

/// The version that a root requirement picks.
fn pick_version(
    packages: &SortedMap<PackageId, ResolvedPackage>,
    record: &RequirementRecord,
) -> (r: Option<Version>)
    ensures
        text::view_of(r) == picked_version(packages@, record@),
{
    let found = named(packages, record.name.as_str());
    let ghost all = semver::versions(found@);
    assert(all.len() == found@.len());
    match Range::parse(record.spec.as_str()) {
        Ok(range) => match range.max_position(&found) {
            Some(at) => {
                assert(all[at as int] == found@[at as int]@);
                Some(found[at].clone())
            },
            None => None,
        },
        Err(_) => {
            let mut left: usize = found.len();
            assert(all.take(left as int) =~= all);
            while left > 0
                invariant
                    left <= found@.len(),
                    all == semver::versions(found@),
                    all.len() == found@.len(),
                    all == versions_named(packages@, record@.name),
                    last_free(packages@, record@.name, all) == last_free(
                        packages@,
                        record@.name,
                        all.take(left as int),
                    ),
                    semver::range_of(record@.spec) is None,
                decreases left,
            {
                let version = found[left - 1];
                assert(all[left - 1] == version@);
                assert(all.take(left as int).last() == version@);
                assert(all.take(left as int).drop_last() =~= all.take(left - 1));
                if !depended_on(packages, record.name.as_str(), version) {
                    return Some(version.clone());
                }
                left = left - 1;
            }
            assert(all.take(0).len() == 0);
            if found.len() > 0 {
                let last = found[found.len() - 1];
                assert(all.last() == last@);
                Some(last.clone())
            } else {
                None
            }
        },
    }
}

/// What `last_free` means.
pub proof fn lemma_last_free(packages: Packages, name: Seq<char>, found: Seq<VersionModel>)
    ensures
        last_free(packages, name, found) matches Some(version) ==> found.contains(version)
            && !is_depended_on(packages, PackageIdModel { name, version }),
        last_free(packages, name, found) is None ==> forall|i: int|
            0 <= i < found.len() ==> is_depended_on(
                packages,
                PackageIdModel { name, version: #[trigger] found[i] },
            ),
    decreases found.len(),
{
    if found.len() > 0 {
        let front = found.drop_last();
        lemma_last_free(packages, name, front);
        assert(found[found.len() - 1] == found.last());
        if let Some(version) = last_free(packages, name, front) {
            let i = choose|i: int| 0 <= i < front.len() && front[i] == version;
            assert(found[i] == version);
        }
        assert forall|i: int| 0 <= i < front.len() implies #[trigger] found[i] == front[i] by {}
    }
}

/// What a root requirement picks is a version of its name.
proof fn lemma_picked_version(packages: Packages, record: RecordModel)
    ensures
        picked_version(packages, record) matches Some(version) ==> versions_named(
            packages,
            record.name,
        ).contains(version),
{
    let found = versions_named(packages, record.name);
    if let Some(version) = picked_version(packages, record) {
        lemma_last_free(packages, record.name, found);
        if let Some(range) = semver::range_of(record.spec) {
            semver::highest_is_the_maximum(range, found);
        } else if last_free(packages, record.name, found) is None {
            assert(found[found.len() - 1] == version);
        }
    }
}

proof fn lemma_best_pick(requirements: Seq<RecordModel>, packages: Packages, name: Seq<char>)
    ensures
        best_pick(requirements, packages, name) matches Some(version) ==> versions_named(
            packages,
            name,
        ).contains(version),
    decreases requirements.len(),
{
    if requirements.len() > 0 {
        lemma_best_pick(requirements.drop_last(), packages, name);
        lemma_picked_version(packages, requirements.last());
    }
}

/// The root of a name is a package of the resolution.
pub proof fn lemma_root_version(
    requirements: Seq<RecordModel>,
    packages: Packages,
    name: Seq<char>,
)
    ensures
        root_version(requirements, packages, name) matches Some(version) ==> exists|i: int|
            0 <= i < packages.len() && (#[trigger] packages[i]).0 == (PackageIdModel {
                name,
                version,
            }),
{
    let found = versions_named(packages, name);
    if let Some(version) = root_version(requirements, packages, name) {
        lemma_best_pick(requirements, packages, name);
        if best_pick(requirements, packages, name) is None {
            assert(found[found.len() - 1] == version);
        }
        let k = choose|k: int| 0 <= k < found.len() && found[k] == version;
        let i = lemma_versions_named(packages, name, k);
        assert(packages[i].0 == (PackageIdModel { name, version }));
    }
}

/// Root packages of one name are one package.
proof fn lemma_targets_of_a_name(
    requirements: Seq<RecordModel>,
    packages: Packages,
    n: nat,
    i: int,
)
    requires
        n <= requirements.len(),
        0 <= i < root_targets(requirements, packages, n).len(),
    ensures
        root_version(
            requirements,
            packages,
            root_targets(requirements, packages, n)[i].name,
        ) == Some(root_targets(requirements, packages, n)[i].version),
    decreases n,
{
    if i < root_targets(requirements, packages, (n - 1) as nat).len() {
        lemma_targets_of_a_name(requirements, packages, (n - 1) as nat, i);
    }
}

/// The roots of a resolution have different names.
pub proof fn lemma_roots_differ(r: ResolutionModel)
    ensures
        forall|i: int, j: int|
            0 <= i < j < roots_of(r).len() ==> (#[trigger] roots_of(r)[i]).name != (
            #[trigger] roots_of(r)[j]).name,
{
    let targets = root_targets(r.requirements, r.packages, r.requirements.len());
    let list = sorted::stable_sorted(targets);
    sorted::sorting_orders_and_keeps(targets);
    assert forall|i: int| 0 <= i < list.len() implies root_version(
        r.requirements,
        r.packages,
        (#[trigger] list[i]).name,
    ) == Some(list[i].version) by {
        broadcast use vstd::seq_lib::group_to_multiset_ensures;

        assert(list.contains(list[i]));
        assert(list.to_multiset().count(list[i]) > 0);
        assert(targets.contains(list[i]));
        let k = choose|k: int| 0 <= k < targets.len() && targets[k] == list[i];
        lemma_targets_of_a_name(r.requirements, r.packages, r.requirements.len(), k);
    }
    assert forall|i: int, j: int|
        0 <= i < list.len() && 0 <= j < list.len() && (#[trigger] list[i]).rank() == (
        #[trigger] list[j]).rank() implies list[i] == list[j] by {
        order::lemma_closed_text(
            list[i].name,
            list[j].name,
            list[i].version.rank(),
            list[j].version.rank(),
        );
    }
    sorted::lemma_deduped_ascends(list);
    let roots = sorted::deduped(list);
    assert forall|i: int, j: int| 0 <= i < j < roots.len() implies (#[trigger] roots[i]).name != (
    #[trigger] roots[j]).name by {
        assert(roots.contains(roots[i]) && roots.contains(roots[j]));
        assert(list.contains(roots[i]) && list.contains(roots[j]));
        order::lemma_irreflexive(roots[i].rank());
    }
}

// ---------------------------------------------------------------------------
// Resolving.

/// What to take in.
#[derive(Clone, Copy, Debug)]
pub struct ResolveOptions {
    /// The root project's `devDependencies` are installed; a dependency's are
    /// never installed, which is what keeps a tree from exploding.
    pub include_development: bool,
}

impl Default for ResolveOptions {
    fn default() -> (r: Self)
        ensures
            r.include_development,
    {
        ResolveOptions { include_development: true }
    }
}

/// What the registry said when it was asked for a package.
#[derive(Debug)]
pub enum Answer {
    Found(Packument),
    Refused(RegistryError),
}

/// What an `Answer` stands for.
#[verifier::ext_equal]
pub enum AnswerModel {
    Found(PackumentModel),
    Refused(RegistryErrorModel),
}

impl View for Answer {
    type V = AnswerModel;

    open spec fn view(&self) -> AnswerModel {
        match self {
            Answer::Found(packument) => AnswerModel::Found(packument@),
            Answer::Refused(error) => AnswerModel::Refused(error@),
        }
    }
}

/// The registry's answers so far, by package name.
pub type Answers = Seq<(Seq<char>, AnswerModel)>;

/// One unit of work: resolve `name @ spec`, requested by `parent`.
#[derive(Debug)]
pub struct Request {
    pub parent: Option<PackageId>,
    pub name: String,
    pub spec: Spec,
    pub optional: bool,
}

/// What a `Request` stands for.
#[verifier::ext_equal]
pub struct RequestModel {
    pub parent: Option<PackageIdModel>,
    pub name: Seq<char>,
    pub spec: SpecModel,
    pub optional: bool,
}

impl View for Request {
    type V = RequestModel;

    open spec fn view(&self) -> RequestModel {
        RequestModel {
            parent: text::view_of(self.parent),
            name: self.name@,
            spec: self.spec@,
            optional: self.optional,
        }
    }
}

/// The requests that a list of them stands for.
pub open spec fn requests(list: Seq<Request>) -> Seq<RequestModel> {
    sorted::list_views(list)
}

/// What a request comes to.
pub enum Selection {
    /// A version, and the packages with that version recorded.
    Selected { version: VersionModel, packages: Packages },
    /// An optional dependency that cannot be had.
    Skipped { name: Seq<char>, reason: Seq<char> },
    Failed(ResolveErrorModel),
    /// The registry has not been asked for the package yet.
    Unasked,
    /// The registry's tag names a version that the registry does not list.
    Dangling,
}

/// The keys of a map, in order.
pub open spec fn keys<K, V>(entries: Seq<(K, V)>) -> Seq<K> {
    entries.map_values(|e: (K, V)| e.0)
}

/// The version that a specifier picks from a packument: the highest in the
/// range, or what the tag says.
pub open spec fn picked(spec: SpecModel, packument: PackumentModel) -> Option<VersionModel> {
    match spec {
        SpecModel::Range(range) => match semver::highest(range, keys(packument.versions)) {
            Some(at) => Some(keys(packument.versions)[at]),
            None => None,
        },
        SpecModel::Tag(tag) => sorted::lookup(packument.dist_tags, tag),
        SpecModel::Unsupported(_) => None,
    }
}

/// A package that was just selected.
pub open spec fn fresh_package(id: PackageIdModel, metadata: MetadataModel) -> ResolvedPackageModel {
    ResolvedPackageModel {
        id,
        tarball: metadata.tarball,
        integrity: metadata.integrity,
        dependencies: Seq::empty(),
    }
}

/// The version already selected that a range can reuse: the highest.
pub open spec fn reusable(packages: Packages, request: RequestModel) -> Option<VersionModel> {
    match request.spec {
        SpecModel::Range(range) => {
            let chosen = versions_named(packages, request.name);
            match semver::highest(range, chosen) {
                Some(at) => Some(chosen[at]),
                None => None,
            }
        },
        _ => None,
    }
}

/// A request once the registry's packument is at hand.
pub open spec fn select_from(
    packages: Packages,
    request: RequestModel,
    packument: PackumentModel,
) -> Selection {
    match picked(request.spec, packument) {
        Some(version) => {
            let id = PackageIdModel { name: request.name, version };
            if sorted::holds(packages, id) {
                Selection::Selected { version, packages }
            } else {
                match sorted::lookup(packument.versions, version) {
                    Some(metadata) => Selection::Selected {
                        version,
                        packages: sorted::put(packages, id, fresh_package(id, metadata)),
                    },
                    None => Selection::Dangling,
                }
            }
        },
        None => if request.optional {
            Selection::Skipped {
                name: request.name,
                reason: "no version satisfies "@ + manifest::spec_text(request.spec),
            }
        } else {
            Selection::Failed(
                ResolveErrorModel::NoMatchingVersion {
                    name: request.name,
                    spec: manifest::spec_text(request.spec),
                    available: packument.versions.len(),
                },
            )
        },
    }
}

/// Chooses a version. An already-selected version that satisfies the range keeps
/// the tree flat and the install small, so it is looked for before the registry
/// is.
pub open spec fn select(packages: Packages, request: RequestModel, answers: Answers) -> Selection {
    match request.spec {
        SpecModel::Unsupported(spec) => if request.optional {
            Selection::Skipped {
                name: request.name,
                reason: "unsupported specifier "@ + text::quoted(spec),
            }
        } else {
            Selection::Failed(ResolveErrorModel::UnsupportedSpec { name: request.name, spec })
        },
        _ => match reusable(packages, request) {
            Some(version) => Selection::Selected { version, packages },
            None => match sorted::lookup(answers, request.name) {
                None => Selection::Unasked,
                Some(AnswerModel::Found(packument)) => select_from(packages, request, packument),
                Some(AnswerModel::Refused(error)) => match error {
                    RegistryErrorModel::NotFound(name) => if request.optional {
                        Selection::Skipped { name, reason: "not in the registry"@ }
                    } else {
                        Selection::Failed(ResolveErrorModel::Registry(error))
                    },
                    _ => Selection::Failed(ResolveErrorModel::Registry(error)),
                },
            },
        },
    }
}

/// Dependencies with one more edge, unless it is there already.
pub open spec fn with_edge(dependencies: Seq<EdgeModel>, edge: EdgeModel) -> Seq<EdgeModel> {
    if dependencies.contains(edge) {
        dependencies
    } else {
        sorted::stable_sorted(dependencies.push(edge))
    }
}

/// Packages with one more edge out of a parent.
pub open spec fn linked(packages: Packages, parent: PackageIdModel, edge: EdgeModel) -> Packages {
    match sorted::lookup(packages, parent) {
        Some(package) => sorted::put(
            packages,
            parent,
            ResolvedPackageModel {
                dependencies: with_edge(package.dependencies, edge),
                ..package
            },
        ),
        None => packages,
    }
}

/// What a package asks for, as its registry entry declares it.
pub open spec fn dependencies_in(packument: PackumentModel, version: VersionModel) -> Seq<
    RequirementModel,
> {
    match sorted::lookup(packument.versions, version) {
        Some(metadata) => manifest::wanted(metadata.manifest.requirements, false),
        None => Seq::empty(),
    }
}

/// The requests that a package makes.
pub open spec fn requests_of(
    parent: Option<PackageIdModel>,
    list: Seq<RequirementModel>,
) -> Seq<RequestModel> {
    list.map_values(
        |r: RequirementModel|
            RequestModel {
                parent,
                name: r.name,
                spec: r.spec,
                optional: manifest::absence_is_tolerated(r.class),
            },
    )
}

/// The state of a resolution under way.
#[verifier::ext_equal]
pub struct ResolverModel {
    pub requirements: Seq<RecordModel>,
    pub queue: Seq<RequestModel>,
    pub packages: Seq<(PackageIdModel, ResolvedPackageModel)>,
    pub expanded: Seq<(PackageIdModel, ())>,
    pub skipped: Seq<(Seq<char>, Seq<char>)>,
}

/// What one step comes to.
pub enum Outcome {
    Stepped(ResolverModel),
    Done,
    Ask(Seq<char>),
    Dangling { name: Seq<char>, spec: Seq<char> },
    Failed(ResolveErrorModel),
}

/// The packages once a request was selected: the parent has the edge.
pub open spec fn recorded(
    packages: Packages,
    request: RequestModel,
    version: VersionModel,
) -> Packages {
    match request.parent {
        Some(parent) => linked(
            packages,
            parent,
            EdgeModel {
                name: request.name,
                spec: manifest::spec_text(request.spec),
                version,
            },
        ),
        None => packages,
    }
}

/// A step whose request was selected. A package's dependencies are expanded
/// once, however many paths reach it; this is also what terminates dependency
/// cycles.
pub open spec fn expand(
    state: ResolverModel,
    request: RequestModel,
    version: VersionModel,
    packages: Packages,
    answers: Answers,
) -> Outcome {
    let id = PackageIdModel { name: request.name, version };
    let rest = ResolverModel {
        queue: state.queue.skip(1),
        packages: recorded(packages, request, version),
        ..state
    };
    if sorted::holds(state.expanded, id) {
        Outcome::Stepped(rest)
    } else {
        match sorted::lookup(answers, request.name) {
            None => Outcome::Ask(request.name),
            Some(AnswerModel::Refused(error)) => Outcome::Failed(
                ResolveErrorModel::Registry(error),
            ),
            Some(AnswerModel::Found(packument)) => Outcome::Stepped(
                ResolverModel {
                    expanded: sorted::put(state.expanded, id, ()),
                    queue: rest.queue + requests_of(
                        Some(id),
                        dependencies_in(packument, version),
                    ),
                    ..rest
                },
            ),
        }
    }
}

/// One step: the first request of the queue is worked off.
pub open spec fn stepped(state: ResolverModel, answers: Answers) -> Outcome {
    if state.queue.len() == 0 {
        Outcome::Done
    } else {
        let request = state.queue[0];
        match select(state.packages, request, answers) {
            Selection::Selected { version, packages } => expand(
                state,
                request,
                version,
                packages,
                answers,
            ),
            Selection::Skipped { name, reason } => Outcome::Stepped(
                ResolverModel {
                    queue: state.queue.skip(1),
                    skipped: state.skipped.push((name, reason)),
                    ..state
                },
            ),
            Selection::Failed(error) => Outcome::Failed(error),
            Selection::Unasked => Outcome::Ask(request.name),
            Selection::Dangling => Outcome::Dangling {
                name: request.name,
                spec: manifest::spec_text(request.spec),
            },
        }
    }
}

/// What a root project asks for, as records.
pub open spec fn records_of(list: Seq<RequirementModel>) -> Seq<RecordModel> {
    list.map_values(
        |r: RequirementModel|
            RecordModel { class: r.class, name: r.name, spec: manifest::spec_text(r.spec) },
    )
}

/// What a root project asks for, in the order of class and name.
pub open spec fn declared_records(
    root: ManifestModel,
    include_development: bool,
) -> Seq<RecordModel> {
    sorted::stable_sorted(
        records_of(manifest::wanted(root.requirements, include_development)),
    )
}

/// The state in which the requirements of the root are queued.
pub open spec fn started(root: ManifestModel, include_development: bool) -> ResolverModel {
    ResolverModel {
        requirements: declared_records(root, include_development),
        queue: requests_of(None, manifest::wanted(root.requirements, include_development)),
        packages: Seq::empty(),
        expanded: Seq::empty(),
        skipped: Seq::empty(),
    }
}

/// A resolution under way.
pub struct Resolver {
    requirements: Vec<RequirementRecord>,
    queue: Vec<Request>,
    packages: SortedMap<PackageId, ResolvedPackage>,
    expanded: SortedMap<PackageId, ()>,
    skipped: Vec<(String, String)>,
}

impl View for Resolver {
    type V = ResolverModel;

    closed spec fn view(&self) -> ResolverModel {
        ResolverModel {
            requirements: records(self.requirements@),
            queue: requests(self.queue@),
            packages: self.packages@,
            expanded: self.expanded@,
            skipped: text_pairs(self.skipped@),
        }
    }
}

/// What one step of a resolver came to.
#[derive(Debug)]
pub enum Progress {
    /// One request was worked off.
    Stepped,
    /// Nothing is left to do.
    Done,
    /// Nothing changed: the registry must be asked for this package first.
    Ask(String),
    /// Nothing changed: the registry's tag names a version that the registry
    /// does not list, so there is nothing to install.
    Dangling { name: String, spec: String },
    Failed(ResolveError),
}

/// Whether a step came to the given outcome, from one state to another.
pub open spec fn came_to(
    before: ResolverModel,
    after: ResolverModel,
    progress: Progress,
    outcome: Outcome,
) -> bool {
    match outcome {
        Outcome::Stepped(state) => progress is Stepped && after == state,
        Outcome::Done => progress is Done && after == before,
        Outcome::Ask(name) => (progress matches Progress::Ask(given) && given@ == name) && after
            == before,
        Outcome::Dangling { name, spec } => (progress matches Progress::Dangling {
            name: n,
            spec: s,
        } && n@ == name && s@ == spec) && after == before,
        Outcome::Failed(error) => (progress matches Progress::Failed(e) && e@ == error) && after
            == before,
    }
}

/// What a request came to.
enum Chosen {
    Selected(Version),
    Skipped(String, String),
    Failed(ResolveError),
    Unasked,
    Dangling,
}

/// Whether a request came to the given selection, from some packages to others.
spec fn chosen_as(
    before: Packages,
    after: Packages,
    chosen: Chosen,
    selection: Selection,
) -> bool {
    match selection {
        Selection::Selected { version, packages } => (chosen matches Chosen::Selected(v) && v@
            == version) && after == packages,
        Selection::Skipped { name, reason } => (chosen matches Chosen::Skipped(n, r) && n@ == name
            && r@ == reason) && after == before,
        Selection::Failed(error) => (chosen matches Chosen::Failed(e) && e@ == error) && after
            == before,
        Selection::Unasked => chosen is Unasked && after == before,
        Selection::Dangling => chosen is Dangling && after == before,
    }
}

fn version_keys(packument: &Packument) -> (r: Vec<&Version>)
    ensures
        semver::versions(r@) == keys(packument@.versions),
{
    let mut out: Vec<&Version> = Vec::new();
    let n: usize = packument.versions.len();
    let ghost all = keys(packument@.versions);
    let mut i: usize = 0;
    assert(semver::versions(out@) =~= all.take(0));
    while i < n
        invariant
            i <= n,
            n == packument.versions@.len(),
            all == keys(packument.versions@),
            semver::versions(out@) == all.take(i as int),
        decreases n - i,
    {
        let ghost done = semver::versions(out@);
        let key = packument.versions.key_at(i);
        out.push(key);
        assert(semver::versions(out@) =~= done.push(key@));
        assert(all.take(i + 1) =~= all.take(i as int).push(key@));
        i += 1;
    }
    assert(all.take(i as int) =~= all);
    out
}

fn pick(spec: &Spec, packument: &Packument) -> (r: Option<Version>)
    ensures
        text::view_of(r) == picked(spec@, packument@),
{
    match spec {
        Spec::Range(range) => {
            let list = version_keys(packument);
            match range.max_position(&list) {
                Some(at) => {
                    assert(semver::versions(list@)[at as int] == list@[at as int]@);
                    Some(list[at].clone())
                },
                None => None,
            }
        },
        Spec::Tag(tag) => match packument.dist_tags.get(tag) {
            Some(version) => Some(version.clone()),
            None => None,
        },
        Spec::Unsupported(_) => None,
    }
}

fn reuse(
    packages: &SortedMap<PackageId, ResolvedPackage>,
    request: &Request,
) -> (r: Option<Version>)
    ensures
        text::view_of(r) == reusable(packages@, request@),
{
    match &request.spec {
        Spec::Range(range) => {
            let list = named(packages, request.name.as_str());
            match range.max_position(&list) {
                Some(at) => {
                    assert(semver::versions(list@)[at as int] == list@[at as int]@);
                    Some(list[at].clone())
                },
                None => None,
            }
        },
        _ => None,
    }
}

fn joined_text(start: &str, rest: &str) -> (r: String)
    ensures
        r@ == start@ + rest@,
{
    text::concat(start.to_string(), rest)
}

fn choose_from(
    packages: &mut SortedMap<PackageId, ResolvedPackage>,
    request: &Request,
    packument: &Packument,
) -> (r: Chosen)
    ensures
        chosen_as(
            old(packages)@,
            final(packages)@,
            r,
            select_from(old(packages)@, request@, packument@),
        ),
{
    match pick(&request.spec, packument) {
        Some(version) => {
            let id = PackageId::new(request.name.as_str(), version.clone());
            if packages.contains_key(&id) {
                return Chosen::Selected(version);
            }
            match packument.version(&version) {
                Some(metadata) => {
                    let package = ResolvedPackage {
                        id: id.clone(),
                        tarball: metadata.tarball.clone(),
                        integrity: metadata.integrity.clone(),
                        dependencies: Vec::new(),
                    };
                    assert(package@.dependencies =~= Seq::empty());
                    packages.insert(id, package);
                    Chosen::Selected(version)
                },
                None => Chosen::Dangling,
            }
        },
        None => {
            let spec = request.spec.to_string();
            if request.optional {
                Chosen::Skipped(
                    request.name.clone(),
                    joined_text("no version satisfies ", spec.as_str()),
                )
            } else {
                Chosen::Failed(
                    ResolveError::NoMatchingVersion {
                        name: request.name.clone(),
                        spec,
                        available: packument.versions.len(),
                    },
                )
            }
        },
    }
}

fn choose_version(
    packages: &mut SortedMap<PackageId, ResolvedPackage>,
    request: &Request,
    answers: &SortedMap<String, Answer>,
) -> (r: Chosen)
    ensures
        chosen_as(
            old(packages)@,
            final(packages)@,
            r,
            select(old(packages)@, request@, answers@),
        ),
{
    if let Spec::Unsupported(spec) = &request.spec {
        return if request.optional {
            Chosen::Skipped(
                request.name.clone(),
                joined_text("unsupported specifier ", text::quote(spec.as_str()).as_str()),
            )
        } else {
            Chosen::Failed(
                ResolveError::UnsupportedSpec { name: request.name.clone(), spec: spec.clone() },
            )
        };
    }
    if let Some(version) = reuse(packages, request) {
        return Chosen::Selected(version);
    }
    match answers.get(&request.name) {
        None => Chosen::Unasked,
        Some(Answer::Found(packument)) => choose_from(packages, request, packument),
        Some(Answer::Refused(error)) => {
            if let RegistryError::NotFound(name) = error {
                if request.optional {
                    return Chosen::Skipped(name.clone(), "not in the registry".to_string());
                }
            }
            Chosen::Failed(ResolveError::Registry(error.clone()))
        },
    }
}

fn has_edge(list: &Vec<ResolvedEdge>, edge: &ResolvedEdge) -> (r: bool)
    ensures
        r == edges(list@).contains(edge@),
{
    let ghost all = edges(list@);
    let mut i: usize = 0;
    while i < list.len()
        invariant
            i <= list@.len(),
            all == edges(list@),
            forall|j: int| 0 <= j < i ==> #[trigger] all[j] != edge@,
        decreases list@.len() - i,
    {
        assert(all[i as int] == list@[i as int]@);
        if text::same_text(list[i].name.as_str(), edge.name.as_str()) && text::same_text(
            list[i].spec.as_str(),
            edge.spec.as_str(),
        ) && same_version(&list[i].version, &edge.version) {
            return true;
        }
        i += 1;
    }
    false
}

fn link(
    packages: &mut SortedMap<PackageId, ResolvedPackage>,
    parent: &PackageId,
    edge: ResolvedEdge,
)
    ensures
        final(packages)@ == linked(old(packages)@, parent@, edge@),
{
    let found = match packages.get(parent) {
        Some(package) => package.clone(),
        None => {
            return;
        },
    };
    let mut package = found;
    let ghost before = package@;
    let ghost e = edge@;
    if !has_edge(&package.dependencies, &edge) {
        let mut list = copy_edges(&package.dependencies);
        let ghost done = edges(list@);
        list.push(edge);
        assert(edges(list@) =~= done.push(e));
        package.dependencies = sorted::sort(list);
    }
    assert(package@ =~= ResolvedPackageModel {
        dependencies: with_edge(before.dependencies, e),
        ..before
    });
    packages.insert(parent.clone(), package);
}

/// Queues the requests that requirements make.
fn enqueue(queue: &mut Vec<Request>, parent: Option<&PackageId>, list: &Vec<&Requirement>)
    ensures
        requests(final(queue)@) == requests(old(queue)@) + requests_of(
            match parent {
                Some(id) => Some(id@),
                None => None,
            },
            list@.map_values(|q: &Requirement| q@),
        ),
{
    let ghost before = requests(queue@);
    let ghost by = match parent {
        Some(id) => Some(id@),
        None => None,
    };
    let ghost all = requests_of(by, list@.map_values(|q: &Requirement| q@));
    let mut i: usize = 0;
    assert(before + all.take(0) =~= before);
    while i < list.len()
        invariant
            i <= list@.len(),
            by == match parent {
                Some(id) => Some(id@),
                None => None,
            },
            all == requests_of(by, list@.map_values(|q: &Requirement| q@)),
            requests(queue@) == before + all.take(i as int),
        decreases list@.len() - i,
    {
        let ghost done = requests(queue@);
        let one = Request {
            parent: match parent {
                Some(id) => Some(id.clone()),
                None => None,
            },
            name: list[i].name.clone(),
            spec: list[i].spec.clone(),
            optional: list[i].class.tolerates_absence(),
        };
        queue.push(one);
        proof {
            assert(requests(queue@) =~= done.push(one@));
            assert(one@ == all[i as int]);
            assert(all.take(i + 1) =~= all.take(i as int).push(one@));
            assert(before + all.take(i + 1) =~= (before + all.take(i as int)).push(one@));
        }
        i += 1;
    }
    assert(all.take(i as int) =~= all);
}

fn record(list: &Vec<&Requirement>) -> (out: Vec<RequirementRecord>)
    ensures
        records(out@) == records_of(list@.map_values(|q: &Requirement| q@)),
{
    let ghost all = records_of(list@.map_values(|q: &Requirement| q@));
    let mut out: Vec<RequirementRecord> = Vec::new();
    let mut i: usize = 0;
    assert(records(out@) =~= all.take(0));
    while i < list.len()
        invariant
            i <= list@.len(),
            all == records_of(list@.map_values(|q: &Requirement| q@)),
            records(out@) == all.take(i as int),
        decreases list@.len() - i,
    {
        let ghost done = records(out@);
        let one = RequirementRecord {
            class: list[i].class,
            name: list[i].name.clone(),
            spec: list[i].spec.to_string(),
        };
        out.push(one);
        proof {
            assert(records(out@) =~= done.push(one@));
            assert(one@ == all[i as int]);
            assert(all.take(i + 1) =~= all.take(i as int).push(one@));
        }
        i += 1;
    }
    assert(all.take(i as int) =~= all);
    out
}

impl Resolver {
    /// Queues what the root project asks for.
    pub fn start(root: &Manifest, options: &ResolveOptions) -> (r: Self)
        ensures
            r@ == started(root@, options.include_development),
    {
        let wanted = root.installable(options.include_development);
        let mut queue: Vec<Request> = Vec::new();
        enqueue(&mut queue, None, &wanted);
        let r = Resolver {
            requirements: sorted::sort(record(&wanted)),
            queue,
            packages: SortedMap::new(),
            expanded: SortedMap::new(),
            skipped: Vec::new(),
        };
        proof {
            let goal = started(root@, options.include_development);
            assert(requests(Seq::<Request>::empty()) =~= Seq::empty());
            assert(r@.queue =~= goal.queue);
            assert(r@.skipped =~= goal.skipped);
            assert(r@.packages =~= goal.packages);
            assert(r@.expanded =~= goal.expanded);
        }
        r
    }

    /// Works the first request of the queue off, as far as the registry's answers
    /// allow.
    pub fn step(&mut self, answers: &SortedMap<String, Answer>) -> (r: Progress)
        ensures
            came_to(old(self)@, final(self)@, r, stepped(old(self)@, answers@)),
    {
        let ghost before = self@;
        if self.queue.len() == 0 {
            assert(before.queue.len() == 0);
            return Progress::Done;
        }
        assert(before.queue.len() == self.queue@.len());
        let request = Request {
            parent: match &self.queue[0].parent {
                Some(parent) => Some(parent.clone()),
                None => None,
            },
            name: self.queue[0].name.clone(),
            spec: self.queue[0].spec.clone(),
            optional: self.queue[0].optional,
        };
        assert(request@ =~= before.queue[0]);
        // What the step can need of the registry is looked at before anything
        // changes.
        let answer = answers.get(&request.name);
        let mut packages: SortedMap<PackageId, ResolvedPackage> = SortedMap::new();
        std::mem::swap(&mut self.packages, &mut packages);
        let chosen = choose_version(&mut packages, &request, answers);
        match chosen {
            Chosen::Selected(version) => {
                let id = PackageId::new(request.name.as_str(), version.clone());
                if self.expanded.contains_key(&id) {
                    self.settle(packages, &request, version);
                    assert(self@ =~= stepped(before, answers@)->Stepped_0);
                    return Progress::Stepped;
                }
                match answer {
                    None => {
                        // Nothing was recorded: only the registry's answer lets a
                        // new package in.
                        self.packages = packages;
                        assert(self@ =~= before);
                        Progress::Ask(request.name.clone())
                    },
                    Some(Answer::Refused(error)) => {
                        self.packages = packages;
                        assert(self@ =~= before);
                        Progress::Failed(ResolveError::Registry(error.clone()))
                    },
                    Some(Answer::Found(packument)) => {
                        let ghost v = version@;
                        self.settle(packages, &request, version);
                        let none: Vec<&Requirement> = Vec::new();
                        let list = match packument.version(&id.version) {
                            Some(metadata) => metadata.manifest.installable(false),
                            None => none,
                        };
                        assert(list@.map_values(|q: &Requirement| q@) =~= dependencies_in(
                            packument@,
                            v,
                        ));
                        enqueue(&mut self.queue, Some(&id), &list);
                        self.expanded.insert(id, ());
                        assert(self@ =~= stepped(before, answers@)->Stepped_0);
                        Progress::Stepped
                    },
                }
            },
            Chosen::Skipped(name, reason) => {
                self.packages = packages;
                let _ = self.queue.remove(0);
                let ghost done = text_pairs(self.skipped@);
                let ghost one = (name@, reason@);
                self.skipped.push((name, reason));
                proof {
                    assert(requests(self.queue@) =~= before.queue.skip(1));
                    assert(text_pairs(self.skipped@) =~= done.push(one));
                    assert(self@ =~= stepped(before, answers@)->Stepped_0);
                }
                Progress::Stepped
            },
            Chosen::Failed(error) => {
                self.packages = packages;
                assert(self@ =~= before);
                Progress::Failed(error)
            },
            Chosen::Unasked => {
                self.packages = packages;
                assert(self@ =~= before);
                Progress::Ask(request.name.clone())
            },
            Chosen::Dangling => {
                self.packages = packages;
                assert(self@ =~= before);
                Progress::Dangling { name: request.name.clone(), spec: request.spec.to_string() }
            },
        }
    }

    /// Takes the first request off the queue and records its edge.
    fn settle(
        &mut self,
        packages: SortedMap<PackageId, ResolvedPackage>,
        request: &Request,
        version: Version,
    )
        requires
            old(self)@.queue.len() > 0,
        ensures
            final(self)@ == (ResolverModel {
                queue: old(self)@.queue.skip(1),
                packages: recorded(packages@, request@, version@),
                ..old(self)@
            }),
            final(self).expanded == old(self).expanded,
    {
        let ghost before = self@;
        assert(before.queue.len() == self.queue@.len());
        let mut packages = packages;
        if let Some(parent) = &request.parent {
            link(
                &mut packages,
                parent,
                ResolvedEdge {
                    name: request.name.clone(),
                    spec: request.spec.to_string(),
                    version,
                },
            );
        }
        self.packages = packages;
        let _ = self.queue.remove(0);
        assert(requests(self.queue@) =~= before.queue.skip(1));
    }

    /// The resolution, once nothing is left to do.
    pub fn finish(self) -> (r: Resolution)
        ensures
            r@ == (ResolutionModel {
                requirements: self@.requirements,
                packages: self@.packages,
                skipped: self@.skipped,
            }),
    {
        Resolution {
            requirements: self.requirements,
            packages: self.packages,
            skipped: self.skipped,
        }
    }
}

/// Whether two lists of records are the same.
fn same_records(a: &Vec<RequirementRecord>, b: &Vec<RequirementRecord>) -> (r: bool)
    ensures
        r == (records(a@) == records(b@)),
{
    let ghost x = records(a@);
    let ghost y = records(b@);
    assert(x.len() == a@.len() && y.len() == b@.len());
    if a.len() != b.len() {
        return false;
    }
    let mut i: usize = 0;
    while i < a.len()
        invariant
            a@.len() == b@.len(),
            i <= a@.len(),
            x == records(a@),
            y == records(b@),
            forall|j: int| 0 <= j < i ==> x[j] == y[j],
        decreases a@.len() - i,
    {
        assert(x[i as int] == a@[i as int]@ && y[i as int] == b@[i as int]@);
        if a[i].class != b[i].class || !text::same_text(a[i].name.as_str(), b[i].name.as_str())
            || !text::same_text(a[i].spec.as_str(), b[i].spec.as_str()) {
            return false;
        }
        i += 1;
    }
    assert(x =~= y);
    true
}

/// Whether a lockfile still describes what `package.json` asks for.
pub fn requirements_match(
    resolution: &Resolution,
    manifest: &Manifest,
    include_development: bool,
) -> (r: bool)
    ensures
        r == (declared_records(manifest@, include_development) == resolution@.requirements),
{
    let wanted = manifest.installable(include_development);
    let declared = sorted::sort(record(&wanted));
    same_records(&declared, &resolution.requirements)
}

/// Whether a range is satisfied by a version that was chosen for another one.
pub fn satisfied_by(range: &Range, version: &Version) -> (r: bool)
    ensures
        r == semver::range_takes(range@, version@),
{
    range.satisfies(version)
}

// ---------------------------------------------------------------------------
// Laws.

/// A specifier that means what it says: its text reads back as the same range,
/// or as none. Every specifier that `Spec::parse` returns is one.
pub open spec fn honest(spec: SpecModel) -> bool {
    match spec {
        SpecModel::Range(range) => semver::range_of(range.raw) == Some(range),
        SpecModel::Tag(tag) => semver::range_of(tag) is None,
        SpecModel::Unsupported(given) => semver::range_of(given) is None,
    }
}

/// Parsed specifiers are honest.
pub proof fn parsed_specs_are_honest(given: Seq<char>)
    ensures
        honest(manifest::spec_of(given)),
{
    let s = text::trimmed(given);
    text::lemma_trimmed_ends(given);
    text::lemma_trimmed_same(s);
    if let Some(range) = semver::range_of(s) {
        assert(text::trimmed(s) == s);
        if s.len() == 0 {
            semver::empty_range_is_any(s);
        }
    }
}

/// Reading the text of a specifier that was read gives the specifier back.
pub proof fn specs_read_back(given: Seq<char>)
    ensures
        manifest::spec_of(manifest::spec_text(manifest::spec_of(given))) == manifest::spec_of(given),
{
    let s = text::trimmed(given);
    parsed_specs_are_honest(given);
    text::lemma_trimmed_ends(given);
    text::lemma_trimmed_same(s);
    if let SpecModel::Range(range) = manifest::spec_of(given) {
        text::lemma_trimmed_ends(s);
        if s.len() == 0 {
            reveal_strlit("*");
            text::lemma_trimmed_same("*"@);
        }
        text::lemma_trimmed_same(range.raw);
    }
}

/// An edge whose specifier is a range leads to a version in that range.
pub open spec fn edge_satisfied(edge: EdgeModel) -> bool {
    semver::range_of(edge.spec) matches Some(range) ==> semver::range_takes(range, edge.version)
}

/// A package whose edges all lead to packages that are there and are what was
/// asked for.
pub open spec fn sound_package(packages: Packages, package: ResolvedPackageModel) -> bool {
    forall|k: int|
        0 <= k < package.dependencies.len() ==> sorted::holds(
            packages,
            edge_target(#[trigger] package.dependencies[k]),
        ) && edge_satisfied(package.dependencies[k])
}

/// Packages that are in order and sound.
pub open spec fn sound(packages: Packages) -> bool {
    &&& sorted::ascending(packages)
    &&& forall|id: PackageIdModel|
        (#[trigger] sorted::lookup(packages, id)) matches Some(package) ==> sound_package(
            packages,
            package,
        )
}

/// Answers whose packuments hold honest specifiers only.
pub open spec fn honest_answers(answers: Answers) -> bool {
    forall|name: Seq<char>, version: VersionModel, k: int|
        (sorted::lookup(answers, name) matches Some(AnswerModel::Found(packument)) && 0 <= k
            < dependencies_in(packument, version).len()) ==> honest(
            (#[trigger] dependencies_in(
                sorted::lookup(answers, name)->0->Found_0,
                version,
            )[k]).spec,
        )
}

/// Whether a requirement of a package was resolved, is still queued, or need not
/// be there.
pub open spec fn accounted_for(
    state: ResolverModel,
    id: PackageIdModel,
    r: RequirementModel,
) -> bool {
    ||| manifest::absence_is_tolerated(r.class)
    ||| state.queue.contains(requests_of(Some(id), seq![r])[0])
    ||| has_edge_for(state.packages, id, r)
}

/// Whether a package has an edge for a requirement.
pub open spec fn has_edge_for(
    packages: Packages,
    id: PackageIdModel,
    r: RequirementModel,
) -> bool {
    sorted::lookup(packages, id) matches Some(package) && exists|k: int|
        0 <= k < package.dependencies.len() && (#[trigger] package.dependencies[k]).name == r.name
            && package.dependencies[k].spec == manifest::spec_text(r.spec)
}

/// Whether every requirement of every expanded package is accounted for.
pub open spec fn complete(state: ResolverModel, answers: Answers) -> bool {
    forall|i: int, k: int|
        #![trigger expanded_requirement(state, answers, i, k)]
        0 <= i < state.expanded.len() && 0 <= k < expanded_requirements(
            state,
            answers,
            i,
        ).len() ==> accounted_for(
            state,
            state.expanded[i].0,
            expanded_requirement(state, answers, i, k),
        )
}

/// What an expanded package asks for.
pub open spec fn expanded_requirements(
    state: ResolverModel,
    answers: Answers,
    i: int,
) -> Seq<RequirementModel> {
    match sorted::lookup(answers, state.expanded[i].0.name) {
        Some(AnswerModel::Found(packument)) => dependencies_in(
            packument,
            state.expanded[i].0.version,
        ),
        _ => Seq::empty(),
    }
}

/// One thing that an expanded package asks for.
pub open spec fn expanded_requirement(
    state: ResolverModel,
    answers: Answers,
    i: int,
    k: int,
) -> RequirementModel {
    expanded_requirements(state, answers, i)[k]
}

/// What every state of a resolution keeps: packages are sound, whoever queued a
/// request is recorded, the recorded packages are the expanded ones, and nothing
/// that an expanded package needs is lost.
pub open spec fn consistent(state: ResolverModel, answers: Answers) -> bool {
    &&& sound(state.packages)
    &&& sorted::ascending(state.expanded)
    &&& queue_is_ready(state.queue, state.packages)
    &&& covers(state.expanded, state.packages)
    &&& covers(state.packages, state.expanded)
    &&& complete(state, answers)
}

/// Every queued specifier is honest, and whoever queued a request is recorded.
pub open spec fn queue_is_ready(queue: Seq<RequestModel>, packages: Packages) -> bool {
    forall|k: int|
        0 <= k < queue.len() ==> honest((#[trigger] queue[k]).spec) && (
        queue[k].parent matches Some(parent) ==> sorted::holds(packages, parent))
}

/// Every key of the second map is a key of the first.
#[verifier::opaque]
pub open spec fn covers<V, W>(
    entries: Seq<(PackageIdModel, V)>,
    others: Seq<(PackageIdModel, W)>,
) -> bool {
    forall|i: int| 0 <= i < others.len() ==> sorted::holds(entries, (#[trigger] others[i]).0)
}

/// What is wanted was declared.
pub proof fn lemma_wanted_from(list: Seq<RequirementModel>, include_development: bool)
    ensures
        forall|k: int|
            0 <= k < manifest::wanted(list, include_development).len() ==> list.contains(
                #[trigger] manifest::wanted(list, include_development)[k],
            ),
    decreases list.len(),
{
    if list.len() > 0 {
        let front = list.drop_last();
        lemma_wanted_from(front, include_development);
        let all = manifest::wanted(list, include_development);
        let before = manifest::wanted(front, include_development);
        assert forall|k: int| 0 <= k < all.len() implies list.contains(#[trigger] all[k]) by {
            if k < before.len() {
                assert(all[k] == before[k]);
                assert(front.contains(before[k]));
                let j = choose|j: int| 0 <= j < front.len() && front[j] == before[k];
                assert(list[j] == all[k]);
            } else {
                assert(list[list.len() - 1] == all[k]);
            }
        }
    }
}

/// A resolution starts consistent.
pub proof fn a_resolution_starts_consistent(
    root: ManifestModel,
    include_development: bool,
    answers: Answers,
)
    requires
        forall|k: int|
            0 <= k < root.requirements.len() ==> honest((#[trigger] root.requirements[k]).spec),
    ensures
        consistent(started(root, include_development), answers),
{
    let state = started(root, include_development);
    let list = manifest::wanted(root.requirements, include_development);
    lemma_wanted_from(root.requirements, include_development);
    assert forall|k: int| 0 <= k < state.queue.len() implies honest(
        (#[trigger] state.queue[k]).spec,
    ) && (state.queue[k].parent matches Some(parent) ==> sorted::holds(
        state.packages,
        parent,
    )) by {
        assert(state.queue[k].spec == list[k].spec);
        assert(root.requirements.contains(list[k]));
    }
    assert(queue_is_ready(state.queue, state.packages));
    reveal(covers);
    assert(sound(state.packages));
}

/// A version of a name is that of a package.
pub proof fn lemma_versions_named(packages: Packages, name: Seq<char>, k: int) -> (i: int)
    requires
        0 <= k < versions_named(packages, name).len(),
    ensures
        0 <= i < packages.len(),
        packages[i].0 == (PackageIdModel { name, version: versions_named(packages, name)[k] }),
    decreases packages.len(),
{
    let front = versions_named(packages.drop_last(), name);
    if k < front.len() {
        let i = lemma_versions_named(packages.drop_last(), name, k);
        assert(packages.drop_last()[i] == packages[i]);
        i
    } else {
        packages.len() - 1
    }
}

/// A selected version is recorded, satisfies the range that asked for it, and
/// nothing that was recorded is lost.
pub proof fn lemma_selected(packages: Packages, request: RequestModel, answers: Answers)
    requires
        sound(packages),
    ensures
        select(packages, request, answers) matches Selection::Selected {
            version,
            packages: after,
        } ==> {
            let id = PackageIdModel { name: request.name, version };
            &&& sound(after)
            &&& sorted::holds(after, id)
            &&& request.spec matches SpecModel::Range(range) ==> semver::range_takes(
                range,
                version,
            )
            &&& !(request.spec is Unsupported)
            &&& after == packages || (!sorted::holds(packages, id) && exists|p: ResolvedPackageModel|
                after == #[trigger] sorted::put(packages, id, p) && p.dependencies.len() == 0)
            &&& after != packages ==> (sorted::lookup(answers, request.name) matches Some(
                AnswerModel::Found(packument),
            ))
        },
{
    if let Selection::Selected { version, packages: after } = select(packages, request, answers) {
        let id = PackageIdModel { name: request.name, version };
        match reusable(packages, request) {
            Some(found) => {
                let range = request.spec->Range_0;
                let chosen = versions_named(packages, request.name);
                semver::highest_is_the_maximum(range, chosen);
                let at = semver::highest(range, chosen)->0;
                let i = lemma_versions_named(packages, request.name, at);
                sorted::lemma_holds_at(packages, id, i);
            },
            None => {
                let packument = sorted::lookup(answers, request.name)->0->Found_0;
                if let SpecModel::Range(range) = request.spec {
                    semver::highest_is_the_maximum(range, keys(packument.versions));
                }
                if !sorted::holds(packages, id) {
                    let metadata = sorted::lookup(packument.versions, version)->0;
                    let fresh = fresh_package(id, metadata);
                    assert(after == sorted::put(packages, id, fresh));
                    lemma_put_sound(packages, id, fresh);
                    sorted::lemma_put_lookup(packages, id, fresh, id);
                }
            },
        }
    }
}

/// Storing a package whose edges are sound keeps everything sound.
proof fn lemma_put_sound(packages: Packages, id: PackageIdModel, package: ResolvedPackageModel)
    requires
        sound(packages),
        forall|k: int|
            0 <= k < package.dependencies.len() ==> (sorted::holds(
                packages,
                edge_target(#[trigger] package.dependencies[k]),
            ) || edge_target(package.dependencies[k]).rank() == id.rank()) && edge_satisfied(
                package.dependencies[k],
            ),
    ensures
        sound(sorted::put(packages, id, package)),
        forall|other: PackageIdModel|
            #[trigger] sorted::holds(packages, other) ==> sorted::holds(
                sorted::put(packages, id, package),
                other,
            ),
{
    let after = sorted::put(packages, id, package);
    sorted::lemma_put_ascending(packages, id, package);
    assert forall|other: PackageIdModel| #[trigger]
        sorted::holds(packages, other) implies sorted::holds(after, other) by {
        sorted::lemma_put_lookup(packages, id, package, other);
        assert(sorted::lookup(packages, other) is Some);
        assert(sorted::lookup(after, other) is Some);
    }
    sorted::lemma_put_lookup(packages, id, package, id);
    assert(sorted::holds(after, id));
    assert forall|other: PackageIdModel|
        (#[trigger] sorted::lookup(after, other)) is Some implies sound_package(
        after,
        sorted::lookup(after, other)->0,
    ) by {
        sorted::lemma_put_lookup(packages, id, package, other);
        let found = sorted::lookup(after, other)->0;
        assert forall|k: int| 0 <= k < found.dependencies.len() implies sorted::holds(
            after,
            edge_target(#[trigger] found.dependencies[k]),
        ) && edge_satisfied(found.dependencies[k]) by {
            let target = edge_target(found.dependencies[k]);
            if other.rank() == id.rank() {
                if target.rank() == id.rank() {
                    sorted::lemma_put_lookup(packages, id, package, target);
                    assert(sorted::lookup(after, target) is Some);
                }
            } else {
                assert(sound_package(packages, found));
            }
            if sorted::holds(packages, target) {
                assert(sorted::holds(after, target));
            }
        }
    }
}

/// What is in a list stays in it when an edge is added.
proof fn lemma_with_edge(dependencies: Seq<EdgeModel>, edge: EdgeModel)
    ensures
        with_edge(dependencies, edge).contains(edge),
        forall|e: EdgeModel|
            with_edge(dependencies, edge).contains(e) ==> e == edge || dependencies.contains(e),
        forall|e: EdgeModel|
            #[trigger] dependencies.contains(e) ==> with_edge(dependencies, edge).contains(e),
{
    if !dependencies.contains(edge) {
        let longer = dependencies.push(edge);
        let all = sorted::stable_sorted(longer);
        sorted::sorting_orders_and_keeps(longer);
        broadcast use vstd::seq_lib::group_to_multiset_ensures;

        assert forall|e: EdgeModel| #[trigger] all.contains(e) <==> longer.contains(e) by {
            assert(all.contains(e) <==> all.to_multiset().count(e) > 0);
            assert(longer.contains(e) <==> longer.to_multiset().count(e) > 0);
        }
        assert(longer[longer.len() - 1] == edge);
        assert(longer.contains(edge));
        assert forall|e: EdgeModel| longer.contains(e) implies e == edge || dependencies.contains(
            e,
        ) by {
            let k = choose|k: int| 0 <= k < longer.len() && longer[k] == e;
            if k < dependencies.len() {
                assert(dependencies[k] == e);
            }
        }
        assert forall|e: EdgeModel| #[trigger] dependencies.contains(e) implies all.contains(e) by {
            let k = choose|k: int| 0 <= k < dependencies.len() && dependencies[k] == e;
            assert(longer[k] == e);
            assert(longer.contains(e));
        }
    }
}

/// Adding a sound edge keeps everything sound, and no edge is lost.
pub proof fn lemma_linked(packages: Packages, parent: PackageIdModel, edge: EdgeModel)
    requires
        sound(packages),
        sorted::holds(packages, edge_target(edge)),
        edge_satisfied(edge),
    ensures
        sound(linked(packages, parent, edge)),
        forall|other: PackageIdModel|
            #[trigger] sorted::holds(packages, other) <==> sorted::holds(
                linked(packages, parent, edge),
                other,
            ),
        linked(packages, parent, edge).len() == packages.len(),
        forall|i: int|
            0 <= i < packages.len() ==> (#[trigger] linked(packages, parent, edge)[i]).0
                == packages[i].0,
        forall|id: PackageIdModel, r: RequirementModel|
            has_edge_for(packages, id, r) ==> #[trigger] has_edge_for(
                linked(packages, parent, edge),
                id,
                r,
            ),
        forall|r: RequirementModel|
            sorted::holds(packages, parent) && r.name == edge.name && manifest::spec_text(r.spec)
                == edge.spec ==> #[trigger] has_edge_for(
                linked(packages, parent, edge),
                parent,
                r,
            ),
{
    if let Some(package) = sorted::lookup(packages, parent) {
        let after = linked(packages, parent, edge);
        let fuller = ResolvedPackageModel {
            dependencies: with_edge(package.dependencies, edge),
            ..package
        };
        assert(after == sorted::put(packages, parent, fuller));
        lemma_with_edge(package.dependencies, edge);
        assert(sound_package(packages, package));
        assert forall|k: int| 0 <= k < fuller.dependencies.len() implies (sorted::holds(
            packages,
            edge_target(#[trigger] fuller.dependencies[k]),
        ) || edge_target(fuller.dependencies[k]).rank() == parent.rank()) && edge_satisfied(
            fuller.dependencies[k],
        ) by {
            let e = fuller.dependencies[k];
            assert(fuller.dependencies.contains(e));
            if e != edge {
                assert(package.dependencies.contains(e));
                let j = choose|j: int|
                    0 <= j < package.dependencies.len() && package.dependencies[j] == e;
                assert(sorted::holds(packages, edge_target(package.dependencies[j])));
            }
        }
        lemma_put_sound(packages, parent, fuller);
        sorted::lemma_slot(packages, parent);
        assert forall|other: PackageIdModel|
            #[trigger] sorted::holds(packages, other) <==> sorted::holds(after, other) by {
            sorted::lemma_put_lookup(packages, parent, fuller, other);
            sorted::lemma_put_lookup(packages, parent, fuller, parent);
            if other.rank() == parent.rank() {
                let at = sorted::slot(packages, parent) as int;
                sorted::lemma_holds_at(packages, other, at);
            }
            assert(sorted::holds(packages, other) <==> sorted::lookup(packages, other) is Some);
            assert(sorted::holds(after, other) <==> sorted::lookup(after, other) is Some);
        }
        assert forall|id: PackageIdModel, r: RequirementModel|
            has_edge_for(packages, id, r) implies #[trigger] has_edge_for(after, id, r) by {
            sorted::lemma_put_lookup(packages, parent, fuller, id);
            let p = sorted::lookup(packages, id)->0;
            let k = choose|k: int|
                0 <= k < p.dependencies.len() && (#[trigger] p.dependencies[k]).name == r.name
                    && p.dependencies[k].spec == manifest::spec_text(r.spec);
            if id.rank() == parent.rank() {
                let at = sorted::slot(packages, parent) as int;
                sorted::lemma_holds_at(packages, id, at);
                assert(p == package);
                assert(package.dependencies.contains(p.dependencies[k]));
                assert(fuller.dependencies.contains(p.dependencies[k]));
                let j = choose|j: int|
                    0 <= j < fuller.dependencies.len() && fuller.dependencies[j]
                        == p.dependencies[k];
                assert(fuller.dependencies[j].name == r.name);
            }
        }
        assert forall|r: RequirementModel|
            r.name == edge.name && manifest::spec_text(r.spec) == edge.spec
            implies #[trigger] has_edge_for(after, parent, r) by {
            sorted::lemma_put_lookup(packages, parent, fuller, parent);
            let j = choose|j: int|
                0 <= j < fuller.dependencies.len() && fuller.dependencies[j] == edge;
            assert(fuller.dependencies[j].name == r.name);
        }
    }
}

/// Each step either works a request off or expands a package that was not
/// expanded before, so a dependency cycle cannot keep a resolution going.
pub proof fn every_step_makes_progress(state: ResolverModel, answers: Answers)
    ensures
        stepped(state, answers) matches Outcome::Stepped(next) ==> (next.expanded
            == state.expanded && next.queue.len() == state.queue.len() - 1)
            || next.expanded.len() == state.expanded.len() + 1,
{
    if let Outcome::Stepped(next) = stepped(state, answers) {
        if let Selection::Selected { version, packages } = select(
            state.packages,
            state.queue[0],
            answers,
        ) {
            let id = PackageIdModel { name: state.queue[0].name, version };
            sorted::lemma_slot(state.expanded, id);
        }
    }
}

/// Every step keeps a resolution consistent.
pub proof fn steps_keep_a_resolution_consistent(state: ResolverModel, answers: Answers)
    requires
        consistent(state, answers),
        honest_answers(answers),
    ensures
        stepped(state, answers) matches Outcome::Stepped(next) ==> consistent(next, answers),
{
    if let Outcome::Stepped(next) = stepped(state, answers) {
        let request = state.queue[0];
        lemma_selected(state.packages, request, answers);
        match select(state.packages, request, answers) {
            Selection::Selected { version, packages } => {
                lemma_expand_consistent(state, request, version, packages, answers, next);
            },
            Selection::Skipped { name, reason } => {
                assert forall|k: int| 0 <= k < next.queue.len() implies honest(
                    (#[trigger] next.queue[k]).spec,
                ) && (next.queue[k].parent matches Some(parent) ==> sorted::holds(
                    next.packages,
                    parent,
                )) by {
                    assert(next.queue[k] == state.queue[k + 1]);
                }
                lemma_skip_complete(state, answers, next);
            },
            _ => {},
        }
    }
}

/// Only a request that need not succeed is skipped, so nothing is lost.
proof fn lemma_skip_complete(state: ResolverModel, answers: Answers, next: ResolverModel)
    requires
        complete(state, answers),
        state.queue.len() > 0,
        state.queue[0].optional,
        next.queue == state.queue.skip(1),
        next.packages == state.packages,
        next.expanded == state.expanded,
    ensures
        complete(next, answers),
{
    assert forall|i: int, k: int|
        #![trigger expanded_requirement(next, answers, i, k)]
        0 <= i < next.expanded.len() && 0 <= k < expanded_requirements(
            next,
            answers,
            i,
        ).len() implies accounted_for(
        next,
        next.expanded[i].0,
        expanded_requirement(next, answers, i, k),
    ) by {
        let r = expanded_requirement(state, answers, i, k);
        let id = state.expanded[i].0;
        assert(accounted_for(state, id, r));
        let one = requests_of(Some(id), seq![r])[0];
        if state.queue.contains(one) && !manifest::absence_is_tolerated(r.class) {
            let j = choose|j: int| 0 <= j < state.queue.len() && state.queue[j] == one;
            assert(j != 0);
            assert(next.queue[j - 1] == one);
        }
    }
}

proof fn lemma_expand_consistent(
    state: ResolverModel,
    request: RequestModel,
    version: VersionModel,
    packages: Packages,
    answers: Answers,
    next: ResolverModel,
)
    requires
        consistent(state, answers),
        honest_answers(answers),
        state.queue.len() > 0,
        request == state.queue[0],
        select(state.packages, request, answers) == (Selection::Selected { version, packages }),
        expand(state, request, version, packages, answers) == Outcome::Stepped(next),
    ensures
        consistent(next, answers),
{
    lemma_selected(state.packages, request, answers);
    let id = PackageIdModel { name: request.name, version };
    let edge = EdgeModel {
        name: request.name,
        spec: manifest::spec_text(request.spec),
        version,
    };
    assert(honest(request.spec));
    assert(edge_satisfied(edge));
    assert(edge_target(edge) == id);
    let p = choose|p: ResolvedPackageModel|
        packages == #[trigger] sorted::put(state.packages, id, p) && p.dependencies.len() == 0;
    let after = next.packages;
    assert(after == recorded(packages, request, version));
    lemma_expand_keys(
        state.packages,
        state.expanded,
        request,
        version,
        packages,
        next.expanded,
        p,
        edge,
    );
    let fresh = if sorted::holds(state.expanded, id) {
        Seq::empty()
    } else {
        requests_of(
            Some(id),
            dependencies_in(sorted::lookup(answers, request.name)->0->Found_0, version),
        )
    };
    assert(next.queue =~= state.queue.skip(1) + fresh);
    lemma_queue_is_ready(state, request, version, answers, next, fresh);
    lemma_expand_complete(state, request, version, packages, answers, next, fresh, p);
}

/// What a step does to the keys of both maps.
proof fn lemma_expand_keys(
    before: Packages,
    expanded: Seq<(PackageIdModel, ())>,
    request: RequestModel,
    version: VersionModel,
    packages: Packages,
    expanded_after: Seq<(PackageIdModel, ())>,
    p: ResolvedPackageModel,
    edge: EdgeModel,
)
    requires
        sorted::ascending(before),
        sorted::ascending(expanded),
        covers(expanded, before),
        covers(before, expanded),
        sound(packages),
        packages == before || packages == sorted::put(
            before,
            PackageIdModel { name: request.name, version },
            p,
        ),
        edge == (EdgeModel {
            name: request.name,
            spec: manifest::spec_text(request.spec),
            version,
        }),
        sorted::holds(packages, edge_target(edge)),
        edge_satisfied(edge),
        expanded_after == if sorted::holds(
            expanded,
            PackageIdModel { name: request.name, version },
        ) {
            expanded
        } else {
            sorted::put(expanded, PackageIdModel { name: request.name, version }, ())
        },
    ensures
        sound(recorded(packages, request, version)),
        sorted::ascending(expanded_after),
        covers(expanded_after, recorded(packages, request, version)),
        covers(recorded(packages, request, version), expanded_after),
        sorted::holds(recorded(packages, request, version), edge_target(edge)),
        forall|other: PackageIdModel| #[trigger]
            sorted::holds(before, other) ==> sorted::holds(
                recorded(packages, request, version),
                other,
            ),
{
    let id = PackageIdModel { name: request.name, version };
    let after = recorded(packages, request, version);
    assert(edge_target(edge) == id);
    lemma_covers(before, expanded, id, packages, expanded_after, p);
    lemma_recorded(packages, request, version, edge);
    lemma_covers_recorded(packages, after, expanded_after);
    assert forall|other: PackageIdModel| #[trigger]
        sorted::holds(before, other) implies sorted::holds(after, other) by {
        lemma_still_recorded(before, id, packages, p, other);
        assert(sorted::holds(packages, other));
    }
}

/// What recording an edge keeps.
proof fn lemma_recorded(
    packages: Packages,
    request: RequestModel,
    version: VersionModel,
    edge: EdgeModel,
)
    requires
        sound(packages),
        edge == (EdgeModel {
            name: request.name,
            spec: manifest::spec_text(request.spec),
            version,
        }),
        sorted::holds(packages, edge_target(edge)),
        edge_satisfied(edge),
    ensures
        sound(recorded(packages, request, version)),
        forall|other: PackageIdModel|
            #[trigger] sorted::holds(packages, other) <==> sorted::holds(
                recorded(packages, request, version),
                other,
            ),
        recorded(packages, request, version).len() == packages.len(),
        forall|i: int|
            0 <= i < packages.len() ==> (#[trigger] recorded(packages, request, version)[i]).0
                == packages[i].0,
        forall|id: PackageIdModel, r: RequirementModel|
            has_edge_for(packages, id, r) ==> #[trigger] has_edge_for(
                recorded(packages, request, version),
                id,
                r,
            ),
{
    if let Some(parent) = request.parent {
        lemma_linked(packages, parent, edge);
    }
}

/// What is queued stays ready, and what a new package queues is.
proof fn lemma_queue_is_ready(
    state: ResolverModel,
    request: RequestModel,
    version: VersionModel,
    answers: Answers,
    next: ResolverModel,
    fresh: Seq<RequestModel>,
)
    requires
        queue_is_ready(state.queue, state.packages),
        honest_answers(answers),
        state.queue.len() > 0,
        next.queue == state.queue.skip(1) + fresh,
        forall|other: PackageIdModel| #[trigger]
            sorted::holds(state.packages, other) ==> sorted::holds(next.packages, other),
        sorted::holds(next.packages, PackageIdModel { name: request.name, version }),
        fresh.len() == 0 || (sorted::lookup(answers, request.name) matches Some(
            AnswerModel::Found(packument),
        ) && fresh == requests_of(
            Some(PackageIdModel { name: request.name, version }),
            dependencies_in(packument, version),
        )),
    ensures
        queue_is_ready(next.queue, next.packages),
{
    assert forall|k: int| 0 <= k < next.queue.len() implies honest((#[trigger] next.queue[k]).spec)
        && (next.queue[k].parent matches Some(parent) ==> sorted::holds(
        next.packages,
        parent,
    )) by {
        let old_len = state.queue.len() - 1;
        if k < old_len {
            assert(next.queue[k] == state.queue[k + 1]);
        } else {
            let packument = sorted::lookup(answers, request.name)->0->Found_0;
            let list = dependencies_in(packument, version);
            assert(next.queue[k] == fresh[k - old_len]);
            assert(next.queue[k].spec == list[k - old_len].spec);
        }
    }
}

/// The recorded packages are the expanded ones.
proof fn lemma_covers(
    recorded_before: Packages,
    expanded: Seq<(PackageIdModel, ())>,
    id: PackageIdModel,
    packages: Packages,
    expanded_after: Seq<(PackageIdModel, ())>,
    p: ResolvedPackageModel,
)
    requires
        sorted::ascending(recorded_before),
        sorted::ascending(expanded),
        covers(expanded, recorded_before),
        covers(recorded_before, expanded),
        packages == recorded_before || packages == sorted::put(recorded_before, id, p),
        sorted::holds(packages, id),
        expanded_after == if sorted::holds(expanded, id) {
            expanded
        } else {
            sorted::put(expanded, id, ())
        },
    ensures
        sorted::ascending(expanded_after),
        covers(expanded_after, packages),
        covers(packages, expanded_after),
{
    sorted::lemma_put_ascending(expanded, id, ());
    lemma_larger_covers(expanded, recorded_before, id, ());
    lemma_larger_covers(recorded_before, expanded, id, p);
    lemma_covers_larger(expanded_after, recorded_before, id, p);
    lemma_covers_larger(packages, expanded, id, ());
}

/// Recording an edge changes no key.
proof fn lemma_covers_recorded(
    packages: Packages,
    after: Packages,
    expanded: Seq<(PackageIdModel, ())>,
)
    requires
        covers(expanded, packages),
        covers(packages, expanded),
        after.len() == packages.len(),
        forall|i: int| 0 <= i < packages.len() ==> (#[trigger] after[i]).0 == packages[i].0,
        forall|other: PackageIdModel|
            sorted::holds(packages, other) ==> #[trigger] sorted::holds(after, other),
    ensures
        covers(expanded, after),
        covers(after, expanded),
{
    assert(covers(expanded, after)) by {
        reveal(covers);
        assert forall|i: int| 0 <= i < after.len() implies sorted::holds(
            expanded,
            (#[trigger] after[i]).0,
        ) by {
            assert(sorted::holds(expanded, packages[i].0));
        }
    }
    assert(covers(after, expanded)) by {
        reveal(covers);
        assert forall|i: int| 0 <= i < expanded.len() implies sorted::holds(
            after,
            (#[trigger] expanded[i]).0,
        ) by {
            assert(sorted::holds(packages, expanded[i].0));
        }
    }
}

/// What was recorded stays recorded.
proof fn lemma_still_recorded(
    before: Packages,
    id: PackageIdModel,
    packages: Packages,
    p: ResolvedPackageModel,
    other: PackageIdModel,
)
    requires
        sorted::ascending(before),
        packages == before || packages == sorted::put(before, id, p),
        sorted::holds(before, other),
    ensures
        sorted::holds(packages, other),
{
    if packages != before {
        sorted::lemma_put_lookup(before, id, p, other);
        assert(sorted::lookup(before, other) is Some);
        assert(sorted::lookup(packages, other) is Some);
    }
}

/// A map with one more key covers what it covered, and the key.
proof fn lemma_larger_covers<V, W>(
    entries: Seq<(PackageIdModel, V)>,
    others: Seq<(PackageIdModel, W)>,
    id: PackageIdModel,
    value: V,
)
    requires
        sorted::ascending(entries),
        covers(entries, others),
    ensures
        covers(sorted::put(entries, id, value), others),
        sorted::holds(sorted::put(entries, id, value), id),
{
    reveal(covers);
    let after = sorted::put(entries, id, value);
    assert forall|i: int| 0 <= i < others.len() implies sorted::holds(
        after,
        (#[trigger] others[i]).0,
    ) by {
        let key = others[i].0;
        sorted::lemma_put_lookup(entries, id, value, key);
        assert(sorted::lookup(entries, key) is Some);
        assert(sorted::lookup(after, key) is Some);
    }
    sorted::lemma_put_lookup(entries, id, value, id);
    assert(sorted::lookup(after, id) is Some);
}

/// What covers a map and holds a key covers the map with that key.
proof fn lemma_covers_larger<V, W>(
    entries: Seq<(PackageIdModel, V)>,
    others: Seq<(PackageIdModel, W)>,
    id: PackageIdModel,
    value: W,
)
    requires
        covers(entries, others),
        sorted::holds(entries, id),
    ensures
        covers(entries, sorted::put(others, id, value)),
{
    reveal(covers);
    sorted::lemma_slot(others, id);
    let at = sorted::slot(others, id) as int;
    let after = sorted::put(others, id, value);
    assert forall|i: int| 0 <= i < after.len() implies sorted::holds(
        entries,
        (#[trigger] after[i]).0,
    ) by {
        if sorted::holds(others, id) {
            assert(after[i].0 == others[i].0);
            assert(sorted::holds(entries, others[i].0));
        } else if i == at {
            assert(after[i].0 == id);
        } else if i < at {
            assert(after[i] == others[i]);
            assert(sorted::holds(entries, others[i].0));
        } else {
            assert(after[i] == others[i - 1]);
            assert(sorted::holds(entries, others[i - 1].0));
        }
    }
}

/// Edges are never lost.
pub proof fn lemma_edges_kept(
    before: Packages,
    id: PackageIdModel,
    packages: Packages,
    p: ResolvedPackageModel,
    other: PackageIdModel,
    r: RequirementModel,
)
    requires
        sorted::ascending(before),
        packages == before || (!sorted::holds(before, id) && packages == sorted::put(
            before,
            id,
            p,
        )),
        has_edge_for(before, other, r),
    ensures
        has_edge_for(packages, other, r),
{
    if packages != before {
        sorted::lemma_put_lookup(before, id, p, other);
        if other.rank() == id.rank() {
            sorted::lemma_slot(before, other);
            sorted::lemma_holds_at(before, id, sorted::slot(before, other) as int);
        }
    }
}

/// The worked-off request left its edge, and a newly expanded package has all of
/// its requirements queued.
proof fn lemma_expand_complete(
    state: ResolverModel,
    request: RequestModel,
    version: VersionModel,
    packages: Packages,
    answers: Answers,
    next: ResolverModel,
    fresh: Seq<RequestModel>,
    p: ResolvedPackageModel,
)
    requires
        complete(state, answers),
        sound(state.packages),
        sound(packages),
        queue_is_ready(state.queue, state.packages),
        state.queue.len() > 0,
        request == state.queue[0],
        packages == state.packages || (!sorted::holds(
            state.packages,
            PackageIdModel { name: request.name, version },
        ) && packages == sorted::put(
            state.packages,
            PackageIdModel { name: request.name, version },
            p,
        )),
        sorted::holds(packages, PackageIdModel { name: request.name, version }),
        edge_satisfied(
            EdgeModel { name: request.name, spec: manifest::spec_text(request.spec), version },
        ),
        next.packages == recorded(packages, request, version),
        next.queue == state.queue.skip(1) + fresh,
        next.expanded == if sorted::holds(
            state.expanded,
            PackageIdModel { name: request.name, version },
        ) {
            state.expanded
        } else {
            sorted::put(state.expanded, PackageIdModel { name: request.name, version }, ())
        },
        !sorted::holds(state.expanded, PackageIdModel { name: request.name, version }) ==> (
        sorted::lookup(answers, request.name) matches Some(AnswerModel::Found(packument))
            && fresh == requests_of(
            Some(PackageIdModel { name: request.name, version }),
            dependencies_in(packument, version),
        )),
    ensures
        complete(next, answers),
{
    let id = PackageIdModel { name: request.name, version };
    sorted::lemma_slot(state.expanded, id);
    let at = sorted::slot(state.expanded, id) as int;
    let new = !sorted::holds(state.expanded, id);
    assert forall|i: int, k: int|
        #![trigger expanded_requirement(next, answers, i, k)]
        0 <= i < next.expanded.len() && 0 <= k < expanded_requirements(
            next,
            answers,
            i,
        ).len() implies accounted_for(
        next,
        next.expanded[i].0,
        expanded_requirement(next, answers, i, k),
    ) by {
        let r = expanded_requirement(next, answers, i, k);
        let key = next.expanded[i].0;
        let one = requests_of(Some(key), seq![r])[0];
        if new && i == at {
            assert(key == id);
            let rest = state.queue.skip(1);
            assert(fresh[k] == one);
            assert(next.queue[rest.len() + k] == one);
            assert(next.queue.contains(one));
        } else {
            let i0 = if new && i > at {
                i - 1
            } else {
                i
            };
            assert(next.expanded[i] == state.expanded[i0]);
            assert(expanded_requirement(state, answers, i0, k) == r);
            assert(accounted_for(state, key, r));
            if !manifest::absence_is_tolerated(r.class) {
                lemma_still_accounted_for(
                    state,
                    request,
                    version,
                    packages,
                    next,
                    p,
                    key,
                    r,
                    fresh,
                );
            }
        }
    }
}

proof fn lemma_still_accounted_for(
    state: ResolverModel,
    request: RequestModel,
    version: VersionModel,
    packages: Packages,
    next: ResolverModel,
    p: ResolvedPackageModel,
    key: PackageIdModel,
    r: RequirementModel,
    fresh: Seq<RequestModel>,
)
    requires
        accounted_for(state, key, r),
        !manifest::absence_is_tolerated(r.class),
        sound(state.packages),
        sound(packages),
        queue_is_ready(state.queue, state.packages),
        state.queue.len() > 0,
        request == state.queue[0],
        packages == state.packages || (!sorted::holds(
            state.packages,
            PackageIdModel { name: request.name, version },
        ) && packages == sorted::put(
            state.packages,
            PackageIdModel { name: request.name, version },
            p,
        )),
        sorted::holds(packages, PackageIdModel { name: request.name, version }),
        edge_satisfied(
            EdgeModel { name: request.name, spec: manifest::spec_text(request.spec), version },
        ),
        next.packages == recorded(packages, request, version),
        next.queue == state.queue.skip(1) + fresh,
    ensures
        accounted_for(next, key, r),
{
    let id = PackageIdModel { name: request.name, version };
    let edge = EdgeModel {
        name: request.name,
        spec: manifest::spec_text(request.spec),
        version,
    };
    assert(edge_target(edge) == id);
    let one = requests_of(Some(key), seq![r])[0];
    if has_edge_for(state.packages, key, r) {
        lemma_edges_kept(state.packages, id, packages, p, key, r);
        lemma_recorded(packages, request, version, edge);
        assert(has_edge_for(next.packages, key, r));
    } else {
        let j = choose|j: int| 0 <= j < state.queue.len() && state.queue[j] == one;
        if j > 0 {
            assert(state.queue.skip(1)[j - 1] == one);
            assert(next.queue[j - 1] == one);
            assert(next.queue.contains(one));
        } else {
            assert(request.parent == Some(key));
            assert(sorted::holds(state.packages, key));
            if packages != state.packages {
                sorted::lemma_put_lookup(state.packages, id, p, key);
                assert(sorted::lookup(packages, key) is Some);
            }
            assert(sorted::holds(packages, key));
            lemma_linked(packages, key, edge);
            assert(has_edge_for(next.packages, key, r));
        }
    }
}

/// A finished resolution is closed: every edge leads to a package of the
/// resolution that is what was asked for, and every requirement of every package
/// that must be there has an edge.
pub proof fn finished_resolutions_are_closed(
    state: ResolverModel,
    answers: Answers,
    id: PackageIdModel,
    r: RequirementModel,
)
    requires
        consistent(state, answers),
        stepped(state, answers) is Done,
    ensures
        sound(state.packages),
        forall|i: int, k: int|
            0 <= i < state.expanded.len() && state.expanded[i].0 == id && 0 <= k
                < expanded_requirements(state, answers, i).len() && #[trigger] expanded_requirement(
                state,
                answers,
                i,
                k,
            ) == r && !manifest::absence_is_tolerated(r.class) ==> has_edge_for(
                state.packages,
                id,
                r,
            ),
{
    assert forall|i: int, k: int|
        0 <= i < state.expanded.len() && state.expanded[i].0 == id && 0 <= k
            < expanded_requirements(state, answers, i).len() && #[trigger] expanded_requirement(
            state,
            answers,
            i,
            k,
        ) == r && !manifest::absence_is_tolerated(r.class) implies has_edge_for(
        state.packages,
        id,
        r,
    ) by {
        assert(accounted_for(state, id, r));
    }
}

proof fn lemma_declared_honest(
    value: JsonModel,
    class: DependencyClass,
    entries: Seq<(Seq<char>, JsonModel)>,
)
    ensures
        forall|k: int|
            0 <= k < manifest::declared(value, class, entries).len() ==> honest(
                (#[trigger] manifest::declared(value, class, entries)[k]).spec,
            ),
    decreases entries.len(),
{
    if entries.len() > 0 {
        lemma_declared_honest(value, class, entries.drop_last());
        let front = manifest::declared(value, class, entries.drop_last());
        let all = manifest::declared(value, class, entries);
        if let JsonModel::Text(spec) = entries.last().1 {
            parsed_specs_are_honest(spec);
            assert forall|k: int| 0 <= k < all.len() implies honest((#[trigger] all[k]).spec) by {
                if k < front.len() {
                    assert(all[k] == front[k]);
                }
            }
        }
    }
}

/// Every specifier of a manifest that was read is honest.
pub proof fn read_manifests_are_honest(value: JsonModel)
    ensures
        forall|k: int|
            0 <= k < manifest::manifest_of(value).requirements.len() ==> honest(
                (#[trigger] manifest::manifest_of(value).requirements[k]).spec,
            ),
{
    let a = manifest::declared(
        value,
        DependencyClass::Runtime,
        json::object_field(value, "dependencies"@),
    );
    let b = manifest::declared(
        value,
        DependencyClass::Development,
        json::object_field(value, "devDependencies"@),
    );
    let c = manifest::declared(
        value,
        DependencyClass::Optional,
        json::object_field(value, "optionalDependencies"@),
    );
    let d = manifest::declared(
        value,
        DependencyClass::Peer,
        json::object_field(value, "peerDependencies"@),
    );
    lemma_declared_honest(
        value,
        DependencyClass::Runtime,
        json::object_field(value, "dependencies"@),
    );
    lemma_declared_honest(
        value,
        DependencyClass::Development,
        json::object_field(value, "devDependencies"@),
    );
    lemma_declared_honest(
        value,
        DependencyClass::Optional,
        json::object_field(value, "optionalDependencies"@),
    );
    lemma_declared_honest(
        value,
        DependencyClass::Peer,
        json::object_field(value, "peerDependencies"@),
    );
    let all = manifest::all_declared(value);
    assert(all == a + b + c + d);
    let list = manifest::manifest_of(value).requirements;
    sorted::sorting_orders_and_keeps(all);
    assert forall|k: int| 0 <= k < list.len() implies honest((#[trigger] list[k]).spec) by {
        let r = list[k];
        broadcast use vstd::seq_lib::group_to_multiset_ensures;

        assert(list.contains(r));
        assert(list.to_multiset().count(r) > 0);
        assert(all.contains(r));
        let j = choose|j: int| 0 <= j < all.len() && all[j] == r;
        let ab = a + b;
        let abc = ab + c;
        if j < a.len() {
            assert(a[j] == r);
        } else if j < ab.len() {
            assert(b[j - a.len()] == r);
        } else if j < abc.len() {
            assert(c[j - ab.len()] == r);
        } else {
            assert(d[j - abc.len()] == r);
        }
    }
}

proof fn lemma_metadata_from(entries: Seq<(Seq<char>, JsonModel)>, version: VersionModel) -> (i:
    int)
    requires
        sorted::lookup(registry::versions_in(entries), version) is Some,
    ensures
        0 <= i < entries.len(),
        sorted::lookup(registry::versions_in(entries), version)->0.manifest
            == manifest::manifest_of(entries[i].1),
    decreases entries.len(),
{
    let front = registry::versions_in(entries.drop_last());
    registry::lemma_versions_ascending(entries.drop_last());
    if entries.len() == 0 {
        0
    } else {
        match registry::metadata_of(entries.last().0, entries.last().1) {
            Some(metadata) => {
                sorted::lemma_put_lookup(front, metadata.version, metadata, version);
                if version.rank() == metadata.version.rank() {
                    entries.len() - 1
                } else {
                    let i = lemma_metadata_from(entries.drop_last(), version);
                    assert(entries.drop_last()[i] == entries[i]);
                    i
                }
            },
            None => {
                let i = lemma_metadata_from(entries.drop_last(), version);
                assert(entries.drop_last()[i] == entries[i]);
                i
            },
        }
    }
}

/// Every specifier of a packument that was read is honest.
pub proof fn read_packuments_are_honest(
    name: Seq<char>,
    value: JsonModel,
    version: VersionModel,
    k: int,
)
    requires
        0 <= k < dependencies_in(registry::packument_of(name, value), version).len(),
    ensures
        honest(dependencies_in(registry::packument_of(name, value), version)[k].spec),
{
    let entries = json::object_field(value, "versions"@);
    let i = lemma_metadata_from(entries, version);
    let list = manifest::manifest_of(entries[i].1).requirements;
    read_manifests_are_honest(entries[i].1);
    lemma_wanted_from(list, false);
    let r = manifest::wanted(list, false)[k];
    assert(list.contains(r));
    let j = choose|j: int| 0 <= j < list.len() && list[j] == r;
    assert(honest(list[j].spec));
}

} // verus!
