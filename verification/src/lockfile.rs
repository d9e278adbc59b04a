//! `opal.lock`: flat, line-oriented, and sorted.
//!
//! One line per fact, fields separated by single spaces, every list sorted.
//! Diffing it in review shows exactly which dependency moved.
//!
//! ```text
//! opal-lock 1
//! require dependency express ^4.18.2
//! pkg accepts 1.3.8 sha512-… https://registry.npmjs.org/accepts/-/accepts-1.3.8.tgz
//! dep express 4.18.2 accepts 1.3.8 ^1.3.8
//! skip fsevents no version satisfies ^2.3.0
//! ```
//!
//! Any field that can contain a space (a range like `>=1 <2`, a skip reason) is
//! last on its line, so no escaping is needed anywhere.

use vstd::prelude::*;
use crate::integrity::{Integrity, IntegrityModel};
use crate::manifest::DependencyClass;
use crate::order::{Order, Rank, Ranked};
use crate::resolve::{
    EdgeModel, PackageId, PackageIdModel, RecordModel, RequirementRecord, Resolution,
    ResolutionModel, ResolvedEdge, ResolvedPackage, ResolvedPackageModel,
};
use crate::semver::{Version, VersionModel};
use crate::sorted::SortedMap;
use crate::{integrity, native, order, resolve, semver, sorted, text};

verus! {

/// Why a lockfile could not be used.
#[derive(PartialEq, Eq, Debug)]
pub enum LockfileError {
    Io { path: String, message: String },
    Malformed { path: String, line: usize, message: String },
    Version { path: String, found: String },
}

/// What is wrong with the text of a lockfile.
#[verifier::ext_equal]
pub enum Fault {
    Malformed { line: nat, message: Seq<char> },
    Version { found: Seq<char> },
}

/// The message for a failure.
pub open spec fn lockfile_error_text(e: LockfileError) -> Seq<char> {
    match e {
        LockfileError::Io { path, message } => path@ + ": "@ + message@,
        LockfileError::Malformed { path, line, message } => path@ + ": line "@ + text::decimal(
            line as nat,
        ) + ": "@ + message@,
        LockfileError::Version { path, found } => path@ + ": lockfile version "@ + found@
            + ", this build writes v1"@,
    }
}

impl LockfileError {
    /// Whether the error says that a text has a fault.
    pub open spec fn says(&self, at: Seq<char>, fault: Fault) -> bool {
        match self {
            LockfileError::Io { path, message } => false,
            LockfileError::Malformed { path, line, message } => path@ == at && fault
                == (Fault::Malformed { line: *line as nat, message: message@ }),
            LockfileError::Version { path, found } => path@ == at && fault == (Fault::Version {
                found: found@,
            }),
        }
    }

    /// The message shown to the user.
    pub fn to_string(&self) -> (r: String)
        ensures
            r@ == lockfile_error_text(*self),
    {
        match self {
            LockfileError::Io { path, message } => {
                let mut out = text::chars_of(path.as_str());
                text::append_str(&mut out, ": ");
                text::append_str(&mut out, message.as_str());
                text::string_of(&out)
            },
            LockfileError::Malformed { path, line, message } => {
                let mut out = text::chars_of(path.as_str());
                text::append_str(&mut out, ": line ");
                text::append(&mut out, &text::render_decimal(*line as u64));
                text::append_str(&mut out, ": ");
                text::append_str(&mut out, message.as_str());
                text::string_of(&out)
            },
            LockfileError::Version { path, found } => {
                let mut out = text::chars_of(path.as_str());
                text::append_str(&mut out, ": lockfile version ");
                text::append_str(&mut out, found.as_str());
                text::append_str(&mut out, ", this build writes v1");
                text::string_of(&out)
            },
        }
    }
}

// ---------------------------------------------------------------------------
// Lines.

/// Fields with single spaces between them.
pub open spec fn spaced(fields: Seq<Seq<char>>) -> Seq<char> {
    text::joined(fields, seq![' '])
}

/// Lines, each with a line feed behind it.
pub open spec fn terminated(lines: Seq<Seq<char>>) -> Seq<char>
    decreases lines.len(),
{
    if lines.len() == 0 {
        Seq::empty()
    } else {
        terminated(lines.drop_last()) + lines.last() + seq!['\n']
    }
}

/// How a class is written in a lockfile.
pub open spec fn class_word(class: DependencyClass) -> Seq<char> {
    match class {
        DependencyClass::Runtime => "dependency"@,
        DependencyClass::Development => "devDependency"@,
        DependencyClass::Optional => "optionalDependency"@,
        DependencyClass::Peer => "peerDependency"@,
        DependencyClass::OptionalPeer => "optionalPeerDependency"@,
    }
}

/// The class that a word stands for.
pub open spec fn class_of_word(word: Seq<char>) -> Option<DependencyClass> {
    if word == "dependency"@ {
        Some(DependencyClass::Runtime)
    } else if word == "devDependency"@ {
        Some(DependencyClass::Development)
    } else if word == "optionalDependency"@ {
        Some(DependencyClass::Optional)
    } else if word == "peerDependency"@ {
        Some(DependencyClass::Peer)
    } else if word == "optionalPeerDependency"@ {
        Some(DependencyClass::OptionalPeer)
    } else {
        None
    }
}

/// The line for a requirement of the project.
pub open spec fn require_line(r: RecordModel) -> Seq<char> {
    spaced(seq!["require"@, class_word(r.class), r.name, r.spec])
}

/// The line for a package.
pub open spec fn package_line(p: ResolvedPackageModel) -> Seq<char> {
    spaced(
        seq![
            "pkg"@,
            p.id.name,
            semver::version_text(p.id.version),
            integrity::integrity_text(p.integrity),
            p.tarball,
        ],
    )
}

/// The line for an edge.
pub open spec fn edge_line(link: (PackageIdModel, EdgeModel)) -> Seq<char> {
    let (from, edge) = link;
    spaced(
        seq![
            "dep"@,
            from.name,
            semver::version_text(from.version),
            edge.name,
            semver::version_text(edge.version),
            edge.spec,
        ],
    )
}

/// The line for a dependency that was skipped.
pub open spec fn skip_line(skip: (Seq<char>, Seq<char>)) -> Seq<char> {
    spaced(seq!["skip"@, skip.0, skip.1])
}

/// The edges out of one package.
pub open spec fn edges_from(p: ResolvedPackageModel) -> Seq<(PackageIdModel, EdgeModel)> {
    p.dependencies.map_values(|e: EdgeModel| (p.id, e))
}

/// The edges out of all packages, in order.
pub open spec fn all_edges(packages: resolve::Packages) -> Seq<(PackageIdModel, EdgeModel)>
    decreases packages.len(),
{
    if packages.len() == 0 {
        Seq::empty()
    } else {
        edges_from(packages[0].1) + all_edges(packages.skip(1))
    }
}

/// The lines for the requirements of the project.
pub open spec fn require_lines(list: Seq<RecordModel>) -> Seq<Seq<char>> {
    list.map_values(|r: RecordModel| require_line(r))
}

/// The lines for the packages.
pub open spec fn package_lines(packages: resolve::Packages) -> Seq<Seq<char>> {
    packages.map_values(|e: (PackageIdModel, ResolvedPackageModel)| package_line(e.1))
}

/// The lines for edges.
pub open spec fn edge_lines(list: Seq<(PackageIdModel, EdgeModel)>) -> Seq<Seq<char>> {
    list.map_values(|link: (PackageIdModel, EdgeModel)| edge_line(link))
}

/// The lines for what was skipped.
pub open spec fn skip_lines(list: Seq<(Seq<char>, Seq<char>)>) -> Seq<Seq<char>> {
    list.map_values(|skip: (Seq<char>, Seq<char>)| skip_line(skip))
}

impl Rank for (Seq<char>, Seq<char>) {
    /// By the first text, then by the second.
    open spec fn rank(self) -> Seq<int> {
        order::closed_text(self.0) + order::text_rank(self.1)
    }
}

impl Ranked for (String, String) {
    fn compare(&self, other: &Self) -> (r: Order) {
        proof {
            order::lemma_closed_text(
                self.0@,
                other.0@,
                order::text_rank(self.1@),
                order::text_rank(other.1@),
            );
            order::lemma_closed_text(
                other.0@,
                self.0@,
                order::text_rank(other.1@),
                order::text_rank(self.1@),
            );
        }
        match order::compare_text(self.0.as_str(), other.0.as_str()) {
            Order::Equal => order::compare_text(self.1.as_str(), other.1.as_str()),
            decided => decided,
        }
    }
}

/// The lines of a lockfile: one for the format, then one per fact.
pub open spec fn lockfile_lines(r: ResolutionModel) -> Seq<Seq<char>> {
    seq!["opal-lock 1"@] + require_lines(r.requirements) + package_lines(r.packages) + edge_lines(
        all_edges(r.packages),
    ) + skip_lines(sorted::stable_sorted(r.skipped))
}

/// The text of a lockfile.
pub open spec fn lockfile_text(r: ResolutionModel) -> Seq<char> {
    terminated(lockfile_lines(r))
}

/// Where the lockfile of a project is.
pub fn path_in(project_root: &str) -> (r: String)
    ensures
        r@ == native::joined_native(project_root@, "opal.lock"@),
{
    native::join(project_root, "opal.lock")
}

/// How a class is written in a lockfile.
pub fn class_name(class: DependencyClass) -> (r: &'static str)
    ensures
        r@ == class_word(class),
{
    match class {
        DependencyClass::Runtime => "dependency",
        DependencyClass::Development => "devDependency",
        DependencyClass::Optional => "optionalDependency",
        DependencyClass::Peer => "peerDependency",
        DependencyClass::OptionalPeer => "optionalPeerDependency",
    }
}

/// Reads a class.
pub fn parse_class(word: &[char]) -> (r: Option<DependencyClass>)
    ensures
        r == class_of_word(word@),
{
    if text::spells(word, "dependency") {
        Some(DependencyClass::Runtime)
    } else if text::spells(word, "devDependency") {
        Some(DependencyClass::Development)
    } else if text::spells(word, "optionalDependency") {
        Some(DependencyClass::Optional)
    } else if text::spells(word, "peerDependency") {
        Some(DependencyClass::Peer)
    } else if text::spells(word, "optionalPeerDependency") {
        Some(DependencyClass::OptionalPeer)
    } else {
        None
    }
}

// ---------------------------------------------------------------------------
// Writing.

/// Adds a line made of fields.
fn add_line(out: &mut Vec<char>, fields: &Vec<Vec<char>>)
    ensures
        final(out)@ == old(out)@ + spaced(text::texts(fields@)) + seq!['\n'],
{
    let mut parts: Vec<&[char]> = Vec::new();
    let mut i: usize = 0;
    while i < fields.len()
        invariant
            i <= fields@.len(),
            parts@.len() == i,
            forall|j: int| 0 <= j < i ==> (#[trigger] parts@[j])@ == fields@[j]@,
        decreases fields@.len() - i,
    {
        parts.push(fields[i].as_slice());
        i += 1;
    }
    proof {
        assert(text::views(parts@) =~= text::texts(fields@));
        reveal_strlit(" ");
        assert(" "@ =~= seq![' ']);
    }
    text::append(out, &text::join(&parts, " "));
    out.push('\n');
    assert(out@ =~= old(out)@ + spaced(text::texts(fields@)) + seq!['\n']);
}

/// One line more.
proof fn lemma_terminated_push(lines: Seq<Seq<char>>, line: Seq<char>)
    ensures
        terminated(lines.push(line)) == terminated(lines) + line + seq!['\n'],
{
    assert(lines.push(line).drop_last() =~= lines);
}

fn write_edges(
    out: &mut Vec<char>,
    package: &ResolvedPackage,
    Ghost(lines): Ghost<Seq<Seq<char>>>,
)
    requires
        old(out)@ == terminated(lines),
    ensures
        final(out)@ == terminated(lines + edge_lines(edges_from(package@))),
{
    let ghost all = edge_lines(edges_from(package@));
    let mut k: usize = 0;
    assert(lines + all.take(0) =~= lines);
    while k < package.dependencies.len()
        invariant
            k <= package.dependencies@.len(),
            all == edge_lines(edges_from(package@)),
            out@ == terminated(lines + all.take(k as int)),
        decreases package.dependencies@.len() - k,
    {
        let edge = &package.dependencies[k];
        let mut fields: Vec<Vec<char>> = Vec::new();
        fields.push(text::chars_of("dep"));
        fields.push(text::chars_of(package.id.name.as_str()));
        fields.push(package.id.version.render());
        fields.push(text::chars_of(edge.name.as_str()));
        fields.push(edge.version.render());
        fields.push(text::chars_of(edge.spec.as_str()));
        add_line(out, &fields);
        proof {
            let line = edge_line((package.id@, edge@));
            assert(text::texts(fields@) =~= seq![
                "dep"@,
                package.id.name@,
                semver::version_text(package.id.version@),
                edge.name@,
                semver::version_text(edge.version@),
                edge.spec@,
            ]);
            assert(package@.dependencies[k as int] == edge@);
            assert(all[k as int] == line);
            lemma_terminated_push(lines + all.take(k as int), line);
            assert((lines + all.take(k as int)).push(line) =~= lines + all.take(k + 1));
        }
        k += 1;
    }
    assert(all.take(k as int) =~= all);
}

/// Writes a lockfile.
pub fn render(resolution: &Resolution) -> (r: String)
    ensures
        r@ == lockfile_text(resolution@),
{
    let ghost mut lines = seq!["opal-lock 1"@];
    let mut out = text::chars_of("opal-lock 1");
    out.push('\n');
    proof {
        lemma_terminated_push(Seq::empty(), "opal-lock 1"@);
        assert(Seq::<Seq<char>>::empty().push("opal-lock 1"@) =~= lines);
        assert(out@ =~= terminated(lines));
    }

    let ghost base = lines;
    let ghost requires_all = require_lines(resolution@.requirements);
    let mut i: usize = 0;
    assert(base + requires_all.take(0) =~= base);
    while i < resolution.requirements.len()
        invariant
            i <= resolution.requirements@.len(),
            requires_all == require_lines(resolution@.requirements),
            out@ == terminated(base + requires_all.take(i as int)),
        decreases resolution.requirements@.len() - i,
    {
        let record = &resolution.requirements[i];
        let mut fields: Vec<Vec<char>> = Vec::new();
        fields.push(text::chars_of("require"));
        fields.push(text::chars_of(class_name(record.class)));
        fields.push(text::chars_of(record.name.as_str()));
        fields.push(text::chars_of(record.spec.as_str()));
        add_line(&mut out, &fields);
        proof {
            let line = require_line(record@);
            assert(text::texts(fields@) =~= seq![
                "require"@,
                class_word(record.class),
                record.name@,
                record.spec@,
            ]);
            assert(resolution@.requirements[i as int] == record@);
            assert(requires_all[i as int] == line);
            lemma_terminated_push(base + requires_all.take(i as int), line);
            assert((base + requires_all.take(i as int)).push(line) =~= base + requires_all.take(
                i + 1,
            ));
        }
        i += 1;
    }
    proof {
        assert(requires_all.take(i as int) =~= requires_all);
        lines = base + requires_all;
    }

    let n: usize = resolution.packages.len();
    let ghost packages = resolution.packages@;
    let ghost base = lines;
    let ghost packages_all = package_lines(packages);
    let mut i: usize = 0;
    assert(base + packages_all.take(0) =~= base);
    while i < n
        invariant
            i <= n,
            n == resolution.packages@.len(),
            packages == resolution.packages@,
            packages_all == package_lines(packages),
            out@ == terminated(base + packages_all.take(i as int)),
        decreases n - i,
    {
        let package = resolution.packages.value_at(i);
        let mut fields: Vec<Vec<char>> = Vec::new();
        fields.push(text::chars_of("pkg"));
        fields.push(text::chars_of(package.id.name.as_str()));
        fields.push(package.id.version.render());
        let written = package.integrity.to_string();
        fields.push(text::chars_of(written.as_str()));
        fields.push(text::chars_of(package.tarball.as_str()));
        add_line(&mut out, &fields);
        proof {
            let line = package_line(package@);
            assert(text::texts(fields@) =~= seq![
                "pkg"@,
                package.id.name@,
                semver::version_text(package.id.version@),
                integrity::integrity_text(package.integrity@),
                package.tarball@,
            ]);
            assert(packages_all[i as int] == line);
            lemma_terminated_push(base + packages_all.take(i as int), line);
            assert((base + packages_all.take(i as int)).push(line) =~= base + packages_all.take(
                i + 1,
            ));
        }
        i += 1;
    }
    proof {
        assert(packages_all.take(i as int) =~= packages_all);
        lines = base + packages_all;
    }

    let ghost base = lines;
    let ghost edges_all = edge_lines(all_edges(packages));
    let mut i: usize = 0;
    proof {
        assert(packages.skip(0) =~= packages);
        assert(lines + edges_all =~= base + edges_all);
    }
    while i < n
        invariant
            i <= n,
            n == resolution.packages@.len(),
            packages == resolution.packages@,
            edges_all == edge_lines(all_edges(packages)),
            lines + edge_lines(all_edges(packages.skip(i as int))) == base + edges_all,
            out@ == terminated(lines),
        decreases n - i,
    {
        let package = resolution.packages.value_at(i);
        write_edges(&mut out, package, Ghost(lines));
        proof {
            let rest = packages.skip(i as int);
            let next = packages.skip(i + 1);
            assert(rest.skip(1) =~= next);
            assert(rest[0].1 == package@);
            let here = edges_from(package@);
            assert(edge_lines(here + all_edges(next)) =~= edge_lines(here) + edge_lines(
                all_edges(next),
            ));
            assert(lines + edge_lines(all_edges(rest)) =~= (lines + edge_lines(here)) + edge_lines(
                all_edges(next),
            ));
            lines = lines + edge_lines(here);
        }
        i += 1;
    }
    proof {
        assert(packages.skip(i as int) =~= Seq::empty());
        assert(edge_lines(all_edges(packages.skip(i as int))) =~= Seq::empty());
        assert(lines =~= base + edges_all);
    }

    let mut skipped: Vec<(String, String)> = Vec::new();
    let ghost skips = resolution@.skipped;
    let mut i: usize = 0;
    while i < resolution.skipped.len()
        invariant
            i <= resolution.skipped@.len(),
            skips == resolve::text_pairs(resolution.skipped@),
            resolve::text_pairs(skipped@) == skips.take(i as int),
        decreases resolution.skipped@.len() - i,
    {
        let ghost done = resolve::text_pairs(skipped@);
        let one = (resolution.skipped[i].0.clone(), resolution.skipped[i].1.clone());
        let ghost pair = (one.0@, one.1@);
        skipped.push(one);
        assert(resolve::text_pairs(skipped@) =~= done.push(pair));
        assert(skips.take(i + 1) =~= skips.take(i as int).push(pair));
        i += 1;
    }
    proof {
        assert(skips.take(i as int) =~= skips);
        assert(sorted::list_views(skipped@) =~= skips);
    }
    let skipped = sorted::sort(skipped);
    let ghost sorted_skips = sorted::list_views(skipped@);
    let ghost base = lines;
    let ghost skips_all = skip_lines(sorted_skips);
    let mut i: usize = 0;
    assert(base + skips_all.take(0) =~= base);
    while i < skipped.len()
        invariant
            i <= skipped@.len(),
            sorted_skips == sorted::list_views(skipped@),
            skips_all == skip_lines(sorted_skips),
            out@ == terminated(base + skips_all.take(i as int)),
        decreases skipped@.len() - i,
    {
        let mut fields: Vec<Vec<char>> = Vec::new();
        fields.push(text::chars_of("skip"));
        fields.push(text::chars_of(skipped[i].0.as_str()));
        fields.push(text::chars_of(skipped[i].1.as_str()));
        add_line(&mut out, &fields);
        proof {
            let pair = (skipped@[i as int].0@, skipped@[i as int].1@);
            let line = skip_line(pair);
            assert(text::texts(fields@) =~= seq!["skip"@, pair.0, pair.1]);
            assert(sorted_skips[i as int] == pair);
            assert(skips_all[i as int] == line);
            lemma_terminated_push(base + skips_all.take(i as int), line);
            assert((base + skips_all.take(i as int)).push(line) =~= base + skips_all.take(i + 1));
        }
        i += 1;
    }
    proof {
        assert(skips_all.take(i as int) =~= skips_all);
        assert(base + skips_all =~= lockfile_lines(resolution@));
    }
    text::string_of(&out)
}

// ---------------------------------------------------------------------------
// Reading.

/// Exactly `n` fields with single spaces between them; the last one takes any
/// remainder. No field is empty.
pub open spec fn fields_of(s: Seq<char>, n: nat) -> Option<Seq<Seq<char>>>
    decreases n,
{
    if n <= 1 {
        if s.len() == 0 {
            None
        } else {
            Some(seq![s])
        }
    } else {
        match text::halves(s, ' ') {
            Some((head, tail)) => if head.len() == 0 {
                None
            } else {
                text::prepend(seq![head], fields_of(tail, (n - 1) as nat))
            },
            None => None,
        }
    }
}

/// What was read of a lockfile so far. Edges are kept apart until all packages
/// are known.
#[verifier::ext_equal]
pub struct Draft {
    pub requirements: Seq<RecordModel>,
    pub packages: Seq<(PackageIdModel, ResolvedPackageModel)>,
    pub edges: Seq<(PackageIdModel, EdgeModel)>,
    pub skipped: Seq<(Seq<char>, Seq<char>)>,
}

/// The message for a version that cannot be read.
pub open spec fn version_complaint(given: Seq<char>) -> Seq<char> {
    text::quoted(given) + " is not a valid version"@
}

/// The message for an integrity that cannot be read.
pub open spec fn integrity_complaint(given: Seq<char>) -> Seq<char> {
    text::quoted(given) + " is not a supported integrity string"@
}

/// A package without its edges.
pub open spec fn bare_package(
    id: PackageIdModel,
    tarball: Seq<char>,
    integrity: IntegrityModel,
) -> ResolvedPackageModel {
    ResolvedPackageModel { id, tarball, integrity, dependencies: Seq::empty() }
}

/// A `require` line.
pub open spec fn read_require(draft: Draft, rest: Seq<char>) -> Result<Draft, Seq<char>> {
    match fields_of(rest, 3) {
        Some(fields) => match class_of_word(fields[0]) {
            Some(class) => Ok(
                Draft {
                    requirements: draft.requirements.push(
                        RecordModel { class, name: fields[1], spec: fields[2] },
                    ),
                    ..draft
                },
            ),
            None => Err("unknown dependency class"@),
        },
        None => Err("expected: require <class> <name> <spec>"@),
    }
}

/// A `pkg` line.
pub open spec fn read_package(draft: Draft, rest: Seq<char>) -> Result<Draft, Seq<char>> {
    match fields_of(rest, 4) {
        Some(fields) => match semver::version_of(fields[1]) {
            Some(version) => match integrity::integrity_of(fields[2]) {
                Some(integrity) => {
                    let id = PackageIdModel { name: fields[0], version };
                    Ok(
                        Draft {
                            packages: sorted::put(
                                draft.packages,
                                id,
                                bare_package(id, fields[3], integrity),
                            ),
                            ..draft
                        },
                    )
                },
                None => Err(integrity_complaint(fields[2])),
            },
            None => Err(version_complaint(fields[1])),
        },
        None => Err("expected: pkg <name> <version> <integrity> <tarball>"@),
    }
}

/// A `dep` line.
pub open spec fn read_edge(draft: Draft, rest: Seq<char>) -> Result<Draft, Seq<char>> {
    match fields_of(rest, 5) {
        Some(fields) => match semver::version_of(fields[1]) {
            Some(version) => match semver::version_of(fields[3]) {
                Some(target) => Ok(
                    Draft {
                        edges: draft.edges.push(
                            (
                                PackageIdModel { name: fields[0], version },
                                EdgeModel { name: fields[2], spec: fields[4], version: target },
                            ),
                        ),
                        ..draft
                    },
                ),
                None => Err(version_complaint(fields[3])),
            },
            None => Err(version_complaint(fields[1])),
        },
        None => Err("expected: dep <name> <version> <dep-name> <dep-version> <spec>"@),
    }
}

/// A `skip` line.
pub open spec fn read_skip(draft: Draft, rest: Seq<char>) -> Result<Draft, Seq<char>> {
    match fields_of(rest, 2) {
        Some(fields) => Ok(
            Draft { skipped: draft.skipped.push((fields[0], fields[1])), ..draft },
        ),
        None => Err("expected: skip <name> <reason>"@),
    }
}

/// The first field of a line, and what follows the space behind it.
pub open spec fn kind_and_rest(line: Seq<char>) -> (Seq<char>, Seq<char>) {
    match text::halves(line, ' ') {
        Some((kind, rest)) => (kind, rest),
        None => (line, Seq::empty()),
    }
}

/// One line; blank ones are ignored.
pub open spec fn read_line(draft: Draft, line: Seq<char>) -> Result<Draft, Seq<char>> {
    let (kind, rest) = kind_and_rest(line);
    if text::trimmed(line).len() == 0 {
        Ok(draft)
    } else if kind == "require"@ {
        read_require(draft, rest)
    } else if kind == "pkg"@ {
        read_package(draft, rest)
    } else if kind == "dep"@ {
        read_edge(draft, rest)
    } else if kind == "skip"@ {
        read_skip(draft, rest)
    } else {
        Err("unknown entry "@ + text::quoted(kind))
    }
}

/// Lines from the given number on; the first one that cannot be read decides.
pub open spec fn read_lines(draft: Draft, lines: Seq<Seq<char>>, number: nat) -> Result<
    Draft,
    Fault,
>
    decreases lines.len(),
{
    if lines.len() == 0 {
        Ok(draft)
    } else {
        match read_line(draft, lines[0]) {
            Ok(next) => read_lines(next, lines.skip(1), number + 1),
            Err(message) => Err(Fault::Malformed { line: number, message }),
        }
    }
}

/// Packages with their edges put in, from the first edge on.
pub open spec fn attached(
    packages: resolve::Packages,
    edges: Seq<(PackageIdModel, EdgeModel)>,
) -> Result<resolve::Packages, Fault>
    decreases edges.len(),
{
    if edges.len() == 0 {
        Ok(packages)
    } else {
        let (from, edge) = edges[0];
        match sorted::lookup(packages, from) {
            Some(package) => attached(
                sorted::put(
                    packages,
                    from,
                    ResolvedPackageModel {
                        dependencies: package.dependencies.push(edge),
                        ..package
                    },
                ),
                edges.skip(1),
            ),
            None => Err(
                Fault::Malformed {
                    line: 0,
                    message: "dep line references unknown package "@ + resolve::id_text(from),
                },
            ),
        }
    }
}

/// Nothing read yet.
pub open spec fn empty_draft() -> Draft {
    Draft {
        requirements: Seq::empty(),
        packages: Seq::empty(),
        edges: Seq::empty(),
        skipped: Seq::empty(),
    }
}

/// What the first line says of the format.
pub open spec fn format_of(header: Seq<char>) -> Seq<char> {
    text::trimmed(
        if text::begins(header, "opal-lock "@) {
            header.skip("opal-lock "@.len() as int)
        } else {
            header
        },
    )
}

/// What a text holds as a lockfile, or what is wrong with it.
pub open spec fn resolution_of(s: Seq<char>) -> Result<ResolutionModel, Fault> {
    let lines = text::lines(s);
    if lines.len() == 0 {
        Err(Fault::Malformed { line: 0, message: "empty lockfile"@ })
    } else if format_of(lines[0]) != "1"@ {
        Err(Fault::Version { found: format_of(lines[0]) })
    } else {
        match read_lines(empty_draft(), lines.skip(1), 2) {
            Ok(draft) => match attached(draft.packages, draft.edges) {
                Ok(packages) => Ok(
                    ResolutionModel {
                        requirements: draft.requirements,
                        packages,
                        skipped: draft.skipped,
                    },
                ),
                Err(fault) => Err(fault),
            },
            Err(fault) => Err(fault),
        }
    }
}

/// Splits into exactly `n` fields, with the last one absorbing any remainder.
pub fn split_n<'a>(s: &'a [char], n: usize) -> (r: Option<Vec<&'a [char]>>)
    requires
        n >= 1,
    ensures
        r is Some <==> fields_of(s@, n as nat) is Some,
        r matches Some(fields) ==> fields_of(s@, n as nat) == Some(text::views(fields@))
            && fields@.len() == n,
{
    let mut fields: Vec<&'a [char]> = Vec::new();
    let mut rest: &'a [char] = s;
    let mut left: usize = n;
    proof {
        text::lemma_prepend_nothing(fields_of(s@, n as nat));
        assert(text::views(fields@) =~= Seq::empty());
    }
    while left > 1
        invariant
            1 <= left <= n,
            fields@.len() == n - left,
            fields_of(s@, n as nat) == text::prepend(
                text::views(fields@),
                fields_of(rest@, left as nat),
            ),
        decreases left,
    {
        match text::split_once(rest, ' ') {
            Some((head, tail)) => {
                if head.len() == 0 {
                    return None;
                }
                let ghost done = text::views(fields@);
                fields.push(head);
                proof {
                    assert(text::views(fields@) =~= done + seq![head@]);
                    text::lemma_prepend(
                        done,
                        seq![head@],
                        fields_of(tail@, (left - 1) as nat),
                    );
                }
                rest = tail;
                left = left - 1;
            },
            None => {
                return None;
            },
        }
    }
    if rest.len() == 0 {
        return None;
    }
    let ghost done = text::views(fields@);
    fields.push(rest);
    assert(text::views(fields@) =~= done + seq![rest@]);
    Some(fields)
}

/// What was read of a lockfile so far.
struct Reader {
    requirements: Vec<RequirementRecord>,
    packages: SortedMap<PackageId, ResolvedPackage>,
    edges: Vec<(PackageId, ResolvedEdge)>,
    skipped: Vec<(String, String)>,
}

/// The edges, with the packages that they come from, that a list stands for.
spec fn links(list: Seq<(PackageId, ResolvedEdge)>) -> Seq<(PackageIdModel, EdgeModel)> {
    list.map_values(|l: (PackageId, ResolvedEdge)| (l.0@, l.1@))
}

impl View for Reader {
    type V = Draft;

    closed spec fn view(&self) -> Draft {
        Draft {
            requirements: resolve::records(self.requirements@),
            packages: self.packages@,
            edges: links(self.edges@),
            skipped: resolve::text_pairs(self.skipped@),
        }
    }
}

/// Whether a line was read as the given outcome says.
spec fn line_read(
    before: Draft,
    after: Draft,
    r: Result<(), String>,
    outcome: Result<Draft, Seq<char>>,
) -> bool {
    match r {
        Ok(_) => outcome == Ok::<Draft, Seq<char>>(after),
        Err(message) => outcome == Err::<Draft, Seq<char>>(message@),
    }
}

fn complain_version(given: &[char]) -> (r: String)
    ensures
        r@ == version_complaint(given@),
{
    let given = text::string_of(given);
    text::concat(text::quote(given.as_str()), " is not a valid version")
}

impl Reader {
    fn new() -> (r: Self)
        ensures
            r@ == empty_draft(),
    {
        let r = Reader {
            requirements: Vec::new(),
            packages: SortedMap::new(),
            edges: Vec::new(),
            skipped: Vec::new(),
        };
        assert(r@ =~= empty_draft());
        r
    }

    fn require(&mut self, rest: &[char]) -> (r: Result<(), String>)
        ensures
            line_read(old(self)@, final(self)@, r, read_require(old(self)@, rest@)),
    {
        let ghost before = self@;
        match split_n(rest, 3) {
            Some(fields) => {
                let ghost parts = text::views(fields@);
                assert(parts[0] == fields@[0]@ && parts[1] == fields@[1]@ && parts[2]
                    == fields@[2]@);
                match parse_class(fields[0]) {
                    Some(class) => {
                        let one = RequirementRecord {
                            class,
                            name: text::string_of(fields[1]),
                            spec: text::string_of(fields[2]),
                        };
                        self.requirements.push(one);
                        assert(self@.requirements =~= before.requirements.push(one@));
                        Ok(())
                    },
                    None => Err("unknown dependency class".to_string()),
                }
            },
            None => Err("expected: require <class> <name> <spec>".to_string()),
        }
    }

    fn package(&mut self, rest: &[char]) -> (r: Result<(), String>)
        ensures
            line_read(old(self)@, final(self)@, r, read_package(old(self)@, rest@)),
    {
        let ghost before = self@;
        match split_n(rest, 4) {
            Some(fields) => {
                let ghost parts = text::views(fields@);
                assert(parts[0] == fields@[0]@ && parts[1] == fields@[1]@ && parts[2]
                    == fields@[2]@ && parts[3] == fields@[3]@);
                let version = match Version::parse(text::string_of(fields[1]).as_str()) {
                    Ok(version) => version,
                    Err(_) => {
                        return Err(complain_version(fields[1]));
                    },
                };
                let given = text::string_of(fields[2]);
                let integrity = match Integrity::parse(given.as_str()) {
                    Ok(integrity) => integrity,
                    Err(_) => {
                        return Err(
                            text::concat(
                                text::quote(given.as_str()),
                                " is not a supported integrity string",
                            ),
                        );
                    },
                };
                let id = PackageId { name: text::string_of(fields[0]), version };
                let package = ResolvedPackage {
                    id: id.clone(),
                    tarball: text::string_of(fields[3]),
                    integrity,
                    dependencies: Vec::new(),
                };
                assert(package@ =~= bare_package(id@, parts[3], integrity@));
                self.packages.insert(id, package);
                Ok(())
            },
            None => Err("expected: pkg <name> <version> <integrity> <tarball>".to_string()),
        }
    }

    fn edge(&mut self, rest: &[char]) -> (r: Result<(), String>)
        ensures
            line_read(old(self)@, final(self)@, r, read_edge(old(self)@, rest@)),
    {
        let ghost before = self@;
        match split_n(rest, 5) {
            Some(fields) => {
                let ghost parts = text::views(fields@);
                assert(parts[0] == fields@[0]@ && parts[1] == fields@[1]@ && parts[2]
                    == fields@[2]@ && parts[3] == fields@[3]@ && parts[4] == fields@[4]@);
                let version = match Version::parse(text::string_of(fields[1]).as_str()) {
                    Ok(version) => version,
                    Err(_) => {
                        return Err(complain_version(fields[1]));
                    },
                };
                let target = match Version::parse(text::string_of(fields[3]).as_str()) {
                    Ok(version) => version,
                    Err(_) => {
                        return Err(complain_version(fields[3]));
                    },
                };
                let from = PackageId { name: text::string_of(fields[0]), version };
                let edge = ResolvedEdge {
                    name: text::string_of(fields[2]),
                    spec: text::string_of(fields[4]),
                    version: target,
                };
                let ghost one = (from@, edge@);
                self.edges.push((from, edge));
                assert(self@.edges =~= before.edges.push(one));
                Ok(())
            },
            None => Err(
                "expected: dep <name> <version> <dep-name> <dep-version> <spec>".to_string(),
            ),
        }
    }

    fn skip(&mut self, rest: &[char]) -> (r: Result<(), String>)
        ensures
            line_read(old(self)@, final(self)@, r, read_skip(old(self)@, rest@)),
    {
        let ghost before = self@;
        match split_n(rest, 2) {
            Some(fields) => {
                let ghost parts = text::views(fields@);
                assert(parts[0] == fields@[0]@ && parts[1] == fields@[1]@);
                let one = (text::string_of(fields[0]), text::string_of(fields[1]));
                let ghost pair = (one.0@, one.1@);
                self.skipped.push(one);
                assert(self@.skipped =~= before.skipped.push(pair));
                Ok(())
            },
            None => Err("expected: skip <name> <reason>".to_string()),
        }
    }

    fn line(&mut self, line: &[char]) -> (r: Result<(), String>)
        ensures
            line_read(old(self)@, final(self)@, r, read_line(old(self)@, line@)),
    {
        if text::trim(line).len() == 0 {
            return Ok(());
        }
        let (kind, rest) = match text::split_once(line, ' ') {
            Some((kind, rest)) => (kind, rest),
            None => {
                let none = text::after(line, line.len());
                assert(none@ =~= Seq::empty());
                (line, none)
            },
        };
        assert(kind_and_rest(line@) == (kind@, rest@));
        if text::spells(kind, "require") {
            self.require(rest)
        } else if text::spells(kind, "pkg") {
            self.package(rest)
        } else if text::spells(kind, "dep") {
            self.edge(rest)
        } else if text::spells(kind, "skip") {
            self.skip(rest)
        } else {
            let shown = text::quote(text::string_of(kind).as_str());
            Err(text::concat("unknown entry ".to_string(), shown.as_str()))
        }
    }
}

/// Whether edges were attached as the given outcome says.
spec fn attached_as(
    r: Result<SortedMap<PackageId, ResolvedPackage>, String>,
    outcome: Result<resolve::Packages, Fault>,
) -> bool {
    match r {
        Ok(packages) => outcome == Ok::<resolve::Packages, Fault>(packages@),
        Err(message) => outcome == Err::<resolve::Packages, Fault>(
            Fault::Malformed { line: 0, message: message@ },
        ),
    }
}

fn attach(
    bare: SortedMap<PackageId, ResolvedPackage>,
    edges: Vec<(PackageId, ResolvedEdge)>,
) -> (r: Result<SortedMap<PackageId, ResolvedPackage>, String>)
    ensures
        attached_as(r, attached(bare@, links(edges@))),
{
    let ghost all = links(edges@);
    let ghost start = bare@;
    let mut packages = bare;
    let mut i: usize = 0;
    assert(all.skip(0) =~= all);
    while i < edges.len()
        invariant
            i <= edges@.len(),
            all == links(edges@),
            start == bare@,
            attached(start, all) == attached(packages@, all.skip(i as int)),
        decreases edges@.len() - i,
    {
        let from = &edges[i].0;
        let ghost rest = all.skip(i as int);
        proof {
            assert(rest[0] == (edges@[i as int].0@, edges@[i as int].1@));
            assert(rest.skip(1) =~= all.skip(i + 1));
        }
        let found = match packages.get(from) {
            Some(package) => package.clone(),
            None => {
                let shown = from.to_string();
                return Err(
                    text::concat(
                        "dep line references unknown package ".to_string(),
                        shown.as_str(),
                    ),
                );
            },
        };
        let mut package = found;
        let ghost before = package@;
        let edge = edges[i].1.clone();
        package.dependencies.push(edge);
        assert(package@ =~= ResolvedPackageModel {
            dependencies: before.dependencies.push(edge@),
            ..before
        });
        packages.insert(from.clone(), package);
        i += 1;
    }
    assert(all.skip(i as int) =~= Seq::empty());
    Ok(packages)
}

/// Reads a lockfile.
pub fn parse(path: &str, text: &str) -> (r: Result<Resolution, LockfileError>)
    ensures
        match r {
            Ok(resolution) => resolution_of(text@) == Ok::<ResolutionModel, Fault>(resolution@),
            Err(error) => resolution_of(text@) matches Err(fault) && error.says(path@, fault),
        },
{
    let chars = text::chars_of(text);
    let lines = text::split_lines(&chars);
    let ghost all = text::lines(text@);
    assert(all.len() == lines@.len());
    if lines.len() == 0 {
        return Err(
            LockfileError::Malformed {
                path: path.to_string(),
                line: 0,
                message: "empty lockfile".to_string(),
            },
        );
    }
    assert(all[0] == lines@[0]@);
    let found = text::trim(
        match text::strip_prefix(lines[0], "opal-lock ") {
            Some(rest) => rest,
            None => lines[0],
        },
    );
    if !text::spells(found, "1") {
        return Err(
            LockfileError::Version { path: path.to_string(), found: text::string_of(found) },
        );
    }
    let mut reader = Reader::new();
    let mut i: usize = 1;
    while i < lines.len()
        invariant
            1 <= i <= lines@.len(),
            all == text::views(lines@),
            all == text::lines(text@),
            format_of(all[0]) == "1"@,
            read_lines(empty_draft(), all.skip(1), 2) == read_lines(
                reader@,
                all.skip(i as int),
                (i + 1) as nat,
            ),
        decreases lines@.len() - i,
    {
        let ghost rest = all.skip(i as int);
        proof {
            assert(rest[0] == lines@[i as int]@);
            assert(rest.skip(1) =~= all.skip(i + 1));
        }
        assert(i < lines.len());
        match reader.line(lines[i]) {
            Ok(_) => {},
            Err(message) => {
                return Err(
                    LockfileError::Malformed { path: path.to_string(), line: i + 1, message },
                );
            },
        }
        i += 1;
    }
    assert(all.skip(i as int) =~= Seq::empty());
    match attach(reader.packages, reader.edges) {
        Ok(packages) => Ok(
            Resolution { requirements: reader.requirements, packages, skipped: reader.skipped },
        ),
        Err(message) => Err(
            LockfileError::Malformed { path: path.to_string(), line: 0, message },
        ),
    }
}

// ---------------------------------------------------------------------------
// Reading back what was written.

/// A text that can be a field which is not the last one of its line.
pub open spec fn is_field(s: Seq<char>) -> bool {
    s.len() > 0 && !s.contains(' ') && !s.contains('\n')
}

/// A text that can be the last field of its line.
pub open spec fn is_last_field(s: Seq<char>) -> bool {
    s.len() > 0 && !s.contains('\n') && s.last() != '\r'
}

/// A version that can be a field.
pub open spec fn is_version_field(v: VersionModel) -> bool {
    semver::version_spellable(v) && is_field(semver::version_text(v))
}

/// A package that the format can hold.
pub open spec fn package_writable(p: ResolvedPackageModel) -> bool {
    &&& is_field(p.id.name)
    &&& is_version_field(p.id.version)
    &&& is_last_field(p.tarball)
    &&& forall|k: int|
        0 <= k < p.dependencies.len() ==> is_field((#[trigger] p.dependencies[k]).name)
            && is_version_field(p.dependencies[k].version) && is_last_field(
            p.dependencies[k].spec,
        )
}

/// A resolution that the format can hold: no field has a character that
/// separates fields or lines, and packages are kept under their own names.
pub open spec fn writable(r: ResolutionModel) -> bool {
    &&& forall|i: int|
        0 <= i < r.requirements.len() ==> is_field((#[trigger] r.requirements[i]).name)
            && is_last_field(r.requirements[i].spec)
    &&& sorted::ascending(r.packages)
    &&& forall|i: int|
        0 <= i < r.packages.len() ==> package_writable((#[trigger] r.packages[i]).1)
            && r.packages[i].0 == r.packages[i].1.id
    &&& forall|i: int|
        0 <= i < r.skipped.len() ==> is_field((#[trigger] r.skipped[i]).0) && is_last_field(
            r.skipped[i].1,
        )
}

/// Fields, all of which but the last can be followed by others.
spec fn are_fields(fields: Seq<Seq<char>>) -> bool {
    &&& fields.len() > 0
    &&& forall|i: int| 0 <= i < fields.len() - 1 ==> is_field(#[trigger] fields[i])
    &&& is_last_field(fields.last())
}

/// Splitting undoes spacing.
proof fn lemma_fields_read_back(fields: Seq<Seq<char>>)
    requires
        are_fields(fields),
    ensures
        fields_of(spaced(fields), fields.len()) == Some(fields),
    decreases fields.len(),
{
    if fields.len() == 1 {
        assert(fields =~= seq![fields[0]]);
    } else {
        let rest = fields.skip(1);
        assert forall|i: int| 0 <= i < rest.len() - 1 implies is_field(#[trigger] rest[i]) by {
            assert(rest[i] == fields[i + 1]);
        }
        assert(rest.last() == fields.last());
        lemma_fields_read_back(rest);
        text::lemma_joined_front(fields, seq![' ']);
        assert(is_field(fields[0]));
        text::lemma_halves(fields[0], spaced(rest), ' ');
        assert(fields[0] + seq![' '] + spaced(rest) =~= fields[0] + (seq![' '] + spaced(rest)));
        assert(fields =~= seq![fields[0]] + rest);
    }
}

/// A line made of fields has no line feed.
#[verifier::spinoff_prover]
proof fn lemma_line_is_one(kind: Seq<char>, fields: Seq<Seq<char>>)
    requires
        is_field(kind),
        are_fields(fields),
    ensures
        !spaced(seq![kind] + fields).contains('\n'),
{
    let all = seq![kind] + fields;
    let line = spaced(all);
    if line.contains('\n') {
        text::lemma_joined_contains(all, seq![' '], '\n');
        assert(!seq![' '].contains('\n'));
        let i = choose|i: int| 0 <= i < all.len() && (#[trigger] all[i]).contains('\n');
        if i > 0 {
            assert(all[i] == fields[i - 1]);
            if i - 1 < fields.len() - 1 {
                assert(is_field(fields[i - 1]));
            }
        } else {
            assert(all[i] == kind);
        }
    }
}

/// A line made of fields starts with the first of them, and ends as the last one does.
#[verifier::spinoff_prover]
proof fn lemma_line_ends(kind: Seq<char>, fields: Seq<Seq<char>>)
    requires
        is_field(kind),
        are_fields(fields),
    ensures
        ({
            let line = spaced(seq![kind] + fields);
            &&& line == kind + (seq![' '] + spaced(fields))
            &&& line.len() > 0
            &&& line[0] == kind[0]
            &&& line.last() != '\r'
        }),
{
    let all = seq![kind] + fields;
    let line = spaced(all);
    assert(all.skip(1) =~= fields);
    text::lemma_joined_front(all, seq![' ']);
    assert(line =~= kind + (seq![' '] + spaced(fields)));
    assert(line[0] == kind[0]);
    assert(all.last() == fields.last());
    assert(line == text::joined(all.drop_last(), seq![' ']) + seq![' '] + all.last());
    assert(line.last() == fields.last().last());
}

/// A line made of fields has no line feed, ends as its last field does, and is
/// read by its first field.
#[verifier::spinoff_prover]
proof fn lemma_line(kind: Seq<char>, fields: Seq<Seq<char>>)
    requires
        is_field(kind),
        !text::is_space(kind[0]),
        are_fields(fields),
    ensures
        !spaced(seq![kind] + fields).contains('\n'),
        spaced(seq![kind] + fields).len() > 0,
        spaced(seq![kind] + fields).last() != '\r',
        text::trimmed(spaced(seq![kind] + fields)).len() > 0,
        kind_and_rest(spaced(seq![kind] + fields)) == (kind, spaced(fields)),
        fields_of(spaced(fields), fields.len()) == Some(fields),
{
    let line = spaced(seq![kind] + fields);
    lemma_line_is_one(kind, fields);
    lemma_line_ends(kind, fields);
    lemma_fields_read_back(fields);
    text::lemma_halves(kind, spaced(fields), ' ');
    assert(line =~= kind + (seq![' '] + spaced(fields)));
    assert(text::trimmed(line).len() > 0) by {
        text::lemma_not_blank(line);
    }
}

/// The first line is in front.
proof fn lemma_terminated_front(lines: Seq<Seq<char>>)
    requires
        lines.len() > 0,
    ensures
        terminated(lines) == lines[0] + seq!['\n'] + terminated(lines.skip(1)),
    decreases lines.len(),
{
    if lines.len() == 1 {
        assert(lines.drop_last() =~= Seq::empty());
        assert(lines.skip(1) =~= Seq::empty());
        assert(terminated(lines) =~= lines[0] + seq!['\n'] + terminated(lines.skip(1)));
    } else {
        lemma_terminated_front(lines.drop_last());
        assert(lines.drop_last().skip(1) =~= lines.skip(1).drop_last());
        assert(terminated(lines) =~= lines[0] + seq!['\n'] + terminated(lines.skip(1)));
    }
}

/// A line that can be told from its neighbours.
spec fn is_line(line: Seq<char>) -> bool {
    !line.contains('\n') && (line.len() == 0 || line.last() != '\r')
}

/// Cutting into lines undoes terminating them.
proof fn lemma_lines_read_back(lines: Seq<Seq<char>>)
    requires
        forall|i: int| 0 <= i < lines.len() ==> is_line(#[trigger] lines[i]),
    ensures
        text::lines(terminated(lines)) == lines,
    decreases lines.len(),
{
    if lines.len() == 0 {
        assert(lines =~= Seq::empty());
    } else {
        let rest = lines.skip(1);
        assert forall|i: int| 0 <= i < rest.len() implies is_line(#[trigger] rest[i]) by {
            assert(rest[i] == lines[i + 1]);
        }
        lemma_lines_read_back(rest);
        lemma_terminated_front(lines);
        assert(is_line(lines[0]));
        text::lemma_lines_step(lines[0], terminated(rest));
        assert(lines =~= seq![lines[0]] + rest);
    }
}

/// Reading lines is done from the first to the last.
proof fn lemma_read_concat(draft: Draft, a: Seq<Seq<char>>, b: Seq<Seq<char>>, number: nat)
    ensures
        read_lines(draft, a, number) matches Ok(next) ==> read_lines(draft, a + b, number)
            == read_lines(next, b, number + a.len()),
    decreases a.len(),
{
    if a.len() == 0 {
        assert(a + b =~= b);
    } else {
        assert((a + b).skip(1) =~= a.skip(1) + b);
        if let Ok(next) = read_line(draft, a[0]) {
            lemma_read_concat(next, a.skip(1), b, number + 1);
        }
    }
}

proof fn lemma_require(draft: Draft, r: RecordModel)
    requires
        is_field(r.name),
        is_last_field(r.spec),
    ensures
        is_line(require_line(r)),
        read_line(draft, require_line(r)) == Ok::<Draft, Seq<char>>(
            Draft { requirements: draft.requirements.push(r), ..draft },
        ),
{
    reveal_strlit("require");
    reveal_strlit("dependency");
    reveal_strlit("devDependency");
    reveal_strlit("optionalDependency");
    reveal_strlit("peerDependency");
    reveal_strlit("optionalPeerDependency");
    assert("dependency"@.len() == 10 && "devDependency"@.len() == 13);
    assert("optionalDependency"@.len() == 18 && "peerDependency"@.len() == 14);
    assert("optionalPeerDependency"@.len() == 22);
    let class = class_word(r.class);
    assert(is_field("require"@));
    assert(is_field(class));
    assert(class_of_word(class) == Some(r.class));
    let fields = seq![class, r.name, r.spec];
    assert(fields.last() == r.spec);
    lemma_line("require"@, fields);
    assert(seq!["require"@] + fields =~= seq!["require"@, class, r.name, r.spec]);
}

proof fn lemma_kinds_differ()
    ensures
        "require"@ != "pkg"@,
        "require"@ != "dep"@,
        "require"@ != "skip"@,
        "pkg"@ != "dep"@,
        "pkg"@ != "skip"@,
        "dep"@ != "skip"@,
        is_field("pkg"@) && is_field("dep"@) && is_field("skip"@),
        !text::is_space("pkg"@[0]) && !text::is_space("dep"@[0]) && !text::is_space("skip"@[0]),
{
    reveal_strlit("require");
    reveal_strlit("pkg");
    reveal_strlit("dep");
    reveal_strlit("skip");
    assert("pkg"@[0] == 'p' && "dep"@[0] == 'd' && "skip"@[0] == 's' && "require"@[0] == 'r');
}

proof fn lemma_integrity_field(i: IntegrityModel)
    ensures
        is_field(integrity::integrity_text(i)),
{
    let written = integrity::integrity_text(i);
    integrity::lemma_integrity_text(i);
    assert(text::is_space(' ') && text::is_space('\n'));
    if written.contains(' ') {
        let k = choose|k: int| 0 <= k < written.len() && written[k] == ' ';
        assert(!text::is_space(written[k]));
    }
    if written.contains('\n') {
        let k = choose|k: int| 0 <= k < written.len() && written[k] == '\n';
        assert(!text::is_space(written[k]));
    }
}

#[verifier::spinoff_prover]
#[verifier::rlimit(30)]
proof fn lemma_package(draft: Draft, p: ResolvedPackageModel)
    requires
        package_writable(p),
    ensures
        is_line(package_line(p)),
        read_line(draft, package_line(p)) == Ok::<Draft, Seq<char>>(
            Draft {
                packages: sorted::put(
                    draft.packages,
                    p.id,
                    bare_package(p.id, p.tarball, p.integrity),
                ),
                ..draft
            },
        ),
{
    lemma_kinds_differ();
    let version = semver::version_text(p.id.version);
    let written = integrity::integrity_text(p.integrity);
    semver::version_reads_back(p.id.version);
    integrity::integrity_reads_back(p.integrity);
    lemma_integrity_field(p.integrity);
    let fields = seq![p.id.name, version, written, p.tarball];
    assert(fields.last() == p.tarball);
    lemma_line("pkg"@, fields);
    assert(seq!["pkg"@] + fields =~= seq!["pkg"@, p.id.name, version, written, p.tarball]);
}

proof fn lemma_edge(draft: Draft, link: (PackageIdModel, EdgeModel))
    requires
        is_field(link.0.name),
        is_version_field(link.0.version),
        is_field(link.1.name),
        is_version_field(link.1.version),
        is_last_field(link.1.spec),
    ensures
        is_line(edge_line(link)),
        read_line(draft, edge_line(link)) == Ok::<Draft, Seq<char>>(
            Draft { edges: draft.edges.push(link), ..draft },
        ),
{
    lemma_kinds_differ();
    let (from, edge) = link;
    semver::version_reads_back(from.version);
    semver::version_reads_back(edge.version);
    let fields = seq![
        from.name,
        semver::version_text(from.version),
        edge.name,
        semver::version_text(edge.version),
        edge.spec,
    ];
    assert(fields.last() == edge.spec);
    lemma_line("dep"@, fields);
    assert(seq!["dep"@] + fields =~= seq![
        "dep"@,
        from.name,
        semver::version_text(from.version),
        edge.name,
        semver::version_text(edge.version),
        edge.spec,
    ]);
}

proof fn lemma_skip(draft: Draft, skip: (Seq<char>, Seq<char>))
    requires
        is_field(skip.0),
        is_last_field(skip.1),
    ensures
        is_line(skip_line(skip)),
        read_line(draft, skip_line(skip)) == Ok::<Draft, Seq<char>>(
            Draft { skipped: draft.skipped.push(skip), ..draft },
        ),
{
    lemma_kinds_differ();
    let fields = seq![skip.0, skip.1];
    assert(fields.last() == skip.1);
    lemma_line("skip"@, fields);
    assert(seq!["skip"@] + fields =~= seq!["skip"@, skip.0, skip.1]);
    assert((skip.0, skip.1) == skip);
}

proof fn lemma_require_lines(draft: Draft, list: Seq<RecordModel>, number: nat)
    requires
        forall|i: int|
            0 <= i < list.len() ==> is_field((#[trigger] list[i]).name) && is_last_field(
                list[i].spec,
            ),
    ensures
        forall|i: int| 0 <= i < list.len() ==> is_line(#[trigger] require_lines(list)[i]),
        read_lines(draft, require_lines(list), number) == Ok::<Draft, Fault>(
            Draft { requirements: draft.requirements + list, ..draft },
        ),
    decreases list.len(),
{
    let lines = require_lines(list);
    if list.len() == 0 {
        assert(draft.requirements + list =~= draft.requirements);
    } else {
        let rest = list.skip(1);
        assert forall|i: int| 0 <= i < rest.len() implies is_field((#[trigger] rest[i]).name)
            && is_last_field(rest[i].spec) by {
            assert(rest[i] == list[i + 1]);
        }
        lemma_require(draft, list[0]);
        let next = Draft { requirements: draft.requirements.push(list[0]), ..draft };
        lemma_require_lines(next, rest, number + 1);
        assert(lines.skip(1) =~= require_lines(rest));
        assert(lines[0] == require_line(list[0]));
        assert(draft.requirements.push(list[0]) + rest =~= draft.requirements + list);
        assert forall|i: int| 0 <= i < list.len() implies is_line(#[trigger] lines[i]) by {
            if i > 0 {
                assert(lines[i] == require_lines(rest)[i - 1]);
            }
        }
    }
}

proof fn lemma_edge_lines(draft: Draft, list: Seq<(PackageIdModel, EdgeModel)>, number: nat)
    requires
        forall|i: int|
            0 <= i < list.len() ==> is_field((#[trigger] list[i]).0.name) && is_version_field(
                list[i].0.version,
            ) && is_field(list[i].1.name) && is_version_field(list[i].1.version)
                && is_last_field(list[i].1.spec),
    ensures
        forall|i: int| 0 <= i < list.len() ==> is_line(#[trigger] edge_lines(list)[i]),
        read_lines(draft, edge_lines(list), number) == Ok::<Draft, Fault>(
            Draft { edges: draft.edges + list, ..draft },
        ),
    decreases list.len(),
{
    let lines = edge_lines(list);
    if list.len() == 0 {
        assert(draft.edges + list =~= draft.edges);
    } else {
        let rest = list.skip(1);
        assert forall|i: int| 0 <= i < rest.len() implies is_field((#[trigger] rest[i]).0.name)
            && is_version_field(rest[i].0.version) && is_field(rest[i].1.name)
            && is_version_field(rest[i].1.version) && is_last_field(rest[i].1.spec) by {
            assert(rest[i] == list[i + 1]);
        }
        lemma_edge(draft, list[0]);
        let next = Draft { edges: draft.edges.push(list[0]), ..draft };
        lemma_edge_lines(next, rest, number + 1);
        assert(lines.skip(1) =~= edge_lines(rest));
        assert(lines[0] == edge_line(list[0]));
        assert(draft.edges.push(list[0]) + rest =~= draft.edges + list);
        assert forall|i: int| 0 <= i < list.len() implies is_line(#[trigger] lines[i]) by {
            if i > 0 {
                assert(lines[i] == edge_lines(rest)[i - 1]);
            }
        }
    }
}

proof fn lemma_skip_lines(draft: Draft, list: Seq<(Seq<char>, Seq<char>)>, number: nat)
    requires
        forall|i: int|
            0 <= i < list.len() ==> is_field((#[trigger] list[i]).0) && is_last_field(list[i].1),
    ensures
        forall|i: int| 0 <= i < list.len() ==> is_line(#[trigger] skip_lines(list)[i]),
        read_lines(draft, skip_lines(list), number) == Ok::<Draft, Fault>(
            Draft { skipped: draft.skipped + list, ..draft },
        ),
    decreases list.len(),
{
    let lines = skip_lines(list);
    if list.len() == 0 {
        assert(draft.skipped + list =~= draft.skipped);
    } else {
        let rest = list.skip(1);
        assert forall|i: int| 0 <= i < rest.len() implies is_field((#[trigger] rest[i]).0)
            && is_last_field(rest[i].1) by {
            assert(rest[i] == list[i + 1]);
        }
        lemma_skip(draft, list[0]);
        let next = Draft { skipped: draft.skipped.push(list[0]), ..draft };
        lemma_skip_lines(next, rest, number + 1);
        assert(lines.skip(1) =~= skip_lines(rest));
        assert(lines[0] == skip_line(list[0]));
        assert(draft.skipped.push(list[0]) + rest =~= draft.skipped + list);
        assert forall|i: int| 0 <= i < list.len() implies is_line(#[trigger] lines[i]) by {
            if i > 0 {
                assert(lines[i] == skip_lines(rest)[i - 1]);
            }
        }
    }
}

/// Packages without their edges.
spec fn bare(packages: resolve::Packages) -> resolve::Packages {
    packages.map_values(
        |e: (PackageIdModel, ResolvedPackageModel)|
            (e.0, bare_package(e.1.id, e.1.tarball, e.1.integrity)),
    )
}

proof fn lemma_package_lines(draft: Draft, packages: resolve::Packages, at: int, number: nat)
    requires
        0 <= at <= packages.len(),
        sorted::ascending(packages),
        forall|i: int|
            0 <= i < packages.len() ==> package_writable((#[trigger] packages[i]).1)
                && packages[i].0 == packages[i].1.id,
        draft.packages == bare(packages).take(at),
    ensures
        forall|i: int|
            at <= i < packages.len() ==> is_line(#[trigger] package_lines(packages)[i]),
        read_lines(draft, package_lines(packages.skip(at)), number) == Ok::<Draft, Fault>(
            Draft { packages: bare(packages), ..draft },
        ),
    decreases packages.len() - at,
{
    let lines = package_lines(packages.skip(at));
    let all = bare(packages);
    if at == packages.len() {
        assert(all.take(at) =~= all);
        assert(lines =~= Seq::empty());
    } else {
        let p = packages[at].1;
        lemma_package(draft, p);
        let value = bare_package(p.id, p.tarball, p.integrity);
        assert forall|i: int| 0 <= i < draft.packages.len() implies order::precedes(
            (#[trigger] draft.packages[i]).0.rank(),
            p.id.rank(),
        ) by {
            assert(draft.packages[i].0 == packages[i].0);
            assert(packages[at].0 == p.id);
        }
        sorted::lemma_put_last(draft.packages, p.id, value);
        let next = Draft { packages: draft.packages.push((p.id, value)), ..draft };
        assert(next.packages =~= all.take(at + 1));
        lemma_package_lines(next, packages, at + 1, number + 1);
        assert(lines.skip(1) =~= package_lines(packages.skip(at + 1)));
        assert(lines[0] == package_line(p));
        assert(package_lines(packages)[at] == package_line(p));
    }
}

/// Packages of which the first `at` have all their edges, the next one has its
/// first `count`, and the others have none.
spec fn filled(packages: resolve::Packages, at: int, count: int) -> resolve::Packages {
    Seq::new(
        packages.len(),
        |i: int|
            (
                packages[i].0,
                ResolvedPackageModel {
                    dependencies: if i < at {
                        packages[i].1.dependencies
                    } else if i == at {
                        packages[i].1.dependencies.take(count)
                    } else {
                        Seq::empty()
                    },
                    ..packages[i].1
                },
            ),
    )
}

/// Attaching the edges that are left fills the packages that are left.
proof fn lemma_attached(packages: resolve::Packages, at: int, count: int)
    requires
        sorted::ascending(packages),
        forall|i: int| 0 <= i < packages.len() ==> (#[trigger] packages[i]).0 == packages[i].1.id,
        0 <= at < packages.len(),
        0 <= count <= packages[at].1.dependencies.len(),
    ensures
        attached(
            filled(packages, at, count),
            edges_from(packages[at].1).skip(count) + all_edges(packages.skip(at + 1)),
        ) == Ok::<resolve::Packages, Fault>(packages),
    decreases packages.len() - at, packages[at].1.dependencies.len() - count,
{
    let p = packages[at].1;
    let now = filled(packages, at, count);
    let here = edges_from(p);
    let rest = all_edges(packages.skip(at + 1));
    let left = here.skip(count) + rest;
    if count < p.dependencies.len() {
        let edge = p.dependencies[count];
        assert(left[0] == (p.id, edge));
        assert(left.skip(1) =~= here.skip(count + 1) + rest);
        assert forall|i: int, j: int| 0 <= i < j < now.len() implies order::precedes(
            (#[trigger] now[i]).0.rank(),
            (#[trigger] now[j]).0.rank(),
        ) by {
            assert(now[i].0 == packages[i].0 && now[j].0 == packages[j].0);
        }
        assert(now[at].0 == p.id);
        sorted::lemma_holds_at(now, p.id, at);
        let found = now[at].1;
        let fuller = ResolvedPackageModel {
            dependencies: found.dependencies.push(edge),
            ..found
        };
        let next = filled(packages, at, count + 1);
        assert(found.dependencies.push(edge) =~= p.dependencies.take(count + 1));
        assert(sorted::put(now, p.id, fuller) =~= next);
        lemma_attached(packages, at, count + 1);
    } else {
        assert(here.skip(count) =~= Seq::empty());
        assert(left =~= rest);
        assert(p.dependencies.take(count) =~= p.dependencies);
        if at + 1 == packages.len() {
            assert(packages.skip(at + 1) =~= Seq::empty());
            assert forall|i: int| 0 <= i < packages.len() implies now[i] == packages[i] by {
                assert(now[i].1 =~= packages[i].1);
            }
            assert(now =~= packages);
        } else {
            let next = filled(packages, at + 1, 0);
            assert(packages[at + 1].1.dependencies.take(0) =~= Seq::empty());
            assert(now =~= next);
            lemma_attached(packages, at + 1, 0);
            assert(edges_from(packages[at + 1].1).skip(0) =~= edges_from(packages[at + 1].1));
            assert(packages.skip(at + 1).skip(1) =~= packages.skip(at + 2));
        }
    }
}

proof fn lemma_all_edges_writable(packages: resolve::Packages)
    requires
        forall|i: int| 0 <= i < packages.len() ==> package_writable((#[trigger] packages[i]).1),
    ensures
        forall|i: int|
            0 <= i < all_edges(packages).len() ==> is_field(
                (#[trigger] all_edges(packages)[i]).0.name,
            ) && is_version_field(all_edges(packages)[i].0.version) && is_field(
                all_edges(packages)[i].1.name,
            ) && is_version_field(all_edges(packages)[i].1.version) && is_last_field(
                all_edges(packages)[i].1.spec,
            ),
    decreases packages.len(),
{
    if packages.len() > 0 {
        let rest = packages.skip(1);
        assert forall|i: int| 0 <= i < rest.len() implies package_writable(
            (#[trigger] rest[i]).1,
        ) by {
            assert(rest[i] == packages[i + 1]);
        }
        lemma_all_edges_writable(rest);
        let p = packages[0].1;
        let here = edges_from(p);
        let all = all_edges(packages);
        assert(package_writable(p));
        assert forall|i: int| 0 <= i < all.len() implies is_field((#[trigger] all[i]).0.name)
            && is_version_field(all[i].0.version) && is_field(all[i].1.name) && is_version_field(
            all[i].1.version,
        ) && is_last_field(all[i].1.spec) by {
            if i < here.len() {
                assert(all[i] == (p.id, p.dependencies[i]));
            } else {
                assert(all[i] == all_edges(rest)[i - here.len()]);
            }
        }
    }
}

/// Reading gives back what was written; what was skipped comes back sorted.
pub proof fn lockfile_reads_back(r: ResolutionModel)
    requires
        writable(r),
    ensures
        resolution_of(lockfile_text(r)) == Ok::<ResolutionModel, Fault>(
            ResolutionModel { skipped: sorted::stable_sorted(r.skipped), ..r },
        ),
{
    let skips = sorted::stable_sorted(r.skipped);
    lemma_sorted_skips(r.skipped);
    let links = all_edges(r.packages);
    lemma_all_edges_writable(r.packages);
    let a = require_lines(r.requirements);
    let b = package_lines(r.packages);
    let c = edge_lines(links);
    let d = skip_lines(skips);
    let d0 = empty_draft();
    lemma_require_lines(d0, r.requirements, 2);
    let d1 = Draft { requirements: d0.requirements + r.requirements, ..d0 };
    assert(d0.requirements + r.requirements =~= r.requirements);
    assert(d1.packages =~= bare(r.packages).take(0));
    lemma_package_lines(d1, r.packages, 0, 2 + a.len());
    assert(r.packages.skip(0) =~= r.packages);
    let d2 = Draft { packages: bare(r.packages), ..d1 };
    lemma_edge_lines(d2, links, 2 + a.len() + b.len());
    let d3 = Draft { edges: d2.edges + links, ..d2 };
    assert(d2.edges + links =~= links);
    lemma_skip_lines(d3, skips, 2 + a.len() + b.len() + c.len());
    let d4 = Draft { skipped: d3.skipped + skips, ..d3 };
    assert(d3.skipped + skips =~= skips);
    // All lines together.
    let body = a + b + c + d;
    assert(body =~= a + (b + (c + d)));
    lemma_read_concat(d0, a, b + (c + d), 2);
    lemma_read_concat(d1, b, c + d, 2 + a.len());
    lemma_read_concat(d2, c, d, 2 + a.len() + b.len());
    assert(read_lines(d0, body, 2) == Ok::<Draft, Fault>(d4));
    // The text cuts into these lines.
    let all = lockfile_lines(r);
    let header = "opal-lock 1"@;
    assert(all =~= seq![header] + body);
    assert(all.skip(1) =~= body);
    lemma_header();
    assert forall|i: int| 0 <= i < all.len() implies is_line(#[trigger] all[i]) by {
        if i > 0 {
            let k = i - 1;
            if k < a.len() {
                assert(all[i] == a[k]);
            } else if k < a.len() + b.len() {
                assert(all[i] == b[k - a.len()]);
            } else if k < a.len() + b.len() + c.len() {
                assert(all[i] == c[k - a.len() - b.len()]);
            } else {
                assert(all[i] == d[k - a.len() - b.len() - c.len()]);
            }
        }
    }
    lemma_lines_read_back(all);
    // The edges find their packages.
    if r.packages.len() > 0 {
        assert forall|i: int| 0 <= i < r.packages.len() implies bare(r.packages)[i] == filled(
            r.packages,
            0,
            0,
        )[i] by {
            assert(r.packages[i].1.dependencies.take(0) =~= Seq::empty());
        }
        assert(bare(r.packages) =~= filled(r.packages, 0, 0));
        lemma_attached(r.packages, 0, 0);
        assert(edges_from(r.packages[0].1).skip(0) =~= edges_from(r.packages[0].1));
    } else {
        assert(bare(r.packages) =~= r.packages);
        assert(links =~= Seq::empty());
    }
}

proof fn lemma_sorted_skips(list: Seq<(Seq<char>, Seq<char>)>)
    requires
        forall|i: int|
            0 <= i < list.len() ==> is_field((#[trigger] list[i]).0) && is_last_field(list[i].1),
    ensures
        forall|i: int|
            0 <= i < sorted::stable_sorted(list).len() ==> is_field(
                (#[trigger] sorted::stable_sorted(list)[i]).0,
            ) && is_last_field(sorted::stable_sorted(list)[i].1),
{
    let all = sorted::stable_sorted(list);
    sorted::sorting_orders_and_keeps(list);
    assert forall|i: int| 0 <= i < all.len() implies is_field((#[trigger] all[i]).0)
        && is_last_field(all[i].1) by {
        broadcast use vstd::seq_lib::group_to_multiset_ensures;

        let one = all[i];
        assert(all.contains(one));
        assert(all.to_multiset().count(one) > 0);
        assert(list.contains(one));
        let j = choose|j: int| 0 <= j < list.len() && list[j] == one;
        assert(is_field(list[j].0));
    }
}

proof fn lemma_header()
    ensures
        is_line("opal-lock 1"@),
        format_of("opal-lock 1"@) == "1"@,
{
    reveal_strlit("opal-lock 1");
    reveal_strlit("opal-lock ");
    reveal_strlit("1");
    let header = "opal-lock 1"@;
    let head = "opal-lock "@;
    assert(header.take(head.len() as int) =~= head);
    let rest = header.skip(head.len() as int);
    assert(rest =~= "1"@);
    text::lemma_trimmed_same(rest);
    assert(header.last() == '1');
}

/// A lockfile of another format is refused, with the format that it names.
pub proof fn other_formats_are_refused(format: nat, rest: Seq<char>)
    requires
        format != 1,
    ensures
        resolution_of("opal-lock "@ + text::decimal(format) + "\n"@ + rest) == Err::<
            ResolutionModel,
            Fault,
        >(Fault::Version { found: text::decimal(format) }),
{
    reveal_strlit("opal-lock ");
    reveal_strlit("\n");
    reveal_strlit("1");
    let n = text::decimal(format);
    let head = "opal-lock "@;
    let line = head + n;
    text::lemma_decimal(format);
    assert(text::is_digit(n[0]) && text::is_digit(n[n.len() - 1]));
    assert forall|k: int| 0 <= k < line.len() implies #[trigger] line[k] != '\n' by {
        if k >= head.len() {
            assert(line[k] == n[k - head.len()]);
            assert(text::is_digit(n[k - head.len()]));
        }
    }
    assert(line.last() == n[n.len() - 1]);
    let s = head + n + "\n"@ + rest;
    assert(s =~= line + seq!['\n'] + rest);
    text::lemma_lines_step(line, rest);
    assert(line.take(head.len() as int) =~= head);
    assert(line.skip(head.len() as int) =~= n);
    text::lemma_trimmed_same(n);
    if n == "1"@ {
        assert(n =~= seq!['1']);
        reveal_with_fuel(text::digits_value, 2);
        assert(n.drop_last() =~= Seq::empty());
    }
}

} // verus!
