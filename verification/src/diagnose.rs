//! Explaining an unresolved import.
//!
//! The graph reports a specifier it could not resolve, and stops there: it has
//! no idea whether the package was supposed to be installed. This module joins
//! that report to the `package.json` that declared (or failed to declare) the
//! dependency, which is what separates "an optional peer is absent, as expected"
//! from "this tree is broken".
//!
//! The motivating case: `npm install express` pulls in `debug`, which declares
//! `supports-color` as an optional peer dependency. It is legitimately absent.
//! Without this, it would be reported exactly like a genuinely missing package.

use vstd::prelude::*;
use crate::graph::exports;
use crate::graph::{DependencyModel, ModuleGraph, ModuleModel};
use crate::manifest::{DependencyClass, Manifest, ManifestModel, RequirementModel};
use crate::order::Rank;
use crate::path::NormalizedPath;
use crate::sorted::SortedMap;
use crate::{graph, manifest, order, path, sorted, text};

verus! {

/// How serious it is that something is absent.
#[derive(Clone, Copy, PartialEq, Eq, Debug, Structural)]
pub enum Severity {
    /// Absent on purpose: an optional or peer dependency.
    Informational,
    /// A declared dependency that is not installed, or an import of a package
    /// nothing declared.
    Error,
}

/// An import that leads nowhere.
#[derive(PartialEq, Eq, Debug)]
pub struct Unresolved {
    pub importer: NormalizedPath,
    pub specifier: String,
    pub package: String,
    pub class: Option<DependencyClass>,
    pub severity: Severity,
}

/// What an `Unresolved` stands for.
#[verifier::ext_equal]
pub struct UnresolvedModel {
    pub importer: Seq<char>,
    pub specifier: Seq<char>,
    pub package: Seq<char>,
    pub class: Option<DependencyClass>,
    pub severity: Severity,
}

impl View for Unresolved {
    type V = UnresolvedModel;

    open spec fn view(&self) -> UnresolvedModel {
        UnresolvedModel {
            importer: self.importer@,
            specifier: self.specifier@,
            package: self.package@,
            class: self.class,
            severity: self.severity,
        }
    }
}

/// What an import that leads nowhere means.
pub open spec fn explanation(u: UnresolvedModel) -> Seq<char> {
    match (u.class, u.severity) {
        (Some(class), Severity::Informational) => u.package + " is an absent "@
            + manifest::class_label(class),
        (Some(class), Severity::Error) => u.package + " is a declared "@ + manifest::class_label(
            class,
        ) + " but is not installed — run `opal install`"@,
        (None, _) => u.package + " is imported by "@ + u.importer
            + " but declared by nothing"@,
    }
}

impl Unresolved {
    /// What the import means.
    pub fn explain(&self) -> (r: String)
        ensures
            r@ == explanation(self@),
    {
        let mut out = text::chars_of(self.package.as_str());
        match self.class {
            Some(class) => {
                if self.severity == Severity::Informational {
                    text::append_str(&mut out, " is an absent ");
                    text::append_str(&mut out, class.label());
                } else {
                    text::append_str(&mut out, " is a declared ");
                    text::append_str(&mut out, class.label());
                    text::append_str(&mut out, " but is not installed — run `opal install`");
                }
            },
            None => {
                text::append_str(&mut out, " is imported by ");
                text::append_str(&mut out, self.importer.as_str());
                text::append_str(&mut out, " but declared by nothing");
            },
        }
        text::string_of(&out)
    }
}

/// A `package.json` that is there, and what it says where it can be read.
#[derive(PartialEq, Eq, Debug)]
pub struct Found {
    pub manifest: Option<Manifest>,
}

impl View for Found {
    type V = Option<ManifestModel>;

    open spec fn view(&self) -> Option<ManifestModel> {
        text::view_of(self.manifest)
    }
}

/// The manifests below a project, by root-relative directory.
pub type Manifests = Seq<(Seq<char>, Option<ManifestModel>)>;

/// The directory above one, up to the project root, which is `.`.
pub open spec fn above(directory: Seq<char>) -> Option<Seq<char>> {
    if directory == path::here() {
        None
    } else {
        match text::last_index(directory, '/') {
            Some(at) => if at > 0 {
                Some(path::normal(directory.take(at)))
            } else if directory.len() > 1 {
                Some(seq!['/'])
            } else {
                None
            },
            None => Some(path::here()),
        }
    }
}

/// The manifest governing a directory: that of the closest one at or above it
/// that has one, stopping at the project root.
pub open spec fn nearest(manifests: Manifests, directory: Seq<char>, climbs: nat) -> Option<
    ManifestModel,
>
    decreases climbs,
{
    match sorted::lookup(manifests, directory) {
        Some(found) => found,
        None => match above(directory) {
            Some(parent) => if climbs > 0 {
                nearest(manifests, parent, (climbs - 1) as nat)
            } else {
                None
            },
            None => None,
        },
    }
}

/// The directory of a module.
pub open spec fn directory_of(module: Seq<char>) -> Seq<char> {
    match path::parent_of(module) {
        Some(parent) => parent,
        None => path::here(),
    }
}

/// Whether a specifier names a file: one that does not resolve is a broken file
/// reference, not a packaging question.
pub open spec fn names_a_file(specifier: Seq<char>) -> bool {
    specifier.len() > 0 && (specifier[0] == '.' || specifier[0] == '/')
}

/// What an edge that leads nowhere comes to.
pub open spec fn finding(manifests: Manifests, module: ModuleModel, edge: DependencyModel) ->
    UnresolvedModel {
    let package = exports::bare_parts(edge.specifier).0;
    let directory = directory_of(module.path);
    let class = match nearest(manifests, directory, directory.len()) {
        Some(manifest) => manifest::class_named(manifest.requirements, package),
        None => None,
    };
    UnresolvedModel {
        importer: module.path,
        specifier: edge.specifier,
        package,
        class,
        severity: if class matches Some(class) && manifest::absence_is_tolerated(class) {
            Severity::Informational
        } else {
            Severity::Error
        },
    }
}

/// What the edges that lead nowhere come to.
pub open spec fn findings(manifests: Manifests, edges: Seq<(ModuleModel, DependencyModel)>) -> Seq<
    UnresolvedModel,
>
    decreases edges.len(),
{
    if edges.len() == 0 {
        Seq::empty()
    } else {
        let front = findings(manifests, edges.drop_last());
        let (module, edge) = edges.last();
        if names_a_file(edge.specifier) {
            front
        } else {
            front.push(finding(manifests, module, edge))
        }
    }
}

fn step_up(directory: &NormalizedPath) -> (r: Option<NormalizedPath>)
    ensures
        text::view_of(r) == above(directory@),
{
    proof {
        reveal_strlit(".");
        reveal_strlit("/");
        assert("."@ =~= path::here());
        assert("/"@ =~= seq!['/']);
        path::lemma_here_is_normal();
        path::lemma_root_is_normal();
    }
    let chars = text::chars_of(directory.as_str());
    if text::spells(&chars, ".") {
        return None;
    }
    match text::last_index_of(&chars, '/') {
        Some(at) => {
            if at > 0 {
                Some(NormalizedPath::new(text::string_of(text::before(&chars, at)).as_str()))
            } else if chars.len() > 1 {
                Some(NormalizedPath::new("/"))
            } else {
                None
            }
        },
        None => Some(NormalizedPath::new(".")),
    }
}

fn nearest_manifest<'a>(
    manifests: &'a SortedMap<NormalizedPath, Found>,
    directory: &NormalizedPath,
) -> (r: Option<&'a Manifest>)
    ensures
        match r {
            Some(found) => nearest(manifests@, directory@, directory@.len()) == Some(found@),
            None => nearest(manifests@, directory@, directory@.len()) is None,
        },
{
    let mut current = directory.clone();
    let mut climbs: usize = text::chars_of(directory.as_str()).len();
    loop
        invariant
            nearest(manifests@, directory@, directory@.len()) == nearest(
                manifests@,
                current@,
                climbs as nat,
            ),
        decreases climbs,
    {
        if let Some(found) = manifests.get(&current) {
            return found.manifest.as_ref();
        }
        match step_up(&current) {
            Some(parent) => {
                if climbs == 0 {
                    return None;
                }
                climbs = climbs - 1;
                current = parent;
            },
            None => {
                return None;
            },
        }
    }
}

/// A directory and those above it, up to the project root.
pub open spec fn chain(directory: Seq<char>, climbs: nat) -> Seq<Seq<char>>
    decreases climbs,
{
    match above(directory) {
        Some(parent) => if climbs > 0 {
            seq![directory] + chain(parent, (climbs - 1) as nat)
        } else {
            seq![directory]
        },
        None => seq![directory],
    }
}

/// The directories whose manifests matter for edges that lead nowhere.
pub open spec fn chains(edges: Seq<(ModuleModel, DependencyModel)>) -> Seq<Seq<char>>
    decreases edges.len(),
{
    if edges.len() == 0 {
        Seq::empty()
    } else {
        let directory = directory_of(edges.last().0.path);
        chains(edges.drop_last()) + chain(directory, directory.len())
    }
}

/// The directories whose manifests matter for a graph: from each module with an
/// edge that leads nowhere, up to the project root.
pub fn directories(graph: &ModuleGraph) -> (r: Vec<NormalizedPath>)
    ensures
        sorted::list_views(r@) == chains(graph::unresolved_of(graph@.modules)),
{
    let edges = graph.unresolved();
    let ghost all = graph::unresolved_of(graph@.modules);
    let mut out: Vec<NormalizedPath> = Vec::new();
    let mut i: usize = 0;
    assert(all.len() == edges@.len());
    assert(sorted::list_views(out@) =~= chains(all.take(0)));
    while i < edges.len()
        invariant
            i <= edges@.len(),
            all.len() == edges@.len(),
            all == graph::edge_views(edges@),
            sorted::list_views(out@) == chains(all.take(i as int)),
        decreases edges@.len() - i,
    {
        proof {
            assert(all[i as int].0 == edges@[i as int].0@);
            assert(all.take(i + 1).drop_last() =~= all.take(i as int));
            assert(all.take(i + 1).last() == all[i as int]);
        }
        let start = module_directory(&edges[i].0.path);
        let climbs: usize = text::chars_of(start.as_str()).len();
        push_up(&mut out, &start, climbs);
        i += 1;
    }
    assert(all.take(i as int) =~= all);
    out
}

fn push_up(out: &mut Vec<NormalizedPath>, start: &NormalizedPath, climbs: usize)
    ensures
        sorted::list_views(final(out)@) == sorted::list_views(old(out)@) + chain(
            start@,
            climbs as nat,
        ),
    decreases climbs,
{
    let ghost before = sorted::list_views(out@);
    out.push(start.clone());
    assert(sorted::list_views(out@) =~= before + seq![start@]);
    if let Some(parent) = step_up(start) {
        if climbs > 0 {
            push_up(out, &parent, climbs - 1);
            assert(sorted::list_views(out@) =~= before + chain(start@, climbs as nat));
        }
    }
}

/// What governs a directory rests on the manifests of the listed directories
/// alone: those elsewhere make no difference.
pub proof fn only_listed_directories_matter(
    a: Manifests,
    b: Manifests,
    directory: Seq<char>,
    climbs: nat,
)
    requires
        forall|i: int|
            0 <= i < chain(directory, climbs).len() ==> sorted::lookup(
                a,
                #[trigger] chain(directory, climbs)[i],
            ) == sorted::lookup(b, chain(directory, climbs)[i]),
    ensures
        nearest(a, directory, climbs) == nearest(b, directory, climbs),
    decreases climbs,
{
    let listed = chain(directory, climbs);
    assert(listed[0] == directory);
    if let Some(parent) = above(directory) {
        if climbs > 0 {
            let rest = chain(parent, (climbs - 1) as nat);
            assert forall|i: int| 0 <= i < rest.len() implies sorted::lookup(
                a,
                #[trigger] rest[i],
            ) == sorted::lookup(b, rest[i]) by {
                assert(listed[i + 1] == rest[i]);
            }
            only_listed_directories_matter(a, b, parent, (climbs - 1) as nat);
        }
    }
}

fn module_directory(module: &NormalizedPath) -> (r: NormalizedPath)
    ensures
        r@ == directory_of(module@),
{
    proof {
        reveal_strlit(".");
        assert("."@ =~= path::here());
        path::lemma_here_is_normal();
    }
    match module.parent() {
        Some(parent) => parent,
        None => NormalizedPath::new("."),
    }
}

/// Classifies every unresolved edge in a graph, given the manifests that are
/// there, by root-relative directory.
pub fn classify(graph: &ModuleGraph, manifests: &SortedMap<NormalizedPath, Found>) -> (r: Vec<
    Unresolved,
>)
    ensures
        sorted::list_views(r@) == findings(manifests@, graph::unresolved_of(graph@.modules)),
{
    let edges = graph.unresolved();
    let ghost all = graph::unresolved_of(graph@.modules);
    let mut out: Vec<Unresolved> = Vec::new();
    let mut i: usize = 0;
    assert(sorted::list_views(out@) =~= Seq::empty());
    assert(all.take(0) =~= Seq::empty());
    while i < edges.len()
        invariant
            i <= edges@.len(),
            all == graph::edge_views(edges@),
            sorted::list_views(out@) == findings(manifests@, all.take(i as int)),
        decreases edges@.len() - i,
    {
        let ghost before = sorted::list_views(out@);
        let module = edges[i].0;
        let edge = edges[i].1;
        proof {
            assert(all.take(i + 1).drop_last() =~= all.take(i as int));
            assert(all.take(i + 1).last() == (module@, edge@));
        }
        let chars = text::chars_of(edge.specifier.as_str());
        let is_file = chars.len() > 0 && (chars[0] == '.' || chars[0] == '/');
        if !is_file {
            let (package, _) = exports::split_bare_specifier(edge.specifier.as_str());
            let directory = module_directory(&module.path);
            let class = match nearest_manifest(manifests, &directory) {
                Some(found) => found.class_of(package.as_str()),
                None => None,
            };
            let tolerated = match class {
                Some(class) => class.tolerates_absence(),
                None => false,
            };
            let one = Unresolved {
                importer: module.path.clone(),
                specifier: edge.specifier.clone(),
                package,
                class,
                severity: if tolerated {
                    Severity::Informational
                } else {
                    Severity::Error
                },
            };
            out.push(one);
            assert(sorted::list_views(out@) =~= before.push(one@));
        }
        i += 1;
    }
    assert(all.len() == edges@.len());
    assert(all.take(i as int) =~= all);
    out
}

// ---------------------------------------------------------------------------
// What the findings say.

/// The directory that the first `k` names lead to from the project root.
pub open spec fn down(parts: Seq<Seq<char>>, k: int) -> Seq<char> {
    if k == 0 {
        path::here()
    } else {
        text::joined(parts.take(k), seq!['/'])
    }
}

proof fn lemma_above(parts: Seq<Seq<char>>, k: int)
    requires
        path::are_names(parts),
        0 < k <= parts.len(),
    ensures
        above(down(parts, k)) == Some(down(parts, k - 1)),
        k > 1 ==> down(parts, k - 1).len() < down(parts, k).len(),
        down(parts, k).len() > 0,
        k > 1 ==> path::are_names(parts.take(k - 1)),
    decreases parts.len() - k,
{
    let sep = seq!['/'];
    let some = parts.take(k);
    let whole = text::joined(some, sep);
    if k < parts.len() {
        lemma_above(parts, k + 1);
        assert(parts.take(k + 1 - 1) =~= some);
    } else {
        assert(some =~= parts);
    }
    assert(path::are_names(some));
    path::plain_paths_are_normal(some);
    let name = some.last();
    assert(path::is_segment(some[k - 1]));
    if k == 1 {
        assert(whole == name);
        text::lemma_last_index(Seq::empty(), name, '/');
        assert(whole != path::here());
    } else {
        let front = some.drop_last();
        assert(front =~= parts.take(k - 1));
        let directory = text::joined(front, sep);
        assert(path::is_segment(some[0]) && path::is_segment(front[k - 2]));
        assert(directory.len() > 0) by {
            if front.len() == 1 {
                assert(directory == front[0]);
            }
        }
        assert(whole == directory + sep + name);
        lemma_no_root(directory, sep + name);
        assert(directory + (sep + name) =~= whole);
        assert(path::are_names(front));
        path::plain_paths_are_normal(front);
        text::lemma_last_index(directory, name, '/');
        assert(whole.take(directory.len() as int) =~= directory);
        assert(whole != path::here());
    }
}

proof fn lemma_no_root(a: Seq<char>, b: Seq<char>)
    requires
        a.len() > 0,
        path::root_len(a + b) == 0,
    ensures
        path::root_len(a) == 0,
{
    assert((a + b)[0] == a[0]);
    if a.len() > 1 {
        assert((a + b)[1] == a[1]);
    }
}

proof fn lemma_nearest(manifests: Manifests, parts: Seq<Seq<char>>, k: int, n: int, climbs: nat)
    requires
        path::are_names(parts),
        0 <= k <= n <= parts.len(),
        climbs >= down(parts, n).len() || n == 0,
        forall|j: int| k < j <= n ==> sorted::lookup(manifests, #[trigger] down(parts, j)) is None,
    ensures
        match sorted::lookup(manifests, down(parts, k)) {
            Some(found) => nearest(manifests, down(parts, n), climbs) == found,
            None => k == 0 ==> nearest(manifests, down(parts, n), climbs) is None,
        },
    decreases n,
{
    if n > k {
        lemma_above(parts, n);
        assert(sorted::lookup(manifests, down(parts, n)) is None);
        lemma_nearest(manifests, parts, k, n - 1, (climbs - 1) as nat);
    }
}

/// The manifest that governs a directory is that of the closest one at or above it: of
/// the directory itself where it has one, else of the next one up that has, the project
/// root last. Where none has one, nothing governs it.
pub proof fn closest_manifests_govern(manifests: Manifests, parts: Seq<Seq<char>>, k: int)
    requires
        path::are_names(parts),
        0 <= k <= parts.len(),
        forall|j: int|
            k < j <= parts.len() ==> sorted::lookup(manifests, #[trigger] down(parts, j)) is None,
    ensures
        ({
            let directory = text::joined(parts, seq!['/']);
            match sorted::lookup(manifests, down(parts, k)) {
                Some(found) => nearest(manifests, directory, directory.len()) == found,
                None => k == 0 ==> nearest(manifests, directory, directory.len()) is None,
            }
        }),
{
    let n = parts.len() as int;
    assert(parts.take(n) =~= parts);
    lemma_nearest(manifests, parts, k, n, text::joined(parts, seq!['/']).len());
}

proof fn lemma_class_named(list: Seq<RequirementModel>, name: Seq<char>)
    ensures
        match manifest::class_named(list, name) {
            Some(class) => exists|i: int|
                0 <= i < list.len() && (#[trigger] list[i]).name == name && list[i].class == class
                    && forall|j: int| 0 <= j < i ==> (#[trigger] list[j]).name != name,
            None => forall|i: int| 0 <= i < list.len() ==> (#[trigger] list[i]).name != name,
        },
    decreases list.len(),
{
    if list.len() > 0 && list[0].name != name {
        let rest = list.skip(1);
        lemma_class_named(rest, name);
        match manifest::class_named(list, name) {
            Some(class) => {
                let i = choose|i: int|
                    0 <= i < rest.len() && (#[trigger] rest[i]).name == name && rest[i].class
                        == class && forall|j: int| 0 <= j < i ==> (#[trigger] rest[j]).name != name;
                assert(list[i + 1] == rest[i]);
                assert forall|j: int| 0 <= j < i + 1 implies (#[trigger] list[j]).name != name by {
                    if j > 0 {
                        assert(rest[j - 1] == list[j]);
                    }
                }
            },
            None => {
                assert forall|i: int| 0 <= i < list.len() implies (#[trigger] list[i]).name
                    != name by {
                    if i > 0 {
                        assert(rest[i - 1] == list[i]);
                    }
                }
            },
        }
    }
}

/// Whether a requirement of a list is for a package.
pub open spec fn declares(list: Seq<RequirementModel>, name: Seq<char>) -> bool {
    exists|i: int| 0 <= i < list.len() && (#[trigger] list[i]).name == name
}

/// Whether a requirement of a list is for a package, in a class.
pub open spec fn declares_as(
    list: Seq<RequirementModel>,
    name: Seq<char>,
    class: DependencyClass,
) -> bool {
    exists|i: int| 0 <= i < list.len() && (#[trigger] list[i]).name == name && list[i].class == class
}

/// An import of a package that is not there is an error, unless the governing manifest
/// declares the package, and declares it in no class but those whose absence is fine:
/// optional dependencies, and peers. One that nothing declares has no class.
pub proof fn only_optional_packages_may_be_absent(
    manifests: Manifests,
    module: ModuleModel,
    edge: DependencyModel,
    manifest: ManifestModel,
)
    requires
        ({
            let directory = directory_of(module.path);
            nearest(manifests, directory, directory.len()) == Some(manifest)
        }),
        sorted::in_order(manifest.requirements),
    ensures
        ({
            let found = finding(manifests, module, edge);
            let list = manifest.requirements;
            &&& found.importer == module.path
            &&& found.specifier == edge.specifier
            &&& found.package == exports::bare_parts(edge.specifier).0
            &&& found.class is Some <==> declares(list, found.package)
            &&& found.class matches Some(class) ==> declares_as(list, found.package, class)
            &&& found.severity == Severity::Informational <==> declares(list, found.package)
                && !declares_as(list, found.package, DependencyClass::Runtime)
                && !declares_as(list, found.package, DependencyClass::Development)
        }),
{
    let list = manifest.requirements;
    let found = finding(manifests, module, edge);
    let name = found.package;
    lemma_class_named(list, name);
    if let Some(class) = found.class {
        let i = choose|i: int|
            0 <= i < list.len() && (#[trigger] list[i]).name == name && list[i].class == class
                && forall|j: int| 0 <= j < i ==> (#[trigger] list[j]).name != name;
        assert(declares_as(list, name, class));
        assert forall|j: int| 0 <= j < list.len() && (#[trigger] list[j]).name == name implies
            manifest::class_place(class) <= manifest::class_place(list[j].class) by {
            if i < j {
                assert(!order::precedes(list[j].rank(), list[i].rank()));
            }
        }
    }
}

/// An import that leads nowhere and that no manifest governs is an error.
pub proof fn ungoverned_imports_are_errors(
    manifests: Manifests,
    module: ModuleModel,
    edge: DependencyModel,
)
    requires
        ({
            let directory = directory_of(module.path);
            nearest(manifests, directory, directory.len()) is None
        }),
    ensures
        finding(manifests, module, edge).class is None,
        finding(manifests, module, edge).severity == Severity::Error,
{
}

/// There is a finding for every import of a package that leads nowhere, and for nothing
/// else: a specifier that is a path is a broken file reference.
pub proof fn findings_are_of_packages(
    manifests: Manifests,
    edges: Seq<(ModuleModel, DependencyModel)>,
    found: UnresolvedModel,
)
    ensures
        findings(manifests, edges).contains(found) <==> exists|i: int|
            0 <= i < edges.len() && found == finding(
                manifests,
                (#[trigger] edges[i]).0,
                edges[i].1,
            ) && !(edges[i].1.specifier.len() > 0 && (edges[i].1.specifier[0] == '.'
                || edges[i].1.specifier[0] == '/')),
    decreases edges.len(),
{
    let all = findings(manifests, edges);
    if edges.len() > 0 {
        let rest = edges.drop_last();
        let front = findings(manifests, rest);
        let (module, edge) = edges[edges.len() - 1];
        findings_are_of_packages(manifests, rest, found);
        if all.contains(found) {
            let k = choose|k: int| 0 <= k < all.len() && all[k] == found;
            if k < front.len() {
                assert(front[k] == found);
                assert(front.contains(found));
                let i = choose|i: int|
                    0 <= i < rest.len() && found == finding(
                        manifests,
                        (#[trigger] rest[i]).0,
                        rest[i].1,
                    ) && !(rest[i].1.specifier.len() > 0 && (rest[i].1.specifier[0] == '.'
                        || rest[i].1.specifier[0] == '/'));
                assert(edges[i] == rest[i]);
            }
        }
        if exists|i: int|
            0 <= i < edges.len() && found == finding(
                manifests,
                (#[trigger] edges[i]).0,
                edges[i].1,
            ) && !(edges[i].1.specifier.len() > 0 && (edges[i].1.specifier[0] == '.'
                || edges[i].1.specifier[0] == '/')) {
            let i = choose|i: int|
                0 <= i < edges.len() && found == finding(
                    manifests,
                    (#[trigger] edges[i]).0,
                    edges[i].1,
                ) && !(edges[i].1.specifier.len() > 0 && (edges[i].1.specifier[0] == '.'
                    || edges[i].1.specifier[0] == '/'));
            if i < rest.len() {
                assert(rest[i] == edges[i]);
                let k = choose|k: int| 0 <= k < front.len() && front[k] == found;
                assert(all[k] == found);
            } else {
                assert(all[all.len() - 1] == found);
            }
        }
    }
}

/// The directories that are listed for a graph are enough: for each edge that leads
/// nowhere they hold its module's directory and all that lie above it.
pub proof fn directories_of_every_importer_are_listed(
    edges: Seq<(ModuleModel, DependencyModel)>,
    i: int,
    k: int,
)
    requires
        0 <= i < edges.len(),
        ({
            let directory = directory_of(edges[i].0.path);
            0 <= k < chain(directory, directory.len()).len()
        }),
    ensures
        ({
            let directory = directory_of(edges[i].0.path);
            chains(edges).contains(chain(directory, directory.len())[k])
        }),
    decreases edges.len(),
{
    let rest = edges.drop_last();
    let all = chains(edges);
    let front = chains(rest);
    let directory = directory_of(edges[i].0.path);
    let wanted = chain(directory, directory.len())[k];
    if i < rest.len() {
        assert(rest[i] == edges[i]);
        directories_of_every_importer_are_listed(rest, i, k);
        let j = choose|j: int| 0 <= j < front.len() && front[j] == wanted;
        assert(all[j] == wanted);
    } else {
        assert(all[front.len() + k] == wanted);
    }
}

} // verus!
