//! The module graph: what every Opal tool consumes.
//!
//! A graph is defined *relative to a project root*. Module paths, trace paths,
//! and diagnostics are all root-relative, and the absolute root lives only in
//! memory. That is what lets one cached graph serve the same project checked
//! out at a different path, in a different container, on a different machine.
//!
//! Modules are stored sorted by path and ids are assigned in that order, so a
//! graph built by walking imports and a graph loaded from cache are identical
//! structures, not merely equivalent ones.

pub mod ends;
pub mod exports;
pub mod leads;
pub mod memo;
pub mod places;
pub mod resolver;
pub mod shape;
pub mod syntax;

use vstd::prelude::*;
use crate::graph::memo::MemoError;
use crate::graph::resolver::ResolveError;
use crate::hash::{ContentHash, HashBuilder};
use crate::order::{Order, Rank, Ranked};
use crate::path::NormalizedPath;
use crate::sorted::SortedMap;
use crate::{hash, order, path, sorted, text};

verus! {

/// Bumped when the serialized shape changes; older snapshots then miss instead
/// of being misread.
pub const SNAPSHOT_VERSION: u32 = 1;

/// What went wrong with a graph.
#[derive(Debug)]
pub enum GraphError {
    Resolve(ResolveError),
    Memo(MemoError),
}

impl GraphError {
    /// The message shown to the user.
    pub fn to_string(&self) -> (r: String)
        ensures
            r@ == match self {
                GraphError::Resolve(e) => resolver::resolve_error_text(e@),
                GraphError::Memo(e) => memo::memo_error_text(*e),
            },
    {
        match self {
            GraphError::Resolve(e) => e.to_string(),
            GraphError::Memo(e) => e.to_string(),
        }
    }
}

// ---------------------------------------------------------------------------
// What a graph is made of.

/// Index into the modules of a graph.
#[derive(Clone, Copy, PartialEq, Eq, PartialOrd, Ord, Hash, Debug, Structural)]
pub struct ModuleId(usize);

impl View for ModuleId {
    type V = usize;

    closed spec fn view(&self) -> usize {
        self.0
    }
}

impl ModuleId {
    /// The id of the module at a position.
    pub fn new(index: usize) -> (r: Self)
        ensures
            r@ == index,
    {
        ModuleId(index)
    }

    /// The position of the module.
    pub fn index(self) -> (r: usize)
        ensures
            r == self@,
    {
        self.0
    }
}

/// What the file is written in.
#[derive(Clone, Copy, PartialEq, Eq, Debug, Structural)]
pub enum SourceKind {
    JavaScript,
    Jsx,
    TypeScript,
    Tsx,
    Json,
    /// Anything that is not parsed for imports: `.node`, `.wasm`, assets.
    /// Real packages `require` these, so they are graph nodes, just leaves.
    Opaque,
}

/// Whether files of a kind are parsed for imports.
pub open spec fn is_parsed_kind(kind: SourceKind) -> bool {
    kind is JavaScript || kind is Jsx || kind is TypeScript || kind is Tsx
}

/// How a kind is called.
pub open spec fn kind_word(kind: SourceKind) -> Seq<char> {
    match kind {
        SourceKind::JavaScript => "JavaScript"@,
        SourceKind::Jsx => "Jsx"@,
        SourceKind::TypeScript => "TypeScript"@,
        SourceKind::Tsx => "Tsx"@,
        SourceKind::Json => "Json"@,
        SourceKind::Opaque => "Opaque"@,
    }
}

impl SourceKind {
    /// Whether files of this kind are parsed for imports.
    pub fn is_parsed(self) -> (r: bool)
        ensures
            r == is_parsed_kind(self),
    {
        match self {
            SourceKind::JavaScript => true,
            SourceKind::Jsx => true,
            SourceKind::TypeScript => true,
            SourceKind::Tsx => true,
            SourceKind::Json => false,
            SourceKind::Opaque => false,
        }
    }

    /// How the kind is called.
    pub fn name(self) -> (r: &'static str)
        ensures
            r@ == kind_word(self),
    {
        match self {
            SourceKind::JavaScript => "JavaScript",
            SourceKind::Jsx => "Jsx",
            SourceKind::TypeScript => "TypeScript",
            SourceKind::Tsx => "Tsx",
            SourceKind::Json => "Json",
            SourceKind::Opaque => "Opaque",
        }
    }
}

/// Which module semantics the file is loaded under.
#[derive(Clone, Copy, PartialEq, Eq, Debug, Structural)]
pub enum ModuleSystem {
    Esm,
    Cjs,
    /// JSON and opaque files, which have no import semantics of their own.
    NotApplicable,
}

/// How a module system is called.
pub open spec fn system_word(system: ModuleSystem) -> Seq<char> {
    match system {
        ModuleSystem::Esm => "Esm"@,
        ModuleSystem::Cjs => "Cjs"@,
        ModuleSystem::NotApplicable => "NotApplicable"@,
    }
}

impl ModuleSystem {
    /// How the module system is called.
    pub fn name(self) -> (r: &'static str)
        ensures
            r@ == system_word(self),
    {
        match self {
            ModuleSystem::Esm => "Esm",
            ModuleSystem::Cjs => "Cjs",
            ModuleSystem::NotApplicable => "NotApplicable",
        }
    }
}

/// How one module reaches another.
#[derive(Clone, Copy, PartialEq, Eq, Hash, Debug, Structural)]
pub enum DependencyKind {
    StaticImport,
    DynamicImport,
    Require,
    ExportFrom,
    /// TypeScript's `import x = require('y')`.
    TsImportEquals,
}

/// Whether an edge resolves under the `require` condition.
pub open spec fn requires_like(kind: DependencyKind) -> bool {
    kind is Require || kind is TsImportEquals
}

/// How a kind of edge is called.
pub open spec fn edge_word(kind: DependencyKind) -> Seq<char> {
    match kind {
        DependencyKind::StaticImport => "StaticImport"@,
        DependencyKind::DynamicImport => "DynamicImport"@,
        DependencyKind::Require => "Require"@,
        DependencyKind::ExportFrom => "ExportFrom"@,
        DependencyKind::TsImportEquals => "TsImportEquals"@,
    }
}

impl DependencyKind {
    /// Whether this edge resolves under the `require` export condition rather
    /// than `import`, the distinction Node makes when reading an `exports` map.
    pub fn is_require_like(self) -> (r: bool)
        ensures
            r == requires_like(self),
    {
        match self {
            DependencyKind::Require => true,
            DependencyKind::TsImportEquals => true,
            _ => false,
        }
    }

    /// How the kind is called.
    pub fn name(self) -> (r: &'static str)
        ensures
            r@ == edge_word(self),
    {
        match self {
            DependencyKind::StaticImport => "StaticImport",
            DependencyKind::DynamicImport => "DynamicImport",
            DependencyKind::Require => "Require",
            DependencyKind::ExportFrom => "ExportFrom",
            DependencyKind::TsImportEquals => "TsImportEquals",
        }
    }
}

/// Where a dependency points.
#[derive(PartialEq, Eq, Debug)]
pub enum DependencyTarget {
    Module { id: ModuleId },
    /// A Node builtin (`fs`, `node:path`), outside the graph by definition.
    Builtin { name: String },
    /// Recorded rather than fatal: a real project graph contains optional deps,
    /// platform-specific requires, and packages that are not installed yet.
    Unresolved { reason: String },
}

/// What a `DependencyTarget` stands for.
#[verifier::ext_equal]
pub enum TargetModel {
    Module { id: usize },
    Builtin { name: Seq<char> },
    Unresolved { reason: Seq<char> },
}

impl View for DependencyTarget {
    type V = TargetModel;

    open spec fn view(&self) -> TargetModel {
        match self {
            DependencyTarget::Module { id } => TargetModel::Module { id: id@ },
            DependencyTarget::Builtin { name } => TargetModel::Builtin { name: name@ },
            DependencyTarget::Unresolved { reason } => TargetModel::Unresolved { reason: reason@ },
        }
    }
}

impl Clone for DependencyTarget {
    fn clone(&self) -> (r: Self)
        ensures
            r@ == self@,
    {
        match self {
            DependencyTarget::Module { id } => DependencyTarget::Module { id: *id },
            DependencyTarget::Builtin { name } => DependencyTarget::Builtin { name: name.clone() },
            DependencyTarget::Unresolved { reason } => DependencyTarget::Unresolved {
                reason: reason.clone(),
            },
        }
    }
}

/// An edge of the graph.
#[derive(PartialEq, Eq, Debug)]
pub struct Dependency {
    pub specifier: String,
    pub kind: DependencyKind,
    pub target: DependencyTarget,
}

/// What a `Dependency` stands for.
#[verifier::ext_equal]
pub struct DependencyModel {
    pub specifier: Seq<char>,
    pub kind: DependencyKind,
    pub target: TargetModel,
}

impl View for Dependency {
    type V = DependencyModel;

    open spec fn view(&self) -> DependencyModel {
        DependencyModel { specifier: self.specifier@, kind: self.kind, target: self.target@ }
    }
}

impl Clone for Dependency {
    fn clone(&self) -> (r: Self)
        ensures
            r@ == self@,
    {
        Dependency {
            specifier: self.specifier.clone(),
            kind: self.kind,
            target: self.target.clone(),
        }
    }
}

/// A module of the graph.
#[derive(PartialEq, Eq, Debug)]
pub struct Module {
    /// Root-relative.
    pub path: NormalizedPath,
    pub content_hash: ContentHash,
    pub source: SourceKind,
    pub system: ModuleSystem,
    pub dependencies: Vec<Dependency>,
}

/// What a `Module` stands for.
#[verifier::ext_equal]
pub struct ModuleModel {
    pub path: Seq<char>,
    pub content_hash: Seq<u8>,
    pub source: SourceKind,
    pub system: ModuleSystem,
    pub dependencies: Seq<DependencyModel>,
}

impl View for Module {
    type V = ModuleModel;

    open spec fn view(&self) -> ModuleModel {
        ModuleModel {
            path: self.path@,
            content_hash: self.content_hash@,
            source: self.source,
            system: self.system,
            dependencies: sorted::list_views(self.dependencies@),
        }
    }
}

impl Clone for Module {
    fn clone(&self) -> (r: Self)
        ensures
            r@ == self@,
    {
        let ghost all = self@.dependencies;
        let mut dependencies: Vec<Dependency> = Vec::new();
        let mut i: usize = 0;
        assert(sorted::list_views(dependencies@) =~= all.take(0));
        while i < self.dependencies.len()
            invariant
                i <= self.dependencies@.len(),
                all == sorted::list_views(self.dependencies@),
                sorted::list_views(dependencies@) == all.take(i as int),
            decreases self.dependencies@.len() - i,
        {
            let ghost before = sorted::list_views(dependencies@);
            let copy = self.dependencies[i].clone();
            dependencies.push(copy);
            assert(sorted::list_views(dependencies@) =~= before.push(copy@));
            assert(all.take(i + 1) =~= all.take(i as int).push(copy@));
            i += 1;
        }
        assert(all.take(i as int) =~= all);
        Module {
            path: self.path.clone(),
            content_hash: self.content_hash,
            source: self.source,
            system: self.system,
            dependencies,
        }
    }
}

/// Something worth reporting that did not stop resolution.
#[derive(PartialEq, Eq, PartialOrd, Ord, Debug)]
pub struct Diagnostic {
    /// Root-relative path of the module the diagnostic is about.
    pub module: NormalizedPath,
    pub message: String,
}

/// What a `Diagnostic` stands for.
#[verifier::ext_equal]
pub struct DiagnosticModel {
    pub module: Seq<char>,
    pub message: Seq<char>,
}

impl View for Diagnostic {
    type V = DiagnosticModel;

    open spec fn view(&self) -> DiagnosticModel {
        DiagnosticModel { module: self.module@, message: self.message@ }
    }
}

impl Clone for Diagnostic {
    fn clone(&self) -> (r: Self)
        ensures
            r@ == self@,
    {
        Diagnostic { module: self.module.clone(), message: self.message.clone() }
    }
}

impl Rank for DiagnosticModel {
    /// By module first, by message second.
    open spec fn rank(self) -> Seq<int> {
        order::closed_text(self.module) + order::text_rank(self.message)
    }
}

impl Ranked for Diagnostic {
    fn compare(&self, other: &Self) -> (r: Order) {
        proof {
            order::lemma_closed_text(
                self.module@,
                other.module@,
                order::text_rank(self.message@),
                order::text_rank(other.message@),
            );
            order::lemma_closed_text(
                other.module@,
                self.module@,
                order::text_rank(other.message@),
                order::text_rank(self.message@),
            );
        }
        match order::compare_text(self.module.as_str(), other.module.as_str()) {
            Order::Equal => order::compare_text(self.message.as_str(), other.message.as_str()),
            decided => decided,
        }
    }
}

/// The form in which a graph is stored. This is what lands in the store and what
/// golden tests compare against.
#[derive(PartialEq, Eq, Debug)]
pub struct GraphSnapshot {
    pub version: u32,
    pub entry: NormalizedPath,
    pub modules: Vec<Module>,
    pub diagnostics: Vec<Diagnostic>,
}

/// What a `GraphSnapshot` stands for.
#[verifier::ext_equal]
pub struct SnapshotModel {
    pub version: u32,
    pub entry: Seq<char>,
    pub modules: Seq<ModuleModel>,
    pub diagnostics: Seq<DiagnosticModel>,
}

impl View for GraphSnapshot {
    type V = SnapshotModel;

    open spec fn view(&self) -> SnapshotModel {
        SnapshotModel {
            version: self.version,
            entry: self.entry@,
            modules: sorted::list_views(self.modules@),
            diagnostics: sorted::list_views(self.diagnostics@),
        }
    }
}

/// Why a snapshot is not a graph.
#[derive(Debug)]
pub enum SnapshotError {
    Version(u32),
    EntryMissing(NormalizedPath),
    DanglingEdge(ModuleId),
}

/// What a `SnapshotError` stands for.
#[verifier::ext_equal]
pub enum SnapshotFault {
    Version(u32),
    EntryMissing(Seq<char>),
    DanglingEdge(usize),
}

impl View for SnapshotError {
    type V = SnapshotFault;

    open spec fn view(&self) -> SnapshotFault {
        match self {
            SnapshotError::Version(found) => SnapshotFault::Version(*found),
            SnapshotError::EntryMissing(entry) => SnapshotFault::EntryMissing(entry@),
            SnapshotError::DanglingEdge(id) => SnapshotFault::DanglingEdge(id@),
        }
    }
}

/// The message for a snapshot that is not a graph.
pub open spec fn snapshot_error_text(e: SnapshotFault) -> Seq<char> {
    match e {
        SnapshotFault::Version(found) => "snapshot version "@ + text::decimal(found as nat)
            + " (this build understands 1)"@,
        SnapshotFault::EntryMissing(entry) => "snapshot entry "@ + entry
            + " is not among its modules"@,
        SnapshotFault::DanglingEdge(id) => "snapshot has an edge to module ModuleId("@
            + text::decimal(id as nat) + "), which does not exist"@,
    }
}

impl SnapshotError {
    /// The message shown to the user.
    pub fn to_string(&self) -> (r: String)
        ensures
            r@ == snapshot_error_text(self@),
    {
        match self {
            SnapshotError::Version(found) => {
                let mut out = text::chars_of("snapshot version ");
                text::append(&mut out, &text::render_decimal(*found as u64));
                text::append_str(&mut out, " (this build understands 1)");
                text::string_of(&out)
            },
            SnapshotError::EntryMissing(entry) => {
                let mut out = text::chars_of("snapshot entry ");
                text::append_str(&mut out, entry.as_str());
                text::append_str(&mut out, " is not among its modules");
                text::string_of(&out)
            },
            SnapshotError::DanglingEdge(id) => {
                let mut out = text::chars_of("snapshot has an edge to module ModuleId(");
                text::append(&mut out, &text::render_decimal(id.index() as u64));
                text::append_str(&mut out, "), which does not exist");
                text::string_of(&out)
            },
        }
    }
}

// ---------------------------------------------------------------------------
// Graphs.

/// A resolved graph.
#[derive(Debug)]
pub struct ModuleGraph {
    root: NormalizedPath,
    entry: ModuleId,
    modules: Vec<Module>,
    diagnostics: Vec<Diagnostic>,
    by_path: SortedMap<NormalizedPath, usize>,
}

/// What a `ModuleGraph` stands for.
#[verifier::ext_equal]
pub struct GraphModel {
    pub root: Seq<char>,
    pub entry: usize,
    pub modules: Seq<ModuleModel>,
    pub diagnostics: Seq<DiagnosticModel>,
}

impl View for ModuleGraph {
    type V = GraphModel;

    closed spec fn view(&self) -> GraphModel {
        GraphModel {
            root: self.root@,
            entry: self.entry@,
            modules: sorted::list_views(self.modules@),
            diagnostics: sorted::list_views(self.diagnostics@),
        }
    }
}

/// Where each path is among modules; of two modules with one path, the later.
pub open spec fn path_index(modules: Seq<ModuleModel>) -> Seq<(Seq<char>, usize)>
    decreases modules.len(),
{
    if modules.len() == 0 {
        Seq::empty()
    } else {
        sorted::put(
            path_index(modules.drop_last()),
            modules.last().path,
            (modules.len() - 1) as usize,
        )
    }
}

/// Whether an edge leads to one of the first `n` modules, or out of the graph.
pub open spec fn leads_inside(target: TargetModel, n: int) -> bool {
    target matches TargetModel::Module { id } ==> id < n
}

/// Whether all edges of a module do.
pub open spec fn all_lead_inside(dependencies: Seq<DependencyModel>, n: int) -> bool {
    forall|j: int| 0 <= j < dependencies.len() ==> leads_inside((#[trigger] dependencies[j]).target, n)
}

/// A graph that holds together: there is an entry, and every edge leads to a
/// module or out of the graph.
pub open spec fn is_sound(g: GraphModel) -> bool {
    &&& g.entry < g.modules.len()
    &&& forall|i: int|
        0 <= i < g.modules.len() ==> all_lead_inside(
            (#[trigger] g.modules[i]).dependencies,
            g.modules.len() as int,
        )
}

/// The number of edges.
pub open spec fn edges_in(modules: Seq<ModuleModel>) -> nat
    decreases modules.len(),
{
    if modules.len() == 0 {
        0
    } else {
        edges_in(modules.drop_last()) + modules.last().dependencies.len()
    }
}

/// Whether an edge leads to a module.
pub open spec fn leads_to(dependencies: Seq<DependencyModel>, id: usize) -> bool {
    exists|j: int|
        0 <= j < dependencies.len() && (#[trigger] dependencies[j]).target == (TargetModel::Module {
            id,
        })
}

/// The modules that depend on one, in order.
pub open spec fn dependents_of(modules: Seq<ModuleModel>, id: usize) -> Seq<usize>
    decreases modules.len(),
{
    if modules.len() == 0 {
        Seq::empty()
    } else {
        let front = dependents_of(modules.drop_last(), id);
        if leads_to(modules.last().dependencies, id) {
            front.push((modules.len() - 1) as usize)
        } else {
            front
        }
    }
}

/// The edges of a module that lead nowhere, in order.
pub open spec fn unresolved_edges(
    module: ModuleModel,
    dependencies: Seq<DependencyModel>,
) -> Seq<(ModuleModel, DependencyModel)>
    decreases dependencies.len(),
{
    if dependencies.len() == 0 {
        Seq::empty()
    } else {
        let front = unresolved_edges(module, dependencies.drop_last());
        if dependencies.last().target is Unresolved {
            front.push((module, dependencies.last()))
        } else {
            front
        }
    }
}

/// All edges that lead nowhere, in order.
pub open spec fn unresolved_of(modules: Seq<ModuleModel>) -> Seq<(ModuleModel, DependencyModel)>
    decreases modules.len(),
{
    if modules.len() == 0 {
        Seq::empty()
    } else {
        unresolved_of(modules.drop_last()) + unresolved_edges(
            modules.last(),
            modules.last().dependencies,
        )
    }
}

/// The modules and edges that a list of them stands for.
pub open spec fn edge_views(list: Seq<(&Module, &Dependency)>) -> Seq<
    (ModuleModel, DependencyModel),
> {
    list.map_values(|p: (&Module, &Dependency)| (p.0@, p.1@))
}

/// The first edge out of the graph, by module and then by edge.
pub open spec fn first_dangling(modules: Seq<ModuleModel>, n: int) -> Option<usize>
    decreases modules.len(),
{
    if modules.len() == 0 {
        None
    } else {
        match first_dangling(modules.drop_last(), n) {
            Some(id) => Some(id),
            None => first_dangling_edge(modules.last().dependencies, n),
        }
    }
}

/// The first edge of a module out of the graph.
pub open spec fn first_dangling_edge(dependencies: Seq<DependencyModel>, n: int) -> Option<usize>
    decreases dependencies.len(),
{
    if dependencies.len() == 0 {
        None
    } else {
        match first_dangling_edge(dependencies.drop_last(), n) {
            Some(id) => Some(id),
            None => match dependencies.last().target {
                TargetModel::Module { id } => if id >= n {
                    Some(id)
                } else {
                    None
                },
                _ => None,
            },
        }
    }
}

proof fn lemma_no_dangling_edge(dependencies: Seq<DependencyModel>, n: int)
    ensures
        first_dangling_edge(dependencies, n) is None <==> all_lead_inside(dependencies, n),
    decreases dependencies.len(),
{
    if dependencies.len() > 0 {
        let front = dependencies.drop_last();
        lemma_no_dangling_edge(front, n);
        if all_lead_inside(front, n) && leads_inside(dependencies.last().target, n) {
            assert forall|j: int| 0 <= j < dependencies.len() implies leads_inside(
                (#[trigger] dependencies[j]).target,
                n,
            ) by {
                if j < front.len() {
                    assert(dependencies[j] == front[j]);
                }
            }
        }
        if all_lead_inside(dependencies, n) {
            assert forall|j: int| 0 <= j < front.len() implies leads_inside(
                (#[trigger] front[j]).target,
                n,
            ) by {
                assert(dependencies[j] == front[j]);
            }
            assert(leads_inside(dependencies[dependencies.len() - 1].target, n));
        }
    }
}

proof fn lemma_no_dangling(modules: Seq<ModuleModel>, n: int)
    ensures
        first_dangling(modules, n) is None <==> forall|i: int|
            0 <= i < modules.len() ==> all_lead_inside((#[trigger] modules[i]).dependencies, n),
    decreases modules.len(),
{
    if modules.len() > 0 {
        let front = modules.drop_last();
        lemma_no_dangling(front, n);
        lemma_no_dangling_edge(modules.last().dependencies, n);
        assert(modules[modules.len() - 1] == modules.last());
        if first_dangling(front, n) is None && all_lead_inside(modules.last().dependencies, n) {
            assert forall|i: int| 0 <= i < modules.len() implies all_lead_inside(
                (#[trigger] modules[i]).dependencies,
                n,
            ) by {
                if i < front.len() {
                    assert(modules[i] == front[i]);
                }
            }
        }
        if forall|i: int|
            0 <= i < modules.len() ==> all_lead_inside((#[trigger] modules[i]).dependencies, n) {
            assert forall|i: int| 0 <= i < front.len() implies all_lead_inside(
                (#[trigger] front[i]).dependencies,
                n,
            ) by {
                assert(modules[i] == front[i]);
            }
        }
    }
}

/// A snapshot of a graph.
pub open spec fn snapshot_of(g: GraphModel) -> SnapshotModel {
    SnapshotModel {
        version: SNAPSHOT_VERSION,
        entry: g.modules[g.entry as int].path,
        modules: g.modules,
        diagnostics: g.diagnostics,
    }
}

/// The graph that a snapshot holds: one of the format that is understood, with its
/// entry among its modules, and without edges to modules that it does not have.
pub open spec fn restored(root: Seq<char>, s: SnapshotModel) -> Result<GraphModel, SnapshotFault> {
    if s.version != SNAPSHOT_VERSION {
        Err(SnapshotFault::Version(s.version))
    } else {
        match sorted::lookup(path_index(s.modules), s.entry) {
            None => Err(SnapshotFault::EntryMissing(s.entry)),
            Some(entry) => match first_dangling(s.modules, s.modules.len() as int) {
                Some(id) => Err(SnapshotFault::DanglingEdge(id)),
                None => Ok(
                    GraphModel { root, entry, modules: s.modules, diagnostics: s.diagnostics },
                ),
            },
        }
    }
}

fn copy_modules(list: &Vec<Module>) -> (out: Vec<Module>)
    ensures
        sorted::list_views(out@) == sorted::list_views(list@),
{
    let ghost all = sorted::list_views(list@);
    let mut out: Vec<Module> = Vec::new();
    let mut i: usize = 0;
    assert(sorted::list_views(out@) =~= all.take(0));
    while i < list.len()
        invariant
            i <= list@.len(),
            all == sorted::list_views(list@),
            sorted::list_views(out@) == all.take(i as int),
        decreases list@.len() - i,
    {
        let ghost before = sorted::list_views(out@);
        let copy = list[i].clone();
        out.push(copy);
        assert(sorted::list_views(out@) =~= before.push(copy@));
        assert(all.take(i + 1) =~= all.take(i as int).push(copy@));
        i += 1;
    }
    assert(all.take(i as int) =~= all);
    out
}

fn copy_diagnostics(list: &Vec<Diagnostic>) -> (out: Vec<Diagnostic>)
    ensures
        sorted::list_views(out@) == sorted::list_views(list@),
{
    let ghost all = sorted::list_views(list@);
    let mut out: Vec<Diagnostic> = Vec::new();
    let mut i: usize = 0;
    assert(sorted::list_views(out@) =~= all.take(0));
    while i < list.len()
        invariant
            i <= list@.len(),
            all == sorted::list_views(list@),
            sorted::list_views(out@) == all.take(i as int),
        decreases list@.len() - i,
    {
        let ghost before = sorted::list_views(out@);
        let copy = list[i].clone();
        out.push(copy);
        assert(sorted::list_views(out@) =~= before.push(copy@));
        assert(all.take(i + 1) =~= all.take(i as int).push(copy@));
        i += 1;
    }
    assert(all.take(i as int) =~= all);
    out
}

fn index_paths(modules: &Vec<Module>) -> (out: SortedMap<NormalizedPath, usize>)
    ensures
        out@ == path_index(sorted::list_views(modules@)),
{
    let ghost all = sorted::list_views(modules@);
    let mut out: SortedMap<NormalizedPath, usize> = SortedMap::new();
    let mut i: usize = 0;
    while i < modules.len()
        invariant
            i <= modules@.len(),
            all == sorted::list_views(modules@),
            out@ == path_index(all.take(i as int)),
        decreases modules@.len() - i,
    {
        proof {
            assert(all.take(i + 1).drop_last() =~= all.take(i as int));
            assert(all.take(i + 1).last() == modules@[i as int]@);
        }
        out.insert(modules[i].path.clone(), i);
        i += 1;
    }
    assert(all.take(i as int) =~= all);
    out
}

/// Looking a path up gives a module with that path.
pub proof fn lemma_path_index(modules: Seq<ModuleModel>, p: Seq<char>)
    requires
        modules.len() <= usize::MAX,
    ensures
        sorted::ascending(path_index(modules)),
        sorted::lookup(path_index(modules), p) matches Some(at) ==> at < modules.len()
            && modules[at as int].path == p,
    decreases modules.len(),
{
    if modules.len() > 0 {
        let front = modules.drop_last();
        lemma_path_index(front, p);
        let at = (modules.len() - 1) as usize;
        sorted::lemma_put_ascending(path_index(front), modules.last().path, at);
        sorted::lemma_put_lookup(path_index(front), modules.last().path, at, p);
        order::lemma_text_rank_injective(p, modules.last().path);
    }
}

impl ModuleGraph {
    #[verifier::type_invariant]
    spec fn indexed(self) -> bool {
        self.by_path@ == path_index(sorted::list_views(self.modules@))
    }

    /// The absolute project root the graph was resolved against.
    pub fn root(&self) -> (r: &NormalizedPath)
        ensures
            r@ == self@.root,
    {
        &self.root
    }

    /// The module that resolution started from.
    pub fn entry(&self) -> (r: ModuleId)
        ensures
            r@ == self@.entry,
    {
        self.entry
    }

    /// All modules, by path.
    pub fn modules(&self) -> (r: &Vec<Module>)
        ensures
            sorted::list_views(r@) == self@.modules,
    {
        &self.modules
    }

    /// A module.
    pub fn module(&self, id: ModuleId) -> (r: &Module)
        requires
            id@ < self@.modules.len(),
        ensures
            r@ == self@.modules[id@ as int],
    {
        &self.modules[id.index()]
    }

    /// Looks up a module by its root-relative path.
    pub fn id_of(&self, path: &NormalizedPath) -> (r: Option<ModuleId>)
        ensures
            match r {
                Some(id) => sorted::lookup(path_index(self@.modules), path@) == Some(id@),
                None => !sorted::holds(path_index(self@.modules), path@),
            },
    {
        proof {
            use_type_invariant(self);
        }
        match self.by_path.get(path) {
            Some(index) => Some(ModuleId(*index)),
            None => None,
        }
    }

    /// The absolute path of a module.
    pub fn absolute_path(&self, id: ModuleId) -> (r: NormalizedPath)
        requires
            id@ < self@.modules.len(),
        ensures
            r@ == path::joined_path(self@.root, self@.modules[id@ as int].path),
    {
        self.root.join(self.module(id).path.as_str())
    }

    /// The number of modules.
    pub fn len(&self) -> (r: usize)
        ensures
            r == self@.modules.len(),
    {
        self.modules.len()
    }

    /// Whether there are no modules.
    pub fn is_empty(&self) -> (r: bool)
        ensures
            r == (self@.modules.len() == 0),
    {
        self.modules.len() == 0
    }

    /// The number of edges.
    pub fn edge_count(&self) -> (r: usize)
        requires
            edges_in(self@.modules) <= usize::MAX,
        ensures
            r == edges_in(self@.modules),
    {
        let ghost all = self@.modules;
        let mut total: usize = 0;
        let mut i: usize = 0;
        while i < self.modules.len()
            invariant
                i <= self.modules@.len(),
                all == sorted::list_views(self.modules@),
                edges_in(all) <= usize::MAX,
                total == edges_in(all.take(i as int)),
            decreases self.modules@.len() - i,
        {
            proof {
                assert(all.take(i + 1).drop_last() =~= all.take(i as int));
                assert(all.take(i + 1).last() == self.modules@[i as int]@);
                assert(self.modules@[i as int]@.dependencies.len()
                    == self.modules@[i as int].dependencies@.len());
                lemma_edges_grow(all, i + 1);
            }
            total = total + self.modules[i].dependencies.len();
            i += 1;
        }
        assert(all.take(i as int) =~= all);
        total
    }

    /// What was reported along the way.
    pub fn diagnostics(&self) -> (r: &Vec<Diagnostic>)
        ensures
            sorted::list_views(r@) == self@.diagnostics,
    {
        &self.diagnostics
    }

    /// Modules that depend on `id`, sorted.
    pub fn dependents(&self, id: ModuleId) -> (r: Vec<ModuleId>)
        ensures
            sorted::list_views(r@) == dependents_of(self@.modules, id@),
    {
        let ghost all = self@.modules;
        let mut out: Vec<ModuleId> = Vec::new();
        let mut i: usize = 0;
        assert(sorted::list_views(out@) =~= Seq::empty());
        while i < self.modules.len()
            invariant
                i <= self.modules@.len(),
                all == sorted::list_views(self.modules@),
                sorted::list_views(out@) == dependents_of(all.take(i as int), id@),
            decreases self.modules@.len() - i,
        {
            let ghost before = sorted::list_views(out@);
            proof {
                assert(all.take(i + 1).drop_last() =~= all.take(i as int));
                assert(all.take(i + 1).last() == self.modules@[i as int]@);
            }
            if points_at(&self.modules[i].dependencies, id) {
                let one = ModuleId(i);
                out.push(one);
                assert(sorted::list_views(out@) =~= before.push(i));
            }
            i += 1;
        }
        assert(all.take(i as int) =~= all);
        out
    }

    /// Every edge that leads nowhere, with the module it belongs to.
    pub fn unresolved(&self) -> (r: Vec<(&Module, &Dependency)>)
        ensures
            edge_views(r@) == unresolved_of(self@.modules),
    {
        let ghost all = self@.modules;
        let mut out: Vec<(&Module, &Dependency)> = Vec::new();
        let mut i: usize = 0;
        assert(edge_views(out@) =~= Seq::empty());
        while i < self.modules.len()
            invariant
                i <= self.modules@.len(),
                all == sorted::list_views(self.modules@),
                edge_views(out@) == unresolved_of(all.take(i as int)),
            decreases self.modules@.len() - i,
        {
            let ghost start = edge_views(out@);
            let module = &self.modules[i];
            let ghost edges = module@.dependencies;
            proof {
                assert(all.take(i + 1).drop_last() =~= all.take(i as int));
                assert(all.take(i + 1).last() == module@);
                assert(edges.take(0) =~= Seq::empty());
                assert(start + unresolved_edges(module@, edges.take(0)) =~= start);
            }
            let mut j: usize = 0;
            while j < module.dependencies.len()
                invariant
                    j <= module.dependencies@.len(),
                    edges == module@.dependencies,
                    edge_views(out@) == start + unresolved_edges(module@, edges.take(j as int)),
                decreases module.dependencies@.len() - j,
            {
                let ghost before = edge_views(out@);
                let one = &module.dependencies[j];
                proof {
                    assert(edges.take(j + 1).drop_last() =~= edges.take(j as int));
                    assert(edges.take(j + 1).last() == one@);
                }
                if let DependencyTarget::Unresolved { .. } = &one.target {
                    out.push((module, one));
                    proof {
                        assert(edge_views(out@) =~= before.push((module@, one@)));
                        assert(before.push((module@, one@)) =~= start + unresolved_edges(
                            module@,
                            edges.take(j as int),
                        ).push((module@, one@)));
                    }
                }
                j += 1;
            }
            assert(edges.len() == module.dependencies@.len());
            assert(edges.take(j as int) =~= edges);
            i += 1;
        }
        assert(all.take(i as int) =~= all);
        out
    }

    /// The form in which the graph is stored.
    pub fn to_snapshot(&self) -> (r: GraphSnapshot)
        requires
            self@.entry < self@.modules.len(),
        ensures
            r@ == snapshot_of(self@),
    {
        GraphSnapshot {
            version: SNAPSHOT_VERSION,
            entry: self.module(self.entry).path.clone(),
            modules: copy_modules(&self.modules),
            diagnostics: copy_diagnostics(&self.diagnostics),
        }
    }

    /// The graph that a snapshot holds.
    pub fn from_snapshot(root: &NormalizedPath, snapshot: GraphSnapshot) -> (r: Result<
        Self,
        SnapshotError,
    >)
        ensures
            match (r, restored(root@, snapshot@)) {
                (Ok(graph), Ok(due)) => graph@ == due && is_sound(due)
                    && due.modules[due.entry as int].path == snapshot@.entry,
                (Err(e), Err(due)) => e@ == due,
                _ => false,
            },
    {
        if snapshot.version != SNAPSHOT_VERSION {
            return Err(SnapshotError::Version(snapshot.version));
        }
        let ghost all = snapshot@.modules;
        let by_path = index_paths(&snapshot.modules);
        let entry = match by_path.get(&snapshot.entry) {
            Some(index) => ModuleId(*index),
            None => {
                return Err(SnapshotError::EntryMissing(snapshot.entry));
            },
        };
        let count: usize = snapshot.modules.len();
        assert(all.len() == count);
        if let Some(id) = find_dangling(&snapshot.modules, count) {
            return Err(SnapshotError::DanglingEdge(id));
        }
        proof {
            lemma_no_dangling(all, count as int);
            lemma_path_index(all, snapshot@.entry);
        }
        Ok(
            ModuleGraph {
                root: root.clone(),
                entry,
                modules: snapshot.modules,
                diagnostics: snapshot.diagnostics,
                by_path,
            },
        )
    }
}

proof fn lemma_edges_grow(modules: Seq<ModuleModel>, n: int)
    requires
        0 <= n <= modules.len(),
    ensures
        edges_in(modules.take(n)) <= edges_in(modules),
    decreases modules.len() - n,
{
    if n == modules.len() {
        assert(modules.take(n) =~= modules);
    } else {
        assert(modules.take(n + 1).drop_last() =~= modules.take(n));
        lemma_edges_grow(modules, n + 1);
    }
}

fn points_at(dependencies: &Vec<Dependency>, id: ModuleId) -> (r: bool)
    ensures
        r == leads_to(sorted::list_views(dependencies@), id@),
{
    let ghost all = sorted::list_views(dependencies@);
    let mut j: usize = 0;
    while j < dependencies.len()
        invariant
            j <= dependencies@.len(),
            all == sorted::list_views(dependencies@),
            forall|k: int|
                0 <= k < j ==> (#[trigger] all[k]).target != (TargetModel::Module { id: id@ }),
        decreases dependencies@.len() - j,
    {
        assert(all[j as int] == dependencies@[j as int]@);
        if let DependencyTarget::Module { id: target } = &dependencies[j].target {
            if target.index() == id.index() {
                return true;
            }
        }
        j += 1;
    }
    assert(all.len() == dependencies@.len());
    false
}

fn find_dangling(modules: &Vec<Module>, count: usize) -> (r: Option<ModuleId>)
    ensures
        text::view_of(r) == first_dangling(sorted::list_views(modules@), count as int),
{
    let ghost all = sorted::list_views(modules@);
    let mut i: usize = 0;
    while i < modules.len()
        invariant
            i <= modules@.len(),
            all == sorted::list_views(modules@),
            first_dangling(all.take(i as int), count as int) is None,
        decreases modules@.len() - i,
    {
        let module = &modules[i];
        let ghost edges = module@.dependencies;
        proof {
            assert(all.take(i + 1).drop_last() =~= all.take(i as int));
            assert(all.take(i + 1).last() == module@);
        }
        let mut j: usize = 0;
        while j < module.dependencies.len()
            invariant
                i < modules@.len(),
                all == sorted::list_views(modules@),
                module == modules@[i as int],
                all.take(i + 1).drop_last() == all.take(i as int),
                all.take(i + 1).last() == module@,
                first_dangling(all.take(i as int), count as int) is None,
                j <= module.dependencies@.len(),
                edges == module@.dependencies,
                first_dangling_edge(edges.take(j as int), count as int) is None,
            decreases module.dependencies@.len() - j,
        {
            let one = &module.dependencies[j];
            proof {
                assert(edges.take(j + 1).drop_last() =~= edges.take(j as int));
                assert(edges.take(j + 1).last() == one@);
            }
            if let DependencyTarget::Module { id } = &one.target {
                if id.index() >= count {
                    proof {
                        lemma_dangling_edge_stays(edges, count as int, j + 1);
                        lemma_dangling_stays(all, count as int, i + 1);
                    }
                    return Some(*id);
                }
            }
            j += 1;
        }
        assert(edges.len() == module.dependencies@.len());
        assert(edges.take(j as int) =~= edges);
        i += 1;
    }
    assert(all.take(i as int) =~= all);
    None
}

proof fn lemma_dangling_edge_stays(dependencies: Seq<DependencyModel>, n: int, k: int)
    requires
        0 <= k <= dependencies.len(),
        first_dangling_edge(dependencies.take(k), n) is Some,
    ensures
        first_dangling_edge(dependencies, n) == first_dangling_edge(dependencies.take(k), n),
    decreases dependencies.len() - k,
{
    if k == dependencies.len() {
        assert(dependencies.take(k) =~= dependencies);
    } else {
        assert(dependencies.take(k + 1).drop_last() =~= dependencies.take(k));
        lemma_dangling_edge_stays(dependencies, n, k + 1);
    }
}

proof fn lemma_dangling_stays(modules: Seq<ModuleModel>, n: int, k: int)
    requires
        0 <= k <= modules.len(),
        first_dangling(modules.take(k), n) is Some,
    ensures
        first_dangling(modules, n) == first_dangling(modules.take(k), n),
    decreases modules.len() - k,
{
    if k == modules.len() {
        assert(modules.take(k) =~= modules);
    } else {
        assert(modules.take(k + 1).drop_last() =~= modules.take(k));
        lemma_dangling_stays(modules, n, k + 1);
    }
}

// ---------------------------------------------------------------------------
// The identity of a graph.

/// What a digest takes in of an edge.
pub open spec fn edge_parts(modules: Seq<ModuleModel>, edge: DependencyModel) -> Seq<Seq<u8>> {
    let (tag, detail) = match edge.target {
        TargetModel::Module { id } => ("module"@, modules[id as int].path),
        TargetModel::Builtin { name } => ("builtin"@, name),
        TargetModel::Unresolved { reason } => ("unresolved"@, reason),
    };
    seq![
        hash::text_part(edge.specifier),
        hash::text_part(edge_word(edge.kind)),
        hash::text_part(tag),
        hash::text_part(detail),
    ]
}

/// What a digest takes in of edges.
pub open spec fn edges_parts(modules: Seq<ModuleModel>, edges: Seq<DependencyModel>) -> Seq<
    Seq<u8>,
>
    decreases edges.len(),
{
    if edges.len() == 0 {
        Seq::empty()
    } else {
        edges_parts(modules, edges.drop_last()) + edge_parts(modules, edges.last())
    }
}

/// What a digest takes in of a module.
pub open spec fn module_parts(modules: Seq<ModuleModel>, module: ModuleModel) -> Seq<Seq<u8>> {
    seq![
        hash::text_part(module.path),
        module.content_hash,
        hash::text_part(kind_word(module.source) + "/"@ + system_word(module.system)),
        hash::number_part(module.dependencies.len() as u64),
    ] + edges_parts(modules, module.dependencies)
}

/// What a digest takes in of modules.
pub open spec fn modules_parts(modules: Seq<ModuleModel>, some: Seq<ModuleModel>) -> Seq<Seq<u8>>
    decreases some.len(),
{
    if some.len() == 0 {
        Seq::empty()
    } else {
        modules_parts(modules, some.drop_last()) + module_parts(modules, some.last())
    }
}

/// What a digest takes in: the entry and every module with its edges, the
/// targets by path. Diagnostics are left out: they are advisory text, and
/// rewording a message must not change the identity of a resolved graph that two
/// tools are trying to share.
pub open spec fn graph_parts(entry: usize, modules: Seq<ModuleModel>) -> Seq<Seq<u8>> {
    seq![
        hash::text_part("opal.graph.digest.v1"@),
        hash::number_part(SNAPSHOT_VERSION as u64),
        hash::text_part(modules[entry as int].path),
    ] + modules_parts(modules, modules)
}

proof fn lemma_frames_of_four(a: Seq<u8>, b: Seq<u8>, c: Seq<u8>, d: Seq<u8>)
    ensures
        hash::framed(seq![a, b, c, d]) == hash::frame(a) + hash::frame(b) + hash::frame(c)
            + hash::frame(d),
{
    let none = Seq::<Seq<u8>>::empty();
    hash::lemma_framed_push(none, a);
    hash::lemma_framed_push(none.push(a), b);
    hash::lemma_framed_push(none.push(a).push(b), c);
    hash::lemma_framed_push(none.push(a).push(b).push(c), d);
    assert(seq![a, b, c, d] =~= none.push(a).push(b).push(c).push(d));
    assert(hash::framed(none) =~= Seq::empty());
    assert(hash::framed(seq![a, b, c, d]) =~= hash::frame(a) + hash::frame(b) + hash::frame(c)
        + hash::frame(d));
}

impl ModuleGraph {
    fn push_edge(&self, builder: &mut HashBuilder, edge: &Dependency)
        requires
            leads_inside(edge@.target, self@.modules.len() as int),
        ensures
            final(builder)@ == old(builder)@ + hash::framed(edge_parts(self@.modules, edge@)),
    {
        let ghost start = builder@;
        let (tag, detail) = match &edge.target {
            DependencyTarget::Module { id } => ("module", self.module(*id).path.as_str()),
            DependencyTarget::Builtin { name } => ("builtin", name.as_str()),
            DependencyTarget::Unresolved { reason } => ("unresolved", reason.as_str()),
        };
        builder.push_str(edge.specifier.as_str());
        builder.push_str(edge.kind.name());
        builder.push_str(tag);
        builder.push_str(detail);
        proof {
            let a = hash::text_part(edge@.specifier);
            let b = hash::text_part(edge_word(edge@.kind));
            let c = hash::text_part(tag@);
            let d = hash::text_part(detail@);
            lemma_frames_of_four(a, b, c, d);
            assert(edge_parts(self@.modules, edge@) =~= seq![a, b, c, d]);
            assert(builder@ =~= start + hash::framed(seq![a, b, c, d]));
        }
    }

    fn push_module(&self, builder: &mut HashBuilder, module: &Module)
        requires
            all_lead_inside(module@.dependencies, self@.modules.len() as int),
        ensures
            final(builder)@ == old(builder)@ + hash::framed(module_parts(self@.modules, module@)),
    {
        let ghost start = builder@;
        let ghost edges = module@.dependencies;
        assert(edges.len() == module.dependencies@.len());
        let mut kind = text::chars_of(module.source.name());
        text::append_str(&mut kind, "/");
        text::append_str(&mut kind, module.system.name());
        builder.push_str(module.path.as_str());
        builder.push_hash(&module.content_hash);
        builder.push_str(text::string_of(&kind).as_str());
        builder.push_u64(module.dependencies.len() as u64);
        let ghost head = seq![
            hash::text_part(module@.path),
            module@.content_hash,
            hash::text_part(kind@),
            hash::number_part(edges.len() as u64),
        ];
        proof {
            lemma_frames_of_four(head[0], head[1], head[2], head[3]);
            assert(builder@ =~= start + hash::framed(head));
            assert(edges.take(0) =~= Seq::empty());
            assert(builder@ =~= start + hash::framed(head) + hash::framed(
                edges_parts(self@.modules, edges.take(0)),
            ));
        }
        let mut j: usize = 0;
        while j < module.dependencies.len()
            invariant
                j <= module.dependencies@.len(),
                edges == module@.dependencies,
                all_lead_inside(edges, self@.modules.len() as int),
                builder@ == start + hash::framed(head) + hash::framed(
                    edges_parts(self@.modules, edges.take(j as int)),
                ),
            decreases module.dependencies@.len() - j,
        {
            let ghost before = edges_parts(self@.modules, edges.take(j as int));
            let one = &module.dependencies[j];
            proof {
                assert(edges.take(j + 1).drop_last() =~= edges.take(j as int));
                assert(edges.take(j + 1).last() == one@);
                assert(edges[j as int] == one@);
                hash::lemma_framed_append(before, edge_parts(self@.modules, one@));
            }
            self.push_edge(builder, one);
            assert(builder@ =~= start + hash::framed(head) + hash::framed(
                before + edge_parts(self@.modules, one@),
            ));
            j += 1;
        }
        proof {
            assert(edges.take(j as int) =~= edges);
            hash::lemma_framed_append(head, edges_parts(self@.modules, edges));
            assert(builder@ =~= start + hash::framed(module_parts(self@.modules, module@)));
        }
    }

    /// A single hash identifying this graph's shape and contents.
    ///
    /// Diagnostics are deliberately excluded: they are advisory text, and
    /// rewording a message must not change the identity of a resolved graph
    /// that two tools are trying to share.
    pub fn digest(&self) -> (r: ContentHash)
        requires
            is_sound(self@),
        ensures
            r@ == hash::key_of(graph_parts(self@.entry, self@.modules)),
    {
        let ghost all = self@.modules;
        let mut builder = HashBuilder::new("opal.graph.digest.v1");
        builder.push_u64(SNAPSHOT_VERSION as u64);
        builder.push_str(self.module(self.entry).path.as_str());
        let ghost domain = hash::text_part("opal.graph.digest.v1"@);
        let ghost version = hash::number_part(SNAPSHOT_VERSION as u64);
        let ghost entry = hash::text_part(all[self@.entry as int].path);
        let ghost head = seq![domain, version, entry];
        proof {
            hash::lemma_framed_push(seq![domain], version);
            hash::lemma_framed_push(seq![domain].push(version), entry);
            assert(seq![domain].push(version).push(entry) =~= head);
            assert(all.take(0) =~= Seq::empty());
            assert(builder@ =~= hash::framed(head) + hash::framed(
                modules_parts(all, all.take(0)),
            ));
        }
        let mut i: usize = 0;
        while i < self.modules.len()
            invariant
                i <= self.modules@.len(),
                all == self@.modules,
                all == sorted::list_views(self.modules@),
                is_sound(self@),
                builder@ == hash::framed(head) + hash::framed(
                    modules_parts(all, all.take(i as int)),
                ),
            decreases self.modules@.len() - i,
        {
            let ghost before = modules_parts(all, all.take(i as int));
            let module = &self.modules[i];
            proof {
                assert(all[i as int] == module@);
                assert(all.take(i + 1).drop_last() =~= all.take(i as int));
                assert(all.take(i + 1).last() == module@);
                hash::lemma_framed_append(before, module_parts(all, module@));
            }
            self.push_module(&mut builder, module);
            assert(builder@ =~= hash::framed(head) + hash::framed(
                before + module_parts(all, module@),
            ));
            i += 1;
        }
        proof {
            assert(all.take(i as int) =~= all);
            hash::lemma_framed_append(head, modules_parts(all, all));
        }
        builder.finish()
    }
}

/// Where an edge leads, a module by its path.
pub open spec fn end_of(modules: Seq<ModuleModel>, target: TargetModel) -> (Seq<char>, Seq<char>) {
    match target {
        TargetModel::Module { id } => ("module"@, modules[id as int].path),
        TargetModel::Builtin { name } => ("builtin"@, name),
        TargetModel::Unresolved { reason } => ("unresolved"@, reason),
    }
}

/// Whether two edges are the same, a module that they lead to taken by its path.
pub open spec fn same_edge(
    a: Seq<ModuleModel>,
    x: DependencyModel,
    b: Seq<ModuleModel>,
    y: DependencyModel,
) -> bool {
    x.specifier == y.specifier && x.kind == y.kind && end_of(a, x.target) == end_of(b, y.target)
}

/// Whether two modules have the same path, content, kind and edges.
pub open spec fn same_module(
    a: Seq<ModuleModel>,
    x: ModuleModel,
    b: Seq<ModuleModel>,
    y: ModuleModel,
) -> bool {
    &&& x.path == y.path
    &&& x.content_hash == y.content_hash
    &&& x.source == y.source
    &&& x.system == y.system
    &&& x.dependencies.len() == y.dependencies.len()
    &&& forall|i: int|
        0 <= i < x.dependencies.len() ==> same_edge(
            a,
            #[trigger] x.dependencies[i],
            b,
            y.dependencies[i],
        )
}

proof fn lemma_words_differ(
    source: SourceKind,
    system: ModuleSystem,
    other_source: SourceKind,
    other_system: ModuleSystem,
)
    requires
        kind_word(source) + "/"@ + system_word(system) == kind_word(other_source) + "/"@
            + system_word(other_system),
    ensures
        source == other_source,
        system == other_system,
{
    reveal_strlit("/");
    reveal_strlit("JavaScript");
    reveal_strlit("Jsx");
    reveal_strlit("TypeScript");
    reveal_strlit("Tsx");
    reveal_strlit("Json");
    reveal_strlit("Opaque");
    reveal_strlit("Esm");
    reveal_strlit("Cjs");
    reveal_strlit("NotApplicable");
    let a = kind_word(source) + "/"@ + system_word(system);
    let b = kind_word(other_source) + "/"@ + system_word(other_system);
    let word = kind_word(source);
    let other = kind_word(other_source);
    assert(word.len() >= 3 && other.len() >= 3);
    assert(a[0] == word[0] && a[1] == word[1] && a[2] == word[2]);
    assert(b[0] == other[0] && b[1] == other[1] && b[2] == other[2]);
    assert("JavaScript"@[1] == 'a' && "Jsx"@[2] == 'x' && "Json"@[2] == 'o');
    assert("JavaScript"@[2] == 'v' && "TypeScript"@[1] == 'y' && "Tsx"@[1] == 's');
    assert("JavaScript"@[0] == 'J' && "Jsx"@[0] == 'J' && "Json"@[0] == 'J');
    assert("TypeScript"@[0] == 'T' && "Tsx"@[0] == 'T' && "Opaque"@[0] == 'O');
    assert(source == other_source);
    let n = word.len() as int;
    assert(a[n + 1] == system_word(system)[0]);
    assert(b[n + 1] == system_word(other_system)[0]);
}

proof fn lemma_edge_words_differ(a: DependencyKind, b: DependencyKind)
    requires
        edge_word(a) == edge_word(b),
    ensures
        a == b,
{
    reveal_strlit("StaticImport");
    reveal_strlit("DynamicImport");
    reveal_strlit("Require");
    reveal_strlit("ExportFrom");
    reveal_strlit("TsImportEquals");
    assert("StaticImport"@[0] == 'S' && "DynamicImport"@[0] == 'D' && "Require"@[0] == 'R');
    assert("ExportFrom"@[0] == 'E' && "TsImportEquals"@[0] == 'T');
}

proof fn lemma_edges_parts_at(modules: Seq<ModuleModel>, edges: Seq<DependencyModel>, i: int)
    requires
        0 <= i < edges.len(),
    ensures
        edges_parts(modules, edges).len() == 4 * edges.len(),
        edges_parts(modules, edges).subrange(4 * i, 4 * i + 4) == edge_parts(modules, edges[i]),
    decreases edges.len(),
{
    let parts = edges_parts(modules, edges);
    let front = edges.drop_last();
    lemma_edges_parts_len(modules, edges);
    lemma_edges_parts_len(modules, front);
    if i == edges.len() - 1 {
        assert(parts.subrange(4 * i, 4 * i + 4) =~= edge_parts(modules, edges[i]));
    } else {
        lemma_edges_parts_at(modules, front, i);
        assert(parts.subrange(4 * i, 4 * i + 4) =~= edges_parts(modules, front).subrange(
            4 * i,
            4 * i + 4,
        ));
    }
}

proof fn lemma_edges_parts_len(modules: Seq<ModuleModel>, edges: Seq<DependencyModel>)
    ensures
        edges_parts(modules, edges).len() == 4 * edges.len(),
    decreases edges.len(),
{
    if edges.len() > 0 {
        lemma_edges_parts_len(modules, edges.drop_last());
    }
}

proof fn lemma_modules_parts_first(modules: Seq<ModuleModel>, some: Seq<ModuleModel>)
    requires
        some.len() > 0,
    ensures
        modules_parts(modules, some) == module_parts(modules, some[0]) + modules_parts(
            modules,
            some.skip(1),
        ),
    decreases some.len(),
{
    let none = Seq::<Seq<u8>>::empty();
    if some.len() == 1 {
        assert(some.drop_last() =~= Seq::empty());
        assert(some.skip(1) =~= Seq::empty());
        assert(none + module_parts(modules, some[0]) =~= module_parts(modules, some[0]) + none);
    } else {
        lemma_modules_parts_first(modules, some.drop_last());
        assert(some.drop_last().skip(1) =~= some.skip(1).drop_last());
        assert(modules_parts(modules, some) =~= module_parts(modules, some[0]) + modules_parts(
            modules,
            some.skip(1),
        ));
    }
}

proof fn lemma_same_edge(
    a: Seq<ModuleModel>,
    x: DependencyModel,
    b: Seq<ModuleModel>,
    y: DependencyModel,
)
    requires
        edge_parts(a, x) == edge_parts(b, y),
    ensures
        same_edge(a, x, b, y),
{
    let p = edge_parts(a, x);
    let q = edge_parts(b, y);
    assert(p[0] == q[0] && p[1] == q[1] && p[2] == q[2] && p[3] == q[3]);
    hash::lemma_parts_injective(x.specifier, y.specifier, 0, 0);
    hash::lemma_parts_injective(edge_word(x.kind), edge_word(y.kind), 0, 0);
    lemma_edge_words_differ(x.kind, y.kind);
    let (tag, detail) = end_of(a, x.target);
    let (other_tag, other_detail) = end_of(b, y.target);
    hash::lemma_parts_injective(tag, other_tag, 0, 0);
    hash::lemma_parts_injective(detail, other_detail, 0, 0);
}

proof fn lemma_same_module(
    a: Seq<ModuleModel>,
    x: ModuleModel,
    later: Seq<Seq<u8>>,
    b: Seq<ModuleModel>,
    y: ModuleModel,
    other_later: Seq<Seq<u8>>,
)
    requires
        x.dependencies.len() <= u64::MAX,
        y.dependencies.len() <= u64::MAX,
        module_parts(a, x) + later == module_parts(b, y) + other_later,
    ensures
        same_module(a, x, b, y),
        later == other_later,
{
    let p = module_parts(a, x) + later;
    let q = module_parts(b, y) + other_later;
    let words = kind_word(x.source) + "/"@ + system_word(x.system);
    let other_words = kind_word(y.source) + "/"@ + system_word(y.system);
    let m = x.dependencies.len();
    let n = y.dependencies.len();
    assert(p[0] == hash::text_part(x.path) && q[0] == hash::text_part(y.path));
    assert(p[1] == x.content_hash && q[1] == y.content_hash);
    assert(p[2] == hash::text_part(words) && q[2] == hash::text_part(other_words));
    assert(p[3] == hash::number_part(m as u64) && q[3] == hash::number_part(n as u64));
    hash::lemma_parts_injective(x.path, y.path, m as u64, n as u64);
    hash::lemma_parts_injective(words, other_words, 0, 0);
    lemma_words_differ(x.source, x.system, y.source, y.system);
    lemma_edges_parts_len(a, x.dependencies);
    lemma_edges_parts_len(b, y.dependencies);
    let edges = edges_parts(a, x.dependencies);
    let other_edges = edges_parts(b, y.dependencies);
    assert forall|i: int| 0 <= i < edges.len() implies edges[i] == other_edges[i] by {
        assert(p[i + 4] == edges[i]);
        assert(q[i + 4] == other_edges[i]);
    }
    assert(edges =~= other_edges);
    assert forall|i: int| 0 <= i < m implies same_edge(
        a,
        #[trigger] x.dependencies[i],
        b,
        y.dependencies[i],
    ) by {
        lemma_edges_parts_at(a, x.dependencies, i);
        lemma_edges_parts_at(b, y.dependencies, i);
        lemma_same_edge(a, x.dependencies[i], b, y.dependencies[i]);
    }
    assert(later =~= p.skip(4 + 4 * m as int));
    assert(other_later =~= q.skip(4 + 4 * m as int));
}

proof fn lemma_same_modules(
    a: Seq<ModuleModel>,
    some: Seq<ModuleModel>,
    b: Seq<ModuleModel>,
    others: Seq<ModuleModel>,
)
    requires
        forall|i: int| 0 <= i < some.len() ==> (#[trigger] some[i]).dependencies.len() <= u64::MAX,
        forall|i: int|
            0 <= i < others.len() ==> (#[trigger] others[i]).dependencies.len() <= u64::MAX,
        modules_parts(a, some) == modules_parts(b, others),
    ensures
        some.len() == others.len(),
        forall|i: int| 0 <= i < some.len() ==> same_module(a, #[trigger] some[i], b, others[i]),
    decreases some.len(),
{
    if some.len() > 0 {
        lemma_modules_parts_first(a, some);
        assert(modules_parts(a, some).len() >= 4);
    }
    if others.len() > 0 {
        lemma_modules_parts_first(b, others);
        assert(modules_parts(b, others).len() >= 4);
    }
    if some.len() > 0 && others.len() > 0 {
        let rest = some.skip(1);
        let other_rest = others.skip(1);
        lemma_same_module(
            a,
            some[0],
            modules_parts(a, rest),
            b,
            others[0],
            modules_parts(b, other_rest),
        );
        assert forall|i: int| 0 <= i < rest.len() implies (#[trigger] rest[i]).dependencies.len()
            <= u64::MAX by {
            assert(rest[i] == some[i + 1]);
        }
        assert forall|i: int|
            0 <= i < other_rest.len() implies (#[trigger] other_rest[i]).dependencies.len()
            <= u64::MAX by {
            assert(other_rest[i] == others[i + 1]);
        }
        lemma_same_modules(a, rest, b, other_rest);
        assert forall|i: int| 0 <= i < some.len() implies same_module(
            a,
            #[trigger] some[i],
            b,
            others[i],
        ) by {
            if i > 0 {
                assert(rest[i - 1] == some[i]);
                assert(other_rest[i - 1] == others[i]);
            }
        }
    }
}

/// The digest takes in the whole content and shape of a graph: graphs from which
/// the same bytes are hashed have the same entry, and the same modules with the
/// same contents, kinds and edges.
pub proof fn digest_tracks_content_and_shape(a: GraphModel, b: GraphModel)
    requires
        forall|i: int|
            0 <= i < a.modules.len() ==> (#[trigger] a.modules[i]).dependencies.len() <= u64::MAX,
        forall|i: int|
            0 <= i < b.modules.len() ==> (#[trigger] b.modules[i]).dependencies.len() <= u64::MAX,
        graph_parts(a.entry, a.modules) == graph_parts(b.entry, b.modules),
    ensures
        a.modules[a.entry as int].path == b.modules[b.entry as int].path,
        a.modules.len() == b.modules.len(),
        forall|i: int|
            0 <= i < a.modules.len() ==> same_module(
                a.modules,
                #[trigger] a.modules[i],
                b.modules,
                b.modules[i],
            ),
{
    let p = graph_parts(a.entry, a.modules);
    let q = graph_parts(b.entry, b.modules);
    assert(p[2] == q[2]);
    hash::lemma_parts_injective(
        a.modules[a.entry as int].path,
        b.modules[b.entry as int].path,
        0,
        0,
    );
    assert(modules_parts(a.modules, a.modules) =~= p.skip(3));
    assert(modules_parts(b.modules, b.modules) =~= q.skip(3));
    lemma_same_modules(a.modules, a.modules, b.modules, b.modules);
}

proof fn lemma_edges_alike(
    a: Seq<ModuleModel>,
    x: Seq<DependencyModel>,
    b: Seq<ModuleModel>,
    y: Seq<DependencyModel>,
)
    requires
        x.len() == y.len(),
        forall|i: int| 0 <= i < x.len() ==> same_edge(a, #[trigger] x[i], b, y[i]),
    ensures
        edges_parts(a, x) == edges_parts(b, y),
    decreases x.len(),
{
    if x.len() > 0 {
        let p = x.drop_last();
        let q = y.drop_last();
        assert forall|i: int| 0 <= i < p.len() implies same_edge(a, #[trigger] p[i], b, q[i]) by {
            assert(p[i] == x[i] && q[i] == y[i]);
        }
        lemma_edges_alike(a, p, b, q);
        assert(same_edge(a, x[x.len() - 1], b, y[y.len() - 1]));
        assert(edge_parts(a, x.last()) =~= edge_parts(b, y.last()));
    }
}

proof fn lemma_modules_alike(
    a: Seq<ModuleModel>,
    x: Seq<ModuleModel>,
    b: Seq<ModuleModel>,
    y: Seq<ModuleModel>,
)
    requires
        x.len() == y.len(),
        forall|i: int| 0 <= i < x.len() ==> same_module(a, #[trigger] x[i], b, y[i]),
    ensures
        modules_parts(a, x) == modules_parts(b, y),
    decreases x.len(),
{
    if x.len() > 0 {
        let p = x.drop_last();
        let q = y.drop_last();
        assert forall|i: int| 0 <= i < p.len() implies same_module(a, #[trigger] p[i], b, q[i]) by {
            assert(p[i] == x[i] && q[i] == y[i]);
        }
        lemma_modules_alike(a, p, b, q);
        assert(same_module(a, x[x.len() - 1], b, y[y.len() - 1]));
        lemma_edges_alike(a, x.last().dependencies, b, y.last().dependencies);
    }
}

/// The digest takes in nothing else: graphs with the same entry and the same
/// modules, with the same contents, kinds and edges, have one digest, whatever
/// their roots and their diagnostics are.
pub proof fn digest_takes_in_nothing_else(a: GraphModel, b: GraphModel)
    requires
        a.modules[a.entry as int].path == b.modules[b.entry as int].path,
        a.modules.len() == b.modules.len(),
        forall|i: int|
            0 <= i < a.modules.len() ==> same_module(
                a.modules,
                #[trigger] a.modules[i],
                b.modules,
                b.modules[i],
            ),
    ensures
        hash::key_of(graph_parts(a.entry, a.modules)) == hash::key_of(
            graph_parts(b.entry, b.modules),
        ),
{
    lemma_modules_alike(a.modules, a.modules, b.modules, b.modules);
}

/// Whether all parts can be counted in 64 bits.
pub open spec fn parts_fit(parts: Seq<Seq<u8>>) -> bool {
    forall|i: int| 0 <= i < parts.len() ==> (#[trigger] parts[i]).len() <= u64::MAX
}

/// Graphs that are read from snapshots with the same entry and modules have one
/// digest, wherever they are read to and whatever their diagnostics are. One whose
/// snapshot has another content somewhere has another digest, where the hash tells
/// the two apart.
pub proof fn digests_follow_snapshots(
    here: Seq<char>,
    there: Seq<char>,
    s: SnapshotModel,
    alike: SnapshotModel,
    changed: SnapshotModel,
    k: int,
)
    requires
        restored(here, s) is Ok,
        restored(there, alike) is Ok,
        restored(there, changed) is Ok,
        alike.entry == s.entry && alike.modules == s.modules,
        0 <= k < s.modules.len() && s.modules.len() == changed.modules.len(),
        s.modules[k].content_hash != changed.modules[k].content_hash,
        forall|i: int|
            0 <= i < s.modules.len() ==> (#[trigger] s.modules[i]).dependencies.len() <= u64::MAX,
        forall|i: int|
            0 <= i < changed.modules.len() ==> (#[trigger] changed.modules[i]).dependencies.len()
                <= u64::MAX,
        ({
            let g = restored(here, s)->Ok_0;
            let gc = restored(there, changed)->Ok_0;
            let a = graph_parts(g.entry, g.modules);
            let b = graph_parts(gc.entry, gc.modules);
            parts_fit(a) && parts_fit(b) && (hash::key_of(a) == hash::key_of(b) ==> hash::framed(a)
                == hash::framed(b))
        }),
    ensures
        ({
            let g = restored(here, s)->Ok_0;
            let gd = restored(there, alike)->Ok_0;
            let gc = restored(there, changed)->Ok_0;
            let digest = hash::key_of(graph_parts(g.entry, g.modules));
            &&& digest == hash::key_of(graph_parts(gd.entry, gd.modules))
            &&& digest != hash::key_of(graph_parts(gc.entry, gc.modules))
        }),
{
    let g = restored(here, s)->Ok_0;
    let gc = restored(there, changed)->Ok_0;
    let a = graph_parts(g.entry, g.modules);
    let b = graph_parts(gc.entry, gc.modules);
    if hash::key_of(a) == hash::key_of(b) {
        hash::parts_are_unambiguous(a, b);
        digest_tracks_content_and_shape(g, gc);
        assert(same_module(g.modules, g.modules[k], gc.modules, gc.modules[k]));
    }
}

/// A snapshot of a sound graph, in which no path occurs twice, reads back as
/// that graph.
pub proof fn snapshots_read_back(g: GraphModel)
    requires
        is_sound(g),
        g.modules.len() <= usize::MAX,
        forall|i: int, j: int|
            0 <= i < j < g.modules.len() ==> (#[trigger] g.modules[i]).path != (
            #[trigger] g.modules[j]).path,
    ensures
        restored(g.root, snapshot_of(g)) == Ok::<GraphModel, SnapshotFault>(g),
{
    lemma_no_dangling(g.modules, g.modules.len() as int);
    lemma_path_is_indexed(g.modules, g.entry as int);
}

pub proof fn lemma_path_is_indexed(modules: Seq<ModuleModel>, i: int)
    requires
        modules.len() <= usize::MAX,
        0 <= i < modules.len(),
        forall|i: int, j: int|
            0 <= i < j < modules.len() ==> (#[trigger] modules[i]).path != (
            #[trigger] modules[j]).path,
    ensures
        sorted::lookup(path_index(modules), modules[i].path) == Some(i as usize),
    decreases modules.len(),
{
    let front = modules.drop_last();
    let at = (modules.len() - 1) as usize;
    lemma_path_index(front, modules[i].path);
    sorted::lemma_put_lookup(path_index(front), modules.last().path, at, modules[i].path);
    order::lemma_text_rank_injective(modules[i].path, modules.last().path);
    if i < front.len() {
        assert(modules[i] == front[i]);
        assert forall|a: int, b: int| 0 <= a < b < front.len() implies (#[trigger] front[a]).path
            != (#[trigger] front[b]).path by {
            assert(front[a] == modules[a] && front[b] == modules[b]);
        }
        lemma_path_is_indexed(front, i);
        assert(modules[i].path != modules[modules.len() - 1].path);
    }
}

// ---------------------------------------------------------------------------
// Building a graph.

/// A module waiting for its place.
#[derive(Debug)]
struct Seat {
    index: usize,
    path: NormalizedPath,
}

/// What a module waiting for its place stands for.
#[verifier::ext_equal]
pub struct SeatModel {
    pub index: usize,
    pub path: Seq<char>,
}

impl View for Seat {
    type V = SeatModel;

    closed spec fn view(&self) -> SeatModel {
        SeatModel { index: self.index, path: self.path@ }
    }
}

impl Rank for SeatModel {
    open spec fn rank(self) -> Seq<int> {
        order::text_rank(self.path)
    }
}

impl Ranked for Seat {
    fn compare(&self, other: &Self) -> (r: Order) {
        order::compare_text(self.path.as_str(), other.path.as_str())
    }
}

/// Modules as they wait for their places.
pub open spec fn seats(modules: Seq<ModuleModel>) -> Seq<SeatModel> {
    Seq::new(modules.len(), |i: int| SeatModel { index: i as usize, path: modules[i].path })
}

/// The order that modules are put in: by path.
pub open spec fn seating(modules: Seq<ModuleModel>) -> Seq<SeatModel> {
    sorted::stable_sorted(seats(modules))
}

/// The place of the module that was at `index`.
pub open spec fn place_of(order: Seq<SeatModel>, index: usize) -> nat
    decreases order.len(),
{
    if order.len() == 0 || order[0].index == index {
        0
    } else {
        1 + place_of(order.skip(1), index)
    }
}

/// An edge with its target renumbered.
pub open spec fn renumbered_edge(order: Seq<SeatModel>, edge: DependencyModel) -> DependencyModel {
    match edge.target {
        TargetModel::Module { id } => DependencyModel {
            target: TargetModel::Module { id: place_of(order, id) as usize },
            ..edge
        },
        _ => edge,
    }
}

/// A module with the targets of its edges renumbered.
pub open spec fn renumbered(order: Seq<SeatModel>, module: ModuleModel) -> ModuleModel {
    ModuleModel {
        dependencies: module.dependencies.map_values(
            |e: DependencyModel| renumbered_edge(order, e),
        ),
        ..module
    }
}

/// Modules in their places.
pub open spec fn seated(modules: Seq<ModuleModel>) -> Seq<ModuleModel> {
    let order = seating(modules);
    Seq::new(modules.len(), |k: int| renumbered(order, modules[order[k].index as int]))
}

/// `path` as it stands in a graph: relative to the root where it lies below it.
pub open spec fn rooted(root: Seq<char>, p: Seq<char>) -> Seq<char> {
    match path::relative_path(p, root) {
        Some(relative) => relative,
        None => p,
    }
}

/// What a builder stands for.
#[verifier::ext_equal]
pub struct BuilderModel {
    pub root: Seq<char>,
    /// The absolute paths of the modules, in the order in which they came.
    pub paths: Seq<Seq<char>>,
    pub modules: Seq<ModuleModel>,
    pub diagnostics: Seq<DiagnosticModel>,
}

/// The position of a path among paths, or their number.
pub open spec fn known_at(paths: Seq<Seq<char>>, p: Seq<char>) -> nat
    decreases paths.len(),
{
    if paths.len() == 0 || paths[0] == p {
        0
    } else {
        1 + known_at(paths.skip(1), p)
    }
}

/// A builder after a module was registered. One that is known stays as it is.
pub open spec fn with_module(
    b: BuilderModel,
    p: Seq<char>,
    content_hash: Seq<u8>,
    source: SourceKind,
    system: ModuleSystem,
) -> BuilderModel {
    if b.paths.contains(p) {
        b
    } else {
        BuilderModel {
            paths: b.paths.push(p),
            modules: b.modules.push(
                ModuleModel {
                    path: rooted(b.root, p),
                    content_hash,
                    source,
                    system,
                    dependencies: Seq::empty(),
                },
            ),
            ..b
        }
    }
}

/// A builder after an edge was added to a module.
pub open spec fn with_dependency(b: BuilderModel, from: int, edge: DependencyModel) -> BuilderModel {
    BuilderModel {
        modules: b.modules.update(
            from,
            ModuleModel {
                dependencies: b.modules[from].dependencies.push(edge),
                ..b.modules[from]
            },
        ),
        ..b
    }
}

/// A builder after something was reported of the file at `p`.
pub open spec fn with_diagnostic(b: BuilderModel, p: Seq<char>, message: Seq<char>) -> BuilderModel {
    BuilderModel {
        diagnostics: b.diagnostics.push(DiagnosticModel { module: rooted(b.root, p), message }),
        ..b
    }
}

/// The graph that a builder ends as: modules by path, numbered anew, and
/// diagnostics sorted, each once.
pub open spec fn finished(b: BuilderModel) -> GraphModel {
    GraphModel {
        root: b.root,
        entry: if b.modules.len() > 0 {
            place_of(seating(b.modules), 0) as usize
        } else {
            0
        },
        modules: seated(b.modules),
        diagnostics: sorted::deduped(sorted::stable_sorted(b.diagnostics)),
    }
}

/// Whether every edge of a builder leads to one of its modules, or out.
pub open spec fn edges_known(b: BuilderModel) -> bool {
    forall|i: int|
        0 <= i < b.modules.len() ==> all_lead_inside(
            (#[trigger] b.modules[i]).dependencies,
            b.modules.len() as int,
        )
}

/// Every module has a place, and that place is its own.
pub proof fn lemma_seating(modules: Seq<ModuleModel>)
    requires
        modules.len() <= usize::MAX,
    ensures
        seating(modules).len() == modules.len(),
        sorted::in_order(seating(modules)),
        forall|k: int|
            0 <= k < modules.len() ==> (#[trigger] seating(modules)[k]).index < modules.len()
                && seating(modules)[k].path == modules[seating(modules)[k].index as int].path,
        forall|i: usize|
            i < modules.len() ==> #[trigger] place_of(seating(modules), i) < modules.len()
                && seating(modules)[place_of(seating(modules), i) as int].index == i,
{
    let list = seats(modules);
    let order = seating(modules);
    sorted::sorting_orders_and_keeps(list);
    broadcast use vstd::seq_lib::group_to_multiset_ensures;

    assert forall|k: int| 0 <= k < modules.len() implies (#[trigger] order[k]).index < modules.len()
        && order[k].path == modules[order[k].index as int].path by {
        assert(order.contains(order[k]));
        assert(order.to_multiset().count(order[k]) > 0);
        assert(list.to_multiset().count(order[k]) > 0);
        assert(list.contains(order[k]));
    }
    assert forall|i: usize| i < modules.len() implies #[trigger] place_of(order, i) < modules.len()
        && order[place_of(order, i) as int].index == i by {
        assert(list[i as int].index == i);
        assert(list.contains(list[i as int]));
        assert(list.to_multiset().count(list[i as int]) > 0);
        assert(order.to_multiset().count(list[i as int]) > 0);
        assert(order.contains(list[i as int]));
        let k = choose|k: int| 0 <= k < order.len() && order[k] == list[i as int];
        lemma_place_found(order, i, k);
    }
}

proof fn lemma_place_found(order: Seq<SeatModel>, index: usize, k: int)
    requires
        0 <= k < order.len(),
        order[k].index == index,
    ensures
        place_of(order, index) <= k,
        order[place_of(order, index) as int].index == index,
    decreases order.len(),
{
    if order[0].index != index {
        assert(order.skip(1)[k - 1] == order[k]);
        lemma_place_found(order.skip(1), index, k - 1);
    }
}

/// In a finished graph modules stand in the order of their paths.
pub proof fn modules_are_sorted(b: BuilderModel)
    requires
        b.modules.len() <= usize::MAX,
    ensures
        forall|i: int, j: int|
            0 <= i < j < finished(b).modules.len() ==> !order::precedes(
                order::text_rank((#[trigger] finished(b).modules[j]).path),
                order::text_rank((#[trigger] finished(b).modules[i]).path),
            ),
{
    lemma_seating(b.modules);
    let order = seating(b.modules);
    assert forall|i: int, j: int| 0 <= i < j < finished(b).modules.len() implies !order::precedes(
        order::text_rank((#[trigger] finished(b).modules[j]).path),
        order::text_rank((#[trigger] finished(b).modules[i]).path),
    ) by {
        assert(finished(b).modules[i].path == order[i].path);
        assert(finished(b).modules[j].path == order[j].path);
        assert(!order::precedes(order[j].rank(), order[i].rank()));
    }
}

/// Renumbering loses nothing: every module is there, and each of its edges leads
/// to the module that it led to, whatever number that has now.
pub proof fn edges_follow_their_modules(b: BuilderModel, i: usize, e: int)
    requires
        b.modules.len() <= usize::MAX,
        edges_known(b),
        i < b.modules.len(),
        0 <= e < b.modules[i as int].dependencies.len(),
    ensures
        ({
            let g = finished(b);
            let k = place_of(seating(b.modules), i) as int;
            let edge = b.modules[i as int].dependencies[e];
            &&& k < g.modules.len()
            &&& g.modules[k].path == b.modules[i as int].path
            &&& g.modules[k].content_hash == b.modules[i as int].content_hash
            &&& g.modules[k].dependencies[e].specifier == edge.specifier
            &&& g.modules[k].dependencies[e].kind == edge.kind
            &&& match (edge.target, g.modules[k].dependencies[e].target) {
                (TargetModel::Module { id: before }, TargetModel::Module { id: now }) => now
                    < g.modules.len() && g.modules[now as int].path
                    == b.modules[before as int].path,
                (before, now) => before == now,
            }
        }),
{
    lemma_seating(b.modules);
    let order = seating(b.modules);
    let k = place_of(order, i) as int;
    assert(order[k].index == i);
    assert(all_lead_inside(b.modules[i as int].dependencies, b.modules.len() as int));
    let edge = b.modules[i as int].dependencies[e];
    assert(finished(b).modules[k].dependencies[e] == renumbered_edge(order, edge));
    if let TargetModel::Module { id } = edge.target {
        assert(leads_inside(edge.target, b.modules.len() as int));
        let now = place_of(order, id) as int;
        assert(order[now].index == id);
    }
}

/// A finished graph holds together.
pub proof fn finished_graphs_are_sound(b: BuilderModel)
    requires
        0 < b.modules.len() <= usize::MAX,
        edges_known(b),
    ensures
        is_sound(finished(b)),
        finished(b).modules[finished(b).entry as int].path == b.modules[0].path,
{
    lemma_seating(b.modules);
    let order = seating(b.modules);
    let g = finished(b);
    assert(order[place_of(order, 0) as int].index == 0);
    assert forall|k: int| 0 <= k < g.modules.len() implies all_lead_inside(
        (#[trigger] g.modules[k]).dependencies,
        g.modules.len() as int,
    ) by {
        let from = b.modules[order[k].index as int];
        assert(all_lead_inside(from.dependencies, b.modules.len() as int));
        assert forall|j: int| 0 <= j < g.modules[k].dependencies.len() implies leads_inside(
            (#[trigger] g.modules[k].dependencies[j]).target,
            g.modules.len() as int,
        ) by {
            assert(g.modules[k].dependencies[j] == renumbered_edge(order, from.dependencies[j]));
            assert(leads_inside(from.dependencies[j].target, b.modules.len() as int));
            if let TargetModel::Module { id } = from.dependencies[j].target {
                assert(place_of(order, id) < b.modules.len());
            }
        }
    }
}

/// Accumulates modules during resolution, then puts them in order.
#[derive(Debug)]
pub struct ModuleGraphBuilder {
    root: NormalizedPath,
    /// Absolute paths, parallel to `modules`.
    paths: Vec<NormalizedPath>,
    modules: Vec<Module>,
    ids: SortedMap<NormalizedPath, usize>,
    diagnostics: Vec<Diagnostic>,
}

impl View for ModuleGraphBuilder {
    type V = BuilderModel;

    closed spec fn view(&self) -> BuilderModel {
        BuilderModel {
            root: self.root@,
            paths: sorted::list_views(self.paths@),
            modules: sorted::list_views(self.modules@),
            diagnostics: sorted::list_views(self.diagnostics@),
        }
    }
}

/// Whether an index holds exactly the positions of paths.
spec fn indexes(ids: Seq<(Seq<char>, usize)>, paths: Seq<Seq<char>>) -> bool {
    &&& sorted::ascending(ids)
    &&& forall|p: Seq<char>|
        match #[trigger] sorted::lookup(ids, p) {
            Some(at) => at < paths.len() && at == known_at(paths, p) && paths[at as int] == p,
            None => !paths.contains(p),
        }
}

pub proof fn lemma_known_push(paths: Seq<Seq<char>>, p: Seq<char>, q: Seq<char>)
    ensures
        known_at(paths, q) <= paths.len(),
        paths.contains(q) ==> known_at(paths.push(p), q) == known_at(paths, q) && known_at(paths, q)
            < paths.len() && paths[known_at(paths, q) as int] == q,
        !paths.contains(q) && p == q ==> known_at(paths.push(p), q) == paths.len(),
    decreases paths.len(),
{
    if paths.len() > 0 {
        let rest = paths.skip(1);
        lemma_known_push(rest, p, q);
        assert(paths.push(p).skip(1) =~= rest.push(p));
        assert(paths.push(p)[0] == paths[0]);
        if paths[0] != q {
            if paths.contains(q) {
                let k = choose|k: int| 0 <= k < paths.len() && paths[k] == q;
                assert(rest[k - 1] == q);
            }
            if rest.contains(q) {
                let k = choose|k: int| 0 <= k < rest.len() && rest[k] == q;
                assert(paths[k + 1] == q);
            }
        } else {
            assert(paths.contains(paths[0]));
        }
    } else {
        assert(paths.push(p)[0] == p);
    }
}

proof fn lemma_index_grows(ids: Seq<(Seq<char>, usize)>, paths: Seq<Seq<char>>, p: Seq<char>)
    requires
        indexes(ids, paths),
        !paths.contains(p),
        paths.len() < usize::MAX,
    ensures
        indexes(sorted::put(ids, p, paths.len() as usize), paths.push(p)),
{
    let at = paths.len() as usize;
    let next = sorted::put(ids, p, at);
    sorted::lemma_put_ascending(ids, p, at);
    let all = paths.push(p);
    assert forall|q: Seq<char>|
        match #[trigger] sorted::lookup(next, q) {
            Some(at) => at < all.len() && at == known_at(all, q) && all[at as int] == q,
            None => !all.contains(q),
        } by {
        sorted::lemma_put_lookup(ids, p, at, q);
        order::lemma_text_rank_injective(q, p);
        lemma_known_push(paths, p, q);
        assert(sorted::lookup(ids, q) is Some || sorted::lookup(ids, q) is None);
        if q != p && all.contains(q) {
            let k = choose|k: int| 0 <= k < all.len() && all[k] == q;
            assert(paths[k] == q);
        }
        if q != p && sorted::lookup(ids, q) is Some {
            let found = sorted::lookup(ids, q)->0;
            assert(paths[found as int] == q);
            assert(all[found as int] == q);
        }
    }
}

impl ModuleGraphBuilder {
    #[verifier::type_invariant]
    spec fn consistent(self) -> bool {
        &&& self.paths@.len() == self.modules@.len()
        &&& indexes(self.ids@, sorted::list_views(self.paths@))
        &&& edges_known(self@)
    }

    /// A builder without modules.
    pub fn new(root: NormalizedPath) -> (r: Self)
        ensures
            r@ == (BuilderModel {
                root: root@,
                paths: Seq::empty(),
                modules: Seq::empty(),
                diagnostics: Seq::empty(),
            }),
    {
        let ids: SortedMap<NormalizedPath, usize> = SortedMap::new();
        let paths: Vec<NormalizedPath> = Vec::new();
        let modules: Vec<Module> = Vec::new();
        let diagnostics: Vec<Diagnostic> = Vec::new();
        proof {
            assert(sorted::list_views(paths@) =~= Seq::empty());
            assert(sorted::list_views(modules@) =~= Seq::empty());
            assert(sorted::list_views(diagnostics@) =~= Seq::empty());
            assert forall|p: Seq<char>| (#[trigger] sorted::lookup(ids@, p)) is None by {
                sorted::lemma_slot(ids@, p);
            }
        }
        ModuleGraphBuilder { root, paths, modules, ids, diagnostics }
    }

    /// The provisional index of the module at an absolute path.
    pub fn id_of(&self, absolute: &NormalizedPath) -> (r: Option<usize>)
        ensures
            match r {
                Some(index) => self@.paths.contains(absolute@) && index == known_at(
                    self@.paths,
                    absolute@,
                ) && index < self@.modules.len(),
                None => !self@.paths.contains(absolute@),
            },
            self@.paths.len() == self@.modules.len(),
    {
        proof {
            use_type_invariant(self);
            assert(sorted::lookup(self.ids@, absolute@) is Some || sorted::lookup(
                self.ids@,
                absolute@,
            ) is None);
        }
        match self.ids.get(absolute) {
            Some(index) => {
                let found: usize = *index;
                assert(self@.paths[found as int] == absolute@);
                Some(found)
            },
            None => None,
        }
    }

    /// The number of modules.
    pub fn len(&self) -> (r: usize)
        ensures
            r == self@.modules.len(),
            r == self@.paths.len(),
            edges_known(self@),
    {
        proof {
            use_type_invariant(self);
        }
        self.modules.len()
    }

    /// Registers a module, returning its provisional index.
    pub fn insert(
        &mut self,
        absolute: NormalizedPath,
        content_hash: ContentHash,
        source: SourceKind,
        system: ModuleSystem,
    ) -> (r: usize)
        ensures
            final(self)@ == with_module(old(self)@, absolute@, content_hash@, source, system),
            r == known_at(final(self)@.paths, absolute@),
            r < final(self)@.modules.len(),
    {
        if let Some(index) = self.id_of(&absolute) {
            return index;
        }
        proof {
            use_type_invariant(&*self);
        }
        let path = relative(&self.root, &absolute);
        let index: usize = self.modules.len();
        let module = Module {
            path,
            content_hash,
            source,
            system,
            dependencies: Vec::new(),
        };
        let ghost before = self@;
        let mut fresh = ModuleGraphBuilder::new(self.root.clone());
        std::mem::swap(self, &mut fresh);
        let ModuleGraphBuilder { root, paths, modules, ids, diagnostics } = fresh;
        let mut paths = paths;
        let mut modules = modules;
        let mut ids = ids;
        assert(sorted::list_views(module.dependencies@) =~= Seq::empty());
        modules.push(module);
        let ghost (key, old_ids) = (absolute@, ids@);
        assert(modules@.len() <= usize::MAX) by {
            assert(modules.len() <= usize::MAX);
        }
        ids.insert(absolute.clone(), index);
        paths.push(absolute);
        proof {
            assert(sorted::list_views(paths@) =~= before.paths.push(key));
            assert(sorted::list_views(modules@) =~= before.modules.push(module@));
            lemma_index_grows(old_ids, before.paths, key);
            lemma_known_push(before.paths, key, key);
            let next = with_module(before, key, content_hash@, source, system);
            assert forall|i: int| 0 <= i < next.modules.len() implies all_lead_inside(
                (#[trigger] next.modules[i]).dependencies,
                next.modules.len() as int,
            ) by {
                if i < before.modules.len() {
                    assert(next.modules[i] == before.modules[i]);
                    assert(all_lead_inside(before.modules[i].dependencies, before.modules.len() as int));
                    assert forall|j: int|
                        0 <= j < next.modules[i].dependencies.len() implies leads_inside(
                        (#[trigger] next.modules[i].dependencies[j]).target,
                        next.modules.len() as int,
                    ) by {
                        assert(leads_inside(
                            before.modules[i].dependencies[j].target,
                            before.modules.len() as int,
                        ));
                    }
                }
            }
        }
        *self = ModuleGraphBuilder { root, paths, modules, ids, diagnostics };
        index
    }
}

/// `absolute` as it stands in a graph.
pub fn relative(root: &NormalizedPath, absolute: &NormalizedPath) -> (r: NormalizedPath)
    ensures
        r@ == rooted(root@, absolute@),
{
    match absolute.relative_to(root) {
        Some(relative) => relative,
        None => absolute.clone(),
    }
}

impl ModuleGraphBuilder {
    /// Adds an edge to a module.
    pub fn add_dependency(&mut self, from: usize, dependency: Dependency)
        requires
            from < old(self)@.modules.len(),
            leads_inside(dependency@.target, old(self)@.modules.len() as int),
        ensures
            final(self)@ == with_dependency(old(self)@, from as int, dependency@),
    {
        proof {
            use_type_invariant(&*self);
        }
        let ghost before = self@;
        let ghost edge = dependency@;
        let mut fresh = ModuleGraphBuilder::new(self.root.clone());
        std::mem::swap(self, &mut fresh);
        let ModuleGraphBuilder { root, paths, modules, ids, diagnostics } = fresh;
        let mut modules = modules;
        let mut module = modules.remove(from);
        let ghost edges = module@.dependencies;
        module.dependencies.push(dependency);
        assert(module@.dependencies =~= edges.push(edge));
        modules.insert(from, module);
        proof {
            let next = with_dependency(before, from as int, edge);
            assert(sorted::list_views(modules@) =~= next.modules);
            assert forall|i: int| 0 <= i < next.modules.len() implies all_lead_inside(
                (#[trigger] next.modules[i]).dependencies,
                next.modules.len() as int,
            ) by {
                assert(all_lead_inside(before.modules[i].dependencies, before.modules.len() as int));
                if i == from {
                    assert forall|j: int|
                        0 <= j < next.modules[i].dependencies.len() implies leads_inside(
                        (#[trigger] next.modules[i].dependencies[j]).target,
                        next.modules.len() as int,
                    ) by {
                        if j < before.modules[i].dependencies.len() {
                            assert(leads_inside(
                                before.modules[i].dependencies[j].target,
                                before.modules.len() as int,
                            ));
                        }
                    }
                }
            }
        }
        *self = ModuleGraphBuilder { root, paths, modules, ids, diagnostics };
    }

    /// Reports something of the file at an absolute path.
    pub fn add_diagnostic(&mut self, absolute: &NormalizedPath, message: &str)
        ensures
            final(self)@ == with_diagnostic(old(self)@, absolute@, message@),
    {
        proof {
            use_type_invariant(&*self);
        }
        let ghost before = self@;
        let diagnostic = Diagnostic {
            module: relative(&self.root, absolute),
            message: message.to_string(),
        };
        let mut fresh = ModuleGraphBuilder::new(self.root.clone());
        std::mem::swap(self, &mut fresh);
        let ModuleGraphBuilder { root, paths, modules, ids, diagnostics } = fresh;
        let mut diagnostics = diagnostics;
        diagnostics.push(diagnostic);
        assert(sorted::list_views(diagnostics@) =~= before.diagnostics.push(diagnostic@));
        *self = ModuleGraphBuilder { root, paths, modules, ids, diagnostics };
    }

    /// Sorts modules by path, renumbers ids, and sorts diagnostics.
    pub fn finish(self) -> (r: ModuleGraph)
        ensures
            r@ == finished(self@),
            self@.modules.len() > 0 ==> is_sound(r@),
    {
        proof {
            use_type_invariant(&self);
            assert(self@.modules.len() == self.modules@.len());
            assert(self.modules.len() <= usize::MAX);
            lemma_seating(self@.modules);
            if self@.modules.len() > 0 {
                finished_graphs_are_sound(self@);
            }
        }
        let ghost all = self@.modules;
        let order = sorted::sort(take_seats(&self.modules));
        let ghost seats_taken = sorted::list_views(order@);
        let places = places(&order);
        let count: usize = self.modules.len();
        let mut modules: Vec<Module> = Vec::new();
        let mut k: usize = 0;
        assert(sorted::list_views(modules@) =~= seated(all).take(0));
        assert(seats_taken.len() == order@.len());
        while k < count
            invariant
                k <= count,
                count == all.len(),
                count == self.modules@.len(),
                all == sorted::list_views(self.modules@),
                all == self@.modules,
                edges_known(self@),
                seats_taken == sorted::list_views(order@),
                seats_taken == seating(all),
                seats_taken.len() == order@.len(),
                order@.len() == count,
                places@.len() == count,
                forall|k: int|
                    0 <= k < all.len() ==> (#[trigger] seats_taken[k]).index < all.len(),
                forall|i: usize|
                    i < all.len() ==> #[trigger] place_of(seats_taken, i) < all.len(),
                forall|i: usize|
                    i < count && place_of(seats_taken, i) < count ==> #[trigger] places@[i as int]
                        == place_of(seats_taken, i),
                sorted::list_views(modules@) == seated(all).take(k as int),
            decreases count - k,
        {
            let ghost before = sorted::list_views(modules@);
            let at: usize = order[k].index;
            proof {
                assert(seats_taken[k as int] == order@[k as int]@);
                assert(at < all.len());
                assert(all[at as int] == self.modules@[at as int]@);
                assert(all_lead_inside(all[at as int].dependencies, all.len() as int));
            }
            let module = renumber(&self.modules[at], &places, Ghost(seats_taken));
            proof {
                assert(seated(all)[k as int] == module@);
                assert(seated(all).take(k + 1) =~= seated(all).take(k as int).push(module@));
            }
            modules.push(module);
            assert(sorted::list_views(modules@) =~= before.push(module@));
            k += 1;
        }
        assert(seated(all).take(k as int) =~= seated(all));
        let entry: usize = if count > 0 {
            assert(place_of(seats_taken, 0) < count);
            places[0]
        } else {
            0
        };
        let diagnostics = dedup(sorted::sort(self.diagnostics));
        let by_path = index_paths(&modules);
        ModuleGraph { root: self.root, entry: ModuleId(entry), modules, diagnostics, by_path }
    }
}

fn take_seats(modules: &Vec<Module>) -> (out: Vec<Seat>)
    ensures
        sorted::list_views(out@) == seats(sorted::list_views(modules@)),
{
    let ghost all = sorted::list_views(modules@);
    let mut out: Vec<Seat> = Vec::new();
    let mut i: usize = 0;
    assert(sorted::list_views(out@) =~= seats(all).take(0));
    while i < modules.len()
        invariant
            i <= modules@.len(),
            all == sorted::list_views(modules@),
            sorted::list_views(out@) == seats(all).take(i as int),
        decreases modules@.len() - i,
    {
        let ghost before = sorted::list_views(out@);
        let seat = Seat { index: i, path: modules[i].path.clone() };
        proof {
            assert(all[i as int] == modules@[i as int]@);
            assert(seats(all)[i as int] == seat@);
            assert(seats(all).take(i + 1) =~= seats(all).take(i as int).push(seat@));
        }
        out.push(seat);
        assert(sorted::list_views(out@) =~= before.push(seat@));
        i += 1;
    }
    assert(seats(all).take(i as int) =~= seats(all));
    out
}

/// The place of every module, by the index that it had.
fn places(order: &Vec<Seat>) -> (out: Vec<usize>)
    ensures
        out@.len() == order@.len(),
        forall|i: usize|
            i < order@.len() && place_of(sorted::list_views(order@), i) < order@.len()
                ==> #[trigger] out@[i as int] == place_of(sorted::list_views(order@), i),
{
    let ghost all = sorted::list_views(order@);
    let count: usize = order.len();
    let mut out: Vec<usize> = vec![0; count];
    let mut k: usize = count;
    assert(all.skip(count as int).len() == 0);
    while k > 0
        invariant
            k <= count,
            count == order@.len(),
            out@.len() == count,
            all == sorted::list_views(order@),
            all.len() == count,
            forall|i: usize|
                i < count && place_of(all.skip(k as int), i) < count - k
                    ==> #[trigger] out@[i as int] == k + place_of(all.skip(k as int), i),
        decreases k,
    {
        let ghost before = out@;
        let ghost rest = all.skip(k as int);
        k -= 1;
        let at: usize = order[k].index;
        proof {
            assert(all.skip(k as int)[0] == order@[k as int]@);
            assert(all.skip(k as int).skip(1) =~= rest);
        }
        if at < count {
            out.set(at, k);
        }
        assert forall|i: usize|
            i < count && place_of(all.skip(k as int), i) < count - k implies #[trigger] out@[i as int]
            == k + place_of(all.skip(k as int), i) by {
            if i != at {
                assert(out@[i as int] == before[i as int]);
                assert(place_of(all.skip(k as int), i) == 1 + place_of(rest, i));
            }
        }
    }
    assert(all.skip(0) =~= all);
    out
}

/// A module with the targets of its edges renumbered.
fn renumber(module: &Module, places: &Vec<usize>, Ghost(seating): Ghost<Seq<SeatModel>>) -> (r:
    Module)
    requires
        all_lead_inside(module@.dependencies, places@.len() as int),
        forall|i: usize| i < places@.len() ==> #[trigger] place_of(seating, i) < places@.len(),
        forall|i: usize|
            i < places@.len() && place_of(seating, i) < places@.len()
                ==> #[trigger] places@[i as int] == place_of(seating, i),
    ensures
        r@ == renumbered(seating, module@),
{
    let ghost all = renumbered(seating, module@).dependencies;
    let mut dependencies: Vec<Dependency> = Vec::new();
    let mut j: usize = 0;
    assert(sorted::list_views(dependencies@) =~= all.take(0));
    assert(all.len() == module.dependencies@.len());
    while j < module.dependencies.len()
        invariant
            j <= module.dependencies@.len(),
            all == renumbered(seating, module@).dependencies,
            all.len() == module.dependencies@.len(),
            all_lead_inside(module@.dependencies, places@.len() as int),
            forall|i: usize| i < places@.len() ==> #[trigger] place_of(seating, i) < places@.len(),
            forall|i: usize|
                i < places@.len() && place_of(seating, i) < places@.len()
                    ==> #[trigger] places@[i as int] == place_of(seating, i),
            sorted::list_views(dependencies@) == all.take(j as int),
        decreases module.dependencies@.len() - j,
    {
        let ghost before = sorted::list_views(dependencies@);
        let one = &module.dependencies[j];
        proof {
            assert(module@.dependencies[j as int] == one@);
            assert(leads_inside(one@.target, places@.len() as int));
            assert(all[j as int] == renumbered_edge(seating, one@));
        }
        let target = match &one.target {
            DependencyTarget::Module { id } => {
                assert(place_of(seating, id@) < places@.len());
                DependencyTarget::Module { id: ModuleId(places[id.index()]) }
            },
            other => other.clone(),
        };
        let edge = Dependency { specifier: one.specifier.clone(), kind: one.kind, target };
        proof {
            assert(all[j as int] == edge@);
            assert(all.take(j + 1) =~= all.take(j as int).push(edge@));
        }
        dependencies.push(edge);
        assert(sorted::list_views(dependencies@) =~= before.push(edge@));
        j += 1;
    }
    assert(all.take(j as int) =~= all);
    Module {
        path: module.path.clone(),
        content_hash: module.content_hash,
        source: module.source,
        system: module.system,
        dependencies,
    }
}

/// Drops repeats of a neighbour.
fn dedup(list: Vec<Diagnostic>) -> (out: Vec<Diagnostic>)
    ensures
        sorted::list_views(out@) == sorted::deduped(sorted::list_views(list@)),
{
    let ghost all = sorted::list_views(list@);
    let mut out: Vec<Diagnostic> = Vec::new();
    let mut i: usize = 0;
    assert(sorted::list_views(out@) =~= Seq::empty());
    while i < list.len()
        invariant
            i <= list@.len(),
            all == sorted::list_views(list@),
            sorted::list_views(out@) == sorted::deduped(all.take(i as int)),
        decreases list@.len() - i,
    {
        let ghost before = sorted::list_views(out@);
        let one = &list[i];
        proof {
            assert(all.take(i + 1).drop_last() =~= all.take(i as int));
            assert(all.take(i + 1).last() == one@);
            assert(before.len() == out@.len());
            if out@.len() > 0 {
                assert(before.last() == out@[out@.len() - 1]@);
            }
        }
        let repeated = out.len() > 0 && text::same_text(
            out[out.len() - 1].module.as_str(),
            one.module.as_str(),
        ) && text::same_text(out[out.len() - 1].message.as_str(), one.message.as_str());
        if !repeated {
            let copy = one.clone();
            out.push(copy);
            assert(sorted::list_views(out@) =~= before.push(copy@));
        }
        i += 1;
    }
    assert(all.take(i as int) =~= all);
    out
}

// ---------------------------------------------------------------------------
// What a graph answers.

/// The dependents of a module are the modules with an edge to it.
pub proof fn dependents_have_edges(modules: Seq<ModuleModel>, id: usize, k: usize)
    requires
        modules.len() <= usize::MAX,
    ensures
        dependents_of(modules, id).contains(k) <==> k < modules.len() && exists|j: int|
            0 <= j < modules[k as int].dependencies.len() && (
            #[trigger] modules[k as int].dependencies[j]).target == (TargetModel::Module { id }),
    decreases modules.len(),
{
    let all = dependents_of(modules, id);
    if modules.len() > 0 {
        let rest = modules.drop_last();
        let front = dependents_of(rest, id);
        dependents_have_edges(rest, id, k);
        if all.contains(k) {
            let j = choose|j: int| 0 <= j < all.len() && all[j] == k;
            if j < front.len() {
                assert(front[j] == k);
                assert(rest[k as int] == modules[k as int]);
            } else {
                assert(leads_to(modules[k as int].dependencies, id));
            }
        }
        if k < modules.len() && leads_to(modules[k as int].dependencies, id) {
            if k < rest.len() {
                assert(rest[k as int] == modules[k as int]);
                let j = choose|j: int| 0 <= j < front.len() && front[j] == k;
                assert(all[j] == k);
            } else {
                assert(all[all.len() - 1] == k);
            }
        }
    }
}

proof fn lemma_unresolved_edges(
    module: ModuleModel,
    edges: Seq<DependencyModel>,
    edge: (ModuleModel, DependencyModel),
)
    ensures
        unresolved_edges(module, edges).contains(edge) <==> edge.0 == module && edges.contains(
            edge.1,
        ) && edge.1.target is Unresolved,
    decreases edges.len(),
{
    let all = unresolved_edges(module, edges);
    if edges.len() > 0 {
        let rest = edges.drop_last();
        let front = unresolved_edges(module, rest);
        lemma_unresolved_edges(module, rest, edge);
        if all.contains(edge) {
            let j = choose|j: int| 0 <= j < all.len() && all[j] == edge;
            if j < front.len() {
                assert(front[j] == edge);
                let i = choose|i: int| 0 <= i < rest.len() && rest[i] == edge.1;
                assert(edges[i] == edge.1);
            } else {
                assert(edges[edges.len() - 1] == edge.1);
            }
        }
        if edge.0 == module && edges.contains(edge.1) && edge.1.target is Unresolved {
            let i = choose|i: int| 0 <= i < edges.len() && edges[i] == edge.1;
            if i < rest.len() {
                assert(rest[i] == edge.1);
                let j = choose|j: int| 0 <= j < front.len() && front[j] == edge;
                assert(all[j] == edge);
            } else {
                assert(all[all.len() - 1] == edge);
            }
        }
    }
}

/// The edges that are listed as leading nowhere are those of the graph's modules whose
/// target is unresolved, each with its module.
pub proof fn unresolved_edges_are_listed(
    modules: Seq<ModuleModel>,
    edge: (ModuleModel, DependencyModel),
)
    ensures
        unresolved_of(modules).contains(edge) <==> modules.contains(edge.0)
            && edge.0.dependencies.contains(edge.1) && edge.1.target is Unresolved,
    decreases modules.len(),
{
    let all = unresolved_of(modules);
    if modules.len() > 0 {
        let rest = modules.drop_last();
        let last = modules[modules.len() - 1];
        let front = unresolved_of(rest);
        let more = unresolved_edges(last, last.dependencies);
        unresolved_edges_are_listed(rest, edge);
        lemma_unresolved_edges(last, last.dependencies, edge);
        if all.contains(edge) {
            let j = choose|j: int| 0 <= j < all.len() && all[j] == edge;
            if j < front.len() {
                assert(front[j] == edge);
                let i = choose|i: int| 0 <= i < rest.len() && rest[i] == edge.0;
                assert(modules[i] == edge.0);
            } else {
                assert(more[j - front.len()] == edge);
                assert(more.contains(edge));
            }
        }
        if modules.contains(edge.0) && edge.0.dependencies.contains(edge.1)
            && edge.1.target is Unresolved {
            let i = choose|i: int| 0 <= i < modules.len() && modules[i] == edge.0;
            if i < rest.len() {
                assert(rest[i] == edge.0);
                let j = choose|j: int| 0 <= j < front.len() && front[j] == edge;
                assert(all[j] == edge);
            } else {
                let j = choose|j: int| 0 <= j < more.len() && more[j] == edge;
                assert(all[front.len() + j] == edge);
            }
        }
    }
}

/// The number of edges is that of the edges of each module, added up.
pub proof fn edge_counts_add_up(a: Seq<ModuleModel>, b: Seq<ModuleModel>, module: ModuleModel)
    ensures
        edges_in(a + b) == edges_in(a) + edges_in(b),
        edges_in(seq![module]) == module.dependencies.len(),
    decreases b.len(),
{
    if b.len() > 0 {
        edge_counts_add_up(a, b.drop_last(), module);
        assert((a + b).drop_last() =~= a + b.drop_last());
    } else {
        assert(a + b =~= a);
    }
    assert(seq![module].drop_last() =~= Seq::empty());
    reveal_with_fuel(edges_in, 2);
}

} // verus!
