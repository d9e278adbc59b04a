//! Where the edges of a finished walk lead, and what its modules are.
//!
//! An edge leads where its specifier leads from the directory of its module, by what
//! is on disk. A module has the content and the module system of the file it is of.
//! What a source names, it imports.

use vstd::prelude::*;
use crate::graph::resolver::{
    self, ContentModel, Destination, Disk, FactModel, Loading, LogModel, NoteModel, OptionsModel,
    WalkModel, Wanted,
};
use crate::graph::shape;
use crate::graph::syntax::{self, ImportModel, NodeModel};
use crate::graph::{
    self, leads, BuilderModel, DependencyKind, DependencyModel, ModuleModel, SourceKind,
    TargetModel,
};
use crate::{hash, path, sorted};

verus! {

// ---------------------------------------------------------------------------
// Edges.

/// The directory that the specifiers of a module are resolved from.
pub open spec fn directory_of(root: Seq<char>, p: Seq<char>) -> Seq<char> {
    match path::parent_of(p) {
        Some(parent) => parent,
        None => root,
    }
}

/// Where a specifier in the file at `p` leads, by what is on disk.
pub open spec fn end_of(
    disk: Disk,
    options: OptionsModel,
    root: Seq<char>,
    p: Seq<char>,
    specifier: Seq<char>,
    kind: DependencyKind,
) -> Option<Destination> {
    resolver::specifier_leads(
        disk,
        resolver::no_log(),
        options,
        root,
        directory_of(root, p),
        specifier,
        kind,
    ).found
}

/// Whether a target is that of a destination, the modules being those of files.
pub open spec fn is_end(
    paths: Seq<Seq<char>>,
    target: TargetModel,
    end: Option<Destination>,
) -> bool {
    match target {
        TargetModel::Module { id } => id < paths.len() && end == Some(
            Destination::Path(paths[id as int]),
        ),
        TargetModel::Builtin { name } => end == Some(Destination::Builtin(name)),
        TargetModel::Unresolved { reason } => end == Some(Destination::Unresolved(reason)),
    }
}

/// Whether a module has the content and the module system of the file at `p`.
pub open spec fn is_of(disk: Disk, root: Seq<char>, p: Seq<char>, module: ModuleModel) -> bool {
    &&& sorted::lookup(disk, p) matches Some(FactModel::File { hash, content })
        && module.content_hash == hash
    &&& resolver::system_of(disk, resolver::no_log(), root, p).found == Some(module.system)
}

/// Whether all edges of a module lead where their specifiers lead.
pub open spec fn all_lead(
    disk: Disk,
    options: OptionsModel,
    b: BuilderModel,
    i: int,
) -> bool {
    forall|e: int|
        0 <= e < b.modules[i].dependencies.len() ==> is_end(
            b.paths,
            (#[trigger] b.modules[i].dependencies[e]).target,
            end_of(
                disk,
                options,
                b.root,
                b.paths[i],
                b.modules[i].dependencies[e].specifier,
                b.modules[i].dependencies[e].kind,
            ),
        )
}

/// Whether every module is of its file, and its edges lead where their specifiers
/// lead.
#[verifier::opaque]
pub open spec fn is_true(disk: Disk, options: OptionsModel, b: BuilderModel) -> bool {
    &&& b.modules.len() == b.paths.len()
    &&& forall|i: int|
        0 <= i < b.modules.len() ==> is_of(disk, b.root, b.paths[i], #[trigger] b.modules[i])
            && all_lead(disk, options, b, i)
}

proof fn lemma_notes(disk: Disk, options: OptionsModel, b: BuilderModel, notes: Seq<NoteModel>)
    requires
        is_true(disk, options, b),
    ensures
        is_true(disk, options, resolver::noted(b, notes)),
{
    reveal(is_true);
    resolver::lemma_noted(b, notes);
    let next = resolver::noted(b, notes);
    assert forall|i: int| 0 <= i < next.modules.len() implies is_of(
        disk,
        next.root,
        next.paths[i],
        #[trigger] next.modules[i],
    ) && all_lead(disk, options, next, i) by {
        assert(is_of(disk, b.root, b.paths[i], b.modules[i]));
        assert(all_lead(disk, options, b, i));
    }
}

proof fn lemma_module(
    disk: Disk,
    options: OptionsModel,
    b: BuilderModel,
    p: Seq<char>,
    log: LogModel,
    after: LogModel,
    hash: Seq<u8>,
    system: graph::ModuleSystem,
)
    requires
        is_true(disk, options, b),
        resolver::loading(disk, log, b.root, p) == (Loading::Loaded { log: after, hash, system }),
    ensures
        is_true(disk, options, graph::with_module(b, p, hash, resolver::kind_of(p), system)),
{
    reveal(is_true);
    let next = graph::with_module(b, p, hash, resolver::kind_of(p), system);
    let asked = resolver::ask(log, p);
    leads::module_systems_rest_on_the_disk(disk, asked, resolver::no_log(), b.root, p);
    leads::module_systems_rest_on_the_disk(
        disk,
        resolver::note(asked, p, resolver::not_text()),
        resolver::no_log(),
        b.root,
        p,
    );
    assert forall|i: int| 0 <= i < next.modules.len() implies is_of(
        disk,
        next.root,
        next.paths[i],
        #[trigger] next.modules[i],
    ) && all_lead(disk, options, next, i) by {
        if i < b.modules.len() {
            assert(next.modules[i] == b.modules[i] && next.paths[i] == b.paths[i]);
            assert(is_of(disk, b.root, b.paths[i], b.modules[i]));
            assert(all_lead(disk, options, b, i));
            assert forall|e: int| 0 <= e < next.modules[i].dependencies.len() implies is_end(
                next.paths,
                (#[trigger] next.modules[i].dependencies[e]).target,
                end_of(
                    disk,
                    options,
                    next.root,
                    next.paths[i],
                    next.modules[i].dependencies[e].specifier,
                    next.modules[i].dependencies[e].kind,
                ),
            ) by {
                assert(b.modules[i].dependencies[e] == next.modules[i].dependencies[e]);
            }
        }
    }
}

proof fn lemma_edge(
    disk: Disk,
    options: OptionsModel,
    b: BuilderModel,
    from: int,
    edge: DependencyModel,
)
    requires
        is_true(disk, options, b),
        0 <= from < b.modules.len(),
        is_end(
            b.paths,
            edge.target,
            end_of(disk, options, b.root, b.paths[from], edge.specifier, edge.kind),
        ),
    ensures
        is_true(disk, options, graph::with_dependency(b, from, edge)),
{
    reveal(is_true);
    let next = graph::with_dependency(b, from, edge);
    assert forall|i: int| 0 <= i < next.modules.len() implies is_of(
        disk,
        next.root,
        next.paths[i],
        #[trigger] next.modules[i],
    ) && all_lead(disk, options, next, i) by {
        assert(is_of(disk, b.root, b.paths[i], b.modules[i]));
        assert(all_lead(disk, options, b, i));
        assert forall|e: int| 0 <= e < next.modules[i].dependencies.len() implies is_end(
            next.paths,
            (#[trigger] next.modules[i].dependencies[e]).target,
            end_of(
                disk,
                options,
                next.root,
                next.paths[i],
                next.modules[i].dependencies[e].specifier,
                next.modules[i].dependencies[e].kind,
            ),
        ) by {
            if e < b.modules[i].dependencies.len() {
                assert(b.modules[i].dependencies[e] == next.modules[i].dependencies[e]);
            }
        }
    }
}

proof fn lemma_loaded(
    disk: Disk,
    options: OptionsModel,
    walk: WalkModel,
    p: Seq<char>,
    log: LogModel,
    after: LogModel,
    hash: Seq<u8>,
    system: graph::ModuleSystem,
)
    requires
        is_true(disk, options, walk.builder),
        resolver::loading(disk, log, walk.builder.root, p) == (Loading::Loaded {
            log: after,
            hash,
            system,
        }),
    ensures
        is_true(
            disk,
            options,
            resolver::with_loaded(disk, walk, p, after, hash, system).builder,
        ),
{
    lemma_notes(disk, options, walk.builder, after.notes);
    resolver::lemma_noted(walk.builder, after.notes);
    lemma_module(
        disk,
        options,
        resolver::noted(walk.builder, after.notes),
        p,
        log,
        after,
        hash,
        system,
    );
}

proof fn lemma_import(disk: Disk, options: OptionsModel, walk: WalkModel)
    requires
        is_true(disk, options, walk.builder),
        shape::is_fair(disk, options, walk),
        walk.entry is None,
        walk.queue.len() > 0,
        walk.pending matches Some(pending) && pending.len() > 0,
        shape::walk_goes_on(disk, options, walk),
        shape::next_of(disk, options, walk).builder.paths.len() <= usize::MAX,
    ensures
        is_true(disk, options, shape::next_of(disk, options, walk).builder),
{
    let next = shape::next_of(disk, options, walk);
    let b = walk.builder;
    let p = walk.queue[0].1;
    let wanted = walk.pending->0[0];
    resolver::walk_steps_make_progress(disk, options, walk);
    let at = walk.queue[0].0 as int;
    assert(0 <= at < b.modules.len() && b.paths[at] == p && b.modules.len() == b.paths.len()) by {
        reveal(is_true);
        reveal(shape::is_queued);
        assert(walk.queue[0] == (
            (shape::first_open(walk) + 0) as usize,
            b.paths[shape::first_open(walk) + 0],
        ));
    }
    let q = resolver::specifier_leads(
        disk,
        resolver::no_log(),
        options,
        b.root,
        directory_of(b.root, p),
        wanted.0,
        wanted.1,
    );
    match q.found {
        Some(Destination::Path(target)) if !b.paths.contains(target) => {
            if let Loading::Loaded { log, hash, system } = resolver::loading(
                disk,
                q.log,
                b.root,
                target,
            ) {
                let loaded = resolver::with_loaded(disk, walk, target, log, hash, system);
                resolver::lemma_noted(b, log.notes);
                lemma_loaded(disk, options, walk, target, q.log, log, hash, system);
                graph::lemma_known_push(b.paths, target, target);
                let end = TargetModel::Module { id: b.paths.len() as usize };
                lemma_edge(
                    disk,
                    options,
                    loaded.builder,
                    at,
                    DependencyModel { specifier: wanted.0, kind: wanted.1, target: end },
                );
            }
        },
        Some(found) => {
            let log = match found {
                Destination::Unresolved(reason) => resolver::note(
                    q.log,
                    p,
                    resolver::complaint(wanted.0, reason),
                ),
                _ => q.log,
            };
            let end = match found {
                Destination::Unresolved(reason) => TargetModel::Unresolved { reason },
                Destination::Builtin(name) => TargetModel::Builtin { name },
                Destination::Path(target) => TargetModel::Module {
                    id: graph::known_at(b.paths, target) as usize,
                },
            };
            if let Destination::Path(target) = found {
                graph::lemma_known_push(b.paths, target, target);
            }
            resolver::lemma_noted(b, log.notes);
            lemma_notes(disk, options, b, log.notes);
            lemma_edge(
                disk,
                options,
                resolver::noted(b, log.notes),
                at,
                DependencyModel { specifier: wanted.0, kind: wanted.1, target: end },
            );
        },
        None => {},
    }
}

proof fn lemma_walks_are_true(
    disk: Disk,
    options: OptionsModel,
    root: Seq<char>,
    entry: Seq<char>,
    steps: nat,
)
    requires
        resolver::walked(
            disk,
            options,
            resolver::walk_start(root, entry),
            steps,
        ).builder.paths.len() <= usize::MAX,
    ensures
        ({
            let walk = resolver::walked(
                disk,
                options,
                resolver::walk_start(root, entry),
                steps,
            );
            &&& is_true(disk, options, walk.builder)
            &&& match walk.entry {
                Some(p) => p == path::joined_path(root, entry),
                None => walk.builder.paths.len() > 0 && walk.builder.paths[0]
                    == path::joined_path(root, entry),
            }
        }),
    decreases steps,
{
    let start = resolver::walk_start(root, entry);
    if steps == 0 {
        reveal(is_true);
    } else {
        let n = (steps - 1) as nat;
        let before = resolver::walked(disk, options, start, n);
        resolver::files_are_modules_once(disk, options, root, entry, n);
        resolver::walk_steps_make_progress(disk, options, before);
        lemma_walks_are_true(disk, options, root, entry, n);
        shape::lemma_walks_are_fair(disk, options, root, entry, n);
        if shape::walk_goes_on(disk, options, before) {
            if let Some(p) = before.entry {
                let q = resolver::probed(disk, resolver::no_log(), p);
                if let Loading::Loaded { log, hash, system } = resolver::loading(
                    disk,
                    q.log,
                    before.builder.root,
                    p,
                ) {
                    resolver::lemma_noted(before.builder, log.notes);
                    lemma_loaded(disk, options, before, p, q.log, log, hash, system);
                }
            } else if before.pending is None || before.pending->0.len() == 0 {
                let reading = resolver::reading_of(disk, options, before.queue[0].1);
                resolver::lemma_noted(before.builder, reading.notes);
                lemma_notes(disk, options, before.builder, reading.notes);
            } else {
                lemma_import(disk, options, before);
            }
        }
    }
}

/// The file that the module at `k` of a finished graph is of.
pub open spec fn file_of(b: BuilderModel, k: int) -> Seq<char> {
    b.paths[graph::seating(b.modules)[k].index as int]
}

/// The graph of a finished walk is true to the disk. Each module has the content and
/// the module system of its file, and the entry is the one that was asked for. Each
/// edge leads where its specifier leads from the directory of its module: to the module
/// of the file it resolves to, to the builtin it names, or nowhere, for the reason it
/// does not resolve.
pub proof fn edges_lead_where_specifiers_lead(
    disk: Disk,
    options: OptionsModel,
    root: Seq<char>,
    entry: Seq<char>,
    steps: nat,
    walk: WalkModel,
    k: int,
)
    requires
        shape::is_done(disk, options, root, entry, steps, walk),
        0 <= k < walk.builder.modules.len(),
    ensures
        ({
            let g = graph::finished(walk.builder);
            let p = file_of(walk.builder, k);
            let module = g.modules[k];
            &&& is_of(disk, root, p, module)
            &&& g.entry < g.modules.len()
            &&& file_of(walk.builder, g.entry as int) == path::joined_path(root, entry)
            &&& forall|e: int|
                0 <= e < module.dependencies.len() ==> match (
                #[trigger] module.dependencies[e]).target {
                    TargetModel::Module { id } => id < g.modules.len() && end_of(
                        disk,
                        options,
                        root,
                        p,
                        module.dependencies[e].specifier,
                        module.dependencies[e].kind,
                    ) == Some(Destination::Path(file_of(walk.builder, id as int))),
                    TargetModel::Builtin { name } => end_of(
                        disk,
                        options,
                        root,
                        p,
                        module.dependencies[e].specifier,
                        module.dependencies[e].kind,
                    ) == Some(Destination::Builtin(name)),
                    TargetModel::Unresolved { reason } => end_of(
                        disk,
                        options,
                        root,
                        p,
                        module.dependencies[e].specifier,
                        module.dependencies[e].kind,
                    ) == Some(Destination::Unresolved(reason)),
                }
        }),
{
    let b = walk.builder;
    lemma_walks_are_true(disk, options, root, entry, steps);
    resolver::lemma_walk_facts(disk, options, root, entry, steps);
    reveal(is_true);
    graph::lemma_seating(b.modules);
    let order = graph::seating(b.modules);
    let i = order[k].index as int;
    let g = graph::finished(b);
    assert(is_of(disk, b.root, b.paths[i], b.modules[i]) && all_lead(disk, options, b, i));
    assert(g.modules[k] == graph::renumbered(order, b.modules[i]));
    assert(order[graph::place_of(order, 0) as int].index == 0);
    let module = g.modules[k];
    assert forall|e: int| 0 <= e < module.dependencies.len() implies match (
    #[trigger] module.dependencies[e]).target {
        TargetModel::Module { id } => id < g.modules.len() && end_of(
            disk,
            options,
            root,
            b.paths[i],
            module.dependencies[e].specifier,
            module.dependencies[e].kind,
        ) == Some(Destination::Path(file_of(b, id as int))),
        TargetModel::Builtin { name } => end_of(
            disk,
            options,
            root,
            b.paths[i],
            module.dependencies[e].specifier,
            module.dependencies[e].kind,
        ) == Some(Destination::Builtin(name)),
        TargetModel::Unresolved { reason } => end_of(
            disk,
            options,
            root,
            b.paths[i],
            module.dependencies[e].specifier,
            module.dependencies[e].kind,
        ) == Some(Destination::Unresolved(reason)),
    } by {
        let edge = b.modules[i].dependencies[e];
        assert(module.dependencies[e] == graph::renumbered_edge(order, edge));
        if let TargetModel::Module { id } = edge.target {
            assert(order[graph::place_of(order, id) as int].index == id);
        }
    }
}

// ---------------------------------------------------------------------------
// Imports.

/// Whether an import counts: it names a specifier in a way, and does not erase or is
/// to be followed all the same.
pub open spec fn is_wanted(import: ImportModel, wanted: Wanted, follow: bool) -> bool {
    &&& import.specifier == wanted.0
    &&& import.kind == wanted.1
    &&& follow || !import.type_only
}

/// What a module wants are its imports: all of them where type-only ones are followed,
/// and else those that do not erase. An import that erases adds nothing, and takes
/// nothing away from one of the same specifier that does not.
pub proof fn imports_are_wanted(imports: Seq<ImportModel>, follow: bool, wanted: Wanted)
    ensures
        resolver::wanted_edges(imports, follow).contains(wanted) <==> exists|i: int|
            0 <= i < imports.len() && is_wanted(#[trigger] imports[i], wanted, follow),
    decreases imports.len(),
{
    let all = resolver::wanted_edges(imports, follow);
    if imports.len() > 0 {
        let rest = imports.drop_last();
        let last = imports[imports.len() - 1];
        let front = resolver::wanted_edges(rest, follow);
        imports_are_wanted(rest, follow, wanted);
        let given = (last.specifier, last.kind);
        if all.contains(wanted) {
            let k = choose|k: int| 0 <= k < all.len() && all[k] == wanted;
            if k < front.len() {
                assert(front[k] == wanted);
                assert(front.contains(wanted));
                let i = choose|i: int|
                    0 <= i < rest.len() && is_wanted(#[trigger] rest[i], wanted, follow);
                assert(is_wanted(imports[i], wanted, follow));
            } else {
                assert(is_wanted(last, wanted, follow));
            }
        }
        if exists|i: int|
            0 <= i < imports.len() && is_wanted(#[trigger] imports[i], wanted, follow) {
            let i = choose|i: int|
                0 <= i < imports.len() && is_wanted(#[trigger] imports[i], wanted, follow);
            if i < rest.len() {
                assert(is_wanted(rest[i], wanted, follow));
            }
            if front.contains(wanted) {
                let k = choose|k: int| 0 <= k < front.len() && front[k] == wanted;
                assert(all[k] == wanted);
            } else {
                assert(given == wanted);
                assert(all[all.len() - 1] == wanted);
            }
        }
    }
}

proof fn lemma_node(nodes: Seq<NodeModel>, i: int)
    requires
        0 <= i < nodes.len(),
        syntax::import_of(nodes[i]) is Some,
    ensures
        syntax::imports_in(nodes).contains(syntax::import_of(nodes[i])->0),
    decreases nodes.len(),
{
    let rest = nodes.drop_last();
    let all = syntax::imports_in(nodes);
    let front = syntax::imports_in(rest);
    if i < rest.len() {
        lemma_node(rest, i);
        let import = syntax::import_of(rest[i])->0;
        assert(rest[i] == nodes[i]);
        let k = choose|k: int| 0 <= k < front.len() && front[k] == import;
        assert(all[k] == import);
    } else {
        assert(all[all.len() - 1] == syntax::import_of(nodes[i])->0);
    }
}

/// What stands in a source is imported: `import` and `export … from` statically,
/// erasing where they are for types alone, `import()` and `require` of a literal at run
/// time, and `import … = require` likewise unless it is for a type. A call of anything
/// but `require`, and an argument that is no literal, import nothing.
pub proof fn sources_import_what_they_name(nodes: Seq<NodeModel>, i: int)
    requires
        0 <= i < nodes.len(),
    ensures
        ({
            let all = syntax::imports_in(nodes);
            match nodes[i] {
                NodeModel::Import(specifier, value) => all.contains(
                    ImportModel { specifier, kind: DependencyKind::StaticImport, type_only: !value },
                ),
                NodeModel::ExportFrom(specifier, value) => all.contains(
                    ImportModel { specifier, kind: DependencyKind::ExportFrom, type_only: !value },
                ),
                NodeModel::ExportAll(specifier, value) => all.contains(
                    ImportModel { specifier, kind: DependencyKind::ExportFrom, type_only: !value },
                ),
                NodeModel::ImportCall(source) => source matches Some(specifier) ==> all.contains(
                    ImportModel { specifier, kind: DependencyKind::DynamicImport, type_only: false },
                ),
                NodeModel::Call(callee, source) => callee == Some("require"@) && source is Some
                    ==> all.contains(
                    ImportModel {
                        specifier: source->0,
                        kind: DependencyKind::Require,
                        type_only: false,
                    },
                ),
                NodeModel::ImportEquals(source, value) => source matches Some(specifier)
                    ==> all.contains(
                    ImportModel { specifier, kind: DependencyKind::TsImportEquals, type_only: !value },
                ),
            }
        }),
{
    if syntax::import_of(nodes[i]) is Some {
        lemma_node(nodes, i);
    }
}

/// Whether a node names a specifier.
pub open spec fn names(node: NodeModel, specifier: Seq<char>) -> bool {
    match node {
        NodeModel::Import(source, value) => source == specifier,
        NodeModel::ExportFrom(source, value) => source == specifier,
        NodeModel::ExportAll(source, value) => source == specifier,
        NodeModel::ImportCall(source) => source == Some(specifier),
        NodeModel::Call(callee, source) => callee == Some("require"@) && source == Some(specifier),
        NodeModel::ImportEquals(source, value) => source == Some(specifier),
    }
}

/// Nothing is imported that the source does not name.
pub proof fn imports_are_named_in_the_source(nodes: Seq<NodeModel>, k: int)
    requires
        0 <= k < syntax::imports_in(nodes).len(),
    ensures
        exists|i: int|
            0 <= i < nodes.len() && names(
                #[trigger] nodes[i],
                syntax::imports_in(nodes)[k].specifier,
            ),
    decreases nodes.len(),
{
    let rest = nodes.drop_last();
    let front = syntax::imports_in(rest);
    let specifier = syntax::imports_in(nodes)[k].specifier;
    if k < front.len() {
        imports_are_named_in_the_source(rest, k);
        let i = choose|i: int| 0 <= i < rest.len() && names(#[trigger] rest[i], specifier);
        assert(names(nodes[i], specifier));
    } else {
        assert(names(nodes[nodes.len() - 1], specifier));
    }
}

// ---------------------------------------------------------------------------
// Languages.

/// What a file is written in is told by what follows the last dot of its name; a file of
/// which that says nothing is opaque. Only JavaScript and TypeScript are parsed.
pub proof fn extensions_tell_languages(p: Seq<char>, stem: Seq<char>, extension: Seq<char>)
    requires
        stem.len() > 0,
        !extension.contains('.'),
        path::file_name_of(p) == Some(stem + seq!['.'] + extension),
    ensures
        extension == "js"@ || extension == "mjs"@ || extension == "cjs"@ ==> resolver::kind_of(p)
            == SourceKind::JavaScript,
        extension == "jsx"@ ==> resolver::kind_of(p) == SourceKind::Jsx,
        extension == "ts"@ || extension == "mts"@ || extension == "cts"@ ==> resolver::kind_of(p)
            == SourceKind::TypeScript,
        extension == "tsx"@ ==> resolver::kind_of(p) == SourceKind::Tsx,
        extension == "json"@ ==> resolver::kind_of(p) == SourceKind::Json,
        extension.len() < 2 || extension.len() > 4 || extension == "node"@ ==> resolver::kind_of(p)
            == SourceKind::Opaque,
        graph::is_parsed_kind(resolver::kind_of(p)) <==> !(resolver::kind_of(p) is Json)
            && !(resolver::kind_of(p) is Opaque),
{
    path::extensions_follow_the_last_dot(p, stem, extension);
    reveal_strlit("js");
    reveal_strlit("mjs");
    reveal_strlit("cjs");
    reveal_strlit("jsx");
    reveal_strlit("ts");
    reveal_strlit("mts");
    reveal_strlit("cts");
    reveal_strlit("tsx");
    reveal_strlit("json");
    reveal_strlit("node");
    assert("js"@[0] == 'j' && "ts"@[0] == 't' && "jsx"@[0] == 'j' && "tsx"@[0] == 't');
    assert("mjs"@[0] == 'm' && "mjs"@[1] == 'j' && "cjs"@[0] == 'c' && "cjs"@[1] == 'j');
    assert("mts"@[0] == 'm' && "mts"@[1] == 't' && "cts"@[0] == 'c' && "cts"@[1] == 't');
    assert("node"@[0] == 'n' && "json"@[0] == 'j');
}

/// What is known of a file rests on its bytes: its hash is that of all of them, and its
/// text is kept where it is a document or in a language that is parsed, and is text.
pub proof fn facts_rest_on_bytes(p: Seq<char>, bytes: Seq<u8>, source: Seq<char>)
    requires
        bytes == vstd::utf8::encode_utf8(source),
    ensures
        resolver::fact_of(p, bytes) matches FactModel::File { hash, content } && hash
            == hash::blake3_digest(bytes) && content == if resolver::kind_of(p) is Opaque {
            ContentModel::Dropped
        } else {
            ContentModel::Text(source)
        },
{
    vstd::utf8::encode_utf8_valid_utf8(source);
    vstd::utf8::encode_utf8_decode_utf8(source);
}

} // verus!
