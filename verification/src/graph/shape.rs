//! What the graph of a finished walk looks like.
//!
//! A walk takes its modules in the order in which it meets them, and works
//! through their imports in that same order. What follows from that is stated
//! here of the walk, and of the graph that its builder ends as.

use vstd::prelude::*;
use crate::graph::memo;
use crate::graph::resolver::{
    self, Destination, Disk, Loading, LogModel, NoteModel, OptionsModel, WalkModel, Wanted,
};
use crate::graph::{
    self, BuilderModel, DependencyModel, DiagnosticModel, GraphModel, ModuleModel, TargetModel,
};
use crate::order::Rank;
use crate::{order, path, sorted};

verus! {

// ---------------------------------------------------------------------------
// Builders.

/// What edges name, and how.
pub open spec fn pairs_of(edges: Seq<DependencyModel>) -> Seq<Wanted> {
    edges.map_values(|e: DependencyModel| (e.specifier, e.kind))
}

/// Whether a builder's modules are those at its paths.
#[verifier::opaque]
pub open spec fn is_filed(b: BuilderModel) -> bool {
    &&& b.modules.len() == b.paths.len()
    &&& forall|i: int|
        0 <= i < b.modules.len() ==> (#[trigger] b.modules[i]).path == graph::rooted(
            b.root,
            b.paths[i],
        ) && b.modules[i].source == resolver::kind_of(b.paths[i])
}

/// Whether an edge of a module leads to the one at `i`.
pub open spec fn is_end(modules: Seq<ModuleModel>, j: int, i: int) -> bool {
    graph::leads_to(modules[j].dependencies, i as usize)
}

/// Whether an earlier module has an edge to the one at `i`.
pub open spec fn is_met(modules: Seq<ModuleModel>, i: int) -> bool {
    exists|j: int| 0 <= j < i && #[trigger] is_end(modules, j, i)
}

/// Whether each of the first `n` modules but the entry was met earlier.
#[verifier::opaque]
pub open spec fn are_met(modules: Seq<ModuleModel>, n: int) -> bool {
    forall|i: int| 1 <= i < n ==> #[trigger] is_met(modules, i)
}

/// What is to be reported of an edge that leads nowhere.
pub open spec fn report_of(module: ModuleModel, edge: DependencyModel) -> DiagnosticModel {
    DiagnosticModel {
        module: module.path,
        message: resolver::complaint(edge.specifier, edge.target->reason),
    }
}

/// Whether an edge leads somewhere, or is reported.
pub open spec fn is_accounted_for(
    diagnostics: Seq<DiagnosticModel>,
    module: ModuleModel,
    edge: DependencyModel,
) -> bool {
    edge.target is Unresolved ==> diagnostics.contains(report_of(module, edge))
}

/// Whether all edges of a module are.
pub open spec fn all_accounted_for(
    diagnostics: Seq<DiagnosticModel>,
    module: ModuleModel,
) -> bool {
    forall|e: int|
        0 <= e < module.dependencies.len() ==> is_accounted_for(
            diagnostics,
            module,
            #[trigger] module.dependencies[e],
        )
}

/// Whether every edge of a builder leads somewhere, or is reported.
#[verifier::opaque]
pub open spec fn is_accounted(b: BuilderModel) -> bool {
    forall|i: int|
        0 <= i < b.modules.len() ==> all_accounted_for(b.diagnostics, #[trigger] b.modules[i])
}

/// Whether all edges lead to modules, or out.
#[verifier::opaque]
pub open spec fn is_wired(b: BuilderModel) -> bool {
    graph::edges_known(b)
}

/// Whether a builder holds together, its first `n` modules met.
pub open spec fn is_well_built(b: BuilderModel, n: int) -> bool {
    &&& is_filed(b)
    &&& are_met(b.modules, n)
    &&& is_accounted(b)
    &&& is_wired(b)
}

proof fn lemma_notes_keep(b: BuilderModel, notes: Seq<NoteModel>, n: int)
    requires
        is_well_built(b, n),
    ensures
        is_well_built(resolver::noted(b, notes), n),
{
    reveal(is_filed);
    reveal(are_met);
    reveal(is_accounted);
    reveal(is_wired);
    resolver::lemma_noted(b, notes);
    let next = resolver::noted(b, notes);
    assert forall|i: int| 0 <= i < next.modules.len() implies all_accounted_for(
        next.diagnostics,
        #[trigger] next.modules[i],
    ) by {
        assert(all_accounted_for(b.diagnostics, b.modules[i]));
    }
}

proof fn lemma_module_keeps(
    b: BuilderModel,
    p: Seq<char>,
    hash: Seq<u8>,
    system: graph::ModuleSystem,
    n: int,
)
    requires
        is_well_built(b, n),
        n <= b.modules.len(),
        !b.paths.contains(p),
    ensures
        is_well_built(graph::with_module(b, p, hash, resolver::kind_of(p), system), n),
{
    reveal(is_filed);
    reveal(are_met);
    reveal(is_accounted);
    reveal(is_wired);
    let next = graph::with_module(b, p, hash, resolver::kind_of(p), system);
    assert forall|i: int| 0 <= i < next.modules.len() implies all_accounted_for(
        next.diagnostics,
        #[trigger] next.modules[i],
    ) && graph::all_lead_inside(next.modules[i].dependencies, next.modules.len() as int) by {
        if i < b.modules.len() {
            assert(next.modules[i] == b.modules[i]);
            assert(all_accounted_for(b.diagnostics, b.modules[i]));
            assert(graph::all_lead_inside(b.modules[i].dependencies, b.modules.len() as int));
            let edges = next.modules[i].dependencies;
            assert forall|e: int| 0 <= e < edges.len() implies graph::leads_inside(
                (#[trigger] edges[e]).target,
                next.modules.len() as int,
            ) by {
                assert(graph::leads_inside(
                    b.modules[i].dependencies[e].target,
                    b.modules.len() as int,
                ));
            }
        }
    }
    assert forall|i: int| 0 <= i < next.modules.len() implies (#[trigger] next.modules[i]).path
        == graph::rooted(next.root, next.paths[i]) && next.modules[i].source == resolver::kind_of(
        next.paths[i],
    ) by {
        if i < b.modules.len() {
            assert(next.modules[i] == b.modules[i]);
        }
    }
    assert forall|i: int| 1 <= i < n implies #[trigger] is_met(next.modules, i) by {
        assert(is_met(b.modules, i));
        let j = choose|j: int| 0 <= j < i && #[trigger] is_end(b.modules, j, i);
        assert(next.modules[j] == b.modules[j]);
        assert(is_end(next.modules, j, i));
    }
}

proof fn lemma_edge_keeps(b: BuilderModel, from: int, edge: DependencyModel, n: int)
    requires
        is_well_built(b, n),
        n <= b.modules.len(),
        0 <= from < b.modules.len(),
        graph::leads_inside(edge.target, b.modules.len() as int),
        is_accounted_for(b.diagnostics, b.modules[from], edge),
    ensures
        is_well_built(graph::with_dependency(b, from, edge), n),
        from < n < b.modules.len() && edge.target == (TargetModel::Module { id: n as usize })
            ==> is_well_built(graph::with_dependency(b, from, edge), n + 1),
{
    reveal(is_filed);
    reveal(are_met);
    reveal(is_accounted);
    reveal(is_wired);
    let next = graph::with_dependency(b, from, edge);
    assert forall|i: int| 0 <= i < next.modules.len() implies all_accounted_for(
        next.diagnostics,
        #[trigger] next.modules[i],
    ) && graph::all_lead_inside(next.modules[i].dependencies, next.modules.len() as int) by {
        let before = b.modules[i];
        assert(all_accounted_for(b.diagnostics, before));
        assert(graph::all_lead_inside(before.dependencies, b.modules.len() as int));
        assert forall|e: int| 0 <= e < next.modules[i].dependencies.len() implies is_accounted_for(
            next.diagnostics,
            next.modules[i],
            #[trigger] next.modules[i].dependencies[e],
        ) && graph::leads_inside(
            next.modules[i].dependencies[e].target,
            next.modules.len() as int,
        ) by {
            if e < before.dependencies.len() {
                assert(next.modules[i].dependencies[e] == before.dependencies[e]);
                assert(is_accounted_for(b.diagnostics, before, before.dependencies[e]));
                assert(graph::leads_inside(
                    before.dependencies[e].target,
                    b.modules.len() as int,
                ));
            }
        }
    }
    assert forall|i: int| 0 <= i < next.modules.len() implies (#[trigger] next.modules[i]).path
        == graph::rooted(next.root, next.paths[i]) && next.modules[i].source == resolver::kind_of(
        next.paths[i],
    ) by {
        assert(next.modules[i].path == b.modules[i].path);
    }
    assert forall|i: int| 1 <= i < n implies #[trigger] is_met(next.modules, i) by {
        assert(is_met(b.modules, i));
        let j = choose|j: int| 0 <= j < i && #[trigger] is_end(b.modules, j, i);
        let old = b.modules[j].dependencies;
        let e = choose|e: int|
            0 <= e < old.len() && (#[trigger] old[e]).target == (TargetModel::Module {
                id: i as usize,
            });
        assert(next.modules[j].dependencies[e] == old[e]);
        assert(is_end(next.modules, j, i));
    }
    if from < n < b.modules.len() && edge.target == (TargetModel::Module { id: n as usize }) {
        let now = next.modules[from].dependencies;
        assert(now[now.len() - 1] == edge);
        assert(is_end(next.modules, from, n));
        assert(is_met(next.modules, n));
    }
}

// ---------------------------------------------------------------------------
// Walks.

/// The first module whose imports are not all resolved, or the number of modules.
pub open spec fn first_open(walk: WalkModel) -> int {
    walk.builder.paths.len() - walk.queue.len()
}

/// Whether the modules that are open are the ones that came last.
#[verifier::opaque]
pub open spec fn is_queued(walk: WalkModel) -> bool {
    &&& walk.queue.len() <= walk.builder.paths.len()
    &&& forall|k: int|
        0 <= k < walk.queue.len() ==> #[trigger] walk.queue[k] == (
            (first_open(walk) + k) as usize,
            walk.builder.paths[first_open(walk) + k],
        )
    &&& walk.queue.len() == 0 ==> walk.pending is None
}

/// Whether the edges of a module are its imports, as far as they are resolved.
pub open spec fn is_read_so_far(
    disk: Disk,
    options: OptionsModel,
    walk: WalkModel,
    i: int,
) -> bool {
    let edges = pairs_of(walk.builder.modules[i].dependencies);
    let due = resolver::reading_of(disk, options, walk.builder.paths[i]).edges;
    if i < first_open(walk) {
        edges == due
    } else if i == first_open(walk) && walk.pending is Some {
        edges + walk.pending->0 == due
    } else {
        edges.len() == 0
    }
}

/// Whether that holds of every module.
#[verifier::opaque]
pub open spec fn is_read(disk: Disk, options: OptionsModel, walk: WalkModel) -> bool {
    forall|i: int|
        0 <= i < walk.builder.modules.len() ==> #[trigger] is_read_so_far(disk, options, walk, i)
}

/// What holds of a walk at every point.
pub open spec fn is_fair(disk: Disk, options: OptionsModel, walk: WalkModel) -> bool {
    &&& is_well_built(walk.builder, walk.builder.modules.len() as int)
    &&& is_queued(walk)
    &&& is_read(disk, options, walk)
    &&& walk.entry is Some ==> walk.builder.paths.len() == 0
    &&& walk.entry is None ==> walk.builder.paths.len() > 0
}

/// Reports change nothing of what was read.
proof fn lemma_reports_keep(
    disk: Disk,
    options: OptionsModel,
    walk: WalkModel,
    next: WalkModel,
)
    requires
        is_queued(walk),
        is_read(disk, options, walk),
        next.builder.paths == walk.builder.paths,
        next.builder.modules == walk.builder.modules,
        next.queue == walk.queue,
        next.pending == walk.pending,
    ensures
        is_queued(next),
        is_read(disk, options, next),
{
    reveal(is_queued);
    reveal(is_read);
    assert forall|i: int| 0 <= i < next.builder.modules.len() implies #[trigger] is_read_so_far(
        disk,
        options,
        next,
        i,
    ) by {
        assert(is_read_so_far(disk, options, walk, i));
    }
}

/// Loading a module that is not known puts it last.
proof fn lemma_loading_keeps(
    disk: Disk,
    options: OptionsModel,
    walk: WalkModel,
    p: Seq<char>,
    log: LogModel,
    hash: Seq<u8>,
    system: graph::ModuleSystem,
)
    requires
        is_well_built(walk.builder, walk.builder.modules.len() as int),
        is_queued(walk),
        is_read(disk, options, walk),
        walk.queue.len() == 0 ==> walk.builder.paths.len() == 0,
        walk.builder.modules.len() < usize::MAX,
        !walk.builder.paths.contains(p),
    ensures
        ({
            let next = resolver::with_loaded(disk, walk, p, log, hash, system);
            &&& is_well_built(next.builder, walk.builder.modules.len() as int)
            &&& is_queued(next)
            &&& is_read(disk, options, next)
            &&& next.builder.paths == walk.builder.paths.push(p)
            &&& next.builder.modules.len() == walk.builder.modules.len() + 1
            &&& graph::known_at(next.builder.paths, p) == walk.builder.paths.len()
            &&& next.queue.len() == walk.queue.len() + 1
            &&& walk.queue.len() > 0 ==> next.queue[0] == walk.queue[0]
            &&& next.pending == walk.pending
            &&& next.entry == walk.entry
        }),
{
    let n = walk.builder.modules.len() as int;
    let r = resolver::recorded(disk, walk, log);
    let next = resolver::with_loaded(disk, walk, p, log, hash, system);
    resolver::lemma_noted(walk.builder, log.notes);
    lemma_notes_keep(walk.builder, log.notes, n);
    lemma_reports_keep(disk, options, walk, r);
    lemma_module_keeps(r.builder, p, hash, system, n);
    graph::lemma_known_push(walk.builder.paths, p, p);
    reveal(is_queued);
    reveal(is_read);
    reveal(is_filed);
    assert(first_open(next) == first_open(walk));
    assert forall|k: int| 0 <= k < next.queue.len() implies #[trigger] next.queue[k] == (
        (first_open(next) + k) as usize,
        next.builder.paths[first_open(next) + k],
    ) by {
        if k < walk.queue.len() {
            assert(next.queue[k] == walk.queue[k]);
        }
    }
    assert forall|i: int| 0 <= i < next.builder.modules.len() implies #[trigger] is_read_so_far(
        disk,
        options,
        next,
        i,
    ) by {
        if i < n {
            assert(next.builder.modules[i] == walk.builder.modules[i]);
            assert(is_read_so_far(disk, options, walk, i));
        } else {
            assert(walk.pending is Some ==> i > first_open(next));
        }
    }
}

/// Resolving an import takes it off those that are left.
proof fn lemma_resolving_keeps(
    disk: Disk,
    options: OptionsModel,
    walk: WalkModel,
    wanted: Wanted,
    target: TargetModel,
)
    requires
        is_filed(walk.builder),
        is_queued(walk),
        is_read(disk, options, walk),
        walk.queue.len() > 0,
        walk.builder.paths.len() <= usize::MAX,
        walk.pending matches Some(pending) && pending.len() > 0 && pending[0] == wanted,
    ensures
        is_queued(resolver::with_edge(walk, wanted, target)),
        is_read(disk, options, resolver::with_edge(walk, wanted, target)),
        walk.queue[0].0 == first_open(walk),
{
    reveal(is_queued);
    reveal(is_read);
    reveal(is_filed);
    let next = resolver::with_edge(walk, wanted, target);
    let at = first_open(walk);
    assert(walk.queue[0].0 == at);
    assert forall|i: int| 0 <= i < next.builder.modules.len() implies #[trigger] is_read_so_far(
        disk,
        options,
        next,
        i,
    ) by {
        assert(is_read_so_far(disk, options, walk, i));
        if i == at {
            let before = pairs_of(walk.builder.modules[i].dependencies);
            let now = pairs_of(next.builder.modules[i].dependencies);
            assert(now =~= before.push(wanted));
            assert(now + next.pending->0 =~= before + walk.pending->0);
        }
    }
}

/// No step loses a module.
proof fn lemma_modules_stay(disk: Disk, options: OptionsModel, walk: WalkModel)
    requires
        walk.entry is Some ==> walk.builder.paths.len() == 0,
    ensures
        walk_goes_on(disk, options, walk) ==> walk.builder.paths.len() <= next_of(
            disk,
            options,
            walk,
        ).builder.paths.len(),
{
    resolver::walk_steps_make_progress(disk, options, walk);
}

/// Whether a walk goes on.
pub open spec fn walk_goes_on(disk: Disk, options: OptionsModel, walk: WalkModel) -> bool {
    resolver::walk_step(disk, options, walk) is Next
}

/// The walk after the next step.
pub open spec fn next_of(disk: Disk, options: OptionsModel, walk: WalkModel) -> WalkModel {
    resolver::walk_step(disk, options, walk)->Next_0
}

proof fn lemma_entry_is_fair(disk: Disk, options: OptionsModel, walk: WalkModel)
    requires
        is_fair(disk, options, walk),
        walk.entry is Some,
        walk_goes_on(disk, options, walk),
    ensures
        is_fair(disk, options, next_of(disk, options, walk)),
{
    let p = walk.entry->0;
    let q = resolver::probed(disk, resolver::no_log(), p);
    if let Loading::Loaded { log, hash, system } = resolver::loading(
        disk,
        q.log,
        walk.builder.root,
        p,
    ) {
        reveal(is_filed);
        lemma_loading_keeps(disk, options, walk, p, log, hash, system);
        let loaded = resolver::with_loaded(disk, walk, p, log, hash, system);
        let next = next_of(disk, options, walk);
        assert(are_met(next.builder.modules, 1)) by {
            reveal(are_met);
        }
        lemma_reports_keep(disk, options, loaded, next);
    }
}

proof fn lemma_reading_is_fair(disk: Disk, options: OptionsModel, walk: WalkModel)
    requires
        is_fair(disk, options, walk),
        walk.entry is None,
        walk.queue.len() > 0,
        walk.pending is None || walk.pending->0.len() == 0,
        walk.builder.modules.len() <= usize::MAX,
    ensures
        is_fair(disk, options, next_of(disk, options, walk)),
{
    let n = walk.builder.modules.len() as int;
    let next = next_of(disk, options, walk);
    let p = walk.queue[0].1;
    let reading = resolver::reading_of(disk, options, p);
    resolver::lemma_noted(walk.builder, reading.notes);
    lemma_notes_keep(walk.builder, reading.notes, n);
    reveal(is_queued);
    reveal(is_read);
    let at = first_open(walk);
    assert(walk.builder.paths[at] == p);
    assert forall|k: int| 0 <= k < next.queue.len() implies #[trigger] next.queue[k] == (
        (first_open(next) + k) as usize,
        next.builder.paths[first_open(next) + k],
    ) by {
        if walk.pending is Some {
            assert(next.queue[k] == walk.queue[k + 1]);
        } else {
            assert(next.queue[k] == walk.queue[k]);
        }
    }
    assert forall|i: int| 0 <= i < next.builder.modules.len() implies #[trigger] is_read_so_far(
        disk,
        options,
        next,
        i,
    ) by {
        assert(is_read_so_far(disk, options, walk, i));
        let edges = pairs_of(walk.builder.modules[i].dependencies);
        if i == at {
            if walk.pending is Some {
                assert(edges + walk.pending->0 =~= edges);
            } else {
                assert(edges + reading.edges =~= reading.edges);
            }
        }
    }
}

#[verifier::rlimit(30)]
proof fn lemma_import_is_fair(disk: Disk, options: OptionsModel, walk: WalkModel)
    requires
        is_fair(disk, options, walk),
        walk.entry is None,
        walk.queue.len() > 0,
        walk.pending matches Some(pending) && pending.len() > 0,
        walk_goes_on(disk, options, walk),
        next_of(disk, options, walk).builder.paths.len() <= usize::MAX,
    ensures
        is_fair(disk, options, next_of(disk, options, walk)),
{
    let n = walk.builder.modules.len() as int;
    let next = next_of(disk, options, walk);
    let p = walk.queue[0].1;
    let wanted = walk.pending->0[0];
    let root = walk.builder.root;
    let from = match path::parent_of(p) {
        Some(parent) => parent,
        None => root,
    };
    lemma_modules_stay(disk, options, walk);
    let at = first_open(walk);
    assert(0 <= at < n && walk.queue[0] == (at as usize, walk.builder.paths[at])
        && walk.builder.paths.len() == n && walk.builder.modules[at].path == graph::rooted(root, p))
        by {
        reveal(is_queued);
        reveal(is_filed);
    }
    let q = resolver::specifier_leads(
        disk,
        resolver::no_log(),
        options,
        root,
        from,
        wanted.0,
        wanted.1,
    );
    match q.found {
        Some(Destination::Path(target)) if !walk.builder.paths.contains(target) => {
            if let Loading::Loaded { log, hash, system } = resolver::loading(
                disk,
                q.log,
                root,
                target,
            ) {
                let loaded = resolver::with_loaded(disk, walk, target, log, hash, system);
                resolver::lemma_noted(walk.builder, log.notes);
                lemma_loading_keeps(disk, options, walk, target, log, hash, system);
                let end = TargetModel::Module { id: n as usize };
                lemma_resolving_keeps(disk, options, loaded, wanted, end);
                lemma_edge_keeps(
                    loaded.builder,
                    at,
                    DependencyModel { specifier: wanted.0, kind: wanted.1, target: end },
                    n,
                );
            }
        },
        Some(found) => {
            let log = match found {
                Destination::Unresolved(reason) => resolver::note(
                    q.log,
                    p,
                    resolver::complaint(wanted.0, reason),
                ),
                _ => q.log,
            };
            let end = match found {
                Destination::Unresolved(reason) => TargetModel::Unresolved { reason },
                Destination::Builtin(name) => TargetModel::Builtin { name },
                Destination::Path(target) => TargetModel::Module {
                    id: graph::known_at(walk.builder.paths, target) as usize,
                },
            };
            let edge = DependencyModel { specifier: wanted.0, kind: wanted.1, target: end };
            let r = resolver::recorded(disk, walk, log);
            resolver::lemma_noted(walk.builder, log.notes);
            lemma_notes_keep(walk.builder, log.notes, n);
            lemma_reports_keep(disk, options, walk, r);
            lemma_resolving_keeps(disk, options, r, wanted, end);
            if let Destination::Path(target) = found {
                graph::lemma_known_push(walk.builder.paths, target, target);
            }
            if let Destination::Unresolved(reason) = found {
                assert(log.notes.last() == NoteModel {
                    path: p,
                    message: resolver::complaint(wanted.0, reason),
                });
                assert(report_of(r.builder.modules[at], edge) == DiagnosticModel {
                    module: graph::rooted(root, p),
                    message: resolver::complaint(wanted.0, reason),
                });
            }
            lemma_edge_keeps(r.builder, at, edge, n);
        },
        None => {},
    }
}

/// Every walk is fair, as long as its modules can be counted.
pub proof fn lemma_walks_are_fair(
    disk: Disk,
    options: OptionsModel,
    root: Seq<char>,
    entry: Seq<char>,
    steps: nat,
)
    requires
        resolver::walked(
            disk,
            options,
            resolver::walk_start(root, entry),
            steps,
        ).builder.paths.len() <= usize::MAX,
    ensures
        is_fair(
            disk,
            options,
            resolver::walked(disk, options, resolver::walk_start(root, entry), steps),
        ),
        ({
            let b = resolver::walked(
                disk,
                options,
                resolver::walk_start(root, entry),
                steps,
            ).builder;
            b.modules.len() == b.paths.len()
        }),
    decreases steps,
{
    let start = resolver::walk_start(root, entry);
    if steps == 0 {
        reveal(is_filed);
        reveal(are_met);
        reveal(is_accounted);
        reveal(is_wired);
        reveal(is_queued);
        reveal(is_read);
    } else {
        let n = (steps - 1) as nat;
        let before = resolver::walked(disk, options, start, n);
        resolver::files_are_modules_once(disk, options, root, entry, n);
        lemma_modules_stay(disk, options, before);
        lemma_walks_are_fair(disk, options, root, entry, n);
        if walk_goes_on(disk, options, before) {
            if before.entry is Some {
                lemma_entry_is_fair(disk, options, before);
            } else if before.pending is None || before.pending->0.len() == 0 {
                lemma_reading_is_fair(disk, options, before);
            } else {
                lemma_import_is_fair(disk, options, before);
            }
        }
    }
    reveal(is_filed);
}

// ---------------------------------------------------------------------------
// Finished walks.

/// The walk that is done after a number of steps.
pub open spec fn is_done(
    disk: Disk,
    options: OptionsModel,
    root: Seq<char>,
    entry: Seq<char>,
    steps: nat,
    walk: WalkModel,
) -> bool {
    &&& walk == resolver::walked(disk, options, resolver::walk_start(root, entry), steps)
    &&& resolver::walk_step(disk, options, walk) is Done
    &&& walk.builder.paths.len() <= usize::MAX
}

proof fn lemma_wanted_once(imports: Seq<graph::syntax::ImportModel>, follow: bool)
    ensures
        resolver::wanted_edges(imports, follow).no_duplicates(),
    decreases imports.len(),
{
    if imports.len() > 0 {
        lemma_wanted_once(imports.drop_last(), follow);
    }
}

/// The edges of every module of a finished graph are its imports: what its source
/// names, each specifier once for each kind of import, in source order. So a
/// module in a language that is not parsed has none.
pub proof fn edges_are_imports(
    disk: Disk,
    options: OptionsModel,
    root: Seq<char>,
    entry: Seq<char>,
    steps: nat,
    walk: WalkModel,
    k: int,
)
    requires
        is_done(disk, options, root, entry, steps, walk),
        0 <= k < walk.builder.modules.len(),
    ensures
        ({
            let module = graph::finished(walk.builder).modules[k];
            let p = walk.builder.paths[graph::seating(walk.builder.modules)[k].index as int];
            &&& module.path == graph::rooted(root, p)
            &&& module.source == resolver::kind_of(p)
            &&& pairs_of(module.dependencies) == resolver::reading_of(disk, options, p).edges
            &&& pairs_of(module.dependencies).no_duplicates()
            &&& !graph::is_parsed_kind(module.source) ==> module.dependencies.len() == 0
        }),
{
    let b = walk.builder;
    lemma_walks_are_fair(disk, options, root, entry, steps);
    resolver::lemma_walk_facts(disk, options, root, entry, steps);
    graph::lemma_seating(b.modules);
    let order = graph::seating(b.modules);
    let i = order[k].index as int;
    let module = graph::finished(b).modules[k];
    let p = b.paths[i];
    reveal(is_filed);
    reveal(is_queued);
    reveal(is_read);
    assert(b.modules[i].path == graph::rooted(root, p));
    assert(is_read_so_far(disk, options, walk, i));
    assert(pairs_of(module.dependencies) =~= pairs_of(b.modules[i].dependencies));
    let reading = resolver::reading_of(disk, options, p);
    if let Some(resolver::FactModel::File {
        hash,
        content: resolver::ContentModel::Text(source),
    }) = sorted::lookup(disk, p) {
        lemma_wanted_once(
            graph::syntax::imports_in(graph::syntax::syntax_in(p, source).nodes),
            options.follow_type_only_imports,
        );
    }
    assert(reading.edges.no_duplicates());
    assert(pairs_of(module.dependencies).len() == module.dependencies.len());
}

/// The diagnostics of a finished graph ascend strictly, by module and then by
/// message, and are those that were reported.
pub proof fn diagnostics_ascend(b: BuilderModel)
    ensures
        forall|i: int, j: int|
            0 <= i < j < graph::finished(b).diagnostics.len() ==> order::precedes(
                (#[trigger] graph::finished(b).diagnostics[i]).rank(),
                (#[trigger] graph::finished(b).diagnostics[j]).rank(),
            ),
        forall|d: DiagnosticModel| #[trigger]
            graph::finished(b).diagnostics.contains(d) <==> b.diagnostics.contains(d),
{
    let list = sorted::stable_sorted(b.diagnostics);
    sorted::sorting_orders_and_keeps(b.diagnostics);
    assert forall|i: int, j: int|
        0 <= i < list.len() && 0 <= j < list.len() && (#[trigger] list[i]).rank() == (
        #[trigger] list[j]).rank() implies list[i] == list[j] by {
        order::lemma_closed_text(
            list[i].module,
            list[j].module,
            order::text_rank(list[i].message),
            order::text_rank(list[j].message),
        );
        order::lemma_text_rank_injective(list[i].message, list[j].message);
    }
    sorted::lemma_deduped_ascends(list);
    assert forall|d: DiagnosticModel| #[trigger]
        graph::finished(b).diagnostics.contains(d) <==> b.diagnostics.contains(d) by {
        broadcast use vstd::seq_lib::group_to_multiset_ensures;

        assert(list.contains(d) <==> list.to_multiset().count(d) > 0);
        assert(b.diagnostics.contains(d) <==> b.diagnostics.to_multiset().count(d) > 0);
    }
}

/// Nothing that is not found goes unreported: every edge of a finished graph that
/// leads nowhere has its diagnostic, with the module, the specifier and the reason.
pub proof fn unresolved_edges_are_reported(
    disk: Disk,
    options: OptionsModel,
    root: Seq<char>,
    entry: Seq<char>,
    steps: nat,
    walk: WalkModel,
    k: int,
    e: int,
)
    requires
        is_done(disk, options, root, entry, steps, walk),
        0 <= k < walk.builder.modules.len(),
        0 <= e < graph::finished(walk.builder).modules[k].dependencies.len(),
    ensures
        ({
            let g = graph::finished(walk.builder);
            is_accounted_for(g.diagnostics, g.modules[k], g.modules[k].dependencies[e])
        }),
{
    let b = walk.builder;
    let g = graph::finished(b);
    lemma_walks_are_fair(disk, options, root, entry, steps);
    graph::lemma_seating(b.modules);
    diagnostics_ascend(b);
    let order = graph::seating(b.modules);
    let from = b.modules[order[k].index as int];
    reveal(is_accounted);
    assert(all_accounted_for(b.diagnostics, from));
    assert(is_accounted_for(b.diagnostics, from, from.dependencies[e]));
    assert(g.modules[k].dependencies[e] == graph::renumbered_edge(order, from.dependencies[e]));
    if from.dependencies[e].target is Unresolved {
        let d = report_of(from, from.dependencies[e]);
        assert(g.diagnostics.contains(d));
    }
}

/// Whether a way goes from its `i`th module to the next along an edge.
pub open spec fn goes_along(modules: Seq<ModuleModel>, way: Seq<usize>, i: int) -> bool {
    graph::leads_to(modules[way[i] as int].dependencies, way[i + 1])
}

/// Whether each module of a way but the last has an edge to the next.
pub open spec fn is_way(modules: Seq<ModuleModel>, way: Seq<usize>) -> bool {
    &&& way.len() > 0
    &&& forall|i: int| 0 <= i < way.len() ==> (#[trigger] way[i]) < modules.len()
    &&& forall|i: int| 0 <= i < way.len() - 1 ==> #[trigger] goes_along(modules, way, i)
}

/// Whether edges lead from one module to another, over any number of others.
pub open spec fn is_reached(modules: Seq<ModuleModel>, from: usize, to: usize) -> bool {
    exists|way: Seq<usize>| #[trigger]
        is_way(modules, way) && way[0] == from && way.last() == to
}

proof fn lemma_reached(modules: Seq<ModuleModel>, i: int)
    requires
        modules.len() <= usize::MAX,
        are_met(modules, modules.len() as int),
        0 <= i < modules.len(),
    ensures
        is_reached(modules, 0, i as usize),
    decreases i,
{
    if i == 0 {
        let way = seq![0usize];
        assert(is_way(modules, way));
    } else {
        reveal(are_met);
        assert(is_met(modules, i));
        let j = choose|j: int| 0 <= j < i && #[trigger] is_end(modules, j, i);
        lemma_reached(modules, j);
        let way = choose|way: Seq<usize>| #[trigger]
            is_way(modules, way) && way[0] == 0 && way.last() == j as usize;
        let next = way.push(i as usize);
        assert forall|k: int| 0 <= k < next.len() - 1 implies #[trigger] goes_along(
            modules,
            next,
            k,
        ) by {
            if k < way.len() - 1 {
                assert(goes_along(modules, way, k));
            }
        }
        assert(is_way(modules, next));
    }
}

/// Every module of a finished graph is reached from the entry.
pub proof fn modules_are_reached(
    disk: Disk,
    options: OptionsModel,
    root: Seq<char>,
    entry: Seq<char>,
    steps: nat,
    walk: WalkModel,
    k: int,
)
    requires
        is_done(disk, options, root, entry, steps, walk),
        0 <= k < walk.builder.modules.len(),
    ensures
        ({
            let g = graph::finished(walk.builder);
            is_reached(g.modules, g.entry, k as usize)
        }),
{
    let b = walk.builder;
    let g = graph::finished(b);
    lemma_walks_are_fair(disk, options, root, entry, steps);
    graph::lemma_seating(b.modules);
    lemma_indexes_differ(b.modules);
    let order = graph::seating(b.modules);
    let i = order[k].index;
    lemma_reached(b.modules, i as int);
    let way = choose|way: Seq<usize>| #[trigger]
        is_way(b.modules, way) && way[0] == 0 && way.last() == i;
    let now = way.map_values(|x: usize| graph::place_of(order, x) as usize);
    assert forall|j: int| 0 <= j < now.len() implies (#[trigger] now[j]) < g.modules.len()
        && now[j] == graph::place_of(order, way[j]) && order[now[j] as int].index == way[j] by {
        assert(way[j] < b.modules.len());
    }
    assert forall|j: int| 0 <= j < now.len() - 1 implies #[trigger] goes_along(
        g.modules,
        now,
        j,
    ) by {
        assert(goes_along(b.modules, way, j));
        let old = b.modules[way[j] as int].dependencies;
        let e = choose|e: int|
            0 <= e < old.len() && (#[trigger] old[e]).target == (TargetModel::Module {
                id: way[j + 1],
            });
        assert(order[now[j] as int].index == way[j]);
        assert(now[j + 1] == graph::place_of(order, way[j + 1]));
        let here = g.modules[now[j] as int].dependencies;
        assert(here[e] == graph::renumbered_edge(order, old[e]));
    }
    assert(is_way(g.modules, now));
    let last = now.len() - 1;
    assert(order[now[last] as int].index == i);
    assert(now[last] == k);
    assert(now[0] == graph::place_of(order, 0));
}

/// No module has two places.
proof fn lemma_indexes_differ(modules: Seq<ModuleModel>)
    requires
        modules.len() <= usize::MAX,
    ensures
        forall|i: int, j: int|
            0 <= i < j < modules.len() ==> (#[trigger] graph::seating(modules)[i]).index != (
            #[trigger] graph::seating(modules)[j]).index,
{
    let list = graph::seats(modules);
    let order = graph::seating(modules);
    graph::lemma_seating(modules);
    sorted::sorting_orders_and_keeps(list);
    assert forall|i: int, j: int| 0 <= i < list.len() && 0 <= j < list.len() && i != j implies list[i]
        != list[j] by {
        assert(list[i].index == i && list[j].index == j);
    }
    list.lemma_multiset_has_no_duplicates();
    order.lemma_multiset_has_no_duplicates_conv();
    assert forall|i: int, j: int| 0 <= i < j < modules.len() implies (#[trigger] order[i]).index != (
    #[trigger] order[j]).index by {
        assert(order[i] != order[j]);
    }
}

/// Every module of a finished graph is that of a file.
pub proof fn lemma_module_is_of_a_file(
    disk: Disk,
    options: OptionsModel,
    root: Seq<char>,
    entry: Seq<char>,
    steps: nat,
    walk: WalkModel,
    k: int,
)
    requires
        is_done(disk, options, root, entry, steps, walk),
        0 <= k < walk.builder.modules.len(),
    ensures
        ({
            let i = graph::seating(walk.builder.modules)[k].index as int;
            &&& 0 <= i < walk.builder.paths.len()
            &&& graph::finished(walk.builder).modules[k].path == graph::rooted(
                root,
                walk.builder.paths[i],
            )
        }),
{
    lemma_walks_are_fair(disk, options, root, entry, steps);
    graph::lemma_seating(walk.builder.modules);
    edges_are_imports(disk, options, root, entry, steps, walk, k);
}

/// Whether different files have different root-relative paths.
pub open spec fn are_told_apart(b: BuilderModel) -> bool {
    forall|i: int, j: int|
        0 <= i < b.paths.len() && 0 <= j < b.paths.len() && graph::rooted(
            b.root,
            #[trigger] b.paths[i],
        ) == graph::rooted(b.root, #[trigger] b.paths[j]) ==> b.paths[i] == b.paths[j]
}

/// Files that are found again from their root-relative paths have different ones.
pub proof fn found_paths_are_told_apart(b: BuilderModel)
    requires
        forall|i: int|
            0 <= i < b.paths.len() ==> memo::is_found_again(b.root, #[trigger] b.paths[i]),
    ensures
        are_told_apart(b),
{
    assert forall|i: int, j: int|
        0 <= i < b.paths.len() && 0 <= j < b.paths.len() && graph::rooted(
            b.root,
            #[trigger] b.paths[i],
        ) == graph::rooted(b.root, #[trigger] b.paths[j]) implies b.paths[i] == b.paths[j] by {
        assert(memo::is_found_again(b.root, b.paths[i]));
        assert(memo::is_found_again(b.root, b.paths[j]));
    }
}

/// Modules of a finished graph ascend strictly by path, so no path occurs twice,
/// where different files have different root-relative paths. (Two files below
/// directories named `c:` and `C:` can share one.) The entry is a module, and edges
/// lead to modules or out of the graph, in any case.
pub proof fn modules_ascend(
    disk: Disk,
    options: OptionsModel,
    root: Seq<char>,
    entry: Seq<char>,
    steps: nat,
    walk: WalkModel,
)
    requires
        is_done(disk, options, root, entry, steps, walk),
    ensures
        graph::is_sound(graph::finished(walk.builder)),
        are_told_apart(walk.builder) ==> forall|i: int, j: int|
            0 <= i < j < walk.builder.modules.len() ==> order::precedes(
                order::text_rank((#[trigger] graph::finished(walk.builder).modules[i]).path),
                order::text_rank((#[trigger] graph::finished(walk.builder).modules[j]).path),
            ),
{
    let b = walk.builder;
    let g = graph::finished(b);
    lemma_walks_are_fair(disk, options, root, entry, steps);
    resolver::lemma_walk_facts(disk, options, root, entry, steps);
    resolver::files_are_modules_once(disk, options, root, entry, steps);
    graph::lemma_seating(b.modules);
    lemma_indexes_differ(b.modules);
    graph::modules_are_sorted(b);
    assert(graph::edges_known(b)) by {
        reveal(is_wired);
    }
    graph::finished_graphs_are_sound(b);
    let order = graph::seating(b.modules);
    if are_told_apart(b) {
        assert forall|i: int, j: int| 0 <= i < j < b.modules.len() implies order::precedes(
            order::text_rank((#[trigger] g.modules[i]).path),
            order::text_rank((#[trigger] g.modules[j]).path),
        ) by {
            let x = order[i].index as int;
            let y = order[j].index as int;
            reveal(is_filed);
            assert(b.modules[x].path == graph::rooted(root, b.paths[x]));
            assert(b.modules[y].path == graph::rooted(root, b.paths[y]));
            assert(x != y);
            assert(b.paths[x] != b.paths[y]);
            assert(g.modules[i].path == b.modules[x].path);
            assert(g.modules[j].path == b.modules[y].path);
            order::lemma_text_rank_injective(g.modules[i].path, g.modules[j].path);
            order::lemma_order_unique(
                order::text_rank(g.modules[i].path),
                order::text_rank(g.modules[j].path),
            );
        }
    }
}

/// Looking up the path of a module gives that module, and nothing else has that
/// path.
pub proof fn lookups_find_their_modules(g: GraphModel, p: Seq<char>, id: usize)
    requires
        g.modules.len() <= usize::MAX,
        forall|i: int, j: int|
            0 <= i < j < g.modules.len() ==> (#[trigger] g.modules[i]).path != (
            #[trigger] g.modules[j]).path,
    ensures
        sorted::lookup(graph::path_index(g.modules), p) == Some(id) <==> id < g.modules.len()
            && g.modules[id as int].path == p,
{
    graph::lemma_path_index(g.modules, p);
    if id < g.modules.len() {
        graph::lemma_path_is_indexed(g.modules, id as int);
    }
}

/// A file is found again from its root-relative path, and has that path again:
/// the absolute path of a module leads to its file, and relative to the root it is
/// the path that the graph has.
///
/// Left out are files to which the way from the root starts with a segment that
/// reads as a drive.
pub proof fn absolute_paths_lead_back(root: Seq<char>, p: Seq<char>)
    requires
        root == path::normal(root) && path::root_len(root) > 0,
        p == path::normal(p) && path::root_len(p) > 0,
        path::relative_path(p, root) is Some ==> path::root_len(
            crate::text::joined(
                path::route(path::segments_of(p), path::segments_of(root)),
                seq!['/'],
            ),
        ) == 0,
    ensures
        memo::is_found_again(root, p),
        graph::rooted(root, path::joined_path(root, graph::rooted(root, p))) == graph::rooted(
            root,
            p,
        ),
{
    path::normalizing_yields_a_normal_form(root);
    path::normalizing_yields_a_normal_form(p);
    if path::relative_path(p, root) is Some {
        assert(root != path::here());
        path::relative_path_leads_back(p, root);
    }
}

/// A hit gives what resolving anew would: where the trace of a finished walk
/// holds, the graph that its snapshot restores is the one that a walk over what is
/// on disk now ends with.
///
/// It asks what `memo_hits_are_sound` asks, and that different files have different
/// root-relative paths. Both hold of what a walk without colons recorded
/// (`recorded_paths_are_found_again`).
pub proof fn hits_equal_fresh_walks(
    then: Disk,
    now: Disk,
    options: OptionsModel,
    root: Seq<char>,
    entry: Seq<char>,
    steps: nat,
    walk: WalkModel,
)
    requires
        is_done(then, options, root, entry, steps, walk),
        resolver::is_readable(then),
        memo::hashes_tell_apart(then, now),
        forall|n: nat|
            n < steps ==> resolver::walk_step(
                then,
                options,
                #[trigger] resolver::walked(then, options, resolver::walk_start(root, entry), n),
            ) is Next,
        memo::trace_holds(resolver::trace_of(walk), root, now),
        forall|k: int|
            0 <= k < walk.files.len() ==> memo::is_found_again(root, (#[trigger] walk.files[k]).0),
        forall|k: int|
            0 <= k < walk.missing.len() ==> memo::is_found_again(
                root,
                (#[trigger] walk.missing[k]).0,
            ),
        are_told_apart(walk.builder),
    ensures
        exists|again: WalkModel| #[trigger]
            is_done(now, options, root, entry, steps, again) && graph::restored(
                root,
                graph::snapshot_of(graph::finished(walk.builder)),
            ) == Ok::<GraphModel, graph::SnapshotFault>(graph::finished(again.builder)),
{
    let b = walk.builder;
    let g = graph::finished(b);
    lemma_walks_are_fair(then, options, root, entry, steps);
    resolver::lemma_walk_facts(then, options, root, entry, steps);
    memo::memo_hits_are_sound(then, now, options, root, entry, steps);
    modules_ascend(then, options, root, entry, steps, walk);
    assert(graph::edges_known(b)) by {
        reveal(is_wired);
    }
    graph::finished_graphs_are_sound(b);
    assert forall|i: int, j: int| 0 <= i < j < g.modules.len() implies (#[trigger] g.modules[i]).path
        != (#[trigger] g.modules[j]).path by {
        order::lemma_irreflexive(order::text_rank(g.modules[i].path));
    }
    graph::snapshots_read_back(g);
    let again = resolver::walked(now, options, resolver::walk_start(root, entry), steps);
    assert(is_done(now, options, root, entry, steps, again));
}

} // verus!
