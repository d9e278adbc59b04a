//! Where a walk asks.
//!
//! A walk from an absolute root asks only for absolute paths. Where none of them has
//! a colon, each is found again from its root-relative form, which is what a graph
//! and a trace keep of it.

use vstd::prelude::*;
use crate::graph::memo;
use crate::graph::resolver::{
    self, Destination, Disk, Hashes, Loading, LogModel, OptionsModel, Outcome, Paths,
    WalkModel,
};
use crate::graph::shape;
use crate::graph::{self, DependencyKind};
use crate::json::{self, JsonModel};
use crate::{path, sorted};

verus! {

/// Whether paths are all absolute.
#[verifier::opaque]
pub open spec fn all_anchored(paths: Seq<Seq<char>>) -> bool {
    forall|i: int| 0 <= i < paths.len() ==> path::is_anchored(#[trigger] paths[i])
}

proof fn lemma_anchored_push(paths: Seq<Seq<char>>, p: Seq<char>)
    requires
        all_anchored(paths),
        path::is_anchored(p),
    ensures
        all_anchored(paths.push(p)),
{
    reveal(all_anchored);
}

proof fn lemma_anchored_add(a: Seq<Seq<char>>, b: Seq<Seq<char>>)
    requires
        all_anchored(a),
        all_anchored(b),
    ensures
        all_anchored(a + b),
{
    reveal(all_anchored);
    assert forall|i: int| 0 <= i < (a + b).len() implies path::is_anchored(
        #[trigger] (a + b)[i],
    ) by {
        if i < a.len() {
            assert((a + b)[i] == a[i]);
        } else {
            assert((a + b)[i] == b[i - a.len()]);
        }
    }
}

/// Whether an inquiry about a path asked only for absolute ones, and found one if
/// any.
spec fn is_placed(q: resolver::Inquiry<Option<Seq<char>>>) -> bool {
    &&& all_anchored(q.log.asked)
    &&& q.found matches Some(Some(p)) ==> path::is_anchored(p)
}

/// Whether a destination is an absolute path, if it is one.
spec fn is_anchored_end(found: Option<Destination>) -> bool {
    found matches Some(Destination::Path(p)) ==> path::is_anchored(p)
}

proof fn lemma_first_file(disk: Disk, log: LogModel, candidates: Seq<Seq<char>>)
    requires
        all_anchored(log.asked),
        all_anchored(candidates),
    ensures
        is_placed(resolver::first_file(disk, log, candidates)),
    decreases candidates.len(),
{
    if candidates.len() > 0 {
        let rest = candidates.skip(1);
        assert(path::is_anchored(candidates[0]) && all_anchored(rest)) by {
            reveal(all_anchored);
        }
        lemma_anchored_push(log.asked, candidates[0]);
        lemma_first_file(disk, resolver::ask(log, candidates[0]), rest);
    }
}

proof fn lemma_suffixes(p: Seq<char>, suffixes: Seq<Seq<char>>)
    requires
        path::is_anchored(p),
    ensures
        all_anchored(resolver::with_suffixes(p, suffixes)),
{
    reveal(all_anchored);
    assert forall|i: int| 0 <= i < suffixes.len() implies path::is_anchored(
        #[trigger] resolver::with_suffixes(p, suffixes)[i],
    ) by {
        path::lemma_suffixed_is_anchored(p, suffixes[i]);
    }
}

proof fn lemma_rewritten(p: Seq<char>, from: Seq<char>, to: Seq<char>)
    requires
        path::is_anchored(p),
        !from.contains('/'),
    ensures
        all_anchored(resolver::rewritten(p, from, to)),
{
    reveal(all_anchored);
    if crate::text::ends(p, from) {
        path::lemma_rewritten_is_anchored(p, from, to);
    }
}

proof fn lemma_file_candidates(p: Seq<char>, extensions: Seq<Seq<char>>)
    requires
        path::is_anchored(p),
    ensures
        all_anchored(resolver::file_candidates(p, extensions)),
{
    reveal_strlit(".js");
    reveal_strlit(".mjs");
    reveal_strlit(".cjs");
    let a = seq![p];
    assert(all_anchored(a)) by {
        reveal(all_anchored);
    }
    let b = resolver::with_suffixes(p, extensions);
    let c = resolver::rewritten(p, ".js"@, ".ts"@);
    let d = resolver::rewritten(p, ".js"@, ".tsx"@);
    let e = resolver::rewritten(p, ".mjs"@, ".mts"@);
    let f = resolver::rewritten(p, ".cjs"@, ".cts"@);
    lemma_suffixes(p, extensions);
    lemma_rewritten(p, ".js"@, ".ts"@);
    lemma_rewritten(p, ".js"@, ".tsx"@);
    lemma_rewritten(p, ".mjs"@, ".mts"@);
    lemma_rewritten(p, ".cjs"@, ".cts"@);
    lemma_anchored_add(a, b);
    lemma_anchored_add(a + b, c);
    lemma_anchored_add(a + b + c, d);
    lemma_anchored_add(a + b + c + d, e);
    lemma_anchored_add(a + b + c + d + e, f);
}

proof fn lemma_manifest(disk: Disk, log: LogModel, directory: Seq<char>)
    requires
        all_anchored(log.asked),
        path::is_anchored(directory),
    ensures
        all_anchored(resolver::manifest_at(disk, log, directory).log.asked),
{
    let p = resolver::manifest_path(directory);
    path::lemma_joined_is_anchored(directory, "package.json"@);
    lemma_anchored_push(log.asked, p);
    assert(resolver::manifest_at(disk, log, directory).log.asked == log.asked.push(p));
}

proof fn lemma_directory_file(
    disk: Disk,
    log: LogModel,
    options: OptionsModel,
    directory: Seq<char>,
)
    requires
        all_anchored(log.asked),
        path::is_anchored(directory),
    ensures
        is_placed(resolver::directory_file(disk, log, options, directory)),
{
    let q = resolver::manifest_at(disk, log, directory);
    lemma_manifest(disk, log, directory);
    if let Some(manifest) = q.found {
        let index = path::joined_path(directory, "index"@);
        path::lemma_joined_is_anchored(directory, "index"@);
        lemma_suffixes(index, options.extensions);
        if let Some(value) = manifest {
            if let Some(main) = json::text_field(value, "main"@) {
                let p = path::joined_path(directory, main);
                path::lemma_joined_is_anchored(directory, main);
                lemma_suffixes(p, options.extensions);
                assert(all_anchored(seq![p])) by {
                    reveal(all_anchored);
                }
                let more = resolver::with_suffixes(p, options.extensions);
                lemma_anchored_add(seq![p], more);
                lemma_anchored_add(
                    seq![p] + more,
                    resolver::with_suffixes(index, options.extensions),
                );
            }
        }
        lemma_first_file(
            disk,
            q.log,
            resolver::directory_candidates(directory, manifest, options.extensions),
        );
    }
}

proof fn lemma_path_file(disk: Disk, log: LogModel, options: OptionsModel, p: Seq<char>)
    requires
        all_anchored(log.asked),
        path::is_anchored(p),
    ensures
        is_placed(resolver::path_file(disk, log, options, p)),
{
    let candidates = resolver::file_candidates(p, options.extensions);
    let q = resolver::first_file(disk, log, candidates);
    lemma_file_candidates(p, options.extensions);
    lemma_first_file(disk, log, candidates);
    lemma_directory_file(disk, q.log, options, p);
}

proof fn lemma_exports(
    disk: Disk,
    log: LogModel,
    options: OptionsModel,
    directory: Seq<char>,
    exports: JsonModel,
    subpath: Seq<char>,
    kind: DependencyKind,
)
    requires
        all_anchored(log.asked),
        path::is_anchored(directory),
    ensures
        ({
            let q = resolver::exports_lead(disk, log, options, directory, exports, subpath, kind);
            all_anchored(q.log.asked) && is_anchored_end(q.found)
        }),
{
    if let Ok(target) = resolver::export_target(
        exports,
        subpath,
        resolver::conditions_of(options, kind),
    ) {
        path::lemma_joined_is_anchored(directory, target);
        lemma_anchored_push(log.asked, path::joined_path(directory, target));
    }
}

proof fn lemma_package(
    disk: Disk,
    log: LogModel,
    options: OptionsModel,
    directory: Seq<char>,
    subpath: Seq<char>,
    kind: DependencyKind,
)
    requires
        all_anchored(log.asked),
        path::is_anchored(directory),
    ensures
        ({
            let q = resolver::package_leads(disk, log, options, directory, subpath, kind);
            all_anchored(q.log.asked) && (q.found matches Some(found) ==> is_anchored_end(found))
        }),
{
    let m = resolver::manifest_at(disk, log, directory);
    lemma_manifest(disk, log, directory);
    lemma_directory_file(disk, m.log, options, directory);
    if let Some(Some(manifest)) = m.found {
        if let Some(exports) = json::field(manifest, "exports"@) {
            lemma_exports(disk, m.log, options, directory, exports, subpath, kind);
        } else if subpath == "."@ {
            if let Some(main) = json::text_field(manifest, "main"@) {
                let p = path::joined_path(directory, main);
                path::lemma_joined_is_anchored(directory, main);
                lemma_path_file(disk, m.log, options, p);
                let q = resolver::path_file(disk, m.log, options, p);
                lemma_directory_file(disk, q.log, options, directory);
            }
        } else {
            let rest = resolver::without_dots(subpath);
            path::lemma_joined_is_anchored(directory, rest);
            lemma_path_file(disk, m.log, options, path::joined_path(directory, rest));
        }
    }
}

proof fn lemma_bare(
    disk: Disk,
    log: LogModel,
    options: OptionsModel,
    root: Seq<char>,
    current: Seq<char>,
    package: Seq<char>,
    subpath: Seq<char>,
    kind: DependencyKind,
)
    requires
        all_anchored(log.asked),
        path::is_anchored(current),
    ensures
        ({
            let q = resolver::bare_leads(
                disk,
                log,
                options,
                root,
                current,
                package,
                subpath,
                kind,
            );
            all_anchored(q.log.asked) && is_anchored_end(q.found)
        }),
    decreases current.len(),
{
    let shelf = path::joined_path(current, "node_modules"@);
    let directory = path::joined_path(shelf, package);
    path::lemma_joined_is_anchored(current, "node_modules"@);
    path::lemma_joined_is_anchored(shelf, package);
    lemma_package(disk, log, options, directory, subpath, kind);
    let q = if path::file_name_of(current) == Some("node_modules"@) {
        resolver::Inquiry { log, found: Some(None) }
    } else {
        resolver::package_leads(disk, log, options, directory, subpath, kind)
    };
    if let Some(parent) = resolver::next_up(current, root) {
        path::lemma_parent_is_anchored(current);
        lemma_bare(disk, q.log, options, root, parent, package, subpath, kind);
    }
}

proof fn lemma_specifier(
    disk: Disk,
    log: LogModel,
    options: OptionsModel,
    root: Seq<char>,
    from: Seq<char>,
    specifier: Seq<char>,
    kind: DependencyKind,
)
    requires
        all_anchored(log.asked),
        path::is_anchored(from),
    ensures
        ({
            let q = resolver::specifier_leads(disk, log, options, root, from, specifier, kind);
            all_anchored(q.log.asked) && is_anchored_end(q.found)
        }),
{
    let (package, subpath) = graph::exports::bare_parts(specifier);
    path::lemma_joined_is_anchored(from, specifier);
    lemma_path_file(disk, log, options, path::joined_path(from, specifier));
    lemma_bare(disk, log, options, root, from, package, subpath, kind);
}

proof fn lemma_system_from(disk: Disk, log: LogModel, root: Seq<char>, current: Seq<char>)
    requires
        all_anchored(log.asked),
        path::is_anchored(current),
    ensures
        all_anchored(resolver::system_from(disk, log, root, current).log.asked),
    decreases current.len(),
{
    let m = resolver::manifest_at(disk, log, current);
    lemma_manifest(disk, log, current);
    if let Some(parent) = resolver::next_up(current, root) {
        path::lemma_parent_is_anchored(current);
        lemma_system_from(disk, m.log, root, parent);
    }
}

proof fn lemma_loading(disk: Disk, log: LogModel, root: Seq<char>, p: Seq<char>)
    requires
        all_anchored(log.asked),
        path::is_anchored(p),
    ensures
        resolver::loading(disk, log, root, p) matches Loading::Loaded {
            log: after,
            hash,
            system,
        } ==> all_anchored(after.asked),
{
    let asked = resolver::ask(log, p);
    lemma_anchored_push(log.asked, p);
    let noted = resolver::note(asked, p, resolver::not_text());
    if let Some(parent) = path::parent_of(p) {
        path::lemma_parent_is_anchored(p);
        lemma_system_from(disk, asked, root, parent);
        lemma_system_from(disk, noted, root, parent);
    }
}

// ---------------------------------------------------------------------------
// What a walk records.

/// Whether what a walk recorded, and what it is to work through, is absolute.
pub open spec fn is_anchored_walk(walk: WalkModel) -> bool {
    &&& all_anchored(walk.builder.paths)
    &&& all_anchored(walk.files.map_values(|e: (Seq<char>, Seq<u8>)| e.0))
    &&& all_anchored(walk.missing.map_values(|e: (Seq<char>, ())| e.0))
    &&& all_anchored(walk.queue.map_values(|e: (usize, Seq<char>)| e.1))
    &&& walk.entry matches Some(p) ==> path::is_anchored(p)
    &&& path::is_anchored(walk.builder.root)
}

spec fn keys_of<V>(entries: Seq<(Seq<char>, V)>) -> Seq<Seq<char>> {
    entries.map_values(|e: (Seq<char>, V)| e.0)
}

proof fn lemma_put_anchored<V>(entries: Seq<(Seq<char>, V)>, key: Seq<char>, value: V)
    requires
        all_anchored(keys_of(entries)),
        path::is_anchored(key),
    ensures
        all_anchored(keys_of(sorted::put(entries, key, value))),
{
    reveal(all_anchored);
    sorted::lemma_slot(entries, key);
    let next = sorted::put(entries, key, value);
    let at = sorted::slot(entries, key) as int;
    let keys = keys_of(entries);
    assert forall|i: int| 0 <= i < next.len() implies path::is_anchored(
        #[trigger] keys_of(next)[i],
    ) by {
        if sorted::holds(entries, key) {
            assert(next[i].0 == entries[i].0);
            assert(path::is_anchored(keys[i]));
        } else if i < at {
            assert(next[i] == entries[i]);
            assert(path::is_anchored(keys[i]));
        } else if i > at {
            assert(next[i] == entries[i - 1]);
            assert(path::is_anchored(keys[i - 1]));
        }
    }
}

proof fn lemma_record(disk: Disk, files: Hashes, missing: Paths, asked: Seq<Seq<char>>)
    requires
        all_anchored(keys_of(files)),
        all_anchored(keys_of(missing)),
        all_anchored(asked),
    ensures
        all_anchored(keys_of(resolver::files_after(disk, files, asked))),
        all_anchored(keys_of(resolver::missing_after(disk, missing, asked))),
    decreases asked.len(),
{
    if asked.len() > 0 {
        let front = asked.drop_last();
        assert(all_anchored(front) && path::is_anchored(asked.last())) by {
            reveal(all_anchored);
            assert(asked[asked.len() - 1] == asked.last());
            assert forall|i: int| 0 <= i < front.len() implies path::is_anchored(
                #[trigger] front[i],
            ) by {
                assert(front[i] == asked[i]);
            }
        }
        lemma_record(disk, files, missing, front);
        match sorted::lookup(disk, asked.last()) {
            Some(resolver::FactModel::File { hash, content }) => {
                lemma_put_anchored(
                    resolver::files_after(disk, files, front),
                    asked.last(),
                    hash,
                );
            },
            Some(resolver::FactModel::Missing) => {
                lemma_put_anchored(
                    resolver::missing_after(disk, missing, front),
                    asked.last(),
                    (),
                );
            },
            _ => {},
        }
    }
}

proof fn lemma_recorded(disk: Disk, walk: WalkModel, log: LogModel)
    requires
        is_anchored_walk(walk),
        all_anchored(log.asked),
    ensures
        is_anchored_walk(resolver::recorded(disk, walk, log)),
{
    assert(keys_of(walk.files) =~= walk.files.map_values(|e: (Seq<char>, Seq<u8>)| e.0));
    assert(keys_of(walk.missing) =~= walk.missing.map_values(|e: (Seq<char>, ())| e.0));
    lemma_record(disk, walk.files, walk.missing, log.asked);
    resolver::lemma_noted(walk.builder, log.notes);
    let r = resolver::recorded(disk, walk, log);
    assert(keys_of(r.files) =~= r.files.map_values(|e: (Seq<char>, Seq<u8>)| e.0));
    assert(keys_of(r.missing) =~= r.missing.map_values(|e: (Seq<char>, ())| e.0));
}

proof fn lemma_loaded(
    disk: Disk,
    walk: WalkModel,
    p: Seq<char>,
    log: LogModel,
    hash: Seq<u8>,
    system: graph::ModuleSystem,
)
    requires
        is_anchored_walk(walk),
        all_anchored(log.asked),
        path::is_anchored(p),
    ensures
        is_anchored_walk(resolver::with_loaded(disk, walk, p, log, hash, system)),
{
    lemma_recorded(disk, walk, log);
    resolver::lemma_noted(walk.builder, log.notes);
    lemma_anchored_push(walk.builder.paths, p);
    let next = resolver::with_loaded(disk, walk, p, log, hash, system);
    let before = walk.queue.map_values(|e: (usize, Seq<char>)| e.1);
    lemma_anchored_push(before, p);
    assert(next.queue.map_values(|e: (usize, Seq<char>)| e.1) =~= before.push(p));
}

proof fn lemma_import_step(disk: Disk, options: OptionsModel, walk: WalkModel)
    requires
        is_anchored_walk(walk),
        walk.queue.len() > 0,
        walk.pending matches Some(pending) && pending.len() > 0,
    ensures
        resolver::import_step(
            disk,
            options,
            walk,
            walk.queue[0].1,
            walk.pending->0[0],
        ) matches Outcome::Next(next) ==> is_anchored_walk(next),
{
    let p = walk.queue[0].1;
    let wanted = walk.pending->0[0];
    let root = walk.builder.root;
    let open = walk.queue.map_values(|e: (usize, Seq<char>)| e.1);
    assert(path::is_anchored(p)) by {
        reveal(all_anchored);
        assert(open[0] == p);
    }
    path::lemma_parent_is_anchored(p);
    let from = match path::parent_of(p) {
        Some(parent) => parent,
        None => root,
    };
    let none = resolver::no_log();
    assert(all_anchored(none.asked)) by {
        reveal(all_anchored);
    }
    lemma_specifier(disk, none, options, root, from, wanted.0, wanted.1);
    let q = resolver::specifier_leads(disk, none, options, root, from, wanted.0, wanted.1);
    lemma_recorded(disk, walk, q.log);
    match q.found {
        Some(Destination::Unresolved(reason)) => {
            lemma_recorded(
                disk,
                walk,
                resolver::note(q.log, p, resolver::complaint(wanted.0, reason)),
            );
        },
        Some(Destination::Path(target)) => {
            lemma_loading(disk, q.log, root, target);
            if let Loading::Loaded { log, hash, system } = resolver::loading(
                disk,
                q.log,
                root,
                target,
            ) {
                lemma_loaded(disk, walk, target, log, hash, system);
            }
        },
        _ => {},
    }
}

proof fn lemma_step(disk: Disk, options: OptionsModel, walk: WalkModel)
    requires
        is_anchored_walk(walk),
    ensures
        resolver::walk_step(disk, options, walk) matches Outcome::Next(next) ==> is_anchored_walk(
            next,
        ),
{
    match walk.entry {
        Some(p) => {
            let none = resolver::no_log();
            assert(all_anchored(none.asked)) by {
                reveal(all_anchored);
            }
            let q = resolver::probed(disk, none, p);
            lemma_anchored_push(none.asked, p);
            lemma_loading(disk, q.log, walk.builder.root, p);
            if let Loading::Loaded { log, hash, system } = resolver::loading(
                disk,
                q.log,
                walk.builder.root,
                p,
            ) {
                lemma_loaded(disk, walk, p, log, hash, system);
            }
        },
        None => if walk.queue.len() > 0 {
            match walk.pending {
                None => {
                    let reading = resolver::reading_of(disk, options, walk.queue[0].1);
                    resolver::lemma_noted(walk.builder, reading.notes);
                },
                Some(pending) => if pending.len() == 0 {
                    let before = walk.queue.map_values(|e: (usize, Seq<char>)| e.1);
                    let rest = walk.queue.skip(1).map_values(|e: (usize, Seq<char>)| e.1);
                    reveal(all_anchored);
                    assert forall|i: int| 0 <= i < rest.len() implies path::is_anchored(
                        #[trigger] rest[i],
                    ) by {
                        assert(rest[i] == before[i + 1]);
                    }
                } else {
                    lemma_import_step(disk, options, walk);
                },
            }
        },
    }
}

/// A walk from an absolute root asks for absolute paths only.
pub proof fn walks_stay_absolute(
    disk: Disk,
    options: OptionsModel,
    root: Seq<char>,
    entry: Seq<char>,
    steps: nat,
)
    requires
        path::is_anchored(root),
    ensures
        is_anchored_walk(
            resolver::walked(disk, options, resolver::walk_start(root, entry), steps),
        ),
    decreases steps,
{
    let start = resolver::walk_start(root, entry);
    if steps == 0 {
        path::lemma_joined_is_anchored(root, entry);
        reveal(all_anchored);
    } else {
        walks_stay_absolute(disk, options, root, entry, (steps - 1) as nat);
        lemma_step(
            disk,
            options,
            resolver::walked(disk, options, start, (steps - 1) as nat),
        );
    }
}

/// An absolute path without a colon is found again from its root-relative form, and
/// has that form again.
pub proof fn plain_paths_are_found_again(root: Seq<char>, p: Seq<char>)
    requires
        path::is_anchored(root),
        path::is_anchored(p),
        !root.contains(':'),
        !p.contains(':'),
    ensures
        memo::is_found_again(root, p),
        path::relative_path(p, root) == Some(graph::rooted(root, p)),
{
    assert(path::root_len(path::here()) == 0);
    path::relative_paths_lead_back(p, root);
}

/// Whether no path that a walk recorded has a colon.
pub open spec fn has_no_colons(walk: WalkModel) -> bool {
    &&& !walk.builder.root.contains(':')
    &&& forall|i: int|
        0 <= i < walk.builder.paths.len() ==> !(#[trigger] walk.builder.paths[i]).contains(':')
    &&& forall|k: int| 0 <= k < walk.files.len() ==> !(#[trigger] walk.files[k]).0.contains(':')
    &&& forall|k: int|
        0 <= k < walk.missing.len() ==> !(#[trigger] walk.missing[k]).0.contains(':')
}

/// Every path that a walk without colons recorded is found again from its
/// root-relative form: of its modules, of the files that it read, and of those that
/// it did not find.
pub proof fn recorded_paths_are_found_again(
    disk: Disk,
    options: OptionsModel,
    root: Seq<char>,
    entry: Seq<char>,
    steps: nat,
)
    requires
        path::is_anchored(root),
        has_no_colons(
            resolver::walked(disk, options, resolver::walk_start(root, entry), steps),
        ),
    ensures
        ({
            let walk = resolver::walked(
                disk,
                options,
                resolver::walk_start(root, entry),
                steps,
            );
            &&& forall|i: int|
                0 <= i < walk.builder.paths.len() ==> memo::is_found_again(
                    root,
                    #[trigger] walk.builder.paths[i],
                )
            &&& forall|k: int|
                0 <= k < walk.files.len() ==> memo::is_found_again(
                    root,
                    (#[trigger] walk.files[k]).0,
                )
            &&& forall|k: int|
                0 <= k < walk.missing.len() ==> memo::is_found_again(
                    root,
                    (#[trigger] walk.missing[k]).0,
                )
        }),
{
    let walk = resolver::walked(disk, options, resolver::walk_start(root, entry), steps);
    walks_stay_absolute(disk, options, root, entry, steps);
    resolver::lemma_walk_facts(disk, options, root, entry, steps);
    reveal(all_anchored);
    assert forall|i: int| 0 <= i < walk.builder.paths.len() implies memo::is_found_again(
        root,
        #[trigger] walk.builder.paths[i],
    ) by {
        plain_paths_are_found_again(root, walk.builder.paths[i]);
    }
    let files = walk.files.map_values(|e: (Seq<char>, Seq<u8>)| e.0);
    assert forall|k: int| 0 <= k < walk.files.len() implies memo::is_found_again(
        root,
        (#[trigger] walk.files[k]).0,
    ) by {
        assert(files[k] == walk.files[k].0);
        plain_paths_are_found_again(root, walk.files[k].0);
    }
    let missing = walk.missing.map_values(|e: (Seq<char>, ())| e.0);
    assert forall|k: int| 0 <= k < walk.missing.len() implies memo::is_found_again(
        root,
        (#[trigger] walk.missing[k]).0,
    ) by {
        assert(missing[k] == walk.missing[k].0);
        plain_paths_are_found_again(root, walk.missing[k].0);
    }
}

/// The absolute path of a module is that of its file, and relative to the root it is
/// the path that the graph has.
pub proof fn absolute_paths_are_those_of_files(
    disk: Disk,
    options: OptionsModel,
    root: Seq<char>,
    entry: Seq<char>,
    steps: nat,
    walk: WalkModel,
    k: int,
)
    requires
        path::is_anchored(root),
        shape::is_done(disk, options, root, entry, steps, walk),
        has_no_colons(walk),
        0 <= k < walk.builder.modules.len(),
    ensures
        ({
            let module = graph::finished(walk.builder).modules[k];
            let p = walk.builder.paths[graph::seating(walk.builder.modules)[k].index as int];
            let absolute = path::joined_path(root, module.path);
            &&& absolute == p
            &&& path::is_anchored(absolute)
            &&& path::relative_path(absolute, root) == Some(module.path)
        }),
{
    let p = walk.builder.paths[graph::seating(walk.builder.modules)[k].index as int];
    shape::lemma_module_is_of_a_file(disk, options, root, entry, steps, walk, k);
    assert(path::is_anchored(p) && !p.contains(':') && !root.contains(':')) by {
        walks_stay_absolute(disk, options, root, entry, steps);
        resolver::lemma_walk_facts(disk, options, root, entry, steps);
        reveal(all_anchored);
    }
    plain_paths_are_found_again(root, p);
}

/// A second call after which nothing changed of what the first one asked for is a
/// hit: the trace of the first has no fault, and its snapshot restores its graph, which
/// is what resolving anew would end with.
pub proof fn second_calls_hit(
    then: Disk,
    now: Disk,
    options: OptionsModel,
    root: Seq<char>,
    entry: Seq<char>,
    steps: nat,
    walk: WalkModel,
)
    requires
        path::is_anchored(root),
        shape::is_done(then, options, root, entry, steps, walk),
        resolver::is_readable(then),
        memo::hashes_tell_apart(then, now),
        forall|n: nat|
            n < steps ==> resolver::walk_step(
                then,
                options,
                #[trigger] resolver::walked(then, options, resolver::walk_start(root, entry), n),
            ) is Next,
        has_no_colons(walk),
        resolver::agree_on_trace(then, now, walk),
    ensures
        ({
            let trace = resolver::trace_of(walk);
            let asked = memo::hashes_on(trace, root, now);
            memo::trace_fault(trace, asked, memo::files_on(trace, root, now)) is None
        }),
        shape::is_done(now, options, root, entry, steps, walk),
        graph::restored(root, graph::snapshot_of(graph::finished(walk.builder))) == Ok::<
            graph::GraphModel,
            graph::SnapshotFault,
        >(graph::finished(walk.builder)),
{
    recorded_paths_are_found_again(then, options, root, entry, steps);
    memo::unchanged_files_hit(then, now, options, root, entry, steps);
    resolver::lemma_walk_facts(then, options, root, entry, steps);
    shape::found_paths_are_told_apart(walk.builder);
    memo::memo_hits_are_sound(then, now, options, root, entry, steps);
    shape::hits_equal_fresh_walks(then, now, options, root, entry, steps, walk);
}

} // verus!
