//! Where specifiers lead.
//!
//! `resolver` says step by step what is looked at. Here it is said what comes out: for
//! a given disk, which file a specifier means.

use vstd::prelude::*;
use crate::graph::exports;
use crate::graph::resolver::{
    self, ContentModel, Destination, Disk, FactModel, Inquiry, LogModel, OptionsModel,
};
use crate::graph::{DependencyKind, ModuleSystem};
use crate::json::{self, JsonModel};
use crate::{path, sorted, text};

verus! {

/// Whether there is a file.
pub open spec fn is_file(disk: Disk, p: Seq<char>) -> bool {
    sorted::lookup(disk, p) matches Some(fact) && fact != FactModel::Missing
}

/// Whether it is known that there is none.
pub open spec fn is_absent(disk: Disk, p: Seq<char>) -> bool {
    sorted::lookup(disk, p) == Some(FactModel::Missing)
}

/// Whether a directory has a manifest that reads as a value.
pub open spec fn has_manifest(disk: Disk, directory: Seq<char>, value: JsonModel) -> bool {
    sorted::lookup(disk, path::joined_path(directory, "package.json"@)) matches Some(
        FactModel::File { hash, content: ContentModel::Text(source) },
    ) && json::json_in_text(source) == Ok::<JsonModel, Seq<char>>(value)
}

/// Whether a path is a file with the first of some extensions that makes it one.
pub open spec fn is_extended(disk: Disk, p: Seq<char>, extensions: Seq<Seq<char>>, i: int) -> bool {
    &&& 0 <= i < extensions.len()
    &&& is_file(disk, path::normal(p + extensions[i]))
    &&& forall|j: int| 0 <= j < i ==> is_absent(disk, path::normal(p + #[trigger] extensions[j]))
}

// ---------------------------------------------------------------------------
// Files.

proof fn lemma_first_file(disk: Disk, log: LogModel, candidates: Seq<Seq<char>>, i: int)
    requires
        0 <= i < candidates.len(),
        is_file(disk, candidates[i]),
        forall|j: int| 0 <= j < i ==> is_absent(disk, #[trigger] candidates[j]),
    ensures
        resolver::first_file(disk, log, candidates).found == Some(Some(candidates[i])),
    decreases i,
{
    if i > 0 {
        assert(is_absent(disk, candidates[0]));
        let rest = candidates.skip(1);
        assert forall|j: int| 0 <= j < i - 1 implies is_absent(disk, #[trigger] rest[j]) by {
            assert(rest[j] == candidates[j + 1]);
        }
        assert(rest[i - 1] == candidates[i]);
        lemma_first_file(disk, resolver::ask(log, candidates[0]), rest, i - 1);
    }
}

proof fn lemma_no_file(disk: Disk, log: LogModel, candidates: Seq<Seq<char>>)
    requires
        forall|j: int| 0 <= j < candidates.len() ==> is_absent(disk, #[trigger] candidates[j]),
    ensures
        resolver::first_file(disk, log, candidates).found == Some(None::<Seq<char>>),
    decreases candidates.len(),
{
    if candidates.len() > 0 {
        assert(is_absent(disk, candidates[0]));
        let rest = candidates.skip(1);
        assert forall|j: int| 0 <= j < rest.len() implies is_absent(disk, #[trigger] rest[j]) by {
            assert(rest[j] == candidates[j + 1]);
        }
        lemma_no_file(disk, resolver::ask(log, candidates[0]), rest);
    }
}

/// A path that is a file means that file; else the first of its extensions that makes
/// it one does.
proof fn lemma_path_file(disk: Disk, log: LogModel, options: OptionsModel, p: Seq<char>, i: int)
    ensures
        is_file(disk, p) ==> resolver::path_file(disk, log, options, p).found == Some(Some(p)),
        is_absent(disk, p) && is_extended(disk, p, options.extensions, i) ==> resolver::path_file(
            disk,
            log,
            options,
            p,
        ).found == Some(Some(path::normal(p + options.extensions[i]))),
{
    let all = resolver::file_candidates(p, options.extensions);
    assert(all[0] == p);
    if is_file(disk, p) {
        lemma_first_file(disk, log, all, 0);
    }
    if is_absent(disk, p) && is_extended(disk, p, options.extensions, i) {
        assert forall|j: int| 0 <= j < options.extensions.len() implies #[trigger] all[j + 1]
            == path::normal(p + options.extensions[j]) by {
            assert(resolver::with_suffixes(p, options.extensions)[j] == path::normal(
                p + options.extensions[j],
            ));
        }
        assert forall|j: int| 0 <= j < i + 1 implies is_absent(disk, #[trigger] all[j]) by {
            if j > 0 {
                assert(all[(j - 1) + 1] == path::normal(p + options.extensions[j - 1]));
            }
        }
        assert(all[i + 1] == path::normal(p + options.extensions[i]));
        lemma_first_file(disk, log, all, i + 1);
    }
}

/// A directory without a manifest, or with one that names no `main`, means its index.
proof fn lemma_index(
    disk: Disk,
    log: LogModel,
    options: OptionsModel,
    directory: Seq<char>,
    i: int,
)
    requires
        is_absent(disk, path::joined_path(directory, "package.json"@)) || exists|value: JsonModel|
            #[trigger] has_manifest(disk, directory, value) && json::is_silent(value, "main"@),
        is_extended(disk, path::joined_path(directory, "index"@), options.extensions, i),
    ensures
        resolver::directory_file(disk, log, options, directory).found == Some(
            Some(path::normal(path::joined_path(directory, "index"@) + options.extensions[i])),
        ),
{
    let m = resolver::manifest_at(disk, log, directory);
    let p = path::joined_path(directory, "index"@);
    if !is_absent(disk, path::joined_path(directory, "package.json"@)) {
        let value = choose|value: JsonModel| #[trigger]
            has_manifest(disk, directory, value) && json::is_silent(value, "main"@);
        json::fields_are_entries(value, "main"@);
        assert(m.found == Some(Some(value)));
    }
    let all = resolver::with_suffixes(p, options.extensions);
    assert(resolver::directory_candidates(directory, m.found->0, options.extensions) == all);
    assert forall|j: int| 0 <= j < i implies is_absent(disk, #[trigger] all[j]) by {
        assert(all[j] == path::normal(p + options.extensions[j]));
    }
    lemma_first_file(disk, m.log, all, i);
}

// ---------------------------------------------------------------------------
// Packages.

/// Where the main file of a package is, by what its manifest says and by what is on
/// disk: where a package without `exports` names a `main`, that file, as it is named or
/// with the first extension that makes it one; where it names none, its index. Nothing
/// else in the manifest counts.
pub proof fn packages_lead_to_their_main_file(
    disk: Disk,
    log: LogModel,
    options: OptionsModel,
    directory: Seq<char>,
    manifest: JsonModel,
    kind: DependencyKind,
    main: Seq<char>,
    i: int,
)
    requires
        has_manifest(disk, directory, manifest),
        json::is_silent(manifest, "exports"@),
    ensures
        ({
            let found = resolver::package_leads(disk, log, options, directory, "."@, kind).found;
            let named = path::joined_path(directory, main);
            let index = path::joined_path(directory, "index"@);
            &&& json::says(manifest, "main"@, JsonModel::Text(main)) && is_file(disk, named)
                ==> found == Some(Some(Destination::Path(named)))
            &&& json::says(manifest, "main"@, JsonModel::Text(main)) && is_absent(disk, named)
                && is_extended(disk, named, options.extensions, i) ==> found == Some(
                Some(Destination::Path(path::normal(named + options.extensions[i]))),
            )
            &&& json::is_silent(manifest, "main"@) && is_extended(
                disk,
                index,
                options.extensions,
                i,
            ) ==> found == Some(
                Some(Destination::Path(path::normal(index + options.extensions[i]))),
            )
        }),
{
    let m = resolver::manifest_at(disk, log, directory);
    assert(m.found == Some(Some(manifest)));
    json::fields_are_entries(manifest, "exports"@);
    json::fields_are_entries(manifest, "main"@);
    let named = path::joined_path(directory, main);
    lemma_path_file(disk, m.log, options, named, i);
    let index = path::joined_path(directory, "index"@);
    if json::is_silent(manifest, "main"@) && is_extended(disk, index, options.extensions, i) {
        lemma_index(disk, m.log, options, directory, i);
    }
}

/// A directory without a manifest is a package where it has an index, and else is none,
/// so that the search goes on.
pub proof fn packages_without_a_manifest_need_an_index(
    disk: Disk,
    log: LogModel,
    options: OptionsModel,
    directory: Seq<char>,
    subpath: Seq<char>,
    kind: DependencyKind,
    i: int,
)
    requires
        is_absent(disk, path::joined_path(directory, "package.json"@)),
    ensures
        ({
            let found = resolver::package_leads(
                disk,
                log,
                options,
                directory,
                subpath,
                kind,
            ).found;
            let index = path::joined_path(directory, "index"@);
            &&& is_extended(disk, index, options.extensions, i) ==> found == Some(
                Some(Destination::Path(path::normal(index + options.extensions[i]))),
            )
            &&& (forall|j: int|
                0 <= j < options.extensions.len() ==> is_absent(
                    disk,
                    path::normal(index + #[trigger] options.extensions[j]),
                )) ==> found == Some(None::<Destination>)
        }),
{
    let m = resolver::manifest_at(disk, log, directory);
    let index = path::joined_path(directory, "index"@);
    if is_extended(disk, index, options.extensions, i) {
        lemma_index(disk, m.log, options, directory, i);
    }
    if forall|j: int|
        0 <= j < options.extensions.len() ==> is_absent(
            disk,
            path::normal(index + #[trigger] options.extensions[j]),
        ) {
        let again = resolver::manifest_at(disk, m.log, directory);
        let all = resolver::with_suffixes(index, options.extensions);
        assert forall|j: int| 0 <= j < all.len() implies is_absent(disk, #[trigger] all[j]) by {
            assert(all[j] == path::normal(index + options.extensions[j]));
        }
        lemma_no_file(disk, again.log, all);
    }
}

/// Without `exports`, `./` and a path asks for the file at that path in the package.
pub proof fn subpaths_are_files_of_the_package(
    disk: Disk,
    log: LogModel,
    options: OptionsModel,
    directory: Seq<char>,
    manifest: JsonModel,
    kind: DependencyKind,
    rest: Seq<char>,
    i: int,
)
    requires
        has_manifest(disk, directory, manifest),
        json::is_silent(manifest, "exports"@),
        rest.len() > 0 && !text::begins(rest, "./"@),
    ensures
        ({
            let found = resolver::package_leads(
                disk,
                log,
                options,
                directory,
                "./"@ + rest,
                kind,
            ).found;
            let p = path::joined_path(directory, rest);
            &&& is_file(disk, p) ==> found == Some(Some(Destination::Path(p)))
            &&& is_absent(disk, p) && is_extended(disk, p, options.extensions, i) ==> found == Some(
                Some(Destination::Path(path::normal(p + options.extensions[i]))),
            )
        }),
{
    reveal_strlit(".");
    reveal_strlit("./");
    let m = resolver::manifest_at(disk, log, directory);
    assert(m.found == Some(Some(manifest)));
    json::fields_are_entries(manifest, "exports"@);
    let subpath = "./"@ + rest;
    assert(subpath.len() > 1);
    assert(subpath != "."@);
    assert("./"@ =~= seq!['.', '/']);
    assert(subpath.take(2) =~= seq!['.', '/']);
    assert(subpath.skip(2) =~= rest);
    assert(resolver::without_dots(rest) == rest);
    assert(resolver::without_dots(subpath) == rest);
    lemma_path_file(disk, m.log, options, path::joined_path(directory, rest), i);
}

/// The conditions under which an import is looked up: those of the options, and
/// `require` for what is required, `import` for what is imported.
pub open spec fn conditions_at_hand(options: OptionsModel, kind: DependencyKind) -> Seq<Seq<char>> {
    match kind {
        DependencyKind::Require | DependencyKind::TsImportEquals => options.conditions.push(
            "require"@,
        ),
        DependencyKind::StaticImport
        | DependencyKind::DynamicImport
        | DependencyKind::ExportFrom => options.conditions.push("import"@),
    }
}

/// Where a package has `exports`, they decide, whatever its `main` is and whatever else
/// is in its directory. What the entry for a subpath selects is the file, exactly as it
/// is written, with what a pattern captured in place of the `*`; where there is no entry,
/// or it selects nothing, or nothing below the package, or no file, the specifier leads
/// nowhere.
pub proof fn exports_decide(
    disk: Disk,
    log: LogModel,
    options: OptionsModel,
    directory: Seq<char>,
    manifest: JsonModel,
    kind: DependencyKind,
    map: JsonModel,
    subpath: Seq<char>,
)
    requires
        has_manifest(disk, directory, manifest),
        json::says(manifest, "exports"@, map),
    ensures
        ({
            let found = resolver::package_leads(
                disk,
                log,
                options,
                directory,
                subpath,
                kind,
            ).found;
            match exports::subpath_entry(map, subpath) {
                None => found matches Some(Some(Destination::Unresolved(_))),
                Some((value, captured)) => match exports::selected(
                    value,
                    conditions_at_hand(options, kind),
                ) {
                    None => found matches Some(Some(Destination::Unresolved(_))),
                    Some(chosen) => {
                        let target = match captured {
                            None => chosen,
                            Some(part) => text::joined(text::pieces(chosen, '*'), part),
                        };
                        let p = path::joined_path(directory, target);
                        if text::begins(target, "./"@) {
                            &&& is_file(disk, p) ==> found == Some(Some(Destination::Path(p)))
                            &&& is_absent(disk, p) ==> (found matches Some(
                                Some(Destination::Unresolved(_)),
                            ))
                        } else {
                            found matches Some(Some(Destination::Unresolved(_)))
                        }
                    },
                },
            }
        }),
{
    let m = resolver::manifest_at(disk, log, directory);
    assert(m.found == Some(Some(manifest)));
    json::fields_are_entries(manifest, "exports"@);
    assert(conditions_at_hand(options, kind) == resolver::conditions_of(options, kind));
    if let Some((value, captured)) = exports::subpath_entry(map, subpath) {
        if let Some(chosen) = exports::selected(value, conditions_at_hand(options, kind)) {
            if let Some(part) = captured {
                text::replacing_is_joining_anew(chosen, '*', part);
            }
        }
    }
}

// ---------------------------------------------------------------------------
// What was asked before makes no difference.

proof fn lemma_first_file_aside(disk: Disk, a: LogModel, b: LogModel, candidates: Seq<Seq<char>>)
    ensures
        resolver::first_file(disk, a, candidates).found == resolver::first_file(
            disk,
            b,
            candidates,
        ).found,
    decreases candidates.len(),
{
    if candidates.len() > 0 {
        lemma_first_file_aside(
            disk,
            resolver::ask(a, candidates[0]),
            resolver::ask(b, candidates[0]),
            candidates.skip(1),
        );
    }
}

proof fn lemma_directory_aside(
    disk: Disk,
    a: LogModel,
    b: LogModel,
    options: OptionsModel,
    directory: Seq<char>,
)
    ensures
        resolver::directory_file(disk, a, options, directory).found == resolver::directory_file(
            disk,
            b,
            options,
            directory,
        ).found,
{
    let m = resolver::manifest_at(disk, a, directory);
    let n = resolver::manifest_at(disk, b, directory);
    assert(m.found == n.found);
    if let Some(manifest) = m.found {
        lemma_first_file_aside(
            disk,
            m.log,
            n.log,
            resolver::directory_candidates(directory, manifest, options.extensions),
        );
    }
}

proof fn lemma_path_aside(
    disk: Disk,
    a: LogModel,
    b: LogModel,
    options: OptionsModel,
    p: Seq<char>,
)
    ensures
        resolver::path_file(disk, a, options, p).found == resolver::path_file(
            disk,
            b,
            options,
            p,
        ).found,
{
    let candidates = resolver::file_candidates(p, options.extensions);
    lemma_first_file_aside(disk, a, b, candidates);
    lemma_directory_aside(
        disk,
        resolver::first_file(disk, a, candidates).log,
        resolver::first_file(disk, b, candidates).log,
        options,
        p,
    );
}

proof fn lemma_package_aside(
    disk: Disk,
    a: LogModel,
    b: LogModel,
    options: OptionsModel,
    directory: Seq<char>,
    subpath: Seq<char>,
    kind: DependencyKind,
)
    ensures
        resolver::package_leads(disk, a, options, directory, subpath, kind).found
            == resolver::package_leads(disk, b, options, directory, subpath, kind).found,
{
    let m = resolver::manifest_at(disk, a, directory);
    let n = resolver::manifest_at(disk, b, directory);
    assert(m.found == n.found);
    match m.found {
        None => {},
        Some(None) => {
            lemma_directory_aside(disk, m.log, n.log, options, directory);
        },
        Some(Some(manifest)) => {
            if json::field(manifest, "exports"@) is None {
                lemma_inside_aside(
                    disk,
                    m.log,
                    n.log,
                    options,
                    directory,
                    json::text_field(manifest, "main"@),
                    subpath,
                );
            }
        },
    }
}

proof fn lemma_inside_aside(
    disk: Disk,
    a: LogModel,
    b: LogModel,
    options: OptionsModel,
    directory: Seq<char>,
    main: Option<Seq<char>>,
    subpath: Seq<char>,
)
    ensures
        ({
            let x = path::joined_path(directory, main->0);
            let y = path::joined_path(directory, resolver::without_dots(subpath));
            let p = resolver::path_file(disk, a, options, x);
            let q = resolver::path_file(disk, b, options, x);
            &&& main is Some ==> p.found == q.found
            &&& resolver::directory_file(disk, p.log, options, directory).found
                == resolver::directory_file(disk, q.log, options, directory).found
            &&& resolver::directory_file(disk, a, options, directory).found
                == resolver::directory_file(disk, b, options, directory).found
            &&& resolver::path_file(disk, a, options, y).found == resolver::path_file(
                disk,
                b,
                options,
                y,
            ).found
        }),
{
    let x = path::joined_path(directory, main->0);
    let y = path::joined_path(directory, resolver::without_dots(subpath));
    lemma_path_aside(disk, a, b, options, x);
    lemma_path_aside(disk, a, b, options, y);
    lemma_directory_aside(disk, a, b, options, directory);
    lemma_directory_aside(
        disk,
        resolver::path_file(disk, a, options, x).log,
        resolver::path_file(disk, b, options, x).log,
        options,
        directory,
    );
}

proof fn lemma_bare_aside(
    disk: Disk,
    a: LogModel,
    b: LogModel,
    options: OptionsModel,
    root: Seq<char>,
    current: Seq<char>,
    package: Seq<char>,
    subpath: Seq<char>,
    kind: DependencyKind,
)
    ensures
        resolver::bare_leads(disk, a, options, root, current, package, subpath, kind).found
            == resolver::bare_leads(
            disk,
            b,
            options,
            root,
            current,
            package,
            subpath,
            kind,
        ).found,
    decreases current.len(),
{
    let directory = path::joined_path(path::joined_path(current, "node_modules"@), package);
    lemma_package_aside(disk, a, b, options, directory, subpath, kind);
    if let Some(parent) = resolver::next_up(current, root) {
        let skipped = path::file_name_of(current) == Some("node_modules"@);
        let x = resolver::package_leads(disk, a, options, directory, subpath, kind).log;
        let y = resolver::package_leads(disk, b, options, directory, subpath, kind).log;
        if skipped {
            lemma_bare_aside(disk, a, b, options, root, parent, package, subpath, kind);
        } else {
            lemma_bare_aside(disk, x, y, options, root, parent, package, subpath, kind);
        }
    }
}

/// Where a specifier leads depends on what is on disk, and not on what was asked
/// before.
pub proof fn questions_change_nothing(
    disk: Disk,
    a: LogModel,
    b: LogModel,
    options: OptionsModel,
    root: Seq<char>,
    from: Seq<char>,
    specifier: Seq<char>,
    kind: DependencyKind,
)
    ensures
        resolver::specifier_leads(disk, a, options, root, from, specifier, kind).found
            == resolver::specifier_leads(disk, b, options, root, from, specifier, kind).found,
{
    lemma_path_aside(disk, a, b, options, path::joined_path(from, specifier));
    let (package, subpath) = exports::bare_parts(specifier);
    lemma_bare_aside(disk, a, b, options, root, from, package, subpath, kind);
}

// ---------------------------------------------------------------------------
// Bare specifiers.

/// Whether a specifier is one for a package: not a path, not a builtin, and neither
/// empty nor an import of the package's own.
pub open spec fn is_bare(s: Seq<char>) -> bool {
    &&& s.len() > 0 && s[0] != '#' && s[0] != '.' && s[0] != '/'
    &&& !text::begins(s, "node:"@)
    &&& !exports::is_builtin_name(exports::head_of(s))
}

proof fn lemma_bare(
    disk: Disk,
    log: LogModel,
    options: OptionsModel,
    root: Seq<char>,
    from: Seq<char>,
    specifier: Seq<char>,
    kind: DependencyKind,
)
    requires
        is_bare(specifier),
    ensures
        ({
            let (package, subpath) = exports::bare_parts(specifier);
            resolver::specifier_leads(disk, log, options, root, from, specifier, kind)
                == resolver::bare_leads(disk, log, options, root, from, package, subpath, kind)
        }),
{
    reveal_strlit("./");
    reveal_strlit("../");
    reveal_strlit(".");
    reveal_strlit("..");
    assert(!text::begins(specifier, "./"@)) by {
        if text::begins(specifier, "./"@) {
            assert(specifier.take(2)[0] == specifier[0]);
        }
    }
    assert(!text::begins(specifier, "../"@)) by {
        if text::begins(specifier, "../"@) {
            assert(specifier.take(3)[0] == specifier[0]);
        }
    }
    assert(specifier != "."@ && specifier != ".."@) by {
        assert("."@[0] == '.' && ".."@[0] == '.');
    }
}

/// A bare specifier leads where the package of its name leads that is installed
/// nearest: in the `node_modules` next to the importing file, else as it would from the
/// directory above, up to the project's root and no further. A `node_modules` directory
/// has none of its own.
pub proof fn nearest_packages_are_taken(
    disk: Disk,
    log: LogModel,
    options: OptionsModel,
    root: Seq<char>,
    from: Seq<char>,
    specifier: Seq<char>,
    kind: DependencyKind,
)
    requires
        is_bare(specifier),
    ensures
        ({
            let (package, subpath) = exports::bare_parts(specifier);
            let directory = path::joined_path(path::joined_path(from, "node_modules"@), package);
            let inside = path::file_name_of(from) == Some("node_modules"@);
            let here = resolver::package_leads(
                disk,
                log,
                options,
                directory,
                subpath,
                kind,
            ).found;
            let found = resolver::specifier_leads(
                disk,
                log,
                options,
                root,
                from,
                specifier,
                kind,
            ).found;
            &&& !inside && (here matches Some(Some(_))) ==> found == here->0
            &&& (inside || here == Some(None::<Destination>)) ==> match path::parent_of(from) {
                Some(parent) => if from != root && path::within_path(parent, root) && parent.len()
                    < from.len() {
                    found == resolver::specifier_leads(
                        disk,
                        log,
                        options,
                        root,
                        parent,
                        specifier,
                        kind,
                    ).found
                } else {
                    found matches Some(Destination::Unresolved(_))
                },
                None => found matches Some(Destination::Unresolved(_)),
            }
        }),
{
    let (package, subpath) = exports::bare_parts(specifier);
    let directory = path::joined_path(path::joined_path(from, "node_modules"@), package);
    lemma_bare(disk, log, options, root, from, specifier, kind);
    let inside = path::file_name_of(from) == Some("node_modules"@);
    let q = resolver::package_leads(disk, log, options, directory, subpath, kind);
    if let Some(parent) = resolver::next_up(from, root) {
        lemma_bare(disk, log, options, root, parent, specifier, kind);
        let then = if inside {
            log
        } else {
            q.log
        };
        lemma_bare_aside(disk, then, log, options, root, parent, package, subpath, kind);
    }
}

/// The bare specifier of a package, with a scope or without, leads to the file that its
/// manifest names as `main`, whatever else the manifest says, and to its index where the
/// manifest names none.
pub proof fn bare_specifiers_lead_to_the_main_file(
    disk: Disk,
    log: LogModel,
    options: OptionsModel,
    root: Seq<char>,
    from: Seq<char>,
    package: Seq<char>,
    kind: DependencyKind,
    manifest: JsonModel,
    main: Seq<char>,
    i: int,
)
    requires
        is_bare(package),
        exports::bare_parts(package) == (package, "."@),
        path::file_name_of(from) != Some("node_modules"@),
        has_manifest(
            disk,
            path::joined_path(path::joined_path(from, "node_modules"@), package),
            manifest,
        ),
        json::is_silent(manifest, "exports"@),
    ensures
        ({
            let directory = path::joined_path(path::joined_path(from, "node_modules"@), package);
            let named = path::joined_path(directory, main);
            let index = path::joined_path(directory, "index"@);
            let found = resolver::specifier_leads(
                disk,
                log,
                options,
                root,
                from,
                package,
                kind,
            ).found;
            &&& json::says(manifest, "main"@, JsonModel::Text(main)) && is_file(disk, named)
                ==> found == Some(Destination::Path(named))
            &&& json::says(manifest, "main"@, JsonModel::Text(main)) && is_absent(disk, named)
                && is_extended(disk, named, options.extensions, i) ==> found == Some(
                Destination::Path(path::normal(named + options.extensions[i])),
            )
            &&& json::is_silent(manifest, "main"@) && is_extended(
                disk,
                index,
                options.extensions,
                i,
            ) ==> found == Some(Destination::Path(path::normal(index + options.extensions[i])))
        }),
{
    let directory = path::joined_path(path::joined_path(from, "node_modules"@), package);
    nearest_packages_are_taken(disk, log, options, root, from, package, kind);
    packages_lead_to_their_main_file(disk, log, options, directory, manifest, kind, main, i);
}

// ---------------------------------------------------------------------------
// Paths.

/// Whether a specifier is a path: it starts with `./`, `../` or `/`, or is `.` or `..`.
pub open spec fn is_path(s: Seq<char>) -> bool {
    ||| s.len() >= 1 && s[0] == '/'
    ||| s.len() >= 2 && s[0] == '.' && s[1] == '/'
    ||| s.len() >= 3 && s[0] == '.' && s[1] == '.' && s[2] == '/'
    ||| s == seq!['.']
    ||| s == seq!['.', '.']
}

/// Whether TypeScript emits a file with one extension from one with another.
pub open spec fn is_emitted(from: Seq<char>, to: Seq<char>) -> bool {
    ||| from == ".ts"@ && to == ".js"@
    ||| from == ".tsx"@ && to == ".js"@
    ||| from == ".mts"@ && to == ".mjs"@
    ||| from == ".cts"@ && to == ".cjs"@
}

/// Whether a path is that of a source that TypeScript emits a file from.
pub open spec fn is_source(q: Seq<char>, p: Seq<char>) -> bool {
    exists|stem: Seq<char>, from: Seq<char>, to: Seq<char>|
        #![trigger stem + from, stem + to]
        is_emitted(from, to) && p == stem + to && q == path::normal(stem + from)
}

/// Whether a path stands for no file: not as it is, with no extension, and as no file
/// that TypeScript emits.
pub open spec fn is_no_file(disk: Disk, p: Seq<char>, extensions: Seq<Seq<char>>) -> bool {
    &&& is_absent(disk, p)
    &&& forall|j: int|
        0 <= j < extensions.len() ==> is_absent(disk, path::normal(p + #[trigger] extensions[j]))
    &&& forall|q: Seq<char>| #[trigger] is_source(q, p) ==> is_absent(disk, q)
}

proof fn lemma_path(
    disk: Disk,
    log: LogModel,
    options: OptionsModel,
    root: Seq<char>,
    from: Seq<char>,
    specifier: Seq<char>,
    kind: DependencyKind,
)
    requires
        is_path(specifier),
    ensures
        ({
            let q = resolver::path_file(disk, log, options, path::joined_path(from, specifier));
            let found = resolver::specifier_leads(
                disk,
                log,
                options,
                root,
                from,
                specifier,
                kind,
            ).found;
            &&& q.found matches Some(Some(p)) ==> found == Some(Destination::Path(p))
            &&& q.found == Some(None::<Seq<char>>) ==> (found matches Some(
                Destination::Unresolved(_),
            ))
        }),
{
    lemma_path_like(specifier);
}

proof fn lemma_path_like(specifier: Seq<char>)
    requires
        is_path(specifier),
    ensures
        !text::begins(specifier, "node:"@),
        !exports::is_builtin_name(exports::head_of(specifier)),
        specifier.len() > 0 && specifier[0] != '#',
        resolver::is_path_like(specifier),
{
    reveal_strlit("./");
    reveal_strlit("../");
    reveal_strlit(".");
    reveal_strlit("..");
    reveal_strlit("node:");
    assert(!text::begins(specifier, "node:"@)) by {
        if text::begins(specifier, "node:"@) {
            assert(specifier.take(5)[0] == specifier[0]);
            assert("node:"@[0] == 'n');
        }
    }
    assert(!exports::is_builtin_name(exports::head_of(specifier))) by {
        lemma_no_builtin(specifier);
    }
    assert("."@ =~= seq!['.'] && ".."@ =~= seq!['.', '.']);
    assert("./"@ =~= seq!['.', '/'] && "../"@ =~= seq!['.', '.', '/']);
    if specifier.len() >= 2 && specifier[0] == '.' && specifier[1] == '/' {
        assert(specifier.take(2) =~= "./"@);
    }
    if specifier.len() >= 3 && specifier[0] == '.' && specifier[1] == '.' && specifier[2] == '/' {
        assert(specifier.take(3) =~= "../"@);
    }
}

proof fn lemma_no_builtin(specifier: Seq<char>)
    requires
        specifier.len() > 0,
        specifier[0] == '.' || specifier[0] == '/',
    ensures
        !exports::is_builtin_name(exports::head_of(specifier)),
{
    let head = exports::head_of(specifier);
    text::lemma_first_index(specifier, '/');
    if exports::is_builtin_name(head) {
        exports::builtins_are_no_paths(head);
        assert(head[0] == specifier[0]);
    }
}

/// A path leads to the file that it names, else to the one that it names with the first
/// extension that makes it one.
pub proof fn paths_lead_to_their_files(
    disk: Disk,
    log: LogModel,
    options: OptionsModel,
    root: Seq<char>,
    from: Seq<char>,
    specifier: Seq<char>,
    kind: DependencyKind,
    i: int,
)
    requires
        is_path(specifier),
    ensures
        ({
            let p = path::joined_path(from, specifier);
            let found = resolver::specifier_leads(
                disk,
                log,
                options,
                root,
                from,
                specifier,
                kind,
            ).found;
            &&& is_file(disk, p) ==> found == Some(Destination::Path(p))
            &&& is_absent(disk, p) && is_extended(disk, p, options.extensions, i) ==> found == Some(
                Destination::Path(path::normal(p + options.extensions[i])),
            )
        }),
{
    lemma_path(disk, log, options, root, from, specifier, kind);
    lemma_path_file(disk, log, options, path::joined_path(from, specifier), i);
}

proof fn lemma_rewritten(p: Seq<char>, stem: Seq<char>, to: Seq<char>, from: Seq<char>)
    requires
        p == stem + to,
    ensures
        resolver::rewritten(p, to, from) == seq![path::normal(stem + from)],
{
    assert(p.skip(p.len() - to.len()) =~= to);
    assert(p.take(p.len() - to.len()) =~= stem);
}

proof fn lemma_rewritten_from(p: Seq<char>, to: Seq<char>, from: Seq<char>)
    requires
        is_emitted(from, to),
    ensures
        forall|i: int|
            0 <= i < resolver::rewritten(p, to, from).len() ==> is_source(
                #[trigger] resolver::rewritten(p, to, from)[i],
                p,
            ),
{
    if text::ends(p, to) {
        let stem = p.take(p.len() - to.len());
        assert(p =~= stem + to);
        assert(path::normal(stem + from) == resolver::rewritten(p, to, from)[0]);
        assert(is_source(path::normal(stem + from), p));
    }
}

/// The file candidates of a path behind the path itself and its extensions.
proof fn lemma_candidates(p: Seq<char>, extensions: Seq<Seq<char>>)
    ensures
        ({
            let all = resolver::file_candidates(p, extensions);
            &&& all.len() >= 1 + extensions.len()
            &&& all[0] == p
            &&& forall|j: int|
                0 <= j < extensions.len() ==> #[trigger] all[1 + j] == path::normal(
                    p + extensions[j],
                )
            &&& forall|j: int|
                1 + extensions.len() <= j < all.len() ==> is_source(#[trigger] all[j], p)
        }),
{
    let all = resolver::file_candidates(p, extensions);
    let ext = resolver::with_suffixes(p, extensions);
    let a = resolver::rewritten(p, ".js"@, ".ts"@);
    let b = resolver::rewritten(p, ".js"@, ".tsx"@);
    let c = resolver::rewritten(p, ".mjs"@, ".mts"@);
    let d = resolver::rewritten(p, ".cjs"@, ".cts"@);
    lemma_rewritten_from(p, ".js"@, ".ts"@);
    lemma_rewritten_from(p, ".js"@, ".tsx"@);
    lemma_rewritten_from(p, ".mjs"@, ".mts"@);
    lemma_rewritten_from(p, ".cjs"@, ".cts"@);
    let n = 1 + extensions.len() as int;
    assert forall|j: int| 0 <= j < extensions.len() implies #[trigger] all[1 + j] == path::normal(
        p + extensions[j],
    ) by {
        assert(all[1 + j] == ext[j]);
    }
    assert forall|j: int| n <= j < all.len() implies is_source(#[trigger] all[j], p) by {
        if j < n + a.len() {
            assert(all[j] == a[j - n]);
        } else if j < n + a.len() + b.len() {
            assert(all[j] == b[j - n - a.len()]);
        } else if j < n + a.len() + b.len() + c.len() {
            assert(all[j] == c[j - n - a.len() - b.len()]);
        } else {
            assert(all[j] == d[j - n - a.len() - b.len() - c.len()]);
        }
    }
}

proof fn lemma_nothing_there(disk: Disk, log: LogModel, options: OptionsModel, p: Seq<char>)
    requires
        is_no_file(disk, p, options.extensions),
    ensures
        resolver::path_file(disk, log, options, p).found == resolver::directory_file(
            disk,
            log,
            options,
            p,
        ).found,
{
    let all = resolver::file_candidates(p, options.extensions);
    lemma_candidates(p, options.extensions);
    assert forall|j: int| 0 <= j < all.len() implies is_absent(disk, #[trigger] all[j]) by {
        if j == 0 {
        } else if j < 1 + options.extensions.len() {
            assert(all[1 + (j - 1)] == path::normal(p + options.extensions[j - 1]));
        } else {
            assert(is_source(all[j], p));
        }
    }
    lemma_no_file(disk, log, all);
    lemma_directory_aside(disk, resolver::first_file(disk, log, all).log, log, options, p);
}

/// A path that is no file, as it is or with an extension, leads to the source that
/// TypeScript would emit it from: `a.js` to `a.ts`, or else to `a.tsx`; `a.mjs` to
/// `a.mts`; `a.cjs` to `a.cts`.
pub proof fn emitted_names_lead_to_sources(
    disk: Disk,
    log: LogModel,
    options: OptionsModel,
    root: Seq<char>,
    from: Seq<char>,
    specifier: Seq<char>,
    kind: DependencyKind,
    stem: Seq<char>,
)
    requires
        is_path(specifier),
        is_absent(disk, path::joined_path(from, specifier)),
        forall|j: int|
            0 <= j < options.extensions.len() ==> is_absent(
                disk,
                path::normal(path::joined_path(from, specifier) + #[trigger] options.extensions[j]),
            ),
    ensures
        ({
            let p = path::joined_path(from, specifier);
            let ts = path::normal(stem + ".ts"@);
            let tsx = path::normal(stem + ".tsx"@);
            let mts = path::normal(stem + ".mts"@);
            let cts = path::normal(stem + ".cts"@);
            let found = resolver::specifier_leads(
                disk,
                log,
                options,
                root,
                from,
                specifier,
                kind,
            ).found;
            &&& p == stem + ".js"@ && is_file(disk, ts) ==> found == Some(Destination::Path(ts))
            &&& p == stem + ".js"@ && is_absent(disk, ts) && is_file(disk, tsx) ==> found == Some(
                Destination::Path(tsx),
            )
            &&& p == stem + ".mjs"@ && is_file(disk, mts) ==> found == Some(Destination::Path(mts))
            &&& p == stem + ".cjs"@ && is_file(disk, cts) ==> found == Some(Destination::Path(cts))
        }),
{
    let p = path::joined_path(from, specifier);
    lemma_path(disk, log, options, root, from, specifier, kind);
    let all = resolver::file_candidates(p, options.extensions);
    let n = 1 + options.extensions.len() as int;
    lemma_candidates(p, options.extensions);
    assert forall|j: int| 0 <= j < n implies is_absent(disk, #[trigger] all[j]) by {
        if j > 0 {
            assert(all[1 + (j - 1)] == path::normal(p + options.extensions[j - 1]));
        }
    }
    reveal_strlit(".js");
    reveal_strlit(".mjs");
    reveal_strlit(".cjs");
    let head = seq![p] + resolver::with_suffixes(p, options.extensions);
    let a = resolver::rewritten(p, ".js"@, ".ts"@);
    let b = resolver::rewritten(p, ".js"@, ".tsx"@);
    let c = resolver::rewritten(p, ".mjs"@, ".mts"@);
    let d = resolver::rewritten(p, ".cjs"@, ".cts"@);
    assert(all == head + a + b + c + d);
    if p == stem + ".js"@ {
        lemma_rewritten(p, stem, ".js"@, ".ts"@);
        lemma_rewritten(p, stem, ".js"@, ".tsx"@);
        assert(all[n] == a[0]);
        assert(all[n + 1] == b[0]);
        if is_file(disk, path::normal(stem + ".ts"@)) {
            lemma_first_file(disk, log, all, n);
        } else if is_absent(disk, path::normal(stem + ".ts"@)) && is_file(
            disk,
            path::normal(stem + ".tsx"@),
        ) {
            lemma_first_file(disk, log, all, n + 1);
        }
    }
    if p == stem + ".mjs"@ {
        lemma_rewritten(p, stem, ".mjs"@, ".mts"@);
        assert(p.skip(p.len() - 3)[0] == 'm');
        assert(".js"@[0] == '.');
        assert(a.len() == 0 && b.len() == 0);
        assert(all[n] == c[0]);
        if is_file(disk, path::normal(stem + ".mts"@)) {
            lemma_first_file(disk, log, all, n);
        }
    }
    if p == stem + ".cjs"@ {
        lemma_rewritten(p, stem, ".cjs"@, ".cts"@);
        assert(p.skip(p.len() - 3)[0] == 'c');
        assert(p.skip(p.len() - 4)[1] == 'c');
        assert(".js"@[0] == '.');
        assert(".mjs"@[1] == 'm');
        assert(a.len() == 0 && b.len() == 0 && c.len() == 0);
        assert(all[n] == d[0]);
        if is_file(disk, path::normal(stem + ".cts"@)) {
            lemma_first_file(disk, log, all, n);
        }
    }
}

/// A path that stands for no file leads to what it means as a directory: the `main` of
/// its manifest where it names a file there, its index where there is no manifest or
/// none with a `main`, and nowhere where there is no index either.
pub proof fn paths_of_directories_lead_to_their_index(
    disk: Disk,
    log: LogModel,
    options: OptionsModel,
    root: Seq<char>,
    from: Seq<char>,
    specifier: Seq<char>,
    kind: DependencyKind,
    manifest: JsonModel,
    main: Seq<char>,
    i: int,
)
    requires
        is_path(specifier),
        is_no_file(disk, path::joined_path(from, specifier), options.extensions),
    ensures
        ({
            let p = path::joined_path(from, specifier);
            let index = path::joined_path(p, "index"@);
            let named = path::joined_path(p, main);
            let found = resolver::specifier_leads(
                disk,
                log,
                options,
                root,
                from,
                specifier,
                kind,
            ).found;
            let unmarked = is_absent(disk, path::joined_path(p, "package.json"@)) || (has_manifest(
                disk,
                p,
                manifest,
            ) && json::is_silent(manifest, "main"@));
            &&& has_manifest(disk, p, manifest) && json::says(
                manifest,
                "main"@,
                JsonModel::Text(main),
            ) && is_file(disk, named) ==> found == Some(Destination::Path(named))
            &&& unmarked && is_extended(disk, index, options.extensions, i) ==> found == Some(
                Destination::Path(path::normal(index + options.extensions[i])),
            )
            &&& unmarked && (forall|j: int|
                0 <= j < options.extensions.len() ==> is_absent(
                    disk,
                    path::normal(index + #[trigger] options.extensions[j]),
                )) ==> (found matches Some(Destination::Unresolved(_)))
        }),
{
    let p = path::joined_path(from, specifier);
    let index = path::joined_path(p, "index"@);
    lemma_path(disk, log, options, root, from, specifier, kind);
    lemma_nothing_there(disk, log, options, p);
    json::fields_are_entries(manifest, "main"@);
    let m = resolver::manifest_at(disk, log, p);
    if has_manifest(disk, p, manifest) {
        assert(m.found == Some(Some(manifest)));
        if json::says(manifest, "main"@, JsonModel::Text(main)) && is_file(
            disk,
            path::joined_path(p, main),
        ) {
            let all = resolver::directory_candidates(p, Some(manifest), options.extensions);
            assert(all[0] == path::joined_path(p, main));
            lemma_first_file(disk, m.log, all, 0);
        }
    }
    let unmarked = is_absent(disk, path::joined_path(p, "package.json"@)) || (has_manifest(
        disk,
        p,
        manifest,
    ) && json::is_silent(manifest, "main"@));
    if unmarked && is_extended(disk, index, options.extensions, i) {
        lemma_index(disk, log, options, p, i);
    }
    if unmarked && (forall|j: int|
        0 <= j < options.extensions.len() ==> is_absent(
            disk,
            path::normal(index + #[trigger] options.extensions[j]),
        )) {
        let all = resolver::with_suffixes(index, options.extensions);
        assert(resolver::directory_candidates(p, m.found->0, options.extensions) == all);
        assert forall|j: int| 0 <= j < all.len() implies is_absent(disk, #[trigger] all[j]) by {
            assert(all[j] == path::normal(index + options.extensions[j]));
        }
        lemma_no_file(disk, m.log, all);
    }
}

/// `node:` in front of a name means the builtin of that name, and no file.
pub proof fn node_names_builtins(
    disk: Disk,
    log: LogModel,
    options: OptionsModel,
    root: Seq<char>,
    from: Seq<char>,
    name: Seq<char>,
    kind: DependencyKind,
)
    ensures
        resolver::specifier_leads(disk, log, options, root, from, "node:"@ + name, kind)
            == (Inquiry { log, found: Some(Destination::Builtin(name)) }),
{
    let s = "node:"@ + name;
    assert(s.take("node:"@.len() as int) =~= "node:"@);
    assert(s.skip("node:"@.len() as int) =~= name);
}

/// The name of a builtin means the builtin, whatever packages there are, and so does a
/// path below one. An import of the package's own, and no specifier at all, lead nowhere.
pub proof fn builtins_come_before_packages(
    disk: Disk,
    log: LogModel,
    options: OptionsModel,
    root: Seq<char>,
    from: Seq<char>,
    name: Seq<char>,
    rest: Seq<char>,
    kind: DependencyKind,
)
    ensures
        exports::is_builtin_name(name) && !name.contains('/') && !text::begins(name, "node:"@) ==> (
        resolver::specifier_leads(disk, log, options, root, from, name, kind).found == Some(
            Destination::Builtin(name),
        ) && (!text::begins(name + seq!['/'] + rest, "node:"@) ==> resolver::specifier_leads(
            disk,
            log,
            options,
            root,
            from,
            name + seq!['/'] + rest,
            kind,
        ).found == Some(Destination::Builtin(name + seq!['/'] + rest)))),
        exports::is_builtin_name("fs"@) && exports::is_builtin_name("path"@)
            && exports::is_builtin_name("http"@) && exports::is_builtin_name("crypto"@),
        name.len() > 0 && name[0] == '#' && !exports::is_builtin_name(exports::head_of(name)) ==> (
        resolver::specifier_leads(disk, log, options, root, from, name, kind).found matches Some(
            Destination::Unresolved(_),
        )),
{
    reveal_strlit("node:");
    let longer = name + seq!['/'] + rest;
    if !name.contains('/') {
        text::lemma_first_index(name, '/');
        if exports::head_of(name) != name {
            let at = text::first_index(name, '/') as int;
            assert(name.take(name.len() as int) =~= name);
            assert(name[at] == '/');
            assert(name.contains('/'));
        }
        assert forall|j: int| 0 <= j < name.len() implies #[trigger] longer[j] != '/' by {
            assert(longer[j] == name[j]);
        }
        text::lemma_first_index_is(longer, '/', name.len() as int);
        assert(longer.take(name.len() as int) =~= name);
    }
    if name.len() > 0 && name[0] == '#' && text::begins(name, "node:"@) {
        assert(name.take(5)[0] == name[0]);
    }
}

// ---------------------------------------------------------------------------
// Module systems.

proof fn lemma_system_aside(
    disk: Disk,
    a: LogModel,
    b: LogModel,
    root: Seq<char>,
    current: Seq<char>,
)
    ensures
        resolver::system_from(disk, a, root, current).found == resolver::system_from(
            disk,
            b,
            root,
            current,
        ).found,
    decreases current.len(),
{
    let m = resolver::manifest_at(disk, a, current);
    let n = resolver::manifest_at(disk, b, current);
    assert(m.found == n.found);
    if let Some(parent) = resolver::next_up(current, root) {
        lemma_system_aside(disk, m.log, n.log, root, parent);
    }
}

/// Which module system a file is for depends on what is on disk, and not on what was
/// asked before.
pub proof fn module_systems_rest_on_the_disk(
    disk: Disk,
    a: LogModel,
    b: LogModel,
    root: Seq<char>,
    p: Seq<char>,
)
    ensures
        resolver::system_of(disk, a, root, p).found == resolver::system_of(
            disk,
            b,
            root,
            p,
        ).found,
{
    if let Some(parent) = path::parent_of(p) {
        lemma_system_aside(disk, a, b, root, parent);
    }
}

/// A source file is an ES module where its extension says so, and else where the nearest
/// manifest has `"type": "module"`; any other manifest, and none at all, make it a
/// CommonJS one. What is no source has no module system.
pub proof fn manifests_decide_module_systems(
    disk: Disk,
    log: LogModel,
    root: Seq<char>,
    p: Seq<char>,
    directory: Seq<char>,
    manifest: JsonModel,
)
    requires
        path::parent_of(p) == Some(directory),
    ensures
        ({
            let found = resolver::system_of(disk, log, root, p).found;
            let extension = path::extension_of(p);
            let is_source = !(resolver::kind_of(p) is Json) && !(resolver::kind_of(p) is Opaque);
            let is_open = extension != Some("mjs"@) && extension != Some("mts"@) && extension
                != Some("cjs"@) && extension != Some("cts"@);
            &&& !is_source ==> found == Some(ModuleSystem::NotApplicable)
            &&& is_source && (extension == Some("mjs"@) || extension == Some("mts"@)) ==> found
                == Some(ModuleSystem::Esm)
            &&& is_source && (extension == Some("cjs"@) || extension == Some("cts"@)) ==> found
                == Some(ModuleSystem::Cjs)
            &&& is_source && is_open && has_manifest(disk, directory, manifest) ==> {
                &&& json::says(manifest, "type"@, JsonModel::Text("module"@)) ==> found == Some(
                    ModuleSystem::Esm,
                )
                &&& json::is_silent(manifest, "type"@) ==> found == Some(ModuleSystem::Cjs)
                &&& forall|other: JsonModel|
                    other != JsonModel::Text("module"@) && #[trigger] json::says(
                        manifest,
                        "type"@,
                        other,
                    ) ==> found == Some(ModuleSystem::Cjs)
            }
            &&& is_source && is_open && is_absent(
                disk,
                path::joined_path(directory, "package.json"@),
            ) ==> match path::parent_of(directory) {
                Some(above) => if directory != root && path::within_path(above, root) && above.len()
                    < directory.len() {
                    found == resolver::system_from(disk, log, root, above).found
                } else {
                    found == Some(ModuleSystem::Cjs)
                },
                None => found == Some(ModuleSystem::Cjs),
            }
        }),
{
    reveal_strlit("mjs");
    reveal_strlit("mts");
    reveal_strlit("cjs");
    reveal_strlit("cts");
    assert("mjs"@[0] == 'm' && "mts"@[0] == 'm' && "cjs"@[0] == 'c' && "cts"@[0] == 'c');
    json::fields_are_entries(manifest, "type"@);
    let m = resolver::manifest_at(disk, log, directory);
    if has_manifest(disk, directory, manifest) {
        assert(m.found == Some(Some(manifest)));
    }
    if let Some(above) = resolver::next_up(directory, root) {
        lemma_system_aside(disk, m.log, log, root, above);
    }
}

} // verus!
