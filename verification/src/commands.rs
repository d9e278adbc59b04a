//! What becomes of the commands of the packages in a tree.

use vstd::prelude::*;
use crate::link::{self, Places};
use crate::{order, path, sorted};

verus! {

// ---------------------------------------------------------------------------
// Which `.bin` serves a package.

/// A directory of a tree: the project itself, or one below it.
pub open spec fn is_directory(d: Seq<char>) -> bool {
    d == path::here() || path::is_tidy(d)
}

/// A name that is one segment of a path, and no `node_modules`.
pub open spec fn is_name(name: Seq<char>) -> bool {
    path::is_segment(name) && name != path::up() && path::root_len(name) == 0 && name
        != "node_modules"@
}

proof fn lemma_modules(d: Seq<char>)
    requires
        is_directory(d),
    ensures
        path::is_tidy(path::joined_path(d, "node_modules"@)),
        path::file_name_of(path::joined_path(d, "node_modules"@)) == Some("node_modules"@),
{
    reveal_strlit("node_modules");
    let modules = "node_modules"@;
    let letters = seq!['n', 'o', 'd', 'e', '_', 'm', 'o', 'd', 'u', 'l', 'e', 's'];
    assert(modules =~= letters);
    assert(!letters.contains('/') && !letters.contains('\\'));
    path::lemma_parent_tidy(d, modules);
}

/// The commands of a package are served by the `.bin` of the `node_modules` that the
/// package was put into, with a scope or without one.
pub proof fn node_modules_serve_their_packages(d: Seq<char>, scope: Seq<char>, name: Seq<char>)
    requires
        is_directory(d),
        is_name(scope) && is_name(name),
    ensures
        ({
            let modules = path::joined_path(d, "node_modules"@);
            &&& link::bin_owner_of(link::slot_of(d, name)) == Some(modules)
            &&& link::bin_owner_of(link::slot_of(d, scope + seq!['/'] + name)) == Some(modules)
            &&& path::file_name_of(modules) == Some("node_modules"@)
        }),
{
    let modules = path::joined_path(d, "node_modules"@);
    lemma_modules(d);
    path::lemma_parent_tidy(modules, name);
    path::lemma_parent_tidy(modules, scope);
    let inner = path::joined_path(modules, scope);
    path::lemma_parent_tidy(inner, name);
    path::lemma_name_is_tidy(scope);
    path::lemma_name_is_tidy(name);
    path::lemma_joined_tidy(scope, name);
    path::lemma_joined_tidy(modules, scope);
    path::lemma_joined_tidy(inner, name);
    let full = scope + seq!['/'] + name;
    assert(scope != path::here());
    path::lemma_joined_tidy(modules, full);
    assert(modules != path::here());
    assert(path::joined_path(modules, full) =~= path::joined_path(inner, name));
}

// ---------------------------------------------------------------------------
// Who shares a `.bin`.

/// The packages of a layout that a directory serves, in the order of the layout.
pub open spec fn served_by(layout: Places, owner: Seq<char>) -> Places {
    layout.filter(|e: (Seq<char>, crate::resolve::PackageIdModel)|
        link::bin_owner_of(e.0) == Some(owner))
}

/// A directory is listed with all the packages of the layout that its `.bin` serves,
/// and with no others; one that serves none is not listed.
pub proof fn every_package_is_served_once(layout: Places, owner: Seq<char>)
    ensures
        sorted::lookup(link::by_owner(layout), owner) == if served_by(layout, owner).len() == 0 {
            None
        } else {
            Some(served_by(layout, owner))
        },
        sorted::ascending(link::by_owner(layout)),
    decreases layout.len(),
{
    reveal(Seq::filter);
    if layout.len() > 0 {
        let front = layout.drop_last();
        every_package_is_served_once(front, owner);
        let before = link::by_owner(front);
        if let Some(o) = link::bin_owner_of(layout.last().0) {
            every_package_is_served_once(front, o);
            let list = match sorted::lookup(before, o) {
                Some(packages) => packages.push(layout.last()),
                None => seq![layout.last()],
            };
            sorted::lemma_put_lookup(before, o, list, owner);
            sorted::lemma_put_ascending(before, o, list);
            order::lemma_text_rank_injective(o, owner);
            if o == owner {
                assert(served_by(layout, owner) =~= served_by(front, owner).push(layout.last()));
                assert(list =~= served_by(layout, owner));
            }
        }
    }
}

// ---------------------------------------------------------------------------
// Shims.

/// Every command whose name is a file name has a shim of that name, in the order of the
/// commands; and no other has one.
pub proof fn commands_have_shims(
    owner: Seq<char>,
    p: Seq<char>,
    bin: Seq<(Seq<char>, Seq<char>)>,
)
    ensures
        link::shims(owner, p, bin).map_values(|s: link::BinLinkModel| s.command) == bin.filter(
            |e: (Seq<char>, Seq<char>)| !e.0.contains('/') && !e.0.contains('\\'),
        ).map_values(|e: (Seq<char>, Seq<char>)| e.0),
    decreases bin.len(),
{
    reveal(Seq::filter);
    let f = |s: link::BinLinkModel| s.command;
    let keep = |e: (Seq<char>, Seq<char>)| !e.0.contains('/') && !e.0.contains('\\');
    let g = |e: (Seq<char>, Seq<char>)| e.0;
    if bin.len() > 0 {
        let front = bin.drop_last();
        commands_have_shims(owner, p, front);
        let before = link::shims(owner, p, front);
        let all = link::shims(owner, p, bin);
        if keep(bin.last()) {
            assert(all.map_values(f) =~= before.map_values(f).push(bin.last().0));
            assert(bin.filter(keep).map_values(g) =~= front.filter(keep).map_values(g).push(
                bin.last().0,
            ));
        } else {
            assert(bin.filter(keep) =~= front.filter(keep));
        }
    } else {
        assert(link::shims(owner, p, bin).map_values(f) =~= bin.filter(keep).map_values(g));
    }
}

proof fn lemma_shim_from(
    owner: Seq<char>,
    p: Seq<char>,
    bin: Seq<(Seq<char>, Seq<char>)>,
    k: int,
) -> (i: int)
    requires
        0 <= k < link::shims(owner, p, bin).len(),
    ensures
        0 <= i < bin.len(),
        ({
            let shim = link::shims(owner, p, bin)[k];
            &&& shim.command == bin[i].0
            &&& shim.target == path::normal(bin[i].1)
            &&& shim.link == path::relative_path(
                path::joined_path(p, path::normal(bin[i].1)),
                path::joined_path(owner, ".bin"@),
            )
        }),
    decreases bin.len(),
{
    let front = bin.drop_last();
    let before = link::shims(owner, p, front);
    if k < before.len() {
        let i = lemma_shim_from(owner, p, front, k);
        assert(front[i] == bin[i]);
        i
    } else {
        bin.len() - 1
    }
}

/// A shim is for a command of the package, and leads from the `.bin` that holds it to
/// the file in the package that the command names.
pub proof fn shims_lead_to_their_files(
    owner: Seq<char>,
    p: Seq<char>,
    bin: Seq<(Seq<char>, Seq<char>)>,
    k: int,
)
    requires
        0 <= k < link::shims(owner, p, bin).len(),
        !path::joined_path(owner, ".bin"@).contains(':'),
        path::joined_path(owner, ".bin"@) != path::here(),
        forall|i: int|
            0 <= i < bin.len() ==> !path::joined_path(
                p,
                path::normal(#[trigger] bin[i].1),
            ).contains(':'),
    ensures
        ({
            let shim = link::shims(owner, p, bin)[k];
            exists|i: int|
                0 <= i < bin.len() && (#[trigger] bin[i]).0 == shim.command && (
                shim.link matches Some(way) ==> path::joined_path(
                    path::joined_path(owner, ".bin"@),
                    way,
                ) == path::joined_path(p, path::normal(bin[i].1)))
        }),
{
    let shim = link::shims(owner, p, bin)[k];
    let i = lemma_shim_from(owner, p, bin, k);
    let from = path::joined_path(owner, ".bin"@);
    let to = path::joined_path(p, path::normal(bin[i].1));
    reveal_strlit(".bin");
    let a = owner + seq!['/'] + ".bin"@;
    let file = path::normal(bin[i].1);
    let b = if path::root_len(file) > 0 {
        file
    } else {
        p + seq!['/'] + file
    };
    assert(from == path::normal(a));
    assert(to == path::normal(b));
    assert(!path::joined_path(p, path::normal(bin[i].1)).contains(':'));
    path::relative_paths_lead_back(b, a);
    assert(bin[i].0 == shim.command);
}

} // verus!
