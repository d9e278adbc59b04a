//! Why plans end.
//!
//! A plan places packages one by one, and what it places asks for more. It comes
//! to an end, dependency cycles or not, because a package is never placed below
//! itself: so directories nest no deeper than there are packages, there are only
//! so many of them, and a package is placed for each of them once.

use vstd::prelude::*;
use crate::link::{
    edges_of, holder_of, hosts_of, plan_after, plan_step, slot_of, Places, Plan, VisitModel,
};
use crate::order::Rank;
use crate::resolve::{PackageIdModel, Packages, ResolutionModel};
use crate::{link, order, path, resolve, sorted, text};

verus! {

// ---------------------------------------------------------------------------
// Directories.

/// A name that a package can be placed under: a path that leads down, and not
/// into another package.
pub open spec fn is_plain(name: Seq<char>) -> bool {
    path::is_tidy(name) && text::last_match(name, "node_modules/"@) is None
}

/// The project itself, or a path that leads down from it.
spec fn is_place(p: Seq<char>) -> bool {
    p == path::here() || path::is_tidy(p)
}

proof fn lemma_slot_text(directory: Seq<char>, name: Seq<char>)
    requires
        is_place(directory),
        is_plain(name),
    ensures
        ({
            let front = if directory == path::here() {
                Seq::empty()
            } else {
                directory + seq!['/']
            };
            slot_of(directory, name) == front + "node_modules/"@ + name
        }),
        path::is_tidy(slot_of(directory, name)),
{
    reveal_strlit("node_modules");
    reveal_strlit("node_modules/");
    let modules = "node_modules"@;
    let letters = seq!['n', 'o', 'd', 'e', '_', 'm', 'o', 'd', 'u', 'l', 'e', 's'];
    assert(modules =~= letters);
    assert(!letters.contains('/') && !letters.contains('\\'));
    path::lemma_name_is_tidy(modules);
    path::lemma_joined_tidy(directory, modules);
    let inner = path::joined_path(directory, modules);
    path::lemma_joined_tidy(inner, name);
    assert(modules + seq!['/'] =~= "node_modules/"@);
    let front = if directory == path::here() {
        Seq::empty()
    } else {
        directory + seq!['/']
    };
    assert(slot_of(directory, name) =~= front + "node_modules/"@ + name);
}

/// A slot is held by the directory that it is a slot of, and by no other name.
proof fn lemma_slot(directory: Seq<char>, name: Seq<char>)
    requires
        is_place(directory),
        is_plain(name),
    ensures
        path::is_tidy(slot_of(directory, name)),
        holder_of(slot_of(directory, name)) == Some(directory),
        hosts_of(slot_of(directory, name)) == hosts_of(directory).push(slot_of(directory, name)),
        slot_of(directory, name) != path::here(),
{
    lemma_slot_text(directory, name);
    let needle = "node_modules/"@;
    reveal_strlit("node_modules/");
    let front = if directory == path::here() {
        Seq::empty()
    } else {
        directory + seq!['/']
    };
    let slot = slot_of(directory, name);
    text::lemma_last_match_is(front, needle, name);
    assert(slot.take(front.len() as int) =~= front);
    if directory == path::here() {
        path::lemma_nothing_is_here();
    } else {
        path::lemma_tidy_directory(directory);
    }
}

proof fn lemma_slots_differ(directory: Seq<char>, a: Seq<char>, b: Seq<char>)
    requires
        is_place(directory),
        is_plain(a),
        is_plain(b),
        slot_of(directory, a) == slot_of(directory, b),
    ensures
        a == b,
{
    lemma_slot_text(directory, a);
    lemma_slot_text(directory, b);
    let slot = slot_of(directory, a);
    let at = slot.len() - a.len();
    assert(slot.skip(at) =~= a);
    assert(slot.skip(slot.len() - b.len()) =~= b);
}

/// The hosts of a host are the hosts up to it.
proof fn lemma_hosts(p: Seq<char>, j: int)
    requires
        0 <= j < hosts_of(p).len(),
    ensures
        hosts_of(hosts_of(p)[j]) == hosts_of(p).take(j + 1),
        j > 0 ==> holder_of(hosts_of(p)[j]) == Some(hosts_of(p)[j - 1]),
        hosts_of(p).last() == p,
    decreases hosts_of(p).len(),
{
    match holder_of(p) {
        Some(holder) => {
            let above = hosts_of(holder);
            if j == above.len() {
                assert(hosts_of(p).take(j + 1) =~= hosts_of(p));
                lemma_hosts(holder, above.len() - 1);
            } else {
                lemma_hosts(holder, j);
                assert(above.take(j + 1) =~= hosts_of(p).take(j + 1));
            }
        },
        None => {
            assert(hosts_of(p).take(1) =~= hosts_of(p));
        },
    }
}

// ---------------------------------------------------------------------------
// What can be planned.

/// Whether an id is that of a package, build metadata and all.
pub open spec fn is_key(packages: Packages, id: PackageIdModel) -> bool {
    exists|i: int| 0 <= i < packages.len() && (#[trigger] packages[i]).0 == id
}

/// Whether an id is that of a package, or of something that a package depends on.
pub open spec fn is_known(packages: Packages, id: PackageIdModel) -> bool {
    is_key(packages, id) || resolve::is_depended_on(packages, id)
}

/// Whether a resolution can be planned: all names are plain, no two ids differ in
/// their build metadata alone, and no package depends on two versions of one name.
pub open spec fn is_plannable(r: ResolutionModel) -> bool {
    &&& sorted::ascending(r.packages)
    &&& forall|id: PackageIdModel| #[trigger] is_known(r.packages, id) ==> is_plain(id.name)
    &&& forall|a: PackageIdModel, b: PackageIdModel|
        #[trigger] is_known(r.packages, a) && #[trigger] is_known(r.packages, b) && a.rank()
            == b.rank() ==> a == b
    &&& forall|id: PackageIdModel, a: int, b: int|
        0 <= a < edges_of(r.packages, id).len() && 0 <= b < edges_of(r.packages, id).len() && (
        #[trigger] edges_of(r.packages, id)[a]).name == (#[trigger] edges_of(
            r.packages,
            id,
        )[b]).name ==> resolve::edge_target(edges_of(r.packages, id)[a]) == resolve::edge_target(
            edges_of(r.packages, id)[b],
        )
}

/// What a package depends on is known.
proof fn lemma_edge_is_known(packages: Packages, id: PackageIdModel, e: int)
    requires
        0 <= e < edges_of(packages, id).len(),
    ensures
        is_known(packages, resolve::edge_target(edges_of(packages, id)[e])),
{
    let at = sorted::slot(packages, id) as int;
    assert(packages[at].1.dependencies[e] == edges_of(packages, id)[e]);
}

proof fn lemma_targets(
    requirements: Seq<resolve::RecordModel>,
    packages: Packages,
    n: nat,
    i: int,
)
    requires
        n <= requirements.len(),
        0 <= i < resolve::root_targets(requirements, packages, n).len(),
    ensures
        is_key(packages, resolve::root_targets(requirements, packages, n)[i]),
    decreases n,
{
    if i < resolve::root_targets(requirements, packages, (n - 1) as nat).len() {
        lemma_targets(requirements, packages, (n - 1) as nat, i);
    } else {
        resolve::lemma_root_version(requirements, packages, requirements[n - 1].name);
        let k = choose|k: int|
            0 <= k < packages.len() && (#[trigger] packages[k]).0 == resolve::root_targets(
                requirements,
                packages,
                n,
            )[i];
        assert(packages[k].0 == resolve::root_targets(requirements, packages, n)[i]);
    }
}

proof fn lemma_deduped<T>(list: Seq<T>, i: int)
    requires
        0 <= i < sorted::deduped(list).len(),
    ensures
        list.contains(sorted::deduped(list)[i]),
    decreases list.len(),
{
    let front = list.drop_last();
    if i < sorted::deduped(front).len() {
        lemma_deduped(front, i);
        let k = choose|k: int| 0 <= k < front.len() && front[k] == sorted::deduped(front)[i];
        assert(list[k] == sorted::deduped(list)[i]);
    } else {
        assert(list[list.len() - 1] == sorted::deduped(list)[i]);
    }
}

/// A root is a package of the resolution.
proof fn lemma_roots(r: ResolutionModel, i: int)
    requires
        0 <= i < resolve::roots_of(r).len(),
    ensures
        is_key(r.packages, resolve::roots_of(r)[i]),
{
    let targets = resolve::root_targets(r.requirements, r.packages, r.requirements.len());
    let list = sorted::stable_sorted(targets);
    let id = resolve::roots_of(r)[i];
    lemma_deduped(list, i);
    sorted::sorting_orders_and_keeps(targets);
    broadcast use vstd::seq_lib::group_to_multiset_ensures;

    assert(list.to_multiset().count(id) > 0);
    assert(targets.contains(id));
    let k = choose|k: int| 0 <= k < targets.len() && targets[k] == id;
    lemma_targets(r.requirements, r.packages, r.requirements.len(), k);
}

/// Whether the package at `directory`, or the project itself, asks for a package.
#[verifier::opaque]
spec fn asks(r: ResolutionModel, layout: Places, directory: Seq<char>, id: PackageIdModel) -> bool {
    if directory == path::here() {
        resolve::roots_of(r).contains(id)
    } else {
        match sorted::lookup(layout, directory) {
            Some(owner) => exists|e: int|
                0 <= e < edges_of(r.packages, owner).len() && resolve::edge_target(
                    #[trigger] edges_of(r.packages, owner)[e],
                ) == id,
            None => false,
        }
    }
}

proof fn lemma_asked_is_known(
    r: ResolutionModel,
    layout: Places,
    directory: Seq<char>,
    id: PackageIdModel,
)
    requires
        is_plannable(r),
        asks(r, layout, directory, id),
    ensures
        is_known(r.packages, id),
        is_plain(id.name),
{
    reveal(asks);
    if directory == path::here() {
        let roots = resolve::roots_of(r);
        let i = choose|i: int| 0 <= i < roots.len() && roots[i] == id;
        lemma_roots(r, i);
    } else {
        let owner = sorted::lookup(layout, directory)->0;
        let e = choose|e: int|
            0 <= e < edges_of(r.packages, owner).len() && resolve::edge_target(
                #[trigger] edges_of(r.packages, owner)[e],
            ) == id;
        lemma_edge_is_known(r.packages, owner, e);
    }
}

proof fn lemma_asked_once(
    r: ResolutionModel,
    layout: Places,
    directory: Seq<char>,
    a: PackageIdModel,
    b: PackageIdModel,
)
    requires
        is_plannable(r),
        asks(r, layout, directory, a),
        asks(r, layout, directory, b),
        a.name == b.name,
    ensures
        a == b,
{
    reveal(asks);
    if directory == path::here() {
        let roots = resolve::roots_of(r);
        let i = choose|i: int| 0 <= i < roots.len() && roots[i] == a;
        let j = choose|j: int| 0 <= j < roots.len() && roots[j] == b;
        resolve::lemma_roots_differ(r);
        assert(roots[i].name == roots[j].name);
    } else {
        let owner = sorted::lookup(layout, directory)->0;
        let i = choose|e: int|
            0 <= e < edges_of(r.packages, owner).len() && resolve::edge_target(
                #[trigger] edges_of(r.packages, owner)[e],
            ) == a;
        let j = choose|e: int|
            0 <= e < edges_of(r.packages, owner).len() && resolve::edge_target(
                #[trigger] edges_of(r.packages, owner)[e],
            ) == b;
        assert(edges_of(r.packages, owner)[i].name == edges_of(r.packages, owner)[j].name);
    }
}

// ---------------------------------------------------------------------------
// What every step keeps.

/// Whether a directory is the project or holds a package.
spec fn is_dir(layout: Places, d: Seq<char>) -> bool {
    d == path::here() || sorted::lookup(layout, d) is Some
}

/// Whether one directory hosts another that is not itself.
spec fn is_above(h: Seq<char>, d: Seq<char>) -> bool {
    exists|j: int| 0 <= j < hosts_of(d).len() - 1 && #[trigger] hosts_of(d)[j] == h
}

/// Whether a visit was made or waits.
spec fn is_seen(plan: Plan, visit: VisitModel) -> bool {
    sorted::holds(plan.visited, visit) || plan.queue.contains(visit)
}

/// Whether a visit was made or waits before the visit at `k`.
spec fn is_ahead(plan: Plan, k: int, visit: VisitModel) -> bool {
    sorted::holds(plan.visited, visit) || exists|j: int|
        0 <= j < k && #[trigger] plan.queue[j] == visit
}

/// Whether a package stands in a slot of a directory.
#[verifier::opaque]
spec fn is_well_placed(
    r: ResolutionModel,
    layout: Places,
    p: Seq<char>,
    id: PackageIdModel,
) -> bool {
    &&& is_known(r.packages, id)
    &&& path::is_tidy(p)
    &&& holder_of(p) is Some
    &&& is_dir(layout, holder_of(p)->0)
    &&& p == slot_of(holder_of(p)->0, id.name)
}

/// Whether a visit is on behalf of a directory that asks for the package.
spec fn is_asked(r: ResolutionModel, layout: Places, visit: VisitModel) -> bool {
    is_dir(layout, visit.owner) && asks(r, layout, visit.owner, visit.id)
}

/// Whether a package was placed by a visit that could see the place.
#[verifier::opaque]
spec fn was_put(plan: Plan, p: Seq<char>, id: PackageIdModel) -> bool {
    exists|i: int|
        0 <= i < plan.visited.len() && (#[trigger] plan.visited[i]).0.id == id && hosts_of(
            plan.visited[i].0.owner,
        ).contains(holder_of(p)->0)
}

/// Whether everything that directories above `d` ask for is visited.
#[verifier::opaque]
spec fn is_settled_above(r: ResolutionModel, plan: Plan, d: Seq<char>) -> bool {
    forall|h: Seq<char>, id: PackageIdModel|
        is_above(h, d) && #[trigger] asks(r, plan.layout, h, id) ==> sorted::holds(
            plan.visited,
            VisitModel { owner: h, id },
        )
}

/// Whether everything that directories above the owner at `k` ask for comes
/// before.
#[verifier::opaque]
spec fn waits_its_turn(r: ResolutionModel, plan: Plan, k: int) -> bool {
    forall|h: Seq<char>, id: PackageIdModel|
        is_above(h, plan.queue[k].owner) && #[trigger] asks(r, plan.layout, h, id) ==> is_ahead(
            plan,
            k,
            VisitModel { owner: h, id },
        )
}

/// Packages stand where directories can see them.
#[verifier::opaque]
spec fn has_places(r: ResolutionModel, plan: Plan) -> bool {
    forall|p: Seq<char>|
        (#[trigger] sorted::lookup(plan.layout, p)) matches Some(id) ==> is_well_placed(
            r,
            plan.layout,
            p,
            id,
        ) && was_put(plan, p, id)
}

/// No package stands below itself.
#[verifier::opaque]
spec fn never_nests_twice(plan: Plan) -> bool {
    forall|p: Seq<char>, h: Seq<char>|
        sorted::lookup(plan.layout, p) is Some && #[trigger] is_above(h, p) ==> sorted::lookup(
            plan.layout,
            h,
        ) != sorted::lookup(plan.layout, p)
}

/// Visits were asked for, and made after those of the directories above.
#[verifier::opaque]
spec fn visits_in_turn(r: ResolutionModel, plan: Plan) -> bool {
    forall|i: int|
        0 <= i < plan.visited.len() ==> is_asked(r, plan.layout, (#[trigger] plan.visited[i]).0)
            && is_settled_above(r, plan, plan.visited[i].0.owner)
}

/// Visits that wait were asked for, and wait behind those of the directories
/// above.
#[verifier::opaque]
spec fn waits_in_turn(r: ResolutionModel, plan: Plan) -> bool {
    forall|k: int|
        0 <= k < plan.queue.len() ==> is_asked(r, plan.layout, #[trigger] plan.queue[k])
            && waits_its_turn(r, plan, k)
}

/// Whatever is asked for is visited or waits.
#[verifier::opaque]
spec fn hears_everyone(r: ResolutionModel, plan: Plan) -> bool {
    forall|d: Seq<char>, id: PackageIdModel| #[trigger]
        asks(r, plan.layout, d, id) ==> is_seen(plan, VisitModel { owner: d, id })
}

/// What holds of a plan after every step.
spec fn is_orderly(r: ResolutionModel, plan: Plan) -> bool {
    &&& sorted::ascending(plan.layout)
    &&& sorted::ascending(plan.visited)
    &&& has_places(r, plan)
    &&& never_nests_twice(plan)
    &&& visits_in_turn(r, plan)
    &&& waits_in_turn(r, plan)
    &&& hears_everyone(r, plan)
}

/// Where a package stands.
proof fn lemma_stands(r: ResolutionModel, plan: Plan, d: Seq<char>)
    requires
        is_orderly(r, plan),
        sorted::lookup(plan.layout, d) is Some,
    ensures
        is_known(r.packages, sorted::lookup(plan.layout, d)->0),
        path::is_tidy(d),
        holder_of(d) is Some,
        is_dir(plan.layout, holder_of(d)->0),
        d == slot_of(holder_of(d)->0, sorted::lookup(plan.layout, d)->0.name),
{
    reveal(has_places);
    reveal(is_well_placed);
    assert(is_well_placed(r, plan.layout, d, sorted::lookup(plan.layout, d)->0));
}

/// The hosts of a directory are directories.
proof fn lemma_hosts_are_dirs(r: ResolutionModel, plan: Plan, d: Seq<char>, j: int)
    requires
        is_orderly(r, plan),
        is_dir(plan.layout, d),
        0 <= j < hosts_of(d).len(),
    ensures
        is_dir(plan.layout, hosts_of(d)[j]),
        is_place(d),
        is_place(hosts_of(d)[j]),
    decreases hosts_of(d).len(),
{
    if d == path::here() {
        link::lemma_here_has_no_holder();
    } else {
        let id = sorted::lookup(plan.layout, d)->0;
        lemma_stands(r, plan, d);
        let holder = holder_of(d)->0;
        if j < hosts_of(holder).len() {
            lemma_hosts_are_dirs(r, plan, holder, j);
        }
    }
}

/// The first visit of the queue, where it is a new one.
spec fn is_fresh(plan: Plan) -> bool {
    plan.queue.len() > 0 && !sorted::holds(plan.visited, plan.queue[0])
}

/// A new visit takes no slot from another package.
proof fn lemma_keeps_places(r: ResolutionModel, plan: Plan)
    requires
        is_plannable(r),
        is_orderly(r, plan),
        is_fresh(plan),
    ensures
        link::step_keeps_places(plan),
{
    reveal(has_places);
    reveal(visits_in_turn);
    reveal(waits_in_turn);
    reveal(is_well_placed);
    reveal(was_put);
    reveal(is_settled_above);
    let visit = plan.queue[0];
    let o = visit.owner;
    let hosts = hosts_of(o);
    let slot = slot_of(o, visit.id.name);
    assert(is_asked(r, plan.layout, visit));
    lemma_asked_is_known(r, plan.layout, o, visit.id);
    lemma_hosts(o, hosts.len() - 1);
    lemma_hosts_are_dirs(r, plan, o, hosts.len() - 1);
    link::packages_are_hoisted(o, visit.id, plan.layout);
    if !link::is_open(
        plan.layout,
        link::placement_of(o, visit.id, plan.layout),
        visit.id,
    ) {
        assert(!link::is_open(
            plan.layout,
            slot_of(hosts[hosts.len() - 1], visit.id.name),
            visit.id,
        ));
        let other = sorted::lookup(plan.layout, slot)->0;
        assert(is_well_placed(r, plan.layout, slot, other));
        assert(was_put(plan, slot, other));
        lemma_slot(o, visit.id.name);
        assert(is_known(r.packages, other));
        lemma_slots_differ(o, visit.id.name, other.name);
        let i = choose|i: int|
            0 <= i < plan.visited.len() && (#[trigger] plan.visited[i]).0.id == other && hosts_of(
                plan.visited[i].0.owner,
            ).contains(holder_of(slot)->0);
        let w = plan.visited[i].0.owner;
        assert(is_asked(r, plan.layout, plan.visited[i].0));
        let j = choose|j: int| 0 <= j < hosts_of(w).len() && hosts_of(w)[j] == o;
        if j == hosts_of(w).len() - 1 {
            lemma_hosts(w, j);
            lemma_asked_once(r, plan.layout, o, visit.id, other);
        } else {
            assert(is_above(o, w));
            assert(is_settled_above(r, plan, w));
        }
    }
}

/// Where a new visit places its package.
proof fn lemma_landing(r: ResolutionModel, plan: Plan) -> (k: int)
    requires
        is_plannable(r),
        is_orderly(r, plan),
        is_fresh(plan),
    ensures
        ({
            let visit = plan.queue[0];
            let hosts = hosts_of(visit.owner);
            let slot = link::placement_of(visit.owner, visit.id, plan.layout);
            &&& 0 <= k < hosts.len()
            &&& slot == slot_of(hosts[k], visit.id.name)
            &&& link::is_open(plan.layout, slot, visit.id)
            &&& forall|j: int|
                0 <= j < k ==> !link::is_open(
                    plan.layout,
                    slot_of(#[trigger] hosts[j], visit.id.name),
                    visit.id,
                )
            &&& is_dir(plan.layout, hosts[k])
            &&& is_place(hosts[k])
            &&& hosts_of(hosts[k]) == hosts.take(k + 1)
            &&& path::is_tidy(slot)
            &&& slot != path::here()
            &&& holder_of(slot) == Some(hosts[k])
            &&& hosts_of(slot) == hosts.take(k + 1).push(slot)
            &&& is_known(r.packages, visit.id)
            &&& is_plain(visit.id.name)
            &&& is_asked(r, plan.layout, visit)
        }),
{
    reveal(waits_in_turn);
    let visit = plan.queue[0];
    let o = visit.owner;
    let hosts = hosts_of(o);
    let slot = link::placement_of(o, visit.id, plan.layout);
    lemma_keeps_places(r, plan);
    link::packages_are_hoisted(o, visit.id, plan.layout);
    lemma_hosts(o, hosts.len() - 1);
    assert(hosts[hosts.len() - 1] == o);
    let k = choose|k: int|
        0 <= k < hosts.len() && slot == slot_of(#[trigger] hosts[k], visit.id.name)
            && link::is_open(plan.layout, slot, visit.id) && forall|j: int|
            0 <= j < k ==> !link::is_open(
                plan.layout,
                slot_of(#[trigger] hosts[j], visit.id.name),
                visit.id,
            );
    assert(is_asked(r, plan.layout, visit));
    lemma_asked_is_known(r, plan.layout, o, visit.id);
    lemma_hosts(o, k);
    lemma_hosts_are_dirs(r, plan, o, k);
    lemma_slot(hosts[k], visit.id.name);
    k
}

/// What a new visit does to the layout and to the visits that were made.
spec fn has_landed(r: ResolutionModel, plan: Plan, next: Plan, slot: Seq<char>) -> bool {
    let visit = plan.queue[0];
    &&& sorted::ascending(next.layout)
    &&& sorted::ascending(next.visited)
    &&& forall|p: Seq<char>| #[trigger]
        sorted::lookup(next.layout, p) == if p == slot {
            Some(visit.id)
        } else {
            sorted::lookup(plan.layout, p)
        }
    &&& forall|p: Seq<char>|
        (#[trigger] sorted::lookup(plan.layout, p)) is Some ==> sorted::lookup(next.layout, p)
            == sorted::lookup(plan.layout, p)
    &&& forall|d: Seq<char>, id: PackageIdModel|
        is_dir(plan.layout, d) ==> #[trigger] asks(r, next.layout, d, id) == asks(
            r,
            plan.layout,
            d,
            id,
        )
    &&& forall|v: VisitModel| #[trigger]
        sorted::holds(plan.visited, v) ==> sorted::holds(next.visited, v)
    &&& sorted::holds(next.visited, visit)
    &&& forall|i: int|
        0 <= i < next.visited.len() ==> (#[trigger] next.visited[i]).0 == visit || exists|j: int|
            0 <= j < plan.visited.len() && plan.visited[j] == next.visited[i]
    &&& forall|j: int|
        0 <= j < plan.visited.len() ==> next.visited.contains(#[trigger] plan.visited[j])
    &&& next.visited.contains((visit, ()))
    &&& next.queue == plan.queue.skip(1) + link::visits_of(r.packages, slot, visit.id)
}

proof fn lemma_layout_after(layout: Places, slot: Seq<char>, id: PackageIdModel)
    requires
        sorted::ascending(layout),
        link::is_open(layout, slot, id),
    ensures
        ({
            let next = sorted::put(layout, slot, id);
            &&& sorted::ascending(next)
            &&& forall|p: Seq<char>| #[trigger]
                sorted::lookup(next, p) == if p == slot {
                    Some(id)
                } else {
                    sorted::lookup(layout, p)
                }
            &&& forall|p: Seq<char>|
                (#[trigger] sorted::lookup(layout, p)) is Some ==> sorted::lookup(next, p)
                    == sorted::lookup(layout, p)
        }),
{
    let next = sorted::put(layout, slot, id);
    sorted::lemma_put_ascending(layout, slot, id);
    assert forall|p: Seq<char>| #[trigger] sorted::lookup(next, p) == if p == slot {
        Some(id)
    } else {
        sorted::lookup(layout, p)
    } by {
        sorted::lemma_put_lookup(layout, slot, id, p);
        order::lemma_text_rank_injective(slot, p);
    }
}

/// A new visit is put among the others, which stay.
proof fn lemma_visit_is_put(visited: Seq<(VisitModel, ())>, visit: VisitModel)
    requires
        !sorted::holds(visited, visit),
    ensures
        ({
            let next = sorted::put(visited, visit, ());
            &&& forall|i: int|
                0 <= i < next.len() ==> (#[trigger] next[i]).0 == visit || exists|j: int|
                    0 <= j < visited.len() && visited[j] == next[i]
            &&& forall|j: int| 0 <= j < visited.len() ==> next.contains(#[trigger] visited[j])
            &&& next.contains((visit, ()))
        }),
{
    let next = sorted::put(visited, visit, ());
    sorted::lemma_slot(visited, visit);
    let at = sorted::slot(visited, visit) as int;
    assert(next.len() == visited.len() + 1);
    assert forall|i: int| 0 <= i < next.len() implies (#[trigger] next[i]).0 == visit || exists|
        j: int,
    | 0 <= j < visited.len() && visited[j] == next[i] by {
        if i < at {
            assert(visited[i] == next[i]);
        } else if i > at {
            assert(visited[i - 1] == next[i]);
        }
    }
    assert forall|j: int| 0 <= j < visited.len() implies next.contains(#[trigger] visited[j]) by {
        if j < at {
            assert(next[j] == visited[j]);
        } else {
            assert(next[j + 1] == visited[j]);
        }
    }
    assert(next[at] == (visit, ()));
}

/// Visits that were made stay made.
proof fn lemma_visits_are_kept(visited: Seq<(VisitModel, ())>, visit: VisitModel)
    requires
        sorted::ascending(visited),
    ensures
        ({
            let next = sorted::put(visited, visit, ());
            &&& sorted::ascending(next)
            &&& forall|v: VisitModel| #[trigger]
                sorted::holds(visited, v) ==> sorted::holds(next, v)
            &&& sorted::holds(next, visit)
        }),
{
    let next = sorted::put(visited, visit, ());
    sorted::lemma_put_ascending(visited, visit, ());
    assert forall|v: VisitModel| #[trigger] sorted::holds(visited, v) implies sorted::holds(
        next,
        v,
    ) by {
        sorted::lemma_put_lookup(visited, visit, (), v);
        assert(sorted::lookup(visited, v) is Some);
    }
    sorted::lemma_put_lookup(visited, visit, (), visit);
}

proof fn lemma_lands(r: ResolutionModel, plan: Plan) -> (k: int)
    requires
        is_plannable(r),
        is_orderly(r, plan),
        is_fresh(plan),
    ensures
        ({
            let visit = plan.queue[0];
            let hosts = hosts_of(visit.owner);
            let slot = link::placement_of(visit.owner, visit.id, plan.layout);
            &&& has_landed(r, plan, plan_step(r.packages, plan), slot)
            &&& 0 <= k < hosts.len()
            &&& slot == slot_of(hosts[k], visit.id.name)
            &&& link::is_open(plan.layout, slot, visit.id)
            &&& forall|j: int|
                0 <= j < k ==> !link::is_open(
                    plan.layout,
                    slot_of(#[trigger] hosts[j], visit.id.name),
                    visit.id,
                )
            &&& is_dir(plan.layout, hosts[k])
            &&& hosts_of(hosts[k]) == hosts.take(k + 1)
            &&& path::is_tidy(slot)
            &&& slot != path::here()
            &&& holder_of(slot) == Some(hosts[k])
            &&& hosts_of(slot) == hosts.take(k + 1).push(slot)
            &&& is_known(r.packages, visit.id)
            &&& is_plain(visit.id.name)
            &&& is_asked(r, plan.layout, visit)
        }),
{
    let k = lemma_landing(r, plan);
    let visit = plan.queue[0];
    let slot = link::placement_of(visit.owner, visit.id, plan.layout);
    let next = plan_step(r.packages, plan);
    lemma_layout_after(plan.layout, slot, visit.id);
    lemma_visit_is_put(plan.visited, visit);
    lemma_visits_are_kept(plan.visited, visit);
    assert forall|d: Seq<char>, id: PackageIdModel| is_dir(plan.layout, d) implies #[trigger] asks(
        r,
        next.layout,
        d,
        id,
    ) == asks(r, plan.layout, d, id) by {
        assert(d == path::here() || sorted::lookup(next.layout, d) == sorted::lookup(
            plan.layout,
            d,
        ));
        reveal(asks);
    }
    k
}

/// After a new visit, packages stand where directories can see them.
proof fn lemma_layout_stays(r: ResolutionModel, plan: Plan)
    requires
        is_plannable(r),
        is_orderly(r, plan),
        is_fresh(plan),
    ensures
        has_places(r, plan_step(r.packages, plan)),
{
    reveal(has_places);
    reveal(is_well_placed);
    reveal(was_put);
    let next = plan_step(r.packages, plan);
    let k = lemma_lands(r, plan);
    let visit = plan.queue[0];
    let slot = link::placement_of(visit.owner, visit.id, plan.layout);
    assert forall|p: Seq<char>| (#[trigger] sorted::lookup(next.layout, p)) is Some
        implies is_well_placed(r, next.layout, p, sorted::lookup(next.layout, p)->0) && was_put(
        next,
        p,
        sorted::lookup(next.layout, p)->0,
    ) by {
        let id = sorted::lookup(next.layout, p)->0;
        if p == slot {
            let i = choose|i: int| 0 <= i < next.visited.len() && next.visited[i] == (visit, ());
            assert(hosts_of(next.visited[i].0.owner)[k] == holder_of(p)->0);
            assert(next.visited[i].0.id == id);
        } else {
            assert(sorted::lookup(plan.layout, p) == Some(id));
            assert(is_well_placed(r, plan.layout, p, id));
            assert(was_put(plan, p, id));
            let i = choose|i: int|
                0 <= i < plan.visited.len() && (#[trigger] plan.visited[i]).0.id == id && hosts_of(
                    plan.visited[i].0.owner,
                ).contains(holder_of(p)->0);
            assert(next.visited.contains(plan.visited[i]));
            let m = choose|m: int|
                0 <= m < next.visited.len() && next.visited[m] == plan.visited[i];
            assert(next.visited[m].0.id == id);
        }
    }
}

/// After a new visit, no package stands below itself.
proof fn lemma_nesting_stays(r: ResolutionModel, plan: Plan)
    requires
        is_plannable(r),
        is_orderly(r, plan),
        is_fresh(plan),
    ensures
        never_nests_twice(plan_step(r.packages, plan)),
{
    reveal(has_places);
    reveal(never_nests_twice);
    reveal(is_well_placed);
    let next = plan_step(r.packages, plan);
    let k = lemma_lands(r, plan);
    let visit = plan.queue[0];
    let hosts = hosts_of(visit.owner);
    let slot = link::placement_of(visit.owner, visit.id, plan.layout);
    assert forall|p: Seq<char>, h: Seq<char>|
        sorted::lookup(next.layout, p) is Some && #[trigger] is_above(h, p)
        implies sorted::lookup(next.layout, h) != sorted::lookup(next.layout, p) by {
        let j = choose|j: int| 0 <= j < hosts_of(p).len() - 1 && #[trigger] hosts_of(p)[j] == h;
        if sorted::lookup(plan.layout, p) is Some {
            lemma_hosts_are_dirs(r, plan, p, j);
            if h == slot {
                assert(sorted::lookup(plan.layout, h) is Some);
            }
        } else {
            assert(p == slot);
            assert(h == hosts[j]);
            lemma_hosts(visit.owner, j);
            lemma_hosts_are_dirs(r, plan, visit.owner, j);
            if sorted::lookup(next.layout, h) == Some(visit.id) {
                if h == slot {
                    // The slot is new, so no host stands there.
                    assert(h == path::here());
                } else {
                    assert(is_well_placed(r, plan.layout, h, visit.id));
                    if j == 0 {
                        lemma_first_host(r, plan, visit.owner);
                        link::lemma_here_has_no_holder();
                    } else {
                        assert(holder_of(h) == Some(hosts[j - 1]));
                        assert(!link::is_open(
                            plan.layout,
                            slot_of(hosts[j - 1], visit.id.name),
                            visit.id,
                        ));
                    }
                }
            }
        }
    }
}

/// The first host of a directory is the project.
proof fn lemma_first_host(r: ResolutionModel, plan: Plan, d: Seq<char>)
    requires
        is_orderly(r, plan),
        is_dir(plan.layout, d),
    ensures
        hosts_of(d).len() > 0,
        hosts_of(d)[0] == path::here(),
    decreases hosts_of(d).len(),
{
    if d == path::here() {
        link::lemma_here_has_no_holder();
    } else {
        let id = sorted::lookup(plan.layout, d)->0;
        lemma_stands(r, plan, d);
        lemma_first_host(r, plan, holder_of(d)->0);
    }
}

/// After a new visit, every visit was made after those of the directories above.
proof fn lemma_visits_stay(r: ResolutionModel, plan: Plan)
    requires
        is_plannable(r),
        is_orderly(r, plan),
        is_fresh(plan),
    ensures
        visits_in_turn(r, plan_step(r.packages, plan)),
{
    reveal(waits_in_turn);
    reveal(visits_in_turn);
    reveal(is_settled_above);
    reveal(waits_its_turn);
    let next = plan_step(r.packages, plan);
    lemma_lands(r, plan);
    let visit = plan.queue[0];
    assert forall|i: int| 0 <= i < next.visited.len() implies is_asked(
        r,
        next.layout,
        (#[trigger] next.visited[i]).0,
    ) && is_settled_above(r, next, next.visited[i].0.owner) by {
        let v = next.visited[i].0;
        if v == visit {
            assert(waits_its_turn(r, plan, 0));
        } else {
            let j = choose|j: int|
                0 <= j < plan.visited.len() && plan.visited[j] == next.visited[i];
            assert(is_asked(r, plan.layout, plan.visited[j].0));
            assert(is_settled_above(r, plan, v.owner));
        }
        assert(is_asked(r, plan.layout, v));
        assert forall|h: Seq<char>, id: PackageIdModel|
            is_above(h, v.owner) && #[trigger] asks(r, next.layout, h, id)
            implies sorted::holds(next.visited, VisitModel { owner: h, id }) by {
            let j = choose|j: int|
                0 <= j < hosts_of(v.owner).len() - 1 && #[trigger] hosts_of(v.owner)[j] == h;
            lemma_hosts_are_dirs(r, plan, v.owner, j);
            assert(asks(r, plan.layout, h, id));
            if v == visit {
                assert(is_ahead(plan, 0, VisitModel { owner: h, id }));
            }
            assert(sorted::holds(plan.visited, VisitModel { owner: h, id }));
        }
    }
}

/// What was seen before a new visit is seen after it, and waits no longer.
proof fn lemma_seen_stays(r: ResolutionModel, plan: Plan, v: VisitModel)
    requires
        is_plannable(r),
        is_orderly(r, plan),
        is_fresh(plan),
        is_seen(plan, v),
    ensures
        ({
            let next = plan_step(r.packages, plan);
            sorted::holds(next.visited, v) || exists|j: int|
                0 <= j < plan.queue.len() - 1 && #[trigger] next.queue[j] == v
        }),
{
    let next = plan_step(r.packages, plan);
    lemma_lands(r, plan);
    if !sorted::holds(plan.visited, v) {
        let j = choose|j: int| 0 <= j < plan.queue.len() && plan.queue[j] == v;
        if j > 0 {
            assert(next.queue[j - 1] == v);
        }
    }
}

/// After a new visit, every visit waits behind those of the directories above.
proof fn lemma_queue_stays(r: ResolutionModel, plan: Plan)
    requires
        is_plannable(r),
        is_orderly(r, plan),
        is_fresh(plan),
    ensures
        waits_in_turn(r, plan_step(r.packages, plan)),
{
    reveal(hears_everyone);
    reveal(waits_in_turn);
    reveal(waits_its_turn);
    let next = plan_step(r.packages, plan);
    let at = lemma_lands(r, plan);
    let visit = plan.queue[0];
    let hosts = hosts_of(visit.owner);
    let slot = link::placement_of(visit.owner, visit.id, plan.layout);
    let rest = plan.queue.skip(1);
    let added = link::visits_of(r.packages, slot, visit.id);
    assert forall|k: int| 0 <= k < next.queue.len() implies is_asked(
        r,
        next.layout,
        #[trigger] next.queue[k],
    ) && waits_its_turn(r, next, k) by {
        let v = next.queue[k];
        if k < rest.len() {
            assert(v == plan.queue[k + 1]);
            assert(is_asked(r, plan.layout, v));
            assert(waits_its_turn(r, plan, k + 1));
            assert forall|h: Seq<char>, id: PackageIdModel|
                is_above(h, v.owner) && #[trigger] asks(r, next.layout, h, id) implies is_ahead(
                next,
                k,
                VisitModel { owner: h, id },
            ) by {
                let j = choose|j: int|
                    0 <= j < hosts_of(v.owner).len() - 1 && #[trigger] hosts_of(v.owner)[j] == h;
                lemma_hosts_are_dirs(r, plan, v.owner, j);
                assert(asks(r, plan.layout, h, id));
                let w = VisitModel { owner: h, id };
                assert(is_ahead(plan, k + 1, w));
                if !sorted::holds(plan.visited, w) {
                    let m = choose|m: int| 0 <= m < k + 1 && #[trigger] plan.queue[m] == w;
                    if m > 0 {
                        assert(next.queue[m - 1] == w);
                    }
                }
            }
        } else {
            let e = k - rest.len();
            assert(v == added[e]);
            assert(v.owner == slot);
            assert(resolve::edge_target(edges_of(r.packages, visit.id)[e]) == v.id);
            assert(asks(r, next.layout, slot, v.id)) by {
                reveal(asks);
            }
            assert forall|h: Seq<char>, id: PackageIdModel|
                is_above(h, v.owner) && #[trigger] asks(r, next.layout, h, id) implies is_ahead(
                next,
                k,
                VisitModel { owner: h, id },
            ) by {
                let j = choose|j: int|
                    0 <= j < hosts_of(slot).len() - 1 && #[trigger] hosts_of(slot)[j] == h;
                assert(h == hosts[j]);
                lemma_hosts_are_dirs(r, plan, visit.owner, j);
                assert(asks(r, plan.layout, h, id));
                lemma_seen_stays(r, plan, VisitModel { owner: h, id });
            }
        }
    }
}

/// After a new visit, whatever is asked for is visited or waits.
proof fn lemma_requests_stay(r: ResolutionModel, plan: Plan)
    requires
        is_plannable(r),
        is_orderly(r, plan),
        is_fresh(plan),
    ensures
        hears_everyone(r, plan_step(r.packages, plan)),
{
    reveal(hears_everyone);
    reveal(asks);
    let next = plan_step(r.packages, plan);
    lemma_lands(r, plan);
    let visit = plan.queue[0];
    let slot = link::placement_of(visit.owner, visit.id, plan.layout);
    let rest = plan.queue.skip(1);
    let added = link::visits_of(r.packages, slot, visit.id);
    assert forall|d: Seq<char>, id: PackageIdModel| #[trigger]
        asks(r, next.layout, d, id) implies is_seen(next, VisitModel { owner: d, id }) by {
        let v = VisitModel { owner: d, id };
        if is_dir(plan.layout, d) {
            assert(asks(r, plan.layout, d, id));
            lemma_seen_stays(r, plan, v);
        } else {
            assert(d == slot);
            let e = choose|e: int|
                0 <= e < edges_of(r.packages, visit.id).len() && resolve::edge_target(
                    #[trigger] edges_of(r.packages, visit.id)[e],
                ) == id;
            assert(added[e] == v);
            assert(next.queue[rest.len() + e] == v);
        }
    }
}

/// Steps keep a plan orderly.
proof fn lemma_step_is_orderly(r: ResolutionModel, plan: Plan)
    requires
        is_plannable(r),
        is_orderly(r, plan),
    ensures
        is_orderly(r, plan_step(r.packages, plan)),
{
    let next = plan_step(r.packages, plan);
    if is_fresh(plan) {
        lemma_lands(r, plan);
        lemma_layout_stays(r, plan);
        lemma_nesting_stays(r, plan);
        lemma_visits_stay(r, plan);
        lemma_queue_stays(r, plan);
        lemma_requests_stay(r, plan);
    } else if plan.queue.len() > 0 {
        lemma_skip_is_orderly(r, plan);
    }
}

/// A visit that was made before only leaves the queue.
proof fn lemma_skip_is_orderly(r: ResolutionModel, plan: Plan)
    requires
        is_orderly(r, plan),
        plan.queue.len() > 0,
        sorted::holds(plan.visited, plan.queue[0]),
    ensures
        is_orderly(r, plan_step(r.packages, plan)),
{
    let next = plan_step(r.packages, plan);
    assert(has_places(r, next)) by {
        reveal(has_places);
        reveal(was_put);
    }
    assert(never_nests_twice(next)) by {
        reveal(never_nests_twice);
    }
    assert(visits_in_turn(r, next)) by {
        reveal(visits_in_turn);
        reveal(is_settled_above);
    }
    lemma_skip_keeps_turns(r, plan);
    lemma_skip_hears_everyone(r, plan);
}

proof fn lemma_skip_keeps_turns(r: ResolutionModel, plan: Plan)
    requires
        waits_in_turn(r, plan),
        plan.queue.len() > 0,
        sorted::holds(plan.visited, plan.queue[0]),
    ensures
        waits_in_turn(r, plan_step(r.packages, plan)),
{
    reveal(waits_in_turn);
    reveal(waits_its_turn);
    let next = plan_step(r.packages, plan);
    assert forall|k: int| 0 <= k < next.queue.len() implies is_asked(
        r,
        next.layout,
        #[trigger] next.queue[k],
    ) && waits_its_turn(r, next, k) by {
        assert(next.queue[k] == plan.queue[k + 1]);
        assert(waits_its_turn(r, plan, k + 1));
        assert forall|h: Seq<char>, id: PackageIdModel|
            is_above(h, next.queue[k].owner) && #[trigger] asks(r, next.layout, h, id)
            implies is_ahead(next, k, VisitModel { owner: h, id }) by {
            let w = VisitModel { owner: h, id };
            assert(asks(r, plan.layout, h, id));
            assert(is_ahead(plan, k + 1, w));
            if !sorted::holds(plan.visited, w) {
                let m = choose|m: int| 0 <= m < k + 1 && #[trigger] plan.queue[m] == w;
                assert(next.queue[m - 1] == w);
            }
        }
    }
}

proof fn lemma_skip_hears_everyone(r: ResolutionModel, plan: Plan)
    requires
        hears_everyone(r, plan),
        plan.queue.len() > 0,
        sorted::holds(plan.visited, plan.queue[0]),
    ensures
        hears_everyone(r, plan_step(r.packages, plan)),
{
    reveal(hears_everyone);
    let next = plan_step(r.packages, plan);
    assert forall|d: Seq<char>, id: PackageIdModel| #[trigger]
        asks(r, next.layout, d, id) implies is_seen(next, VisitModel { owner: d, id }) by {
        let v = VisitModel { owner: d, id };
        assert(asks(r, plan.layout, d, id));
        assert(is_seen(plan, v));
        if !sorted::holds(plan.visited, v) {
            let j = choose|j: int| 0 <= j < plan.queue.len() && plan.queue[j] == v;
            assert(next.queue[j - 1] == v);
        }
    }
}

/// A plan is orderly from the start.
proof fn lemma_start_is_orderly(r: ResolutionModel)
    ensures
        is_orderly(r, link::plan_start(r)),
{
    reveal(has_places);
    reveal(never_nests_twice);
    reveal(visits_in_turn);
    reveal(waits_in_turn);
    reveal(hears_everyone);
    reveal(asks);
    reveal(waits_its_turn);
    let plan = link::plan_start(r);
    let roots = resolve::roots_of(r);
    link::lemma_here_has_no_holder();
    assert forall|k: int| 0 <= k < plan.queue.len() implies is_asked(
        r,
        plan.layout,
        #[trigger] plan.queue[k],
    ) && waits_its_turn(r, plan, k) by {
        assert(plan.queue[k] == (VisitModel { owner: path::here(), id: roots[k] }));
        assert(roots.contains(roots[k]));
    }
    assert forall|d: Seq<char>, id: PackageIdModel| #[trigger]
        asks(r, plan.layout, d, id) implies is_seen(plan, VisitModel { owner: d, id }) by {
        let i = choose|i: int| 0 <= i < roots.len() && roots[i] == id;
        assert(plan.queue[i] == (VisitModel { owner: d, id }));
    }
}

proof fn lemma_plans_are_orderly(r: ResolutionModel, steps: nat)
    requires
        is_plannable(r),
    ensures
        is_orderly(r, plan_after(r, steps)),
        link::step_keeps_places(plan_after(r, steps)),
    decreases steps,
{
    if steps == 0 {
        lemma_start_is_orderly(r);
    } else {
        lemma_plans_are_orderly(r, (steps - 1) as nat);
        lemma_step_is_orderly(r, plan_after(r, (steps - 1) as nat));
    }
    if is_fresh(plan_after(r, steps)) {
        lemma_keeps_places(r, plan_after(r, steps));
    }
}

// ---------------------------------------------------------------------------
// How much there is to place.

/// Items without repeats that all come from a list are no more than the list has.
proof fn lemma_no_more<T>(some: Seq<T>, list: Seq<T>)
    requires
        some.no_duplicates(),
        forall|i: int| 0 <= i < some.len() ==> list.contains(#[trigger] some[i]),
    ensures
        some.len() <= list.len(),
{
    some.unique_seq_to_set();
    list.lemma_cardinality_of_set();
    vstd::seq_lib::seq_to_set_is_finite(list);
    assert forall|x: T| some.to_set().contains(x) implies list.to_set().contains(x) by {
        let i = choose|i: int| 0 <= i < some.len() && some[i] == x;
        assert(list.contains(some[i]));
    }
    vstd::set_lib::lemma_len_subset(some.to_set(), list.to_set());
}

/// What packages depend on.
spec fn targets_in(edges: Seq<resolve::EdgeModel>) -> Seq<PackageIdModel> {
    edges.map_values(|e: resolve::EdgeModel| resolve::edge_target(e))
}

/// All ids that occur in packages.
spec fn ids_in(packages: Packages) -> Seq<PackageIdModel>
    decreases packages.len(),
{
    if packages.len() == 0 {
        Seq::empty()
    } else {
        ids_in(packages.drop_last()).push(packages.last().0) + targets_in(
            packages.last().1.dependencies,
        )
    }
}

proof fn lemma_id_is_listed(packages: Packages, id: PackageIdModel)
    requires
        is_known(packages, id),
    ensures
        ids_in(packages).contains(id),
    decreases packages.len(),
{
    if packages.len() > 0 {
        let front = packages.drop_last();
        let before = ids_in(front);
        let targets = targets_in(packages.last().1.dependencies);
        let all = ids_in(packages);
        if packages.last().0 == id {
            assert(all[before.len() as int] == id);
        } else if is_key(packages, id) {
            let i = choose|i: int| 0 <= i < packages.len() && (#[trigger] packages[i]).0 == id;
            assert(front[i].0 == id);
            lemma_id_is_listed(front, id);
            let k = choose|k: int| 0 <= k < before.len() && before[k] == id;
            assert(all[k] == id);
        } else {
            let (i, k) = choose|i: int, k: int|
                0 <= i < packages.len() && 0 <= k < packages[i].1.dependencies.len()
                    && resolve::edge_target(#[trigger] packages[i].1.dependencies[k]) == id;
            if i == packages.len() - 1 {
                assert(targets[k] == id);
                assert(all[before.len() + 1 + k] == id);
            } else {
                assert(resolve::edge_target(front[i].1.dependencies[k]) == id);
                lemma_id_is_listed(front, id);
                let m = choose|m: int| 0 <= m < before.len() && before[m] == id;
                assert(all[m] == id);
            }
        }
    }
}

/// The slots of all packages in all of some directories.
spec fn slots_in(ids: Seq<PackageIdModel>, dirs: Seq<Seq<char>>) -> Seq<Seq<char>> {
    Seq::new(
        dirs.len() * ids.len(),
        |i: int| slot_of(dirs[i / ids.len() as int], ids[i % ids.len() as int].name),
    )
}

/// The directories that nest no deeper than `depth`.
spec fn dirs_within(ids: Seq<PackageIdModel>, depth: nat) -> Seq<Seq<char>>
    decreases depth,
{
    if depth == 0 {
        seq![path::here()]
    } else {
        let outer = dirs_within(ids, (depth - 1) as nat);
        outer + slots_in(ids, outer)
    }
}

/// The visits for all packages and some directories.
spec fn visits_in(ids: Seq<PackageIdModel>, dirs: Seq<Seq<char>>) -> Seq<VisitModel> {
    Seq::new(
        dirs.len() * ids.len(),
        |i: int|
            VisitModel { owner: dirs[i / ids.len() as int], id: ids[i % ids.len() as int] },
    )
}

/// A pair of indices as one.
proof fn lemma_pair(a: int, b: int, n: int, m: int) -> (i: int)
    requires
        0 <= a < m,
        0 <= b < n,
    ensures
        0 <= i < m * n,
        i / n == a,
        i % n == b,
{
    let i = a * n + b;
    vstd::arithmetic::div_mod::lemma_fundamental_div_mod_converse(i, n, a, b);
    assert(0 <= a * n) by (nonlinear_arith)
        requires
            0 <= a,
            0 < n,
    ;
    assert(a * n + n <= m * n) by (nonlinear_arith)
        requires
            a + 1 <= m,
            0 < n,
    ;
    i
}

proof fn lemma_dirs_grow(ids: Seq<PackageIdModel>, depth: nat, more: nat, d: Seq<char>)
    requires
        depth <= more,
        dirs_within(ids, depth).contains(d),
    ensures
        dirs_within(ids, more).contains(d),
    decreases more,
{
    if depth < more {
        let outer = dirs_within(ids, (more - 1) as nat);
        lemma_dirs_grow(ids, depth, (more - 1) as nat, d);
        let i = choose|i: int| 0 <= i < outer.len() && outer[i] == d;
        assert(dirs_within(ids, more)[i] == d);
    }
}

/// A directory is among those that nest as deep as it does.
proof fn lemma_dir_is_listed(r: ResolutionModel, plan: Plan, d: Seq<char>)
    requires
        is_orderly(r, plan),
        is_dir(plan.layout, d),
    ensures
        hosts_of(d).len() > 0,
        dirs_within(ids_in(r.packages), (hosts_of(d).len() - 1) as nat).contains(d),
    decreases hosts_of(d).len(),
{
    if d == path::here() {
        link::lemma_here_has_no_holder();
        assert(dirs_within(ids_in(r.packages), 0)[0] == d);
    } else {
        let id = sorted::lookup(plan.layout, d)->0;
        lemma_stands(r, plan, d);
        let holder = holder_of(d)->0;
        lemma_dir_is_listed(r, plan, holder);
        let depth = (hosts_of(d).len() - 1) as nat;
        let outer = dirs_within(ids_in(r.packages), (depth - 1) as nat);
        let a = choose|a: int| 0 <= a < outer.len() && outer[a] == holder;
        let ids = ids_in(r.packages);
        lemma_id_is_listed(r.packages, id);
        let b = choose|b: int| 0 <= b < ids.len() && ids[b] == id;
        let i = lemma_pair(a, b, ids.len() as int, outer.len() as int);
        assert(slots_in(ids, outer)[i] == d);
        assert(dirs_within(ids_in(r.packages), depth)[outer.len() + i] == d);
    }
}

/// Directories nest no deeper than there are ids.
proof fn lemma_depth(r: ResolutionModel, plan: Plan, d: Seq<char>)
    requires
        is_orderly(r, plan),
        is_dir(plan.layout, d),
    ensures
        hosts_of(d).len() <= ids_in(r.packages).len() + 1,
{
    reveal(never_nests_twice);
    lemma_first_host(r, plan, d);
    let hosts = hosts_of(d);
    let keys = ids_in(r.packages);
    let ids = Seq::new(
        (hosts.len() - 1) as nat,
        |j: int| sorted::lookup(plan.layout, hosts[j + 1])->0,
    );
    assert forall|j: int| 0 < j < hosts.len() implies sorted::lookup(
        plan.layout,
        #[trigger] hosts[j],
    ) is Some by {
        lemma_hosts(d, j);
        lemma_hosts_are_dirs(r, plan, d, j);
        link::lemma_here_has_no_holder();
    }
    assert forall|j: int| 0 <= j < ids.len() implies keys.contains(#[trigger] ids[j]) by {
        assert(sorted::lookup(plan.layout, hosts[j + 1]) is Some);
        lemma_stands(r, plan, hosts[j + 1]);
        lemma_id_is_listed(r.packages, ids[j]);
    }
    assert forall|i: int, j: int| 0 <= i < ids.len() && 0 <= j < ids.len() && i != j
        implies ids[i] != ids[j] by {
        let (low, high) = if i < j {
            (i + 1, j + 1)
        } else {
            (j + 1, i + 1)
        };
        lemma_hosts(d, high);
        assert(hosts_of(hosts[high])[low] == hosts[low]);
        assert(is_above(hosts[low], hosts[high]));
        assert(sorted::lookup(plan.layout, hosts[low]) is Some);
        assert(sorted::lookup(plan.layout, hosts[high]) is Some);
    }
    lemma_no_more(ids, keys);
}

/// How many visits a plan can make.
spec fn most_visits(r: ResolutionModel) -> nat {
    visits_in(
        ids_in(r.packages),
        dirs_within(ids_in(r.packages), ids_in(r.packages).len()),
    ).len()
}

proof fn lemma_visits_are_bounded(r: ResolutionModel, plan: Plan)
    requires
        is_plannable(r),
        is_orderly(r, plan),
    ensures
        plan.visited.len() <= most_visits(r),
{
    reveal(visits_in_turn);
    let ids = ids_in(r.packages);
    let dirs = dirs_within(ids, ids.len());
    let made = plan.visited.map_values(|e: (VisitModel, ())| e.0);
    let possible = visits_in(ids, dirs);
    assert forall|i: int, j: int| 0 <= i < made.len() && 0 <= j < made.len() && i != j
        implies made[i] != made[j] by {
        order::lemma_irreflexive(made[i].rank());
        assert(i < j ==> order::precedes(plan.visited[i].0.rank(), plan.visited[j].0.rank()));
        assert(j < i ==> order::precedes(plan.visited[j].0.rank(), plan.visited[i].0.rank()));
    }
    assert forall|i: int| 0 <= i < made.len() implies possible.contains(#[trigger] made[i]) by {
        let visit = plan.visited[i].0;
        assert(is_asked(r, plan.layout, visit));
        lemma_asked_is_known(r, plan.layout, visit.owner, visit.id);
        lemma_dir_is_listed(r, plan, visit.owner);
        lemma_depth(r, plan, visit.owner);
        lemma_dirs_grow(
            ids,
            (hosts_of(visit.owner).len() - 1) as nat,
            ids.len(),
            visit.owner,
        );
        let a = choose|a: int| 0 <= a < dirs.len() && dirs[a] == visit.owner;
        lemma_id_is_listed(r.packages, visit.id);
        let b = choose|b: int| 0 <= b < ids.len() && ids[b] == visit.id;
        let k = lemma_pair(a, b, ids.len() as int, dirs.len() as int);
        assert(possible[k] == visit);
    }
    lemma_no_more(made, possible);
}

// ---------------------------------------------------------------------------
// The law.

proof fn lemma_ends_from(r: ResolutionModel, steps: nat) -> (n: nat)
    requires
        is_plannable(r),
    ensures
        plan_after(r, n).queue.len() == 0,
    decreases
            most_visits(r) - plan_after(r, steps).visited.len(),
            plan_after(r, steps).queue.len(),
{
    let plan = plan_after(r, steps);
    if plan.queue.len() == 0 {
        steps
    } else {
        lemma_plans_are_orderly(r, steps);
        lemma_plans_are_orderly(r, steps + 1);
        link::plan_steps_make_progress(r.packages, plan);
        lemma_visits_are_bounded(r, plan_after(r, steps + 1));
        lemma_ends_from(r, steps + 1)
    }
}

/// A plan comes to an end, dependency cycles or not.
pub proof fn plans_end(r: ResolutionModel)
    requires
        is_plannable(r),
    ensures
        exists|n: nat| (#[trigger] plan_after(r, n)).queue.len() == 0,
{
    let n = lemma_ends_from(r, 0);
    assert(plan_after(r, n).queue.len() == 0);
}

/// No step of a plan takes a slot from another package, so what was placed stays
/// where it is.
pub proof fn plans_keep_places(r: ResolutionModel, steps: nat)
    requires
        is_plannable(r),
    ensures
        link::keeps_places(r, steps),
{
    assert forall|s: nat| s < steps implies link::step_keeps_places(
        #[trigger] plan_after(r, s),
    ) by {
        lemma_plans_are_orderly(r, s);
    }
}

// ---------------------------------------------------------------------------
// What is placed, and where.

/// Whether a package depends on another.
pub open spec fn depends_on(packages: Packages, id: PackageIdModel, other: PackageIdModel) -> bool {
    exists|e: int|
        0 <= e < edges_of(packages, id).len() && resolve::edge_target(
            #[trigger] edges_of(packages, id)[e],
        ) == other
}

/// Whether each package of a chain depends on the next.
pub open spec fn is_chain(packages: Packages, chain: Seq<PackageIdModel>) -> bool {
    forall|j: int|
        0 <= j < chain.len() - 1 ==> depends_on(packages, #[trigger] chain[j], chain[j + 1])
}

/// Whether a chain leads from a root to a package.
pub open spec fn leads_to(r: ResolutionModel, chain: Seq<PackageIdModel>, id: PackageIdModel) -> bool {
    &&& chain.len() > 0
    &&& resolve::roots_of(r).contains(chain[0])
    &&& chain.last() == id
    &&& is_chain(r.packages, chain)
}

/// Whether a package is reached from the roots along dependencies.
pub open spec fn is_reachable(r: ResolutionModel, id: PackageIdModel) -> bool {
    exists|chain: Seq<PackageIdModel>| #[trigger] leads_to(r, chain, id)
}

/// What is asked for from a reachable package is reachable.
proof fn lemma_asked_is_reachable(
    r: ResolutionModel,
    layout: Places,
    directory: Seq<char>,
    id: PackageIdModel,
)
    requires
        asks(r, layout, directory, id),
        directory != path::here() ==> is_reachable(r, sorted::lookup(layout, directory)->0),
    ensures
        is_reachable(r, id),
{
    reveal(asks);
    if directory == path::here() {
        let chain = seq![id];
        assert(chain.last() == id);
        assert(leads_to(r, chain, id));
    } else {
        let owner = sorted::lookup(layout, directory)->0;
        let chain = choose|chain: Seq<PackageIdModel>| #[trigger] leads_to(r, chain, owner);
        let longer = chain.push(id);
        assert(depends_on(r.packages, owner, id));
        assert forall|j: int| 0 <= j < longer.len() - 1 implies depends_on(
            r.packages,
            #[trigger] longer[j],
            longer[j + 1],
        ) by {
            if j < chain.len() - 1 {
                assert(longer[j] == chain[j] && longer[j + 1] == chain[j + 1]);
            } else {
                assert(longer[j] == chain.last());
            }
        }
        assert(longer[0] == chain[0]);
        assert(leads_to(r, longer, id));
    }
}

/// Whether everything that was placed is reachable.
#[verifier::opaque]
spec fn comes_from_roots(r: ResolutionModel, plan: Plan) -> bool {
    forall|p: Seq<char>|
        (#[trigger] sorted::lookup(plan.layout, p)) matches Some(id) ==> is_reachable(r, id)
}

/// Whether another version stands in a slot.
pub open spec fn is_taken(layout: Places, slot: Seq<char>, id: PackageIdModel) -> bool {
    sorted::lookup(layout, slot) matches Some(other) && other != id
}

/// Whether a package stands as high as it can: in every directory above the one
/// that holds it, another version has its slot.
spec fn is_as_high_as_can_be(layout: Places, p: Seq<char>, id: PackageIdModel) -> bool {
    forall|j: int|
        0 <= j < hosts_of(p).len() - 2 ==> is_taken(
            layout,
            slot_of(#[trigger] hosts_of(p)[j], id.name),
            id,
        )
}

#[verifier::opaque]
spec fn nests_on_conflict(plan: Plan) -> bool {
    forall|p: Seq<char>|
        (#[trigger] sorted::lookup(plan.layout, p)) matches Some(id) ==> is_as_high_as_can_be(
            plan.layout,
            p,
            id,
        )
}

proof fn lemma_step_places(r: ResolutionModel, plan: Plan)
    requires
        is_plannable(r),
        is_orderly(r, plan),
        is_fresh(plan),
        comes_from_roots(r, plan),
        nests_on_conflict(plan),
    ensures
        comes_from_roots(r, plan_step(r.packages, plan)),
        nests_on_conflict(plan_step(r.packages, plan)),
{
    reveal(comes_from_roots);
    reveal(nests_on_conflict);
    let next = plan_step(r.packages, plan);
    let k = lemma_lands(r, plan);
    let visit = plan.queue[0];
    let hosts = hosts_of(visit.owner);
    let slot = link::placement_of(visit.owner, visit.id, plan.layout);
    assert(is_reachable(r, visit.id)) by {
        if visit.owner != path::here() {
            assert(sorted::lookup(plan.layout, visit.owner) is Some);
        }
        lemma_asked_is_reachable(r, plan.layout, visit.owner, visit.id);
    }
    assert forall|p: Seq<char>| (#[trigger] sorted::lookup(next.layout, p)) is Some
        implies is_reachable(r, sorted::lookup(next.layout, p)->0) && is_as_high_as_can_be(
        next.layout,
        p,
        sorted::lookup(next.layout, p)->0,
    ) by {
        let id = sorted::lookup(next.layout, p)->0;
        if p != slot {
            assert(sorted::lookup(plan.layout, p) == Some(id));
        }
        assert forall|j: int| 0 <= j < hosts_of(p).len() - 2 implies is_taken(
            next.layout,
            slot_of(#[trigger] hosts_of(p)[j], id.name),
            id,
        ) by {
            let above = slot_of(hosts_of(p)[j], id.name);
            if p == slot {
                assert(hosts_of(p)[j] == hosts[j]);
                assert(!link::is_open(plan.layout, slot_of(hosts[j], visit.id.name), visit.id));
            } else {
                assert(is_as_high_as_can_be(plan.layout, p, id));
            }
            assert(is_taken(plan.layout, above, id));
            assert(sorted::lookup(next.layout, above) == sorted::lookup(plan.layout, above));
        }
    }
}

proof fn lemma_plans_place(r: ResolutionModel, steps: nat)
    requires
        is_plannable(r),
    ensures
        comes_from_roots(r, plan_after(r, steps)),
        nests_on_conflict(plan_after(r, steps)),
    decreases steps,
{
    if steps == 0 {
        reveal(comes_from_roots);
        reveal(nests_on_conflict);
    } else {
        let before = plan_after(r, (steps - 1) as nat);
        lemma_plans_place(r, (steps - 1) as nat);
        lemma_plans_are_orderly(r, (steps - 1) as nat);
        if is_fresh(before) {
            lemma_step_places(r, before);
        } else {
            reveal(comes_from_roots);
            reveal(nests_on_conflict);
        }
    }
}

/// Whether a package has a place in a layout.
pub open spec fn has_place(layout: Places, id: PackageIdModel) -> bool {
    exists|p: Seq<char>| #[trigger] sorted::lookup(layout, p) == Some(id)
}

proof fn lemma_nearest(hosts: Seq<Seq<char>>, name: Seq<char>, layout: Places)
    ensures
        link::nearest(hosts, name, layout) matches Some(id) ==> has_place(layout, id),
    decreases hosts.len(),
{
    if hosts.len() > 0 {
        lemma_nearest(hosts.drop_last(), name, layout);
        assert(sorted::lookup(layout, slot_of(hosts.last(), name)) == sorted::lookup(
            layout,
            slot_of(hosts.last(), name),
        ));
    }
}

/// What stands in the place of a known id is that id.
proof fn lemma_place_of_known(
    r: ResolutionModel,
    plan: Plan,
    found: PackageIdModel,
    id: PackageIdModel,
)
    requires
        is_plannable(r),
        is_orderly(r, plan),
        is_known(r.packages, id),
        found.rank() == id.rank(),
        has_place(plan.layout, found),
    ensures
        has_place(plan.layout, id),
{
    let p = choose|p: Seq<char>| #[trigger] sorted::lookup(plan.layout, p) == Some(found);
    lemma_stands(r, plan, p);
    assert(is_known(r.packages, found));
}

proof fn lemma_chain_is_placed(
    r: ResolutionModel,
    steps: nat,
    chain: Seq<PackageIdModel>,
    id: PackageIdModel,
)
    requires
        is_plannable(r),
        plan_after(r, steps).queue.len() == 0,
        leads_to(r, chain, id),
    ensures
        has_place(plan_after(r, steps).layout, id),
    decreases chain.len(),
{
    let plan = plan_after(r, steps);
    let layout = plan.layout;
    lemma_plans_are_orderly(r, steps);
    plans_keep_places(r, steps);
    link::dependents_find_what_they_asked_for(r, steps);
    if chain.len() == 1 {
        let roots = resolve::roots_of(r);
        let i = choose|i: int| 0 <= i < roots.len() && roots[i] == id;
        assert(chain[0] == id);
        assert(link::finds(layout, path::here(), roots[i]));
        lemma_nearest(hosts_of(path::here()), id.name, layout);
        let found = link::nearest(hosts_of(path::here()), id.name, layout)->0;
        lemma_roots(r, i);
        lemma_place_of_known(r, plan, found, id);
    } else {
        let front = chain.drop_last();
        let owner = front.last();
        assert forall|j: int| 0 <= j < front.len() - 1 implies depends_on(
            r.packages,
            #[trigger] front[j],
            front[j + 1],
        ) by {
            assert(front[j] == chain[j] && front[j + 1] == chain[j + 1]);
        }
        assert(front[0] == chain[0]);
        assert(leads_to(r, front, owner));
        lemma_chain_is_placed(r, steps, front, owner);
        let p = choose|p: Seq<char>| #[trigger] sorted::lookup(layout, p) == Some(owner);
        assert(depends_on(r.packages, chain[chain.len() - 2], chain[chain.len() - 1]));
        let e = choose|e: int|
            0 <= e < edges_of(r.packages, owner).len() && resolve::edge_target(
                #[trigger] edges_of(r.packages, owner)[e],
            ) == id;
        lemma_edge_is_known(r.packages, owner, e);
        if link::finds(layout, p, id) {
            lemma_nearest(hosts_of(p), id.name, layout);
            let found = link::nearest(hosts_of(p), id.name, layout)->0;
            lemma_place_of_known(r, plan, found, id);
        } else {
            assert(link::is_shadowed(layout, p, id));
            let (k, j) = choose|k: int, j: int|
                0 <= k < j < hosts_of(p).len() && link::is_slot_of(
                    layout,
                    slot_of(#[trigger] hosts_of(p)[k], id.name),
                    id,
                ) && sorted::lookup(layout, slot_of(#[trigger] hosts_of(p)[j], id.name)) is Some
                    && !link::is_slot_of(layout, slot_of(hosts_of(p)[j], id.name), id);
            let slot = slot_of(hosts_of(p)[k], id.name);
            let found = sorted::lookup(layout, slot)->0;
            assert(sorted::lookup(layout, slot) == Some(found));
            lemma_place_of_known(r, plan, found, id);
        }
    }
}

/// A finished plan places exactly the packages that are reached from the roots.
pub proof fn plans_place_what_is_reachable(r: ResolutionModel, steps: nat, id: PackageIdModel)
    requires
        is_plannable(r),
        plan_after(r, steps).queue.len() == 0,
    ensures
        has_place(plan_after(r, steps).layout, id) <==> is_reachable(r, id),
{
    lemma_plans_place(r, steps);
    if is_reachable(r, id) {
        let chain = choose|chain: Seq<PackageIdModel>| #[trigger] leads_to(r, chain, id);
        lemma_chain_is_placed(r, steps, chain, id);
    }
    if has_place(plan_after(r, steps).layout, id) {
        reveal(comes_from_roots);
        let p = choose|p: Seq<char>| #[trigger]
            sorted::lookup(plan_after(r, steps).layout, p) == Some(id);
        assert(sorted::lookup(plan_after(r, steps).layout, p) is Some);
    }
}

/// A package stands in a slot of the project or of another package, and outside
/// the project's own `node_modules` only where another version has its slot
/// there. So a layout is flat where no two versions of a name meet.
pub proof fn plans_nest_only_on_conflict(
    r: ResolutionModel,
    steps: nat,
    p: Seq<char>,
    id: PackageIdModel,
)
    requires
        is_plannable(r),
        sorted::lookup(plan_after(r, steps).layout, p) == Some(id),
    ensures
        is_known(r.packages, id),
        holder_of(p) matches Some(holder) && p == slot_of(holder, id.name) && (holder
            == path::here() || (sorted::lookup(plan_after(r, steps).layout, holder) is Some
            && is_taken(plan_after(r, steps).layout, slot_of(path::here(), id.name), id))),
{
    let plan = plan_after(r, steps);
    lemma_plans_are_orderly(r, steps);
    lemma_plans_place(r, steps);
    reveal(nests_on_conflict);
    lemma_stands(r, plan, p);
    let holder = holder_of(p)->0;
    if holder != path::here() {
        assert(is_as_high_as_can_be(plan.layout, p, id));
        lemma_first_host(r, plan, holder);
        lemma_hosts(holder, hosts_of(holder).len() - 1);
        assert(hosts_of(p) == hosts_of(holder).push(p));
        assert(hosts_of(p)[0] == path::here());
    }
}

} // verus!
