//! Where the edges of a resolution come from.
//!
//! Every edge out of a package is asked for by the package's own registry entry, as a
//! dependency or an optional one; and every dependency that a package's registry entry
//! lists has an edge in the end.

use vstd::prelude::*;
use crate::manifest::{DependencyClass, ManifestModel, RequirementModel, SpecModel};
use crate::order::Rank;
use crate::registry::{MetadataModel, PackumentModel};
use crate::resolve::{
    AnswerModel, Answers, EdgeModel, Outcome, PackageIdModel, Packages, RecordModel, RequestModel,
    ResolutionModel, ResolvedPackageModel, ResolverModel, Selection,
};
use crate::semver::{RangeModel, VersionModel};
use crate::solutions;
use crate::{manifest, order, resolve, semver, sorted};

verus! {

// ---------------------------------------------------------------------------
// What a package asks for.

/// Whether the registry entry of a package holds a requirement.
pub open spec fn registers(answers: Answers, id: PackageIdModel, r: RequirementModel) -> bool {
    sorted::lookup(answers, id.name) matches Some(AnswerModel::Found(packument)) && (
    sorted::lookup(packument.versions, id.version) matches Some(metadata)
        && metadata.manifest.requirements.contains(r))
}

/// Whether a package asks for a name and a specifier: as a dependency, which must be
/// there, or as an optional one, which need not.
pub open spec fn asks(
    answers: Answers,
    id: PackageIdModel,
    name: Seq<char>,
    spec: SpecModel,
    optional: bool,
) -> bool {
    registers(
        answers,
        id,
        RequirementModel {
            name,
            spec,
            class: if optional {
                DependencyClass::Optional
            } else {
                DependencyClass::Runtime
            },
        },
    )
}

/// Whether an edge of a package is for something that the package asks for.
pub open spec fn is_asked_for(answers: Answers, id: PackageIdModel, edge: EdgeModel) -> bool {
    exists|spec: SpecModel, optional: bool|
        #[trigger] asks(answers, id, edge.name, spec, optional) && edge.spec
            == manifest::spec_text(spec)
}

/// Whether a request was made by the project, or by a package that asks for it.
pub open spec fn is_justified(answers: Answers, request: RequestModel) -> bool {
    request.parent matches Some(parent) ==> asks(
        answers,
        parent,
        request.name,
        request.spec,
        request.optional,
    )
}

/// Whether all edges of a package are.
pub open spec fn has_justified_edges(
    answers: Answers,
    entry: (PackageIdModel, ResolvedPackageModel),
) -> bool {
    forall|k: int|
        0 <= k < entry.1.dependencies.len() ==> is_asked_for(
            answers,
            entry.0,
            #[trigger] entry.1.dependencies[k],
        )
}

/// Whether every request and every edge of a resolution under way is for something that
/// was asked for.
pub open spec fn is_justified_so_far(state: ResolverModel, answers: Answers) -> bool {
    &&& forall|k: int| 0 <= k < state.queue.len() ==> is_justified(answers, #[trigger] state.queue[k])
    &&& forall|i: int|
        0 <= i < state.packages.len() ==> has_justified_edges(answers, #[trigger] state.packages[i])
}

proof fn lemma_lookup_by_rank<K: Rank, V>(entries: Seq<(K, V)>, a: K, b: K)
    requires
        a.rank() == b.rank(),
    ensures
        sorted::lookup(entries, a) == sorted::lookup(entries, b),
{
    sorted::lemma_slot(entries, a);
    sorted::lemma_slot_is(entries, b, sorted::slot(entries, a) as int);
}

proof fn lemma_same_package(answers: Answers, a: PackageIdModel, b: PackageIdModel, r: RequirementModel)
    requires
        a.rank() == b.rank(),
    ensures
        registers(answers, a, r) == registers(answers, b, r),
{
    order::lemma_closed_text(a.name, b.name, a.version.rank(), b.version.rank());
    if let Some(AnswerModel::Found(packument)) = sorted::lookup(answers, a.name) {
        lemma_lookup_by_rank(packument.versions, a.version, b.version);
    }
}

proof fn lemma_edges_with(list: Seq<EdgeModel>, edge: EdgeModel, k: int)
    requires
        0 <= k < resolve::with_edge(list, edge).len(),
    ensures
        resolve::with_edge(list, edge)[k] == edge || list.contains(
            resolve::with_edge(list, edge)[k],
        ),
{
    if !list.contains(edge) {
        broadcast use vstd::seq_lib::group_to_multiset_ensures;

        let pushed = list.push(edge);
        let after = resolve::with_edge(list, edge);
        sorted::sorting_orders_and_keeps(pushed);
        assert(after.contains(after[k]));
        assert(after.to_multiset().count(after[k]) > 0);
        assert(pushed.contains(after[k]));
        let j = choose|j: int| 0 <= j < pushed.len() && pushed[j] == after[k];
        if j < list.len() {
            assert(list[j] == after[k]);
        }
    }
}

proof fn lemma_put_justified(
    answers: Answers,
    packages: Packages,
    id: PackageIdModel,
    value: ResolvedPackageModel,
)
    requires
        forall|i: int|
            0 <= i < packages.len() ==> has_justified_edges(answers, #[trigger] packages[i]),
        forall|k: int|
            0 <= k < value.dependencies.len() ==> is_asked_for(
                answers,
                id,
                #[trigger] value.dependencies[k],
            ),
    ensures
        forall|i: int|
            0 <= i < sorted::put(packages, id, value).len() ==> has_justified_edges(
                answers,
                #[trigger] sorted::put(packages, id, value)[i],
            ),
{
    let after = sorted::put(packages, id, value);
    let at = sorted::slot(packages, id) as int;
    sorted::lemma_slot(packages, id);
    assert forall|i: int| 0 <= i < after.len() implies has_justified_edges(
        answers,
        #[trigger] after[i],
    ) by {
        if i == at {
            let key = after[i].0;
            assert(key.rank() == id.rank());
            assert forall|k: int| 0 <= k < value.dependencies.len() implies is_asked_for(
                answers,
                key,
                #[trigger] value.dependencies[k],
            ) by {
                let edge = value.dependencies[k];
                let (spec, optional) = choose|spec: SpecModel, optional: bool|
                    #[trigger] asks(answers, id, edge.name, spec, optional) && edge.spec
                        == manifest::spec_text(spec);
                lemma_same_package(
                    answers,
                    id,
                    key,
                    RequirementModel {
                        name: edge.name,
                        spec,
                        class: if optional {
                            DependencyClass::Optional
                        } else {
                            DependencyClass::Runtime
                        },
                    },
                );
                assert(asks(answers, key, edge.name, spec, optional));
            }
        } else if sorted::holds(packages, id) || i < at {
            assert(after[i] == packages[i]);
        } else {
            assert(after[i] == packages[i - 1]);
        }
    }
}

proof fn lemma_linked_justified(
    answers: Answers,
    packages: Packages,
    parent: PackageIdModel,
    edge: EdgeModel,
)
    requires
        forall|i: int|
            0 <= i < packages.len() ==> has_justified_edges(answers, #[trigger] packages[i]),
        is_asked_for(answers, parent, edge),
    ensures
        forall|i: int|
            0 <= i < resolve::linked(packages, parent, edge).len() ==> has_justified_edges(
                answers,
                #[trigger] resolve::linked(packages, parent, edge)[i],
            ),
{
    if let Some(package) = sorted::lookup(packages, parent) {
        let at = sorted::slot(packages, parent) as int;
        let key = packages[at].0;
        assert(key.rank() == parent.rank());
        assert(has_justified_edges(answers, packages[at]));
        let list = resolve::with_edge(package.dependencies, edge);
        assert forall|k: int| 0 <= k < list.len() implies is_asked_for(
            answers,
            parent,
            #[trigger] list[k],
        ) by {
            lemma_edges_with(package.dependencies, edge, k);
            if list[k] != edge {
                let j = choose|j: int|
                    0 <= j < package.dependencies.len() && package.dependencies[j] == list[k];
                let e = package.dependencies[j];
                assert(is_asked_for(answers, key, e));
                let (spec, optional) = choose|spec: SpecModel, optional: bool|
                    #[trigger] asks(answers, key, e.name, spec, optional) && e.spec
                        == manifest::spec_text(spec);
                lemma_same_package(
                    answers,
                    key,
                    parent,
                    RequirementModel {
                        name: e.name,
                        spec,
                        class: if optional {
                            DependencyClass::Optional
                        } else {
                            DependencyClass::Runtime
                        },
                    },
                );
                assert(asks(answers, parent, e.name, spec, optional));
            }
        }
        lemma_put_justified(
            answers,
            packages,
            parent,
            ResolvedPackageModel { dependencies: list, ..package },
        );
    }
}

/// What a package's registry entry lists as a dependency or an optional one, and nothing
/// else, is what is expanded.
proof fn lemma_expanded(packument: PackumentModel, version: VersionModel, r: RequirementModel)
    ensures
        resolve::dependencies_in(packument, version).contains(r) <==> (sorted::lookup(
            packument.versions,
            version,
        ) matches Some(metadata) && metadata.manifest.requirements.contains(r) && (r.class
            == DependencyClass::Runtime || r.class == DependencyClass::Optional)),
{
    if let Some(metadata) = sorted::lookup(packument.versions, version) {
        let list = metadata.manifest.requirements;
        manifest::installs_fetch_by_class(list, false);
        lemma_filtered(list, manifest::fetched(false), r);
    }
}

proof fn lemma_filtered<T>(list: Seq<T>, keep: spec_fn(T) -> bool, x: T)
    ensures
        list.filter(keep).contains(x) <==> list.contains(x) && keep(x),
    decreases list.len(),
{
    reveal(Seq::filter);
    if list.len() > 0 {
        let front = list.drop_last();
        let before = front.filter(keep);
        let after = list.filter(keep);
        lemma_filtered(front, keep, x);
        if after.contains(x) {
            let k = choose|k: int| 0 <= k < after.len() && after[k] == x;
            if k < before.len() {
                assert(before[k] == x);
                let j = choose|j: int| 0 <= j < front.len() && front[j] == x;
                assert(list[j] == x);
            } else {
                assert(list[list.len() - 1] == x);
            }
        }
        if list.contains(x) && keep(x) {
            let j = choose|j: int| 0 <= j < list.len() && list[j] == x;
            if j < front.len() {
                assert(front[j] == x);
                let k = choose|k: int| 0 <= k < before.len() && before[k] == x;
                assert(after[k] == x);
            } else {
                assert(after[after.len() - 1] == x);
            }
        }
    }
}

/// Every step keeps it so that all requests and edges are for something that was asked
/// for: a dependency's own development dependencies and peers never are.
pub proof fn steps_add_only_what_is_asked_for(
    state: ResolverModel,
    answers: Answers,
    next: ResolverModel,
)
    requires
        is_justified_so_far(state, answers),
        resolve::stepped(state, answers) == Outcome::Stepped(next),
    ensures
        is_justified_so_far(next, answers),
{
    let request = state.queue[0];
    assert(is_justified(answers, request));
    match resolve::select(state.packages, request, answers) {
        Selection::Selected { version, packages } => {
            lemma_selected_justified(state.packages, request, answers, version, packages);
            let id = PackageIdModel { name: request.name, version };
            if let Some(parent) = request.parent {
                let edge = EdgeModel {
                    name: request.name,
                    spec: manifest::spec_text(request.spec),
                    version,
                };
                assert(asks(answers, parent, request.name, request.spec, request.optional));
                assert(is_asked_for(answers, parent, edge));
                lemma_linked_justified(answers, packages, parent, edge);
            }
            assert forall|k: int| 0 <= k < next.queue.len() implies is_justified(
                answers,
                #[trigger] next.queue[k],
            ) by {
                if k < state.queue.len() - 1 {
                    assert(next.queue[k] == state.queue[k + 1]);
                } else {
                    let packument = sorted::lookup(answers, request.name)->0->Found_0;
                    let list = resolve::dependencies_in(packument, version);
                    let r = list[k - (state.queue.len() - 1)];
                    assert(list.contains(r));
                    lemma_expanded(packument, version, r);
                    assert(next.queue[k] == resolve::requests_of(Some(id), list)[k - (
                    state.queue.len() - 1)]);
                    assert(registers(answers, id, r));
                    assert(r == (RequirementModel {
                        name: r.name,
                        spec: r.spec,
                        class: if next.queue[k].optional {
                            DependencyClass::Optional
                        } else {
                            DependencyClass::Runtime
                        },
                    }));
                }
            }
        },
        Selection::Skipped { name, reason } => {
            assert forall|k: int| 0 <= k < next.queue.len() implies is_justified(
                answers,
                #[trigger] next.queue[k],
            ) by {
                assert(next.queue[k] == state.queue[k + 1]);
            }
        },
        _ => {},
    }
}

proof fn lemma_selected_justified(
    packages: Packages,
    request: RequestModel,
    answers: Answers,
    version: VersionModel,
    after: Packages,
)
    requires
        forall|i: int|
            0 <= i < packages.len() ==> has_justified_edges(answers, #[trigger] packages[i]),
        resolve::select(packages, request, answers) == (Selection::Selected {
            version,
            packages: after,
        }),
    ensures
        forall|i: int|
            0 <= i < after.len() ==> has_justified_edges(answers, #[trigger] after[i]),
{
    let id = PackageIdModel { name: request.name, version };
    if after != packages {
        let packument = sorted::lookup(answers, request.name)->0->Found_0;
        let metadata: MetadataModel = sorted::lookup(packument.versions, version)->0;
        assert(after == sorted::put(packages, id, resolve::fresh_package(id, metadata)));
        lemma_put_justified(answers, packages, id, resolve::fresh_package(id, metadata));
    }
}

proof fn lemma_more_justified(state: ResolverModel, answers: Answers, more: Answers)
    requires
        is_justified_so_far(state, answers),
        solutions::extends(more, answers),
    ensures
        is_justified_so_far(state, more),
{
    assert forall|id: PackageIdModel, r: RequirementModel| #[trigger]
        registers(answers, id, r) implies registers(more, id, r) by {
        assert(sorted::lookup(answers, id.name) is Some);
    }
    assert forall|k: int| 0 <= k < state.queue.len() implies is_justified(
        more,
        #[trigger] state.queue[k],
    ) by {
        assert(is_justified(answers, state.queue[k]));
    }
    assert forall|i: int| 0 <= i < state.packages.len() implies has_justified_edges(
        more,
        #[trigger] state.packages[i],
    ) by {
        let entry = state.packages[i];
        assert(has_justified_edges(answers, entry));
        assert forall|k: int| 0 <= k < entry.1.dependencies.len() implies is_asked_for(
            more,
            entry.0,
            #[trigger] entry.1.dependencies[k],
        ) by {
            let edge = entry.1.dependencies[k];
            assert(is_asked_for(answers, entry.0, edge));
            let (spec, optional) = choose|spec: SpecModel, optional: bool|
                #[trigger] asks(answers, entry.0, edge.name, spec, optional) && edge.spec
                    == manifest::spec_text(spec);
            assert(asks(more, entry.0, edge.name, spec, optional));
        }
    }
}

proof fn lemma_run_justified(
    root: ManifestModel,
    include_development: bool,
    states: Seq<ResolverModel>,
    answers: Seq<Answers>,
    i: int,
)
    requires
        solutions::is_run(root, include_development, states, answers),
        0 <= i < states.len(),
    ensures
        is_justified_so_far(states[i], answers[i]),
    decreases i,
{
    if i > 0 {
        lemma_run_justified(root, include_development, states, answers, i - 1);
        assert(solutions::extends(answers[i], answers[i - 1]));
        if states[i] != states[i - 1] {
            steps_add_only_what_is_asked_for(states[i - 1], answers[i - 1], states[i]);
        }
        lemma_more_justified(states[i], answers[i - 1], answers[i]);
    }
}

/// Every edge out of a package of a resolution is for something that the package's
/// registry entry lists as a dependency or as an optional dependency. So nothing gets in
/// that is only a development dependency or a peer of a dependency, whether the project's
/// own development dependencies are installed or not.
pub proof fn edges_are_asked_for(
    root: ManifestModel,
    include_development: bool,
    states: Seq<ResolverModel>,
    answers: Seq<Answers>,
    i: int,
    k: int,
)
    requires
        solutions::is_run(root, include_development, states, answers),
        0 <= i < states.last().packages.len(),
        0 <= k < states.last().packages[i].1.dependencies.len(),
    ensures
        ({
            let (id, package) = states.last().packages[i];
            let edge = package.dependencies[k];
            exists|r: RequirementModel| #[trigger]
                registers(answers.last(), id, r) && r.name == edge.name && manifest::spec_text(r.spec)
                    == edge.spec && (r.class == DependencyClass::Runtime || r.class
                    == DependencyClass::Optional)
        }),
{
    lemma_run_justified(root, include_development, states, answers, states.len() - 1);
    let entry = states.last().packages[i];
    let edge = entry.1.dependencies[k];
    assert(has_justified_edges(answers.last(), entry));
    assert(is_asked_for(answers.last(), entry.0, edge));
    let (spec, optional) = choose|spec: SpecModel, optional: bool|
        #[trigger] asks(answers.last(), entry.0, edge.name, spec, optional) && edge.spec
            == manifest::spec_text(spec);
    let r = RequirementModel {
        name: edge.name,
        spec,
        class: if optional {
            DependencyClass::Optional
        } else {
            DependencyClass::Runtime
        },
    };
    assert(registers(answers.last(), entry.0, r));
}

// ---------------------------------------------------------------------------
// What a package gets.

/// Whether an edge is for a requirement, and leads to what it asks for: to a package of
/// the resolution of that name, with a version in the range where it has one.
pub open spec fn meets(packages: Packages, edge: EdgeModel, r: RequirementModel) -> bool {
    &&& edge.name == r.name
    &&& edge.spec == manifest::spec_text(r.spec)
    &&& sorted::holds(packages, PackageIdModel { name: r.name, version: edge.version })
    &&& r.spec matches SpecModel::Range(range) ==> semver::range_takes(range, edge.version)
}

proof fn lemma_edge_meets(
    state: ResolverModel,
    i: int,
    key: PackageIdModel,
    r: RequirementModel,
)
    requires
        resolve::sound(state.packages),
        resolve::has_edge_for(state.packages, key, r),
        resolve::honest(r.spec),
        0 <= i < state.packages.len(),
        state.packages[i].0.rank() == key.rank(),
    ensures
        exists|k: int|
            0 <= k < state.packages[i].1.dependencies.len() && #[trigger] meets(
                state.packages,
                state.packages[i].1.dependencies[k],
                r,
            ),
{
    let packages = state.packages;
    sorted::lemma_holds_at(packages, key, i);
    let package = packages[i].1;
    assert(sorted::lookup(packages, key) == Some(package));
    assert(resolve::sound_package(packages, package));
    let k = choose|k: int|
        0 <= k < package.dependencies.len() && (#[trigger] package.dependencies[k]).name == r.name
            && package.dependencies[k].spec == manifest::spec_text(r.spec);
    let edge = package.dependencies[k];
    assert(sorted::holds(packages, resolve::edge_target(edge)));
    assert(resolve::edge_satisfied(edge));
    assert(meets(packages, edge, r));
}

proof fn lemma_honest(answers: Answers, id: PackageIdModel, r: RequirementModel)
    requires
        resolve::honest_answers(answers),
        registers(answers, id, r),
        r.class == DependencyClass::Runtime || r.class == DependencyClass::Optional,
    ensures
        resolve::honest(r.spec),
{
    let packument = sorted::lookup(answers, id.name)->0->Found_0;
    let list = resolve::dependencies_in(packument, id.version);
    lemma_expanded(packument, id.version, r);
    let k = choose|k: int| 0 <= k < list.len() && list[k] == r;
    assert(resolve::honest(
        resolve::dependencies_in(sorted::lookup(answers, id.name)->0->Found_0, id.version)[k].spec,
    ));
}

/// Where a recorded package is expanded.
proof fn lemma_expanded_at(state: ResolverModel, answers: Answers, i: int) -> (j: int)
    requires
        resolve::consistent(state, answers),
        0 <= i < state.packages.len(),
    ensures
        0 <= j < state.expanded.len(),
        state.expanded[j].0.rank() == state.packages[i].0.rank(),
{
    reveal(resolve::covers);
    let id = state.packages[i].0;
    assert(sorted::holds(state.expanded, id));
    sorted::slot(state.expanded, id) as int
}

/// Every dependency that the registry entry of a resolved package lists has an edge in
/// the finished resolution, to a version in its range.
pub proof fn dependencies_are_resolved(
    root: ManifestModel,
    include_development: bool,
    states: Seq<ResolverModel>,
    answers: Seq<Answers>,
    i: int,
    r: RequirementModel,
)
    requires
        solutions::is_run(root, include_development, states, answers),
        resolve::stepped(states.last(), answers.last()) is Done,
        0 <= i < states.last().packages.len(),
        registers(answers.last(), states.last().packages[i].0, r),
        r.class == DependencyClass::Runtime,
    ensures
        exists|k: int|
            0 <= k < states.last().packages[i].1.dependencies.len() && #[trigger] meets(
                states.last().packages,
                states.last().packages[i].1.dependencies[k],
                r,
            ),
{
    let state = states.last();
    let at_hand = answers.last();
    solutions::runs_stay_consistent(root, include_development, states, answers);
    assert(resolve::honest_answers(answers[answers.len() - 1]));
    let id = state.packages[i].0;
    let j = lemma_expanded_at(state, at_hand, i);
    let key = state.expanded[j].0;
    lemma_same_package(at_hand, id, key, r);
    let packument = sorted::lookup(at_hand, key.name)->0->Found_0;
    let list = resolve::expanded_requirements(state, at_hand, j);
    lemma_expanded(packument, key.version, r);
    let k = choose|k: int| 0 <= k < list.len() && list[k] == r;
    assert(resolve::expanded_requirement(state, at_hand, j, k) == r);
    lemma_done(state, at_hand);
    assert(resolve::accounted_for(state, key, r));
    assert(resolve::has_edge_for(state.packages, key, r));
    lemma_honest(at_hand, key, r);
    lemma_edge_meets(state, i, key, r);
}

proof fn lemma_done(state: ResolverModel, answers: Answers)
    requires
        resolve::stepped(state, answers) is Done,
    ensures
        state.queue.len() == 0,
{
    if state.queue.len() > 0 {
        let request = state.queue[0];
        match resolve::select(state.packages, request, answers) {
            Selection::Selected { version, packages } => {},
            _ => {},
        }
    }
}

// ---------------------------------------------------------------------------
// What need not be there.

/// The request of a package for a requirement that need not be met.
spec fn request_of(key: PackageIdModel, r: RequirementModel) -> RequestModel {
    RequestModel { parent: Some(key), name: r.name, spec: r.spec, optional: true }
}

/// Whether an optional requirement of a package waits, was met, or was skipped.
spec fn is_settled(
    state: ResolverModel,
    answers: Answers,
    key: PackageIdModel,
    r: RequirementModel,
) -> bool {
    ||| state.queue.contains(request_of(key, r))
    ||| resolve::has_edge_for(state.packages, key, r)
    ||| solutions::is_skipped(state, answers, r)
}

spec fn are_settled(state: ResolverModel, answers: Answers) -> bool {
    forall|i: int, r: RequirementModel|
        #![trigger registers(answers, state.expanded[i].0, r)]
        0 <= i < state.expanded.len() && registers(answers, state.expanded[i].0, r) && r.class
            == DependencyClass::Optional ==> is_settled(state, answers, state.expanded[i].0, r)
}

proof fn lemma_old_stays_settled(
    state: ResolverModel,
    answers: Answers,
    next: ResolverModel,
    key: PackageIdModel,
    r: RequirementModel,
)
    requires
        resolve::consistent(state, answers),
        resolve::stepped(state, answers) == Outcome::Stepped(next),
        is_settled(state, answers, key, r),
        sorted::holds(state.packages, key),
    ensures
        is_settled(next, answers, key, r),
{
    let request = state.queue[0];
    let one = request_of(key, r);
    resolve::lemma_selected(state.packages, request, answers);
    assert(resolve::honest(state.queue[0].spec));
    match resolve::select(state.packages, request, answers) {
        Selection::Selected { version, packages } => {
            let id = PackageIdModel { name: request.name, version };
            let edge = EdgeModel {
                name: request.name,
                spec: manifest::spec_text(request.spec),
                version,
            };
            assert(resolve::edge_target(edge) == id);
            assert(resolve::edge_satisfied(edge));
            let p = choose|p: ResolvedPackageModel|
                packages == #[trigger] sorted::put(state.packages, id, p) && p.dependencies.len()
                    == 0;
            if let Some(parent) = request.parent {
                resolve::lemma_linked(packages, parent, edge);
            }
            if resolve::has_edge_for(state.packages, key, r) {
                resolve::lemma_edges_kept(state.packages, id, packages, p, key, r);
                assert(resolve::has_edge_for(next.packages, key, r));
            } else if state.queue.contains(one) {
                let j = choose|j: int| 0 <= j < state.queue.len() && state.queue[j] == one;
                if j > 0 {
                    assert(next.queue[j - 1] == one);
                } else {
                    if packages != state.packages {
                        sorted::lemma_put_lookup(state.packages, id, p, key);
                        assert(sorted::lookup(packages, key) is Some);
                    }
                    assert(sorted::holds(packages, key));
                    assert(resolve::has_edge_for(next.packages, key, r));
                }
            }
        },
        Selection::Skipped { name, reason } => {
            if state.queue.contains(one) {
                let j = choose|j: int| 0 <= j < state.queue.len() && state.queue[j] == one;
                if j > 0 {
                    assert(next.queue[j - 1] == one);
                } else {
                    let last = next.skipped.len() - 1;
                    assert(next.skipped[last].0 == name);
                }
            }
        },
        _ => {},
    }
    if solutions::is_skipped(state, answers, r) {
        let j = choose|j: int|
            0 <= j < state.skipped.len() && ((#[trigger] state.skipped[j]).0 == r.name
                || sorted::lookup(answers, r.name) == Some(
                AnswerModel::Refused(
                    crate::registry::RegistryErrorModel::NotFound(state.skipped[j].0),
                ),
            ));
        assert(next.skipped[j] == state.skipped[j]);
    }
}

proof fn lemma_step_settles(state: ResolverModel, answers: Answers, next: ResolverModel)
    requires
        resolve::consistent(state, answers),
        are_settled(state, answers),
        resolve::stepped(state, answers) == Outcome::Stepped(next),
    ensures
        are_settled(next, answers),
{
    let request = state.queue[0];
    assert forall|i: int, r: RequirementModel|
        #![trigger registers(answers, next.expanded[i].0, r)]
        0 <= i < next.expanded.len() && registers(answers, next.expanded[i].0, r) && r.class
            == DependencyClass::Optional implies is_settled(
        next,
        answers,
        next.expanded[i].0,
        r,
    ) by {
        let key = next.expanded[i].0;
        let i0 = lemma_expanded_before(state, answers, next, i);
        if i0 >= 0 {
            assert(state.expanded[i0].0 == key);
            assert(registers(answers, state.expanded[i0].0, r));
            reveal(resolve::covers);
            assert(sorted::holds(state.packages, state.expanded[i0].0));
            lemma_old_stays_settled(state, answers, next, key, r);
        } else {
            let packument = sorted::lookup(answers, key.name)->0->Found_0;
            let list = resolve::dependencies_in(packument, key.version);
            lemma_expanded(packument, key.version, r);
            let k = choose|k: int| 0 <= k < list.len() && list[k] == r;
            let fresh = resolve::requests_of(Some(key), list);
            assert(fresh[k] == request_of(key, r));
            assert(next.queue == state.queue.skip(1) + fresh);
            assert(next.queue[state.queue.len() - 1 + k] == fresh[k]);
        }
    }
}

/// Where an expanded package was before a step; a new one has its requests queued.
proof fn lemma_expanded_before(
    state: ResolverModel,
    answers: Answers,
    next: ResolverModel,
    i: int,
) -> (i0: int)
    requires
        sorted::ascending(state.expanded),
        resolve::stepped(state, answers) == Outcome::Stepped(next),
        0 <= i < next.expanded.len(),
    ensures
        i0 >= 0 ==> i0 < state.expanded.len() && state.expanded[i0] == next.expanded[i],
        i0 < 0 ==> (sorted::lookup(answers, next.expanded[i].0.name) matches Some(
            AnswerModel::Found(packument),
        ) && next.queue == state.queue.skip(1) + resolve::requests_of(
            Some(next.expanded[i].0),
            resolve::dependencies_in(packument, next.expanded[i].0.version),
        )),
{
    let request = state.queue[0];
    match resolve::select(state.packages, request, answers) {
        Selection::Selected { version, packages } => {
            let id = PackageIdModel { name: request.name, version };
            sorted::lemma_slot(state.expanded, id);
            let at = sorted::slot(state.expanded, id) as int;
            if sorted::holds(state.expanded, id) || i < at {
                assert(next.expanded[i] == state.expanded[i]);
                i
            } else if i > at {
                assert(next.expanded[i] == state.expanded[i - 1]);
                i - 1
            } else {
                assert(next.expanded[i].0 == id);
                -1
            }
        },
        _ => i,
    }
}

proof fn lemma_run_settles(
    root: ManifestModel,
    include_development: bool,
    states: Seq<ResolverModel>,
    answers: Seq<Answers>,
    n: int,
)
    requires
        solutions::is_run(root, include_development, states, answers),
        0 <= n < states.len(),
    ensures
        are_settled(states[n], answers[n]),
        resolve::consistent(states[n], answers[n]),
    decreases n,
{
    let front = states.take(n + 1);
    let given = answers.take(n + 1);
    assert(solutions::is_run(root, include_development, front, given)) by {
        assert forall|i: int| 0 <= i < front.len() - 1 implies solutions::extends(
            given[i + 1],
            #[trigger] given[i],
        ) && (front[i + 1] == front[i] || resolve::stepped(front[i], given[i]) == Outcome::Stepped(
            front[i + 1],
        )) by {
            assert(given[i] == answers[i] && given[i + 1] == answers[i + 1]);
        }
        assert forall|i: int| 0 <= i < given.len() implies resolve::honest_answers(
            #[trigger] given[i],
        ) by {
            assert(given[i] == answers[i]);
        }
    }
    solutions::runs_stay_consistent(root, include_development, front, given);
    assert(front.last() == states[n] && given.last() == answers[n]);
    if n > 0 {
        let state = states[n - 1];
        let next = states[n];
        lemma_run_settles(root, include_development, states, answers, n - 1);
        assert(solutions::extends(answers[n], answers[n - 1]));
        if next != state {
            lemma_step_settles(state, answers[n - 1], next);
        }
        solutions::lemma_run_is_answered(root, include_development, states, answers, n - 1);
        assert forall|i: int, r: RequirementModel|
            #![trigger registers(answers[n], next.expanded[i].0, r)]
            0 <= i < next.expanded.len() && registers(answers[n], next.expanded[i].0, r) && r.class
                == DependencyClass::Optional implies is_settled(
            next,
            answers[n],
            next.expanded[i].0,
            r,
        ) by {
            let key = next.expanded[i].0;
            assert(sorted::lookup(answers[n - 1], next.expanded[i].0.name) is Some);
            assert(registers(answers[n - 1], next.expanded[i].0, r));
            assert(is_settled(next, answers[n - 1], key, r));
            if solutions::is_skipped(next, answers[n - 1], r) {
                let j = choose|j: int|
                    0 <= j < next.skipped.len() && ((#[trigger] next.skipped[j]).0 == r.name
                        || sorted::lookup(answers[n - 1], r.name) == Some(
                        AnswerModel::Refused(
                            crate::registry::RegistryErrorModel::NotFound(next.skipped[j].0),
                        ),
                    ));
                assert(next.skipped[j].0 == r.name || sorted::lookup(answers[n], r.name) == Some(
                    AnswerModel::Refused(
                        crate::registry::RegistryErrorModel::NotFound(next.skipped[j].0),
                    ),
                ));
            }
        }
    }
}

/// Every optional dependency that the registry entry of a resolved package lists has an
/// edge in the finished resolution, to a version in its range, or is reported as skipped.
pub proof fn optional_dependencies_are_resolved_or_skipped(
    root: ManifestModel,
    include_development: bool,
    states: Seq<ResolverModel>,
    answers: Seq<Answers>,
    i: int,
    r: RequirementModel,
)
    requires
        solutions::is_run(root, include_development, states, answers),
        resolve::stepped(states.last(), answers.last()) is Done,
        0 <= i < states.last().packages.len(),
        registers(answers.last(), states.last().packages[i].0, r),
        r.class == DependencyClass::Optional,
    ensures
        solutions::is_skipped(states.last(), answers.last(), r) || exists|k: int|
            0 <= k < states.last().packages[i].1.dependencies.len() && #[trigger] meets(
                states.last().packages,
                states.last().packages[i].1.dependencies[k],
                r,
            ),
{
    let state = states.last();
    let at_hand = answers.last();
    lemma_run_settles(root, include_development, states, answers, states.len() - 1);
    assert(resolve::honest_answers(answers[answers.len() - 1]));
    let id = state.packages[i].0;
    let j = lemma_expanded_at(state, at_hand, i);
    let key = state.expanded[j].0;
    lemma_same_package(at_hand, id, key, r);
    assert(registers(at_hand, state.expanded[j].0, r));
    lemma_done(state, at_hand);
    assert(is_settled(state, at_hand, key, r));
    if resolve::has_edge_for(state.packages, key, r) {
        lemma_honest(at_hand, key, r);
        lemma_edge_meets(state, i, key, r);
    }
}

// ---------------------------------------------------------------------------
// Which version is taken.

/// Whether a package of a name is in a range.
pub open spec fn is_candidate(
    packages: Packages,
    name: Seq<char>,
    range: semver::RangeModel,
    i: int,
) -> bool {
    0 <= i < packages.len() && packages[i].0.name == name && semver::range_takes(
        range,
        packages[i].0.version,
    )
}

/// Whether a version that the registry lists is in a range.
pub open spec fn is_listed(packument: PackumentModel, range: semver::RangeModel, i: int) -> bool {
    0 <= i < packument.versions.len() && semver::range_takes(range, packument.versions[i].0)
}

proof fn lemma_named_at(packages: Packages, name: Seq<char>, i: int) -> (k: int)
    requires
        0 <= i < packages.len(),
        packages[i].0.name == name,
    ensures
        0 <= k < resolve::versions_named(packages, name).len(),
        resolve::versions_named(packages, name)[k] == packages[i].0.version,
    decreases packages.len(),
{
    let front = packages.drop_last();
    if i < front.len() {
        assert(front[i] == packages[i]);
        lemma_named_at(front, name, i)
    } else {
        resolve::versions_named(packages, name).len() - 1
    }
}

/// A range takes the highest version in it that is in the resolution already, and then
/// adds nothing.
pub proof fn ranges_reuse_what_is_there(
    packages: Packages,
    request: RequestModel,
    answers: Answers,
    range: semver::RangeModel,
    i: int,
)
    requires
        request.spec == SpecModel::Range(range),
        is_candidate(packages, request.name, range, i),
    ensures
        ({
            let chosen = resolve::select(packages, request, answers);
            &&& chosen matches Selection::Selected { version, packages: after } && after == packages
                && !semver::version_before(version, packages[i].0.version) && exists|j: int|
                #[trigger] is_candidate(packages, request.name, range, j) && packages[j].0.version
                    == version
        }),
{
    let list = resolve::versions_named(packages, request.name);
    semver::highest_is_the_maximum(range, list);
    let k = lemma_named_at(packages, request.name, i);
    assert(semver::range_takes(range, list[k]));
    let at = semver::highest(range, list)->0;
    let j = resolve::lemma_versions_named(packages, request.name, at);
    assert(is_candidate(packages, request.name, range, j));
}

/// Where the resolution has no version in a range, the range takes the highest version in
/// it that the registry lists, which is then in the resolution; where the registry lists
/// none, the request fails, or is skipped if it may be.
pub proof fn ranges_take_the_highest_listed_version(
    packages: Packages,
    request: RequestModel,
    answers: Answers,
    range: semver::RangeModel,
    packument: PackumentModel,
    i: int,
)
    requires
        request.spec == SpecModel::Range(range),
        forall|j: int| !(#[trigger] is_candidate(packages, request.name, range, j)),
        sorted::lookup(answers, request.name) == Some(AnswerModel::Found(packument)),
        sorted::ascending(packages) && sorted::ascending(packument.versions),
    ensures
        ({
            let chosen = resolve::select(packages, request, answers);
            &&& is_listed(packument, range, i) ==> (chosen matches Selection::Selected {
                version,
                packages: after,
            } && !semver::version_before(version, packument.versions[i].0) && sorted::holds(
                after,
                PackageIdModel { name: request.name, version },
            ) && exists|j: int| #[trigger]
                is_listed(packument, range, j) && packument.versions[j].0 == version)
            &&& (forall|j: int| !(#[trigger] is_listed(packument, range, j))) ==> if request.optional {
                chosen matches Selection::Skipped { name, reason } && name == request.name
            } else {
                chosen matches Selection::Failed(_)
            }
        }),
{
    let list = resolve::versions_named(packages, request.name);
    semver::highest_is_the_maximum(range, list);
    assert(semver::highest(range, list) is None) by {
        if let Some(at) = semver::highest(range, list) {
            let j = resolve::lemma_versions_named(packages, request.name, at);
            assert(is_candidate(packages, request.name, range, j));
        }
    }
    let keys = resolve::keys(packument.versions);
    semver::highest_is_the_maximum(range, keys);
    if is_listed(packument, range, i) {
        assert(keys[i] == packument.versions[i].0);
        assert(semver::range_takes(range, keys[i]));
    }
    if let Some(at) = semver::highest(range, keys) {
        assert(is_listed(packument, range, at));
        let version = packument.versions[at].0;
        sorted::lemma_holds_at(packument.versions, version, at);
        let id = PackageIdModel { name: request.name, version };
        if !sorted::holds(packages, id) {
            let fresh = resolve::fresh_package(
                id,
                sorted::lookup(packument.versions, version)->0,
            );
            sorted::lemma_put_lookup(packages, id, fresh, id);
        }
    }
}

/// A tag takes the version that the registry's tag of that name says, where it lists
/// that version.
pub proof fn tags_take_what_they_say(
    packages: Packages,
    request: RequestModel,
    answers: Answers,
    tag: Seq<char>,
    packument: PackumentModel,
    version: VersionModel,
)
    requires
        request.spec == SpecModel::Tag(tag),
        sorted::lookup(answers, request.name) == Some(AnswerModel::Found(packument)),
        sorted::lookup(packument.dist_tags, tag) == Some(version),
        sorted::holds(packument.versions, version),
        sorted::ascending(packages),
    ensures
        resolve::select(packages, request, answers) matches Selection::Selected {
            version: taken,
            packages: after,
        } && taken == version && sorted::holds(
            after,
            PackageIdModel { name: request.name, version },
        ),
{
    let id = PackageIdModel { name: request.name, version };
    if !sorted::holds(packages, id) {
        let fresh = resolve::fresh_package(id, sorted::lookup(packument.versions, version)->0);
        sorted::lemma_put_lookup(packages, id, fresh, id);
    }
}

// ---------------------------------------------------------------------------
// What is installed is what was published.

/// Whether a package has the tarball and the integrity that the registry lists for it.
pub open spec fn is_published(
    answers: Answers,
    entry: (PackageIdModel, ResolvedPackageModel),
) -> bool {
    sorted::lookup(answers, entry.0.name) matches Some(AnswerModel::Found(packument)) && (
    sorted::lookup(packument.versions, entry.0.version) matches Some(metadata) && entry.1.tarball
        == metadata.tarball && entry.1.integrity == metadata.integrity)
}

spec fn are_published(packages: Packages, answers: Answers) -> bool {
    forall|i: int| 0 <= i < packages.len() ==> is_published(answers, #[trigger] packages[i])
}

proof fn lemma_put_published(
    answers: Answers,
    packages: Packages,
    id: PackageIdModel,
    value: ResolvedPackageModel,
)
    requires
        are_published(packages, answers),
        is_published(answers, (id, value)),
    ensures
        are_published(sorted::put(packages, id, value), answers),
{
    let after = sorted::put(packages, id, value);
    let at = sorted::slot(packages, id) as int;
    sorted::lemma_slot(packages, id);
    assert forall|i: int| 0 <= i < after.len() implies is_published(answers, #[trigger] after[i]) by {
        if i == at {
            let key = after[i].0;
            order::lemma_closed_text(key.name, id.name, key.version.rank(), id.version.rank());
            let packument = sorted::lookup(answers, id.name)->0->Found_0;
            lemma_lookup_by_rank(packument.versions, key.version, id.version);
        } else if sorted::holds(packages, id) || i < at {
            assert(after[i] == packages[i]);
        } else {
            assert(after[i] == packages[i - 1]);
        }
    }
}

proof fn lemma_step_publishes(state: ResolverModel, answers: Answers, next: ResolverModel)
    requires
        are_published(state.packages, answers),
        resolve::stepped(state, answers) == Outcome::Stepped(next),
    ensures
        are_published(next.packages, answers),
{
    let request = state.queue[0];
    if let Selection::Selected { version, packages } = resolve::select(
        state.packages,
        request,
        answers,
    ) {
        let id = PackageIdModel { name: request.name, version };
        if packages != state.packages {
            let packument = sorted::lookup(answers, request.name)->0->Found_0;
            let metadata = sorted::lookup(packument.versions, version)->0;
            lemma_put_published(
                answers,
                state.packages,
                id,
                resolve::fresh_package(id, metadata),
            );
        }
        if let Some(parent) = request.parent {
            if let Some(package) = sorted::lookup(packages, parent) {
                let at = sorted::slot(packages, parent) as int;
                let key = packages[at].0;
                assert(is_published(answers, packages[at]));
                order::lemma_closed_text(
                    key.name,
                    parent.name,
                    key.version.rank(),
                    parent.version.rank(),
                );
                let packument = sorted::lookup(answers, key.name)->0->Found_0;
                lemma_lookup_by_rank(packument.versions, key.version, parent.version);
                let edge = EdgeModel {
                    name: request.name,
                    spec: manifest::spec_text(request.spec),
                    version,
                };
                lemma_put_published(
                    answers,
                    packages,
                    parent,
                    ResolvedPackageModel {
                        dependencies: resolve::with_edge(package.dependencies, edge),
                        ..package
                    },
                );
            }
        }
    }
}

/// Every package of a resolution has the tarball and the integrity that the registry
/// lists for that name and version.
pub proof fn packages_are_as_published(
    root: ManifestModel,
    include_development: bool,
    states: Seq<ResolverModel>,
    answers: Seq<Answers>,
    n: int,
)
    requires
        solutions::is_run(root, include_development, states, answers),
        0 <= n < states.len(),
    ensures
        forall|i: int|
            0 <= i < states[n].packages.len() ==> is_published(
                answers[n],
                #[trigger] states[n].packages[i],
            ),
    decreases n,
{
    if n > 0 {
        packages_are_as_published(root, include_development, states, answers, n - 1);
        assert(solutions::extends(answers[n], answers[n - 1]));
        if states[n] != states[n - 1] {
            lemma_step_publishes(states[n - 1], answers[n - 1], states[n]);
        }
        assert(are_published(states[n].packages, answers[n - 1]));
        assert forall|i: int| 0 <= i < states[n].packages.len() implies is_published(
            answers[n],
            #[trigger] states[n].packages[i],
        ) by {
            assert(is_published(answers[n - 1], states[n].packages[i]));
            assert(sorted::lookup(answers[n - 1], states[n].packages[i].0.name) is Some);
        }
    }
}

// ---------------------------------------------------------------------------
// Roots.

proof fn lemma_version_is_named(packages: Packages, i: int)
    requires
        0 <= i < packages.len(),
    ensures
        resolve::versions_named(packages, packages[i].0.name).contains(packages[i].0.version),
    decreases packages.len(),
{
    let name = packages[i].0.name;
    let rest = packages.drop_last();
    let all = resolve::versions_named(packages, name);
    let front = resolve::versions_named(rest, name);
    if i < rest.len() {
        lemma_version_is_named(rest, i);
        assert(rest[i] == packages[i]);
        let k = choose|k: int| 0 <= k < front.len() && front[k] == packages[i].0.version;
        assert(all[k] == packages[i].0.version);
    } else {
        assert(all[all.len() - 1] == packages[i].0.version);
    }
}

proof fn lemma_only_pick(
    requirements: Seq<RecordModel>,
    packages: Packages,
    name: Seq<char>,
    i: int,
)
    requires
        0 <= i < requirements.len(),
        requirements[i].name == name,
        forall|j: int|
            0 <= j < requirements.len() && j != i ==> (#[trigger] requirements[j]).name != name,
    ensures
        resolve::best_pick(requirements, packages, name) == resolve::picked_version(
            packages,
            requirements[i],
        ),
    decreases requirements.len(),
{
    let rest = requirements.drop_last();
    assert(requirements.last() == requirements[requirements.len() - 1]);
    if i < rest.len() {
        assert forall|j: int| 0 <= j < rest.len() && j != i implies (#[trigger] rest[j]).name
            != name by {
            assert(rest[j] == requirements[j]);
        }
        lemma_only_pick(rest, packages, name, i);
    } else {
        assert forall|j: int| 0 <= j < rest.len() implies (#[trigger] rest[j]).name != name by {
            assert(rest[j] == requirements[j]);
        }
        lemma_no_pick(rest, packages, name);
    }
}

proof fn lemma_no_pick(requirements: Seq<RecordModel>, packages: Packages, name: Seq<char>)
    requires
        forall|j: int|
            0 <= j < requirements.len() ==> (#[trigger] requirements[j]).name != name,
    ensures
        resolve::best_pick(requirements, packages, name) is None,
    decreases requirements.len(),
{
    if requirements.len() > 0 {
        let rest = requirements.drop_last();
        assert(requirements[requirements.len() - 1].name != name);
        assert forall|j: int| 0 <= j < rest.len() implies (#[trigger] rest[j]).name != name by {
            assert(rest[j] == requirements[j]);
        }
        lemma_no_pick(rest, packages, name);
    }
}

proof fn lemma_kept_once<T>(list: Seq<T>, x: T)
    requires
        list.contains(x),
    ensures
        sorted::deduped(list).contains(x),
        sorted::deduped(list).last() == list.last(),
    decreases list.len(),
{
    let rest = list.drop_last();
    let all = sorted::deduped(list);
    let front = sorted::deduped(rest);
    let i = choose|i: int| 0 <= i < list.len() && list[i] == x;
    if rest.len() > 0 {
        assert(rest.contains(rest[0]));
        lemma_kept_once(rest, rest[0]);
    }
    if i < rest.len() {
        assert(rest[i] == x);
        lemma_kept_once(rest, x);
        let k = choose|k: int| 0 <= k < front.len() && front[k] == x;
        assert(all[k] == x);
    } else {
        assert(all[all.len() - 1] == x);
    }
}

proof fn lemma_root_target(
    requirements: Seq<RecordModel>,
    packages: Packages,
    n: nat,
    i: int,
    version: VersionModel,
)
    requires
        0 <= i < n <= requirements.len(),
        resolve::root_version(requirements, packages, requirements[i].name) == Some(version),
    ensures
        resolve::root_targets(requirements, packages, n).contains(
            PackageIdModel { name: requirements[i].name, version },
        ),
    decreases n,
{
    let id = PackageIdModel { name: requirements[i].name, version };
    let all = resolve::root_targets(requirements, packages, n);
    let front = resolve::root_targets(requirements, packages, (n - 1) as nat);
    if i < n - 1 {
        lemma_root_target(requirements, packages, (n - 1) as nat, i, version);
        let k = choose|k: int| 0 <= k < front.len() && front[k] == id;
        assert(all[k] == id);
    } else {
        assert(all[all.len() - 1] == id);
    }
}

/// What a project requires stands at its root: where one requirement is for a name and
/// has a range, the package of that name with the highest version in the range that was
/// resolved.
pub proof fn roots_are_the_highest_in_their_range(
    r: ResolutionModel,
    i: int,
    range: RangeModel,
    k: int,
)
    requires
        0 <= i < r.requirements.len(),
        forall|j: int|
            0 <= j < r.requirements.len() && j != i ==> (#[trigger] r.requirements[j]).name
                != r.requirements[i].name,
        semver::range_of(r.requirements[i].spec) == Some(range),
        0 <= k < r.packages.len(),
        r.packages[k].0.name == r.requirements[i].name,
        semver::range_takes(range, r.packages[k].0.version),
    ensures
        exists|at: int|
            0 <= at < r.packages.len() && resolve::roots_of(r).contains(
                (#[trigger] r.packages[at]).0,
            ) && r.packages[at].0.name == r.requirements[i].name && semver::range_takes(
                range,
                r.packages[at].0.version,
            ) && !semver::version_before(r.packages[at].0.version, r.packages[k].0.version),
{
    let name = r.requirements[i].name;
    let found = resolve::versions_named(r.packages, name);
    lemma_version_is_named(r.packages, k);
    let b = choose|b: int| 0 <= b < found.len() && found[b] == r.packages[k].0.version;
    semver::highest_is_the_maximum(range, found);
    let a = semver::highest(range, found)->0;
    assert(semver::range_takes(range, found[b]));
    lemma_only_pick(r.requirements, r.packages, name, i);
    let version = found[a];
    let at = resolve::lemma_versions_named(r.packages, name, a);
    let id = r.packages[at].0;
    let targets = resolve::root_targets(r.requirements, r.packages, r.requirements.len());
    lemma_root_target(r.requirements, r.packages, r.requirements.len(), i, version);
    sorted::sorting_orders_and_keeps(targets);
    let list = sorted::stable_sorted(targets);
    assert(list.contains(id)) by {
        broadcast use vstd::seq_lib::group_to_multiset_ensures;

        assert(targets.to_multiset().count(id) > 0);
        assert(list.to_multiset().count(id) > 0);
    }
    lemma_kept_once(list, id);
}

/// A lockfile is written for what the manifest asks for: each requirement that an install
/// fetches is recorded with its class, its name and its specifier, and nothing else is.
pub proof fn records_are_what_is_declared(
    root: ManifestModel,
    include_development: bool,
    record: RecordModel,
)
    ensures
        resolve::declared_records(root, include_development).contains(record) <==> exists|i: int|
            0 <= i < root.requirements.len() && manifest::fetched(include_development)(
                #[trigger] root.requirements[i],
            ) && record == (RecordModel {
                class: root.requirements[i].class,
                name: root.requirements[i].name,
                spec: manifest::spec_text(root.requirements[i].spec),
            }),
{
    let wanted = manifest::wanted(root.requirements, include_development);
    manifest::installs_fetch_by_class(root.requirements, include_development);
    let keep = manifest::fetched(include_development);
    let records = resolve::records_of(wanted);
    let all = resolve::declared_records(root, include_development);
    sorted::sorting_orders_and_keeps(records);
    assert(all.contains(record) <==> records.contains(record)) by {
        broadcast use vstd::seq_lib::group_to_multiset_ensures;

        assert(all.to_multiset().count(record) == records.to_multiset().count(record));
    }
    if records.contains(record) {
        let k = choose|k: int| 0 <= k < records.len() && records[k] == record;
        lemma_filtered(root.requirements, keep, wanted[k]);
        let i = choose|i: int|
            0 <= i < root.requirements.len() && root.requirements[i] == wanted[k];
        assert(keep(root.requirements[i]));
    }
    if exists|i: int|
        0 <= i < root.requirements.len() && keep(#[trigger] root.requirements[i]) && record == (
        RecordModel {
            class: root.requirements[i].class,
            name: root.requirements[i].name,
            spec: manifest::spec_text(root.requirements[i].spec),
        }) {
        let i = choose|i: int|
            0 <= i < root.requirements.len() && keep(#[trigger] root.requirements[i]) && record == (
            RecordModel {
                class: root.requirements[i].class,
                name: root.requirements[i].name,
                spec: manifest::spec_text(root.requirements[i].spec),
            });
        lemma_filtered(root.requirements, keep, root.requirements[i]);
        let k = choose|k: int| 0 <= k < wanted.len() && wanted[k] == root.requirements[i];
        assert(records[k] == record);
    }
}

} // verus!
