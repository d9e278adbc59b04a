//! What holds of whole resolutions.
//!
//! A resolution is made step by step, and the registry's answers come in between.
//! What is stated of a single step in `resolve` is carried here from the start of
//! a resolution to its end.

use vstd::prelude::*;
use crate::manifest::{ManifestModel, RequirementModel, SpecModel};
use crate::order::Rank;
use crate::registry::{MetadataModel, RegistryErrorModel};
use crate::resolve::{
    AnswerModel, Answers, EdgeModel, Outcome, PackageIdModel, Packages, RecordModel, RequestModel,
    ResolutionModel, ResolvedPackageModel, ResolverModel, Selection,
};
use crate::semver::VersionModel;
use crate::{link, manifest, order, plans, resolve, semver, sorted};

verus! {

// ---------------------------------------------------------------------------
// Runs.

/// Whether answers only became more.
pub open spec fn extends(more: Answers, answers: Answers) -> bool {
    forall|name: Seq<char>|
        (#[trigger] sorted::lookup(answers, name)) is Some ==> sorted::lookup(more, name)
            == sorted::lookup(answers, name)
}

/// The requirements that a resolution starts from.
pub open spec fn asked(root: ManifestModel, include_development: bool) -> Seq<RequirementModel> {
    manifest::wanted(root.requirements, include_development)
}

/// Whether a resolution went through these states, with these answers at hand in
/// each: it starts with the project's own requirements, and then takes a step or
/// waits for more answers.
pub open spec fn is_run(
    root: ManifestModel,
    include_development: bool,
    states: Seq<ResolverModel>,
    answers: Seq<Answers>,
) -> bool {
    &&& states.len() == answers.len()
    &&& states.len() > 0
    &&& states[0] == resolve::started(root, include_development)
    &&& forall|k: int|
        0 <= k < root.requirements.len() ==> resolve::honest((#[trigger] root.requirements[k]).spec)
    &&& forall|i: int| 0 <= i < answers.len() ==> resolve::honest_answers(#[trigger] answers[i])
    &&& forall|i: int|
        0 <= i < states.len() - 1 ==> extends(answers[i + 1], #[trigger] answers[i]) && (states[i
            + 1] == states[i] || resolve::stepped(states[i], answers[i]) == Outcome::Stepped(
            states[i + 1],
        ))
}

/// What a finished run resolved.
pub open spec fn outcome_of(state: ResolverModel) -> ResolutionModel {
    ResolutionModel {
        requirements: state.requirements,
        packages: state.packages,
        skipped: state.skipped,
    }
}

// ---------------------------------------------------------------------------
// What every state of a run keeps.

/// Every expanded package was answered.
spec fn is_answered(state: ResolverModel, answers: Answers) -> bool {
    forall|i: int|
        0 <= i < state.expanded.len() ==> sorted::lookup(
            answers,
            (#[trigger] state.expanded[i]).0.name,
        ) is Some
}

/// A package says what it is, and lists its edges in order, each once.
pub open spec fn is_tidy_entry(entry: (PackageIdModel, ResolvedPackageModel)) -> bool {
    &&& entry.1.id == entry.0
    &&& sorted::in_order(entry.1.dependencies)
    &&& entry.1.dependencies.no_duplicates()
}

/// Every package says what it is, and lists its edges in order, each once.
pub open spec fn is_tidy(packages: Packages) -> bool {
    forall|i: int| 0 <= i < packages.len() ==> is_tidy_entry(#[trigger] packages[i])
}

/// Whether some package is what a requirement asks for: of that name, and in the
/// range where it has one.
pub open spec fn is_met(packages: Packages, r: RequirementModel) -> bool {
    exists|i: int|
        0 <= i < packages.len() && (#[trigger] packages[i]).0.name == r.name && (
        r.spec matches SpecModel::Range(range) ==> semver::range_takes(
            range,
            packages[i].0.version,
        ))
}

/// Whether a requirement was skipped: under its name, or under the one by which
/// the registry says that it has no such package.
pub open spec fn is_skipped(state: ResolverModel, answers: Answers, r: RequirementModel) -> bool {
    exists|j: int|
        0 <= j < state.skipped.len() && ((#[trigger] state.skipped[j]).0 == r.name
            || sorted::lookup(answers, r.name) == Some(
            AnswerModel::Refused(RegistryErrorModel::NotFound(state.skipped[j].0)),
        ))
}

/// The request of the project for a requirement.
spec fn request_of(r: RequirementModel) -> RequestModel {
    RequestModel {
        parent: None,
        name: r.name,
        spec: r.spec,
        optional: manifest::absence_is_tolerated(r.class),
    }
}

/// Whether a requirement of the project waits, is met, or may be skipped and was.
spec fn is_settled(state: ResolverModel, answers: Answers, r: RequirementModel) -> bool {
    ||| state.queue.contains(request_of(r))
    ||| is_met(state.packages, r)
    ||| manifest::absence_is_tolerated(r.class) && is_skipped(state, answers, r)
}

spec fn are_settled(
    state: ResolverModel,
    answers: Answers,
    list: Seq<RequirementModel>,
) -> bool {
    forall|k: int| 0 <= k < list.len() ==> is_settled(state, answers, #[trigger] list[k])
}

/// Whether one entry has the key of another, and all its edges.
#[verifier::opaque]
spec fn is_later(
    before: (PackageIdModel, ResolvedPackageModel),
    after: (PackageIdModel, ResolvedPackageModel),
) -> bool {
    &&& after.0 == before.0
    &&& forall|e: EdgeModel|
        before.1.dependencies.contains(e) ==> #[trigger] after.1.dependencies.contains(e)
}

/// Whether packages only became more, and their edges too.
#[verifier::opaque]
spec fn grows(before: Packages, after: Packages) -> bool {
    forall|i: int| 0 <= i < before.len() ==> #[trigger] is_kept(before[i], after)
}

spec fn is_kept(before: (PackageIdModel, ResolvedPackageModel), after: Packages) -> bool {
    exists|j: int| 0 <= j < after.len() && #[trigger] is_later(before, after[j])
}

/// Where an entry went.
proof fn lemma_grown(before: Packages, after: Packages, i: int) -> (j: int)
    requires
        grows(before, after),
        0 <= i < before.len(),
    ensures
        0 <= j < after.len(),
        after[j].0 == before[i].0,
        forall|e: EdgeModel|
            before[i].1.dependencies.contains(e) ==> #[trigger] after[j].1.dependencies.contains(e),
{
    reveal(grows);
    reveal(is_later);
    assert(is_kept(before[i], after));
    choose|j: int| 0 <= j < after.len() && #[trigger] is_later(before[i], after[j])
}

proof fn lemma_put_grows(packages: Packages, id: PackageIdModel, value: ResolvedPackageModel)
    requires
        sorted::ascending(packages),
        sorted::lookup(packages, id) matches Some(old) ==> forall|e: EdgeModel|
            old.dependencies.contains(e) ==> #[trigger] value.dependencies.contains(e),
    ensures
        grows(packages, sorted::put(packages, id, value)),
{
    reveal(grows);
    reveal(is_later);
    let after = sorted::put(packages, id, value);
    sorted::lemma_slot(packages, id);
    let at = sorted::slot(packages, id) as int;
    assert forall|i: int| 0 <= i < packages.len() implies #[trigger] is_kept(packages[i], after) by {
        if sorted::holds(packages, id) || i < at {
            assert(is_later(packages[i], after[i]));
        } else {
            assert(is_later(packages[i], after[i + 1]));
        }
    }
}

proof fn lemma_put_nothing(packages: Packages)
    ensures
        grows(packages, packages),
{
    reveal(grows);
    reveal(is_later);
    assert forall|i: int| 0 <= i < packages.len() implies #[trigger] is_kept(
        packages[i],
        packages,
    ) by {
        assert(is_later(packages[i], packages[i]));
    }
}

proof fn lemma_grows_twice(a: Packages, b: Packages, c: Packages)
    requires
        grows(a, b),
        grows(b, c),
    ensures
        grows(a, c),
{
    assert forall|i: int| 0 <= i < a.len() implies #[trigger] is_kept(a[i], c) by {
        let k = lemma_grown(a, b, i);
        let j = lemma_grown(b, c, k);
        reveal(is_later);
        assert(is_later(a[i], c[j]));
    }
    reveal(grows);
}

proof fn lemma_with_edge(list: Seq<EdgeModel>, edge: EdgeModel)
    requires
        sorted::in_order(list),
        list.no_duplicates(),
    ensures
        sorted::in_order(resolve::with_edge(list, edge)),
        resolve::with_edge(list, edge).no_duplicates(),
        resolve::with_edge(list, edge).contains(edge),
        forall|e: EdgeModel| list.contains(e) ==> #[trigger] resolve::with_edge(list, edge).contains(
            e,
        ),
{
    if !list.contains(edge) {
        let pushed = list.push(edge);
        let after = sorted::stable_sorted(pushed);
        sorted::sorting_orders_and_keeps(pushed);
        broadcast use vstd::seq_lib::group_to_multiset_ensures;

        assert(pushed.no_duplicates());
        pushed.lemma_multiset_has_no_duplicates();
        assert(after.to_multiset() == pushed.to_multiset());
        after.lemma_multiset_has_no_duplicates_conv();
        assert forall|e: EdgeModel| pushed.contains(e) implies #[trigger] after.contains(e) by {
            assert(pushed.to_multiset().count(e) > 0);
        }
        assert(pushed[pushed.len() - 1] == edge);
        assert forall|e: EdgeModel| list.contains(e) implies #[trigger] after.contains(e) by {
            let k = choose|k: int| 0 <= k < list.len() && list[k] == e;
            assert(pushed[k] == e);
        }
    }
}

/// What one step does to the packages.
proof fn lemma_packages_step(state: ResolverModel, answers: Answers, next: ResolverModel)
    requires
        resolve::sound(state.packages),
        is_tidy(state.packages),
        resolve::stepped(state, answers) == Outcome::Stepped(next),
    ensures
        is_tidy(next.packages),
        grows(state.packages, next.packages),
{
    let request = state.queue[0];
    match resolve::select(state.packages, request, answers) {
        Selection::Selected { version, packages } => {
            lemma_selection(state.packages, request, answers, version, packages);
            lemma_linked(packages, request, version);
            lemma_grows_twice(state.packages, packages, next.packages);
        },
        _ => {
            lemma_put_nothing(state.packages);
        },
    }
}

/// What a new package does to the packages.
proof fn lemma_fresh(packages: Packages, id: PackageIdModel, metadata: MetadataModel)
    requires
        sorted::ascending(packages),
        is_tidy(packages),
        !sorted::holds(packages, id),
    ensures
        ({
            let after = sorted::put(packages, id, resolve::fresh_package(id, metadata));
            &&& sorted::ascending(after)
            &&& is_tidy(after)
            &&& grows(packages, after)
            &&& sorted::holds(after, id)
        }),
{
    let fresh = resolve::fresh_package(id, metadata);
    let after = sorted::put(packages, id, fresh);
    sorted::lemma_put_ascending(packages, id, fresh);
    lemma_put_grows(packages, id, fresh);
    sorted::lemma_slot(packages, id);
    let at = sorted::slot(packages, id) as int;
    assert forall|i: int| 0 <= i < after.len() implies is_tidy_entry(#[trigger] after[i]) by {
        if i < at {
            assert(after[i] == packages[i]);
        } else if i > at {
            assert(after[i] == packages[i - 1]);
        } else {
            assert(after[i] == (id, fresh));
        }
    }
    sorted::lemma_put_lookup(packages, id, fresh, id);
}

/// What selecting a version does to the packages.
proof fn lemma_selection(
    packages: Packages,
    request: RequestModel,
    answers: Answers,
    version: VersionModel,
    after: Packages,
)
    requires
        resolve::sound(packages),
        is_tidy(packages),
        resolve::select(packages, request, answers) == (Selection::Selected {
            version,
            packages: after,
        }),
    ensures
        sorted::ascending(after),
        is_tidy(after),
        grows(packages, after),
        sorted::holds(after, PackageIdModel { name: request.name, version }),
        request.spec matches SpecModel::Range(range) ==> semver::range_takes(range, version),
{
    let id = PackageIdModel { name: request.name, version };
    resolve::lemma_selected(packages, request, answers);
    lemma_put_nothing(packages);
    if after != packages {
        let packument = sorted::lookup(answers, request.name)->0->Found_0;
        let metadata = sorted::lookup(packument.versions, version)->0;
        assert(after == sorted::put(packages, id, resolve::fresh_package(id, metadata)));
        lemma_fresh(packages, id, metadata);
    }
}

/// What recording an edge does to the packages.
proof fn lemma_linked(packages: Packages, request: RequestModel, version: VersionModel)
    requires
        sorted::ascending(packages),
        is_tidy(packages),
    ensures
        sorted::ascending(resolve::recorded(packages, request, version)),
        is_tidy(resolve::recorded(packages, request, version)),
        grows(packages, resolve::recorded(packages, request, version)),
{
    let after = resolve::recorded(packages, request, version);
    lemma_put_nothing(packages);
    if let Some(parent) = request.parent {
        if let Some(package) = sorted::lookup(packages, parent) {
            let edge = EdgeModel {
                name: request.name,
                spec: manifest::spec_text(request.spec),
                version,
            };
            let at = sorted::slot(packages, parent) as int;
            assert(packages[at].1 == package);
            assert(is_tidy_entry(packages[at]));
            lemma_with_edge(package.dependencies, edge);
            let value = ResolvedPackageModel {
                dependencies: resolve::with_edge(package.dependencies, edge),
                ..package
            };
            sorted::lemma_put_ascending(packages, parent, value);
            lemma_put_grows(packages, parent, value);
            assert forall|i: int| 0 <= i < after.len() implies is_tidy_entry(
                #[trigger] after[i],
            ) by {
                if i == at {
                    assert(after[i] == (packages[at].0, value));
                } else {
                    assert(after[i] == packages[i]);
                }
            }
        }
    }
}

proof fn lemma_still_met(before: Packages, after: Packages, r: RequirementModel)
    requires
        grows(before, after),
        is_met(before, r),
    ensures
        is_met(after, r),
{
    let i = choose|i: int|
        0 <= i < before.len() && (#[trigger] before[i]).0.name == r.name && (
        r.spec matches SpecModel::Range(range) ==> semver::range_takes(range, before[i].0.version));
    let j = lemma_grown(before, after, i);
    assert(after[j].0.name == r.name);
}

/// A step settles what it takes off the queue, and keeps what is settled.
proof fn lemma_settled_step(
    state: ResolverModel,
    answers: Answers,
    next: ResolverModel,
    r: RequirementModel,
)
    requires
        resolve::sound(state.packages),
        is_tidy(state.packages),
        resolve::stepped(state, answers) == Outcome::Stepped(next),
        is_settled(state, answers, r),
    ensures
        is_settled(next, answers, r),
{
    let request = state.queue[0];
    lemma_packages_step(state, answers, next);
    if is_met(state.packages, r) {
        lemma_still_met(state.packages, next.packages, r);
    } else if state.queue.contains(request_of(r)) {
        let k = choose|k: int| 0 <= k < state.queue.len() && state.queue[k] == request_of(r);
        if k > 0 {
            assert(next.queue[k - 1] == request_of(r));
        } else {
            match resolve::select(state.packages, request, answers) {
                Selection::Selected { version, packages } => {
                    let id = PackageIdModel { name: request.name, version };
                    lemma_selection(state.packages, request, answers, version, packages);
                    let at = sorted::slot(packages, id) as int;
                    assert(next.packages == packages);
                    lemma_same_rank(packages[at].0, id);
                    if let SpecModel::Range(range) = r.spec {
                        semver::lemma_range_ignores_build(range, version, packages[at].0.version);
                    }
                    assert(packages[at].0.name == r.name);
                    assert(is_met(next.packages, r));
                },
                Selection::Skipped { name, reason } => {
                    let last = next.skipped.len() - 1;
                    assert(next.skipped[last].0 == name);
                },
                _ => {},
            }
        }
    } else {
        let j = choose|j: int|
            0 <= j < state.skipped.len() && ((#[trigger] state.skipped[j]).0 == r.name
                || sorted::lookup(answers, r.name) == Some(
                AnswerModel::Refused(RegistryErrorModel::NotFound(state.skipped[j].0)),
            ));
        assert(next.skipped[j] == state.skipped[j]);
    }
}

/// Packages of one rank have one name, and versions of one rank.
proof fn lemma_same_rank(a: PackageIdModel, b: PackageIdModel)
    requires
        a.rank() == b.rank(),
    ensures
        a.name == b.name,
        a.version.rank() == b.version.rank(),
{
    order::lemma_closed_text(a.name, b.name, a.version.rank(), b.version.rank());
}

// ---------------------------------------------------------------------------
// From the start of a run to its end.

/// What every state of a run keeps.
spec fn is_sound_so_far(
    list: Seq<RequirementModel>,
    state: ResolverModel,
    answers: Answers,
) -> bool {
    &&& resolve::consistent(state, answers)
    &&& is_answered(state, answers)
    &&& is_tidy(state.packages)
    &&& are_settled(state, answers, list)
}

/// More answers change nothing.
proof fn lemma_more_answers(
    list: Seq<RequirementModel>,
    state: ResolverModel,
    answers: Answers,
    more: Answers,
)
    requires
        is_sound_so_far(list, state, answers),
        extends(more, answers),
    ensures
        is_sound_so_far(list, state, more),
{
    assert forall|i: int, k: int|
        #![trigger resolve::expanded_requirement(state, more, i, k)]
        0 <= i < state.expanded.len() && 0 <= k < resolve::expanded_requirements(
            state,
            more,
            i,
        ).len() implies resolve::accounted_for(
        state,
        state.expanded[i].0,
        resolve::expanded_requirement(state, more, i, k),
    ) by {
        assert(sorted::lookup(answers, state.expanded[i].0.name) is Some);
        assert(resolve::expanded_requirements(state, more, i) == resolve::expanded_requirements(
            state,
            answers,
            i,
        ));
        assert(resolve::expanded_requirement(state, more, i, k) == resolve::expanded_requirement(
            state,
            answers,
            i,
            k,
        ));
    }
    assert forall|k: int| 0 <= k < list.len() implies is_settled(state, more, #[trigger] list[k]) by {
        let r = list[k];
        assert(is_settled(state, answers, r));
        if is_skipped(state, answers, r) {
            let j = choose|j: int|
                0 <= j < state.skipped.len() && ((#[trigger] state.skipped[j]).0 == r.name
                    || sorted::lookup(answers, r.name) == Some(
                    AnswerModel::Refused(RegistryErrorModel::NotFound(state.skipped[j].0)),
                ));
            assert(state.skipped[j].0 == r.name || sorted::lookup(more, r.name) == Some(
                AnswerModel::Refused(RegistryErrorModel::NotFound(state.skipped[j].0)),
            ));
        }
    }
}

proof fn lemma_answered_step(state: ResolverModel, answers: Answers, next: ResolverModel)
    requires
        is_answered(state, answers),
        sorted::ascending(state.expanded),
        resolve::stepped(state, answers) == Outcome::Stepped(next),
    ensures
        is_answered(next, answers),
{
    let request = state.queue[0];
    if let Selection::Selected { version, packages } = resolve::select(
        state.packages,
        request,
        answers,
    ) {
        let id = PackageIdModel { name: request.name, version };
        sorted::lemma_slot(state.expanded, id);
        let at = sorted::slot(state.expanded, id) as int;
        assert forall|i: int| 0 <= i < next.expanded.len() implies sorted::lookup(
            answers,
            (#[trigger] next.expanded[i]).0.name,
        ) is Some by {
            if sorted::holds(state.expanded, id) || i < at {
                assert(next.expanded[i] == state.expanded[i]);
            } else if i > at {
                assert(next.expanded[i] == state.expanded[i - 1]);
            } else {
                assert(next.expanded[i].0 == id);
            }
        }
    }
}

proof fn lemma_run(
    root: ManifestModel,
    include_development: bool,
    states: Seq<ResolverModel>,
    answers: Seq<Answers>,
    i: int,
)
    requires
        is_run(root, include_development, states, answers),
        0 <= i < states.len(),
    ensures
        is_sound_so_far(asked(root, include_development), states[i], answers[i]),
        states[i].requirements == resolve::declared_records(root, include_development),
    decreases i,
{
    let list = asked(root, include_development);
    if i == 0 {
        resolve::a_resolution_starts_consistent(root, include_development, answers[0]);
        assert forall|k: int| 0 <= k < list.len() implies is_settled(
            states[0],
            answers[0],
            #[trigger] list[k],
        ) by {
            assert(states[0].queue[k] == request_of(list[k]));
        }
    } else {
        let state = states[i - 1];
        let at_hand = answers[i - 1];
        lemma_run(root, include_development, states, answers, i - 1);
        assert(resolve::honest_answers(at_hand));
        assert(extends(answers[i], at_hand));
        if states[i] != state {
            resolve::steps_keep_a_resolution_consistent(state, at_hand);
            lemma_answered_step(state, at_hand, states[i]);
            lemma_packages_step(state, at_hand, states[i]);
            assert forall|k: int| 0 <= k < list.len() implies is_settled(
                states[i],
                at_hand,
                #[trigger] list[k],
            ) by {
                lemma_settled_step(state, at_hand, states[i], list[k]);
            }
        }
        lemma_more_answers(list, states[i], at_hand, answers[i]);
    }
}

/// Every package that a run expanded was answered.
pub proof fn lemma_run_is_answered(
    root: ManifestModel,
    include_development: bool,
    states: Seq<ResolverModel>,
    answers: Seq<Answers>,
    n: int,
)
    requires
        is_run(root, include_development, states, answers),
        0 <= n < states.len(),
    ensures
        forall|i: int|
            0 <= i < states[n].expanded.len() ==> sorted::lookup(
                answers[n],
                (#[trigger] states[n].expanded[i]).0.name,
            ) is Some,
        n + 1 < states.len() ==> forall|i: int|
            0 <= i < states[n + 1].expanded.len() ==> sorted::lookup(
                answers[n],
                (#[trigger] states[n + 1].expanded[i]).0.name,
            ) is Some,
{
    lemma_run(root, include_development, states, answers, n);
    if n + 1 < states.len() {
        assert(extends(answers[n + 1], answers[n]));
        if states[n + 1] != states[n] {
            lemma_answered_step(states[n], answers[n], states[n + 1]);
        }
    }
}

/// A run stays consistent from its start to its end, whatever answers come in
/// between.
pub proof fn runs_stay_consistent(
    root: ManifestModel,
    include_development: bool,
    states: Seq<ResolverModel>,
    answers: Seq<Answers>,
)
    requires
        is_run(root, include_development, states, answers),
    ensures
        resolve::consistent(states.last(), answers.last()),
        states.last().requirements == resolve::declared_records(root, include_development),
{
    lemma_run(root, include_development, states, answers, states.len() - 1);
}

/// A finished run meets every requirement of the project: some package has its
/// name, and a version in its range where it has one. Only what may be absent is
/// skipped instead.
pub proof fn finished_runs_meet_every_requirement(
    root: ManifestModel,
    include_development: bool,
    states: Seq<ResolverModel>,
    answers: Seq<Answers>,
    k: int,
)
    requires
        is_run(root, include_development, states, answers),
        resolve::stepped(states.last(), answers.last()) is Done,
        0 <= k < asked(root, include_development).len(),
    ensures
        ({
            let r = asked(root, include_development)[k];
            ||| is_met(outcome_of(states.last()).packages, r)
            ||| manifest::absence_is_tolerated(r.class) && is_skipped(
                states.last(),
                answers.last(),
                r,
            )
        }),
{
    let list = asked(root, include_development);
    lemma_run(root, include_development, states, answers, states.len() - 1);
    lemma_done(states.last(), answers.last());
    assert(is_settled(states.last(), answers.last(), list[k]));
}

/// A resolution is done when its queue is empty.
proof fn lemma_done(state: ResolverModel, answers: Answers)
    requires
        resolve::stepped(state, answers) is Done,
    ensures
        state.queue.len() == 0,
{
    if state.queue.len() > 0 {
        let request = state.queue[0];
        match resolve::select(state.packages, request, answers) {
            Selection::Selected { version, packages } => {
                assert(!(resolve::expand(state, request, version, packages, answers) is Done));
            },
            _ => {},
        }
    }
}

/// In every state of a run a package says what it is, lists its edges by name and
/// specifier, each once, and all of them lead to packages.
pub proof fn runs_keep_packages_tidy(
    root: ManifestModel,
    include_development: bool,
    states: Seq<ResolverModel>,
    answers: Seq<Answers>,
)
    requires
        is_run(root, include_development, states, answers),
    ensures
        is_tidy(states.last().packages),
        resolve::sound(states.last().packages),
{
    lemma_run(root, include_development, states, answers, states.len() - 1);
}

// ---------------------------------------------------------------------------
// Every package is there for the project's sake.

/// Whether packuments list the versions that their tags name under the very same
/// spelling, build metadata and all.
pub open spec fn lists_exactly(answers: Answers) -> bool {
    forall|name: Seq<char>, tag: Seq<char>|
        (sorted::lookup(answers, name) matches Some(AnswerModel::Found(packument)) ==> {
            &&& sorted::ascending(packument.versions)
            &&& #[trigger] sorted::lookup(
                sorted::lookup(answers, name)->0->Found_0.dist_tags,
                tag,
            ) matches Some(version) ==> sorted::holds(packument.versions, version)
                ==> resolve::keys(packument.versions).contains(version)
        })
}

/// The package that a requirement of the project picks from the registry.
pub open spec fn choice_of(r: RequirementModel, answers: Answers) -> Option<PackageIdModel> {
    match sorted::lookup(answers, r.name) {
        Some(AnswerModel::Found(packument)) => match resolve::picked(r.spec, packument) {
            Some(version) => Some(PackageIdModel { name: r.name, version }),
            None => None,
        },
        _ => None,
    }
}

/// Whether the registry lists a package.
spec fn is_listed(answers: Answers, id: PackageIdModel) -> bool {
    sorted::lookup(answers, id.name) matches Some(AnswerModel::Found(packument))
        && resolve::keys(packument.versions).contains(id.version)
}

proof fn lemma_versions_ascend(answers: Answers, name: Seq<char>)
    requires
        lists_exactly(answers),
        sorted::lookup(answers, name) matches Some(AnswerModel::Found(_)),
    ensures
        sorted::ascending(sorted::lookup(answers, name)->0->Found_0.versions),
{
    let tag = Seq::<char>::empty();
    assert(sorted::lookup(sorted::lookup(answers, name)->0->Found_0.dist_tags, tag)
        == sorted::lookup(sorted::lookup(answers, name)->0->Found_0.dist_tags, tag));
}

/// What is listed under one rank is one package.
proof fn lemma_listed_once(answers: Answers, a: PackageIdModel, b: PackageIdModel)
    requires
        lists_exactly(answers),
        is_listed(answers, a),
        is_listed(answers, b),
        a.rank() == b.rank(),
    ensures
        a == b,
{
    lemma_same_rank(a, b);
    lemma_versions_ascend(answers, a.name);
    let versions = sorted::lookup(answers, a.name)->0->Found_0.versions;
    let keys = resolve::keys(versions);
    let i = choose|i: int| 0 <= i < keys.len() && keys[i] == a.version;
    let j = choose|j: int| 0 <= j < keys.len() && keys[j] == b.version;
    order::lemma_irreflexive(a.version.rank());
    assert(i < j ==> order::precedes(versions[i].0.rank(), versions[j].0.rank()));
    assert(j < i ==> order::precedes(versions[j].0.rank(), versions[i].0.rank()));
}

/// Packages, parents and edges are spelled as the registry lists them.
spec fn is_exact(state: ResolverModel, answers: Answers) -> bool {
    &&& forall|i: int|
        0 <= i < state.packages.len() ==> is_listed(answers, (#[trigger] state.packages[i]).0)
    &&& forall|k: int|
        0 <= k < state.queue.len() ==> ((#[trigger] state.queue[k]).parent matches Some(parent)
            ==> plans::is_key(state.packages, parent))
    &&& has_closed_edges(state.packages)
}

/// Every edge leads to a package, spelled as the package is.
pub open spec fn has_closed_edges(packages: Packages) -> bool {
    forall|i: int, e: EdgeModel|
        0 <= i < packages.len() && #[trigger] packages[i].1.dependencies.contains(e)
            ==> plans::is_key(packages, resolve::edge_target(e))
}

proof fn lemma_key_stays(before: Packages, after: Packages, id: PackageIdModel)
    requires
        grows(before, after),
        plans::is_key(before, id),
    ensures
        plans::is_key(after, id),
{
    let i = choose|i: int| 0 <= i < before.len() && (#[trigger] before[i]).0 == id;
    let j = lemma_grown(before, after, i);
    assert(after[j].0 == id);
}

/// A selected version is listed and recorded under its own spelling, and a new one
/// was picked from the registry.
proof fn lemma_exact_selection(
    packages: Packages,
    request: RequestModel,
    answers: Answers,
    version: VersionModel,
    after: Packages,
)
    requires
        resolve::sound(packages),
        lists_exactly(answers),
        forall|i: int| 0 <= i < packages.len() ==> is_listed(answers, (#[trigger] packages[i]).0),
        resolve::select(packages, request, answers) == (Selection::Selected {
            version,
            packages: after,
        }),
    ensures
        is_listed(answers, PackageIdModel { name: request.name, version }),
        plans::is_key(after, PackageIdModel { name: request.name, version }),
        forall|i: int|
            0 <= i < after.len() ==> (#[trigger] after[i]).0 == (PackageIdModel {
                name: request.name,
                version,
            }) && after[i].1.dependencies.len() == 0 || packages.contains(after[i]),
        resolve::reusable(packages, request) is None ==> (sorted::lookup(answers, request.name)
            matches Some(AnswerModel::Found(packument)) && resolve::picked(request.spec, packument)
            == Some(version)),
        after == packages || resolve::reusable(packages, request) is None,
        forall|i: int| 0 <= i < packages.len() ==> after.contains(#[trigger] packages[i]),
{
    let id = PackageIdModel { name: request.name, version };
    match resolve::reusable(packages, request) {
        Some(_) => {
            let range = request.spec->Range_0;
            let chosen = resolve::versions_named(packages, request.name);
            semver::highest_is_the_maximum(range, chosen);
            let i = resolve::lemma_versions_named(
                packages,
                request.name,
                semver::highest(range, chosen)->0,
            );
            assert(packages[i].0 == id);
        },
        None => {
            let packument = sorted::lookup(answers, request.name)->0->Found_0;
            let versions = packument.versions;
            let keys = resolve::keys(versions);
            lemma_versions_ascend(answers, request.name);
            if let SpecModel::Range(range) = request.spec {
                semver::highest_is_the_maximum(range, keys);
                assert(keys.contains(version));
            }
            sorted::lemma_slot(packages, id);
            let at = sorted::slot(packages, id) as int;
            if sorted::holds(packages, id) {
                let found = packages[at].0;
                lemma_same_rank(found, id);
                assert(is_listed(answers, found));
                let k = choose|k: int| 0 <= k < keys.len() && keys[k] == found.version;
                sorted::lemma_holds_at(versions, version, k);
                if let SpecModel::Tag(tag) = request.spec {
                    assert(sorted::lookup(packument.dist_tags, tag) == Some(version));
                }
                lemma_listed_once(answers, found, id);
                assert(packages[at].0 == id);
            } else {
                if let SpecModel::Tag(tag) = request.spec {
                    assert(sorted::lookup(packument.dist_tags, tag) == Some(version));
                    assert(sorted::holds(versions, version));
                }
                assert(after[at].0 == id);
                assert forall|i: int| 0 <= i < after.len() implies (#[trigger] after[i]).0 == id
                    && after[i].1.dependencies.len() == 0 || packages.contains(after[i]) by {
                    if i < at {
                        assert(packages[i] == after[i]);
                    } else if i > at {
                        assert(packages[i - 1] == after[i]);
                    }
                }
                assert forall|i: int| 0 <= i < packages.len() implies after.contains(
                    #[trigger] packages[i],
                ) by {
                    if i < at {
                        assert(after[i] == packages[i]);
                    } else {
                        assert(after[i + 1] == packages[i]);
                    }
                }
            }
        },
    }
}

/// What recording an edge changes: only the parent has one more.
proof fn lemma_recorded_entries(
    packages: Packages,
    request: RequestModel,
    version: VersionModel,
    i: int,
)
    requires
        sorted::ascending(packages),
        0 <= i < packages.len(),
    ensures
        ({
            let after = resolve::recorded(packages, request, version);
            let edge = EdgeModel {
                name: request.name,
                spec: manifest::spec_text(request.spec),
                version,
            };
            &&& after.len() == packages.len()
            &&& after[i].0 == packages[i].0
            &&& forall|e: EdgeModel| #[trigger]
                after[i].1.dependencies.contains(e) ==> e == edge
                    || packages[i].1.dependencies.contains(e)
            &&& request.parent == Some(packages[i].0) ==> after[i].1.dependencies.contains(edge)
        }),
{
    let after = resolve::recorded(packages, request, version);
    let edge = EdgeModel {
        name: request.name,
        spec: manifest::spec_text(request.spec),
        version,
    };
    if let Some(parent) = request.parent {
        if parent == packages[i].0 {
            sorted::lemma_holds_at(packages, parent, i);
        }
        if let Some(package) = sorted::lookup(packages, parent) {
            let at = sorted::slot(packages, parent) as int;
            if i == at {
                lemma_edges_after(package.dependencies, edge);
            }
        }
    }
}

proof fn lemma_edges_after(list: Seq<EdgeModel>, edge: EdgeModel)
    ensures
        resolve::with_edge(list, edge).contains(edge),
        forall|e: EdgeModel| #[trigger]
            resolve::with_edge(list, edge).contains(e) ==> e == edge || list.contains(e),
{
    if !list.contains(edge) {
        let pushed = list.push(edge);
        let after = sorted::stable_sorted(pushed);
        sorted::sorting_orders_and_keeps(pushed);
        broadcast use vstd::seq_lib::group_to_multiset_ensures;

        assert(pushed[pushed.len() - 1] == edge);
        assert(pushed.to_multiset().count(edge) > 0);
        assert forall|e: EdgeModel| #[trigger] after.contains(e) implies e == edge
            || list.contains(e) by {
            assert(after.to_multiset().count(e) > 0);
            assert(pushed.contains(e));
            let k = choose|k: int| 0 <= k < pushed.len() && pushed[k] == e;
            if k < list.len() {
                assert(list[k] == e);
            }
        }
    }
}

proof fn lemma_exact_step(state: ResolverModel, answers: Answers, next: ResolverModel)
    requires
        resolve::sound(state.packages),
        is_tidy(state.packages),
        lists_exactly(answers),
        is_exact(state, answers),
        resolve::stepped(state, answers) == Outcome::Stepped(next),
    ensures
        is_exact(next, answers),
{
    let request = state.queue[0];
    lemma_packages_step(state, answers, next);
    match resolve::select(state.packages, request, answers) {
        Selection::Selected { version, packages } => {
            let id = PackageIdModel { name: request.name, version };
            lemma_exact_selection(state.packages, request, answers, version, packages);
            lemma_selection(state.packages, request, answers, version, packages);
            lemma_linked(packages, request, version);
            let after = next.packages;
            assert(after == resolve::recorded(packages, request, version));
            lemma_key_stays(packages, after, id);
            assert forall|i: int| 0 <= i < after.len() implies is_listed(
                answers,
                (#[trigger] after[i]).0,
            ) by {
                lemma_same_len(packages, request, version);
                lemma_recorded_entries(packages, request, version, i);
                if packages[i].0 != id {
                    let j = choose|j: int|
                        0 <= j < state.packages.len() && state.packages[j] == packages[i];
                    assert(is_listed(answers, state.packages[j].0));
                }
            }
            assert forall|i: int, e: EdgeModel|
                0 <= i < after.len() && #[trigger] after[i].1.dependencies.contains(e)
                implies plans::is_key(after, resolve::edge_target(e)) by {
                lemma_same_len(packages, request, version);
                lemma_recorded_entries(packages, request, version, i);
                if packages[i].1.dependencies.contains(e) {
                    let k = choose|k: int|
                        0 <= k < packages[i].1.dependencies.len()
                            && packages[i].1.dependencies[k] == e;
                    let j = choose|j: int|
                        0 <= j < state.packages.len() && state.packages[j] == packages[i];
                    assert(state.packages[j].1.dependencies.contains(e));
                    lemma_key_stays(state.packages, after, resolve::edge_target(e));
                } else {
                    assert(resolve::edge_target(e) == id);
                }
            }
            assert forall|k: int| 0 <= k < next.queue.len() implies (
            (#[trigger] next.queue[k]).parent matches Some(parent) ==> plans::is_key(
                after,
                parent,
            )) by {
                if k < state.queue.len() - 1 {
                    assert(next.queue[k] == state.queue[k + 1]);
                    if let Some(parent) = next.queue[k].parent {
                        lemma_key_stays(state.packages, after, parent);
                    }
                } else {
                    assert(next.queue[k].parent == Some(id));
                }
            }
        },
        _ => {
            assert forall|k: int| 0 <= k < next.queue.len() implies (
            (#[trigger] next.queue[k]).parent matches Some(parent) ==> plans::is_key(
                next.packages,
                parent,
            )) by {
                assert(next.queue[k] == state.queue[k + 1]);
            }
        },
    }
}

proof fn lemma_same_len(packages: Packages, request: RequestModel, version: VersionModel)
    ensures
        resolve::recorded(packages, request, version).len() == packages.len(),
{
}

/// Whether a requirement of the project picked a package.
spec fn is_picked(list: Seq<RequirementModel>, answers: Answers, id: PackageIdModel) -> bool {
    exists|k: int| 0 <= k < list.len() && choice_of(#[trigger] list[k], answers) == Some(id)
}

/// Whether a chain of dependencies leads to a package from one that the project
/// picked.
spec fn is_supported(
    list: Seq<RequirementModel>,
    answers: Answers,
    packages: Packages,
    chain: Seq<PackageIdModel>,
    id: PackageIdModel,
) -> bool {
    &&& chain.len() > 0
    &&& is_picked(list, answers, chain[0])
    &&& chain.last() == id
    &&& plans::is_chain(packages, chain)
}

spec fn has_support(
    list: Seq<RequirementModel>,
    answers: Answers,
    packages: Packages,
    id: PackageIdModel,
) -> bool {
    exists|chain: Seq<PackageIdModel>| #[trigger] is_supported(list, answers, packages, chain, id)
}

/// Every package has support, and the project's own requests are those of its
/// requirements.
spec fn is_supportive(
    list: Seq<RequirementModel>,
    state: ResolverModel,
    answers: Answers,
) -> bool {
    &&& forall|i: int|
        0 <= i < state.packages.len() ==> has_support(
            list,
            answers,
            state.packages,
            (#[trigger] state.packages[i]).0,
        )
    &&& forall|k: int|
        0 <= k < state.queue.len() && (#[trigger] state.queue[k]).parent is None ==> exists|j: int|
            0 <= j < list.len() && state.queue[k] == request_of(#[trigger] list[j])
}

/// A dependency stays one.
proof fn lemma_dependency_stays(
    before: Packages,
    after: Packages,
    x: PackageIdModel,
    y: PackageIdModel,
)
    requires
        sorted::ascending(before),
        sorted::ascending(after),
        grows(before, after),
        plans::depends_on(before, x, y),
    ensures
        plans::depends_on(after, x, y),
{
    let edges = link::edges_of(before, x);
    let e = choose|e: int|
        0 <= e < edges.len() && resolve::edge_target(#[trigger] link::edges_of(before, x)[e]) == y;
    let at = sorted::slot(before, x) as int;
    assert(before[at].1.dependencies == edges);
    let j = lemma_grown(before, after, at);
    sorted::lemma_holds_at(after, x, j);
    assert(before[at].1.dependencies.contains(edges[e]));
    assert(after[j].1.dependencies.contains(edges[e]));
    let more = link::edges_of(after, x);
    assert(more == after[j].1.dependencies);
    let k = choose|k: int| 0 <= k < more.len() && more[k] == edges[e];
    assert(resolve::edge_target(link::edges_of(after, x)[k]) == y);
}

proof fn lemma_support_stays(
    list: Seq<RequirementModel>,
    answers: Answers,
    more: Answers,
    before: Packages,
    after: Packages,
    id: PackageIdModel,
)
    requires
        extends(more, answers),
        sorted::ascending(before),
        sorted::ascending(after),
        grows(before, after),
        has_support(list, answers, before, id),
    ensures
        has_support(list, more, after, id),
{
    let chain = choose|chain: Seq<PackageIdModel>| #[trigger]
        is_supported(list, answers, before, chain, id);
    let k = choose|k: int|
        0 <= k < list.len() && choice_of(#[trigger] list[k], answers) == Some(chain[0]);
    assert(sorted::lookup(answers, list[k].name) is Some);
    assert(choice_of(list[k], more) == Some(chain[0]));
    assert forall|j: int| 0 <= j < chain.len() - 1 implies plans::depends_on(
        after,
        #[trigger] chain[j],
        chain[j + 1],
    ) by {
        assert(plans::depends_on(before, chain[j], chain[j + 1]));
        lemma_dependency_stays(before, after, chain[j], chain[j + 1]);
    }
    assert(is_supported(list, more, after, chain, id));
}

/// What a supported package depends on is supported.
proof fn lemma_support_passes(
    list: Seq<RequirementModel>,
    answers: Answers,
    packages: Packages,
    x: PackageIdModel,
    y: PackageIdModel,
)
    requires
        has_support(list, answers, packages, x),
        plans::depends_on(packages, x, y),
    ensures
        has_support(list, answers, packages, y),
{
    let chain = choose|chain: Seq<PackageIdModel>| #[trigger]
        is_supported(list, answers, packages, chain, x);
    let longer = chain.push(y);
    assert forall|j: int| 0 <= j < longer.len() - 1 implies plans::depends_on(
        packages,
        #[trigger] longer[j],
        longer[j + 1],
    ) by {
        if j < chain.len() - 1 {
            assert(plans::depends_on(packages, chain[j], chain[j + 1]));
            assert(longer[j] == chain[j] && longer[j + 1] == chain[j + 1]);
        } else {
            assert(longer[j] == chain.last());
        }
    }
    assert(longer[0] == chain[0]);
    assert(is_supported(list, answers, packages, longer, y));
}

/// A step gives support to what it selects.
proof fn lemma_new_support(
    list: Seq<RequirementModel>,
    state: ResolverModel,
    answers: Answers,
    next: ResolverModel,
    version: VersionModel,
    packages: Packages,
)
    requires
        resolve::sound(state.packages),
        is_tidy(state.packages),
        lists_exactly(answers),
        is_exact(state, answers),
        is_supportive(list, state, answers),
        state.queue.len() > 0,
        resolve::select(state.packages, state.queue[0], answers) == (Selection::Selected {
            version,
            packages,
        }),
        resolve::reusable(state.packages, state.queue[0]) is None,
        resolve::stepped(state, answers) == Outcome::Stepped(next),
    ensures
        has_support(
            list,
            answers,
            next.packages,
            PackageIdModel { name: state.queue[0].name, version },
        ),
{
    let request = state.queue[0];
    let id = PackageIdModel { name: request.name, version };
    lemma_exact_selection(state.packages, request, answers, version, packages);
    lemma_selection(state.packages, request, answers, version, packages);
    lemma_linked(packages, request, version);
    lemma_packages_step(state, answers, next);
    let after = next.packages;
    match request.parent {
        None => {
            let j = choose|j: int| 0 <= j < list.len() && request == request_of(#[trigger] list[j]);
            assert(choice_of(list[j], answers) == Some(id));
            let chain = seq![id];
            assert(chain.last() == id);
            assert(is_supported(list, answers, after, chain, id));
        },
        Some(parent) => {
            assert(plans::is_key(state.packages, parent));
            let i = choose|i: int|
                0 <= i < state.packages.len() && (#[trigger] state.packages[i]).0 == parent;
            lemma_put_answers(answers);
            assert(has_support(list, answers, state.packages, state.packages[i].0));
            lemma_support_stays(list, answers, answers, state.packages, after, parent);
            lemma_key_stays(state.packages, packages, parent);
            let p = choose|p: int|
                0 <= p < packages.len() && (#[trigger] packages[p]).0 == parent;
            lemma_recorded_entries(packages, request, version, p);
            let edge = EdgeModel {
                name: request.name,
                spec: manifest::spec_text(request.spec),
                version,
            };
            sorted::lemma_holds_at(after, parent, p);
            let edges = link::edges_of(after, parent);
            assert(edges == after[p].1.dependencies);
            let e = choose|e: int| 0 <= e < edges.len() && edges[e] == edge;
            assert(resolve::edge_target(link::edges_of(after, parent)[e]) == id);
            lemma_support_passes(list, answers, after, parent, id);
        },
    }
}

proof fn lemma_put_answers(answers: Answers)
    ensures
        extends(answers, answers),
{
}

proof fn lemma_supportive_step(
    list: Seq<RequirementModel>,
    state: ResolverModel,
    answers: Answers,
    next: ResolverModel,
)
    requires
        resolve::sound(state.packages),
        is_tidy(state.packages),
        lists_exactly(answers),
        is_exact(state, answers),
        is_supportive(list, state, answers),
        resolve::stepped(state, answers) == Outcome::Stepped(next),
    ensures
        is_supportive(list, next, answers),
{
    let request = state.queue[0];
    lemma_put_answers(answers);
    lemma_packages_step(state, answers, next);
    match resolve::select(state.packages, request, answers) {
        Selection::Selected { version, packages } => {
            let id = PackageIdModel { name: request.name, version };
            lemma_exact_selection(state.packages, request, answers, version, packages);
            lemma_selection(state.packages, request, answers, version, packages);
            lemma_linked(packages, request, version);
            assert forall|i: int| 0 <= i < next.packages.len() implies has_support(
                list,
                answers,
                next.packages,
                (#[trigger] next.packages[i]).0,
            ) by {
                lemma_same_len(packages, request, version);
                lemma_recorded_entries(packages, request, version, i);
                if state.packages.contains(packages[i]) {
                    let j = choose|j: int|
                        0 <= j < state.packages.len() && state.packages[j] == packages[i];
                    assert(has_support(list, answers, state.packages, state.packages[j].0));
                    lemma_support_stays(
                        list,
                        answers,
                        answers,
                        state.packages,
                        next.packages,
                        packages[i].0,
                    );
                } else {
                    if packages == state.packages {
                        assert(state.packages[i] == packages[i]);
                    }
                    lemma_new_support(list, state, answers, next, version, packages);
                }
            }
            assert forall|k: int|
                0 <= k < next.queue.len() && (#[trigger] next.queue[k]).parent is None
                implies exists|j: int|
                0 <= j < list.len() && next.queue[k] == request_of(#[trigger] list[j]) by {
                if k < state.queue.len() - 1 {
                    assert(next.queue[k] == state.queue[k + 1]);
                } else {
                    assert(next.queue[k].parent == Some(id));
                }
            }
        },
        _ => {
            assert forall|k: int|
                0 <= k < next.queue.len() && (#[trigger] next.queue[k]).parent is None
                implies exists|j: int|
                0 <= j < list.len() && next.queue[k] == request_of(#[trigger] list[j]) by {
                assert(next.queue[k] == state.queue[k + 1]);
            }
        },
    }
}

/// Whether a name that a tag is given for is required once only.
pub open spec fn tags_are_alone(list: Seq<RequirementModel>) -> bool {
    forall|i: int, j: int|
        0 <= i < list.len() && 0 <= j < list.len() && (#[trigger] list[i]).name == (
        #[trigger] list[j]).name && list[i].spec is Tag ==> i == j
}

/// What every state of a run keeps where spellings are exact.
spec fn is_in_order(
    list: Seq<RequirementModel>,
    state: ResolverModel,
    answers: Answers,
) -> bool {
    &&& is_exact(state, answers)
    &&& is_supportive(list, state, answers)
}

proof fn lemma_order_with_more(
    list: Seq<RequirementModel>,
    state: ResolverModel,
    answers: Answers,
    more: Answers,
)
    requires
        sorted::ascending(state.packages),
        is_in_order(list, state, answers),
        extends(more, answers),
    ensures
        is_in_order(list, state, more),
{
    lemma_put_nothing(state.packages);
    assert forall|i: int| 0 <= i < state.packages.len() implies is_listed(
        more,
        (#[trigger] state.packages[i]).0,
    ) && has_support(list, more, state.packages, state.packages[i].0) by {
        assert(is_listed(answers, state.packages[i].0));
        assert(sorted::lookup(answers, state.packages[i].0.name) is Some);
        assert(has_support(list, answers, state.packages, state.packages[i].0));
        lemma_support_stays(
            list,
            answers,
            more,
            state.packages,
            state.packages,
            state.packages[i].0,
        );
    }
}

proof fn lemma_order_step(
    list: Seq<RequirementModel>,
    state: ResolverModel,
    answers: Answers,
    next: ResolverModel,
)
    requires
        resolve::sound(state.packages),
        is_tidy(state.packages),
        lists_exactly(answers),
        is_in_order(list, state, answers),
        resolve::stepped(state, answers) == Outcome::Stepped(next),
    ensures
        is_in_order(list, next, answers),
{
    lemma_exact_step(state, answers, next);
    lemma_supportive_step(list, state, answers, next);
}

proof fn lemma_ordered_run(
    root: ManifestModel,
    include_development: bool,
    states: Seq<ResolverModel>,
    answers: Seq<Answers>,
    i: int,
)
    requires
        is_run(root, include_development, states, answers),
        forall|k: int| 0 <= k < answers.len() ==> lists_exactly(#[trigger] answers[k]),
        0 <= i < states.len(),
    ensures
        is_in_order(asked(root, include_development), states[i], answers[i]),
    decreases i,
{
    let list = asked(root, include_development);
    if i == 0 {
        let state = states[0];
        assert forall|k: int| 0 <= k < state.queue.len() implies #[trigger] state.queue[k]
            == request_of(list[k]) by {}
    } else {
        let state = states[i - 1];
        let at_hand = answers[i - 1];
        lemma_ordered_run(root, include_development, states, answers, i - 1);
        lemma_run(root, include_development, states, answers, i - 1);
        lemma_run(root, include_development, states, answers, i);
        assert(lists_exactly(at_hand));
        assert(extends(answers[i], at_hand));
        if states[i] != state {
            lemma_order_step(list, state, at_hand, states[i]);
        }
        lemma_order_with_more(list, states[i], at_hand, answers[i]);
    }
}

// ---------------------------------------------------------------------------
// Roots.

/// Whether the requirements of one name pick one version.
pub open spec fn picks_agree(r: ResolutionModel) -> bool {
    forall|i: int, j: int|
        0 <= i < r.requirements.len() && 0 <= j < r.requirements.len() && (
        #[trigger] r.requirements[i]).name == (#[trigger] r.requirements[j]).name ==> {
            let a = resolve::picked_version(r.packages, r.requirements[i]);
            let b = resolve::picked_version(r.packages, r.requirements[j]);
            a is Some && b is Some ==> a == b
        }
}

/// Where all picks of a name are one version, that is its best.
proof fn lemma_best_is_picked(
    requirements: Seq<RecordModel>,
    packages: Packages,
    name: Seq<char>,
    version: VersionModel,
    k: int,
)
    requires
        0 <= k < requirements.len(),
        requirements[k].name == name,
        resolve::picked_version(packages, requirements[k]) == Some(version),
        forall|i: int|
            0 <= i < requirements.len() && (#[trigger] requirements[i]).name == name
                ==> (resolve::picked_version(packages, requirements[i]) matches Some(other)
                ==> other == version),
    ensures
        resolve::best_pick(requirements, packages, name) == Some(version),
    decreases requirements.len(),
{
    let front = requirements.drop_last();
    assert(requirements[requirements.len() - 1] == requirements.last());
    assert forall|i: int| 0 <= i < front.len() && (#[trigger] front[i]).name == name implies (
    resolve::picked_version(packages, front[i]) matches Some(other) ==> other == version) by {
        assert(front[i] == requirements[i]);
    }
    if k < front.len() {
        assert(front[k] == requirements[k]);
        lemma_best_is_picked(front, packages, name, version, k);
    } else {
        lemma_best_is_no_other(front, packages, name, version);
    }
}

proof fn lemma_best_is_no_other(
    requirements: Seq<RecordModel>,
    packages: Packages,
    name: Seq<char>,
    version: VersionModel,
)
    requires
        forall|i: int|
            0 <= i < requirements.len() && (#[trigger] requirements[i]).name == name
                ==> (resolve::picked_version(packages, requirements[i]) matches Some(other)
                ==> other == version),
    ensures
        resolve::best_pick(requirements, packages, name) matches Some(other) ==> other == version,
    decreases requirements.len(),
{
    if requirements.len() > 0 {
        let front = requirements.drop_last();
        assert(requirements[requirements.len() - 1] == requirements.last());
        assert forall|i: int| 0 <= i < front.len() && (#[trigger] front[i]).name == name implies (
        resolve::picked_version(packages, front[i]) matches Some(other) ==> other == version) by {
            assert(front[i] == requirements[i]);
        }
        lemma_best_is_no_other(front, packages, name, version);
    }
}

/// What a root requirement picks is among the roots, where the requirements of its
/// name agree.
proof fn lemma_target_is_root(r: ResolutionModel, k: int)
    requires
        picks_agree(r),
        0 <= k < r.requirements.len(),
        resolve::picked_version(r.packages, r.requirements[k]) is Some,
    ensures
        resolve::roots_of(r).contains(
            PackageIdModel {
                name: r.requirements[k].name,
                version: resolve::picked_version(r.packages, r.requirements[k])->0,
            },
        ),
{
    let id = PackageIdModel {
        name: r.requirements[k].name,
        version: resolve::picked_version(r.packages, r.requirements[k])->0,
    };
    let n = r.requirements.len();
    let targets = resolve::root_targets(r.requirements, r.packages, n);
    assert forall|i: int| 0 <= i < n && (#[trigger] r.requirements[i]).name == id.name implies (
    resolve::picked_version(r.packages, r.requirements[i]) matches Some(other) ==> other
        == id.version) by {
        assert(r.requirements[i].name == r.requirements[k].name);
    }
    lemma_best_is_picked(r.requirements, r.packages, id.name, id.version, k);
    lemma_target_is_there(r.requirements, r.packages, n, k);
    sorted::sorting_orders_and_keeps(targets);
    broadcast use vstd::seq_lib::group_to_multiset_ensures;

    assert(targets.to_multiset().count(id) > 0);
    lemma_deduped_keeps(sorted::stable_sorted(targets), id);
}

proof fn lemma_target_is_there(
    requirements: Seq<RecordModel>,
    packages: Packages,
    n: nat,
    k: int,
)
    requires
        0 <= k < n <= requirements.len(),
        resolve::root_version(requirements, packages, requirements[k].name) is Some,
    ensures
        resolve::root_targets(requirements, packages, n).contains(
            PackageIdModel {
                name: requirements[k].name,
                version: resolve::root_version(requirements, packages, requirements[k].name)->0,
            },
        ),
    decreases n,
{
    let all = resolve::root_targets(requirements, packages, n);
    let front = resolve::root_targets(requirements, packages, (n - 1) as nat);
    let id = PackageIdModel {
        name: requirements[k].name,
        version: resolve::root_version(requirements, packages, requirements[k].name)->0,
    };
    if k == n - 1 {
        assert(all[all.len() - 1] == id);
    } else {
        lemma_target_is_there(requirements, packages, (n - 1) as nat, k);
        let j = choose|j: int| 0 <= j < front.len() && front[j] == id;
        assert(all[j] == id);
    }
}

proof fn lemma_deduped_keeps<T>(list: Seq<T>, x: T)
    requires
        list.contains(x),
    ensures
        sorted::deduped(list).contains(x),
    decreases list.len(),
{
    let front = list.drop_last();
    let all = sorted::deduped(list);
    let before = sorted::deduped(front);
    if list.last() == x {
        assert(all[all.len() - 1] == x);
    } else {
        let k = choose|k: int| 0 <= k < list.len() && list[k] == x;
        assert(front[k] == x);
        lemma_deduped_keeps(front, x);
        let j = choose|j: int| 0 <= j < before.len() && before[j] == x;
        assert(all[j] == x);
    }
}

/// The record of a requirement.
spec fn record_of(r: RequirementModel) -> RecordModel {
    RecordModel { class: r.class, name: r.name, spec: manifest::spec_text(r.spec) }
}

proof fn lemma_recorded_requirement(
    root: ManifestModel,
    include_development: bool,
    k: int,
)
    requires
        0 <= k < asked(root, include_development).len(),
    ensures
        resolve::declared_records(root, include_development).contains(
            record_of(asked(root, include_development)[k]),
        ),
{
    let plain = resolve::records_of(asked(root, include_development));
    let record = record_of(asked(root, include_development)[k]);
    assert(plain[k] == record);
    sorted::sorting_orders_and_keeps(plain);
    broadcast use vstd::seq_lib::group_to_multiset_ensures;

    assert(plain.contains(record));
    assert(plain.to_multiset().count(record) > 0);
}

/// A key has its place among the versions of its name.
proof fn lemma_named_version(packages: Packages, id: PackageIdModel)
    requires
        plans::is_key(packages, id),
    ensures
        resolve::versions_named(packages, id.name).contains(id.version),
    decreases packages.len(),
{
    let i = choose|i: int| 0 <= i < packages.len() && (#[trigger] packages[i]).0 == id;
    let all = resolve::versions_named(packages, id.name);
    if i == packages.len() - 1 {
        assert(all[all.len() - 1] == id.version);
    } else {
        let front = packages.drop_last();
        assert(front[i].0 == id);
        lemma_named_version(front, id);
        let before = resolve::versions_named(front, id.name);
        let k = choose|k: int| 0 <= k < before.len() && before[k] == id.version;
        assert(all[k] == id.version);
    }
}

/// The version that a range leads to is the one that was picked for it.
proof fn lemma_range_root(
    state: ResolverModel,
    answers: Answers,
    r: RequirementModel,
    id: PackageIdModel,
)
    requires
        lists_exactly(answers),
        is_exact(state, answers),
        resolve::honest(r.spec),
        r.spec is Range,
        choice_of(r, answers) == Some(id),
        plans::is_key(state.packages, id),
    ensures
        resolve::picked_version(state.packages, record_of(r)) == Some(id.version),
{
    let range = r.spec->Range_0;
    let found = resolve::versions_named(state.packages, r.name);
    let packument = sorted::lookup(answers, r.name)->0->Found_0;
    let keys = resolve::keys(packument.versions);
    let at = semver::highest(range, keys)->0;
    semver::highest_is_the_maximum(range, keys);
    semver::highest_is_the_maximum(range, found);
    lemma_named_version(state.packages, id);
    let k = choose|k: int| 0 <= k < found.len() && found[k] == id.version;
    assert(keys[at] == id.version);
    assert(semver::range_takes(range, found[k]));
    let top = semver::highest(range, found)->0;
    let i = resolve::lemma_versions_named(state.packages, r.name, top);
    let other = state.packages[i].0;
    assert(is_listed(answers, other));
    let j = choose|j: int| 0 <= j < keys.len() && keys[j] == other.version;
    assert(!semver::version_before(keys[at], keys[j]));
    assert(!semver::version_before(found[top], found[k]));
    semver::version_order_is_precedence(id.version, other.version);
    semver::version_order_is_precedence(other.version, id.version);
    order::lemma_total(id.version.rank(), other.version.rank());
    assert(keys.contains(id.version));
    assert(other.rank() == id.rank());
    lemma_listed_once(answers, other, id);
}

/// A tag leads to what it named where nothing depends on that, and everything else
/// of that name is there for other packages' sake.
proof fn lemma_tag_root(
    list: Seq<RequirementModel>,
    state: ResolverModel,
    answers: Answers,
    t: int,
    id: PackageIdModel,
)
    requires
        tags_are_alone(list),
        is_exact(state, answers),
        is_supportive(list, state, answers),
        0 <= t < list.len(),
        resolve::honest(list[t].spec),
        list[t].spec is Tag,
        choice_of(list[t], answers) == Some(id),
        plans::is_key(state.packages, id),
        !resolve::is_depended_on(state.packages, id),
    ensures
        resolve::picked_version(state.packages, record_of(list[t])) == Some(id.version),
{
    let r = list[t];
    let packages = state.packages;
    let found = resolve::versions_named(packages, r.name);
    lemma_named_version(packages, id);
    resolve::lemma_last_free(packages, r.name, found);
    let k = choose|k: int| 0 <= k < found.len() && found[k] == id.version;
    assert(resolve::last_free(packages, r.name, found) is Some);
    let version = resolve::last_free(packages, r.name, found)->0;
    let j = choose|j: int| 0 <= j < found.len() && found[j] == version;
    let i = resolve::lemma_versions_named(packages, r.name, j);
    let other = packages[i].0;
    assert(has_support(list, answers, packages, packages[i].0));
    let chain = choose|chain: Seq<PackageIdModel>| #[trigger]
        is_supported(list, answers, packages, chain, other);
    if chain.len() == 1 {
        let u = choose|u: int|
            0 <= u < list.len() && choice_of(#[trigger] list[u], answers) == Some(chain[0]);
        assert(list[u].name == r.name);
        assert(list[t].name == r.name);
        assert(u == t);
    } else {
        let x = chain[chain.len() - 2];
        assert(plans::depends_on(packages, x, chain[chain.len() - 2 + 1]));
        let e = choose|e: int|
            0 <= e < link::edges_of(packages, x).len() && resolve::edge_target(
                #[trigger] link::edges_of(packages, x)[e],
            ) == other;
        let at = sorted::slot(packages, x) as int;
        assert(resolve::edge_target(packages[at].1.dependencies[e]) == other);
        assert(resolve::is_depended_on(packages, other));
    }
}

/// Whether a version can be told from what was resolved to be the one that a tag
/// named: nothing depends on it, or it is the highest of its name and something
/// depends on each of them.
pub open spec fn stands_out(packages: Packages, id: PackageIdModel) -> bool {
    let found = resolve::versions_named(packages, id.name);
    ||| !resolve::is_depended_on(packages, id)
    ||| resolve::last_free(packages, id.name, found) is None && found.last() == id.version
}

/// Whether what the project's tags picked stands out.
pub open spec fn tags_stand_out(
    list: Seq<RequirementModel>,
    state: ResolverModel,
    answers: Answers,
) -> bool {
    forall|k: int|
        0 <= k < list.len() && (#[trigger] list[k]).spec is Tag ==> (choice_of(list[k], answers)
            matches Some(id) ==> plans::is_key(state.packages, id) ==> stands_out(
            state.packages,
            id,
        ))
}

/// Whether what the project's tags picked is reached from the roots.
pub open spec fn tags_are_reached(
    list: Seq<RequirementModel>,
    state: ResolverModel,
    answers: Answers,
) -> bool {
    forall|k: int|
        0 <= k < list.len() && (#[trigger] list[k]).spec is Tag ==> (choice_of(list[k], answers)
            matches Some(id) ==> plans::is_key(state.packages, id) ==> plans::is_reachable(
            outcome_of(state),
            id,
        ))
}

proof fn lemma_picked_is_root(
    root: ManifestModel,
    include_development: bool,
    states: Seq<ResolverModel>,
    answers: Seq<Answers>,
    t: int,
    id: PackageIdModel,
)
    requires
        is_run(root, include_development, states, answers),
        forall|k: int| 0 <= k < answers.len() ==> lists_exactly(#[trigger] answers[k]),
        resolve::stepped(states.last(), answers.last()) is Done,
        picks_agree(outcome_of(states.last())),
        0 <= t < asked(root, include_development).len(),
        choice_of(asked(root, include_development)[t], answers.last()) == Some(id),
        plans::is_key(states.last().packages, id),
        asked(root, include_development)[t].spec is Range || (tags_are_alone(
            asked(root, include_development),
        ) && stands_out(states.last().packages, id)),
    ensures
        resolve::roots_of(outcome_of(states.last())).contains(id),
{
    let list = asked(root, include_development);
    let state = states.last();
    let at_hand = answers.last();
    let last = states.len() - 1;
    lemma_run(root, include_development, states, answers, last);
    lemma_ordered_run(root, include_development, states, answers, last);
    assert(lists_exactly(answers[last]));
    let r = list[t];
    resolve::lemma_wanted_from(root.requirements, include_development);
    assert(root.requirements.contains(list[t]));
    let q = choose|q: int| 0 <= q < root.requirements.len() && root.requirements[q] == list[t];
    assert(resolve::honest(root.requirements[q].spec));
    if r.spec is Range {
        lemma_range_root(state, at_hand, r, id);
    } else {
        assert(r.spec is Tag);
        lemma_named_version(state.packages, id);
        if !resolve::is_depended_on(state.packages, id) {
            lemma_tag_root(list, state, at_hand, t, id);
        }
    }
    lemma_recorded_requirement(root, include_development, t);
    let records = outcome_of(state).requirements;
    let k = choose|k: int| 0 <= k < records.len() && records[k] == record_of(r);
    lemma_target_is_root(outcome_of(state), k);
}

/// What a tag named is reached where it stands out.
pub proof fn tags_that_stand_out_are_reached(
    root: ManifestModel,
    include_development: bool,
    states: Seq<ResolverModel>,
    answers: Seq<Answers>,
)
    requires
        is_run(root, include_development, states, answers),
        tags_are_alone(asked(root, include_development)),
        forall|k: int| 0 <= k < answers.len() ==> lists_exactly(#[trigger] answers[k]),
        resolve::stepped(states.last(), answers.last()) is Done,
        picks_agree(outcome_of(states.last())),
        tags_stand_out(asked(root, include_development), states.last(), answers.last()),
    ensures
        tags_are_reached(asked(root, include_development), states.last(), answers.last()),
{
    let list = asked(root, include_development);
    let state = states.last();
    let at_hand = answers.last();
    assert forall|k: int|
        0 <= k < list.len() && (#[trigger] list[k]).spec is Tag implies (choice_of(
        list[k],
        at_hand,
    ) matches Some(id) ==> plans::is_key(state.packages, id) ==> plans::is_reachable(
        outcome_of(state),
        id,
    )) by {
        if let Some(id) = choice_of(list[k], at_hand) {
            if plans::is_key(state.packages, id) {
                assert(stands_out(state.packages, id));
                lemma_picked_is_root(root, include_development, states, answers, k, id);
                lemma_roots_are_reached(outcome_of(state), id);
            }
        }
    }
}

proof fn lemma_roots_are_reached(r: ResolutionModel, id: PackageIdModel)
    requires
        resolve::roots_of(r).contains(id),
    ensures
        plans::is_reachable(r, id),
{
    assert(plans::leads_to(r, seq![id], id));
}

/// What a reachable package leads to is reachable.
proof fn lemma_reached_on(r: ResolutionModel, chain: Seq<PackageIdModel>, id: PackageIdModel)
    requires
        chain.len() > 0,
        plans::is_reachable(r, chain[0]),
        plans::is_chain(r.packages, chain),
        chain.last() == id,
    ensures
        plans::is_reachable(r, id),
{
    let front = choose|front: Seq<PackageIdModel>| #[trigger] plans::leads_to(r, front, chain[0]);
    let whole = front.drop_last() + chain;
    let n = front.len() - 1;
    assert forall|j: int| 0 <= j < whole.len() - 1 implies plans::depends_on(
        r.packages,
        #[trigger] whole[j],
        whole[j + 1],
    ) by {
        if j < n {
            assert(whole[j] == front[j]);
            assert(whole[j + 1] == front[j + 1]);
        } else {
            assert(whole[j] == chain[j - n]);
            assert(whole[j + 1] == chain[j - n + 1]);
        }
    }
    assert(whole[0] == front[0]);
    assert(plans::leads_to(r, whole, id));
}

/// A chain to a package starts at a package.
proof fn lemma_first_is_key(
    list: Seq<RequirementModel>,
    state: ResolverModel,
    answers: Answers,
    chain: Seq<PackageIdModel>,
    id: PackageIdModel,
)
    requires
        lists_exactly(answers),
        is_exact(state, answers),
        plans::is_key(state.packages, id),
        is_supported(list, answers, state.packages, chain, id),
    ensures
        plans::is_key(state.packages, chain[0]),
{
    if chain.len() > 1 {
        let packages = state.packages;
        let first = chain[0];
        assert(plans::depends_on(packages, chain[0], chain[0int + 1]));
        assert(sorted::holds(packages, first));
        let found = packages[sorted::slot(packages, first) as int].0;
        lemma_same_rank(found, first);
        assert(is_listed(answers, found));
        let k = choose|k: int|
            0 <= k < list.len() && choice_of(#[trigger] list[k], answers) == Some(first);
        let packument = sorted::lookup(answers, first.name)->0->Found_0;
        let keys = resolve::keys(packument.versions);
        lemma_versions_ascend(answers, first.name);
        match list[k].spec {
            SpecModel::Range(range) => {
                semver::highest_is_the_maximum(range, keys);
                assert(keys.contains(first.version));
            },
            SpecModel::Tag(tag) => {
                let j = choose|j: int| 0 <= j < keys.len() && keys[j] == found.version;
                sorted::lemma_holds_at(packument.versions, first.version, j);
                assert(sorted::lookup(packument.dist_tags, tag) == Some(first.version));
            },
            SpecModel::Unsupported(_) => {},
        }
        lemma_listed_once(answers, found, first);
    }
}

/// A finished run has no package but for the project's sake: each is reached from
/// the roots along dependencies. And every dependency is a package.
///
/// It asks that the project's requirements of one name agree, that tags name
/// versions as they are listed, and that what the project's tags named is reached:
/// which versions those were is not recorded (`tags_that_stand_out_are_reached`
/// says when they can be told).
pub proof fn finished_runs_hold_what_is_reached(
    root: ManifestModel,
    include_development: bool,
    states: Seq<ResolverModel>,
    answers: Seq<Answers>,
    i: int,
)
    requires
        is_run(root, include_development, states, answers),
        forall|k: int| 0 <= k < answers.len() ==> lists_exactly(#[trigger] answers[k]),
        resolve::stepped(states.last(), answers.last()) is Done,
        picks_agree(outcome_of(states.last())),
        tags_are_reached(asked(root, include_development), states.last(), answers.last()),
        0 <= i < states.last().packages.len(),
    ensures
        plans::is_reachable(outcome_of(states.last()), states.last().packages[i].0),
        has_closed_edges(states.last().packages),
{
    let list = asked(root, include_development);
    let state = states.last();
    let at_hand = answers.last();
    lemma_ordered_run(root, include_development, states, answers, states.len() - 1);
    let id = state.packages[i].0;
    assert(has_support(list, at_hand, state.packages, state.packages[i].0));
    let chain = choose|chain: Seq<PackageIdModel>| #[trigger]
        is_supported(list, at_hand, state.packages, chain, id);
    let t = choose|t: int|
        0 <= t < list.len() && choice_of(#[trigger] list[t], at_hand) == Some(chain[0]);
    lemma_first_is_key(list, state, at_hand, chain, id);
    if list[t].spec is Range {
        lemma_picked_is_root(root, include_development, states, answers, t, chain[0]);
        lemma_roots_are_reached(outcome_of(state), chain[0]);
    } else {
        assert(list[t].spec is Tag);
    }
    lemma_reached_on(outcome_of(state), chain, id);
}

/// A finished plan of a finished run places every resolved package.
pub proof fn every_resolved_package_is_placed(
    root: ManifestModel,
    include_development: bool,
    states: Seq<ResolverModel>,
    answers: Seq<Answers>,
    steps: nat,
    i: int,
)
    requires
        is_run(root, include_development, states, answers),
        forall|k: int| 0 <= k < answers.len() ==> lists_exactly(#[trigger] answers[k]),
        resolve::stepped(states.last(), answers.last()) is Done,
        picks_agree(outcome_of(states.last())),
        tags_are_reached(asked(root, include_development), states.last(), answers.last()),
        plans::is_plannable(outcome_of(states.last())),
        link::plan_after(outcome_of(states.last()), steps).queue.len() == 0,
        0 <= i < states.last().packages.len(),
    ensures
        plans::has_place(
            link::plan_after(outcome_of(states.last()), steps).layout,
            states.last().packages[i].0,
        ),
{
    finished_runs_hold_what_is_reached(root, include_development, states, answers, i);
    plans::plans_place_what_is_reachable(
        outcome_of(states.last()),
        steps,
        states.last().packages[i].0,
    );
}

} // verus!
