//! Planning a `node_modules` tree, and reconciling the one on disk with it.
//!
//! The layout is *hoisted*, the npm shape, built from hardlinks, with symlinks
//! used only for `.bin` shims. Each package is placed as shallowly as it can go;
//! a version conflict nests under the package that needs it.
//!
//! **Reconciler, not a sequence.** Every package directory carries a
//! `.opal-package` marker naming what it holds, written *last*. A package whose
//! files are present but whose marker is missing is therefore indistinguishable
//! from one that was never installed, which is exactly right, because a killed
//! run leaves precisely that. Reconciling compares the plan with the markers and
//! applies only the difference, so re-running converges with no resume logic.

use vstd::prelude::*;
use crate::cas::{Cas, CasError};
use crate::fault::FaultPoint;
use crate::hash::ContentHash;
use crate::json::JsonModel;
use crate::manifest::Manifest;
use crate::order::{Order, Rank, Ranked};
use crate::package::{PackageError, PackageIndex, PackageIndexModel};
use crate::path::NormalizedPath;
use crate::resolve::{EdgeModel, PackageId, PackageIdModel, Packages, Resolution, ResolutionModel};
use crate::sorted::SortedMap;
use crate::{
    cas, hash, json, manifest, native, order, package, path, resolve, semver, sorted, text,
};

verus! {

/// Written last in a package directory; its presence means "complete".
pub const MARKER_FILE: &'static str = ".opal-package";

/// The directory that holds packages.
pub const NODE_MODULES: &'static str = "node_modules";

/// The directory of command shims.
pub const BIN_DIR: &'static str = ".bin";

/// What went wrong with linking.
#[derive(Debug)]
pub enum LinkError {
    Io { path: String, message: String },
    Cas(CasError),
    Package(PackageError),
    NotFetched { id: PackageId },
}

/// The message for a failure; that of the store or of the package where one of
/// these failed.
pub open spec fn link_error_text(e: LinkError) -> Seq<char> {
    match e {
        LinkError::Io { path, message } => path@ + ": "@ + message@,
        LinkError::Cas(e) => cas::cas_error_text(e),
        LinkError::Package(e) => package::package_error_text(e),
        LinkError::NotFetched { id } => resolve::id_text(id@)
            + " is in the layout but its contents were never fetched"@,
    }
}

impl LinkError {
    /// The message shown to the user.
    pub fn to_string(&self) -> (r: String)
        ensures
            r@ == link_error_text(*self),
    {
        match self {
            LinkError::Io { path, message } => {
                let mut out = text::chars_of(path.as_str());
                text::append_str(&mut out, ": ");
                text::append_str(&mut out, message.as_str());
                text::string_of(&out)
            },
            LinkError::Cas(e) => e.to_string(),
            LinkError::Package(e) => e.to_string(),
            LinkError::NotFetched { id } => text::concat(
                id.to_string(),
                " is in the layout but its contents were never fetched",
            ),
        }
    }
}

/// Package directories, relative to the project root, and what belongs in each.
pub type Layout = SortedMap<NormalizedPath, PackageId>;

/// What a `Layout` stands for.
pub type Places = Seq<(Seq<char>, PackageIdModel)>;

// ---------------------------------------------------------------------------
// Where a package can go.

/// Where a package of a given name goes below a directory.
pub open spec fn slot_of(directory: Seq<char>, name: Seq<char>) -> Seq<char> {
    path::joined_path(path::joined_path(directory, "node_modules"@), name)
}

/// Where a package of a given name goes below a directory.
pub fn slot_for(directory: &NormalizedPath, name: &str) -> (r: NormalizedPath)
    ensures
        r@ == slot_of(directory@, name@),
{
    directory.join("node_modules").join(name)
}

/// The directory of the package that holds the one at `p`: whatever sits before
/// the last `node_modules` segment.
pub open spec fn holder_of(p: Seq<char>) -> Option<Seq<char>> {
    match text::last_match(p, "node_modules/"@) {
        Some(at) => Some(path::normal(p.take(at))),
        None => None,
    }
}

/// The directory of the package that holds the one at `path`.
pub fn strip_last_package(path: &NormalizedPath) -> (r: Option<NormalizedPath>)
    ensures
        text::view_of(r) == holder_of(path@),
{
    let chars = text::chars_of(path.as_str());
    match text::rfind_text(&chars, "node_modules/") {
        Some(at) => {
            let front = text::string_of(text::before(&chars, at));
            Some(NormalizedPath::new(front.as_str()))
        },
        None => None,
    }
}

proof fn lemma_holder_is_shorter(p: Seq<char>)
    ensures
        holder_of(p) matches Some(q) ==> q.len() < p.len(),
{
    reveal_strlit("node_modules/");
    lemma_last_match_bounds(p, "node_modules/"@);
    if let Some(at) = text::last_match(p, "node_modules/"@) {
        path::lemma_normal_len(p.take(at));
    }
}

proof fn lemma_last_match_bounds(s: Seq<char>, needle: Seq<char>)
    ensures
        text::last_match(s, needle) matches Some(at) ==> 0 <= at && at + needle.len() <= s.len(),
    decreases s.len(),
{
    if !text::ends(s, needle) && s.len() > 0 {
        lemma_last_match_bounds(s.drop_last(), needle);
    }
}

/// Every directory that could host a dependency of the package at `owner`, from
/// the project root down to that package.
pub open spec fn hosts_of(owner: Seq<char>) -> Seq<Seq<char>>
    decreases owner.len(),
    when true
    via hosts_decreases
{
    match holder_of(owner) {
        Some(holder) => hosts_of(holder).push(owner),
        None => seq![owner],
    }
}

#[via_fn]
proof fn hosts_decreases(owner: Seq<char>) {
    lemma_holder_is_shorter(owner);
}

/// Every directory that could host this package, from the project root down to
/// the package that depends on it.
pub fn owning_directories(owner: &NormalizedPath) -> (r: Vec<NormalizedPath>)
    ensures
        sorted::list_views(r@) == hosts_of(owner@),
    decreases owner@.len(),
{
    proof {
        lemma_holder_is_shorter(owner@);
    }
    match strip_last_package(owner) {
        Some(holder) => {
            let mut chain = owning_directories(&holder);
            let ghost above = sorted::list_views(chain@);
            let last = owner.clone();
            chain.push(last);
            assert(sorted::list_views(chain@) =~= above.push(owner@));
            chain
        },
        None => {
            let mut chain: Vec<NormalizedPath> = Vec::new();
            chain.push(owner.clone());
            assert(sorted::list_views(chain@) =~= seq![owner@]);
            chain
        },
    }
}

/// Whether a slot is free, or holds exactly this package already.
pub open spec fn is_open(layout: Places, slot: Seq<char>, id: PackageIdModel) -> bool {
    match sorted::lookup(layout, slot) {
        Some(existing) => existing == id,
        None => true,
    }
}

/// The first slot of the hosts that is open.
pub open spec fn first_open(hosts: Seq<Seq<char>>, id: PackageIdModel, layout: Places) -> Option<
    Seq<char>,
>
    decreases hosts.len(),
{
    if hosts.len() == 0 {
        None
    } else if is_open(layout, slot_of(hosts[0], id.name), id) {
        Some(slot_of(hosts[0], id.name))
    } else {
        first_open(hosts.skip(1), id, layout)
    }
}

/// Where a package goes: into the shallowest open slot, or, where none is open,
/// below the package that depends on it.
pub open spec fn placement_of(owner: Seq<char>, id: PackageIdModel, layout: Places) -> Seq<char> {
    match first_open(hosts_of(owner), id, layout) {
        Some(slot) => slot,
        None => slot_of(owner, id.name),
    }
}

/// The shallowest directory whose `node_modules` slot for this name is free, or
/// already holds this exact version.
pub fn placement(owner: &NormalizedPath, id: &PackageId, layout: &Layout) -> (r: NormalizedPath)
    ensures
        r@ == placement_of(owner@, id@, layout@),
{
    let hosts = owning_directories(owner);
    let ghost all = sorted::list_views(hosts@);
    let mut i: usize = 0;
    assert(all.skip(0) =~= all);
    while i < hosts.len()
        invariant
            i <= hosts@.len(),
            all == sorted::list_views(hosts@),
            all == hosts_of(owner@),
            first_open(all, id@, layout@) == first_open(all.skip(i as int), id@, layout@),
        decreases hosts@.len() - i,
    {
        proof {
            assert(all.skip(i as int)[0] == hosts@[i as int]@);
            assert(all.skip(i as int).skip(1) =~= all.skip(i + 1));
        }
        let slot = slot_for(&hosts[i], id.name.as_str());
        match layout.get(&slot) {
            None => {
                return slot;
            },
            Some(existing) => {
                if resolve::same_id(existing, id) {
                    return slot;
                }
            },
        }
        i += 1;
    }
    assert(all.skip(i as int).len() == 0);
    slot_for(owner, id.name.as_str())
}

// ---------------------------------------------------------------------------
// The plan.

/// A package to place for the package at `owner`.
#[derive(Debug)]
pub struct Visit {
    pub owner: NormalizedPath,
    pub id: PackageId,
}

/// What a `Visit` stands for.
#[verifier::ext_equal]
pub struct VisitModel {
    pub owner: Seq<char>,
    pub id: PackageIdModel,
}

impl View for Visit {
    type V = VisitModel;

    open spec fn view(&self) -> VisitModel {
        VisitModel { owner: self.owner@, id: self.id@ }
    }
}

impl Clone for Visit {
    fn clone(&self) -> (r: Self)
        ensures
            r@ == self@,
    {
        Visit { owner: self.owner.clone(), id: self.id.clone() }
    }
}

impl Rank for VisitModel {
    open spec fn rank(self) -> Seq<int> {
        order::closed_text(self.owner) + self.id.rank()
    }
}

impl Ranked for Visit {
    fn compare(&self, other: &Self) -> (r: Order) {
        proof {
            order::lemma_closed_text(
                self.owner@,
                other.owner@,
                self.id@.rank(),
                other.id@.rank(),
            );
            order::lemma_closed_text(
                other.owner@,
                self.owner@,
                other.id@.rank(),
                self.id@.rank(),
            );
        }
        match order::compare_text(self.owner.as_str(), other.owner.as_str()) {
            Order::Equal => self.id.compare(&other.id),
            decided => decided,
        }
    }
}

/// How far a plan has come.
#[verifier::ext_equal]
pub struct Plan {
    pub layout: Places,
    pub visited: Seq<(VisitModel, ())>,
    pub queue: Seq<VisitModel>,
}

/// What the dependencies of a package at `directory` come to.
pub open spec fn visits_from(directory: Seq<char>, edges: Seq<EdgeModel>) -> Seq<VisitModel> {
    edges.map_values(
        |e: EdgeModel| VisitModel { owner: directory, id: resolve::edge_target(e) },
    )
}

/// The visits that a package at `directory` asks for.
pub open spec fn visits_of(packages: Packages, directory: Seq<char>, id: PackageIdModel) -> Seq<
    VisitModel,
> {
    match sorted::lookup(packages, id) {
        Some(package) => visits_from(directory, package.dependencies),
        None => Seq::empty(),
    }
}

/// One step: the first package of the queue is placed, and its dependencies
/// join the queue. A package is expanded once per owner, which also ends
/// dependency cycles.
pub open spec fn plan_step(packages: Packages, plan: Plan) -> Plan {
    if plan.queue.len() == 0 {
        plan
    } else {
        let visit = plan.queue[0];
        let rest = plan.queue.skip(1);
        if sorted::holds(plan.visited, visit) {
            Plan { queue: rest, ..plan }
        } else {
            let directory = placement_of(visit.owner, visit.id, plan.layout);
            Plan {
                layout: sorted::put(plan.layout, directory, visit.id),
                visited: sorted::put(plan.visited, visit, ()),
                queue: rest + visits_of(packages, directory, visit.id),
            }
        }
    }
}

/// A plan that was not begun: the roots of the resolution are to be placed for
/// the project itself.
pub open spec fn plan_start(r: ResolutionModel) -> Plan {
    Plan {
        layout: Seq::empty(),
        visited: Seq::empty(),
        queue: resolve::roots_of(r).map_values(
            |id: PackageIdModel| VisitModel { owner: path::here(), id },
        ),
    }
}

/// A plan after a number of steps.
pub open spec fn plan_after(r: ResolutionModel, steps: nat) -> Plan
    decreases steps,
{
    if steps == 0 {
        plan_start(r)
    } else {
        plan_step(r.packages, plan_after(r, (steps - 1) as nat))
    }
}

/// A plan whose queue is empty is done.
pub proof fn lemma_done_plans_stay(r: ResolutionModel, n: nat, m: nat)
    requires
        n <= m,
        plan_after(r, n).queue.len() == 0,
    ensures
        plan_after(r, m) == plan_after(r, n),
    decreases m,
{
    if n < m {
        lemma_done_plans_stay(r, n, (m - 1) as nat);
    }
}

/// Places every resolved package, hoisting as far as each one can go. A plan
/// takes one step per package and owner; none is given for a resolution that is
/// not placed within `u64::MAX` of them.
pub fn plan(resolution: &Resolution) -> (r: Option<Layout>)
    ensures
        match r {
            Some(layout) => {
                &&& plan_after(resolution@, u64::MAX as nat).queue.len() == 0
                &&& layout@ == plan_after(resolution@, u64::MAX as nat).layout
            },
            None => plan_after(resolution@, u64::MAX as nat).queue.len() > 0,
        },
{
    let mut layout: Layout = SortedMap::new();
    let mut visited: SortedMap<Visit, ()> = SortedMap::new();
    let mut queue = start_queue(resolution);
    let mut steps: u64 = 0;
    while queue.len() > 0
        invariant
            plan_after(resolution@, steps as nat) == (Plan {
                layout: layout@,
                visited: visited@,
                queue: sorted::list_views(queue@),
            }),
        decreases u64::MAX - steps,
    {
        let ghost now = sorted::list_views(queue@);
        assert(now.len() == queue@.len());
        if steps == u64::MAX {
            return None;
        }
        let visit = queue.remove(0);
        proof {
            assert(now[0] == visit@);
            assert(sorted::list_views(queue@) =~= now.skip(1));
        }
        steps = steps + 1;
        assert(plan_after(resolution@, steps as nat) == plan_step(
            resolution@.packages,
            plan_after(resolution@, (steps - 1) as nat),
        ));
        if !visited.contains_key(&visit) {
            let directory = placement(&visit.owner, &visit.id, &layout);
            layout.insert(directory.clone(), visit.id.clone());
            push_visits(&mut queue, resolution, &directory, &visit.id);
            visited.insert(visit, ());
        }
    }
    proof {
        assert(sorted::list_views(queue@).len() == 0);
        lemma_done_plans_stay(resolution@, steps as nat, u64::MAX as nat);
    }
    Some(layout)
}

fn start_queue(resolution: &Resolution) -> (queue: Vec<Visit>)
    ensures
        sorted::list_views(queue@) == plan_start(resolution@).queue,
{
    proof {
        reveal_strlit(".");
        assert("."@ =~= path::here());
        assert(path::normal(path::here()) == path::here()) by {
            path::lemma_here_is_normal();
        }
    }
    let root = NormalizedPath::new(".");
    let roots = resolution.roots();
    let ghost all = plan_start(resolution@).queue;
    let mut queue: Vec<Visit> = Vec::new();
    let mut i: usize = 0;
    assert(sorted::list_views(queue@) =~= all.take(0));
    while i < roots.len()
        invariant
            i <= roots@.len(),
            root@ == path::here(),
            all == plan_start(resolution@).queue,
            sorted::list_views(roots@) == resolve::roots_of(resolution@),
            sorted::list_views(queue@) == all.take(i as int),
        decreases roots@.len() - i,
    {
        let ghost before = sorted::list_views(queue@);
        let visit = Visit { owner: root.clone(), id: roots[i].clone() };
        proof {
            assert(sorted::list_views(roots@)[i as int] == roots@[i as int]@);
            assert(all[i as int] == visit@);
            assert(all.take(i + 1) =~= all.take(i as int).push(visit@));
        }
        queue.push(visit);
        assert(sorted::list_views(queue@) =~= before.push(visit@));
        i += 1;
    }
    assert(sorted::list_views(roots@).len() == roots@.len());
    assert(all.take(i as int) =~= all);
    queue
}

fn push_visits(
    queue: &mut Vec<Visit>,
    resolution: &Resolution,
    directory: &NormalizedPath,
    id: &PackageId,
)
    ensures
        sorted::list_views(final(queue)@) == sorted::list_views(old(queue)@) + visits_of(
            resolution@.packages,
            directory@,
            id@,
        ),
{
    let ghost start = sorted::list_views(queue@);
    if let Some(package) = resolution.package(id) {
        let ghost all = visits_from(directory@, package@.dependencies);
        let mut i: usize = 0;
        assert(start + all.take(0) =~= start);
        while i < package.dependencies.len()
            invariant
                i <= package.dependencies@.len(),
                all == visits_from(directory@, package@.dependencies),
                sorted::list_views(queue@) == start + all.take(i as int),
            decreases package.dependencies@.len() - i,
        {
            let ghost before = sorted::list_views(queue@);
            let edge = &package.dependencies[i];
            let visit = Visit {
                owner: directory.clone(),
                id: PackageId::new(edge.name.as_str(), edge.version.clone()),
            };
            proof {
                assert(package@.dependencies[i as int] == edge@);
                assert(all[i as int] == visit@);
                assert(start + all.take(i + 1) =~= (start + all.take(i as int)).push(visit@));
            }
            queue.push(visit);
            assert(sorted::list_views(queue@) =~= before.push(visit@));
            i += 1;
        }
        assert(package@.dependencies.len() == package.dependencies@.len());
        assert(all.take(i as int) =~= all);
    } else {
        assert(start + Seq::<VisitModel>::empty() =~= start);
    }
}

/// Whether a package was placed for some owner.
pub open spec fn was_visited(visited: Seq<(VisitModel, ())>, id: PackageIdModel) -> bool {
    exists|j: int| 0 <= j < visited.len() && (#[trigger] visited[j]).0.id.rank() == id.rank()
}

/// Whether a package waits to be placed.
pub open spec fn is_queued(queue: Seq<VisitModel>, id: PackageIdModel) -> bool {
    exists|j: int| 0 <= j < queue.len() && (#[trigger] queue[j]).id.rank() == id.rank()
}

/// The dependencies of a package.
pub open spec fn edges_of(packages: Packages, id: PackageIdModel) -> Seq<EdgeModel> {
    match sorted::lookup(packages, id) {
        Some(package) => package.dependencies,
        None => Seq::empty(),
    }
}

/// Whether everything that the roots and the placed packages lead to is placed
/// or waits.
pub open spec fn leaves_nothing_out(r: ResolutionModel, plan: Plan) -> bool {
    &&& forall|i: int|
        0 <= i < resolve::roots_of(r).len() ==> was_visited(
            plan.visited,
            #[trigger] resolve::roots_of(r)[i],
        ) || is_queued(plan.queue, resolve::roots_of(r)[i])
    &&& forall|i: int, e: int|
        0 <= i < plan.visited.len() && 0 <= e < edges_of(r.packages, plan.visited[i].0.id).len()
            ==> {
            let target = resolve::edge_target(
                #[trigger] edges_of(r.packages, plan.visited[i].0.id)[e],
            );
            was_visited(plan.visited, target) || is_queued(plan.queue, target)
        }
}

/// What was placed or waits stays so.
proof fn lemma_seen_stays(packages: Packages, plan: Plan, id: PackageIdModel)
    requires
        was_visited(plan.visited, id) || is_queued(plan.queue, id),
    ensures
        ({
            let next = plan_step(packages, plan);
            was_visited(next.visited, id) || is_queued(next.queue, id)
        }),
{
    let next = plan_step(packages, plan);
    if plan.queue.len() > 0 {
        let visit = plan.queue[0];
        let rest = plan.queue.skip(1);
        let fresh = !sorted::holds(plan.visited, visit);
        sorted::lemma_slot(plan.visited, visit);
        let at = sorted::slot(plan.visited, visit) as int;
        if was_visited(plan.visited, id) {
            let j = choose|j: int|
                0 <= j < plan.visited.len() && (#[trigger] plan.visited[j]).0.id.rank()
                    == id.rank();
            if fresh {
                let k = if j < at {
                    j
                } else {
                    j + 1
                };
                assert(next.visited[k] == plan.visited[j]);
            }
        } else {
            let j = choose|j: int|
                0 <= j < plan.queue.len() && (#[trigger] plan.queue[j]).id.rank() == id.rank();
            if j > 0 {
                assert(next.queue[j - 1] == plan.queue[j]);
            } else if fresh {
                assert(next.visited[at] == (visit, ()));
            } else {
                let kept = plan.visited[at].0;
                order::lemma_closed_text(
                    kept.owner,
                    visit.owner,
                    kept.id.rank(),
                    visit.id.rank(),
                );
                assert(was_visited(plan.visited, id));
            }
        }
    }
}

proof fn lemma_step_leaves_nothing_out(r: ResolutionModel, plan: Plan)
    requires
        leaves_nothing_out(r, plan),
    ensures
        leaves_nothing_out(r, plan_step(r.packages, plan)),
{
    let next = plan_step(r.packages, plan);
    let roots = resolve::roots_of(r);
    assert forall|i: int| 0 <= i < roots.len() implies was_visited(
        next.visited,
        #[trigger] roots[i],
    ) || is_queued(next.queue, roots[i]) by {
        lemma_seen_stays(r.packages, plan, roots[i]);
    }
    assert forall|i: int, e: int|
        0 <= i < next.visited.len() && 0 <= e < edges_of(r.packages, next.visited[i].0.id).len()
        implies ({
        let target = resolve::edge_target(
            #[trigger] edges_of(r.packages, next.visited[i].0.id)[e],
        );
        was_visited(next.visited, target) || is_queued(next.queue, target)
    }) by {
        let target = resolve::edge_target(edges_of(r.packages, next.visited[i].0.id)[e]);
        if plan.queue.len() == 0 || sorted::holds(plan.visited, plan.queue[0]) {
            assert(next.visited[i] == plan.visited[i]);
            lemma_seen_stays(r.packages, plan, target);
        } else {
            let visit = plan.queue[0];
            sorted::lemma_slot(plan.visited, visit);
            let at = sorted::slot(plan.visited, visit) as int;
            if i == at {
                let directory = placement_of(visit.owner, visit.id, plan.layout);
                let added = visits_of(r.packages, directory, visit.id);
                let rest = plan.queue.skip(1);
                assert(next.visited[i] == (visit, ()));
                assert(added[e].id == target);
                assert(next.queue[rest.len() + e] == added[e]);
            } else {
                let j = if i < at {
                    i
                } else {
                    i - 1
                };
                assert(next.visited[i] == plan.visited[j]);
                lemma_seen_stays(r.packages, plan, target);
            }
        }
    }
}

proof fn lemma_plans_leave_nothing_out(r: ResolutionModel, steps: nat)
    ensures
        leaves_nothing_out(r, plan_after(r, steps)),
    decreases steps,
{
    if steps == 0 {
        let start = plan_start(r);
        let roots = resolve::roots_of(r);
        assert forall|i: int| 0 <= i < roots.len() implies was_visited(
            start.visited,
            #[trigger] roots[i],
        ) || is_queued(start.queue, roots[i]) by {
            assert(start.queue[i].id == roots[i]);
        }
    } else {
        lemma_plans_leave_nothing_out(r, (steps - 1) as nat);
        lemma_step_leaves_nothing_out(r, plan_after(r, (steps - 1) as nat));
    }
}

/// A finished plan gave a place to every root, and to every dependency of
/// whatever it gave a place to.
pub proof fn finished_plans_place_everything(r: ResolutionModel, steps: nat)
    requires
        plan_after(r, steps).queue.len() == 0,
    ensures
        forall|i: int|
            0 <= i < resolve::roots_of(r).len() ==> was_visited(
                plan_after(r, steps).visited,
                #[trigger] resolve::roots_of(r)[i],
            ),
        forall|i: int, e: int|
            0 <= i < plan_after(r, steps).visited.len() && 0 <= e < edges_of(
                r.packages,
                plan_after(r, steps).visited[i].0.id,
            ).len() ==> was_visited(
                plan_after(r, steps).visited,
                resolve::edge_target(
                    #[trigger] edges_of(r.packages, plan_after(r, steps).visited[i].0.id)[e],
                ),
            ),
{
    lemma_plans_leave_nothing_out(r, steps);
}

/// A step of a plan either takes a repeat off the queue or places a package for
/// an owner for which it was not placed before.
pub proof fn plan_steps_make_progress(packages: Packages, plan: Plan)
    requires
        plan.queue.len() > 0,
        sorted::ascending(plan.visited),
    ensures
        ({
            let next = plan_step(packages, plan);
            if sorted::holds(plan.visited, plan.queue[0]) {
                next.queue.len() < plan.queue.len() && next.visited == plan.visited && next.layout
                    == plan.layout
            } else {
                &&& next.visited.len() == plan.visited.len() + 1
                &&& sorted::holds(next.visited, plan.queue[0])
                &&& sorted::ascending(next.visited)
            }
        }),
{
    sorted::lemma_put_ascending(plan.visited, plan.queue[0], ());
    sorted::lemma_slot(plan.visited, plan.queue[0]);
    if !sorted::holds(plan.visited, plan.queue[0]) {
        let at = sorted::slot(plan.visited, plan.queue[0]) as int;
        let next = plan_step(packages, plan);
        sorted::lemma_holds_at(next.visited, plan.queue[0], at);
    }
}

/// A package goes as far up as it can: every slot above the one that it gets is
/// taken by another version, and the slot that it gets is taken by another
/// version only if all of them are.
pub proof fn packages_are_hoisted(owner: Seq<char>, id: PackageIdModel, layout: Places)
    ensures
        ({
            let hosts = hosts_of(owner);
            let slot = placement_of(owner, id, layout);
            ||| exists|k: int|
                0 <= k < hosts.len() && slot == slot_of(#[trigger] hosts[k], id.name) && is_open(
                    layout,
                    slot,
                    id,
                ) && forall|j: int|
                    0 <= j < k ==> !is_open(layout, slot_of(#[trigger] hosts[j], id.name), id)
            ||| slot == slot_of(owner, id.name) && forall|j: int|
                0 <= j < hosts.len() ==> !is_open(
                    layout,
                    slot_of(#[trigger] hosts[j], id.name),
                    id,
                )
        }),
{
    lemma_first_open(hosts_of(owner), id, layout);
}

proof fn lemma_first_open(hosts: Seq<Seq<char>>, id: PackageIdModel, layout: Places)
    ensures
        match first_open(hosts, id, layout) {
            Some(slot) => exists|k: int|
                0 <= k < hosts.len() && slot == slot_of(#[trigger] hosts[k], id.name) && is_open(
                    layout,
                    slot,
                    id,
                ) && forall|j: int|
                    0 <= j < k ==> !is_open(layout, slot_of(#[trigger] hosts[j], id.name), id),
            None => forall|j: int|
                0 <= j < hosts.len() ==> !is_open(
                    layout,
                    slot_of(#[trigger] hosts[j], id.name),
                    id,
                ),
        },
    decreases hosts.len(),
{
    if hosts.len() > 0 {
        let rest = hosts.skip(1);
        lemma_first_open(rest, id, layout);
        if is_open(layout, slot_of(hosts[0], id.name), id) {
            assert(hosts[0] == hosts[0]);
        } else {
            match first_open(rest, id, layout) {
                Some(slot) => {
                    let k = choose|k: int|
                        0 <= k < rest.len() && slot == slot_of(#[trigger] rest[k], id.name)
                            && is_open(layout, slot, id) && forall|j: int|
                            0 <= j < k ==> !is_open(
                                layout,
                                slot_of(#[trigger] rest[j], id.name),
                                id,
                            );
                    assert(hosts[k + 1] == rest[k]);
                    assert forall|j: int| 0 <= j < k + 1 implies !is_open(
                        layout,
                        slot_of(#[trigger] hosts[j], id.name),
                        id,
                    ) by {
                        if j > 0 {
                            assert(hosts[j] == rest[j - 1]);
                        }
                    }
                },
                None => {
                    assert forall|j: int| 0 <= j < hosts.len() implies !is_open(
                        layout,
                        slot_of(#[trigger] hosts[j], id.name),
                        id,
                    ) by {
                        if j > 0 {
                            assert(hosts[j] == rest[j - 1]);
                        }
                    }
                },
            }
        }
    }
}

/// What a package at the end of the hosts finds under a name: Node looks from
/// there up to the project root.
pub open spec fn nearest(hosts: Seq<Seq<char>>, name: Seq<char>, layout: Places) -> Option<
    PackageIdModel,
>
    decreases hosts.len(),
{
    if hosts.len() == 0 {
        None
    } else {
        match sorted::lookup(layout, slot_of(hosts.last(), name)) {
            Some(id) => Some(id),
            None => nearest(hosts.drop_last(), name, layout),
        }
    }
}

/// Whether a slot holds a package, up to build metadata.
pub open spec fn is_slot_of(layout: Places, slot: Seq<char>, id: PackageIdModel) -> bool {
    sorted::lookup(layout, slot) matches Some(found) && found.rank() == id.rank()
}

/// Whether a package at `owner` finds a version, up to build metadata.
pub open spec fn finds(layout: Places, owner: Seq<char>, id: PackageIdModel) -> bool {
    nearest(hosts_of(owner), id.name, layout) matches Some(found) && found.rank() == id.rank()
}

/// Whether some host of `owner` holds a package.
pub open spec fn is_within_reach(layout: Places, owner: Seq<char>, id: PackageIdModel) -> bool {
    exists|k: int|
        0 <= k < hosts_of(owner).len() && is_slot_of(
            layout,
            slot_of(#[trigger] hosts_of(owner)[k], id.name),
            id,
        )
}

/// Whether another version stands between `owner` and a host that holds a
/// package.
pub open spec fn is_shadowed(layout: Places, owner: Seq<char>, id: PackageIdModel) -> bool {
    exists|k: int, j: int|
        0 <= k < j < hosts_of(owner).len() && is_slot_of(
            layout,
            slot_of(#[trigger] hosts_of(owner)[k], id.name),
            id,
        ) && sorted::lookup(layout, slot_of(#[trigger] hosts_of(owner)[j], id.name)) is Some
            && !is_slot_of(layout, slot_of(hosts_of(owner)[j], id.name), id)
}

/// Whether the next step takes no slot from another package.
pub open spec fn step_keeps_places(plan: Plan) -> bool {
    plan.queue.len() > 0 && !sorted::holds(plan.visited, plan.queue[0]) ==> is_open(
        plan.layout,
        placement_of(plan.queue[0].owner, plan.queue[0].id, plan.layout),
        plan.queue[0].id,
    )
}

/// Whether no step of a plan takes a slot from another package, as a package with
/// two dependencies of one name makes it do.
pub open spec fn keeps_places(r: ResolutionModel, steps: nat) -> bool {
    forall|s: nat| s < steps ==> step_keeps_places(#[trigger] plan_after(r, s))
}

/// Whether a visit was made or waits.
spec fn is_seen(plan: Plan, visit: VisitModel) -> bool {
    sorted::holds(plan.visited, visit) || plan.queue.contains(visit)
}

/// Whether what was placed for an owner is in its reach, and what the roots and
/// the placed packages ask for was placed for them or waits.
spec fn serves_its_owners(r: ResolutionModel, plan: Plan) -> bool {
    &&& sorted::ascending(plan.layout)
    &&& sorted::ascending(plan.visited)
    &&& forall|i: int|
        0 <= i < plan.visited.len() ==> is_within_reach(
            plan.layout,
            (#[trigger] plan.visited[i]).0.owner,
            plan.visited[i].0.id,
        )
    &&& forall|p: Seq<char>, id: PackageIdModel, e: int|
        sorted::lookup(plan.layout, p) == Some(id) && 0 <= e < edges_of(r.packages, id).len()
            ==> #[trigger] is_seen(
            plan,
            VisitModel { owner: p, id: resolve::edge_target(edges_of(r.packages, id)[e]) },
        )
    &&& forall|i: int|
        0 <= i < resolve::roots_of(r).len() ==> is_seen(
            plan,
            VisitModel { owner: path::here(), id: #[trigger] resolve::roots_of(r)[i] },
        )
}

proof fn lemma_place_is_kept(layout: Places, slot: Seq<char>, id: PackageIdModel, p: Seq<char>)
    requires
        sorted::ascending(layout),
        is_open(layout, slot, id),
    ensures
        sorted::lookup(layout, p) matches Some(found) ==> sorted::lookup(
            sorted::put(layout, slot, id),
            p,
        ) == Some(found),
{
    sorted::lemma_put_lookup(layout, slot, id, p);
    order::lemma_text_rank_injective(slot, p);
}

proof fn lemma_seen_stays_seen(r: ResolutionModel, plan: Plan, visit: VisitModel)
    requires
        sorted::ascending(plan.visited),
        is_seen(plan, visit),
    ensures
        is_seen(plan_step(r.packages, plan), visit),
{
    let next = plan_step(r.packages, plan);
    if plan.queue.len() > 0 {
        let first = plan.queue[0];
        if !sorted::holds(plan.visited, first) {
            sorted::lemma_put_lookup(plan.visited, first, (), visit);
            sorted::lemma_put_lookup(plan.visited, first, (), first);
        }
        if !sorted::holds(plan.visited, visit) {
            let j = choose|j: int| 0 <= j < plan.queue.len() && plan.queue[j] == visit;
            if j > 0 {
                assert(next.queue[j - 1] == visit);
            }
        }
    }
}

proof fn lemma_hosts_end_with_owner(owner: Seq<char>)
    ensures
        hosts_of(owner).len() > 0,
        hosts_of(owner).last() == owner,
{
}

proof fn lemma_step_serves_its_owners(r: ResolutionModel, plan: Plan)
    requires
        serves_its_owners(r, plan),
        step_keeps_places(plan),
    ensures
        serves_its_owners(r, plan_step(r.packages, plan)),
{
    let next = plan_step(r.packages, plan);
    if plan.queue.len() > 0 {
        let visit = plan.queue[0];
        if !sorted::holds(plan.visited, visit) {
            let slot = placement_of(visit.owner, visit.id, plan.layout);
            sorted::lemma_put_ascending(plan.layout, slot, visit.id);
            sorted::lemma_put_ascending(plan.visited, visit, ());
            lemma_step_reaches(r, plan);
            assert forall|p: Seq<char>, id: PackageIdModel, e: int|
                sorted::lookup(next.layout, p) == Some(id) && 0 <= e < edges_of(
                    r.packages,
                    id,
                ).len() implies #[trigger] is_seen(
                next,
                VisitModel { owner: p, id: resolve::edge_target(edges_of(r.packages, id)[e]) },
            ) by {
                let target = resolve::edge_target(edges_of(r.packages, id)[e]);
                let asked = VisitModel { owner: p, id: target };
                sorted::lemma_put_lookup(plan.layout, slot, visit.id, p);
                order::lemma_text_rank_injective(slot, p);
                if p == slot {
                    let added = visits_of(r.packages, slot, visit.id);
                    assert(added[e] == asked);
                    assert(next.queue[plan.queue.len() - 1 + e] == asked);
                } else {
                    assert(is_seen(plan, asked));
                    lemma_seen_stays_seen(r, plan, asked);
                }
            }
        } else {
            assert forall|p: Seq<char>, id: PackageIdModel, e: int|
                sorted::lookup(next.layout, p) == Some(id) && 0 <= e < edges_of(
                    r.packages,
                    id,
                ).len() implies #[trigger] is_seen(
                next,
                VisitModel { owner: p, id: resolve::edge_target(edges_of(r.packages, id)[e]) },
            ) by {
                let target = resolve::edge_target(edges_of(r.packages, id)[e]);
                let asked = VisitModel { owner: p, id: target };
                assert(is_seen(plan, asked));
                lemma_seen_stays_seen(r, plan, asked);
            }
        }
        assert forall|i: int| 0 <= i < resolve::roots_of(r).len() implies is_seen(
            next,
            VisitModel { owner: path::here(), id: #[trigger] resolve::roots_of(r)[i] },
        ) by {
            let asked = VisitModel { owner: path::here(), id: resolve::roots_of(r)[i] };
            assert(is_seen(plan, asked));
            lemma_seen_stays_seen(r, plan, asked);
        }
    }
}

/// After a step that places something, everything placed is still in reach.
proof fn lemma_step_reaches(r: ResolutionModel, plan: Plan)
    requires
        serves_its_owners(r, plan),
        step_keeps_places(plan),
        plan.queue.len() > 0,
        !sorted::holds(plan.visited, plan.queue[0]),
    ensures
        ({
            let next = plan_step(r.packages, plan);
            forall|i: int|
                0 <= i < next.visited.len() ==> is_within_reach(
                    next.layout,
                    (#[trigger] next.visited[i]).0.owner,
                    next.visited[i].0.id,
                )
        }),
{
    let next = plan_step(r.packages, plan);
    let visit = plan.queue[0];
    let slot = placement_of(visit.owner, visit.id, plan.layout);
    sorted::lemma_slot(plan.visited, visit);
    let at = sorted::slot(plan.visited, visit) as int;
    assert forall|i: int| 0 <= i < next.visited.len() implies is_within_reach(
        next.layout,
        (#[trigger] next.visited[i]).0.owner,
        next.visited[i].0.id,
    ) by {
        if i == at {
            let hosts = hosts_of(visit.owner);
            assert(next.visited[i] == (visit, ()));
            lemma_first_open(hosts, visit.id, plan.layout);
            lemma_hosts_end_with_owner(visit.owner);
            sorted::lemma_put_lookup(plan.layout, slot, visit.id, slot);
            let k = match first_open(hosts, visit.id, plan.layout) {
                Some(found) => choose|k: int|
                    0 <= k < hosts.len() && slot == slot_of(#[trigger] hosts[k], visit.id.name),
                None => hosts.len() - 1,
            };
            assert(slot == slot_of(hosts[k], visit.id.name));
            assert(is_slot_of(next.layout, slot_of(hosts[k], visit.id.name), visit.id));
        } else {
            let old = if i < at {
                plan.visited[i]
            } else {
                plan.visited[i - 1]
            };
            assert(next.visited[i] == old);
            let owner = old.0.owner;
            let id = old.0.id;
            assert(is_within_reach(plan.layout, owner, id));
            let k = choose|k: int|
                0 <= k < hosts_of(owner).len() && is_slot_of(
                    plan.layout,
                    slot_of(#[trigger] hosts_of(owner)[k], id.name),
                    id,
                );
            let p = slot_of(hosts_of(owner)[k], id.name);
            lemma_place_is_kept(plan.layout, slot, visit.id, p);
            assert(is_slot_of(next.layout, p, id));
        }
    }
}

proof fn lemma_plans_serve_their_owners(r: ResolutionModel, steps: nat)
    requires
        keeps_places(r, steps),
    ensures
        serves_its_owners(r, plan_after(r, steps)),
    decreases steps,
{
    if steps == 0 {
        let start = plan_start(r);
        assert forall|i: int| 0 <= i < resolve::roots_of(r).len() implies is_seen(
            start,
            VisitModel { owner: path::here(), id: #[trigger] resolve::roots_of(r)[i] },
        ) by {
            assert(start.queue[i] == (VisitModel {
                owner: path::here(),
                id: resolve::roots_of(r)[i],
            }));
        }
    } else {
        let before = (steps - 1) as nat;
        assert(step_keeps_places(plan_after(r, before)));
        lemma_plans_serve_their_owners(r, before);
        lemma_step_serves_its_owners(r, plan_after(r, before));
    }
}

proof fn lemma_visit_reaches(r: ResolutionModel, plan: Plan, visit: VisitModel)
    requires
        serves_its_owners(r, plan),
        sorted::holds(plan.visited, visit),
    ensures
        is_within_reach(plan.layout, visit.owner, visit.id),
{
    let at = sorted::slot(plan.visited, visit) as int;
    let kept = plan.visited[at].0;
    order::lemma_closed_text(kept.owner, visit.owner, kept.id.rank(), visit.id.rank());
    order::lemma_closed_text(
        kept.id.name,
        visit.id.name,
        kept.id.version.rank(),
        visit.id.version.rank(),
    );
    assert(is_within_reach(plan.layout, kept.owner, kept.id));
    let k = choose|k: int|
        0 <= k < hosts_of(kept.owner).len() && is_slot_of(
            plan.layout,
            slot_of(#[trigger] hosts_of(kept.owner)[k], kept.id.name),
            kept.id,
        );
    assert(is_slot_of(plan.layout, slot_of(hosts_of(visit.owner)[k], visit.id.name), visit.id));
}

/// Unless another version shadows it, a package that is in reach is the one that
/// is found.
proof fn lemma_reach_is_found(hosts: Seq<Seq<char>>, id: PackageIdModel, layout: Places)
    requires
        exists|k: int|
            0 <= k < hosts.len() && is_slot_of(layout, slot_of(#[trigger] hosts[k], id.name), id),
        forall|k: int, j: int|
            0 <= k < j < hosts.len() && is_slot_of(
                layout,
                slot_of(#[trigger] hosts[k], id.name),
                id,
            ) && sorted::lookup(layout, slot_of(#[trigger] hosts[j], id.name)) is Some
                ==> is_slot_of(layout, slot_of(hosts[j], id.name), id),
    ensures
        nearest(hosts, id.name, layout) matches Some(found) && found.rank() == id.rank(),
    decreases hosts.len(),
{
    let k = choose|k: int|
        0 <= k < hosts.len() && is_slot_of(layout, slot_of(#[trigger] hosts[k], id.name), id);
    let last = hosts.len() - 1;
    assert(hosts[last] == hosts.last());
    if sorted::lookup(layout, slot_of(hosts.last(), id.name)) is None {
        let above = hosts.drop_last();
        assert(above[k] == hosts[k]);
        assert forall|a: int, b: int|
            0 <= a < b < above.len() && is_slot_of(
                layout,
                slot_of(#[trigger] above[a], id.name),
                id,
            ) && sorted::lookup(layout, slot_of(#[trigger] above[b], id.name)) is Some
            implies is_slot_of(layout, slot_of(above[b], id.name), id) by {
            assert(above[a] == hosts[a] && above[b] == hosts[b]);
        }
        lemma_reach_is_found(above, id, layout);
    }
}

/// In a finished layout the project finds every version that it asked for, and so
/// does every dependent, unless another version of that name stands in between;
/// up to build metadata, which decides nothing.
///
/// Left out are plans in which a step takes a slot from another package;
/// `plans::plans_keep_places` says when none does.
pub proof fn dependents_find_what_they_asked_for(r: ResolutionModel, steps: nat)
    requires
        plan_after(r, steps).queue.len() == 0,
        keeps_places(r, steps),
    ensures
        forall|p: Seq<char>, id: PackageIdModel, e: int|
            #[trigger] sorted::lookup(plan_after(r, steps).layout, p) == Some(id) && 0 <= e
                < edges_of(r.packages, id).len() ==> {
                let target = resolve::edge_target(#[trigger] edges_of(r.packages, id)[e]);
                finds(plan_after(r, steps).layout, p, target) || is_shadowed(
                    plan_after(r, steps).layout,
                    p,
                    target,
                )
            },
        forall|i: int|
            0 <= i < resolve::roots_of(r).len() ==> finds(
                plan_after(r, steps).layout,
                path::here(),
                #[trigger] resolve::roots_of(r)[i],
            ),
{
    let plan = plan_after(r, steps);
    lemma_plans_serve_their_owners(r, steps);
    assert forall|p: Seq<char>, id: PackageIdModel, e: int|
        #[trigger] sorted::lookup(plan.layout, p) == Some(id) && 0 <= e < edges_of(
            r.packages,
            id,
        ).len() implies ({
        let target = resolve::edge_target(#[trigger] edges_of(r.packages, id)[e]);
        finds(plan.layout, p, target) || is_shadowed(plan.layout, p, target)
    }) by {
        let target = resolve::edge_target(edges_of(r.packages, id)[e]);
        let visit = VisitModel { owner: p, id: target };
        assert(is_seen(plan, visit));
        lemma_visit_reaches(r, plan, visit);
        if !is_shadowed(plan.layout, p, target) {
            lemma_reach_is_found(hosts_of(p), target, plan.layout);
        }
    }
    assert forall|i: int| 0 <= i < resolve::roots_of(r).len() implies finds(
        plan.layout,
        path::here(),
        #[trigger] resolve::roots_of(r)[i],
    ) by {
        let id = resolve::roots_of(r)[i];
        let visit = VisitModel { owner: path::here(), id };
        assert(is_seen(plan, visit));
        lemma_visit_reaches(r, plan, visit);
        lemma_here_has_no_holder();
        lemma_reach_is_found(hosts_of(path::here()), id, plan.layout);
    }
}

/// Nothing holds the project itself.
pub proof fn lemma_here_has_no_holder()
    ensures
        holder_of(path::here()) is None,
        hosts_of(path::here()) == seq![path::here()],
{
    reveal_strlit("node_modules/");
    lemma_last_match_bounds(path::here(), "node_modules/"@);
}

// ---------------------------------------------------------------------------
// Markers.

/// What a package directory says it holds.
#[derive(PartialEq, Eq, Debug)]
pub struct Marker {
    pub name: String,
    pub version: String,
    pub index_hash: ContentHash,
}

/// What a `Marker` stands for.
#[verifier::ext_equal]
pub struct MarkerModel {
    pub name: Seq<char>,
    pub version: Seq<char>,
    pub index_hash: Seq<u8>,
}

impl View for Marker {
    type V = MarkerModel;

    open spec fn view(&self) -> MarkerModel {
        MarkerModel { name: self.name@, version: self.version@, index_hash: self.index_hash@ }
    }
}

impl Clone for Marker {
    fn clone(&self) -> (r: Self)
        ensures
            r@ == self@,
    {
        Marker {
            name: self.name.clone(),
            version: self.version.clone(),
            index_hash: self.index_hash,
        }
    }
}

/// The markers below a project's `node_modules`, by package directory.
pub type Markers = SortedMap<NormalizedPath, Marker>;

/// What `Markers` stand for.
pub type Marks = Seq<(Seq<char>, MarkerModel)>;

/// What the text of a marker says: a name, a version and a hash, in the first
/// three words.
pub open spec fn marker_of(content: Seq<char>) -> Option<MarkerModel> {
    let words = text::words(content);
    if words.len() >= 3 && hash::utf8_len(words[2]) == 64 && hash::hash_of_hex(words[2]) is Some {
        Some(
            MarkerModel {
                name: words[0],
                version: words[1],
                index_hash: hash::hash_of_hex(words[2])->0,
            },
        )
    } else {
        None
    }
}

/// Reads a marker. One that cannot be read means "not installed", whatever else
/// is in the directory.
pub fn read_marker(content: &str) -> (r: Option<Marker>)
    ensures
        text::view_of(r) == marker_of(content@),
{
    let chars = text::chars_of(content);
    let words = text::split_whitespace(&chars);
    let ghost all = text::words(content@);
    assert(all.len() == words@.len());
    if words.len() < 3 {
        return None;
    }
    proof {
        assert(all[0] == words@[0]@);
        assert(all[1] == words@[1]@);
        assert(all[2] == words@[2]@);
    }
    match ContentHash::parse_hex(text::string_of(words[2]).as_str()) {
        Ok(index_hash) => Some(
            Marker {
                name: text::string_of(words[0]),
                version: text::string_of(words[1]),
                index_hash,
            },
        ),
        Err(_) => None,
    }
}

/// The text of the marker of a package.
pub open spec fn marker_text_of(
    name: Seq<char>,
    version: Seq<char>,
    index_hash: Seq<u8>,
) -> Seq<char> {
    name + " "@ + version + " "@ + hash::hex(index_hash) + "\n"@
}

/// A marker reads back as what it was written for, as long as name and version
/// are words.
pub proof fn markers_read_back(name: Seq<char>, version: Seq<char>, index_hash: Seq<u8>)
    requires
        text::is_word(name),
        text::is_word(version),
        index_hash.len() == 32,
    ensures
        marker_of(marker_text_of(name, version, index_hash)) == Some(
            (MarkerModel { name, version, index_hash }),
        ),
{
    reveal_strlit(" ");
    reveal_strlit("\n");
    let hex = hash::hex(index_hash);
    hash::hash_reads_back(index_hash);
    hash::lemma_hex_plain(index_hash);
    let tail = hex + seq!['\n'] + Seq::empty();
    let middle = version + seq![' '] + tail;
    let whole = name + seq![' '] + middle;
    assert(marker_text_of(name, version, index_hash) =~= whole);
    text::lemma_words_step(name, ' ', middle);
    text::lemma_words_step(version, ' ', tail);
    text::lemma_words_step(hex, '\n', Seq::empty());
    let nothing = text::words(Seq::empty());
    assert(nothing =~= Seq::empty());
    let words = text::words(whole);
    assert(words == seq![name] + (seq![version] + (seq![hex] + nothing)));
    assert(words[0] == name && words[1] == version && words[2] == hex);
}

// ---------------------------------------------------------------------------
// The difference between the plan and the disk.

/// A package's contents, ready to be materialized.
#[derive(PartialEq, Eq, Debug)]
pub struct FetchedPackage {
    pub index_hash: ContentHash,
    pub index: PackageIndex,
}

/// What a `FetchedPackage` stands for.
#[verifier::ext_equal]
pub struct FetchedModel {
    pub index_hash: Seq<u8>,
    pub index: PackageIndexModel,
}

impl View for FetchedPackage {
    type V = FetchedModel;

    open spec fn view(&self) -> FetchedModel {
        FetchedModel { index_hash: self.index_hash@, index: self.index@ }
    }
}

/// The contents of packages.
pub type Fetched = SortedMap<PackageId, FetchedPackage>;

/// What `Fetched` stands for.
pub type Contents = Seq<(PackageIdModel, FetchedModel)>;

/// Whether a directory holds exactly what the layout wants there.
pub open spec fn is_current(
    layout: Places,
    fetched: Contents,
    p: Seq<char>,
    marker: MarkerModel,
) -> bool {
    match sorted::lookup(layout, p) {
        Some(id) => match sorted::lookup(fetched, id) {
            Some(package) => id.name == marker.name && semver::version_text(id.version)
                == marker.version && package.index_hash == marker.index_hash,
            None => false,
        },
        None => false,
    }
}

/// Whether a path is one of the roots or lies below one.
pub open spec fn is_covered(roots: Seq<Seq<char>>, p: Seq<char>) -> bool {
    exists|k: int| 0 <= k < roots.len() && path::within_path(p, #[trigger] roots[k])
}

/// The directories to remove: those that hold something else than wanted, except
/// below one that is removed already.
pub open spec fn removals(actual: Marks, layout: Places, fetched: Contents) -> Seq<Seq<char>>
    decreases actual.len(),
{
    if actual.len() == 0 {
        Seq::empty()
    } else {
        let front = removals(actual.drop_last(), layout, fetched);
        let (p, marker) = actual.last();
        if is_current(layout, fetched, p, marker) || is_covered(front, p) {
            front
        } else {
            front.push(p)
        }
    }
}

/// Whether a directory can stay as it is. It cannot where a directory above it is
/// removed or written anew.
pub open spec fn is_intact(
    actual: Marks,
    removed: Seq<Seq<char>>,
    written: Seq<Seq<char>>,
    p: Seq<char>,
    id: PackageIdModel,
) -> bool {
    match sorted::lookup(actual, p) {
        Some(marker) => !is_covered(removed, p) && !is_covered(written, p) && marker.name == id.name
            && marker.version == semver::version_text(id.version),
        None => false,
    }
}

/// The paths of packages to write.
pub open spec fn paths_of(places: Places) -> Seq<Seq<char>> {
    places.map_values(|e: (Seq<char>, PackageIdModel)| e.0)
}

/// What is to be written: packages to add, in the order of the layout, up to the
/// first that was not fetched.
#[verifier::ext_equal]
pub struct Changes {
    pub additions: Places,
    pub unchanged: nat,
    pub missing: Option<PackageIdModel>,
}

/// What is to be written for a layout.
pub open spec fn changes(
    layout: Places,
    actual: Marks,
    removed: Seq<Seq<char>>,
    fetched: Contents,
) -> Changes
    decreases layout.len(),
{
    if layout.len() == 0 {
        Changes { additions: Seq::empty(), unchanged: 0, missing: None }
    } else {
        let front = changes(layout.drop_last(), actual, removed, fetched);
        let (p, id) = layout.last();
        if front.missing is Some {
            front
        } else if is_intact(actual, removed, paths_of(front.additions), p, id) {
            Changes { unchanged: front.unchanged + 1, ..front }
        } else if sorted::holds(fetched, id) {
            Changes { additions: front.additions.push((p, id)), ..front }
        } else {
            Changes { missing: Some(id), ..front }
        }
    }
}

/// A package to write.
#[derive(PartialEq, Eq, Debug)]
pub struct Addition {
    pub path: NormalizedPath,
    pub id: PackageId,
}

impl View for Addition {
    type V = (Seq<char>, PackageIdModel);

    open spec fn view(&self) -> (Seq<char>, PackageIdModel) {
        (self.path@, self.id@)
    }
}

/// What has to happen to the tree on disk.
#[derive(Debug)]
pub struct Difference {
    /// Directories to remove, shallowest first.
    pub removals: Vec<NormalizedPath>,
    /// Packages to write after that, shallowest first.
    pub additions: Vec<Addition>,
    pub unchanged: usize,
    /// The package that has to be written next, but was never fetched.
    pub missing: Option<PackageId>,
}

fn covered(roots: &Vec<NormalizedPath>, p: &NormalizedPath) -> (r: bool)
    ensures
        r == is_covered(sorted::list_views(roots@), p@),
{
    let ghost all = sorted::list_views(roots@);
    let mut i: usize = 0;
    while i < roots.len()
        invariant
            i <= roots@.len(),
            all == sorted::list_views(roots@),
            forall|k: int| 0 <= k < i ==> !path::within_path(p@, #[trigger] all[k]),
        decreases roots@.len() - i,
    {
        assert(all[i as int] == roots@[i as int]@);
        if p.starts_with(&roots[i]) {
            return true;
        }
        i += 1;
    }
    assert(all.len() == roots@.len());
    false
}

fn current(layout: &Layout, fetched: &Fetched, p: &NormalizedPath, marker: &Marker) -> (r: bool)
    ensures
        r == is_current(layout@, fetched@, p@, marker@),
{
    match layout.get(p) {
        Some(id) => match fetched.get(id) {
            Some(package) => text::same_text(id.name.as_str(), marker.name.as_str())
                && text::same_text(id.version.to_string().as_str(), marker.version.as_str())
                && package.index_hash.same(&marker.index_hash),
            None => false,
        },
        None => false,
    }
}

fn intact(
    actual: &Markers,
    removed: &Vec<NormalizedPath>,
    written: &Vec<NormalizedPath>,
    p: &NormalizedPath,
    id: &PackageId,
) -> (r: bool)
    ensures
        r == is_intact(
            actual@,
            sorted::list_views(removed@),
            sorted::list_views(written@),
            p@,
            id@,
        ),
{
    match actual.get(p) {
        Some(marker) => !covered(removed, p) && !covered(written, p) && text::same_text(
            marker.name.as_str(),
            id.name.as_str(),
        ) && text::same_text(marker.version.as_str(), id.version.to_string().as_str()),
        None => false,
    }
}

/// Compares the planned tree with what is on disk.
pub fn reconcile(actual: &Markers, layout: &Layout, fetched: &Fetched) -> (r: Difference)
    ensures
        ({
            let removed = removals(actual@, layout@, fetched@);
            let wanted = changes(layout@, actual@, removed, fetched@);
            &&& sorted::list_views(r.removals@) == removed
            &&& sorted::list_views(r.additions@) == wanted.additions
            &&& r.unchanged == wanted.unchanged
            &&& text::view_of(r.missing) == wanted.missing
        }),
{
    // Markers are kept by path, so a parent comes before what is nested in it,
    // and removing it takes that along.
    let mut removed: Vec<NormalizedPath> = Vec::new();
    let n: usize = actual.len();
    let mut i: usize = 0;
    assert(sorted::list_views(removed@) =~= Seq::empty());
    while i < n
        invariant
            i <= n,
            n == actual@.len(),
            sorted::list_views(removed@) == removals(actual@.take(i as int), layout@, fetched@),
        decreases n - i,
    {
        let ghost before = sorted::list_views(removed@);
        assert(actual@.take(i + 1).drop_last() =~= actual@.take(i as int));
        let p = actual.key_at(i);
        let marker = actual.value_at(i);
        assert(actual@.take(i + 1).last() == (p@, marker@));
        if !current(layout, fetched, p, marker) && !covered(&removed, p) {
            let root = p.clone();
            removed.push(root);
            assert(sorted::list_views(removed@) =~= before.push(p@));
        }
        i += 1;
    }
    assert(actual@.take(i as int) =~= actual@);
    let ghost roots = removals(actual@, layout@, fetched@);
    // The layout is kept by path too. Writing a package starts from nothing, so
    // what is nested in it has to be written again.
    let mut additions: Vec<Addition> = Vec::new();
    let mut written: Vec<NormalizedPath> = Vec::new();
    let mut unchanged: usize = 0;
    let count: usize = layout.len();
    let mut k: usize = 0;
    assert(sorted::list_views(additions@) =~= Seq::empty());
    assert(sorted::list_views(written@) =~= paths_of(sorted::list_views(additions@)));
    while k < count
        invariant
            k <= count,
            count == layout@.len(),
            unchanged <= k,
            roots == removals(actual@, layout@, fetched@),
            sorted::list_views(removed@) == roots,
            sorted::list_views(written@) == paths_of(sorted::list_views(additions@)),
            changes(layout@.take(k as int), actual@, roots, fetched@) == (Changes {
                additions: sorted::list_views(additions@),
                unchanged: unchanged as nat,
                missing: None,
            }),
        decreases count - k,
    {
        let ghost before = sorted::list_views(additions@);
        assert(layout@.take(k + 1).drop_last() =~= layout@.take(k as int));
        let p = layout.key_at(k);
        let id = layout.value_at(k);
        assert(layout@.take(k + 1).last() == (p@, id@));
        if intact(actual, &removed, &written, p, id) {
            unchanged = unchanged + 1;
        } else if fetched.contains_key(id) {
            let addition = Addition { path: p.clone(), id: id.clone() };
            let ghost above = sorted::list_views(written@);
            written.push(p.clone());
            additions.push(addition);
            assert(sorted::list_views(additions@) =~= before.push(addition@));
            assert(sorted::list_views(written@) =~= above.push(p@));
            assert(sorted::list_views(written@) =~= paths_of(sorted::list_views(additions@)));
        } else {
            proof {
                lemma_missing_stays(layout@, actual@, roots, fetched@, k + 1);
            }
            return Difference {
                removals: removed,
                additions,
                unchanged,
                missing: Some(id.clone()),
            };
        }
        k += 1;
    }
    assert(layout@.take(k as int) =~= layout@);
    Difference { removals: removed, additions, unchanged, missing: None }
}

/// Nothing changes after a package that was not fetched.
proof fn lemma_missing_stays(
    layout: Places,
    actual: Marks,
    removed: Seq<Seq<char>>,
    fetched: Contents,
    n: int,
)
    requires
        0 <= n <= layout.len(),
        changes(layout.take(n), actual, removed, fetched).missing is Some,
    ensures
        changes(layout, actual, removed, fetched) == changes(
            layout.take(n),
            actual,
            removed,
            fetched,
        ),
    decreases layout.len() - n,
{
    if n == layout.len() {
        assert(layout.take(n) =~= layout);
    } else {
        assert(layout.take(n + 1).drop_last() =~= layout.take(n));
        lemma_missing_stays(layout, actual, removed, fetched, n + 1);
    }
}

// ---------------------------------------------------------------------------
// Reconciling converges.

/// The marker that is written for a package.
pub open spec fn written_marker(package: FetchedModel) -> MarkerModel {
    MarkerModel {
        name: package.index.name,
        version: semver::version_text(package.index.version),
        index_hash: package.index_hash,
    }
}

/// The marker at `p` once the removals and additions are carried out. Writing a
/// package starts from nothing, so what was below its directory goes too; what
/// is to be written below it comes later.
pub open spec fn left_behind(
    actual: Marks,
    layout: Places,
    fetched: Contents,
    p: Seq<char>,
) -> Option<MarkerModel> {
    let removed = removals(actual, layout, fetched);
    let added = paths_of(changes(layout, actual, removed, fetched).additions);
    if added.contains(p) {
        Some(written_marker(sorted::lookup(fetched, sorted::lookup(layout, p)->0)->0))
    } else if is_covered(removed, p) || is_covered(added, p) {
        None
    } else {
        sorted::lookup(actual, p)
    }
}

/// Whatever is not current is removed.
proof fn lemma_stale_is_covered(actual: Marks, layout: Places, fetched: Contents, i: int)
    requires
        0 <= i < actual.len(),
        !is_current(layout, fetched, actual[i].0, actual[i].1),
    ensures
        is_covered(removals(actual, layout, fetched), actual[i].0),
    decreases actual.len(),
{
    let all = removals(actual, layout, fetched);
    let front = removals(actual.drop_last(), layout, fetched);
    let p = actual[i].0;
    if i == actual.len() - 1 {
        if !is_covered(front, p) {
            assert(all[all.len() - 1] == p);
            assert(path::segments_of(p).take(path::segments_of(p).len() as int)
                =~= path::segments_of(p));
            assert(path::within_path(p, all[all.len() - 1]));
        }
    } else {
        assert(actual.drop_last()[i] == actual[i]);
        lemma_stale_is_covered(actual.drop_last(), layout, fetched, i);
        let k = choose|k: int| 0 <= k < front.len() && path::within_path(p, #[trigger] front[k]);
        assert(all[k] == front[k]);
    }
}

/// What is written is in the layout, and was fetched.
proof fn lemma_added_is_planned(
    layout: Places,
    actual: Marks,
    removed: Seq<Seq<char>>,
    fetched: Contents,
    k: int,
) -> (i: int)
    requires
        0 <= k < changes(layout, actual, removed, fetched).additions.len(),
    ensures
        0 <= i < layout.len(),
        layout[i] == changes(layout, actual, removed, fetched).additions[k],
        sorted::holds(fetched, layout[i].1),
    decreases layout.len(),
{
    let all = changes(layout, actual, removed, fetched);
    let front = changes(layout.drop_last(), actual, removed, fetched);
    if k < front.additions.len() {
        let i = lemma_added_is_planned(layout.drop_last(), actual, removed, fetched, k);
        assert(layout[i] == layout.drop_last()[i]);
        assert(all.additions[k] == front.additions[k]);
        i
    } else {
        layout.len() - 1
    }
}

/// Nothing is missing where everything was fetched.
proof fn lemma_nothing_missing(
    layout: Places,
    actual: Marks,
    removed: Seq<Seq<char>>,
    fetched: Contents,
)
    requires
        forall|i: int| 0 <= i < layout.len() ==> sorted::holds(fetched, (#[trigger] layout[i]).1),
    ensures
        changes(layout, actual, removed, fetched).missing is None,
    decreases layout.len(),
{
    if layout.len() > 0 {
        let front = layout.drop_last();
        assert forall|i: int| 0 <= i < front.len() implies sorted::holds(
            fetched,
            (#[trigger] front[i]).1,
        ) by {
            assert(front[i] == layout[i]);
        }
        lemma_nothing_missing(front, actual, removed, fetched);
        assert(layout.last() == layout[layout.len() - 1]);
    }
}

/// What is to be written of the first entries of a layout is to be written
/// of all of it.
proof fn lemma_added_before(
    layout: Places,
    actual: Marks,
    removed: Seq<Seq<char>>,
    fetched: Contents,
    j: int,
    n: int,
)
    requires
        sorted::ascending(layout),
        0 <= j < n <= layout.len(),
        paths_of(changes(layout, actual, removed, fetched).additions).contains(layout[j].0),
    ensures
        paths_of(changes(layout.take(n), actual, removed, fetched).additions).contains(layout[j].0),
    decreases layout.len(),
{
    if n == layout.len() {
        assert(layout.take(n) =~= layout);
    } else {
        let front = layout.drop_last();
        let before = changes(front, actual, removed, fetched).additions;
        let all = changes(layout, actual, removed, fetched).additions;
        let k = choose|k: int| 0 <= k < paths_of(all).len() && paths_of(all)[k] == layout[j].0;
        order::lemma_irreflexive(layout[j].0.rank());
        if k >= before.len() {
            assert(all[k] == layout[layout.len() - 1]);
        }
        assert(paths_of(before)[k] == layout[j].0);
        assert(front[j] == layout[j]);
        assert forall|x: int, y: int| 0 <= x < y < front.len() implies order::precedes(
            (#[trigger] front[x]).0.rank(),
            (#[trigger] front[y]).0.rank(),
        ) by {
            assert(front[x] == layout[x] && front[y] == layout[y]);
        }
        lemma_added_before(front, actual, removed, fetched, j, n);
        assert(front.take(n) =~= layout.take(n));
    }
}

/// A layout entry is written, or its directory can stay.
proof fn lemma_kept_or_added(
    layout: Places,
    actual: Marks,
    removed: Seq<Seq<char>>,
    fetched: Contents,
    i: int,
)
    requires
        0 <= i < layout.len(),
        changes(layout, actual, removed, fetched).missing is None,
    ensures
        is_intact(
            actual,
            removed,
            paths_of(changes(layout.take(i), actual, removed, fetched).additions),
            layout[i].0,
            layout[i].1,
        ) || paths_of(changes(layout, actual, removed, fetched).additions).contains(layout[i].0),
    decreases layout.len(),
{
    let all = changes(layout, actual, removed, fetched);
    let front = changes(layout.drop_last(), actual, removed, fetched);
    if i == layout.len() - 1 {
        assert(layout.take(i) =~= layout.drop_last());
        if all.additions.len() > front.additions.len() {
            let paths = paths_of(all.additions);
            assert(paths[paths.len() - 1] == layout[i].0);
        }
    } else {
        assert(layout.drop_last()[i] == layout[i]);
        assert(layout.drop_last().take(i) =~= layout.take(i));
        lemma_kept_or_added(layout.drop_last(), actual, removed, fetched, i);
        if paths_of(front.additions).contains(layout[i].0) {
            let before = paths_of(front.additions);
            let k = choose|k: int| 0 <= k < before.len() && before[k] == layout[i].0;
            assert(paths_of(all.additions)[k] == before[k]);
        }
    }
}

/// Whether a layout can be written: every entry's contents were fetched, they are
/// those of the package that the entry names, and no path reads as a drive.
pub open spec fn is_ready(layout: Places, fetched: Contents) -> bool {
    &&& sorted::ascending(layout)
    &&& forall|i: int|
        0 <= i < layout.len() ==> (sorted::lookup(fetched, (#[trigger] layout[i]).1) matches Some(
            package,
        ) && package.index.name == layout[i].1.name && semver::version_text(package.index.version)
            == semver::version_text(layout[i].1.version))
    &&& forall|i: int|
        0 <= i < layout.len() ==> path::normal((#[trigger] layout[i]).0) == layout[i].0
}

proof fn lemma_ready_misses_nothing(actual: Marks, layout: Places, fetched: Contents)
    requires
        is_ready(layout, fetched),
    ensures
        changes(layout, actual, removals(actual, layout, fetched), fetched).missing is None,
{
    assert forall|i: int| 0 <= i < layout.len() implies sorted::holds(
        fetched,
        (#[trigger] layout[i]).1,
    ) by {
        assert(sorted::lookup(fetched, layout[i].1) is Some);
    }
    lemma_nothing_missing(layout, actual, removals(actual, layout, fetched), fetched);
}

/// What is not written anew does not lie inside what is.
proof fn lemma_kept_is_apart(actual: Marks, layout: Places, fetched: Contents, i: int)
    requires
        is_ready(layout, fetched),
        0 <= i < layout.len(),
        !paths_of(
            changes(layout, actual, removals(actual, layout, fetched), fetched).additions,
        ).contains(layout[i].0),
    ensures
        ({
            let removed = removals(actual, layout, fetched);
            let added = paths_of(changes(layout, actual, removed, fetched).additions);
            is_intact(actual, removed, added, layout[i].0, layout[i].1)
        }),
{
    let removed = removals(actual, layout, fetched);
    let additions = changes(layout, actual, removed, fetched).additions;
    let added = paths_of(additions);
    let p = layout[i].0;
    lemma_ready_misses_nothing(actual, layout, fetched);
    lemma_kept_or_added(layout, actual, removed, fetched, i);
    if is_covered(added, p) {
        let k = choose|k: int| 0 <= k < added.len() && path::within_path(p, #[trigger] added[k]);
        let j = lemma_added_is_planned(layout, actual, removed, fetched, k);
        assert(added[k] == layout[j].0);
        if j < i {
            lemma_added_before(layout, actual, removed, fetched, j, i);
            let before = paths_of(changes(layout.take(i), actual, removed, fetched).additions);
            let m = choose|m: int| 0 <= m < before.len() && before[m] == layout[j].0;
            assert(path::within_path(p, before[m]));
        } else if p != layout[j].0 {
            path::directories_come_first(p, layout[j].0);
            order::lemma_asymmetric(order::text_rank(layout[j].0), order::text_rank(p));
        }
    }
}

/// The marker at `p` in a tree that holds the layout and nothing else.
pub open spec fn settled(layout: Places, fetched: Contents, p: Seq<char>) -> Option<MarkerModel> {
    match sorted::lookup(layout, p) {
        Some(id) => match sorted::lookup(fetched, id) {
            Some(package) => Some(written_marker(package)),
            None => None,
        },
        None => None,
    }
}

/// A run ends with the layout and nothing else, whatever markers it starts from:
/// none, those of an older layout, or any that an interrupted run left behind.
pub proof fn every_start_ends_alike(
    actual: Marks,
    layout: Places,
    fetched: Contents,
    p: Seq<char>,
)
    requires
        sorted::ascending(actual),
        is_ready(layout, fetched),
    ensures
        left_behind(actual, layout, fetched, p) == settled(layout, fetched, p),
{
    let removed = removals(actual, layout, fetched);
    let wanted = changes(layout, actual, removed, fetched);
    let added = paths_of(wanted.additions);
    if added.contains(p) {
        let k = choose|k: int| 0 <= k < added.len() && added[k] == p;
        let i = lemma_added_is_planned(layout, actual, removed, fetched, k);
        sorted::lemma_holds_at(layout, p, i);
    } else {
        if sorted::holds(actual, p) {
            sorted::lemma_slot(actual, p);
            let j = sorted::slot(actual, p) as int;
            order::lemma_text_rank_injective(actual[j].0, p);
            if !is_current(layout, fetched, p, actual[j].1) {
                lemma_stale_is_covered(actual, layout, fetched, j);
            }
        }
        if sorted::holds(layout, p) {
            sorted::lemma_slot(layout, p);
            let i = sorted::slot(layout, p) as int;
            order::lemma_text_rank_injective(layout[i].0, p);
            lemma_kept_is_apart(actual, layout, fetched, i);
        }
    }
}

/// A package that stays stands in packages that stay. So nothing is kept of a
/// directory that lost its marker, as a removal that was interrupted leaves it.
pub proof fn kept_packages_stand_in_kept_ones(
    actual: Marks,
    layout: Places,
    fetched: Contents,
    i: int,
    j: int,
)
    requires
        is_ready(layout, fetched),
        0 <= i < layout.len(),
        0 <= j < layout.len(),
        path::within_path(layout[i].0, layout[j].0),
        !paths_of(
            changes(layout, actual, removals(actual, layout, fetched), fetched).additions,
        ).contains(layout[i].0),
    ensures
        !paths_of(
            changes(layout, actual, removals(actual, layout, fetched), fetched).additions,
        ).contains(layout[j].0),
        sorted::lookup(actual, layout[j].0) is Some,
        !is_covered(removals(actual, layout, fetched), layout[j].0),
{
    let removed = removals(actual, layout, fetched);
    let added = paths_of(changes(layout, actual, removed, fetched).additions);
    lemma_kept_is_apart(actual, layout, fetched, i);
    if added.contains(layout[j].0) {
        let k = choose|k: int| 0 <= k < added.len() && added[k] == layout[j].0;
        assert(path::within_path(layout[i].0, added[k]));
    } else {
        lemma_kept_is_apart(actual, layout, fetched, j);
    }
}

/// Running again over the tree that a run left behind changes nothing: nothing
/// is removed, nothing is written, and every package counts as unchanged.
pub proof fn reconciling_converges(
    actual: Marks,
    layout: Places,
    fetched: Contents,
    after: Marks,
)
    requires
        sorted::ascending(actual),
        is_ready(layout, fetched),
        sorted::ascending(after),
        forall|p: Seq<char>| #[trigger]
            sorted::lookup(after, p) == left_behind(actual, layout, fetched, p),
    ensures
        removals(after, layout, fetched).len() == 0,
        changes(layout, after, removals(after, layout, fetched), fetched) == (Changes {
            additions: Seq::empty(),
            unchanged: layout.len(),
            missing: None,
        }),
{
    assert forall|p: Seq<char>| #[trigger] sorted::lookup(after, p) == settled(
        layout,
        fetched,
        p,
    ) by {
        every_start_ends_alike(actual, layout, fetched, p);
    }
    assert forall|i: int| 0 <= i < after.len() implies is_current(
        layout,
        fetched,
        (#[trigger] after[i]).0,
        after[i].1,
    ) by {
        let (p, marker) = after[i];
        sorted::lemma_holds_at(after, p, i);
        assert(sorted::lookup(after, p) == settled(layout, fetched, p));
        sorted::lemma_slot(layout, p);
        let j = sorted::slot(layout, p) as int;
        assert(sorted::lookup(layout, p) == Some(layout[j].1));
    }
    lemma_nothing_to_remove(after, layout, fetched);
    let none = removals(after, layout, fetched);
    assert forall|i: int| 0 <= i < layout.len() implies is_intact(
        after,
        none,
        Seq::empty(),
        (#[trigger] layout[i]).0,
        layout[i].1,
    ) by {
        let (p, id) = layout[i];
        sorted::lemma_holds_at(layout, p, i);
        assert(sorted::lookup(after, p) == settled(layout, fetched, p));
    }
    lemma_nothing_to_write(layout, after, none, fetched);
}

proof fn lemma_nothing_to_remove(after: Marks, layout: Places, fetched: Contents)
    requires
        forall|i: int|
            0 <= i < after.len() ==> is_current(
                layout,
                fetched,
                (#[trigger] after[i]).0,
                after[i].1,
            ),
    ensures
        removals(after, layout, fetched) == Seq::<Seq<char>>::empty(),
    decreases after.len(),
{
    if after.len() > 0 {
        let front = after.drop_last();
        assert forall|i: int| 0 <= i < front.len() implies is_current(
            layout,
            fetched,
            (#[trigger] front[i]).0,
            front[i].1,
        ) by {
            assert(front[i] == after[i]);
        }
        lemma_nothing_to_remove(front, layout, fetched);
        assert(after[after.len() - 1] == after.last());
    }
}

proof fn lemma_nothing_to_write(
    layout: Places,
    after: Marks,
    removed: Seq<Seq<char>>,
    fetched: Contents,
)
    requires
        forall|i: int|
            0 <= i < layout.len() ==> is_intact(
                after,
                removed,
                Seq::empty(),
                (#[trigger] layout[i]).0,
                layout[i].1,
            ),
    ensures
        changes(layout, after, removed, fetched) == (Changes {
            additions: Seq::empty(),
            unchanged: layout.len(),
            missing: None,
        }),
    decreases layout.len(),
{
    if layout.len() > 0 {
        let front = layout.drop_last();
        assert forall|i: int| 0 <= i < front.len() implies is_intact(
            after,
            removed,
            Seq::empty(),
            (#[trigger] front[i]).0,
            front[i].1,
        ) by {
            assert(front[i] == layout[i]);
        }
        lemma_nothing_to_write(front, after, removed, fetched);
        assert(layout[layout.len() - 1] == layout.last());
        assert(paths_of(Seq::empty()) =~= Seq::<Seq<char>>::empty());
    }
}

// ---------------------------------------------------------------------------
// Writing one package.

/// The mode of a file that can be run.
pub const EXECUTABLE_MODE: u32 = 0o555;

/// The mode of any other file that had to be copied.
pub const PLAIN_MODE: u32 = 0o444;

/// A file to put in place.
#[derive(PartialEq, Eq, Debug)]
pub struct Placing {
    /// The object that holds the content.
    pub source: String,
    pub destination: String,
    /// Objects are read-only and shared by inode, so a file that needs its
    /// execute bit gets a private copy; any other is hardlinked, and copied only
    /// where linking fails.
    pub executable: bool,
    /// Where some of a package's files are there and its marker is not.
    pub checkpoint: Option<FaultPoint>,
}

/// What a `Placing` stands for.
#[verifier::ext_equal]
pub struct PlacingModel {
    pub source: Seq<char>,
    pub destination: Seq<char>,
    pub executable: bool,
    pub checkpoint: Option<FaultPoint>,
}

impl View for Placing {
    type V = PlacingModel;

    open spec fn view(&self) -> PlacingModel {
        PlacingModel {
            source: self.source@,
            destination: self.destination@,
            executable: self.executable,
            checkpoint: self.checkpoint,
        }
    }
}

/// The files of a package, each to be put below its directory.
pub open spec fn placings(objects: Seq<char>, directory: Seq<char>, files: package::Files) -> Seq<
    PlacingModel,
> {
    Seq::new(
        files.len(),
        |i: int|
            PlacingModel {
                source: cas::object_path_of(objects, files[i].1.hash),
                destination: native::joined_native(directory, files[i].0),
                executable: files[i].1.executable,
                checkpoint: if i == 0 {
                    Some(FaultPoint::PmMidLink)
                } else {
                    None
                },
            },
    )
}

/// How to write a package: its files in order, then its marker.
#[derive(Debug)]
pub struct Materialization {
    /// Emptied first: an interrupted attempt may have left a partial tree here,
    /// and a package is cheap to rebuild.
    pub directory: String,
    pub files: Vec<Placing>,
    pub marker_path: String,
    pub marker: String,
}

/// How to write a package.
pub fn materialize(
    project_root: &str,
    relative: &NormalizedPath,
    package: &FetchedPackage,
    cas: &Cas,
) -> (r: Materialization)
    ensures
        r.directory@ == native::joined_native(project_root@, relative@),
        sorted::list_views(r.files@) == placings(cas@, r.directory@, package@.index.files),
        r.marker_path@ == native::joined_native(r.directory@, ".opal-package"@),
        r.marker@ == marker_text_of(
            package@.index.name,
            semver::version_text(package@.index.version),
            package@.index_hash,
        ),
{
    let directory = native::join(project_root, relative.as_str());
    let ghost all = placings(cas@, directory@, package@.index.files);
    let mut files: Vec<Placing> = Vec::new();
    let n: usize = package.index.files.len();
    let mut i: usize = 0;
    assert(sorted::list_views(files@) =~= all.take(0));
    while i < n
        invariant
            i <= n,
            n == package.index.files@.len(),
            all == placings(cas@, directory@, package@.index.files),
            sorted::list_views(files@) == all.take(i as int),
        decreases n - i,
    {
        let ghost before = sorted::list_views(files@);
        let p = package.index.files.key_at(i);
        let file = package.index.files.value_at(i);
        let placing = Placing {
            source: cas.object_path(&file.hash),
            destination: native::join(directory.as_str(), p.as_str()),
            executable: file.executable,
            checkpoint: if i == 0 {
                Some(FaultPoint::PmMidLink)
            } else {
                None
            },
        };
        proof {
            assert(all[i as int] == placing@);
            assert(all.take(i + 1) =~= all.take(i as int).push(placing@));
        }
        files.push(placing);
        assert(sorted::list_views(files@) =~= before.push(placing@));
        i += 1;
    }
    assert(all.take(i as int) =~= all);
    let marker_path = native::join(directory.as_str(), ".opal-package");
    let mut marker = text::chars_of(package.index.name.as_str());
    text::append_str(&mut marker, " ");
    text::append_str(&mut marker, package.index.version.to_string().as_str());
    text::append_str(&mut marker, " ");
    text::append_str(&mut marker, package.index_hash.to_hex().as_str());
    text::append_str(&mut marker, "\n");
    Materialization { directory, files, marker_path, marker: text::string_of(&marker) }
}

/// What a reconciliation did.
#[derive(Clone, Copy, Debug, PartialEq, Eq)]
pub struct LinkReport {
    pub added: usize,
    pub removed: usize,
    pub unchanged: usize,
    pub files_linked: usize,
    pub files_copied: usize,
    pub bins: usize,
}

impl Default for LinkReport {
    fn default() -> (r: Self)
        ensures
            r.added == 0 && r.removed == 0 && r.unchanged == 0,
            r.files_linked == 0 && r.files_copied == 0 && r.bins == 0,
    {
        LinkReport {
            added: 0,
            removed: 0,
            unchanged: 0,
            files_linked: 0,
            files_copied: 0,
            bins: 0,
        }
    }
}

impl Difference {
    /// The report of a reconciliation that carried everything out, before any
    /// file was counted.
    pub fn report(&self) -> (r: LinkReport)
        ensures
            r.added == self.additions@.len(),
            r.removed == self.removals@.len(),
            r.unchanged == self.unchanged,
            r.files_linked == 0 && r.files_copied == 0 && r.bins == 0,
    {
        LinkReport {
            added: self.additions.len(),
            removed: self.removals.len(),
            unchanged: self.unchanged,
            files_linked: 0,
            files_copied: 0,
            bins: 0,
        }
    }
}

// ---------------------------------------------------------------------------
// Command shims.

/// The directory whose `.bin` serves the package at `p`: the `node_modules` that
/// holds it, or that holds its scope.
pub open spec fn bin_owner_of(p: Seq<char>) -> Option<Seq<char>> {
    match path::parent_of(p) {
        Some(parent) => if path::file_name_of(parent) == Some("node_modules"@) {
            Some(parent)
        } else {
            path::parent_of(parent)
        },
        None => None,
    }
}

/// The directory whose `.bin` serves the package at `path`.
pub fn bin_owner(path: &NormalizedPath) -> (r: Option<NormalizedPath>)
    ensures
        text::view_of(r) == bin_owner_of(path@),
{
    match path.parent() {
        Some(parent) => {
            let holds = match parent.file_name() {
                Some(name) => text::same_text(name, "node_modules"),
                None => false,
            };
            if holds {
                Some(parent)
            } else {
                parent.parent()
            }
        },
        None => None,
    }
}

/// Packages that share a `.bin`.
#[derive(PartialEq, Eq, Debug)]
pub struct Neighbours {
    pub packages: Vec<Addition>,
}

impl View for Neighbours {
    type V = Places;

    open spec fn view(&self) -> Places {
        sorted::list_views(self.packages@)
    }
}

/// The packages of a layout by the directory whose `.bin` serves them, each list
/// in the order of the layout.
pub open spec fn by_owner(layout: Places) -> Seq<(Seq<char>, Places)>
    decreases layout.len(),
{
    if layout.len() == 0 {
        Seq::empty()
    } else {
        let front = by_owner(layout.drop_last());
        match bin_owner_of(layout.last().0) {
            Some(owner) => sorted::put(
                front,
                owner,
                match sorted::lookup(front, owner) {
                    Some(packages) => packages.push(layout.last()),
                    None => seq![layout.last()],
                },
            ),
            None => front,
        }
    }
}

/// Groups the packages of a layout by the directory whose `.bin` serves them.
pub fn bin_directories(layout: &Layout) -> (r: SortedMap<NormalizedPath, Neighbours>)
    ensures
        r@ == by_owner(layout@),
{
    let mut out: SortedMap<NormalizedPath, Neighbours> = SortedMap::new();
    let n: usize = layout.len();
    let mut i: usize = 0;
    while i < n
        invariant
            i <= n,
            n == layout@.len(),
            out@ == by_owner(layout@.take(i as int)),
            sorted::ascending(out@),
        decreases n - i,
    {
        let p = layout.key_at(i);
        let id = layout.value_at(i);
        proof {
            assert(layout@.take(i + 1).drop_last() =~= layout@.take(i as int));
            assert(layout@.take(i + 1).last() == (p@, id@));
        }
        if let Some(owner) = bin_owner(p) {
            let ghost front = out@;
            let ghost key = owner@;
            let entry = Addition { path: p.clone(), id: id.clone() };
            let mut packages: Vec<Addition> = match out.remove(&owner) {
                Some(neighbours) => neighbours.packages,
                None => Vec::new(),
            };
            let ghost before = sorted::list_views(packages@);
            packages.push(entry);
            proof {
                assert(sorted::list_views(packages@) =~= before.push(entry@));
                assert(sorted::lookup(front, key) is None ==> seq![entry@] =~= before.push(
                    entry@,
                ));
                lemma_put_again(front, key, sorted::list_views(packages@));
            }
            out.insert(owner, Neighbours { packages });
            proof {
                sorted::lemma_put_ascending(front, key, sorted::list_views(packages@));
            }
        }
        i += 1;
    }
    assert(layout@.take(i as int) =~= layout@);
    out
}

/// Taking an entry out and putting it back under the same key is replacing it.
proof fn lemma_put_again<V>(entries: Seq<(Seq<char>, V)>, key: Seq<char>, value: V)
    requires
        sorted::ascending(entries),
    ensures
        sorted::put(sorted::without(entries, key), key, value) == sorted::put(entries, key, value),
{
    sorted::lemma_slot(entries, key);
    if sorted::holds(entries, key) {
        let at = sorted::slot(entries, key) as int;
        order::lemma_text_rank_injective(entries[at].0, key);
        let rest = sorted::without(entries, key);
        assert forall|i: int| 0 <= i < at implies order::precedes(
            (#[trigger] rest[i]).0.rank(),
            key.rank(),
        ) by {
            assert(rest[i] == entries[i]);
        }
        if at < rest.len() {
            assert(rest[at] == entries[at + 1]);
            order::lemma_asymmetric(key.rank(), rest[at].0.rank());
        }
        sorted::lemma_slot_is(rest, key, at);
        assert(rest.insert(at, (key, value)) =~= entries.update(at, (key, value)));
    }
}

/// A command shim.
#[derive(PartialEq, Eq, Debug)]
pub struct BinLink {
    /// The name of the command, which is that of the shim.
    pub command: String,
    /// What the command runs, inside its package.
    pub target: NormalizedPath,
    /// What the symlink holds: the way from `.bin` to the target.
    pub link: Option<NormalizedPath>,
}

/// What a `BinLink` stands for.
#[verifier::ext_equal]
pub struct BinLinkModel {
    pub command: Seq<char>,
    pub target: Seq<char>,
    pub link: Option<Seq<char>>,
}

impl View for BinLink {
    type V = BinLinkModel;

    open spec fn view(&self) -> BinLinkModel {
        BinLinkModel {
            command: self.command@,
            target: self.target@,
            link: text::view_of(self.link),
        }
    }
}

/// Whether a command name is a filename, never a path.
pub open spec fn is_command(name: Seq<char>) -> bool {
    !name.contains('/') && !name.contains('\\')
}

/// The shims that the package at `p` asks for in the `.bin` below `owner`.
pub open spec fn shims(owner: Seq<char>, p: Seq<char>, bin: Seq<(Seq<char>, Seq<char>)>) -> Seq<
    BinLinkModel,
>
    decreases bin.len(),
{
    if bin.len() == 0 {
        Seq::empty()
    } else {
        let front = shims(owner, p, bin.drop_last());
        let (command, file) = bin.last();
        if is_command(command) {
            front.push(
                BinLinkModel {
                    command,
                    target: path::normal(file),
                    link: path::relative_path(
                        path::joined_path(p, path::normal(file)),
                        path::joined_path(owner, ".bin"@),
                    ),
                },
            )
        } else {
            front
        }
    }
}

/// The shims that the package at `path` asks for in the `.bin` below `owner`.
/// Which of their targets are there is for the caller to see.
pub fn bin_links(owner: &NormalizedPath, path: &NormalizedPath, manifest: &Manifest) -> (r: Vec<
    BinLink,
>)
    ensures
        sorted::list_views(r@) == shims(owner@, path@, manifest@.bin),
{
    let directory = owner.join(".bin");
    let mut out: Vec<BinLink> = Vec::new();
    let n: usize = manifest.bin.len();
    let mut i: usize = 0;
    assert(sorted::list_views(out@) =~= Seq::empty());
    while i < n
        invariant
            i <= n,
            n == manifest.bin@.len(),
            directory@ == path::joined_path(owner@, ".bin"@),
            sorted::list_views(out@) == shims(owner@, path@, manifest@.bin.take(i as int)),
        decreases n - i,
    {
        let ghost before = sorted::list_views(out@);
        let command = manifest.bin.key_at(i);
        let file = manifest.bin.value_at(i);
        proof {
            assert(manifest@.bin.take(i + 1).drop_last() =~= manifest@.bin.take(i as int));
            assert(manifest@.bin.take(i + 1).last() == (command@, file@));
        }
        let name = text::chars_of(command.as_str());
        if !text::has_char(&name, '/') && !text::has_char(&name, '\\') {
            let target = NormalizedPath::new(file.as_str());
            let link = path.join(target.as_str()).relative_to(&directory);
            let shim = BinLink { command: command.clone(), target, link };
            out.push(shim);
            assert(sorted::list_views(out@) =~= before.push(shim@));
        }
        i += 1;
    }
    assert(manifest@.bin.take(i as int) =~= manifest@.bin);
    out
}

/// The manifest of a package, from the bytes of its `package.json`; none where
/// these are no document.
pub open spec fn manifest_in(document: Result<JsonModel, Seq<char>>) -> Option<
    manifest::ManifestModel,
> {
    match document {
        Ok(value) => Some(manifest::manifest_of(value)),
        Err(_) => None,
    }
}

/// The manifest of a package, from the bytes of its `package.json`.
pub fn package_manifest(document: &[u8]) -> (r: Option<Manifest>)
    ensures
        text::view_of(r) == manifest_in(json::json_in_bytes(document@)),
{
    match json::parse_bytes(document) {
        Ok(value) => Some(Manifest::from_value(&value)),
        Err(_) => None,
    }
}

// ---------------------------------------------------------------------------
// Finding what is there.

/// What an entry of a `node_modules` directory is.
#[derive(Clone, Copy, PartialEq, Eq, Debug, Structural)]
pub enum Entry {
    /// Neither a package nor a scope.
    Other,
    /// A scope directory: it holds packages, and is no package.
    Scope,
    /// A package directory.
    Package,
}

/// What an entry of a `node_modules` directory is.
pub open spec fn entry_of(name: Seq<char>, is_directory: bool) -> Entry {
    if !is_directory || name == ".bin"@ {
        Entry::Other
    } else if name.len() > 0 && name[0] == '@' {
        Entry::Scope
    } else {
        Entry::Package
    }
}

/// What an entry of a `node_modules` directory is.
pub fn classify_entry(name: &str, is_directory: bool) -> (r: Entry)
    ensures
        r == entry_of(name@, is_directory),
{
    if !is_directory || text::same_text(name, ".bin") {
        return Entry::Other;
    }
    let chars = text::chars_of(name);
    if chars.len() > 0 && chars[0] == '@' {
        Entry::Scope
    } else {
        Entry::Package
    }
}

/// A path relative to the project root.
pub fn relative_to_root(project_root: &str, path: &str) -> (r: Result<NormalizedPath, LinkError>)
    ensures
        match r {
            Ok(relative) => path::relative_path(path::normal(path@), path::normal(project_root@))
                == Some(relative@),
            Err(LinkError::Io { path: at, message }) => {
                &&& path::relative_path(path::normal(path@), path::normal(project_root@)) is None
                &&& at@ == path@
                &&& message@ == "outside the project root"@
            },
            Err(_) => false,
        },
{
    let root = NormalizedPath::new(project_root);
    match NormalizedPath::new(path).relative_to(&root) {
        Some(relative) => Ok(relative),
        None => Err(
            LinkError::Io {
                path: path.to_string(),
                message: "outside the project root".to_string(),
            },
        ),
    }
}

/// Of what stands in a `node_modules` directory, directories are packages, but those
/// whose names begin with `@`, which hold packages, and the one for commands.
pub proof fn directories_are_packages(name: Seq<char>)
    ensures
        entry_of(name, false) == Entry::Other,
        entry_of(".bin"@, true) == Entry::Other,
        name != ".bin"@ && name.len() > 0 ==> entry_of(name, true) == if name[0] == '@' {
            Entry::Scope
        } else {
            Entry::Package
        },
{
}

/// What stands in a directory is kept only if it is the package that is wanted there, in
/// that version and with those contents.
pub proof fn only_wanted_contents_are_kept(
    layout: Places,
    fetched: Contents,
    p: Seq<char>,
    id: PackageIdModel,
    package: FetchedModel,
    marker: MarkerModel,
)
    requires
        sorted::lookup(layout, p) == Some(id),
        sorted::lookup(fetched, id) == Some(package),
    ensures
        is_current(layout, fetched, p, marker) <==> marker == (MarkerModel {
            name: id.name,
            version: semver::version_text(id.version),
            index_hash: package.index_hash,
        }),
{
}

/// A package is written with all of its files and no others: each below the package's
/// directory under its own path, from the object that its hash names, and with its
/// execute bit.
pub proof fn packages_are_written_from_the_store(
    objects: Seq<char>,
    directory: Seq<char>,
    files: package::Files,
    i: int,
)
    requires
        directory.len() > 0 && directory.last() != '/',
        0 <= i < files.len(),
        files[i].0.len() > 0 && files[i].0[0] != '/',
    ensures
        ({
            let all = placings(objects, directory, files);
            &&& all.len() == files.len()
            &&& all[i].source == cas::object_path_of(objects, files[i].1.hash)
            &&& all[i].destination == directory + seq!['/'] + files[i].0
            &&& all[i].executable == files[i].1.executable
        }),
{
    native::native_names_stand_below(directory, files[i].0);
}

} // verus!
