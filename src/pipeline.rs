//! Features and the constraint pipeline that composes them.

use vstd::prelude::*;
use crate::models::{Job, RouteContext, SolutionContext, copy_opt_string, same_dimens};
use crate::skills::{check_skills, has_comparable_skills, opt_names, opt_skills_view, skills_absorbable, skills_met};
use crate::groups::{accept_route_state, add_name, check_group, check_group_merge, group_violated, groups_mergeable, job_groups};
use crate::skills::names;

verus! {

/// An integer that identifies a class of violations.
pub type ViolationCode = i32;

/// A hard violation: its code, and whether no other position in the same
/// route can succeed either.
#[derive(Clone, Copy, Debug, PartialEq, Eq, Structural)]
pub struct ConstraintViolation {
    pub code: i32,
    pub stopped: bool,
}

impl ConstraintViolation {
    /// A violation that rules out the whole route.
    pub fn fail(code: ViolationCode) -> (r: Option<ConstraintViolation>)
        ensures
            r == Some(ConstraintViolation { code, stopped: true }),
    {
        Some(ConstraintViolation { code, stopped: true })
    }
}

/// The rule of a feature.
#[derive(Clone, Copy, Debug, PartialEq, Eq, Structural)]
pub enum FeatureConstraint {
    /// Job skills against vehicle skills.
    Skills { code: i32 },
    /// A group of jobs is served by one vehicle.
    Group { code: i32 },
    /// At most `limit` jobs in a tour.
    TourSize { limit: usize, code: i32 },
}

/// The job's skill demands are not met by the route's vehicle.
pub open spec fn skills_violated(route: RouteContext, job: Job) -> bool {
    match job.dimens.skills {
        Some(s) => !skills_met(s@, opt_names(route.vehicle.skills)),
        None => false,
    }
}

/// What one rule says of inserting `job` into route `route_idx`.
pub open spec fn rule_route_check(c: FeatureConstraint, solution: SolutionContext, route_idx: int, job: Job) -> Option<
    ConstraintViolation,
> {
    let route = solution.routes@[route_idx];
    match c {
        FeatureConstraint::Skills { code } => if skills_violated(route, job) {
            Some(ConstraintViolation { code, stopped: true })
        } else {
            None
        },
        FeatureConstraint::Group { code } => if group_violated(solution, route_idx, job) {
            Some(ConstraintViolation { code, stopped: true })
        } else {
            None
        },
        FeatureConstraint::TourSize { limit, code } => if route.jobs@.len() >= limit {
            Some(ConstraintViolation { code, stopped: true })
        } else {
            None
        },
    }
}

/// Whether one rule lets `source` absorb `candidate`.
pub open spec fn rule_merge_ok(c: FeatureConstraint, source: Job, candidate: Job) -> bool {
    match c {
        FeatureConstraint::Skills { .. } => skills_absorbable(
            opt_skills_view(source.dimens.skills),
            opt_skills_view(candidate.dimens.skills),
        ),
        FeatureConstraint::Group { .. } => groups_mergeable(source, candidate),
        FeatureConstraint::TourSize { .. } => true,
    }
}

pub open spec fn rule_code(c: FeatureConstraint) -> i32 {
    match c {
        FeatureConstraint::Skills { code } => code,
        FeatureConstraint::Group { code } => code,
        FeatureConstraint::TourSize { code, .. } => code,
    }
}

impl FeatureConstraint {
    /// Evaluates inserting a job into a route.
    pub fn evaluate_route(&self, solution: &SolutionContext, route_idx: usize, job: &Job) -> (r: Option<
        ConstraintViolation,
    >)
        requires
            route_idx < solution.routes@.len(),
        ensures
            r == rule_route_check(*self, *solution, route_idx as int, *job),
    {
        match self {
            FeatureConstraint::Skills { code } => {
                let route = &solution.routes[route_idx];
                match &job.dimens.skills {
                    Some(s) => if !check_skills(s, &route.vehicle.skills) {
                        ConstraintViolation::fail(*code)
                    } else {
                        None
                    },
                    None => None,
                }
            },
            FeatureConstraint::Group { code } => if !check_group(solution, route_idx, job) {
                ConstraintViolation::fail(*code)
            } else {
                None
            },
            FeatureConstraint::TourSize { limit, code } => if solution.routes[route_idx].jobs.len() >= *limit {
                ConstraintViolation::fail(*code)
            } else {
                None
            },
        }
    }

    /// Tells whether `source` can absorb `candidate` under this rule.
    pub fn can_merge(&self, source: &Job, candidate: &Job) -> (r: bool)
        ensures
            r == rule_merge_ok(*self, *source, *candidate),
    {
        match self {
            FeatureConstraint::Skills { .. } => has_comparable_skills(&source.dimens.skills, &candidate.dimens.skills),
            FeatureConstraint::Group { .. } => check_group_merge(source, candidate),
            FeatureConstraint::TourSize { .. } => true,
        }
    }

    /// The code of this rule's violations.
    pub fn code(&self) -> (r: ViolationCode)
        ensures
            r == rule_code(*self),
    {
        match self {
            FeatureConstraint::Skills { code } => *code,
            FeatureConstraint::Group { code } => *code,
            FeatureConstraint::TourSize { code, .. } => *code,
        }
    }
}

/// Hands out keys for per-route state, one after another.
pub struct StateKeyRegistry {
    pub next: u64,
}

impl Default for StateKeyRegistry {
    fn default() -> (r: Self)
        ensures
            r.next == 0,
    {
        StateKeyRegistry { next: 0 }
    }
}

impl StateKeyRegistry {
    /// Returns a key that this registry has not returned before.
    pub fn next_key(&mut self) -> (r: u64)
        requires
            old(self).next < u64::MAX,
        ensures
            r == old(self).next,
            final(self).next == old(self).next + 1,
    {
        let key = self.next;
        self.next = self.next + 1;
        key
    }
}

/// The per-route state that a feature maintains, named by its keys.
#[derive(Clone, Debug)]
pub struct FeatureState {
    pub keys: Vec<u64>,
}

impl FeatureState {
    /// The keys of the state kept by the feature.
    pub fn state_keys(&self) -> (r: Vec<u64>)
        ensures
            r@ == self.keys@,
    {
        let mut r: Vec<u64> = Vec::new();
        let mut i: usize = 0;
        while i < self.keys.len()
            invariant
                i <= self.keys@.len(),
                r@ == self.keys@.subrange(0, i as int),
            decreases self.keys@.len() - i,
        {
            r.push(self.keys[i]);
            assert(self.keys@.subrange(0, i as int + 1) == self.keys@.subrange(0, i as int).push(self.keys@[i as int]));
            i = i + 1;
        }
        assert(self.keys@.subrange(0, self.keys@.len() as int) == self.keys@);
        r
    }
}

/// A named unit of the pipeline: at most one rule and at most one state.
#[derive(Clone, Debug)]
pub struct Feature {
    pub name: String,
    pub constraint: Option<FeatureConstraint>,
    pub state: Option<FeatureState>,
}

/// Creates the skills feature as a hard rule.
pub fn create_skills_feature(name: &str, code: ViolationCode) -> (r: Feature)
    ensures
        r.name@ == name@,
        r.constraint == Some(FeatureConstraint::Skills { code }),
        r.state.is_none(),
{
    Feature { name: name.to_owned(), constraint: Some(FeatureConstraint::Skills { code }), state: None }
}

/// Creates the group feature: a hard rule and the per-route group state kept
/// under `state_key`.
pub fn create_group_feature(name: &str, total_jobs: usize, code: ViolationCode, state_key: u64) -> (r: Feature)
    ensures
        r.name@ == name@,
        r.constraint == Some(FeatureConstraint::Group { code }),
        r.state.is_some(),
        r.state.unwrap().keys@ == seq![state_key],
{
    let mut keys: Vec<u64> = Vec::new();
    keys.push(state_key);
    Feature { name: name.to_owned(), constraint: Some(FeatureConstraint::Group { code }), state: Some(FeatureState { keys }) }
}

/// Creates the tour size feature: at most `limit` jobs in a tour.
pub fn create_tour_size_feature(name: &str, limit: usize, code: ViolationCode) -> (r: Feature)
    ensures
        r.name@ == name@,
        r.constraint == Some(FeatureConstraint::TourSize { limit, code }),
        r.state.is_none(),
{
    Feature { name: name.to_owned(), constraint: Some(FeatureConstraint::TourSize { limit, code }), state: None }
}

/// What a feature says of inserting `job` into route `route_idx`.
pub open spec fn feature_route_check(f: Feature, solution: SolutionContext, route_idx: int, job: Job) -> Option<
    ConstraintViolation,
> {
    match f.constraint {
        Some(c) => rule_route_check(c, solution, route_idx, job),
        None => None,
    }
}

/// The first violation that the features report, in their order.
pub open spec fn route_check(fs: Seq<Feature>, solution: SolutionContext, route_idx: int, job: Job) -> Option<
    ConstraintViolation,
>
    decreases fs.len(),
{
    if fs.len() == 0 {
        None
    } else {
        match feature_route_check(fs[0], solution, route_idx, job) {
            Some(v) => Some(v),
            None => route_check(fs.drop_first(), solution, route_idx, job),
        }
    }
}

/// The code of the first feature, in order, that refuses the merge.
pub open spec fn merge_check(fs: Seq<Feature>, source: Job, candidate: Job) -> Option<i32>
    decreases fs.len(),
{
    if fs.len() == 0 {
        None
    } else {
        match fs[0].constraint {
            Some(c) => if !rule_merge_ok(c, source, candidate) {
                Some(rule_code(c))
            } else {
                merge_check(fs.drop_first(), source, candidate)
            },
            None => merge_check(fs.drop_first(), source, candidate),
        }
    }
}

/// The names of a sequence of features.
pub open spec fn feature_names(fs: Seq<Feature>) -> Set<Seq<char>> {
    Set::new(|n: Seq<char>| exists|i: int| 0 <= i < fs.len() && #[trigger] fs[i].name@ == n)
}

/// An ordered list of features with distinct names.
pub struct ConstraintPipeline {
    pub features: Vec<Feature>,
}

impl ConstraintPipeline {
    /// Creates a pipeline without features.
    pub fn new() -> (r: Self)
        ensures
            r.features@.len() == 0,
    {
        ConstraintPipeline { features: Vec::new() }
    }

    /// Appends a feature; a name that is already taken is refused and the
    /// pipeline is left as it was.
    pub fn add_feature(&mut self, feature: Feature) -> (r: bool)
        ensures
            r == !feature_names(old(self).features@).contains(feature.name@),
            r ==> final(self).features@ == old(self).features@.push(feature),
            !r ==> final(self).features@ == old(self).features@,
    {
        let mut i: usize = 0;
        while i < self.features.len()
            invariant
                i <= self.features@.len(),
                forall|k: int| 0 <= k < i ==> #[trigger] self.features@[k].name@ != feature.name@,
            decreases self.features@.len() - i,
        {
            if self.features[i].name == feature.name {
                assert(feature_names(self.features@).contains(self.features@[i as int].name@));
                return false;
            }
            i = i + 1;
        }
        self.features.push(feature);
        true
    }

    /// Evaluates inserting `job` into route `route_idx`: the first feature, in
    /// order, that reports a violation decides.
    pub fn evaluate_route(&self, solution: &SolutionContext, route_idx: usize, job: &Job) -> (r: Option<
        ConstraintViolation,
    >)
        requires
            route_idx < solution.routes@.len(),
        ensures
            r == route_check(self.features@, *solution, route_idx as int, *job),
    {
        let mut i: usize = 0;
        assert(self.features@.subrange(0, self.features@.len() as int) == self.features@);
        while i < self.features.len()
            invariant
                i <= self.features@.len(),
                route_idx < solution.routes@.len(),
                route_check(self.features@, *solution, route_idx as int, *job) == route_check(
                    self.features@.subrange(i as int, self.features@.len() as int),
                    *solution,
                    route_idx as int,
                    *job,
                ),
            decreases self.features@.len() - i,
        {
            let ghost rest = self.features@.subrange(i as int, self.features@.len() as int);
            assert(rest.drop_first() == self.features@.subrange(i as int + 1, self.features@.len() as int));
            assert(rest[0] == self.features@[i as int]);
            match &self.features[i].constraint {
                Some(c) => {
                    let v = c.evaluate_route(solution, route_idx, job);
                    if v.is_some() {
                        return v;
                    }
                },
                None => {},
            }
            i = i + 1;
        }
        proof { r_empty(self.features@, *solution, route_idx as int, *job); }
        None
    }

    /// Evaluates inserting `job` into route `route_idx` at activity position
    /// `activity_idx`: the route-level rules first, then the activity-level
    /// ones, of which the standard features have none.
    pub fn evaluate_insertion(&self, solution: &SolutionContext, route_idx: usize, job: &Job, activity_idx: usize) -> (r: Option<
        ConstraintViolation,
    >)
        requires
            route_idx < solution.routes@.len(),
        ensures
            r == insertion_check(self.features@, *solution, route_idx as int, *job, activity_idx as int),
    {
        self.evaluate_route(solution, route_idx, job)
    }

    /// Merges `candidate` into `source`: the first feature, in order, that
    /// refuses gives its code; otherwise the source, which has absorbed the
    /// candidate, is returned.
    pub fn merge(&self, source: Job, candidate: Job) -> (r: Result<Job, ViolationCode>)
        ensures
            r == merge_outcome(self.features@, source, candidate),
    {
        let mut i: usize = 0;
        assert(self.features@.subrange(0, self.features@.len() as int) == self.features@);
        while i < self.features.len()
            invariant
                i <= self.features@.len(),
                merge_check(self.features@, source, candidate) == merge_check(
                    self.features@.subrange(i as int, self.features@.len() as int),
                    source,
                    candidate,
                ),
            decreases self.features@.len() - i,
        {
            let ghost rest = self.features@.subrange(i as int, self.features@.len() as int);
            assert(rest.drop_first() == self.features@.subrange(i as int + 1, self.features@.len() as int));
            assert(rest[0] == self.features@[i as int]);
            match &self.features[i].constraint {
                Some(c) => {
                    if !c.can_merge(&source, &candidate) {
                        return Err(c.code());
                    }
                },
                None => {},
            }
            i = i + 1;
        }
        proof { m_empty(self.features@, source, candidate); }
        Ok(source)
    }

    /// Lets the features' states take in a job inserted into route `route_idx`:
    /// the group state adds the job's group to that route.
    pub fn accept_insertion(&self, solution: &mut SolutionContext, route_idx: usize, job: &Job)
        requires
            route_idx < old(solution).routes@.len(),
        ensures
            final(solution).routes@.len() == old(solution).routes@.len(),
            forall|i: int|
                0 <= i < old(solution).routes@.len() && i != route_idx ==> final(solution).routes@[i]
                    == old(solution).routes@[i],
            final(solution).routes@[route_idx as int].vehicle == old(solution).routes@[route_idx as int].vehicle,
            final(solution).routes@[route_idx as int].jobs == old(solution).routes@[route_idx as int].jobs,
            names(final(solution).routes@[route_idx as int].groups@) == if has_group_state(self.features@)
                && job.dimens.group.is_some() {
                names(old(solution).routes@[route_idx as int].groups@).insert(job.dimens.group.unwrap()@)
            } else {
                names(old(solution).routes@[route_idx as int].groups@)
            },
    {
        if self.has_group_feature() {
            match copy_opt_string(&job.dimens.group) {
                Some(g) => {
                    let mut route = solution.routes.remove(route_idx);
                    add_name(&mut route.groups, g);
                    solution.routes.insert(route_idx, route);
                },
                None => {},
            }
        }
    }

    /// Lets the features' states recompute what they keep of a route: the group
    /// state takes the groups of the route's jobs.
    pub fn accept_route_state(&self, route: &mut RouteContext)
        ensures
            final(route).jobs@ == old(route).jobs@,
            final(route).vehicle == old(route).vehicle,
            has_group_state(self.features@) ==> names(final(route).groups@) == job_groups(old(route).jobs@),
            !has_group_state(self.features@) ==> final(route).groups@ == old(route).groups@,
    {
        if self.has_group_feature() {
            accept_route_state(route);
        }
    }

    /// Lets the features' states recompute what they keep of every route.
    pub fn accept_solution_state(&self, solution: &mut SolutionContext)
        ensures
            final(solution).routes@.len() == old(solution).routes@.len(),
            forall|i: int|
                0 <= i < old(solution).routes@.len() ==> (#[trigger] final(solution).routes@[i]).jobs@
                    == old(solution).routes@[i].jobs@ && final(solution).routes@[i].vehicle == old(solution).routes@[i].vehicle,
            forall|i: int|
                0 <= i < old(solution).routes@.len() && has_group_state(self.features@)
                    ==> names((#[trigger] final(solution).routes@[i]).groups@) == job_groups(old(solution).routes@[i].jobs@),
            forall|i: int|
                0 <= i < old(solution).routes@.len() && !has_group_state(self.features@)
                    ==> (#[trigger] final(solution).routes@[i]).groups@ == old(solution).routes@[i].groups@,
    {
        let ghost start = solution.routes@;
        let mut i: usize = 0;
        while i < solution.routes.len()
            invariant
                solution.routes@.len() == start.len(),
                i <= start.len(),
                forall|k: int| i <= k < start.len() ==> solution.routes@[k] == start[k],
                forall|k: int|
                    0 <= k < i ==> (#[trigger] solution.routes@[k]).jobs@ == start[k].jobs@ && solution.routes@[k].vehicle
                        == start[k].vehicle,
                forall|k: int|
                    0 <= k < i && has_group_state(self.features@) ==> names((#[trigger] solution.routes@[k]).groups@)
                        == job_groups(start[k].jobs@),
                forall|k: int|
                    0 <= k < i && !has_group_state(self.features@) ==> (#[trigger] solution.routes@[k]).groups@
                        == start[k].groups@,
            decreases start.len() - i,
        {
            let ghost before = solution.routes@;
            let mut route = solution.routes.remove(i);
            assert(route == start[i as int]);
            self.accept_route_state(&mut route);
            solution.routes.insert(i, route);
            assert forall|k: int| i + 1 <= k < start.len() implies solution.routes@[k] == start[k] by {
                assert(solution.routes@[k] == before[k]);
            }
            assert forall|k: int| 0 <= k < i implies solution.routes@[k] == before[k] by {}
            i = i + 1;
        }
    }

    fn has_group_feature(&self) -> (r: bool)
        ensures
            r == has_group_state(self.features@),
    {
        let mut i: usize = 0;
        while i < self.features.len()
            invariant
                i <= self.features@.len(),
                forall|k: int| 0 <= k < i ==> !is_group_feature(#[trigger] self.features@[k]),
            decreases self.features@.len() - i,
        {
            match self.features[i].constraint {
                Some(FeatureConstraint::Group { .. }) => {
                    assert(is_group_feature(self.features@[i as int]));
                    return true;
                },
                _ => {},
            }
            i = i + 1;
        }
        false
    }
}

pub open spec fn is_group_feature(f: Feature) -> bool {
    f.constraint matches Some(FeatureConstraint::Group { .. })
}

/// The pipeline holds the group feature.
pub open spec fn has_group_state(fs: Seq<Feature>) -> bool {
    exists|i: int| 0 <= i < fs.len() && is_group_feature(#[trigger] fs[i])
}

/// What merging `candidate` into `source` gives.
pub open spec fn merge_outcome(fs: Seq<Feature>, source: Job, candidate: Job) -> Result<Job, i32> {
    match merge_check(fs, source, candidate) {
        Some(code) => Err(code),
        None => Ok(source),
    }
}

proof fn r_empty(fs: Seq<Feature>, solution: SolutionContext, route_idx: int, job: Job)
    ensures
        route_check(fs.subrange(fs.len() as int, fs.len() as int), solution, route_idx, job) == None::<ConstraintViolation>,
{
    assert(fs.subrange(fs.len() as int, fs.len() as int).len() == 0);
}

proof fn m_empty(fs: Seq<Feature>, source: Job, candidate: Job)
    ensures
        merge_check(fs.subrange(fs.len() as int, fs.len() as int), source, candidate) == None::<i32>,
{
    assert(fs.subrange(fs.len() as int, fs.len() as int).len() == 0);
}

/// What the features say of inserting `job` into route `route_idx` at the
/// activity position `activity_idx`: the route-level verdict first; the standard
/// features have no activity-level rule.
pub open spec fn insertion_check(
    fs: Seq<Feature>,
    solution: SolutionContext,
    route_idx: int,
    job: Job,
    activity_idx: int,
) -> Option<ConstraintViolation> {
    match route_check(fs, solution, route_idx, job) {
        Some(v) => Some(v),
        None => None,
    }
}

/// A verdict that stops the route holds at every position of it: when inserting
/// `job` into route `route_idx` is refused with `stopped` set, inserting it at
/// any activity position of that route is refused as well.
pub proof fn lemma_stopped_route_refuses_every_position(
    p: ConstraintPipeline,
    solution: SolutionContext,
    route_idx: int,
    job: Job,
    activity_idx: int,
)
    requires
        route_check(p.features@, solution, route_idx, job) matches Some(v) && v.stopped,
    ensures
        insertion_check(p.features@, solution, route_idx, job, activity_idx).is_some(),
{
}

/// Merging is a function of the features and of the jobs' attributes: sources
/// with the same attributes, and candidates with the same attributes, give the
/// same verdict, and a merge that succeeds gives back the source.
pub proof fn lemma_merge_deterministic(fs: Seq<Feature>, a1: Job, b1: Job, a2: Job, b2: Job)
    requires
        same_dimens(a1.dimens, a2.dimens),
        same_dimens(b1.dimens, b2.dimens),
    ensures
        merge_check(fs, a1, b1) == merge_check(fs, a2, b2),
        merge_outcome(fs, a1, b1) is Ok ==> merge_outcome(fs, a1, b1) == Ok::<Job, i32>(a1),
    decreases fs.len(),
{
    if fs.len() > 0 {
        lemma_merge_deterministic(fs.drop_first(), a1, b1, a2, b2);
    }
}

/// With the skills feature alone, `source` absorbs `candidate` exactly when
/// each skill set of the candidate is within the homonym set of the source, a
/// missing set of the source admitting only a missing set of the candidate,
/// and a source without skills admitting only a candidate without skills.
/// Otherwise the merge fails with the feature's code.
pub proof fn lemma_skills_merge_law(fs: Seq<Feature>, code: i32, source: Job, candidate: Job)
    requires
        fs.len() == 1,
        fs[0].constraint == Some(FeatureConstraint::Skills { code }),
    ensures
        merge_outcome(fs, source, candidate) is Ok <==> skills_absorbable(
            opt_skills_view(source.dimens.skills),
            opt_skills_view(candidate.dimens.skills),
        ),
        !(merge_outcome(fs, source, candidate) is Ok) ==> merge_outcome(fs, source, candidate) == Err::<Job, i32>(code),
{
    assert(fs.drop_first().len() == 0);
    assert(merge_check(fs.drop_first(), source, candidate) == None::<i32>);
    assert(rule_code(FeatureConstraint::Skills { code }) == code);
}

/// The codes that the standard features reserve run up to this one.
pub const LAST_RESERVED_CODE: i32 = 15;

/// Hands out violation codes to user features, one after another, above the
/// codes that the standard features reserve.
pub struct ViolationCodeRegistry {
    pub next: i32,
}

impl Default for ViolationCodeRegistry {
    fn default() -> (r: Self)
        ensures
            r.next == LAST_RESERVED_CODE + 1,
    {
        ViolationCodeRegistry { next: LAST_RESERVED_CODE + 1 }
    }
}

impl ViolationCodeRegistry {
    /// Returns a code that this registry has not returned before, or `None`
    /// when the codes are exhausted.
    pub fn next_code(&mut self) -> (r: Option<ViolationCode>)
        ensures
            old(self).next < i32::MAX ==> r == Some(old(self).next) && final(self).next == old(self).next + 1,
            old(self).next == i32::MAX ==> r.is_none() && final(self).next == old(self).next,
    {
        if self.next < i32::MAX {
            let code = self.next;
            self.next = self.next + 1;
            Some(code)
        } else {
            None
        }
    }
}

/// A job is accepted on an empty route of a compatible vehicle: when the
/// solution holds that one route, without jobs, whose vehicle meets the job's
/// skills, and every tour size limit is at least one, no feature reports a
/// violation.
pub proof fn lemma_empty_route_accepts(fs: Seq<Feature>, solution: SolutionContext, job: Job)
    requires
        solution.routes@.len() == 1,
        solution.routes@[0].jobs@.len() == 0,
        !skills_violated(solution.routes@[0], job),
        forall|i: int|
            0 <= i < fs.len() ==> match (#[trigger] fs[i]).constraint {
                Some(FeatureConstraint::TourSize { limit, .. }) => limit >= 1,
                _ => true,
            },
    ensures
        route_check(fs, solution, 0, job) == None::<ConstraintViolation>,
    decreases fs.len(),
{
    if fs.len() > 0 {
        assert(!group_violated(solution, 0, job));
        assert forall|i: int|
            0 <= i < fs.drop_first().len() implies match (#[trigger] fs.drop_first()[i]).constraint {
                Some(FeatureConstraint::TourSize { limit, .. }) => limit >= 1,
                _ => true,
            } by {
            assert(fs.drop_first()[i] == fs[i + 1]);
        }
        lemma_empty_route_accepts(fs.drop_first(), solution, job);
    }
}

} // verus!
