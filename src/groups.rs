//! The job group feature: a group of jobs is served by one vehicle only.

use vstd::prelude::*;
use crate::models::{Job, RouteContext, SolutionContext, copy_opt_string};
use crate::skills::{has_name, names};

verus! {

/// Inserting a job of group `g` into route `route_idx` breaks the rule: another
/// route, served by another vehicle, already holds the group.
pub open spec fn group_taken_elsewhere(solution: SolutionContext, route_idx: int, g: Seq<char>) -> bool {
    exists|i: int|
        0 <= i < solution.routes@.len() && solution.routes@[i].vehicle.id@ != solution.routes@[route_idx].vehicle.id@
            && #[trigger] names(solution.routes@[i].groups@).contains(g)
}

/// The group rule rejects the job in this route.
pub open spec fn group_violated(solution: SolutionContext, route_idx: int, job: Job) -> bool {
    match job.dimens.group {
        Some(g) => group_taken_elsewhere(solution, route_idx, g@),
        None => false,
    }
}

/// Two jobs can merge under the group rule: their groups are equal, or both absent.
pub open spec fn groups_mergeable(source: Job, candidate: Job) -> bool {
    match (source.dimens.group, candidate.dimens.group) {
        (None, None) => true,
        (Some(a), Some(b)) => a@ == b@,
        _ => false,
    }
}

/// Checks the group rule for a job inserted into a route.
pub fn check_group(solution: &SolutionContext, route_idx: usize, job: &Job) -> (r: bool)
    requires
        route_idx < solution.routes@.len(),
    ensures
        r == !group_violated(*solution, route_idx as int, *job),
{
    match &job.dimens.group {
        None => true,
        Some(g) => {
            let own = &solution.routes[route_idx].vehicle.id;
            let mut i: usize = 0;
            while i < solution.routes.len()
                invariant
                    i <= solution.routes@.len(),
                    route_idx < solution.routes@.len(),
                    *own == solution.routes@[route_idx as int].vehicle.id,
                    job.dimens.group == Some(*g),
                    forall|k: int| 0 <= k < i ==> !(solution.routes@[k].vehicle.id@ != own@
                        && #[trigger] names(solution.routes@[k].groups@).contains(g@)),
                decreases solution.routes@.len() - i,
            {
                let route = &solution.routes[i];
                if !(route.vehicle.id == *own) && has_name(&route.groups, g) {
                    assert(names(solution.routes@[i as int].groups@).contains(g@));
                    return false;
                }
                i = i + 1;
            }
            true
        },
    }
}

/// Checks whether two jobs can merge under the group rule.
pub fn check_group_merge(source: &Job, candidate: &Job) -> (r: bool)
    ensures
        r == groups_mergeable(*source, *candidate),
{
    match (&source.dimens.group, &candidate.dimens.group) {
        (None, None) => true,
        (Some(a), Some(b)) => *a == *b,
        _ => false,
    }
}

/// The group name of a job, if it has one.
pub open spec fn group_name(job: Job) -> Option<Seq<char>> {
    match job.dimens.group {
        Some(g) => Some(g@),
        None => None,
    }
}

/// The group names of a sequence of jobs.
pub open spec fn job_groups(jobs: Seq<Job>) -> Set<Seq<char>> {
    Set::new(|g: Seq<char>| exists|i: int| 0 <= i < jobs.len() && #[trigger] group_name(jobs[i]) == Some(g))
}

/// Adds a name to a list of distinct names, if it is not there yet.
pub fn add_name(v: &mut Vec<String>, s: String)
    ensures
        names(final(v)@) == names(old(v)@).insert(s@),
{
    if !has_name(v, &s) {
        let ghost prev = v@;
        let ghost sv = s@;
        v.push(s);
        assert(names(v@) =~= names(prev).insert(sv)) by {
            assert forall|x: Seq<char>| names(prev).insert(sv).contains(x) implies names(v@).contains(x) by {
                if x == sv {
                    assert(v@[prev.len() as int]@ == x);
                } else {
                    let k = choose|k: int| 0 <= k < prev.len() && prev[k]@ == x;
                    assert(v@[k]@ == x);
                }
            }
        }
    } else {
        assert(names(v@) =~= names(v@).insert(s@));
    }
}

/// Recomputes the group state of a route from its jobs.
pub fn accept_route_state(route: &mut RouteContext)
    ensures
        names(final(route).groups@) == job_groups(old(route).jobs@),
        final(route).jobs@ == old(route).jobs@,
        final(route).vehicle == old(route).vehicle,
{
    let mut groups: Vec<String> = Vec::new();
    let mut i: usize = 0;
    while i < route.jobs.len()
        invariant
            i <= route.jobs@.len(),
            names(groups@) == job_groups(route.jobs@.subrange(0, i as int)),
        decreases route.jobs@.len() - i,
    {
        let ghost before = names(groups@);
        let ghost sub = route.jobs@.subrange(0, i as int);
        let ghost next = route.jobs@.subrange(0, i as int + 1);
        match copy_opt_string(&route.jobs[i].dimens.group) {
            Some(g) => {
                let ghost gv = g@;
                add_name(&mut groups, g);
                assert(job_groups(next) =~= job_groups(sub).insert(gv)) by {
                    assert forall|x: Seq<char>| job_groups(next).contains(x) implies job_groups(sub).insert(gv).contains(x) by {
                        let k = choose|k: int| 0 <= k < next.len() && #[trigger] group_name(next[k]) == Some(x);
                        if k < sub.len() {
                            assert(sub[k] == next[k]);
                        }
                    }
                    assert forall|x: Seq<char>| job_groups(sub).insert(gv).contains(x) implies job_groups(next).contains(x) by {
                        if x == gv {
                            assert(group_name(next[i as int]) == Some(x));
                        } else {
                            let k = choose|k: int| 0 <= k < sub.len() && #[trigger] group_name(sub[k]) == Some(x);
                            assert(next[k] == sub[k]);
                        }
                    }
                }
            },
            None => {
                assert(job_groups(next) =~= job_groups(sub)) by {
                    assert forall|x: Seq<char>| job_groups(next).contains(x) implies job_groups(sub).contains(x) by {
                        let k = choose|k: int| 0 <= k < next.len() && #[trigger] group_name(next[k]) == Some(x);
                        if k < sub.len() {
                            assert(sub[k] == next[k]);
                        }
                    }
                    assert forall|x: Seq<char>| job_groups(sub).contains(x) implies job_groups(next).contains(x) by {
                        let k = choose|k: int| 0 <= k < sub.len() && #[trigger] group_name(sub[k]) == Some(x);
                        assert(next[k] == sub[k]);
                    }
                }
            },
        }
        i = i + 1;
    }
    assert(route.jobs@.subrange(0, route.jobs@.len() as int) == route.jobs@);
    route.groups = groups;
}

} // verus!
