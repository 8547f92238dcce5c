//! The job-vehicle skills feature.

use vstd::prelude::*;
use crate::models::copy_opt_strings;

verus! {

/// The set of names held by a sequence of strings.
pub open spec fn names(v: Seq<String>) -> Set<Seq<char>> {
    Set::new(|x: Seq<char>| exists|i: int| 0 <= i < v.len() && v[i]@ == x)
}

/// The names of an optional sequence of strings.
pub open spec fn opt_names(v: Option<Vec<String>>) -> Option<Set<Seq<char>>> {
    match v {
        Some(s) => Some(names(s@)),
        None => None,
    }
}

/// A skills limitation of a job for the vehicle that serves it.
#[derive(Clone, Debug)]
pub struct JobSkills {
    /// The vehicle should have all of these skills.
    pub all_of: Option<Vec<String>>,
    /// The vehicle should have at least one of these skills.
    pub one_of: Option<Vec<String>>,
    /// The vehicle should have none of these skills.
    pub none_of: Option<Vec<String>>,
}

/// The three skill sets of a job, as sets of names.
pub struct SkillsView {
    pub all_of: Option<Set<Seq<char>>>,
    pub one_of: Option<Set<Seq<char>>>,
    pub none_of: Option<Set<Seq<char>>>,
}

impl View for JobSkills {
    type V = SkillsView;

    open spec fn view(&self) -> SkillsView {
        SkillsView {
            all_of: opt_names(self.all_of),
            one_of: opt_names(self.one_of),
            none_of: opt_names(self.none_of),
        }
    }
}

/// An empty list of skills stands for no limitation.
pub open spec fn non_empty_list(v: Option<Vec<String>>) -> Option<Vec<String>> {
    match v {
        Some(s) => if s@.len() == 0 { None } else { Some(s) },
        None => None,
    }
}

fn non_empty(v: Option<Vec<String>>) -> (r: Option<Vec<String>>)
    ensures
        r == non_empty_list(v),
{
    match v {
        Some(s) => if s.len() == 0 { None } else { Some(s) },
        None => None,
    }
}

impl JobSkills {
    /// Creates job skills; an empty list is the same as none.
    pub fn new(all_of: Option<Vec<String>>, one_of: Option<Vec<String>>, none_of: Option<Vec<String>>) -> (r: Self)
        ensures
            r.all_of == non_empty_list(all_of),
            r.one_of == non_empty_list(one_of),
            r.none_of == non_empty_list(none_of),
    {
        JobSkills { all_of: non_empty(all_of), one_of: non_empty(one_of), none_of: non_empty(none_of) }
    }

    /// Copies the skills.
    pub fn copy(&self) -> (r: Self)
        ensures
            r@ == self@,
    {
        JobSkills {
            all_of: copy_opt_strings(&self.all_of),
            one_of: copy_opt_strings(&self.one_of),
            none_of: copy_opt_strings(&self.none_of),
        }
    }
}

/// Tells whether a name is among the given strings.
pub fn has_name(v: &Vec<String>, s: &String) -> (r: bool)
    ensures
        r == names(v@).contains(s@),
{
    let mut i: usize = 0;
    while i < v.len()
        invariant
            i <= v.len(),
            forall|k: int| 0 <= k < i ==> v@[k]@ != s@,
        decreases v.len() - i,
    {
        if v[i] == *s {
            assert(names(v@).contains(s@));
            return true;
        }
        i = i + 1;
    }
    false
}

/// Tells whether every name of `a` is a name of `b`.
pub fn is_subset(a: &Vec<String>, b: &Vec<String>) -> (r: bool)
    ensures
        r == names(a@).subset_of(names(b@)),
{
    let mut i: usize = 0;
    while i < a.len()
        invariant
            i <= a.len(),
            forall|k: int| 0 <= k < i ==> names(b@).contains(#[trigger] a@[k]@),
        decreases a.len() - i,
    {
        if !has_name(b, &a[i]) {
            assert(names(a@).contains(a@[i as int]@));
            return false;
        }
        i = i + 1;
    }
    true
}

/// Tells whether `a` and `b` share a name.
pub fn intersects(a: &Vec<String>, b: &Vec<String>) -> (r: bool)
    ensures
        r == !names(a@).disjoint(names(b@)),
{
    let mut i: usize = 0;
    while i < a.len()
        invariant
            i <= a.len(),
            forall|k: int| 0 <= k < i ==> !names(b@).contains(#[trigger] a@[k]@),
        decreases a.len() - i,
    {
        if has_name(b, &a[i]) {
            assert(names(a@).contains(a@[i as int]@));
            return true;
        }
        i = i + 1;
    }
    proof { true_if_shared(a, b); }
    false
}

proof fn true_if_shared(a: &Vec<String>, b: &Vec<String>)
    requires
        forall|k: int| 0 <= k < a@.len() ==> !names(b@).contains(#[trigger] a@[k]@),
    ensures
        names(a@).disjoint(names(b@)),
{
    assert forall|x: Seq<char>| names(a@).contains(x) implies !names(b@).contains(x) by {
        let k = choose|k: int| 0 <= k < a@.len() && a@[k]@ == x;
        assert(!names(b@).contains(a@[k]@));
    }
}

/// The vehicle has every skill that the job needs; a vehicle without skills
/// meets only an empty demand.
pub open spec fn all_of_met(job: Option<Set<Seq<char>>>, vehicle: Option<Set<Seq<char>>>) -> bool {
    match job {
        None => true,
        Some(j) => match vehicle {
            Some(v) => j.subset_of(v),
            None => j == Set::<Seq<char>>::empty(),
        },
    }
}

/// The vehicle has one of the skills that the job asks for; an empty demand
/// is always met, and a vehicle without skills meets only an empty demand.
pub open spec fn one_of_met(job: Option<Set<Seq<char>>>, vehicle: Option<Set<Seq<char>>>) -> bool {
    match job {
        None => true,
        Some(j) => j == Set::<Seq<char>>::empty() || match vehicle {
            Some(v) => !j.disjoint(v),
            None => false,
        },
    }
}

/// The vehicle has none of the skills that the job excludes.
pub open spec fn none_of_met(job: Option<Set<Seq<char>>>, vehicle: Option<Set<Seq<char>>>) -> bool {
    match job {
        None => true,
        Some(j) => match vehicle {
            Some(v) => j.disjoint(v),
            None => true,
        },
    }
}

/// The vehicle meets all three skill demands of the job.
pub open spec fn skills_met(job: SkillsView, vehicle: Option<Set<Seq<char>>>) -> bool {
    all_of_met(job.all_of, vehicle) && one_of_met(job.one_of, vehicle) && none_of_met(job.none_of, vehicle)
}

proof fn empty_names(v: Seq<String>)
    ensures
        (v.len() == 0) == (names(v) == Set::<Seq<char>>::empty()),
{
    if v.len() != 0 {
        assert(names(v).contains(v[0]@));
    } else {
        assert(names(v) =~= Set::<Seq<char>>::empty());
    }
}

/// Checks the `all_of` demand of a job against the skills of a vehicle.
pub fn check_all_of(job_skills: &JobSkills, vehicle_skills: &Option<Vec<String>>) -> (r: bool)
    ensures
        r == all_of_met(job_skills@.all_of, opt_names(*vehicle_skills)),
{
    match &job_skills.all_of {
        Some(skills) => match vehicle_skills {
            Some(vehicle) => is_subset(skills, vehicle),
            None => {
                proof { empty_names(skills@); }
                skills.len() == 0
            },
        },
        None => true,
    }
}

/// Checks the `one_of` demand of a job against the skills of a vehicle.
pub fn check_one_of(job_skills: &JobSkills, vehicle_skills: &Option<Vec<String>>) -> (r: bool)
    ensures
        r == one_of_met(job_skills@.one_of, opt_names(*vehicle_skills)),
{
    match &job_skills.one_of {
        Some(skills) => {
            proof { empty_names(skills@); }
            skills.len() == 0 || match vehicle_skills {
                Some(vehicle) => intersects(skills, vehicle),
                None => false,
            }
        },
        None => true,
    }
}

/// Checks the `none_of` demand of a job against the skills of a vehicle.
pub fn check_none_of(job_skills: &JobSkills, vehicle_skills: &Option<Vec<String>>) -> (r: bool)
    ensures
        r == none_of_met(job_skills@.none_of, opt_names(*vehicle_skills)),
{
    match &job_skills.none_of {
        Some(skills) => match vehicle_skills {
            Some(vehicle) => !intersects(skills, vehicle),
            None => true,
        },
        None => true,
    }
}

/// Checks all three demands of a job against the skills of a vehicle.
pub fn check_skills(job_skills: &JobSkills, vehicle_skills: &Option<Vec<String>>) -> (r: bool)
    ensures
        r == skills_met(job_skills@, opt_names(*vehicle_skills)),
{
    check_all_of(job_skills, vehicle_skills) && check_one_of(job_skills, vehicle_skills)
        && check_none_of(job_skills, vehicle_skills)
}

/// One skill set of a candidate fits into the homonym set of the source.
pub open spec fn set_absorbable(source: Option<Set<Seq<char>>>, candidate: Option<Set<Seq<char>>>) -> bool {
    match candidate {
        None => true,
        Some(c) => match source {
            None => false,
            Some(s) => c.subset_of(s),
        },
    }
}

/// The source's skills can absorb those of the candidate: each set of the
/// candidate is within the homonym set of the source, and a source without
/// skills absorbs only a candidate without skills.
pub open spec fn skills_absorbable(source: Option<SkillsView>, candidate: Option<SkillsView>) -> bool {
    match candidate {
        None => true,
        Some(c) => match source {
            None => false,
            Some(s) => set_absorbable(s.all_of, c.all_of) && set_absorbable(s.one_of, c.one_of)
                && set_absorbable(s.none_of, c.none_of),
        },
    }
}

pub open spec fn opt_skills_view(s: Option<JobSkills>) -> Option<SkillsView> {
    match s {
        Some(k) => Some(k@),
        None => None,
    }
}

fn check_skill_set(source: &Option<Vec<String>>, candidate: &Option<Vec<String>>) -> (r: bool)
    ensures
        r == set_absorbable(opt_names(*source), opt_names(*candidate)),
{
    match candidate {
        None => true,
        Some(c) => match source {
            None => false,
            Some(s) => is_subset(c, s),
        },
    }
}

/// Tells whether the source's skills can absorb the candidate's skills.
pub fn has_comparable_skills(source: &Option<JobSkills>, candidate: &Option<JobSkills>) -> (r: bool)
    ensures
        r == skills_absorbable(opt_skills_view(*source), opt_skills_view(*candidate)),
{
    match candidate {
        None => true,
        Some(c) => match source {
            None => false,
            Some(s) => check_skill_set(&s.all_of, &c.all_of) && check_skill_set(&s.one_of, &c.one_of)
                && check_skill_set(&s.none_of, &c.none_of),
        },
    }
}

} // verus!
