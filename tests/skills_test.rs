use vrp_cluster::format::SKILL_CONSTRAINT_CODE;
use vrp_cluster::models::{Dimensions, Job, RouteContext, SolutionContext, Vehicle};
use vrp_cluster::pipeline::{
    create_skills_feature, create_tour_size_feature, ConstraintPipeline, ConstraintViolation,
};
use vrp_cluster::skills::{check_all_of, check_none_of, check_one_of, JobSkills};

fn names(v: &[&str]) -> Option<Vec<String>> {
    Some(v.iter().map(|s| s.to_string()).collect())
}

fn job_with(skills: Option<JobSkills>) -> Job {
    Job { places: vec![], dimens: Dimensions { id: None, skills, group: None, cluster: None } }
}

fn all_of(v: &[&str]) -> Option<JobSkills> {
    Some(JobSkills::new(names(v), None, None))
}

fn skills_pipeline() -> ConstraintPipeline {
    let mut pipeline = ConstraintPipeline::new();
    assert!(pipeline.add_feature(create_skills_feature("skills", SKILL_CONSTRAINT_CODE)));
    pipeline
}

#[test]
fn skills_merge_subset_is_accepted() {
    let pipeline = skills_pipeline();
    let result = pipeline.merge(job_with(all_of(&["a", "b"])), job_with(all_of(&["a"])));
    assert!(result.is_ok());
}

#[test]
fn skills_merge_foreign_skill_is_refused() {
    let pipeline = skills_pipeline();
    let result = pipeline.merge(job_with(all_of(&["a", "b"])), job_with(all_of(&["c"]))).map(|_| ());
    assert_eq!(result, Err(6));
}

#[test]
fn skills_merge_source_without_skills_refuses_candidate_with_skills() {
    let pipeline = skills_pipeline();
    assert_eq!(pipeline.merge(job_with(None), job_with(all_of(&["a"]))).map(|_| ()), Err(6));
    assert!(pipeline.merge(job_with(all_of(&["a"])), job_with(None)).is_ok());
    assert!(pipeline.merge(job_with(None), job_with(None)).is_ok());
}

#[test]
fn skills_merge_checks_each_set() {
    let pipeline = skills_pipeline();
    let source = Some(JobSkills::new(names(&["a"]), names(&["x", "y"]), None));
    let ok = Some(JobSkills::new(None, names(&["y"]), None));
    let bad = Some(JobSkills::new(None, None, names(&["z"])));
    assert!(pipeline.merge(job_with(source.clone()), job_with(ok)).is_ok());
    assert_eq!(pipeline.merge(job_with(source), job_with(bad)).map(|_| ()), Err(6));
}

#[test]
fn empty_skill_lists_mean_no_demand() {
    let skills = JobSkills::new(Some(vec![]), names(&["a"]), Some(vec![]));
    assert!(skills.all_of.is_none());
    assert_eq!(skills.one_of, names(&["a"]));
    assert!(skills.none_of.is_none());
}

#[test]
fn skill_checks_against_vehicle() {
    let job = JobSkills::new(names(&["a", "b"]), names(&["c", "d"]), names(&["e"]));
    assert!(check_all_of(&job, &names(&["a", "b", "c"])));
    assert!(!check_all_of(&job, &names(&["a"])));
    assert!(!check_all_of(&job, &None));
    assert!(check_one_of(&job, &names(&["d"])));
    assert!(!check_one_of(&job, &names(&["a"])));
    assert!(!check_one_of(&job, &None));
    assert!(check_none_of(&job, &names(&["a"])));
    assert!(!check_none_of(&job, &names(&["e"])));
    assert!(check_none_of(&job, &None));
}

#[test]
fn skills_evaluation_fails_route() {
    let solution = SolutionContext {
        routes: vec![RouteContext {
            vehicle: Vehicle { id: "v1".to_string(), skills: names(&["a"]) },
            jobs: vec![],
            groups: vec![],
        }],
    };
    let pipeline = skills_pipeline();
    assert_eq!(
        pipeline.evaluate_route(&solution, 0, &job_with(all_of(&["b"]))),
        Some(ConstraintViolation { code: 6, stopped: true })
    );
    assert_eq!(pipeline.evaluate_route(&solution, 0, &job_with(all_of(&["a"]))), None);
    assert_eq!(pipeline.evaluate_route(&solution, 0, &job_with(None)), None);
}

#[test]
fn first_failing_feature_decides() {
    let solution = SolutionContext {
        routes: vec![RouteContext {
            vehicle: Vehicle { id: "v1".to_string(), skills: None },
            jobs: vec![job_with(None)],
            groups: vec![],
        }],
    };
    let mut pipeline = ConstraintPipeline::new();
    assert!(pipeline.add_feature(create_tour_size_feature("size", 1, 10)));
    assert!(pipeline.add_feature(create_skills_feature("skills", 6)));
    assert_eq!(
        pipeline.evaluate_route(&solution, 0, &job_with(all_of(&["b"]))),
        Some(ConstraintViolation { code: 10, stopped: true })
    );
}

#[test]
fn empty_one_of_is_always_met() {
    let job = JobSkills { all_of: None, one_of: Some(vec![]), none_of: None };
    assert!(check_one_of(&job, &names(&["a"])));
    assert!(check_one_of(&job, &None));
    let job = JobSkills { all_of: Some(vec![]), one_of: None, none_of: Some(vec![]) };
    assert!(check_all_of(&job, &names(&["a"])));
    assert!(check_all_of(&job, &None));
    assert!(check_none_of(&job, &names(&["a"])));
}
