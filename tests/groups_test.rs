use vrp_cluster::format::GROUP_CONSTRAINT_CODE;
use vrp_cluster::models::{Dimensions, Job, RouteContext, SolutionContext, Vehicle};
use vrp_cluster::pipeline::{
    create_group_feature, ConstraintPipeline, ConstraintViolation, StateKeyRegistry, ViolationCode,
    ViolationCodeRegistry,
};

const VIOLATION_CODE: ViolationCode = 1;

fn create_test_single(group: Option<&str>) -> Job {
    Job {
        places: vec![],
        dimens: Dimensions { id: None, skills: None, group: group.map(|g| g.to_string()), cluster: None },
    }
}

fn create_test_solution_context(routes: Vec<(&str, Vec<Option<&str>>)>) -> SolutionContext {
    SolutionContext {
        routes: routes
            .into_iter()
            .map(|(vehicle, groups)| RouteContext {
                vehicle: Vehicle { id: vehicle.to_string(), skills: None },
                groups: groups.iter().filter_map(|g| *g).map(|g| g.to_string()).collect(),
                jobs: groups.into_iter().map(create_test_single).collect(),
            })
            .collect(),
    }
}

fn group_pipeline(code: ViolationCode) -> ConstraintPipeline {
    let mut pipeline = ConstraintPipeline::new();
    assert!(pipeline.add_feature(create_group_feature("group", 1, code, 0)));
    pipeline
}

#[test]
fn can_build_expected_state() {
    let state_key = StateKeyRegistry::default().next_key();
    let total_jobs = 1;
    let state = create_group_feature("group", total_jobs, VIOLATION_CODE, state_key).state.unwrap();

    assert_eq!(state.state_keys(), vec![state_key]);
}

#[test]
fn group_taken_by_another_vehicle_stops_route() {
    let solution = create_test_solution_context(vec![("v1", vec![]), ("v2", vec![Some("g1")])]);
    let pipeline = group_pipeline(GROUP_CONSTRAINT_CODE);

    let result = pipeline.evaluate_route(&solution, 0, &create_test_single(Some("g1")));

    assert_eq!(result, Some(ConstraintViolation { code: 12, stopped: true }));
}

#[test]
fn group_free_everywhere_is_accepted() {
    let solution = create_test_solution_context(vec![("v1", vec![]), ("v2", vec![])]);
    let pipeline = group_pipeline(VIOLATION_CODE);

    assert_eq!(pipeline.evaluate_route(&solution, 0, &create_test_single(Some("g1"))), None);
}

#[test]
fn group_held_by_same_vehicle_is_accepted() {
    let solution = create_test_solution_context(vec![("v1", vec![]), ("v1", vec![Some("g1")])]);
    let pipeline = group_pipeline(VIOLATION_CODE);

    assert_eq!(pipeline.evaluate_route(&solution, 0, &create_test_single(Some("g1"))), None);
}

#[test]
fn stopped_route_refuses_every_position() {
    let solution = create_test_solution_context(vec![("v1", vec![None, None]), ("v2", vec![Some("g1")])]);
    let pipeline = group_pipeline(VIOLATION_CODE);
    let job = create_test_single(Some("g1"));

    let route_verdict = pipeline.evaluate_route(&solution, 0, &job);
    assert_eq!(route_verdict, Some(ConstraintViolation { code: VIOLATION_CODE, stopped: true }));
    for idx in 0..3 {
        assert!(pipeline.evaluate_insertion(&solution, 0, &job, idx).is_some());
    }
}

fn merge_groups(source: Option<&str>, candidate: Option<&str>) -> Result<(), i32> {
    let pipeline = group_pipeline(GROUP_CONSTRAINT_CODE);
    pipeline.merge(create_test_single(source), create_test_single(candidate)).map(|_| ())
}

#[test]
fn can_merge_groups() {
    assert_eq!(merge_groups(Some("g1"), Some("g2")), Err(12));
    assert_eq!(merge_groups(Some("g1"), Some("g1")), Ok(()));
    assert_eq!(merge_groups(None, Some("g1")), Err(12));
    assert_eq!(merge_groups(Some("g1"), None), Err(12));
    assert_eq!(merge_groups(None, None), Ok(()));
}

#[test]
fn merge_twice_gives_same_result() {
    let pipeline = group_pipeline(GROUP_CONSTRAINT_CODE);
    let first = pipeline.merge(create_test_single(Some("g1")), create_test_single(Some("g2"))).map(|_| ());
    let second = pipeline.merge(create_test_single(Some("g1")), create_test_single(Some("g2"))).map(|_| ());
    assert_eq!(first, second);

    let merged = pipeline.merge(create_test_single(Some("g1")), create_test_single(Some("g1"))).unwrap();
    assert_eq!(merged.dimens.group, Some("g1".to_string()));
}

#[test]
fn accept_insertion_adds_group_to_route() {
    let mut solution = create_test_solution_context(vec![("v1", vec![None]), ("v2", vec![Some("g2")])]);
    let pipeline = group_pipeline(VIOLATION_CODE);

    pipeline.accept_insertion(&mut solution, 0, &create_test_single(Some("g1")));

    assert_eq!(solution.routes[0].groups, vec!["g1".to_string()]);
    assert_eq!(solution.routes[1].groups, vec!["g2".to_string()]);
}

#[test]
fn accept_route_state_collects_groups() {
    let mut solution = create_test_solution_context(vec![("v1", vec![Some("g1"), None, Some("g2"), Some("g1")])]);
    solution.routes[0].groups = vec![];
    let pipeline = group_pipeline(VIOLATION_CODE);

    pipeline.accept_route_state(&mut solution.routes[0]);

    assert_eq!(solution.routes[0].groups, vec!["g1".to_string(), "g2".to_string()]);
}

#[test]
fn duplicate_feature_name_is_refused() {
    let mut pipeline = group_pipeline(VIOLATION_CODE);
    assert!(!pipeline.add_feature(create_group_feature("group", 1, VIOLATION_CODE, 1)));
    assert_eq!(pipeline.features.len(), 1);
}

#[test]
fn state_keys_are_handed_out_in_turn() {
    let mut registry = StateKeyRegistry::default();
    assert_eq!(registry.next_key(), 0);
    assert_eq!(registry.next_key(), 1);
}

#[test]
fn accept_solution_state_rebuilds_every_route() {
    let mut solution = create_test_solution_context(vec![("v1", vec![Some("g1")]), ("v1", vec![Some("g2"), None])]);
    solution.routes[0].groups = vec![];
    solution.routes[1].groups = vec!["stale".to_string()];
    let pipeline = group_pipeline(VIOLATION_CODE);

    pipeline.accept_solution_state(&mut solution);

    assert_eq!(solution.routes[0].groups, vec!["g1".to_string()]);
    assert_eq!(solution.routes[1].groups, vec!["g2".to_string()]);
}

#[test]
fn user_codes_start_above_reserved_range() {
    let mut registry = ViolationCodeRegistry::default();
    assert_eq!(registry.next_code(), Some(16));
    assert_eq!(registry.next_code(), Some(17));
    let mut last = ViolationCodeRegistry { next: i32::MAX };
    assert_eq!(last.next_code(), None);
}
