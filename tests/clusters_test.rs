use vrp_cluster::clusters::{
    commit_cluster, get_clusters, new_cluster_times, select_best, CenterState,
};
use vrp_cluster::job_set::JobSet;
use vrp_cluster::models::{ClusterInfo, Dimensions, Job, Movement, Place, TimeSpan, TimeWindow};
use vrp_cluster::models::{RouteContext, SolutionContext, Vehicle};
use vrp_cluster::pipeline::{create_skills_feature, create_tour_size_feature, ConstraintPipeline};
use vrp_cluster::transport::RoutingMatrix;
use vrp_cluster::vicinity::{
    get_dissimilarities, get_jobs_dissimilarities, ClusterConfig, ServiceTimePolicy, ThresholdPolicy,
    VisitPolicy,
};

fn make_job(location: usize, duration: i64, start: i64, end: i64) -> Job {
    Job {
        places: vec![Place {
            location: Some(location),
            duration,
            times: vec![TimeSpan::Window(TimeWindow { start, end })],
        }],
        dimens: Dimensions { id: None, skills: None, group: None, cluster: None },
    }
}

fn config(visiting: VisitPolicy) -> ClusterConfig {
    ClusterConfig {
        threshold: ThresholdPolicy { moving_duration: 100, moving_distance: 100, min_shared_time: None },
        visiting,
        service_time: ServiceTimePolicy::Original,
        smallest_time_window: None,
    }
}

// locations 0, 1 and 2: 0-1 takes 5, 0-2 takes 7, 1-2 takes 3, both ways
fn matrix() -> RoutingMatrix {
    let values = vec![0, 5, 7, 5, 0, 3, 7, 3, 0];
    RoutingMatrix::new(3, values.clone(), values).unwrap()
}

fn three_jobs() -> Vec<Job> {
    vec![make_job(0, 10, 0, 1000), make_job(1, 20, 0, 1000), make_job(2, 30, 0, 1000)]
}

fn run(visiting: VisitPolicy) -> Vec<(Job, Vec<usize>)> {
    let jobs = three_jobs();
    let config = config(visiting);
    let estimates = get_jobs_dissimilarities(&jobs, &matrix(), &config);
    let pipeline = ConstraintPipeline::new();
    get_clusters(
        &pipeline,
        &jobs,
        &estimates,
        &config,
        &|_job: &Job, candidates: usize| candidates as i64,
        &|info: &ClusterInfo| info.forward.duration,
        &|_job: &Job| true,
        &|_job: &Job| Ok(()),
    )
}

#[test]
fn closed_continuation_adds_way_back() {
    let clusters = run(VisitPolicy::ClosedContinuation);

    assert_eq!(clusters.len(), 1);
    assert_eq!(clusters[0].1, vec![0, 1, 2]);
    // 10 + 20 + 30 of service, 5 + 3 of travel forward, 7 back to the center
    assert_eq!(clusters[0].0.places[0].duration, 75);
    let infos = clusters[0].0.dimens.cluster.as_ref().unwrap();
    assert_eq!(infos[2].forward.duration, 3);
}

#[test]
fn open_continuation_ends_at_last_visit() {
    let clusters = run(VisitPolicy::OpenContinuation);

    assert_eq!(clusters.len(), 1);
    assert_eq!(clusters[0].0.places[0].duration, 68);
}

#[test]
fn return_policy_counts_both_ways() {
    let clusters = run(VisitPolicy::Return);

    assert_eq!(clusters.len(), 1);
    assert_eq!(clusters[0].1, vec![0, 1, 2]);
    // 10 + 20 + 30 of service, 5 + 5 and 7 + 7 of travel
    assert_eq!(clusters[0].0.places[0].duration, 84);
    let infos = clusters[0].0.dimens.cluster.as_ref().unwrap();
    assert_eq!(infos[2].forward, Movement { distance: 7, duration: 7 });
    assert_eq!(infos[2].backward, Movement { distance: 7, duration: 7 });
    let times = &clusters[0].0.places[0].times;
    assert_eq!(times, &vec![TimeSpan::Window(TimeWindow { start: 0, end: 953 })]);
}

#[test]
fn empty_input_gives_no_clusters() {
    let config = config(VisitPolicy::Return);
    let pipeline = ConstraintPipeline::new();
    let clusters = get_clusters(
        &pipeline,
        &vec![],
        &vec![],
        &config,
        &|_job: &Job, candidates: usize| candidates as i64,
        &|info: &ClusterInfo| info.forward.duration,
        &|_job: &Job| true,
        &|_job: &Job| Ok(()),
    );
    assert!(clusters.is_empty());
}

#[test]
fn refused_insertion_leaves_no_cluster() {
    let jobs = three_jobs();
    let config = config(VisitPolicy::Return);
    let estimates = get_jobs_dissimilarities(&jobs, &matrix(), &config);
    let pipeline = ConstraintPipeline::new();
    let clusters = get_clusters(
        &pipeline,
        &jobs,
        &estimates,
        &config,
        &|_job: &Job, candidates: usize| candidates as i64,
        &|info: &ClusterInfo| info.forward.duration,
        &|_job: &Job| true,
        &|_job: &Job| Err(1),
    );
    assert!(clusters.is_empty());
}

#[test]
fn clustered_jobs_appear_once() {
    let jobs = vec![
        make_job(0, 1, 0, 100),
        make_job(1, 1, 0, 100),
        make_job(2, 1, 0, 100),
        make_job(0, 1, 200, 300),
        make_job(1, 1, 200, 300),
    ];
    let config = config(VisitPolicy::OpenContinuation);
    let estimates = get_jobs_dissimilarities(&jobs, &matrix(), &config);
    let pipeline = ConstraintPipeline::new();
    let clusters = get_clusters(
        &pipeline,
        &jobs,
        &estimates,
        &config,
        &|_job: &Job, candidates: usize| candidates as i64,
        &|info: &ClusterInfo| info.forward.duration,
        &|_job: &Job| true,
        &|_job: &Job| Ok(()),
    );
    assert_eq!(clusters.len(), 2);
    let mut all: Vec<usize> = clusters.iter().flat_map(|(_, members)| members.clone()).collect();
    let total = all.len();
    all.sort();
    all.dedup();
    assert_eq!(all.len(), total);
}

#[test]
fn distance_at_threshold_is_unreachable() {
    let values = vec![0, 100, 100, 0];
    let durations = vec![0, 1, 1, 0];
    let matrix = RoutingMatrix::new(2, values, durations).unwrap();
    let config = config(VisitPolicy::Return);
    let a = make_job(0, 1, 0, 100);
    let b = make_job(1, 1, 0, 100);

    let infos = get_dissimilarities(&a, &b, 1, &matrix, &config);

    assert_eq!(infos.len(), 1);
    assert!(!infos[0].reachable);
    assert_eq!(infos[0].info.forward, Movement { distance: 100, duration: 1 });
}

#[test]
fn no_shared_time_gives_no_dissimilarity() {
    let config = config(VisitPolicy::Return);
    let a = make_job(0, 1, 0, 100);
    let b = make_job(1, 1, 100, 200);

    assert!(get_dissimilarities(&a, &b, 1, &matrix(), &config).is_empty());
}

#[test]
fn service_time_policies() {
    let mut config = config(VisitPolicy::Return);
    let a = make_job(0, 1, 0, 100);
    let b = make_job(1, 20, 0, 100);
    config.service_time = ServiceTimePolicy::Multiplier(3);
    assert_eq!(get_dissimilarities(&a, &b, 1, &matrix(), &config)[0].info.service_time, 60);
    config.service_time = ServiceTimePolicy::Fixed(4);
    assert_eq!(get_dissimilarities(&a, &b, 1, &matrix(), &config)[0].info.service_time, 4);
    assert!(get_dissimilarities(&a, &b, 1, &matrix(), &config)[0].reachable);
}

#[test]
fn wrong_matrix_size_is_refused() {
    assert!(RoutingMatrix::new(2, vec![0; 3], vec![0; 4]).is_none());
    assert!(RoutingMatrix::new(2, vec![0; 4], vec![0; 4]).is_some());
}

#[test]
fn new_windows_shrink() {
    let cluster_times = vec![TimeWindow { start: 0, end: 100 }, TimeWindow { start: 200, end: 300 }];
    let place_times = vec![TimeWindow { start: 50, end: 250 }];

    let times = new_cluster_times(&cluster_times, &place_times, 10, 5, 7, 0);

    // [40, 100) and [200, 250), each losing the trailing duration and the travel
    assert_eq!(times, vec![TimeWindow { start: 40, end: 83 }, TimeWindow { start: 200, end: 235 }]);
    for w in &times {
        assert!(cluster_times.iter().any(|c| c.start <= w.start && w.end <= c.end));
        assert!(place_times.iter().any(|p| p.start - 10 <= w.start && w.end <= p.end));
    }
}

#[test]
fn narrow_windows_are_dropped() {
    let cluster_times = vec![TimeWindow { start: 0, end: 100 }];
    let place_times = vec![TimeWindow { start: 80, end: 100 }];
    assert!(new_cluster_times(&cluster_times, &place_times, 0, 5, 5, 20).is_empty());
    assert_eq!(new_cluster_times(&cluster_times, &place_times, 0, 5, 5, 15).len(), 1);
}

#[test]
fn best_key_first_of_equals() {
    assert_eq!(select_best(&vec![3, 7, 7, 1]), 1);
    assert_eq!(select_best(&vec![2]), 0);
}

#[test]
fn commit_drops_clusters_with_used_jobs() {
    let mut used = JobSet::new();
    used.insert(0);
    used.insert(1);
    let cluster = Job {
        places: vec![Place { location: Some(2), duration: 0, times: vec![] }],
        dimens: Dimensions {
            id: None,
            skills: None,
            group: None,
            cluster: Some(vec![
                ClusterInfo {
                    job: 2,
                    service_time: 0,
                    place_idx: 0,
                    forward: Movement { distance: 0, duration: 0 },
                    backward: Movement { distance: 0, duration: 0 },
                },
                ClusterInfo {
                    job: 1,
                    service_time: 0,
                    place_idx: 0,
                    forward: Movement { distance: 0, duration: 0 },
                    backward: Movement { distance: 0, duration: 0 },
                },
            ]),
        },
    };
    let mut candidates = JobSet::new();
    candidates.insert(1);
    candidates.insert(3);
    let mut other = JobSet::new();
    other.insert(1);
    let states = vec![
        CenterState { center: 2, cluster: Some(cluster), candidates },
        CenterState { center: 0, cluster: None, candidates: JobSet::new() },
        CenterState { center: 3, cluster: None, candidates: other },
    ];

    let left = commit_cluster(states, &vec![0, 1], &used, 4);

    assert_eq!(left.len(), 1);
    assert_eq!(left[0].center, 2);
    assert!(left[0].cluster.is_none());
    assert!(left[0].candidates.contains(3));
    assert!(!left[0].candidates.contains(1));
}

#[test]
fn threshold_stops_search_but_keeps_best() {
    let jobs = three_jobs();
    let config = config(VisitPolicy::OpenContinuation);
    let estimates = get_jobs_dissimilarities(&jobs, &matrix(), &config);
    let pipeline = ConstraintPipeline::new();
    let clusters = get_clusters(
        &pipeline,
        &jobs,
        &estimates,
        &config,
        &|_job: &Job, candidates: usize| candidates as i64,
        &|info: &ClusterInfo| info.forward.duration,
        &|_job: &Job| false,
        &|_job: &Job| Ok(()),
    );
    assert_eq!(clusters.len(), 1);
    assert_eq!(clusters[0].1, vec![0, 1, 2]);
}

#[test]
fn center_keeps_place_with_most_visits() {
    // the center has a place that shares no time with the others, then one that does
    let mut center = make_job(2, 10, 0, 1000);
    center.places.insert(
        0,
        Place { location: Some(3), duration: 10, times: vec![TimeSpan::Window(TimeWindow { start: 5000, end: 6000 })] },
    );
    let jobs = vec![center, make_job(0, 10, 0, 1000), make_job(1, 10, 0, 1000)];
    let values = vec![0, 5, 7, 500, 5, 0, 3, 500, 7, 3, 0, 500, 500, 500, 500, 0];
    let matrix = RoutingMatrix::new(4, values.clone(), values).unwrap();
    let config = config(VisitPolicy::OpenContinuation);
    let estimates = get_jobs_dissimilarities(&jobs, &matrix, &config);
    let pipeline = ConstraintPipeline::new();
    let clusters = get_clusters(
        &pipeline,
        &jobs,
        &estimates,
        &config,
        &|_job: &Job, candidates: usize| candidates as i64,
        &|info: &ClusterInfo| info.forward.duration,
        &|_job: &Job| true,
        &|_job: &Job| Ok(()),
    );
    assert_eq!(clusters.len(), 1);
    assert_eq!(clusters[0].1.len(), 3);
    let first = &clusters[0].0.dimens.cluster.as_ref().unwrap()[0];
    if clusters[0].1[0] == 0 {
        assert_eq!(first.place_idx, 1);
        assert_eq!(clusters[0].0.places[0].location, Some(2));
    }
}

#[test]
fn global_key_picks_center() {
    let jobs = three_jobs();
    let config = config(VisitPolicy::OpenContinuation);
    let estimates = get_jobs_dissimilarities(&jobs, &matrix(), &config);
    let pipeline = ConstraintPipeline::new();
    let clusters = get_clusters(
        &pipeline,
        &jobs,
        &estimates,
        &config,
        &|job: &Job, _candidates: usize| job.places[0].duration,
        &|info: &ClusterInfo| info.forward.duration,
        &|_job: &Job| true,
        &|_job: &Job| Ok(()),
    );
    assert_eq!(clusters.len(), 1);
    // the job with the longest duration is the center
    assert_eq!(clusters[0].1[0], 2);
}

#[test]
fn empty_windows_are_dropped() {
    // cluster [0, 10), place [0, 10), no travel, trailing duration 10 leaves [0, 0)
    let cluster_times = vec![TimeWindow { start: 0, end: 10 }];
    let place_times = vec![TimeWindow { start: 0, end: 10 }];
    assert!(new_cluster_times(&cluster_times, &place_times, 0, 10, 10, 0).is_empty());
    assert!(new_cluster_times(&cluster_times, &place_times, 0, 10, 10, -5).is_empty());
    assert_eq!(new_cluster_times(&cluster_times, &place_times, 0, 9, 9, 0), vec![TimeWindow { start: 0, end: 1 }]);
}

#[test]
fn cluster_job_accepted_on_empty_route() {
    let clusters = run(VisitPolicy::ClosedContinuation);
    let mut pipeline = ConstraintPipeline::new();
    assert!(pipeline.add_feature(create_skills_feature("skills", 6)));
    assert!(pipeline.add_feature(create_tour_size_feature("size", 1, 10)));
    let solution = SolutionContext {
        routes: vec![RouteContext { vehicle: Vehicle { id: "v1".to_string(), skills: None }, jobs: vec![], groups: vec![] }],
    };
    assert_eq!(pipeline.evaluate_route(&solution, 0, &clusters[0].0), None);
}
