//! Building clusters of jobs around a center job.

use vstd::prelude::*;
use crate::models::{
    ClusterInfo, Dimensions, Job, Movement, Place, TimeSpan, TimeWindow, cluster_infos, concrete_windows,
    filter_times, same_dimens, windows_to_spans,
};
use crate::pipeline::{ConstraintPipeline, ViolationCode, merge_check};
use crate::skills::opt_skills_view;
use crate::vicinity::{ClusterConfig, DissimilarityInfo, VisitPolicy, clamp_i64, max_int};
use crate::job_set::{JobSet, job_set_items};

verus! {

pub open spec fn fits_i64(x: int) -> bool {
    i64::MIN <= x <= i64::MAX
}

/// The window that a cluster window `ct` and a place window `pt` leave for the
/// cluster once the candidate joins: the place window opens `fwd` earlier, as
/// the travel to it counts against it; the end gives room for the trailing
/// duration (`cdur` where the place window closes first, else `ldur`) and the
/// travel. Empty windows, windows narrower than `thr`, and windows beyond the
/// range of `i64` are dropped.
pub open spec fn new_window(ct: TimeWindow, pt: TimeWindow, fwd: int, cdur: int, ldur: int, thr: int) -> Option<TimeWindow> {
    let s = max_int(pt.start - fwd, ct.start as int);
    let e = if pt.end <= ct.end { pt.end as int } else { ct.end as int };
    if s < e {
        let dur = if pt.end < ct.end { cdur } else { ldur };
        let e2 = e - dur - fwd;
        if e2 <= s || e2 - s < thr || !fits_i64(e2) {
            None
        } else {
            Some(TimeWindow { start: s as i64, end: e2 as i64 })
        }
    } else {
        None
    }
}

pub open spec fn opt_window(o: Option<TimeWindow>) -> Seq<TimeWindow> {
    match o {
        Some(w) => seq![w],
        None => Seq::empty(),
    }
}

pub open spec fn windows_row(ct: TimeWindow, pts: Seq<TimeWindow>, fwd: int, cdur: int, ldur: int, thr: int) -> Seq<TimeWindow>
    decreases pts.len(),
{
    if pts.len() == 0 {
        Seq::empty()
    } else {
        windows_row(ct, pts.drop_last(), fwd, cdur, ldur, thr) + opt_window(new_window(ct, pts.last(), fwd, cdur, ldur, thr))
    }
}

/// The new cluster windows, cluster window by cluster window.
pub open spec fn windows_all(cts: Seq<TimeWindow>, pts: Seq<TimeWindow>, fwd: int, cdur: int, ldur: int, thr: int) -> Seq<
    TimeWindow,
>
    decreases cts.len(),
{
    if cts.len() == 0 {
        Seq::empty()
    } else {
        windows_all(cts.drop_last(), pts, fwd, cdur, ldur, thr) + windows_row(cts.last(), pts, fwd, cdur, ldur, thr)
    }
}

fn new_window_of(ct: &TimeWindow, pt: &TimeWindow, fwd: i64, cdur: i64, ldur: i128, thr: i64) -> (r: Option<TimeWindow>)
    requires
        -0x1_0000_0000_0000_0000 <= ldur <= 0x1_0000_0000_0000_0000,
    ensures
        r == new_window(*ct, *pt, fwd as int, cdur as int, ldur as int, thr as int),
{
    let shifted: i128 = pt.start as i128 - fwd as i128;
    let s: i128 = if shifted >= ct.start as i128 { shifted } else { ct.start as i128 };
    let e: i128 = if pt.end <= ct.end { pt.end as i128 } else { ct.end as i128 };
    if s < e {
        let dur: i128 = if pt.end < ct.end { cdur as i128 } else { ldur };
        let e2: i128 = e - dur - fwd as i128;
        if e2 <= s || e2 - s < thr as i128 || e2 < i64::MIN as i128 || e2 > i64::MAX as i128 {
            None
        } else {
            Some(TimeWindow { start: s as i64, end: e2 as i64 })
        }
    } else {
        None
    }
}

/// Computes the new cluster windows from the cluster's windows and the place's.
pub fn new_cluster_times(
    cts: &Vec<TimeWindow>,
    pts: &Vec<TimeWindow>,
    fwd: i64,
    cdur: i64,
    ldur: i128,
    thr: i64,
) -> (r: Vec<TimeWindow>)
    requires
        -0x1_0000_0000_0000_0000 <= ldur <= 0x1_0000_0000_0000_0000,
    ensures
        r@ == windows_all(cts@, pts@, fwd as int, cdur as int, ldur as int, thr as int),
        forall|k: int| 0 <= k < r@.len() ==> (#[trigger] r@[k]).start < r@[k].end,
{
    let mut r: Vec<TimeWindow> = Vec::new();
    let mut i: usize = 0;
    while i < cts.len()
        invariant
            -0x1_0000_0000_0000_0000 <= ldur <= 0x1_0000_0000_0000_0000,
            i <= cts@.len(),
            r@ == windows_all(cts@.subrange(0, i as int), pts@, fwd as int, cdur as int, ldur as int, thr as int),
            forall|k: int| 0 <= k < r@.len() ==> (#[trigger] r@[k]).start < r@[k].end,
        decreases cts@.len() - i,
    {
        let ghost base = r@;
        let mut j: usize = 0;
        while j < pts.len()
            invariant
                -0x1_0000_0000_0000_0000 <= ldur <= 0x1_0000_0000_0000_0000,
                i < cts@.len(),
                j <= pts@.len(),
                r@ == base + windows_row(cts@[i as int], pts@.subrange(0, j as int), fwd as int, cdur as int, ldur as int, thr as int),
                forall|k: int| 0 <= k < r@.len() ==> (#[trigger] r@[k]).start < r@[k].end,
            decreases pts@.len() - j,
        {
            let ghost before = r@;
            assert(pts@.subrange(0, j as int + 1).drop_last() == pts@.subrange(0, j as int));
            match new_window_of(&cts[i], &pts[j], fwd, cdur, ldur, thr) {
                Some(w) => {
                    r.push(w);
                    assert(r@ == before + seq![w]);
                },
                None => {
                    assert(r@ == before + Seq::<TimeWindow>::empty());
                },
            }
            j = j + 1;
        }
        assert(pts@.subrange(0, pts@.len() as int) == pts@);
        assert(cts@.subrange(0, i as int + 1).drop_last() == cts@.subrange(0, i as int));
        i = i + 1;
    }
    assert(cts@.subrange(0, cts@.len() as int) == cts@);
    r
}

/// Creates a job with one place.
pub fn create_single_job(location: Option<usize>, duration: i64, times: &Vec<TimeWindow>, dimens: &Dimensions) -> (r: Job)
    ensures
        r.places@.len() == 1,
        r.places@[0].location == location,
        r.places@[0].duration == duration,
        concrete_windows(r.places@[0].times@) == times@,
        r.places@[0].times@.len() == times@.len(),
        forall|i: int| 0 <= i < times@.len() ==> r.places@[0].times@[i] == TimeSpan::Window(times@[i]),
        same_dimens(r.dimens, *dimens),
{
    let mut places: Vec<Place> = Vec::new();
    places.push(Place { location, duration, times: windows_to_spans(times) });
    Job { places, dimens: dimens.copy() }
}

/// Appends a visit record to the cluster's records.
pub fn with_cluster_dimension(cluster: Job, visit_info: ClusterInfo) -> (r: Job)
    ensures
        r.places == cluster.places,
        r.dimens.id == cluster.dimens.id,
        r.dimens.group == cluster.dimens.group,
        r.dimens.skills == cluster.dimens.skills,
        r.dimens.cluster.is_some(),
        cluster_infos(r.dimens) == cluster_infos(cluster.dimens).push(visit_info),
{
    let Job { places, dimens } = cluster;
    let Dimensions { id, skills, group, cluster: infos } = dimens;
    let mut list: Vec<ClusterInfo> = match infos {
        Some(v) => v,
        None => Vec::new(),
    };
    list.push(visit_info);
    Job { places, dimens: Dimensions { id, skills, group, cluster: Some(list) } }
}

/// The movements to and from the place `place_idx` of a job as seen from the
/// center's place `center_place_idx`: the first record that matches both.
pub open spec fn return_movement_spec(s: Seq<DissimilarityInfo>, center_place_idx: usize, place_idx: usize) -> Option<
    (Movement, Movement),
>
    decreases s.len(),
{
    if s.len() == 0 {
        None
    } else if s[0].outer_place_idx == center_place_idx && s[0].info.place_idx == place_idx {
        Some((s[0].info.forward, s[0].info.backward))
    } else {
        return_movement_spec(s.drop_first(), center_place_idx, place_idx)
    }
}

/// Finds the movements to and from a candidate's place as seen from the center.
pub fn return_movement(center_infos: &Vec<DissimilarityInfo>, center_place_idx: usize, place_idx: usize) -> (r: Option<
    (Movement, Movement),
>)
    ensures
        r == return_movement_spec(center_infos@, center_place_idx, place_idx),
{
    let mut i: usize = 0;
    assert(center_infos@.subrange(0, center_infos@.len() as int) == center_infos@);
    while i < center_infos.len()
        invariant
            i <= center_infos@.len(),
            return_movement_spec(center_infos@, center_place_idx, place_idx) == return_movement_spec(
                center_infos@.subrange(i as int, center_infos@.len() as int),
                center_place_idx,
                place_idx,
            ),
        decreases center_infos@.len() - i,
    {
        let ghost rest = center_infos@.subrange(i as int, center_infos@.len() as int);
        assert(rest.drop_first() == center_infos@.subrange(i as int + 1, center_infos@.len() as int));
        let d = &center_infos[i];
        if d.outer_place_idx == center_place_idx && d.info.place_idx == place_idx {
            return Some((d.info.forward, d.info.backward));
        }
        i = i + 1;
    }
    assert(center_infos@.subrange(i as int, center_infos@.len() as int).len() == 0);
    None
}

/// The time that a visit adds to the cluster's travel.
pub open spec fn movement_spec(visiting: VisitPolicy, info: ClusterInfo) -> int {
    match visiting {
        VisitPolicy::Return => info.forward.duration + info.backward.duration,
        _ => info.forward.duration as int,
    }
}

/// The duration that the last visit of a cluster contributes: the first place's
/// duration of the last visited job, plus the way back under `Return`; the
/// cluster place's own duration when there is no visit or no such place.
pub open spec fn last_duration_spec(cluster: Job, jobs: Seq<Job>, visiting: VisitPolicy) -> int {
    let infos = cluster_infos(cluster.dimens);
    if infos.len() > 0 && infos.last().job < jobs.len() && jobs[infos.last().job as int].places@.len() > 0 {
        jobs[infos.last().job as int].places@[0].duration + match visiting {
            VisitPolicy::Return => infos.last().backward.duration as int,
            _ => 0,
        }
    } else {
        cluster.places@[0].duration as int
    }
}

fn last_duration(cluster: &Job, jobs: &Vec<Job>, visiting: &VisitPolicy) -> (r: i128)
    requires
        cluster.places@.len() > 0,
    ensures
        r == last_duration_spec(*cluster, jobs@, *visiting),
        -0x1_0000_0000_0000_0000 <= r <= 0x1_0000_0000_0000_0000,
{
    let fallback = cluster.places[0].duration as i128;
    match &cluster.dimens.cluster {
        Some(infos) => {
            if infos.len() > 0 {
                let last = infos[infos.len() - 1];
                if last.job < jobs.len() && jobs[last.job].places.len() > 0 {
                    let d = jobs[last.job].places[0].duration as i128;
                    match visiting {
                        VisitPolicy::Return => d + last.backward.duration as i128,
                        _ => d,
                    }
                } else {
                    fallback
                }
            } else {
                fallback
            }
        },
        None => fallback,
    }
}

/// A committed addition of `info` to `cluster`, giving `job`.
pub open spec fn addition_spec(
    pipeline: ConstraintPipeline,
    cluster: Job,
    jobs: Seq<Job>,
    cand_job: Job,
    info: ClusterInfo,
    c: ClusterConfig,
    job: Job,
) -> bool {
    let cplace = cluster.places@[0];
    let place = cand_job.places@[info.place_idx as int];
    let times = windows_all(
        concrete_windows(cplace.times@),
        concrete_windows(place.times@),
        info.forward.duration as int,
        cplace.duration as int,
        last_duration_spec(cluster, jobs, c.visiting),
        smallest_window_spec(c),
    );
    &&& info.place_idx < cand_job.places@.len()
    &&& times.len() > 0
    &&& job.places@.len() == 1
    &&& job.places@[0].location == cplace.location
    &&& job.places@[0].duration == cplace.duration + movement_spec(c.visiting, info) + info.service_time
    &&& concrete_windows(job.places@[0].times@) == times
    &&& same_dimens(job.dimens, cluster.dimens)
}

pub open spec fn smallest_window_spec(c: ClusterConfig) -> int {
    match c.smallest_time_window {
        Some(t) => t as int,
        None => 0,
    }
}

/// The insertion check accepted the job.
pub open spec fn passes_check<C: Fn(&Job) -> Result<(), ViolationCode>>(check_insertion: &C, job: Job) -> bool {
    exists|res: Result<(), ViolationCode>| #[trigger] check_insertion.ensures((&job,), res) && res is Ok
}

/// `d` is one of the records `s` and starts from the place `place_idx`.
pub open spec fn in_records(d: DissimilarityInfo, s: Seq<DissimilarityInfo>, place_idx: usize) -> bool {
    d.outer_place_idx == place_idx && exists|k: int| 0 <= k < s.len() && s[k] == d
}

/// The visit that record `d` offers for the candidate `cand`: the movements
/// are the record's own, or under `Return` those from the center's place, which
/// must be found.
pub open spec fn visit_of(
    d: DissimilarityInfo,
    cand: usize,
    visiting: VisitPolicy,
    center_infos: Seq<DissimilarityInfo>,
    center_place_idx: usize,
) -> Option<ClusterInfo> {
    match visiting {
        VisitPolicy::Return => match return_movement_spec(center_infos, center_place_idx, d.info.place_idx) {
            Some((forward, backward)) => Some(
                ClusterInfo { job: cand, service_time: d.info.service_time, place_idx: d.info.place_idx, forward, backward },
            ),
            None => None,
        },
        _ => Some(
            ClusterInfo {
                job: cand,
                service_time: d.info.service_time,
                place_idx: d.info.place_idx,
                forward: d.info.forward,
                backward: d.info.backward,
            },
        ),
    }
}

/// The insertion check refused the job.
pub open spec fn fails_check<C: Fn(&Job) -> Result<(), ViolationCode>>(check_insertion: &C, job: Job) -> bool {
    exists|res: Result<(), ViolationCode>| #[trigger] check_insertion.ensures((&job,), res) && res is Err
}

/// Why record `d` gives no addition: no visit, a place that the candidate does
/// not have, no time window left, a duration beyond `i64`, a merge refused by
/// the pipeline, or an insertion check refused.
pub open spec fn record_fails<C: Fn(&Job) -> Result<(), ViolationCode>>(
    d: DissimilarityInfo,
    pipeline: ConstraintPipeline,
    cluster: Job,
    jobs: Seq<Job>,
    cand: usize,
    center_infos: Seq<DissimilarityInfo>,
    center_place_idx: usize,
    c: ClusterConfig,
    check_insertion: &C,
) -> bool {
    match visit_of(d, cand, c.visiting, center_infos, center_place_idx) {
        None => true,
        Some(info) => {
            let cand_job = jobs[cand as int];
            let cplace = cluster.places@[0];
            ||| info.place_idx >= cand_job.places@.len()
            ||| addition_times(cluster, jobs, cand_job, info, c).len() == 0
            ||| !fits_i64(cplace.duration + movement_spec(c.visiting, info) + info.service_time)
            ||| merge_check(pipeline.features@, cluster, cand_job).is_some()
            ||| exists|job: Job| addition_spec(pipeline, cluster, jobs, cand_job, info, c, job) && #[trigger] fails_check(
                check_insertion,
                job,
            )
        },
    }
}

/// The cluster windows that adding `info` leaves.
pub open spec fn addition_times(cluster: Job, jobs: Seq<Job>, cand_job: Job, info: ClusterInfo, c: ClusterConfig) -> Seq<
    TimeWindow,
> {
    let cplace = cluster.places@[0];
    let place = cand_job.places@[info.place_idx as int];
    windows_all(
        concrete_windows(cplace.times@),
        concrete_windows(place.times@),
        info.forward.duration as int,
        cplace.duration as int,
        last_duration_spec(cluster, jobs, c.visiting),
        smallest_window_spec(c),
    )
}

/// `k` is one of the indices in `pool`.
pub open spec fn in_pool(pool: Seq<usize>, k: int) -> bool {
    exists|w: int| 0 <= w < pool.len() && pool[w] as int == k
}

/// `ks` holds the `ordering_local` key of each record that starts from the
/// place `place_idx`.
pub open spec fn keys_of<L: Fn(&ClusterInfo) -> i64>(
    ordering_local: &L,
    infos: Seq<DissimilarityInfo>,
    place_idx: usize,
    ks: Seq<i64>,
) -> bool {
    &&& ks.len() == infos.len()
    &&& forall|k: int|
        0 <= k < infos.len() && (#[trigger] infos[k]).outer_place_idx == place_idx ==> ordering_local.ensures(
            (&infos[k].info,),
            ks[k],
        )
}

/// Tries to add the candidate `cand` to the cluster. Its records as seen from
/// the last visited place are tried by increasing `ordering_local` key, the
/// first of equal keys first; the first that leaves a time window, passes the
/// pipeline's merge and the insertion check is kept.
pub fn try_add_job<L, C>(
    pipeline: &ConstraintPipeline,
    jobs: &Vec<Job>,
    last_place_idx: usize,
    center_place_idx: usize,
    cluster: &Job,
    cand: usize,
    cand_infos: &Vec<DissimilarityInfo>,
    center_infos: &Vec<DissimilarityInfo>,
    config: &ClusterConfig,
    ordering_local: &L,
    check_insertion: &C,
) -> (r: Option<(Job, ClusterInfo)>)
    where
        L: Fn(&ClusterInfo) -> i64,
        C: Fn(&Job) -> Result<(), ViolationCode>,
    requires
        cand < jobs@.len(),
        cluster.places@.len() == 1,
        forall|x: &ClusterInfo| ordering_local.requires((x,)),
        forall|x: &Job| check_insertion.requires((x,)),
    ensures
        r.is_some() ==> {
            let (job, info) = r.unwrap();
            &&& exists|k: int|
                0 <= k < cand_infos@.len() && (#[trigger] cand_infos@[k]).outer_place_idx == last_place_idx && visit_of(
                    cand_infos@[k],
                    cand,
                    config.visiting,
                    center_infos@,
                    center_place_idx,
                ) == Some(info)
            &&& addition_spec(*pipeline, *cluster, jobs@, jobs@[cand as int], info, *config, job)
            &&& merge_check(pipeline.features@, *cluster, jobs@[cand as int]).is_none()
            &&& passes_check(check_insertion, job)
            &&& exists|k0: int, ks: Seq<i64>|
                #[trigger] keys_of(ordering_local, cand_infos@, last_place_idx, ks) && 0 <= k0 < cand_infos@.len()
                    && (#[trigger] cand_infos@[k0]).outer_place_idx == last_place_idx && visit_of(
                    cand_infos@[k0],
                    cand,
                    config.visiting,
                    center_infos@,
                    center_place_idx,
                ) == Some(info) && forall|k: int|
                    0 <= k < cand_infos@.len() && (#[trigger] cand_infos@[k]).outer_place_idx == last_place_idx && (ks[k]
                        < ks[k0] || ks[k] == ks[k0] && k < k0) ==> record_fails(
                        cand_infos@[k],
                        *pipeline,
                        *cluster,
                        jobs@,
                        cand,
                        center_infos@,
                        center_place_idx,
                        *config,
                        check_insertion,
                    )
        },
        r.is_none() ==> forall|k: int|
            0 <= k < cand_infos@.len() && (#[trigger] cand_infos@[k]).outer_place_idx == last_place_idx ==> record_fails(
                cand_infos@[k],
                *pipeline,
                *cluster,
                jobs@,
                cand,
                center_infos@,
                center_place_idx,
                *config,
                check_insertion,
            ),
{
    let cand_job = &jobs[cand];
    let cluster_place = &cluster.places[0];
    let cluster_times = filter_times(&cluster_place.times);
    let ldur = last_duration(cluster, jobs, &config.visiting);
    let thr: i64 = match config.smallest_time_window {
        Some(t) => t,
        None => 0,
    };
    let ghost fails = |d: DissimilarityInfo|
        record_fails(d, *pipeline, *cluster, jobs@, cand, center_infos@, center_place_idx, *config, check_insertion);

    // the indices of the records that start from the last visited place, with their keys
    let mut pool: Vec<usize> = Vec::new();
    let mut keys: Vec<i64> = Vec::new();
    let ghost mut ks: Seq<i64> = Seq::empty();
    let mut i: usize = 0;
    while i < cand_infos.len()
        invariant
            i <= cand_infos@.len(),
            ks.len() == i,
            pool@.len() == keys@.len(),
            forall|x: int| 0 <= x < pool@.len() ==> (#[trigger] pool@[x]) < i && cand_infos@[pool@[x] as int].outer_place_idx
                == last_place_idx && keys@[x] == ks[pool@[x] as int],
            forall|x: int, y: int| 0 <= x < y < pool@.len() ==> (#[trigger] pool@[x]) < (#[trigger] pool@[y]),
            forall|k: int|
                0 <= k < i && (#[trigger] cand_infos@[k]).outer_place_idx == last_place_idx ==> in_pool(pool@, k)
                    && ordering_local.ensures((&cand_infos@[k].info,), ks[k]),
            forall|x: &ClusterInfo| ordering_local.requires((x,)),
        decreases cand_infos@.len() - i,
    {
        if cand_infos[i].outer_place_idx == last_place_idx {
            let key = ordering_local(&cand_infos[i].info);
            let ghost before = pool@;
            pool.push(i);
            keys.push(key);
            proof {
                ks = ks.push(key);
            }
            assert forall|k: int|
                0 <= k < i + 1 && (#[trigger] cand_infos@[k]).outer_place_idx == last_place_idx implies in_pool(pool@, k)
                    && ordering_local.ensures((&cand_infos@[k].info,), ks[k]) by {
                if k < i {
                    let w = choose|w: int| 0 <= w < before.len() && before[w] as int == k;
                    assert(pool@[w] == before[w]);
                } else {
                    assert(pool@[before.len() as int] as int == k);
                }
            }
        } else {
            proof {
                ks = ks.push(0);
            }
        }
        i = i + 1;
    }

    while pool.len() > 0
        invariant
            pool@.len() == keys@.len(),
            ks.len() == cand_infos@.len(),
            cand < jobs@.len(),
            *cand_job == jobs@[cand as int],
            cluster.places@.len() == 1,
            *cluster_place == cluster.places@[0],
            cluster_times@ == concrete_windows(cluster_place.times@),
            ldur == last_duration_spec(*cluster, jobs@, config.visiting),
            -0x1_0000_0000_0000_0000 <= ldur <= 0x1_0000_0000_0000_0000,
            thr == smallest_window_spec(*config),
            forall|x: int| 0 <= x < pool@.len() ==> (#[trigger] pool@[x]) < cand_infos@.len() && cand_infos@[pool@[x] as int].outer_place_idx
                == last_place_idx && keys@[x] == ks[pool@[x] as int],
            forall|x: int, y: int| 0 <= x < y < pool@.len() ==> (#[trigger] pool@[x]) < (#[trigger] pool@[y]),
            forall|k: int|
                0 <= k < cand_infos@.len() && (#[trigger] cand_infos@[k]).outer_place_idx == last_place_idx ==> ordering_local.ensures(
                    (&cand_infos@[k].info,),
                    ks[k],
                ),
            forall|k: int|
                0 <= k < cand_infos@.len() && (#[trigger] cand_infos@[k]).outer_place_idx == last_place_idx ==> in_pool(pool@, k) || fails(cand_infos@[k]),
            fails == (|d: DissimilarityInfo|
                record_fails(d, *pipeline, *cluster, jobs@, cand, center_infos@, center_place_idx, *config, check_insertion)),
            forall|x: &Job| check_insertion.requires((x,)),
        decreases pool@.len(),
    {
        // the first record of the smallest key
        let mut best: usize = 0;
        let mut j: usize = 1;
        while j < keys.len()
            invariant
                pool@.len() == keys@.len(),
                0 <= best < j,
                1 <= j <= keys@.len(),
                forall|p: int| 0 <= p < j ==> keys@[p] >= keys@[best as int],
                forall|p: int| 0 <= p < best ==> keys@[p] > keys@[best as int],
            decreases keys@.len() - j,
        {
            if keys[j] < keys[best] {
                best = j;
            }
            j = j + 1;
        }
        let ghost old_pool = pool@;
        let ghost old_keys = keys@;
        let idx = pool.remove(best);
        keys.remove(best);
        let d = cand_infos[idx];
        assert(old_pool[best as int] == idx);
        proof {
            assert forall|x: int| 0 <= x < pool@.len() implies (#[trigger] pool@[x]) < cand_infos@.len()
                && cand_infos@[pool@[x] as int].outer_place_idx == last_place_idx && keys@[x] == ks[pool@[x] as int] by {
                if x < best { assert(pool@[x] == old_pool[x]); assert(keys@[x] == old_keys[x]); }
                else { assert(pool@[x] == old_pool[x + 1]); assert(keys@[x] == old_keys[x + 1]); }
            }
            assert forall|x: int, y: int| 0 <= x < y < pool@.len() implies (#[trigger] pool@[x]) < (#[trigger] pool@[y]) by {
                let ox = if x < best { x } else { x + 1 };
                let oy = if y < best { y } else { y + 1 };
                assert(pool@[x] == old_pool[ox]);
                assert(pool@[y] == old_pool[oy]);
            }
            // every record tried before comes earlier in the order
            assert forall|k: int|
                0 <= k < cand_infos@.len() && (#[trigger] cand_infos@[k]).outer_place_idx == last_place_idx && (ks[k]
                    < ks[idx as int] || ks[k] == ks[idx as int] && k < idx) implies fails(cand_infos@[k]) by {
                if in_pool(old_pool, k) {
                    let w = choose|w: int| 0 <= w < old_pool.len() && old_pool[w] as int == k;
                    assert(old_keys[w] == ks[k]);
                    assert(old_keys[best as int] == ks[idx as int]);
                    assert(old_keys[w] >= old_keys[best as int]);
                    if w < best {
                        assert(old_keys[w] > old_keys[best as int]);
                    } else if w > best {
                        assert(old_pool[best as int] < old_pool[w]);
                    }
                }
            }
        }
        let ghost visit = visit_of(d, cand, config.visiting, center_infos@, center_place_idx);
        if d.info.place_idx < cand_job.places.len() {
            let place = &cand_job.places[d.info.place_idx];
            let moves = match config.visiting {
                VisitPolicy::Return => return_movement(center_infos, center_place_idx, d.info.place_idx),
                _ => Some((d.info.forward, d.info.backward)),
            };
            match moves {
                Some((forward, backward)) => {
                    let info = ClusterInfo {
                        job: cand,
                        service_time: d.info.service_time,
                        place_idx: d.info.place_idx,
                        forward,
                        backward,
                    };
                    assert(visit == Some(info));
                    let place_times = filter_times(&place.times);
                    let times = new_cluster_times(&cluster_times, &place_times, forward.duration, cluster_place.duration, ldur, thr);
                    assert(times@ == addition_times(*cluster, jobs@, *cand_job, info, *config));
                    if times.len() > 0 {
                        let movement: i128 = match config.visiting {
                            VisitPolicy::Return => forward.duration as i128 + backward.duration as i128,
                            _ => forward.duration as i128,
                        };
                        let total: i128 = cluster_place.duration as i128 + movement + info.service_time as i128;
                        if i64::MIN as i128 <= total && total <= i64::MAX as i128 {
                            let new_duration = total as i64;
                            let updated_cluster = create_single_job(cluster_place.location, new_duration, &times, &cluster.dimens);
                            let updated_candidate = create_single_job(place.location, new_duration, &times, &cand_job.dimens);
                            proof {
                                crate::pipeline::lemma_merge_deterministic(
                                    pipeline.features@,
                                    updated_cluster,
                                    updated_candidate,
                                    *cluster,
                                    *cand_job,
                                );
                            }
                            match pipeline.merge(updated_cluster, updated_candidate) {
                                Ok(merged) => {
                                    assert(addition_spec(*pipeline, *cluster, jobs@, *cand_job, info, *config, merged));
                                    let checked = check_insertion(&merged);
                                    if checked.is_ok() {
                                        assert(keys_of(ordering_local, cand_infos@, last_place_idx, ks));
                                        assert(cand_infos@[idx as int] == d);
                                        return Some((merged, info));
                                    }
                                    assert(fails_check(check_insertion, merged));
                                    assert(fails(d));
                                },
                                Err(_) => {
                                    assert(fails(d));
                                },
                            }
                        } else {
                            assert(fails(d));
                        }
                    } else {
                        assert(fails(d));
                    }
                },
                None => {
                    assert(visit.is_none());
                    assert(fails(d));
                },
            }
        } else {
            assert(fails(d));
        }
        assert forall|k: int|
            0 <= k < cand_infos@.len() && (#[trigger] cand_infos@[k]).outer_place_idx == last_place_idx implies in_pool(pool@, k) || fails(cand_infos@[k]) by {
            if k != idx && in_pool(old_pool, k) {
                let w = choose|w: int| 0 <= w < old_pool.len() && old_pool[w] as int == k;
                assert(w != best);
                if w < best {
                    assert(pool@[w] == old_pool[w]);
                } else {
                    assert(pool@[w - 1] == old_pool[w]);
                }
            }
        }
    }
    None
}

/// The seed duration of a finished cluster: under `ClosedContinuation` the way
/// back from the last visit to the center is added (saturated to `i64`).
pub open spec fn finished_duration(cluster: Job, c: ClusterConfig, back: Option<(Movement, Movement)>) -> i64 {
    match (c.visiting, back) {
        (VisitPolicy::ClosedContinuation, Some((_, b))) => clamp_i64(cluster.places@[0].duration + b.duration),
        _ => cluster.places@[0].duration,
    }
}

/// Finishes a cluster: under `ClosedContinuation` its place's duration takes in
/// the way back from the last visit to the center, as `center_infos` (the
/// center's records of the last visited job) give it.
pub fn finish_cluster(cluster: Job, config: &ClusterConfig, center_infos: &Vec<DissimilarityInfo>, center_place_idx: usize) -> (r: Job)
    requires
        cluster.places@.len() == 1,
        cluster_infos(cluster.dimens).len() > 0,
    ensures
        r.dimens == cluster.dimens,
        r.places@.len() == 1,
        r.places@[0].location == cluster.places@[0].location,
        r.places@[0].times == cluster.places@[0].times,
        r.places@[0].duration == finished_duration(
            cluster,
            *config,
            return_movement_spec(center_infos@, center_place_idx, cluster_infos(cluster.dimens).last().place_idx),
        ),
{
    match config.visiting {
        VisitPolicy::ClosedContinuation => {
            let last_place = match &cluster.dimens.cluster {
                Some(infos) => infos[infos.len() - 1].place_idx,
                None => 0,
            };
            match return_movement(center_infos, center_place_idx, last_place) {
                Some((_, back)) => {
                    let Job { mut places, dimens } = cluster;
                    let Place { location, duration, times } = places.remove(0);
                    let total: i128 = duration as i128 + back.duration as i128;
                    let new_duration: i64 = if total > i64::MAX as i128 {
                        i64::MAX
                    } else if total < i64::MIN as i128 {
                        i64::MIN
                    } else {
                        total as i64
                    };
                    let mut new_places: Vec<Place> = Vec::new();
                    new_places.push(Place { location, duration: new_duration, times });
                    Job { places: new_places, dimens }
                },
                None => cluster,
            }
        },
        _ => cluster,
    }
}

/// A cluster that opens with the center's record at one of its places, and
/// stands at that place's location.
pub open spec fn starts_at_center(job: Job, center_job: Job, center: usize) -> bool {
    let first = cluster_infos(job.dimens)[0];
    &&& cluster_infos(job.dimens).len() >= 1
    &&& first.place_idx < center_job.places@.len()
    &&& first == center_record(center, center_job.places@[first.place_idx as int].duration, first.place_idx)
    &&& job.places@.len() == 1
    &&& job.places@[0].location == center_job.places@[first.place_idx as int].location
}

/// The insertion check accepted the job that the cluster's last addition made:
/// that job had the cluster's place (but for the way back that finishing adds
/// under `ClosedContinuation`) and all its visits but the last.
pub open spec fn last_addition_checked<C: Fn(&Job) -> Result<(), ViolationCode>>(
    check_insertion: &C,
    cluster: Job,
    visiting: VisitPolicy,
) -> bool {
    exists|j: Job|
        #[trigger] passes_check(check_insertion, j) && j.places@.len() == 1 && cluster.places@.len() == 1
            && j.places@[0].location == cluster.places@[0].location && j.places@[0].times == cluster.places@[0].times
            && (visiting != VisitPolicy::ClosedContinuation ==> j.places@[0].duration == cluster.places@[0].duration)
            && cluster_infos(j.dimens) == cluster_infos(cluster.dimens).drop_last()
}

/// The jobs visited by a cluster, in order, each once: the first is the center,
/// none is used already, and each is one of the `n` jobs.
pub open spec fn members_ok(infos: Seq<ClusterInfo>, center: usize, used: Set<usize>, n: int) -> bool {
    &&& infos.len() >= 1
    &&& infos[0].job == center
    &&& forall|i: int| 0 <= i < infos.len() ==> (#[trigger] infos[i]).job < n && !used.contains(infos[i].job)
    &&& forall|i: int, j: int| 0 <= i < j < infos.len() ==> (#[trigger] infos[i]).job != (#[trigger] infos[j]).job
}

/// A cluster built around `center`: at least two visits, as `members_ok` says.
pub open spec fn cluster_ok(job: Job, center: usize, used: Set<usize>, n: int) -> bool {
    &&& members_ok(cluster_infos(job.dimens), center, used, n)
    &&& cluster_infos(job.dimens).len() >= 2
    &&& job.places@.len() == 1
}

/// The estimates hold one list of records for each ordered pair of the `n` jobs.
pub open spec fn estimates_shape(e: Seq<Vec<Vec<DissimilarityInfo>>>, n: int) -> bool {
    &&& e.len() == n
    &&& forall|o: int| 0 <= o < n ==> (#[trigger] e[o])@.len() == n
}

pub open spec fn visited(infos: Seq<ClusterInfo>, x: usize) -> bool {
    exists|i: int| 0 <= i < infos.len() && (#[trigger] infos[i]).job == x
}

/// Tells whether one of the records is reachable.
pub fn any_reachable(infos: &Vec<DissimilarityInfo>) -> (r: bool)
    ensures
        r == exists|k: int| 0 <= k < infos@.len() && (#[trigger] infos@[k]).reachable,
{
    let mut i: usize = 0;
    while i < infos.len()
        invariant
            i <= infos@.len(),
            forall|k: int| 0 <= k < i ==> !(#[trigger] infos@[k]).reachable,
        decreases infos@.len() - i,
    {
        if infos[i].reachable {
            return true;
        }
        i = i + 1;
    }
    false
}

/// The number of visits recorded in a cluster.
pub fn cluster_size(job: &Job) -> (r: usize)
    ensures
        r == cluster_infos(job.dimens).len(),
{
    match &job.dimens.cluster {
        Some(v) => v.len(),
        None => 0,
    }
}

/// The candidates that a center starts with: the jobs not used yet, other than
/// the center, with a reachable record as seen from the center.
pub fn initial_candidates(center: usize, center_row: &Vec<Vec<DissimilarityInfo>>, used: &JobSet) -> (r: JobSet)
    ensures
        job_set_items(r).finite(),
        forall|x: usize| #[trigger] job_set_items(r).contains(x) <==> x < center_row@.len() && x != center
            && !job_set_items(*used).contains(x) && exists|k: int|
            0 <= k < center_row@[x as int]@.len() && (#[trigger] center_row@[x as int]@[k]).reachable,
{
    let mut r = JobSet::new();
    let mut c: usize = 0;
    while c < center_row.len()
        invariant
            c <= center_row@.len(),
            job_set_items(r).finite(),
            forall|x: usize| #[trigger] job_set_items(r).contains(x) <==> x < c && x != center
                && !job_set_items(*used).contains(x) && exists|k: int|
                0 <= k < center_row@[x as int]@.len() && (#[trigger] center_row@[x as int]@[k]).reachable,
        decreases center_row@.len() - c,
    {
        if c != center && !used.contains(c) && any_reachable(&center_row[c]) {
            r.insert(c);
        }
        c = c + 1;
    }
    r
}

/// The smallest `ordering_local` key among the records that start from the
/// place `place_idx`, if there is one.
fn best_key<L>(infos: &Vec<DissimilarityInfo>, place_idx: usize, ordering_local: &L) -> (r: Option<i64>)
    where
        L: Fn(&ClusterInfo) -> i64,
    requires
        forall|x: &ClusterInfo| ordering_local.requires((x,)),
    ensures
        r.is_some() == exists|k: int| 0 <= k < infos@.len() && (#[trigger] infos@[k]).outer_place_idx == place_idx,
{
    let mut best: Option<i64> = None;
    let mut i: usize = 0;
    while i < infos.len()
        invariant
            i <= infos@.len(),
            best.is_some() == exists|k: int| 0 <= k < i && (#[trigger] infos@[k]).outer_place_idx == place_idx,
            forall|x: &ClusterInfo| ordering_local.requires((x,)),
        decreases infos@.len() - i,
    {
        if infos[i].outer_place_idx == place_idx {
            let key = ordering_local(&infos[i].info);
            best = match best {
                Some(b) => if key < b { Some(key) } else { Some(b) },
                None => Some(key),
            };
        }
        i = i + 1;
    }
    best
}

/// The record that opens a cluster: the center at its place `pi`, serving for
/// the place's duration, with no movement.
pub open spec fn center_record(center: usize, duration: i64, pi: usize) -> ClusterInfo {
    ClusterInfo {
        job: center,
        service_time: duration,
        place_idx: pi,
        forward: Movement { distance: 0, duration: 0 },
        backward: Movement { distance: 0, duration: 0 },
    }
}

/// The seed of a cluster grown from the place `pi` of the center: that place's
/// location, duration and windows, the center's attributes, and the center's
/// record alone.
pub open spec fn seed_ok(job: Job, center_job: Job, center: usize, pi: usize) -> bool {
    let place = center_job.places@[pi as int];
    &&& job.places@.len() == 1
    &&& job.places@[0].location == place.location
    &&& job.places@[0].duration == place.duration
    &&& concrete_windows(job.places@[0].times@) == concrete_windows(place.times@)
    &&& job.dimens.id == center_job.dimens.id
    &&& job.dimens.group == center_job.dimens.group
    &&& opt_skills_view(job.dimens.skills) == opt_skills_view(center_job.dimens.skills)
    &&& cluster_infos(job.dimens) == seq![center_record(center, place.duration, pi)]
}

/// `x` is a candidate of the center at the start: another job, not used, with
/// a reachable record as seen from the center.
pub open spec fn init_candidate(e: Seq<Vec<Vec<DissimilarityInfo>>>, center: usize, used: Set<usize>, x: usize) -> bool {
    &&& x < e[center as int]@.len()
    &&& x != center
    &&& !used.contains(x)
    &&& exists|k: int| 0 <= k < e[center as int]@[x as int]@.len() && (#[trigger] e[center as int]@[x as int]@[k]).reachable
}

/// The job and place that the next visit starts from: the center's place under
/// `Return`, otherwise the last visit.
pub open spec fn tail_of(infos: Seq<ClusterInfo>, visiting: VisitPolicy, center: usize, pi: usize) -> (usize, usize) {
    match visiting {
        VisitPolicy::Return => (center, pi),
        _ => (infos.last().job, infos.last().place_idx),
    }
}

/// Against the cluster `c`, every record of `x` from the place that the next
/// visit starts from gives no addition.
pub open spec fn refused<C: Fn(&Job) -> Result<(), ViolationCode>>(
    pipeline: ConstraintPipeline,
    jobs: Seq<Job>,
    e: Seq<Vec<Vec<DissimilarityInfo>>>,
    center: usize,
    pi: usize,
    config: ClusterConfig,
    check_insertion: &C,
    c: Job,
    x: usize,
) -> bool {
    let (lj, lp) = tail_of(cluster_infos(c.dimens), config.visiting, center, pi);
    forall|k: int|
        0 <= k < e[lj as int]@[x as int]@.len() && (#[trigger] e[lj as int]@[x as int]@[k]).outer_place_idx == lp
            ==> record_fails(e[lj as int]@[x as int]@[k], pipeline, c, jobs, x, e[center as int]@[x as int]@, pi, config, check_insertion)
}

/// `c` is the cluster as it stood after some of the visits of `cl`.
pub open spec fn earlier_state(c: Job, cl: Job) -> bool {
    let a = cluster_infos(c.dimens);
    let b = cluster_infos(cl.dimens);
    &&& 1 <= a.len() <= b.len()
    &&& a == b.subrange(0, a.len() as int)
    &&& a.len() == b.len() ==> c == cl
    &&& c.places@.len() == 1
}

proof fn lemma_earlier_self(c: Job)
    requires
        c.places@.len() == 1,
        cluster_infos(c.dimens).len() >= 1,
    ensures
        earlier_state(c, c),
{
    let b = cluster_infos(c.dimens);
    assert(b.subrange(0, b.len() as int) == b);
}

/// The seed duration that the visits give: the center's service time, and
/// for each further visit its movement and its service time.
pub open spec fn visits_duration(infos: Seq<ClusterInfo>, visiting: VisitPolicy) -> int
    decreases infos.len(),
{
    if infos.len() == 0 {
        0
    } else if infos.len() == 1 {
        infos[0].service_time as int
    } else {
        visits_duration(infos.drop_last(), visiting) + movement_spec(visiting, infos.last()) + infos.last().service_time
    }
}

/// Each visit after the first comes from a record of its job as seen from where
/// the cluster stood before it: the previous visit's place, or the center's
/// place under `Return` (whose movements are then those from the center).
pub open spec fn chain_ok(infos: Seq<ClusterInfo>, e: Seq<Vec<Vec<DissimilarityInfo>>>, center: usize, pi: usize, visiting: VisitPolicy) -> bool {
    forall|k: int|
        1 <= k < infos.len() ==> #[trigger] visit_from_tail(infos.subrange(0, k), infos[k], e, center, pi, visiting)
}

/// `info` is offered by a record of its job from the tail of `prefix`.
pub open spec fn visit_from_tail(
    prefix: Seq<ClusterInfo>,
    info: ClusterInfo,
    e: Seq<Vec<Vec<DissimilarityInfo>>>,
    center: usize,
    pi: usize,
    visiting: VisitPolicy,
) -> bool {
    let (lj, lp) = tail_of(prefix, visiting, center, pi);
    let x = info.job;
    exists|j: int|
        0 <= j < e[lj as int]@[x as int]@.len() && (#[trigger] e[lj as int]@[x as int]@[j]).outer_place_idx == lp && visit_of(
            e[lj as int]@[x as int]@[j],
            x,
            visiting,
            e[center as int]@[x as int]@,
            pi,
        ) == Some(info)
}

/// The duration of a finished cluster: that of its visits, and under
/// `ClosedContinuation` the way back from the last visit to the center when the
/// center has a record of it (saturated to `i64`).
pub open spec fn closing_duration(infos: Seq<ClusterInfo>, e: Seq<Vec<Vec<DissimilarityInfo>>>, center: usize, pi: usize, visiting: VisitPolicy) -> int {
    let d = visits_duration(infos, visiting);
    match visiting {
        VisitPolicy::ClosedContinuation => match return_movement_spec(
            e[center as int]@[infos.last().job as int]@,
            pi,
            infos.last().place_idx,
        ) {
            Some((_, b)) => clamp_i64(d + b.duration) as int,
            None => d,
        },
        _ => d,
    }
}

/// No record of `recs` starts from the place `lp`.
pub open spec fn no_record_from(recs: Seq<DissimilarityInfo>, lp: usize) -> bool {
    forall|k: int| 0 <= k < recs.len() ==> (#[trigger] recs[k]).outer_place_idx != lp
}

/// Grows a cluster from the place `place_idx` of the center: candidates are
/// tried by the key of their best record from the last visited place, and the
/// first that can be added is added, until none can. A candidate that cannot be
/// added where it is tried is not tried again.
pub fn grow_cluster<L, C>(
    pipeline: &ConstraintPipeline,
    jobs: &Vec<Job>,
    center: usize,
    place_idx: usize,
    location: usize,
    estimates: &Vec<Vec<Vec<DissimilarityInfo>>>,
    used: &JobSet,
    config: &ClusterConfig,
    ordering_local: &L,
    check_insertion: &C,
) -> (r: Job)
    where
        L: Fn(&ClusterInfo) -> i64,
        C: Fn(&Job) -> Result<(), ViolationCode>,
    requires
        center < jobs@.len(),
        place_idx < jobs@[center as int].places@.len(),
        jobs@[center as int].places@[place_idx as int].location == Some(location),
        estimates_shape(estimates@, jobs@.len() as int),
        !job_set_items(*used).contains(center),
        forall|x: &ClusterInfo| ordering_local.requires((x,)),
        forall|x: &Job| check_insertion.requires((x,)),
    ensures
        members_ok(cluster_infos(r.dimens), center, job_set_items(*used), jobs@.len() as int),
        r.places@.len() == 1,
        r.places@[0].location == Some(location),
        cluster_infos(r.dimens)[0] == center_record(center, jobs@[center as int].places@[place_idx as int].duration, place_idx),
        forall|k: int|
            1 <= k < cluster_infos(r.dimens).len() ==> init_candidate(
                estimates@,
                center,
                job_set_items(*used),
                (#[trigger] cluster_infos(r.dimens)[k]).job,
            ),
        cluster_infos(r.dimens).len() == 1 ==> seed_ok(r, jobs@[center as int], center, place_idx),
        chain_ok(cluster_infos(r.dimens), estimates@, center, place_idx, config.visiting),
        r.places@[0].duration == visits_duration(cluster_infos(r.dimens), config.visiting),
        cluster_infos(r.dimens).len() >= 2 ==> exists|j: Job|
            #[trigger] passes_check(check_insertion, j) && j.places == r.places && cluster_infos(j.dimens)
                == cluster_infos(r.dimens).drop_last(),
        forall|x: usize|
            #[trigger] init_candidate(estimates@, center, job_set_items(*used), x) && !visited(cluster_infos(r.dimens), x)
                ==> exists|c: Job|
                earlier_state(c, r) && #[trigger] refused(
                    *pipeline,
                    jobs@,
                    estimates@,
                    center,
                    place_idx,
                    *config,
                    check_insertion,
                    c,
                    x,
                ),
{
    let ghost n = jobs@.len() as int;
    let ghost used_set = job_set_items(*used);
    let ghost e = estimates@;
    let center_job = &jobs[center];
    let place = &center_job.places[place_idx];
    let center_times = filter_times(&place.times);
    let mut seed_dimens = center_job.dimens.copy();
    seed_dimens.cluster = None;
    let seed = create_single_job(Some(location), place.duration, &center_times, &seed_dimens);
    let none = Movement { distance: 0, duration: 0 };
    let mut cluster = with_cluster_dimension(
        seed,
        ClusterInfo { job: center, service_time: place.duration, place_idx, forward: none, backward: none },
    );
    assert(cluster_infos(cluster.dimens) =~= seq![center_record(center, place.duration, place_idx)]);
    let mut cands = initial_candidates(center, &estimates[center], used);
    let mut last_job: usize = center;
    let mut last_place: usize = place_idx;

    while !cands.is_empty()
        invariant
            n == jobs@.len(),
            e == estimates@,
            used_set == job_set_items(*used),
            center < n,
            last_job < n,
            *center_job == jobs@[center as int],
            *place == center_job.places@[place_idx as int],
            estimates_shape(estimates@, n),
            cluster.places@.len() == 1,
            cluster.places@[0].location == Some(location),
            members_ok(cluster_infos(cluster.dimens), center, used_set, n),
            cluster_infos(cluster.dimens)[0] == center_record(center, place.duration, place_idx),
            (last_job, last_place) == tail_of(cluster_infos(cluster.dimens), config.visiting, center, place_idx),
            cluster_infos(cluster.dimens).len() == 1 ==> seed_ok(cluster, *center_job, center, place_idx),
            chain_ok(cluster_infos(cluster.dimens), e, center, place_idx, config.visiting),
            cluster.places@[0].duration == visits_duration(cluster_infos(cluster.dimens), config.visiting),
            forall|k: int|
                1 <= k < cluster_infos(cluster.dimens).len() ==> init_candidate(
                    e,
                    center,
                    used_set,
                    (#[trigger] cluster_infos(cluster.dimens)[k]).job,
                ),
            cluster_infos(cluster.dimens).len() >= 2 ==> exists|j: Job|
                #[trigger] passes_check(check_insertion, j) && j.places == cluster.places && cluster_infos(j.dimens)
                    == cluster_infos(cluster.dimens).drop_last(),
            job_set_items(cands).finite(),
            forall|x: usize| #[trigger] job_set_items(cands).contains(x) ==> x < n && x != center
                && !used_set.contains(x) && !visited(cluster_infos(cluster.dimens), x) && init_candidate(e, center, used_set, x),
            forall|x: usize|
                #[trigger] init_candidate(e, center, used_set, x) && !job_set_items(cands).contains(x) && !visited(
                    cluster_infos(cluster.dimens),
                    x,
                ) ==> exists|c: Job|
                    earlier_state(c, cluster) && #[trigger] refused(
                        *pipeline,
                        jobs@,
                        e,
                        center,
                        place_idx,
                        *config,
                        check_insertion,
                        c,
                        x,
                    ),
            forall|x: &ClusterInfo| ordering_local.requires((x,)),
            forall|x: &Job| check_insertion.requires((x,)),
        decreases job_set_items(cands).len(),
    {
        // the candidates with a record from the last visited place, with their keys
        let mut trial: Vec<usize> = Vec::new();
        let mut keys: Vec<i64> = Vec::new();
        let mut c: usize = 0;
        while c < jobs.len()
            invariant
                n == jobs@.len(),
                e == estimates@,
                last_job < n,
                estimates_shape(estimates@, n),
                trial@.len() == keys@.len(),
                forall|k: int| 0 <= k < trial@.len() ==> #[trigger] trial@[k] < n,
                forall|x: usize|
                    x < c && #[trigger] job_set_items(cands).contains(x) ==> trial@.contains(x) || no_record_from(
                        e[last_job as int]@[x as int]@,
                        last_place,
                    ),
                forall|x: &ClusterInfo| ordering_local.requires((x,)),
            decreases jobs@.len() - c,
        {
            if cands.contains(c) {
                let ghost before = trial@;
                match best_key(&estimates[last_job][c], last_place, ordering_local) {
                    Some(key) => {
                        trial.push(c);
                        keys.push(key);
                        assert(trial@[before.len() as int] == c);
                        assert forall|x: usize| before.contains(x) implies trial@.contains(x) by {
                            let w = choose|w: int| 0 <= w < before.len() && before[w] == x;
                            assert(trial@[w] == x);
                        }
                    },
                    None => {},
                }
            }
            c = c + 1;
        }

        let ghost size_before = job_set_items(cands).len();
        proof {
            vstd::set_lib::lemma_set_empty_equivalency_len(job_set_items(cands));
        }
        let mut addition: Option<(Job, ClusterInfo)> = None;
        while trial.len() > 0 && addition.is_none()
            invariant
                n == jobs@.len(),
                e == estimates@,
                used_set == job_set_items(*used),
                center < n,
                last_job < n,
                estimates_shape(estimates@, n),
                cluster.places@.len() == 1,
                cluster.places@[0].location == Some(location),
                (last_job, last_place) == tail_of(cluster_infos(cluster.dimens), config.visiting, center, place_idx),
                members_ok(cluster_infos(cluster.dimens), center, used_set, n),
                trial@.len() == keys@.len(),
                forall|k: int| 0 <= k < trial@.len() ==> #[trigger] trial@[k] < n,
                job_set_items(cands).finite(),
                job_set_items(cands).len() <= size_before,
                forall|x: usize| #[trigger] job_set_items(cands).contains(x) ==> x < n && x != center
                    && !used_set.contains(x) && !visited(cluster_infos(cluster.dimens), x) && init_candidate(e, center, used_set, x),
                addition.is_none() ==> forall|x: usize|
                    #[trigger] job_set_items(cands).contains(x) ==> trial@.contains(x) || no_record_from(
                        e[last_job as int]@[x as int]@,
                        last_place,
                    ),
                forall|x: usize|
                    #[trigger] init_candidate(e, center, used_set, x) && !job_set_items(cands).contains(x) && !visited(
                        cluster_infos(cluster.dimens),
                        x,
                    ) ==> exists|c: Job|
                        earlier_state(c, cluster) && #[trigger] refused(
                            *pipeline,
                            jobs@,
                            e,
                            center,
                            place_idx,
                            *config,
                            check_insertion,
                            c,
                            x,
                        ),
                addition.is_some() ==> job_set_items(cands).contains(addition.unwrap().1.job)
                    && addition.unwrap().0.places@.len() == 1
                    && cluster_infos(addition.unwrap().0.dimens) == cluster_infos(cluster.dimens)
                    && passes_check(check_insertion, addition.unwrap().0)
                    && addition.unwrap().0.places@[0].location == cluster.places@[0].location
                    && addition.unwrap().0.places@[0].duration == cluster.places@[0].duration + movement_spec(
                        config.visiting,
                        addition.unwrap().1,
                    ) + addition.unwrap().1.service_time
                    && visit_from_tail(cluster_infos(cluster.dimens), addition.unwrap().1, e, center, place_idx, config.visiting),
                cluster_infos(cluster.dimens).len() >= 2 ==> exists|j: Job|
                    #[trigger] passes_check(check_insertion, j) && j.places == cluster.places && cluster_infos(j.dimens)
                        == cluster_infos(cluster.dimens).drop_last(),
                forall|x: &ClusterInfo| ordering_local.requires((x,)),
                forall|x: &Job| check_insertion.requires((x,)),
            decreases trial@.len(),
        {
            let mut b: usize = 0;
            let mut j: usize = 1;
            while j < keys.len()
                invariant
                    trial@.len() == keys@.len(),
                    0 <= b < keys@.len(),
                    1 <= j <= keys@.len(),
                decreases keys@.len() - j,
            {
                if keys[j] < keys[b] {
                    b = j;
                }
                j = j + 1;
            }
            let ghost old_trial = trial@;
            let cand = trial.remove(b);
            keys.remove(b);
            assert(old_trial[b as int] == cand);
            assert forall|k: int| 0 <= k < trial@.len() implies #[trigger] trial@[k] < n by {
                if k < b { assert(trial@[k] == old_trial[k]); } else { assert(trial@[k] == old_trial[k + 1]); }
            }
            assert forall|x: usize| old_trial.contains(x) && x != cand implies trial@.contains(x) by {
                let w = choose|w: int| 0 <= w < old_trial.len() && old_trial[w] == x;
                if w < b { assert(trial@[w] == x); } else { assert(w != b); assert(trial@[w - 1] == x); }
            }
            if cands.contains(cand) {
                match try_add_job(
                    pipeline,
                    jobs,
                    last_place,
                    place_idx,
                    &cluster,
                    cand,
                    &estimates[last_job][cand],
                    &estimates[center][cand],
                    config,
                    ordering_local,
                    check_insertion,
                ) {
                    Some(found) => {
                        addition = Some(found);
                    },
                    None => {
                        assert(refused(*pipeline, jobs@, e, center, place_idx, *config, check_insertion, cluster, cand));
                        proof { lemma_earlier_self(cluster); }
                        cands.remove(cand);
                    },
                }
            }
        }

        match addition {
            Some((new_cluster, info)) => {
                let ghost old_cluster = cluster;
                let ghost old_cands = job_set_items(cands);
                if !matches!(config.visiting, VisitPolicy::Return) {
                    last_job = info.job;
                    last_place = info.place_idx;
                }
                let ghost before_remove = job_set_items(cands);
                cands.remove(info.job);
                proof {
                    vstd::set::axiom_set_remove_len(before_remove, info.job);
                }
                let ghost infos = cluster_infos(cluster.dimens);
                cluster = with_cluster_dimension(new_cluster, info);
                let ghost infos2 = cluster_infos(cluster.dimens);
                assert(infos2 == infos.push(info));
                assert(infos2.drop_last() == infos);
                assert(cluster_infos(new_cluster.dimens) == infos2.drop_last());
                assert(infos2[0] == infos[0]);
                assert(infos2.drop_last() == infos);
                assert forall|k: int| 1 <= k < infos2.len() implies #[trigger] visit_from_tail(
                    infos2.subrange(0, k),
                    infos2[k],
                    e,
                    center,
                    place_idx,
                    config.visiting,
                ) by {
                    if k < infos.len() {
                        assert(infos2.subrange(0, k) == infos.subrange(0, k));
                        assert(infos2[k] == infos[k]);
                    } else {
                        assert(infos2.subrange(0, k) == infos);
                    }
                }
                assert forall|i: int, j: int| 0 <= i < j < infos2.len() implies (#[trigger] infos2[i]).job != (#[trigger] infos2[j]).job by {
                    if j == infos.len() {
                        assert(infos2[i] == infos[i]);
                        if infos[i].job == info.job {
                            assert(visited(infos, info.job));
                        }
                    } else {
                        assert(infos2[i] == infos[i]);
                        assert(infos2[j] == infos[j]);
                    }
                }
                assert forall|i: int| 0 <= i < infos2.len() implies (#[trigger] infos2[i]).job < n && !used_set.contains(infos2[i].job) by {
                    if i < infos.len() {
                        assert(infos2[i] == infos[i]);
                    }
                }
                assert forall|k: int| 1 <= k < infos2.len() implies init_candidate(e, center, used_set, (#[trigger] infos2[k]).job) by {
                    if k < infos.len() {
                        assert(infos2[k] == infos[k]);
                    }
                }
                assert forall|x: usize| #[trigger] job_set_items(cands).contains(x) implies !visited(infos2, x) by {
                    if visited(infos2, x) {
                        let i = choose|i: int| 0 <= i < infos2.len() && (#[trigger] infos2[i]).job == x;
                        if i < infos.len() {
                            assert(infos2[i] == infos[i]);
                            assert(visited(infos, x));
                        }
                    }
                }
                assert forall|x: usize|
                    #[trigger] init_candidate(e, center, used_set, x) && !job_set_items(cands).contains(x) && !visited(infos2, x)
                        implies exists|c: Job|
                        earlier_state(c, cluster) && #[trigger] refused(
                            *pipeline,
                            jobs@,
                            e,
                            center,
                            place_idx,
                            *config,
                            check_insertion,
                            c,
                            x,
                        ) by {
                    assert(x != info.job) by {
                        assert(infos2[infos.len() as int] == info);
                    }
                    assert(!visited(infos, x)) by {
                        if visited(infos, x) {
                            let i = choose|i: int| 0 <= i < infos.len() && (#[trigger] infos[i]).job == x;
                            assert(infos2[i] == infos[i]);
                        }
                    }
                    assert(!old_cands.contains(x));
                    let c = choose|c: Job|
                        earlier_state(c, old_cluster) && #[trigger] refused(
                            *pipeline,
                            jobs@,
                            e,
                            center,
                            place_idx,
                            *config,
                            check_insertion,
                            c,
                            x,
                        );
                    let a = cluster_infos(c.dimens);
                    assert(a == infos2.subrange(0, a.len() as int)) by {
                        assert(a == infos.subrange(0, a.len() as int));
                        assert forall|q: int| 0 <= q < a.len() implies a[q] == infos2.subrange(0, a.len() as int)[q] by {
                            assert(infos2[q] == infos[q]);
                        }
                        assert(a =~= infos2.subrange(0, a.len() as int));
                    }
                    assert(earlier_state(c, cluster));
                }
            },
            None => {
                let ghost old_cands = job_set_items(cands);
                assert forall|x: usize| #[trigger] old_cands.contains(x) implies refused(
                    *pipeline,
                    jobs@,
                    e,
                    center,
                    place_idx,
                    *config,
                    check_insertion,
                    cluster,
                    x,
                ) by {
                    assert(no_record_from(e[last_job as int]@[x as int]@, last_place));
                }
                proof { lemma_earlier_self(cluster); }
                cands = JobSet::new();
                assert(job_set_items(cands).len() == 0);
                assert forall|x: usize|
                    #[trigger] init_candidate(e, center, used_set, x) && !job_set_items(cands).contains(x) && !visited(
                        cluster_infos(cluster.dimens),
                        x,
                    ) implies exists|c: Job|
                        earlier_state(c, cluster) && #[trigger] refused(
                            *pipeline,
                            jobs@,
                            e,
                            center,
                            place_idx,
                            *config,
                            check_insertion,
                            c,
                            x,
                        ) by {
                    if old_cands.contains(x) {
                        assert(refused(*pipeline, jobs@, e, center, place_idx, *config, check_insertion, cluster, x));
                    }
                }
            },
        }
    }
    cluster
}

/// Builds the best cluster around `center`: a cluster is grown from each of
/// the center's located places in turn, and the one with the most visits (the
/// first of equal size) is kept, once finished. The search stops early when the
/// best so far fails the `threshold` predicate; that best is still returned.
/// `None` when no place gives a cluster of two visits or more.
pub fn build_job_cluster<L, T, C>(
    pipeline: &ConstraintPipeline,
    jobs: &Vec<Job>,
    center: usize,
    estimates: &Vec<Vec<Vec<DissimilarityInfo>>>,
    used: &JobSet,
    config: &ClusterConfig,
    ordering_local: &L,
    threshold: &T,
    check_insertion: &C,
) -> (r: Option<Job>)
    where
        L: Fn(&ClusterInfo) -> i64,
        T: Fn(&Job) -> bool,
        C: Fn(&Job) -> Result<(), ViolationCode>,
    requires
        center < jobs@.len(),
        estimates_shape(estimates@, jobs@.len() as int),
        !job_set_items(*used).contains(center),
        forall|x: &ClusterInfo| ordering_local.requires((x,)),
        forall|x: &Job| threshold.requires((x,)),
        forall|x: &Job| check_insertion.requires((x,)),
    ensures
        r.is_some() ==> cluster_ok(r.unwrap(), center, job_set_items(*used), jobs@.len() as int),
        r.is_some() ==> last_addition_checked(check_insertion, r.unwrap(), config.visiting),
        r.is_some() ==> starts_at_center(r.unwrap(), jobs@[center as int], center),
        r.is_some() ==> chain_ok(
            cluster_infos(r.unwrap().dimens),
            estimates@,
            center,
            cluster_infos(r.unwrap().dimens)[0].place_idx,
            config.visiting,
        ),
        r.is_some() ==> r.unwrap().places@[0].duration == closing_duration(
            cluster_infos(r.unwrap().dimens),
            estimates@,
            center,
            cluster_infos(r.unwrap().dimens)[0].place_idx,
            config.visiting,
        ),
        r.is_some() ==> forall|k: int|
            1 <= k < cluster_infos(r.unwrap().dimens).len() ==> init_candidate(
                estimates@,
                center,
                job_set_items(*used),
                (#[trigger] cluster_infos(r.unwrap().dimens)[k]).job,
            ),
        r.is_none() ==> no_cluster_around(*pipeline, jobs@, estimates@, center, job_set_items(*used), *config, check_insertion),
{
    let ghost n = jobs@.len() as int;
    let center_job = &jobs[center];
    let mut best: Option<Job> = None;
    let mut best_count: usize = 0;
    let mut pi: usize = 0;
    while pi < center_job.places.len()
        invariant
            n == jobs@.len(),
            center < n,
            *center_job == jobs@[center as int],
            estimates_shape(estimates@, n),
            !job_set_items(*used).contains(center),
            best.is_some() ==> cluster_ok(best.unwrap(), center, job_set_items(*used), n),
            best.is_some() ==> last_addition_checked(check_insertion, best.unwrap(), config.visiting),
            best.is_some() ==> starts_at_center(best.unwrap(), *center_job, center),
            best.is_some() ==> chain_ok(
                cluster_infos(best.unwrap().dimens),
                estimates@,
                center,
                cluster_infos(best.unwrap().dimens)[0].place_idx,
                config.visiting,
            ),
            best.is_some() ==> best.unwrap().places@[0].duration == closing_duration(
                cluster_infos(best.unwrap().dimens),
                estimates@,
                center,
                cluster_infos(best.unwrap().dimens)[0].place_idx,
                config.visiting,
            ),
            best.is_some() ==> forall|k: int|
                1 <= k < cluster_infos(best.unwrap().dimens).len() ==> init_candidate(
                    estimates@,
                    center,
                    job_set_items(*used),
                    (#[trigger] cluster_infos(best.unwrap().dimens)[k]).job,
                ),
            best.is_none() ==> forall|q: usize|
                q < pi && (#[trigger] center_job.places@[q as int]).location.is_some() ==> exists|seed: Job|
                    #[trigger] seed_ok(seed, *center_job, center, q) && forall|x: usize|
                        #[trigger] init_candidate(estimates@, center, job_set_items(*used), x) ==> refused(
                            *pipeline,
                            jobs@,
                            estimates@,
                            center,
                            q,
                            *config,
                            check_insertion,
                            seed,
                            x,
                        ),
            forall|x: &ClusterInfo| ordering_local.requires((x,)),
            forall|x: &Job| threshold.requires((x,)),
            forall|x: &Job| check_insertion.requires((x,)),
        decreases center_job.places@.len() - pi,
    {
        match center_job.places[pi].location {
            Some(location) => {
                let grown = grow_cluster(
                    pipeline,
                    jobs,
                    center,
                    pi,
                    location,
                    estimates,
                    used,
                    config,
                    ordering_local,
                    check_insertion,
                );
                let count = cluster_size(&grown);
                proof {
                    if count <= 1 {
                        let infos = cluster_infos(grown.dimens);
                        assert forall|x: usize|
                            #[trigger] init_candidate(estimates@, center, job_set_items(*used), x) implies refused(
                                *pipeline,
                                jobs@,
                                estimates@,
                                center,
                                pi,
                                *config,
                                check_insertion,
                                grown,
                                x,
                            ) by {
                            assert(!visited(infos, x)) by {
                                if visited(infos, x) {
                                    let i = choose|i: int| 0 <= i < infos.len() && (#[trigger] infos[i]).job == x;
                                    assert(i == 0);
                                }
                            }
                            let c = choose|c: Job|
                                earlier_state(c, grown) && #[trigger] refused(
                                    *pipeline,
                                    jobs@,
                                    estimates@,
                                    center,
                                    pi,
                                    *config,
                                    check_insertion,
                                    c,
                                    x,
                                );
                        }
                        assert(seed_ok(grown, *center_job, center, pi));
                    }
                }
                if count > 1 && (best.is_none() || best_count < count) {
                    let last = match &grown.dimens.cluster {
                        Some(infos) => infos[infos.len() - 1].job,
                        None => center,
                    };
                    let ghost g = grown;
                    let finished = finish_cluster(grown, config, &estimates[center][last], pi);
                    proof {
                        let j = choose|j: Job| #[trigger] passes_check(check_insertion, j) && j.places == g.places
                            && cluster_infos(j.dimens) == cluster_infos(g.dimens).drop_last();
                        assert(j.places@[0] == g.places@[0]);
                        assert(last_addition_checked(check_insertion, finished, config.visiting));
                        assert(cluster_infos(g.dimens)[0].place_idx == pi);
                        assert(last == cluster_infos(g.dimens).last().job);
                    }
                    best = Some(finished);
                    best_count = count;
                }
                match &best {
                    Some(job) => {
                        if !threshold(job) {
                            return best;
                        }
                    },
                    None => {},
                }
            },
            None => {},
        }
        pi = pi + 1;
    }
    best
}

/// Tells whether a cluster visits a job of the set.
pub fn visits_any(job: &Job, set: &JobSet) -> (r: bool)
    ensures
        r == exists|i: int| 0 <= i < cluster_infos(job.dimens).len() && job_set_items(*set).contains(
            (#[trigger] cluster_infos(job.dimens)[i]).job,
        ),
{
    match &job.dimens.cluster {
        Some(infos) => {
            let mut i: usize = 0;
            while i < infos.len()
                invariant
                    i <= infos@.len(),
                    cluster_infos(job.dimens) == infos@,
                    forall|k: int| 0 <= k < i ==> !job_set_items(*set).contains((#[trigger] infos@[k]).job),
                decreases infos@.len() - i,
            {
                if set.contains(infos[i].job) {
                    return true;
                }
                i = i + 1;
            }
            false
        },
        None => false,
    }
}

/// The jobs that a cluster visits, in order.
pub fn cluster_jobs(job: &Job) -> (r: Vec<usize>)
    ensures
        r@.len() == cluster_infos(job.dimens).len(),
        forall|i: int| 0 <= i < r@.len() ==> r@[i] == (#[trigger] cluster_infos(job.dimens)[i]).job,
{
    let mut r: Vec<usize> = Vec::new();
    match &job.dimens.cluster {
        Some(infos) => {
            let mut i: usize = 0;
            while i < infos.len()
                invariant
                    i <= infos@.len(),
                    cluster_infos(job.dimens) == infos@,
                    r@.len() == i,
                    forall|k: int| 0 <= k < i ==> r@[k] == (#[trigger] infos@[k]).job,
                decreases infos@.len() - i,
            {
                r.push(infos[i].job);
                i = i + 1;
            }
        },
        None => {},
    }
    r
}

/// A center with its remaining candidates and its cached cluster, if built.
pub struct CenterState {
    pub center: usize,
    pub cluster: Option<Job>,
    pub candidates: JobSet,
}

/// A center that is not used, whose candidates are not used, and whose cached
/// cluster, if any, visits no used job.
pub open spec fn state_ok(st: CenterState, used: Set<usize>, n: int) -> bool {
    &&& st.center < n
    &&& !used.contains(st.center)
    &&& forall|x: usize| #[trigger] job_set_items(st.candidates).contains(x) ==> !used.contains(x)
    &&& st.cluster.is_some() ==> cluster_ok(st.cluster.unwrap(), st.center, used, n)
}

/// `x` has a reachable record as seen from `center`.
pub open spec fn reached(e: Seq<Vec<Vec<DissimilarityInfo>>>, center: usize, x: usize) -> bool {
    &&& x < e[center as int]@.len()
    &&& exists|k: int| 0 <= k < e[center as int]@[x as int]@.len() && (#[trigger] e[center as int]@[x as int]@[k]).reachable
}

/// Every visit of the cluster after the first is reachable from `center`.
pub open spec fn members_reached(job: Job, e: Seq<Vec<Vec<DissimilarityInfo>>>, center: usize) -> bool {
    forall|k: int| 1 <= k < cluster_infos(job.dimens).len() ==> reached(e, center, (#[trigger] cluster_infos(job.dimens)[k]).job)
}

/// What holds of a center's cached cluster: its last addition passed the
/// insertion check, it starts at the center, and its members are reachable
/// from the center.
pub open spec fn cached_ok<C: Fn(&Job) -> Result<(), ViolationCode>>(
    check_insertion: &C,
    st: CenterState,
    jobs: Seq<Job>,
    e: Seq<Vec<Vec<DissimilarityInfo>>>,
    visiting: VisitPolicy,
) -> bool {
    st.cluster.is_some() ==> {
        &&& last_addition_checked(check_insertion, st.cluster.unwrap(), visiting)
        &&& starts_at_center(st.cluster.unwrap(), jobs[st.center as int], st.center)
        &&& members_reached(st.cluster.unwrap(), e, st.center)
        &&& shaped_by_visits(st.cluster.unwrap(), e, st.center, visiting)
    }
}

/// The cluster's visits follow one another as `chain_ok` says, and its place's
/// duration is the one that they give, as `closing_duration` says.
pub open spec fn shaped_by_visits(job: Job, e: Seq<Vec<Vec<DissimilarityInfo>>>, center: usize, visiting: VisitPolicy) -> bool {
    let infos = cluster_infos(job.dimens);
    &&& chain_ok(infos, e, center, infos[0].place_idx, visiting)
    &&& job.places@[0].duration == closing_duration(infos, e, center, infos[0].place_idx, visiting)
}

/// The candidates that `center` starts with when no job is used yet.
pub open spec fn init_set(e: Seq<Vec<Vec<DissimilarityInfo>>>, center: usize) -> Set<usize> {
    Set::new(|x: usize| init_candidate(e, center, Set::empty(), x))
}

/// No cluster can be grown around `center`: from each located place of the
/// center, every record of every candidate, as seen from that place, gives no
/// addition to the seed.
pub open spec fn no_cluster_around<C: Fn(&Job) -> Result<(), ViolationCode>>(
    pipeline: ConstraintPipeline,
    jobs: Seq<Job>,
    e: Seq<Vec<Vec<DissimilarityInfo>>>,
    center: usize,
    used: Set<usize>,
    config: ClusterConfig,
    check_insertion: &C,
) -> bool {
    forall|pi: usize|
        pi < jobs[center as int].places@.len() && (#[trigger] jobs[center as int].places@[pi as int]).location.is_some()
            ==> exists|seed: Job|
            #[trigger] seed_ok(seed, jobs[center as int], center, pi) && forall|x: usize|
                #[trigger] init_candidate(e, center, used, x) ==> refused(
                    pipeline,
                    jobs,
                    e,
                    center,
                    pi,
                    config,
                    check_insertion,
                    seed,
                    x,
                )
}

/// `ks` holds the `ordering_global` key of each center in the first round: of
/// its job and its number of candidates.
pub open spec fn first_round_keys<G: Fn(&Job, usize) -> i64>(
    ordering_global: &G,
    jobs: Seq<Job>,
    e: Seq<Vec<Vec<DissimilarityInfo>>>,
    ks: Seq<i64>,
) -> bool {
    &&& ks.len() == jobs.len()
    &&& forall|k: int| 0 <= k < jobs.len() ==> ordering_global.ensures((&jobs[k], init_set(e, k as usize).len() as usize), #[trigger] ks[k])
}

/// Why no cluster comes out: in the first round the center of the largest key
/// (the first of equal keys) has no cluster.
pub open spec fn first_pick_fails<G: Fn(&Job, usize) -> i64, C: Fn(&Job) -> Result<(), ViolationCode>>(
    pipeline: ConstraintPipeline,
    jobs: Seq<Job>,
    e: Seq<Vec<Vec<DissimilarityInfo>>>,
    config: ClusterConfig,
    ordering_global: &G,
    check_insertion: &C,
) -> bool {
    exists|c: usize, ks: Seq<i64>|
        #![trigger first_round_keys(ordering_global, jobs, e, ks), ks[c as int]]
        first_round_keys(ordering_global, jobs, e, ks) && c < jobs.len() && (forall|k: int| 0 <= k < jobs.len() ==> ks[k] <= ks[c as int])
            && (forall|k: int| 0 <= k < c ==> ks[k] < ks[c as int]) && no_cluster_around(
            pipeline,
            jobs,
            e,
            c,
            Set::empty(),
            config,
            check_insertion,
        )
}

/// Each job appears at most once over all the clusters' job lists.
pub open spec fn clusters_disjoint(r: Seq<(Job, Vec<usize>)>) -> bool {
    forall|p: int, q: int, i: int, j: int|
        0 <= p < r.len() && 0 <= q < r.len() && 0 <= i < r[p].1@.len() && 0 <= j < r[q].1@.len() && (p != q || i != j)
            ==> (#[trigger] r[p].1@[i]) != (#[trigger] r[q].1@[j])
}

/// A committed cluster: its job lists the jobs that it visits, at least two.
pub open spec fn committed_ok(c: (Job, Vec<usize>), n: int) -> bool {
    &&& c.1@.len() >= 2
    &&& c.1@.len() == cluster_infos(c.0.dimens).len()
    &&& forall|i: int| 0 <= i < c.1@.len() ==> #[trigger] c.1@[i] == cluster_infos(c.0.dimens)[i].job && c.1@[i] < n
}

/// The shape of a cluster around `center`, whatever is used.
pub open spec fn cluster_shape_ok(job: Job, center: usize, n: int) -> bool {
    cluster_ok(job, center, Set::empty(), n)
}

/// The cluster visits a job of `u`.
pub open spec fn visits_used(job: Job, u: Set<usize>) -> bool {
    exists|i: int| 0 <= i < cluster_infos(job.dimens).len() && u.contains((#[trigger] cluster_infos(job.dimens)[i]).job)
}

/// The candidates that are not among `members`.
pub open spec fn reduced(items: Set<usize>, members: Seq<usize>) -> Set<usize> {
    Set::new(|x: usize| items.contains(x) && !members.contains(x))
}

/// A center as a plain value: its index, its candidates and its cached cluster.
pub open spec fn state_view(st: CenterState) -> (usize, Set<usize>, Option<Job>) {
    (st.center, job_set_items(st.candidates), st.cluster)
}

/// What committing `members` (now all in `u`) leaves of one center: nothing
/// when the center is used or has no candidate left but members; otherwise the
/// center with its candidates less the members, and its cached cluster unless
/// that visits a used job.
pub open spec fn commit_step(st: CenterState, members: Seq<usize>, u: Set<usize>) -> Seq<(usize, Set<usize>, Option<Job>)> {
    let c = reduced(job_set_items(st.candidates), members);
    if u.contains(st.center) || c == Set::<usize>::empty() {
        Seq::empty()
    } else {
        seq![
            (st.center, c, match st.cluster {
                Some(j) => if visits_used(j, u) {
                    None
                } else {
                    Some(j)
                },
                None => None,
            }),
        ]
    }
}

/// What committing `members` leaves of the centers, in their order.
pub open spec fn commit_spec(states: Seq<CenterState>, members: Seq<usize>, u: Set<usize>) -> Seq<
    (usize, Set<usize>, Option<Job>),
>
    decreases states.len(),
{
    if states.len() == 0 {
        Seq::empty()
    } else {
        commit_spec(states.drop_last(), members, u) + commit_step(states.last(), members, u)
    }
}

/// One of the centers is `c`.
pub open spec fn has_center(st: Seq<CenterState>, c: usize) -> bool {
    exists|k: int| 0 <= k < st.len() && (#[trigger] st[k]).center == c
}

/// One of the first `upto` centers is `c`, it is not used, and it has
/// candidates left but `members`.
pub open spec fn center_kept(st: Seq<CenterState>, upto: int, c: usize, u: Set<usize>, members: Seq<usize>) -> bool {
    exists|j: int|
        0 <= j < upto && (#[trigger] st[j]).center == c && !u.contains(c) && reduced(job_set_items(st[j].candidates), members)
            != Set::<usize>::empty()
}

/// Takes in a committed cluster whose jobs (`members`) are now in `used`: the
/// centers that are used go, the others lose the members from their candidates,
/// a cached cluster that visits a used job is dropped to be built again, and the
/// centers left without candidates go. The order of the centers is kept.
pub fn commit_cluster(states: Vec<CenterState>, members: &Vec<usize>, used: &JobSet, n: usize) -> (r: Vec<CenterState>)
    requires
        forall|k: int| 0 <= k < states@.len() ==> (#[trigger] states@[k]).center < n,
        forall|k: int, x: usize|
            0 <= k < states@.len() && #[trigger] job_set_items(states@[k].candidates).contains(x) ==> !job_set_items(
                *used,
            ).contains(x) || members@.contains(x),
        forall|k: int|
            0 <= k < states@.len() && (#[trigger] states@[k]).cluster.is_some() ==> cluster_shape_ok(
                states@[k].cluster.unwrap(),
                states@[k].center,
                n as int,
            ),
    ensures
        r@.len() <= states@.len(),
        (exists|k: int| 0 <= k < states@.len() && job_set_items(*used).contains((#[trigger] states@[k]).center))
            ==> r@.len() < states@.len(),
        forall|k: int| 0 <= k < r@.len() ==> #[trigger] state_ok(r@[k], job_set_items(*used), n as int),
        forall|k: int| 0 <= k < r@.len() ==> job_set_items((#[trigger] r@[k]).candidates) != Set::<usize>::empty(),
        forall|k: int|
            0 <= k < r@.len() && (#[trigger] r@[k]).cluster.is_some() ==> exists|j: int|
                0 <= j < states@.len() && (#[trigger] states@[j]).cluster == r@[k].cluster && states@[j].center == r@[k].center,
        r@.len() == commit_spec(states@, members@, job_set_items(*used)).len(),
        (forall|a: int, b: int| 0 <= a < b < states@.len() ==> (#[trigger] states@[a]).center < (#[trigger] states@[b]).center)
            ==> forall|a: int, b: int| 0 <= a < b < r@.len() ==> (#[trigger] r@[a]).center < (#[trigger] r@[b]).center,
        forall|c: usize|
            #[trigger] has_center(r@, c) <==> center_kept(states@, states@.len() as int, c, job_set_items(*used), members@),
        forall|k: int|
            0 <= k < r@.len() ==> exists|j: int|
                0 <= j < states@.len() && (#[trigger] states@[j]).center == (#[trigger] r@[k]).center && job_set_items(r@[k].candidates)
                    == reduced(job_set_items(states@[j].candidates), members@),
        forall|k: int| 0 <= k < r@.len() ==> state_view(#[trigger] r@[k]) == commit_spec(states@, members@, job_set_items(*used))[k],
{
    let ghost orig = states@;
    let ghost u = job_set_items(*used);
    let mut states = states;
    let mut r: Vec<CenterState> = Vec::new();
    let ghost mut i: int = 0;
    while states.len() > 0
        invariant
            0 <= i <= orig.len(),
            states@ == orig.subrange(i, orig.len() as int),
            u == job_set_items(*used),
            forall|k: int| 0 <= k < orig.len() ==> (#[trigger] orig[k]).center < n,
            forall|k: int, x: usize|
                0 <= k < orig.len() && #[trigger] job_set_items(orig[k].candidates).contains(x) ==> !u.contains(x)
                    || members@.contains(x),
            forall|k: int|
                0 <= k < orig.len() && (#[trigger] orig[k]).cluster.is_some() ==> cluster_shape_ok(
                    orig[k].cluster.unwrap(),
                    orig[k].center,
                    n as int,
                ),
            r@.len() <= i,
            (exists|k: int| 0 <= k < i && u.contains((#[trigger] orig[k]).center)) ==> r@.len() < i,
            forall|k: int| 0 <= k < r@.len() ==> #[trigger] state_ok(r@[k], u, n as int),
            forall|k: int| 0 <= k < r@.len() ==> job_set_items((#[trigger] r@[k]).candidates) != Set::<usize>::empty(),
            forall|k: int|
                0 <= k < r@.len() && (#[trigger] r@[k]).cluster.is_some() ==> exists|j: int|
                    0 <= j < orig.len() && (#[trigger] orig[j]).cluster == r@[k].cluster && orig[j].center == r@[k].center,
            r@.len() == commit_spec(orig.subrange(0, i), members@, u).len(),
            (forall|a: int, b: int| 0 <= a < b < orig.len() ==> (#[trigger] orig[a]).center < (#[trigger] orig[b]).center)
                ==> (forall|a: int, b: int| 0 <= a < b < r@.len() ==> (#[trigger] r@[a]).center < (#[trigger] r@[b]).center)
                && (forall|a: int| 0 <= a < r@.len() ==> exists|j: int| 0 <= j < i && (#[trigger] orig[j]).center == (#[trigger] r@[a]).center),
            forall|c: usize| #[trigger] has_center(r@, c) <==> center_kept(orig, i, c, u, members@),
            forall|k: int|
                0 <= k < r@.len() ==> exists|j: int|
                    0 <= j < i && (#[trigger] orig[j]).center == (#[trigger] r@[k]).center && job_set_items(r@[k].candidates)
                        == reduced(job_set_items(orig[j].candidates), members@),
            forall|k: int| 0 <= k < r@.len() ==> state_view(#[trigger] r@[k]) == commit_spec(orig.subrange(0, i), members@, u)[k],
        decreases states@.len(),
    {
        let ghost prefix = commit_spec(orig.subrange(0, i), members@, u);
        let ghost r_before = r@;
        assert(orig.subrange(0, i + 1).drop_last() == orig.subrange(0, i));
        let st = states.remove(0);
        assert(st == orig[i]);
        assert(states@ == orig.subrange(i + 1, orig.len() as int));
        let CenterState { center, cluster, mut candidates } = st;
        let ghost step = commit_step(orig[i], members@, u);
        assert(commit_spec(orig.subrange(0, i + 1), members@, u) == prefix + step);
        if !used.contains(center) {
            let ghost items0 = job_set_items(candidates);
            let mut t: usize = 0;
            assert(job_set_items(candidates) =~= Set::new(|x: usize| items0.contains(x) && !members@.subrange(0, 0).contains(x)));
            while t < members.len()
                invariant
                    t <= members@.len(),
                    forall|x: usize| #[trigger] job_set_items(candidates).contains(x) ==> !u.contains(x)
                        || exists|q: int| t <= q < members@.len() && members@[q] == x,
                    job_set_items(candidates) == Set::new(|x: usize| items0.contains(x) && !members@.subrange(0, t as int).contains(x)),
                    u == job_set_items(*used),
                decreases members@.len() - t,
            {
                let ghost prev = job_set_items(candidates);
                candidates.remove(members[t]);
                assert(job_set_items(candidates) =~= Set::new(|x: usize| items0.contains(x) && !members@.subrange(0, t as int + 1).contains(x))) by {
                    assert(members@.subrange(0, t as int + 1) == members@.subrange(0, t as int).push(members@[t as int]));
                    assert forall|x: usize| members@.subrange(0, t as int + 1).contains(x) <==> (members@.subrange(0, t as int).contains(x) || x == members@[t as int]) by {
                        let s1 = members@.subrange(0, t as int + 1);
                        if s1.contains(x) {
                            let q = choose|q: int| 0 <= q < s1.len() && s1[q] == x;
                            if q < t { assert(members@.subrange(0, t as int)[q] == x); }
                        }
                        if members@.subrange(0, t as int).contains(x) {
                            let q = choose|q: int| 0 <= q < t && members@.subrange(0, t as int)[q] == x;
                            assert(s1[q] == x);
                        }
                        if x == members@[t as int] { assert(s1[t as int] == x); }
                    }
                }
                t = t + 1;
            }
            assert(members@.subrange(0, members@.len() as int) == members@);
            assert(job_set_items(candidates) =~= reduced(items0, members@));
            let ghost kept_spec = match orig[i].cluster {
                Some(j) => if visits_used(j, u) { None } else { Some(j) },
                None => None,
            };
            let kept = match cluster {
                Some(job) => if visits_any(&job, used) {
                    None
                } else {
                    Some(job)
                },
                None => None,
            };
            assert(kept == kept_spec);
            if !candidates.is_empty() {
                let ghost before = r@;
                let ns = CenterState { center, cluster: kept, candidates };
                assert(step == seq![state_view(ns)]);
                assert(state_ok(ns, u, n as int)) by {
                    if ns.cluster.is_some() {
                        let job = ns.cluster.unwrap();
                        let infos = cluster_infos(job.dimens);
                        assert(cluster_shape_ok(orig[i].cluster.unwrap(), center, n as int));
                        assert forall|k: int| 0 <= k < infos.len() implies (#[trigger] infos[k]).job < n && !u.contains(infos[k].job) by {
                            assert(Set::<usize>::empty().contains(infos[k].job) == false);
                        }
                    }
                }
                r.push(ns);
                assert(r@ == before.push(ns));
                assert forall|k: int| 0 <= k < r@.len() implies #[trigger] state_ok(r@[k], u, n as int) by {
                    if k < before.len() { assert(r@[k] == before[k]); }
                }
                assert forall|k: int| 0 <= k < r@.len() implies job_set_items((#[trigger] r@[k]).candidates) != Set::<usize>::empty() by {
                    if k < before.len() { assert(r@[k] == before[k]); }
                }
                assert forall|k: int| 0 <= k < r@.len() && (#[trigger] r@[k]).cluster.is_some() implies exists|j: int|
                    0 <= j < orig.len() && (#[trigger] orig[j]).cluster == r@[k].cluster && orig[j].center == r@[k].center by {
                    if k < before.len() {
                        assert(r@[k] == before[k]);
                    } else {
                        assert(orig[i].cluster == r@[k].cluster && orig[i].center == r@[k].center);
                    }
                }
                assert forall|k: int| 0 <= k < r@.len() implies state_view(#[trigger] r@[k]) == (prefix + step)[k] by {
                    if k < before.len() { assert(r@[k] == before[k]); }
                }
                assert forall|k: int| 0 <= k < r@.len() implies exists|j: int|
                    0 <= j < i + 1 && (#[trigger] orig[j]).center == (#[trigger] r@[k]).center && job_set_items(r@[k].candidates)
                        == reduced(job_set_items(orig[j].candidates), members@) by {
                    if k < before.len() {
                        assert(r@[k] == before[k]);
                    } else {
                        assert(orig[i].center == r@[k].center);
                    }
                }
                assert forall|c: usize|
                    #[trigger] has_center(r@, c) <==> center_kept(orig, i + 1, c, u, members@) by {
                    if has_center(r@, c) {
                        let k = choose|k: int| 0 <= k < r@.len() && (#[trigger] r@[k]).center == c;
                        if k < before.len() {
                            assert(r@[k] == before[k]);
                            assert(has_center(before, c));
                            let j = choose|j: int|
                                0 <= j < i && (#[trigger] orig[j]).center == c && !u.contains(c) && reduced(
                                    job_set_items(orig[j].candidates),
                                    members@,
                                ) != Set::<usize>::empty();
                        } else {
                            assert(orig[i].center == c);
                        }
                    }
                    if center_kept(orig, i + 1, c, u, members@) {
                        let j = choose|j: int|
                            0 <= j < i + 1 && (#[trigger] orig[j]).center == c && !u.contains(c) && reduced(
                                job_set_items(orig[j].candidates),
                                members@,
                            ) != Set::<usize>::empty();
                        if j < i {
                            assert(center_kept(orig, i, c, u, members@));
                            assert(has_center(before, c));
                            let k = choose|k: int| 0 <= k < before.len() && (#[trigger] before[k]).center == c;
                            assert(r@[k] == before[k]);
                        } else {
                            assert(r@[before.len() as int].center == c);
                        }
                    }
                }
                proof {
                    if forall|a: int, b: int| 0 <= a < b < orig.len() ==> (#[trigger] orig[a]).center < (#[trigger] orig[b]).center {
                        assert forall|a: int| 0 <= a < r@.len() implies exists|j: int| 0 <= j < i + 1 && (#[trigger] orig[j]).center == (#[trigger] r@[a]).center by {
                            if a < before.len() { assert(r@[a] == before[a]); } else { assert(orig[i].center == r@[a].center); }
                        }
                        assert forall|a: int, b: int| 0 <= a < b < r@.len() implies (#[trigger] r@[a]).center < (#[trigger] r@[b]).center by {
                            if b < before.len() {
                                assert(r@[a] == before[a]);
                                assert(r@[b] == before[b]);
                            } else {
                                assert(r@[a] == before[a]);
                                let j = choose|j: int| 0 <= j < i && (#[trigger] orig[j]).center == before[a].center;
                                assert(orig[j].center < orig[i].center);
                            }
                        }
                    }
                }
            } else {
                assert(step.len() == 0);
                assert(prefix + step == prefix);
                assert(reduced(job_set_items(orig[i].candidates), members@) == Set::<usize>::empty());
                assert forall|c: usize| #[trigger] has_center(r@, c) <==> center_kept(orig, i + 1, c, u, members@) by {
                    if center_kept(orig, i + 1, c, u, members@) {
                        let j = choose|j: int|
                            0 <= j < i + 1 && (#[trigger] orig[j]).center == c && !u.contains(c) && reduced(
                                job_set_items(orig[j].candidates),
                                members@,
                            ) != Set::<usize>::empty();
                        if j < i {
                            assert(center_kept(orig, i, c, u, members@));
                        }
                    }
                    if has_center(r@, c) {
                        assert(center_kept(orig, i, c, u, members@));
                        let j = choose|j: int|
                            0 <= j < i && (#[trigger] orig[j]).center == c && !u.contains(c) && reduced(
                                job_set_items(orig[j].candidates),
                                members@,
                            ) != Set::<usize>::empty();
                    }
                }
            }
        } else {
            assert(step.len() == 0);
            assert(prefix + step == prefix);
            assert forall|c: usize| #[trigger] has_center(r@, c) <==> center_kept(orig, i + 1, c, u, members@) by {
                if center_kept(orig, i + 1, c, u, members@) {
                    let j = choose|j: int|
                        0 <= j < i + 1 && (#[trigger] orig[j]).center == c && !u.contains(c) && reduced(
                            job_set_items(orig[j].candidates),
                            members@,
                        ) != Set::<usize>::empty();
                    if j < i {
                        assert(center_kept(orig, i, c, u, members@));
                    }
                }
                if has_center(r@, c) {
                    assert(center_kept(orig, i, c, u, members@));
                    let j = choose|j: int|
                        0 <= j < i && (#[trigger] orig[j]).center == c && !u.contains(c) && reduced(
                            job_set_items(orig[j].candidates),
                            members@,
                        ) != Set::<usize>::empty();
                }
            }
        }
        proof {
            if exists|k: int| 0 <= k < i + 1 && u.contains((#[trigger] orig[k]).center) {
                let k = choose|k: int| 0 <= k < i + 1 && u.contains((#[trigger] orig[k]).center);
                if k < i {
                    assert(exists|k: int| 0 <= k < i && u.contains((#[trigger] orig[k]).center));
                }
            }
            i = i + 1;
        }
    }
    proof {
        assert(i == orig.len()) by {
            assert(states@.len() == orig.len() - i);
        }
        assert(orig.subrange(0, i) == orig);
    }
    r
}

/// The index of the first largest key.
pub fn select_best(keys: &Vec<i64>) -> (r: usize)
    requires
        keys@.len() > 0,
    ensures
        r < keys@.len(),
        forall|k: int| 0 <= k < keys@.len() ==> keys@[k] <= keys@[r as int],
        forall|k: int| 0 <= k < r ==> keys@[k] < keys@[r as int],
{
    let mut best: usize = 0;
    let mut j: usize = 1;
    while j < keys.len()
        invariant
            1 <= j <= keys@.len(),
            best < j,
            forall|k: int| 0 <= k < j ==> keys@[k] <= keys@[best as int],
            forall|k: int| 0 <= k < best ==> keys@[k] < keys@[best as int],
        decreases keys@.len() - j,
    {
        if keys[j] > keys[best] {
            best = j;
        }
        j = j + 1;
    }
    best
}

/// The jobs of the first `p` clusters.
pub open spec fn used_before(r: Seq<(Job, Vec<usize>)>, p: int) -> Set<usize> {
    Set::new(|x: usize| exists|q: int, i: int| 0 <= q < p && 0 <= i < r[q].1@.len() && r[q].1@[i] == x)
}

/// The candidates of `center` that are not used.
pub open spec fn cands_at(e: Seq<Vec<Vec<DissimilarityInfo>>>, center: usize, used: Set<usize>) -> Set<usize> {
    Set::new(|x: usize| init_set(e, center).contains(x) && !used.contains(x))
}

/// The center `c` is left when the cluster `p` is chosen: it is not used by
/// the clusters before, and after the first round it still has a candidate.
pub open spec fn left_at(e: Seq<Vec<Vec<DissimilarityInfo>>>, n: int, r: Seq<(Job, Vec<usize>)>, p: int, c: usize) -> bool {
    &&& c < n
    &&& !used_before(r, p).contains(c)
    &&& (p == 0 || cands_at(e, c, used_before(r, p)) != Set::<usize>::empty())
}

/// `ks` holds the `ordering_global` key of each center left when the cluster
/// `p` is chosen: of its job and its number of candidates then.
pub open spec fn round_keys<G: Fn(&Job, usize) -> i64>(
    ordering_global: &G,
    jobs: Seq<Job>,
    e: Seq<Vec<Vec<DissimilarityInfo>>>,
    r: Seq<(Job, Vec<usize>)>,
    p: int,
    ks: Seq<i64>,
) -> bool {
    &&& ks.len() == jobs.len()
    &&& forall|c: usize|
        #[trigger] left_at(e, jobs.len() as int, r, p, c) ==> ordering_global.ensures(
            (&jobs[c as int], cands_at(e, c, used_before(r, p)).len() as usize),
            ks[c as int],
        )
}

/// The cluster `p` was built around the center of the largest key among the
/// centers left then, the first supplied of equal keys.
pub open spec fn picked_by_key<G: Fn(&Job, usize) -> i64>(
    ordering_global: &G,
    jobs: Seq<Job>,
    e: Seq<Vec<Vec<DissimilarityInfo>>>,
    r: Seq<(Job, Vec<usize>)>,
    p: int,
) -> bool {
    let c0 = r[p].1@[0];
    exists|ks: Seq<i64>|
        #[trigger] round_keys(ordering_global, jobs, e, r, p, ks) && left_at(e, jobs.len() as int, r, p, c0) && forall|c: usize|
            #[trigger] left_at(e, jobs.len() as int, r, p, c) ==> ks[c as int] <= ks[c0 as int] && (c < c0 ==> ks[c as int]
                < ks[c0 as int])
}

proof fn lemma_reduce(e: Seq<Vec<Vec<DissimilarityInfo>>>, c: usize, u: Set<usize>, u2: Set<usize>, m: Seq<usize>)
    requires
        forall|y: usize| #[trigger] u2.contains(y) <==> u.contains(y) || m.contains(y),
    ensures
        reduced(cands_at(e, c, u), m) == cands_at(e, c, u2),
{
    assert(reduced(cands_at(e, c, u), m) =~= cands_at(e, c, u2));
}

proof fn lemma_used_before_push(r: Seq<(Job, Vec<usize>)>, x: (Job, Vec<usize>), p: int)
    requires
        0 <= p <= r.len(),
    ensures
        used_before(r.push(x), p) == used_before(r, p),
{
    let r2 = r.push(x);
    assert forall|y: usize| used_before(r2, p).contains(y) <==> used_before(r, p).contains(y) by {
        if used_before(r2, p).contains(y) {
            let (q, i) = choose|q: int, i: int| 0 <= q < p && 0 <= i < r2[q].1@.len() && r2[q].1@[i] == y;
            assert(r2[q] == r[q]);
        }
        if used_before(r, p).contains(y) {
            let (q, i) = choose|q: int, i: int| 0 <= q < p && 0 <= i < r[q].1@.len() && r[q].1@[i] == y;
            assert(r2[q] == r[q]);
        }
    }
    assert(used_before(r2, p) =~= used_before(r, p));
}

proof fn lemma_picked_push<G: Fn(&Job, usize) -> i64>(
    ordering_global: &G,
    jobs: Seq<Job>,
    e: Seq<Vec<Vec<DissimilarityInfo>>>,
    r: Seq<(Job, Vec<usize>)>,
    x: (Job, Vec<usize>),
    p: int,
)
    requires
        0 <= p < r.len(),
        picked_by_key(ordering_global, jobs, e, r, p),
    ensures
        picked_by_key(ordering_global, jobs, e, r.push(x), p),
{
    let r2 = r.push(x);
    lemma_used_before_push(r, x, p);
    assert(r2[p] == r[p]);
    let ks = choose|ks: Seq<i64>|
        #[trigger] round_keys(ordering_global, jobs, e, r, p, ks) && left_at(e, jobs.len() as int, r, p, r[p].1@[0]) && forall|c: usize|
            #[trigger] left_at(e, jobs.len() as int, r, p, c) ==> ks[c as int] <= ks[r[p].1@[0] as int] && (c < r[p].1@[0]
                ==> ks[c as int] < ks[r[p].1@[0] as int]);
    assert forall|c: usize| left_at(e, jobs.len() as int, r2, p, c) == left_at(e, jobs.len() as int, r, p, c) by {}
    assert(round_keys(ordering_global, jobs, e, r2, p, ks));
}

proof fn lemma_used_after_commit(r: Seq<(Job, Vec<usize>)>, x: (Job, Vec<usize>), y: usize)
    ensures
        used_before(r.push(x), r.len() as int + 1).contains(y) <==> used_before(r, r.len() as int).contains(y) || x.1@.contains(y),
{
    let r2 = r.push(x);
    if used_before(r2, r.len() as int + 1).contains(y) {
        let (q, i) = choose|q: int, i: int| 0 <= q < r.len() + 1 && 0 <= i < r2[q].1@.len() && r2[q].1@[i] == y;
        if q < r.len() {
            assert(r2[q] == r[q]);
            assert(used_before(r, r.len() as int).contains(y));
        } else {
            assert(x.1@[i] == y);
        }
    }
    if used_before(r, r.len() as int).contains(y) {
        let (q, i) = choose|q: int, i: int| 0 <= q < r.len() && 0 <= i < r[q].1@.len() && r[q].1@[i] == y;
        assert(r2[q] == r[q]);
    }
    if x.1@.contains(y) {
        let i = choose|i: int| 0 <= i < x.1@.len() && x.1@[i] == y;
        assert(r2[r.len() as int] == x);
        assert(r2[r.len() as int].1@[i] == y);
    }
}

/// Gets job clusters. Each round builds the missing cluster of every remaining
/// center, then takes the center of the largest `ordering_global` key (of its
/// job and its number of candidates; the first supplied of equal keys). If that
/// center has no cluster the work ends; otherwise its cluster is committed:
/// its jobs become used and the other centers are updated by `commit_cluster`.
/// The clusters are returned in commit order, each with the jobs it visits.
#[verifier::rlimit(100)]
#[verifier::spinoff_prover]
pub fn get_clusters<G, L, T, C>(
    pipeline: &ConstraintPipeline,
    jobs: &Vec<Job>,
    estimates: &Vec<Vec<Vec<DissimilarityInfo>>>,
    config: &ClusterConfig,
    ordering_global: &G,
    ordering_local: &L,
    threshold: &T,
    check_insertion: &C,
) -> (r: Vec<(Job, Vec<usize>)>)
    where
        G: Fn(&Job, usize) -> i64,
        L: Fn(&ClusterInfo) -> i64,
        T: Fn(&Job) -> bool,
        C: Fn(&Job) -> Result<(), ViolationCode>,
    requires
        estimates_shape(estimates@, jobs@.len() as int),
        forall|x: &Job, k: usize| ordering_global.requires((x, k)),
        forall|x: &ClusterInfo| ordering_local.requires((x,)),
        forall|x: &Job| threshold.requires((x,)),
        forall|x: &Job| check_insertion.requires((x,)),
    ensures
        clusters_disjoint(r@),
        forall|p: int| 0 <= p < r@.len() ==> #[trigger] committed_ok(r@[p], jobs@.len() as int),
        forall|p: int| 0 <= p < r@.len() ==> last_addition_checked(check_insertion, (#[trigger] r@[p]).0, config.visiting),
        forall|p: int| 0 <= p < r@.len() ==> starts_at_center((#[trigger] r@[p]).0, jobs@[r@[p].1@[0] as int], r@[p].1@[0]),
        forall|p: int| 0 <= p < r@.len() ==> members_reached((#[trigger] r@[p]).0, estimates@, r@[p].1@[0]),
        forall|p: int| 0 <= p < r@.len() ==> shaped_by_visits((#[trigger] r@[p]).0, estimates@, r@[p].1@[0], config.visiting),
        jobs@.len() == 0 ==> r@.len() == 0,
        r@.len() == 0 ==> jobs@.len() == 0 || first_pick_fails(
            *pipeline,
            jobs@,
            estimates@,
            *config,
            ordering_global,
            check_insertion,
        ),
        forall|p: int| 0 <= p < r@.len() ==> #[trigger] picked_by_key(ordering_global, jobs@, estimates@, r@, p),
{
    let n = jobs.len();
    let mut used = JobSet::new();
    let mut clusters: Vec<(Job, Vec<usize>)> = Vec::new();
    let mut states: Vec<CenterState> = Vec::new();
    let mut c: usize = 0;
    while c < n
        invariant
            n == jobs@.len(),
            c <= n,
            estimates_shape(estimates@, n as int),
            job_set_items(used) == Set::<usize>::empty(),
            forall|k: int| 0 <= k < states@.len() ==> #[trigger] state_ok(states@[k], job_set_items(used), n as int),
            forall|k: int| 0 <= k < states@.len() ==> (#[trigger] states@[k]).cluster.is_none(),
            states@.len() == c,
            forall|k: int| 0 <= k < states@.len() ==> (#[trigger] states@[k]).center == k && job_set_items(states@[k].candidates)
                == init_set(estimates@, k as usize),
        decreases n - c,
    {
        let candidates = initial_candidates(c, &estimates[c], &used);
        assert(job_set_items(candidates) =~= init_set(estimates@, c));
        states.push(CenterState { center: c, cluster: None, candidates });
        c = c + 1;
    }

    assert forall|c: usize| #[trigger] has_center(states@, c) <==> left_at(estimates@, n as int, clusters@, clusters@.len() as int, c) by {
        if c < n {
            assert(states@[c as int].center == c);
        }
        assert(!used_before(clusters@, 0).contains(c));
    }
    assert forall|k: int| 0 <= k < states@.len() implies job_set_items((#[trigger] states@[k]).candidates) == cands_at(
        estimates@,
        states@[k].center,
        job_set_items(used),
    ) by {
        assert(cands_at(estimates@, states@[k].center, job_set_items(used)) =~= init_set(estimates@, k as usize));
    }
    assert(job_set_items(used) =~= used_before(clusters@, 0));
    loop
        invariant_except_break
            clusters@.len() == 0 ==> job_set_items(used) == Set::<usize>::empty() && states@.len() == n && forall|k: int|
                0 <= k < states@.len() ==> (#[trigger] states@[k]).center == k && states@[k].cluster.is_none() && job_set_items(
                    states@[k].candidates,
                ) == init_set(estimates@, k as usize),
            forall|a: int, b: int| 0 <= a < b < states@.len() ==> (#[trigger] states@[a]).center < (#[trigger] states@[b]).center,
            forall|c: usize| #[trigger] has_center(states@, c) <==> left_at(estimates@, n as int, clusters@, clusters@.len() as int, c),
            forall|k: int|
                0 <= k < states@.len() ==> job_set_items((#[trigger] states@[k]).candidates) == cands_at(
                    estimates@,
                    states@[k].center,
                    job_set_items(used),
                ),
        invariant
            job_set_items(used) == used_before(clusters@, clusters@.len() as int),
            forall|p: int| 0 <= p < clusters@.len() ==> #[trigger] picked_by_key(ordering_global, jobs@, estimates@, clusters@, p),
            n == jobs@.len(),
            estimates_shape(estimates@, n as int),
            forall|k: int| 0 <= k < states@.len() ==> #[trigger] state_ok(states@[k], job_set_items(used), n as int),
            clusters_disjoint(clusters@),
            forall|p: int| 0 <= p < clusters@.len() ==> #[trigger] committed_ok(clusters@[p], n as int),
            forall|p: int| 0 <= p < clusters@.len() ==> last_addition_checked(check_insertion, (#[trigger] clusters@[p]).0, config.visiting),
            forall|p: int| 0 <= p < clusters@.len() ==> starts_at_center((#[trigger] clusters@[p]).0, jobs@[clusters@[p].1@[0] as int], clusters@[p].1@[0]),
            forall|p: int| 0 <= p < clusters@.len() ==> members_reached((#[trigger] clusters@[p]).0, estimates@, clusters@[p].1@[0]),
        forall|p: int| 0 <= p < clusters@.len() ==> shaped_by_visits((#[trigger] clusters@[p]).0, estimates@, clusters@[p].1@[0], config.visiting),
            forall|p: int| 0 <= p < clusters@.len() ==> shaped_by_visits((#[trigger] clusters@[p]).0, estimates@, clusters@[p].1@[0], config.visiting),
            forall|k: int| 0 <= k < states@.len() && (#[trigger] states@[k]).cluster.is_some() ==> cached_ok(check_insertion, states@[k], jobs@, estimates@, config.visiting),
            forall|p: int, i: int|
                0 <= p < clusters@.len() && 0 <= i < clusters@[p].1@.len() ==> job_set_items(used).contains(
                    #[trigger] clusters@[p].1@[i],
                ),
            n == 0 ==> clusters@.len() == 0,
            forall|x: &Job, k: usize| ordering_global.requires((x, k)),
            forall|x: &ClusterInfo| ordering_local.requires((x,)),
            forall|x: &Job| threshold.requires((x,)),
            forall|x: &Job| check_insertion.requires((x,)),
    ensures
        clusters_disjoint(clusters@),
        forall|p: int| 0 <= p < clusters@.len() ==> #[trigger] committed_ok(clusters@[p], n as int),
        forall|p: int| 0 <= p < clusters@.len() ==> last_addition_checked(check_insertion, (#[trigger] clusters@[p]).0, config.visiting),
        forall|p: int| 0 <= p < clusters@.len() ==> starts_at_center((#[trigger] clusters@[p]).0, jobs@[clusters@[p].1@[0] as int], clusters@[p].1@[0]),
        forall|p: int| 0 <= p < clusters@.len() ==> members_reached((#[trigger] clusters@[p]).0, estimates@, clusters@[p].1@[0]),
        forall|p: int| 0 <= p < clusters@.len() ==> shaped_by_visits((#[trigger] clusters@[p]).0, estimates@, clusters@[p].1@[0], config.visiting),
        n == 0 ==> clusters@.len() == 0,
        clusters@.len() == 0 ==> n == 0 || first_pick_fails(*pipeline, jobs@, estimates@, *config, ordering_global, check_insertion),
        forall|p: int| 0 <= p < clusters@.len() ==> #[trigger] picked_by_key(ordering_global, jobs@, estimates@, clusters@, p),
        decreases states@.len(),
    {
        if states.len() == 0 {
            break;
        }
        let ghost u = job_set_items(used);
        // build the missing clusters, keeping the order of the centers
        let ghost count = states@.len();
        let ghost orig0 = states@;
        let mut built: Vec<CenterState> = Vec::new();
        while states.len() > 0
            invariant
                n == jobs@.len(),
                estimates_shape(estimates@, n as int),
                u == job_set_items(used),
                built@.len() + states@.len() == count,
                orig0.len() == count,
                forall|k: int| 0 <= k < states@.len() ==> states@[k] == orig0[built@.len() + k],
                forall|k: int|
                    0 <= k < built@.len() ==> (#[trigger] built@[k]).center == orig0[k].center && job_set_items(built@[k].candidates)
                        == job_set_items(orig0[k].candidates),
                clusters@.len() == 0 ==> count == n && u == Set::<usize>::empty() && (forall|k: int|
                    0 <= k < states@.len() ==> (#[trigger] states@[k]).center == built@.len() + k && states@[k].cluster.is_none()
                        && job_set_items(states@[k].candidates) == init_set(estimates@, (built@.len() + k) as usize)) && (forall|k: int|
                    0 <= k < built@.len() ==> (#[trigger] built@[k]).center == k && job_set_items(built@[k].candidates) == init_set(
                        estimates@,
                        k as usize,
                    ) && (built@[k].cluster.is_none() ==> no_cluster_around(
                        *pipeline,
                        jobs@,
                        estimates@,
                        k as usize,
                        Set::empty(),
                        *config,
                        check_insertion,
                    ))),
                forall|k: int| 0 <= k < states@.len() ==> #[trigger] state_ok(states@[k], u, n as int),
                forall|k: int| 0 <= k < built@.len() ==> #[trigger] state_ok(built@[k], u, n as int),
                forall|k: int| 0 <= k < states@.len() && (#[trigger] states@[k]).cluster.is_some() ==> cached_ok(check_insertion, states@[k], jobs@, estimates@, config.visiting),
                forall|k: int| 0 <= k < built@.len() && (#[trigger] built@[k]).cluster.is_some() ==> cached_ok(check_insertion, built@[k], jobs@, estimates@, config.visiting),
                forall|x: &ClusterInfo| ordering_local.requires((x,)),
                forall|x: &Job| threshold.requires((x,)),
                forall|x: &Job| check_insertion.requires((x,)),
            decreases states@.len(),
        {
            let ghost rest = states@;
            let st = states.remove(0);
            assert(st == rest[0]);
            assert(state_ok(rest[0], u, n as int));
            assert forall|k: int| 0 <= k < states@.len() implies states@[k] == rest[k + 1] by {}
            assert forall|k: int| 0 <= k < states@.len() implies #[trigger] state_ok(states@[k], u, n as int) by {
                assert(states@[k] == rest[k + 1]);
            }
            assert forall|k: int| 0 <= k < states@.len() && (#[trigger] states@[k]).cluster.is_some() implies cached_ok(check_insertion, states@[k], jobs@, estimates@, config.visiting) by {
                assert(states@[k] == rest[k + 1]);
            }
            assert(cached_ok(check_insertion, rest[0], jobs@, estimates@, config.visiting));
            let CenterState { center, cluster, candidates } = st;
            let cluster = match cluster {
                Some(job) => Some(job),
                None => build_job_cluster(
                    pipeline,
                    jobs,
                    center,
                    estimates,
                    &used,
                    config,
                    ordering_local,
                    threshold,
                    check_insertion,
                ),
            };
            let ghost before = built@;
            built.push(CenterState { center, cluster, candidates });
            assert forall|k: int| 0 <= k < before.len() implies built@[k] == before[k] by {}
            assert forall|k: int| 0 <= k < built@.len() implies #[trigger] state_ok(built@[k], u, n as int) by {
                if k < before.len() { assert(built@[k] == before[k]); }
            }
            assert forall|k: int| 0 <= k < built@.len() && (#[trigger] built@[k]).cluster.is_some() implies cached_ok(check_insertion, built@[k], jobs@, estimates@, config.visiting) by {
                if k < before.len() { assert(built@[k] == before[k]); }
            }
        }
        proof {
            assert forall|k: int| 0 <= k < built@.len() implies (#[trigger] built@[k]).center == orig0[k].center by {}
            assert forall|c: usize| #[trigger] has_center(built@, c) <==> has_center(orig0, c) by {
                if has_center(orig0, c) {
                    let k = choose|k: int| 0 <= k < orig0.len() && (#[trigger] orig0[k]).center == c;
                    assert(built@[k].center == c);
                }
                if has_center(built@, c) {
                    let k = choose|k: int| 0 <= k < built@.len() && (#[trigger] built@[k]).center == c;
                    assert(orig0[k].center == c);
                }
            }
            assert forall|a: int, b: int| 0 <= a < b < built@.len() implies (#[trigger] built@[a]).center < (#[trigger] built@[b]).center by {
                assert(built@[a].center == orig0[a].center);
                assert(built@[b].center == orig0[b].center);
            }
            assert forall|k: int| 0 <= k < built@.len() implies job_set_items((#[trigger] built@[k]).candidates) == cands_at(
                estimates@,
                built@[k].center,
                job_set_items(used),
            ) by {
                assert(built@[k].center == orig0[k].center);
            }
        }
        states = built;
        if states.len() == 0 {
            assert(clusters@.len() == 0 ==> n == 0);
            break;
        }

        let mut keys: Vec<i64> = Vec::new();
        let mut k: usize = 0;
        while k < states.len()
            invariant
                n == jobs@.len(),
                keys@.len() == k,
                k <= states@.len(),
                forall|q: int| 0 <= q < states@.len() ==> #[trigger] state_ok(states@[q], u, n as int),
                forall|q: int| 0 <= q < states@.len() && (#[trigger] states@[q]).cluster.is_some() ==> cached_ok(check_insertion, states@[q], jobs@, estimates@, config.visiting),
                forall|q: int| 0 <= q < k ==> ordering_global.ensures(
                    (&jobs@[states@[q].center as int], job_set_items(states@[q].candidates).len() as usize),
                    #[trigger] keys@[q],
                ),
                forall|x: &Job, k: usize| ordering_global.requires((x, k)),
            decreases states@.len() - k,
        {
            assert(state_ok(states@[k as int], u, n as int));
            let st = &states[k];
            let cnt = st.candidates.len();
            let key = ordering_global(&jobs[st.center], cnt);
            let ghost before_keys = keys@;
            keys.push(key);
            assert forall|q: int| 0 <= q < k implies keys@[q] == before_keys[q] by {}
            k = k + 1;
        }
        let best = select_best(&keys);
        let ghost before_states = states@;
        let ghost p_now = clusters@.len() as int;
        let ghost cl_now = clusters@;
        let ghost ks = Seq::new(
            n as nat,
            |c: int|
                if has_center(states@, c as usize) {
                    keys@[choose|k: int| 0 <= k < states@.len() && (#[trigger] states@[k]).center == c as usize]
                } else {
                    0
                },
        );
        proof {
            let c0 = states@[best as int].center;
            assert(has_center(states@, c0));
            assert(ks[c0 as int] == keys@[best as int]) by {
                let k = choose|k: int| 0 <= k < states@.len() && (#[trigger] states@[k]).center == c0;
                if k < best {
                    assert(states@[k].center < states@[best as int].center);
                } else if k > best {
                    assert(states@[best as int].center < states@[k].center);
                }
            }
            assert forall|c: usize| #[trigger] left_at(estimates@, n as int, cl_now, p_now, c) implies ks[c as int] <= ks[c0 as int] && (c
                < c0 ==> ks[c as int] < ks[c0 as int]) && ordering_global.ensures(
                (&jobs@[c as int], cands_at(estimates@, c, used_before(cl_now, p_now)).len() as usize),
                ks[c as int],
            ) by {
                assert(has_center(states@, c));
                let k = choose|k: int| 0 <= k < states@.len() && (#[trigger] states@[k]).center == c;
                assert(ks[c as int] == keys@[k]);
                if c < c0 && k >= best {
                    if k > best {
                        assert(states@[best as int].center < states@[k].center);
                    }
                }
            }
            assert(round_keys(ordering_global, jobs@, estimates@, cl_now, p_now, ks));
            assert(left_at(estimates@, n as int, cl_now, p_now, c0));
        }
        let chosen = states.remove(best);
        assert(chosen == before_states[best as int]);
        assert(state_ok(before_states[best as int], u, n as int));
        assert(before_states[best as int].cluster.is_some() ==> cached_ok(check_insertion, before_states[best as int], jobs@, estimates@, config.visiting));
        assert forall|q: int| 0 <= q < states@.len() && (#[trigger] states@[q]).cluster.is_some() implies cached_ok(check_insertion, states@[q], jobs@, estimates@, config.visiting) by {
            if q < best { assert(states@[q] == before_states[q]); } else { assert(states@[q] == before_states[q + 1]); }
        }
        assert forall|q: int| 0 <= q < states@.len() implies #[trigger] state_ok(states@[q], u, n as int) by {
            if q < best { assert(states@[q] == before_states[q]); } else { assert(states@[q] == before_states[q + 1]); }
        }
        match chosen.cluster {
            None => {
                proof {
                    if clusters@.len() == 0 {
                        assert forall|q: int| 0 <= q < n implies ordering_global.ensures(
                            (&jobs@[q], init_set(estimates@, q as usize).len() as usize),
                            #[trigger] keys@[q],
                        ) by {
                            assert(before_states[q].center == q);
                        }
                        assert(first_round_keys(ordering_global, jobs@, estimates@, keys@));
                        assert(before_states[best as int].center == best);
                        assert(no_cluster_around(*pipeline, jobs@, estimates@, best, Set::empty(), *config, check_insertion));
                        assert(first_pick_fails(*pipeline, jobs@, estimates@, *config, ordering_global, check_insertion)) by {
                            assert(keys@.len() == n);
                            assert(first_round_keys(ordering_global, jobs@, estimates@, keys@) && best < n && (forall|k: int|
                                0 <= k < n ==> keys@[k] <= keys@[best as int]) && (forall|k: int| 0 <= k < best ==> keys@[k] < keys@[best as int]));
                        }
                    }
                }
                break;
            },
            Some(job) => {
                let members = cluster_jobs(&job);
                let ghost infos = cluster_infos(job.dimens);
                assert(cluster_ok(job, chosen.center, u, n as int));
                let mut t: usize = 0;
                while t < members.len()
                    invariant
                        t <= members@.len(),
                        forall|x: usize| #[trigger] job_set_items(used).contains(x) <==> u.contains(x) || exists|q: int|
                            0 <= q < t && members@[q] == x,
                    decreases members@.len() - t,
                {
                    let ghost prev = job_set_items(used);
                    used.insert(members[t]);
                    assert forall|x: usize| #[trigger] job_set_items(used).contains(x) <==> u.contains(x) || exists|q: int|
                        0 <= q < t + 1 && members@[q] == x by {
                        if x == members@[t as int] {
                        } else if prev.contains(x) {
                        } else {
                            if exists|q: int| 0 <= q < t + 1 && members@[q] == x {
                                let q = choose|q: int| 0 <= q < t + 1 && members@[q] == x;
                                assert(q != t);
                            }
                        }
                    }
                    t = t + 1;
                }
                proof {
                    assert forall|q: int, x: usize|
                        0 <= q < states@.len() && #[trigger] job_set_items(states@[q].candidates).contains(x) implies !job_set_items(
                            used,
                        ).contains(x) || members@.contains(x) by {
                        assert(state_ok(states@[q], u, n as int));
                        if job_set_items(used).contains(x) && !u.contains(x) {
                            let w = choose|w: int| 0 <= w < members@.len() && members@[w] == x;
                            assert(members@[w] == x);
                        }
                    }
                    assert forall|q: int|
                        0 <= q < states@.len() && (#[trigger] states@[q]).cluster.is_some() implies cluster_shape_ok(
                            states@[q].cluster.unwrap(),
                            states@[q].center,
                            n as int,
                        ) by {
                        assert(state_ok(states@[q], u, n as int));
                    }
                    assert forall|q: int| 0 <= q < states@.len() implies (#[trigger] states@[q]).center < n by {
                        assert(state_ok(states@[q], u, n as int));
                    }
                }
                let ghost pre_commit = states@;
                states = commit_cluster(states, &members, &used, n);
                assert forall|q: int| 0 <= q < states@.len() && (#[trigger] states@[q]).cluster.is_some() implies cached_ok(check_insertion, states@[q], jobs@, estimates@, config.visiting) by {
                    let w = choose|w: int| 0 <= w < pre_commit.len() && (#[trigger] pre_commit[w]).cluster == states@[q].cluster
                        && pre_commit[w].center == states@[q].center;
                    assert(cached_ok(check_insertion, pre_commit[w], jobs@, estimates@, config.visiting));
                }
                let ghost old_clusters = clusters@;
                let entry = (job, members);
                clusters.push(entry);
                proof {
                    let cs = clusters@;
                    let last = old_clusters.len() as int;
                    assert(cs[last] == entry);
                    assert forall|i: int| 0 <= i < entry.1@.len() implies #[trigger] entry.1@[i] == cluster_infos(entry.0.dimens)[i].job
                        && entry.1@[i] < n by {
                        assert(members@[i] == infos[i].job);
                        assert(infos[i].job < n);
                    }
                    assert(committed_ok(entry, n as int));
                    assert forall|p: int| 0 <= p < cs.len() implies #[trigger] committed_ok(cs[p], n as int) by {
                        if p < last { assert(cs[p] == old_clusters[p]); }
                    }
                    assert forall|p: int| 0 <= p < cs.len() implies last_addition_checked(check_insertion, (#[trigger] cs[p]).0, config.visiting) by {
                        if p < last { assert(cs[p] == old_clusters[p]); }
                    }
                    assert(entry.1@[0] == chosen.center);
                    assert forall|p: int| 0 <= p < cs.len() implies starts_at_center((#[trigger] cs[p]).0, jobs@[cs[p].1@[0] as int], cs[p].1@[0]) by {
                        if p < last { assert(cs[p] == old_clusters[p]); }
                    }
                    assert forall|p: int| 0 <= p < cs.len() implies members_reached((#[trigger] cs[p]).0, estimates@, cs[p].1@[0]) by {
                        if p < last { assert(cs[p] == old_clusters[p]); }
                    }
                    assert forall|p: int| 0 <= p < cs.len() implies shaped_by_visits((#[trigger] cs[p]).0, estimates@, cs[p].1@[0], config.visiting) by {
                        if p < last { assert(cs[p] == old_clusters[p]); }
                    }
                    assert forall|p: int, i: int| 0 <= p < cs.len() && 0 <= i < cs[p].1@.len() implies job_set_items(used).contains(
                        #[trigger] cs[p].1@[i],
                    ) by {
                        if p < last {
                            assert(cs[p] == old_clusters[p]);
                            assert(u.contains(old_clusters[p].1@[i]));
                        } else {
                            assert(exists|q: int| 0 <= q < members@.len() && members@[q] == cs[p].1@[i]);
                        }
                    }
                    assert forall|p: int, q: int, i: int, j: int|
                        0 <= p < cs.len() && 0 <= q < cs.len() && 0 <= i < cs[p].1@.len() && 0 <= j < cs[q].1@.len() && (
                        p != q || i != j) implies (#[trigger] cs[p].1@[i]) != (#[trigger] cs[q].1@[j]) by {
                        if p < last && q < last {
                            assert(cs[p] == old_clusters[p]);
                            assert(cs[q] == old_clusters[q]);
                            assert(old_clusters[p].1@[i] != old_clusters[q].1@[j]);
                        } else if p == last && q == last {
                            assert(infos[i].job != infos[j].job || i == j);
                            if i != j {
                                if i < j {
                                    assert(infos[i].job != infos[j].job);
                                } else {
                                    assert(infos[j].job != infos[i].job);
                                }
                            }
                        } else if p == last {
                            assert(cs[q] == old_clusters[q]);
                            assert(u.contains(old_clusters[q].1@[j]));
                            assert(!u.contains(infos[i].job));
                        } else {
                            assert(cs[p] == old_clusters[p]);
                            assert(u.contains(old_clusters[p].1@[i]));
                            assert(!u.contains(infos[j].job));
                        }
                    }
                }
                proof {
                    let cs = clusters@;
                    let last = old_clusters.len() as int;
                    let c0 = before_states[best as int].center;
                    let uu = job_set_items(used);
                    assert(old_clusters == cl_now);
                    assert(entry.1@[0] == c0);
                    assert forall|y: usize| #[trigger] uu.contains(y) <==> u.contains(y) || members@.contains(y) by {
                        if members@.contains(y) {
                            let q = choose|q: int| 0 <= q < members@.len() && members@[q] == y;
                        }
                    }
                    assert forall|y: usize| uu.contains(y) <==> used_before(cs, cs.len() as int).contains(y) by {
                        lemma_used_after_commit(old_clusters, entry, y);
                    }
                    assert(uu =~= used_before(cs, cs.len() as int));
                    lemma_used_before_push(old_clusters, entry, last);
                    assert forall|p: int| 0 <= p < cs.len() implies #[trigger] picked_by_key(ordering_global, jobs@, estimates@, cs, p) by {
                        if p < last {
                            lemma_picked_push(ordering_global, jobs@, estimates@, old_clusters, entry, p);
                        } else {
                            assert(cs[p] == entry);
                            assert forall|c: usize| left_at(estimates@, n as int, cs, p, c) == left_at(estimates@, n as int, cl_now, p_now, c) by {}
                            assert(round_keys(ordering_global, jobs@, estimates@, cs, p, ks));
                        }
                    }
                    // the centers left now
                    assert(c0 < n);
                    assert forall|a: int, b: int| 0 <= a < b < pre_commit.len() implies (#[trigger] pre_commit[a]).center < (#[trigger] pre_commit[b]).center by {
                        let oa = if a < best { a } else { a + 1 };
                        let ob = if b < best { b } else { b + 1 };
                        assert(pre_commit[a] == before_states[oa]);
                        assert(pre_commit[b] == before_states[ob]);
                    }
                    assert forall|k: int| 0 <= k < states@.len() implies job_set_items((#[trigger] states@[k]).candidates) == cands_at(
                        estimates@,
                        states@[k].center,
                        uu,
                    ) by {
                        let j = choose|j: int|
                            0 <= j < pre_commit.len() && (#[trigger] pre_commit[j]).center == (#[trigger] states@[k]).center
                                && job_set_items(states@[k].candidates) == reduced(job_set_items(pre_commit[j].candidates), members@);
                        let oj = if j < best { j } else { j + 1 };
                        assert(pre_commit[j] == before_states[oj]);
                        lemma_reduce(estimates@, states@[k].center, u, uu, members@);
                    }
                    assert forall|c: usize| #[trigger] has_center(states@, c) <==> left_at(estimates@, n as int, cs, cs.len() as int, c) by {
                        lemma_reduce(estimates@, c, u, uu, members@);
                        if has_center(states@, c) {
                            assert(center_kept(pre_commit, pre_commit.len() as int, c, uu, members@));
                            let j = choose|j: int|
                                0 <= j < pre_commit.len() && (#[trigger] pre_commit[j]).center == c && !uu.contains(c) && reduced(
                                    job_set_items(pre_commit[j].candidates),
                                    members@,
                                ) != Set::<usize>::empty();
                            let oj = if j < best { j } else { j + 1 };
                            assert(pre_commit[j] == before_states[oj]);
                            assert(state_ok(before_states[oj], u, n as int));
                        }
                        if left_at(estimates@, n as int, cs, cs.len() as int, c) {
                            assert(cands_at(estimates@, c, uu).subset_of(cands_at(estimates@, c, u)));
                            if cands_at(estimates@, c, u) == Set::<usize>::empty() {
                                assert(cands_at(estimates@, c, uu) =~= Set::<usize>::empty());
                            }
                            assert(left_at(estimates@, n as int, cl_now, p_now, c));
                            assert(has_center(before_states, c));
                            let k = choose|k: int| 0 <= k < before_states.len() && (#[trigger] before_states[k]).center == c;
                            assert(k != best) by {
                                assert(members@[0] == c0);
                                assert(uu.contains(c0));
                            }
                            let j = if k < best { k } else { k - 1 };
                            assert(pre_commit[j] == before_states[k]);
                            assert(center_kept(pre_commit, pre_commit.len() as int, c, uu, members@));
                        }
                    }
                }
            },
        }
    }
    clusters
}

/// `w` lies within the cluster window `ct` and within the place window `pt`
/// opened `fwd` earlier.
pub open spec fn within(w: TimeWindow, ct: TimeWindow, pt: TimeWindow, fwd: int) -> bool {
    &&& ct.start <= w.start && w.end <= ct.end
    &&& pt.start - fwd <= w.start && w.end <= pt.end
}

proof fn lemma_row_shrinks(ct: TimeWindow, pts: Seq<TimeWindow>, fwd: int, cdur: int, ldur: int, thr: int, w: TimeWindow)
    requires
        fwd >= 0,
        cdur >= 0,
        ldur >= 0,
        windows_row(ct, pts, fwd, cdur, ldur, thr).contains(w),
    ensures
        exists|j: int| 0 <= j < pts.len() && within(w, ct, #[trigger] pts[j], fwd),
    decreases pts.len(),
{
    let prefix = windows_row(ct, pts.drop_last(), fwd, cdur, ldur, thr);
    let tail = opt_window(new_window(ct, pts.last(), fwd, cdur, ldur, thr));
    let k = choose|k: int| 0 <= k < prefix.len() + tail.len() && (prefix + tail)[k] == w;
    if k < prefix.len() {
        assert(prefix[k] == w);
        lemma_row_shrinks(ct, pts.drop_last(), fwd, cdur, ldur, thr, w);
        let j = choose|j: int| 0 <= j < pts.drop_last().len() && within(w, ct, #[trigger] pts.drop_last()[j], fwd);
        assert(pts[j] == pts.drop_last()[j]);
    } else {
        assert(tail[k - prefix.len()] == w);
        assert(within(w, ct, pts[pts.len() - 1], fwd));
    }
}

/// Each new cluster window lies within one of the cluster's windows and within
/// one of the candidate place's windows opened by the travel to it, when the
/// travel and the trailing durations are not negative.
pub proof fn lemma_cluster_windows_shrink(
    cts: Seq<TimeWindow>,
    pts: Seq<TimeWindow>,
    fwd: int,
    cdur: int,
    ldur: int,
    thr: int,
    w: TimeWindow,
)
    requires
        fwd >= 0,
        cdur >= 0,
        ldur >= 0,
        windows_all(cts, pts, fwd, cdur, ldur, thr).contains(w),
    ensures
        exists|i: int, j: int| 0 <= i < cts.len() && 0 <= j < pts.len() && within(w, #[trigger] cts[i], #[trigger] pts[j], fwd),
    decreases cts.len(),
{
    let prefix = windows_all(cts.drop_last(), pts, fwd, cdur, ldur, thr);
    let row = windows_row(cts.last(), pts, fwd, cdur, ldur, thr);
    let k = choose|k: int| 0 <= k < prefix.len() + row.len() && (prefix + row)[k] == w;
    if k < prefix.len() {
        assert(prefix[k] == w);
        lemma_cluster_windows_shrink(cts.drop_last(), pts, fwd, cdur, ldur, thr, w);
        let (i, j) = choose|i: int, j: int| 0 <= i < cts.drop_last().len() && 0 <= j < pts.len() && within(
            w,
            #[trigger] cts.drop_last()[i],
            #[trigger] pts[j],
            fwd,
        );
        assert(cts[i] == cts.drop_last()[i]);
    } else {
        assert(row[k - prefix.len()] == w);
        lemma_row_shrinks(cts.last(), pts, fwd, cdur, ldur, thr, w);
        let j = choose|j: int| 0 <= j < pts.len() && within(w, cts.last(), #[trigger] pts[j], fwd);
        assert(within(w, cts[cts.len() - 1], pts[j], fwd));
    }
}

} // verus!
