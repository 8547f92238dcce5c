//! Settings of the vicinity clustering and the dissimilarities between jobs.

use vstd::prelude::*;
use crate::models::{ClusterInfo, Job, Movement, Place, TimeWindow, concrete_windows, filter_times, overlap_spec};
use crate::transport::RoutingMatrix;

verus! {

/// How the service time of a clustered job is derived from its place's duration.
#[derive(Clone, Copy, Debug, PartialEq, Eq, Structural)]
pub enum ServiceTimePolicy {
    /// The place's own duration.
    Original,
    /// The place's duration times a whole factor, saturated to the range of `i64`.
    Multiplier(u32),
    /// A fixed duration.
    Fixed(i64),
}

/// How a cluster is travelled.
#[derive(Clone, Copy, Debug, PartialEq, Eq, Structural)]
pub enum VisitPolicy {
    /// Back to the center after each visit.
    Return,
    /// From visit to visit, and back to the center at the end.
    ClosedContinuation,
    /// From visit to visit, ending anywhere.
    OpenContinuation,
}

/// When two jobs count as close to each other.
#[derive(Clone, Copy, Debug, PartialEq, Eq, Structural)]
pub struct ThresholdPolicy {
    /// Each movement must take strictly less than this.
    pub moving_duration: i64,
    /// Each movement must be strictly shorter than this.
    pub moving_distance: i64,
    /// The places must share strictly more time than this (zero when `None`).
    pub min_shared_time: Option<i64>,
}

/// The plain settings of a clustering run.
#[derive(Clone, Copy, Debug, PartialEq, Eq, Structural)]
pub struct ClusterConfig {
    pub threshold: ThresholdPolicy,
    pub visiting: VisitPolicy,
    pub service_time: ServiceTimePolicy,
    /// New cluster time windows narrower than this are dropped (zero when `None`).
    pub smallest_time_window: Option<i64>,
}

/// One way to visit `info.job` after a place of another job: whether the pair is
/// reachable within the thresholds, which place of the other job it starts from,
/// and the visit record.
#[derive(Clone, Copy, Debug, PartialEq, Eq, Structural)]
pub struct DissimilarityInfo {
    pub reachable: bool,
    pub outer_place_idx: usize,
    pub info: ClusterInfo,
}

pub open spec fn max_int(a: int, b: int) -> int {
    if a >= b { a } else { b }
}

/// The time that two windows share.
pub open spec fn overlap_len(a: TimeWindow, b: TimeWindow) -> int {
    match overlap_spec(a, b) {
        Some(w) => w.end - w.start,
        None => 0,
    }
}

pub open spec fn shared_row(a: TimeWindow, bs: Seq<TimeWindow>) -> int
    decreases bs.len(),
{
    if bs.len() == 0 {
        0
    } else {
        max_int(shared_row(a, bs.drop_last()), overlap_len(a, bs.last()))
    }
}

/// The most time that a window of `xs` shares with a window of `ys`, zero if none.
pub open spec fn shared_time(xs: Seq<TimeWindow>, ys: Seq<TimeWindow>) -> int
    decreases xs.len(),
{
    if xs.len() == 0 {
        0
    } else {
        max_int(shared_time(xs.drop_last(), ys), shared_row(xs.last(), ys))
    }
}

pub open spec fn clamp_i64(x: int) -> i64 {
    if x > i64::MAX {
        i64::MAX
    } else if x < i64::MIN {
        i64::MIN
    } else {
        x as i64
    }
}

pub open spec fn service_time_spec(policy: ServiceTimePolicy, duration: i64) -> i64 {
    match policy {
        ServiceTimePolicy::Original => duration,
        ServiceTimePolicy::Multiplier(m) => clamp_i64(duration * m),
        ServiceTimePolicy::Fixed(t) => t,
    }
}

pub open spec fn min_shared_spec(c: ClusterConfig) -> int {
    match c.threshold.min_shared_time {
        Some(t) => t as int,
        None => 0,
    }
}

/// Both movements are possible (no value is negative) and within the
/// thresholds, strictly.
pub open spec fn reachable_spec(c: ClusterConfig, fwd: Movement, bck: Movement) -> bool {
    &&& fwd.distance >= 0 && bck.distance >= 0 && fwd.duration >= 0 && bck.duration >= 0
    &&& fwd.duration < c.threshold.moving_duration && bck.duration < c.threshold.moving_duration
    &&& fwd.distance < c.threshold.moving_distance && bck.distance < c.threshold.moving_distance
}

/// The places' locations are known to the matrix.
pub open spec fn locations_known(places: Seq<Place>, m: RoutingMatrix) -> bool {
    forall|k: int| 0 <= k < places.len() && (#[trigger] places[k]).location.is_some() ==> places[k].location.unwrap() < m.size
}

/// What a place of the outer job and a place of the inner job give.
pub open spec fn pair_info(
    outer_pi: int,
    outer: Place,
    inner_pi: int,
    inner: Place,
    inner_idx: usize,
    m: RoutingMatrix,
    c: ClusterConfig,
) -> Option<DissimilarityInfo> {
    match (outer.location, inner.location) {
        (Some(ol), Some(il)) => if shared_time(concrete_windows(outer.times@), concrete_windows(inner.times@))
            > min_shared_spec(c) {
            let fwd = Movement { distance: m.distance_spec(ol as int, il as int), duration: m.duration_spec(ol as int, il as int) };
            let bck = Movement { distance: m.distance_spec(il as int, ol as int), duration: m.duration_spec(il as int, ol as int) };
            Some(
                DissimilarityInfo {
                    reachable: reachable_spec(c, fwd, bck),
                    outer_place_idx: outer_pi as usize,
                    info: ClusterInfo {
                        job: inner_idx,
                        service_time: service_time_spec(c.service_time, inner.duration),
                        place_idx: inner_pi as usize,
                        forward: fwd,
                        backward: bck,
                    },
                },
            )
        } else {
            None
        },
        _ => None,
    }
}

pub open spec fn opt_seq<T>(o: Option<T>) -> Seq<T> {
    match o {
        Some(x) => seq![x],
        None => Seq::empty(),
    }
}

/// What one outer place gives with each of the inner places, in order.
pub open spec fn infos_row(
    outer_pi: int,
    outer: Place,
    inner: Seq<Place>,
    inner_idx: usize,
    m: RoutingMatrix,
    c: ClusterConfig,
) -> Seq<DissimilarityInfo>
    decreases inner.len(),
{
    if inner.len() == 0 {
        Seq::empty()
    } else {
        infos_row(outer_pi, outer, inner.drop_last(), inner_idx, m, c) + opt_seq(
            pair_info(outer_pi, outer, inner.len() - 1, inner.last(), inner_idx, m, c),
        )
    }
}

/// The dissimilarities of the outer places against the inner places, outer
/// place by outer place.
pub open spec fn infos_all(
    outer: Seq<Place>,
    inner: Seq<Place>,
    inner_idx: usize,
    m: RoutingMatrix,
    c: ClusterConfig,
) -> Seq<DissimilarityInfo>
    decreases outer.len(),
{
    if outer.len() == 0 {
        Seq::empty()
    } else {
        infos_all(outer.drop_last(), inner, inner_idx, m, c) + infos_row(outer.len() - 1, outer.last(), inner, inner_idx, m, c)
    }
}

fn shared_time_of(xs: &Vec<TimeWindow>, ys: &Vec<TimeWindow>) -> (r: i128)
    ensures
        r == shared_time(xs@, ys@),
{
    let mut best: i128 = 0;
    let mut i: usize = 0;
    while i < xs.len()
        invariant
            i <= xs@.len(),
            best == shared_time(xs@.subrange(0, i as int), ys@),
            0 <= best <= u64::MAX,
        decreases xs@.len() - i,
    {
        let mut row: i128 = 0;
        let mut j: usize = 0;
        while j < ys.len()
            invariant
                i < xs@.len(),
                j <= ys@.len(),
                row == shared_row(xs@[i as int], ys@.subrange(0, j as int)),
                0 <= row <= u64::MAX,
            decreases ys@.len() - j,
        {
            assert(ys@.subrange(0, j as int + 1).drop_last() == ys@.subrange(0, j as int));
            let d: i128 = match xs[i].overlapping(&ys[j]) {
                Some(w) => w.duration(),
                None => 0,
            };
            if d > row {
                row = d;
            }
            j = j + 1;
        }
        assert(ys@.subrange(0, ys@.len() as int) == ys@);
        assert(xs@.subrange(0, i as int + 1).drop_last() == xs@.subrange(0, i as int));
        if row > best {
            best = row;
        }
        i = i + 1;
    }
    assert(xs@.subrange(0, xs@.len() as int) == xs@);
    best
}

fn service_time_of(policy: &ServiceTimePolicy, duration: i64) -> (r: i64)
    ensures
        r == service_time_spec(*policy, duration),
{
    match policy {
        ServiceTimePolicy::Original => duration,
        ServiceTimePolicy::Multiplier(m) => {
            let d: i128 = duration as i128;
            let f: i128 = *m as i128;
            proof {
                assert(-0x8000_0000_0000_0000 * 0x1_0000_0000 <= d * f <= 0x8000_0000_0000_0000 * 0x1_0000_0000) by (nonlinear_arith)
                    requires -0x8000_0000_0000_0000 <= d <= 0x8000_0000_0000_0000, 0 <= f <= 0x1_0000_0000;
            }
            let x: i128 = d * f;
            if x > i64::MAX as i128 {
                i64::MAX
            } else if x < i64::MIN as i128 {
                i64::MIN
            } else {
                x as i64
            }
        },
        ServiceTimePolicy::Fixed(t) => *t,
    }
}

fn pair_dissimilarity(
    outer_pi: usize,
    outer: &Place,
    inner_pi: usize,
    inner: &Place,
    inner_idx: usize,
    m: &RoutingMatrix,
    c: &ClusterConfig,
) -> (r: Option<DissimilarityInfo>)
    requires
        m.wf(),
        outer.location.is_some() ==> outer.location.unwrap() < m.size,
        inner.location.is_some() ==> inner.location.unwrap() < m.size,
    ensures
        r == pair_info(outer_pi as int, *outer, inner_pi as int, *inner, inner_idx, *m, *c),
{
    match (outer.location, inner.location) {
        (Some(ol), Some(il)) => {
            let shared = shared_time_of(&filter_times(&outer.times), &filter_times(&inner.times));
            let min_shared: i128 = match c.threshold.min_shared_time {
                Some(t) => t as i128,
                None => 0,
            };
            if shared > min_shared {
                let fwd = Movement { distance: m.distance(ol, il), duration: m.duration(ol, il) };
                let bck = Movement { distance: m.distance(il, ol), duration: m.duration(il, ol) };
                let reachable = fwd.distance >= 0 && bck.distance >= 0 && fwd.duration >= 0 && bck.duration >= 0
                    && fwd.duration < c.threshold.moving_duration && bck.duration < c.threshold.moving_duration
                    && fwd.distance < c.threshold.moving_distance && bck.distance < c.threshold.moving_distance;
                Some(DissimilarityInfo {
                    reachable,
                    outer_place_idx: outer_pi,
                    info: ClusterInfo {
                        job: inner_idx,
                        service_time: service_time_of(&c.service_time, inner.duration),
                        place_idx: inner_pi,
                        forward: fwd,
                        backward: bck,
                    },
                })
            } else {
                None
            }
        },
        _ => None,
    }
}

/// Computes the dissimilarities of the job `inner_idx` (`inner`) as seen from
/// the job `outer`: for each pair of located places, outer place by outer place,
/// those that share more than the minimum time.
pub fn get_dissimilarities(outer: &Job, inner: &Job, inner_idx: usize, m: &RoutingMatrix, c: &ClusterConfig) -> (r: Vec<
    DissimilarityInfo,
>)
    requires
        m.wf(),
        locations_known(outer.places@, *m),
        locations_known(inner.places@, *m),
    ensures
        r@ == infos_all(outer.places@, inner.places@, inner_idx, *m, *c),
{
    let mut r: Vec<DissimilarityInfo> = Vec::new();
    let mut i: usize = 0;
    while i < outer.places.len()
        invariant
            m.wf(),
            locations_known(outer.places@, *m),
            locations_known(inner.places@, *m),
            i <= outer.places@.len(),
            r@ == infos_all(outer.places@.subrange(0, i as int), inner.places@, inner_idx, *m, *c),
        decreases outer.places@.len() - i,
    {
        let ghost base = r@;
        let op = &outer.places[i];
        assert(outer.places@[i as int] == *op);
        let mut j: usize = 0;
        while j < inner.places.len()
            invariant
                m.wf(),
                locations_known(outer.places@, *m),
                locations_known(inner.places@, *m),
                i < outer.places@.len(),
                *op == outer.places@[i as int],
                j <= inner.places@.len(),
                r@ == base + infos_row(i as int, *op, inner.places@.subrange(0, j as int), inner_idx, *m, *c),
            decreases inner.places@.len() - j,
        {
            let ghost before = r@;
            let ip = &inner.places[j];
            assert(inner.places@[j as int] == *ip);
            assert(inner.places@.subrange(0, j as int + 1).drop_last() == inner.places@.subrange(0, j as int));
            match pair_dissimilarity(i, op, j, ip, inner_idx, m, c) {
                Some(d) => {
                    r.push(d);
                    assert(r@ == before + seq![d]);
                },
                None => {
                    assert(r@ == before + Seq::<DissimilarityInfo>::empty());
                },
            }
            assert(r@ == base + infos_row(i as int, *op, inner.places@.subrange(0, j as int + 1), inner_idx, *m, *c));
            j = j + 1;
        }
        assert(inner.places@.subrange(0, inner.places@.len() as int) == inner.places@);
        assert(outer.places@.subrange(0, i as int + 1).drop_last() == outer.places@.subrange(0, i as int));
        i = i + 1;
    }
    assert(outer.places@.subrange(0, outer.places@.len() as int) == outer.places@);
    r
}

/// Every job's places are known to the matrix.
pub open spec fn jobs_located(jobs: Seq<Job>, m: RoutingMatrix) -> bool {
    forall|k: int| 0 <= k < jobs.len() ==> locations_known(#[trigger] jobs[k].places@, m)
}

/// The dissimilarities of every job against every other job: entry `[o][i]`
/// holds what job `i` gives as seen from job `o`, and is empty when `o == i`.
pub open spec fn estimates_spec(e: Seq<Vec<Vec<DissimilarityInfo>>>, jobs: Seq<Job>, m: RoutingMatrix, c: ClusterConfig) -> bool {
    &&& e.len() == jobs.len()
    &&& forall|o: int| 0 <= o < jobs.len() ==> (#[trigger] e[o])@.len() == jobs.len()
    &&& forall|o: int, i: int|
        0 <= o < jobs.len() && 0 <= i < jobs.len() ==> (#[trigger] e[o]@[i])@ == if o == i {
            Seq::empty()
        } else {
            infos_all(jobs[o].places@, jobs[i].places@, i as usize, m, c)
        }
}

/// Computes the dissimilarities between all pairs of distinct jobs.
pub fn get_jobs_dissimilarities(jobs: &Vec<Job>, m: &RoutingMatrix, c: &ClusterConfig) -> (r: Vec<Vec<Vec<DissimilarityInfo>>>)
    requires
        m.wf(),
        jobs_located(jobs@, *m),
    ensures
        estimates_spec(r@, jobs@, *m, *c),
{
    let mut r: Vec<Vec<Vec<DissimilarityInfo>>> = Vec::new();
    let mut o: usize = 0;
    while o < jobs.len()
        invariant
            m.wf(),
            jobs_located(jobs@, *m),
            o <= jobs@.len(),
            r@.len() == o,
            forall|x: int| 0 <= x < o ==> (#[trigger] r@[x])@.len() == jobs@.len(),
            forall|x: int, i: int|
                0 <= x < o && 0 <= i < jobs@.len() ==> (#[trigger] r@[x]@[i])@ == if x == i {
                    Seq::empty()
                } else {
                    infos_all(jobs@[x].places@, jobs@[i].places@, i as usize, *m, *c)
                },
        decreases jobs@.len() - o,
    {
        let mut row: Vec<Vec<DissimilarityInfo>> = Vec::new();
        let mut i: usize = 0;
        while i < jobs.len()
            invariant
                m.wf(),
                jobs_located(jobs@, *m),
                o < jobs@.len(),
                i <= jobs@.len(),
                row@.len() == i,
                forall|y: int| 0 <= y < i ==> (#[trigger] row@[y])@ == if o == y {
                    Seq::empty()
                } else {
                    infos_all(jobs@[o as int].places@, jobs@[y].places@, y as usize, *m, *c)
                },
            decreases jobs@.len() - i,
        {
            assert(locations_known(jobs@[o as int].places@, *m));
            assert(locations_known(jobs@[i as int].places@, *m));
            if o == i {
                row.push(Vec::new());
            } else {
                row.push(get_dissimilarities(&jobs[o], &jobs[i], i, m, c));
            }
            i = i + 1;
        }
        r.push(row);
        o = o + 1;
    }
    r
}

} // verus!
