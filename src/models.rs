//! Domain model: time windows, places, jobs, vehicles and routes.

use vstd::prelude::*;
use crate::skills::{JobSkills, opt_skills_view};

verus! {

/// A half-open interval of time `[start, end)`, in whole time units.
#[derive(Clone, Copy, Debug, PartialEq, Eq, Structural)]
pub struct TimeWindow {
    pub start: i64,
    pub end: i64,
}

/// The intersection of two windows, when it is not empty.
pub open spec fn overlap_spec(a: TimeWindow, b: TimeWindow) -> Option<TimeWindow> {
    let start = if a.start >= b.start { a.start } else { b.start };
    let end = if a.end <= b.end { a.end } else { b.end };
    if start < end {
        Some(TimeWindow { start, end })
    } else {
        None
    }
}

impl TimeWindow {
    /// Creates a window from its two ends.
    pub fn new(start: i64, end: i64) -> (r: TimeWindow)
        ensures
            r.start == start,
            r.end == end,
    {
        TimeWindow { start, end }
    }

    /// Returns the intersection of two windows if it is not empty.
    pub fn overlapping(&self, other: &TimeWindow) -> (r: Option<TimeWindow>)
        ensures
            r == overlap_spec(*self, *other),
    {
        let start = if self.start >= other.start { self.start } else { other.start };
        let end = if self.end <= other.end { self.end } else { other.end };
        if start < end {
            Some(TimeWindow { start, end })
        } else {
            None
        }
    }

    /// Returns the length of the window.
    pub fn duration(&self) -> (r: i128)
        ensures
            r == self.end - self.start,
    {
        self.end as i128 - self.start as i128
    }
}

/// A time span relative to the start of a route.
#[derive(Clone, Copy, Debug, PartialEq, Eq, Structural)]
pub struct TimeOffset {
    pub start: i64,
    pub end: i64,
}

/// Either a concrete time window or an offset that is resolved per route.
#[derive(Clone, Copy, Debug, PartialEq, Eq, Structural)]
pub enum TimeSpan {
    Window(TimeWindow),
    Offset(TimeOffset),
}

impl TimeSpan {
    /// Returns the concrete window, if this span is one.
    pub fn as_time_window(&self) -> (r: Option<TimeWindow>)
        ensures
            r == span_window(*self),
    {
        match self {
            TimeSpan::Window(tw) => Some(*tw),
            TimeSpan::Offset(_) => None,
        }
    }
}

pub open spec fn span_window(s: TimeSpan) -> Option<TimeWindow> {
    match s {
        TimeSpan::Window(tw) => Some(tw),
        TimeSpan::Offset(_) => None,
    }
}

/// The concrete windows among a sequence of spans, in order.
pub open spec fn concrete_windows(spans: Seq<TimeSpan>) -> Seq<TimeWindow>
    decreases spans.len(),
{
    if spans.len() == 0 {
        Seq::empty()
    } else {
        let rest = concrete_windows(spans.drop_last());
        match span_window(spans.last()) {
            Some(tw) => rest.push(tw),
            None => rest,
        }
    }
}

/// Keeps the concrete time windows of the given spans, in their order.
pub fn filter_times(times: &Vec<TimeSpan>) -> (r: Vec<TimeWindow>)
    ensures
        r@ == concrete_windows(times@),
{
    let mut r: Vec<TimeWindow> = Vec::new();
    let mut i: usize = 0;
    while i < times.len()
        invariant
            i <= times.len(),
            r@ == concrete_windows(times@.subrange(0, i as int)),
        decreases times.len() - i,
    {
        assert(times@.subrange(0, i as int + 1).drop_last() == times@.subrange(0, i as int));
        if let Some(tw) = times[i].as_time_window() {
            r.push(tw);
        }
        i = i + 1;
    }
    assert(times@.subrange(0, times.len() as int) == times@);
    r
}

/// Converts windows back to spans.
pub fn windows_to_spans(times: &Vec<TimeWindow>) -> (r: Vec<TimeSpan>)
    ensures
        r@.len() == times@.len(),
        forall|i: int| 0 <= i < times@.len() ==> r@[i] == TimeSpan::Window(times@[i]),
        concrete_windows(r@) == times@,
{
    let mut r: Vec<TimeSpan> = Vec::new();
    let mut i: usize = 0;
    while i < times.len()
        invariant
            i <= times.len(),
            r@.len() == i,
            forall|k: int| 0 <= k < i ==> r@[k] == TimeSpan::Window(times@[k]),
            concrete_windows(r@) == times@.subrange(0, i as int),
        decreases times.len() - i,
    {
        let ghost prev = r@;
        r.push(TimeSpan::Window(times[i]));
        assert(r@.drop_last() == prev);
        assert(times@.subrange(0, i as int + 1) == times@.subrange(0, i as int).push(times@[i as int]));
        i = i + 1;
    }
    assert(times@.subrange(0, times.len() as int) == times@);
    r
}

/// A movement between two locations.
#[derive(Clone, Copy, Debug, PartialEq, Eq, Structural)]
pub struct Movement {
    pub distance: i64,
    pub duration: i64,
}

/// A record of one visit in a cluster: the visited job (its index among the
/// clustered jobs), its service time, the chosen place and the movement to and
/// from the previous visit.
#[derive(Clone, Copy, Debug, PartialEq, Eq, Structural)]
pub struct ClusterInfo {
    pub job: usize,
    pub service_time: i64,
    pub place_idx: usize,
    pub forward: Movement,
    pub backward: Movement,
}

/// A place where a job can be served.
#[derive(Clone, Debug)]
pub struct Place {
    /// `None` means a location that is chosen later.
    pub location: Option<usize>,
    pub duration: i64,
    pub times: Vec<TimeSpan>,
}

/// The attributes carried by a job, one slot for each kind of attribute.
#[derive(Clone, Debug)]
pub struct Dimensions {
    pub id: Option<String>,
    pub skills: Option<JobSkills>,
    pub group: Option<String>,
    pub cluster: Option<Vec<ClusterInfo>>,
}

/// A job served at one of its places.
#[derive(Clone, Debug)]
pub struct Job {
    pub places: Vec<Place>,
    pub dimens: Dimensions,
}

/// A vehicle with its id and optional skills.
#[derive(Clone, Debug)]
pub struct Vehicle {
    pub id: String,
    pub skills: Option<Vec<String>>,
}

/// A route: the vehicle that serves it, the jobs of its activities in order,
/// and the groups that its jobs belong to as the group state keeps them.
#[derive(Clone, Debug)]
pub struct RouteContext {
    pub vehicle: Vehicle,
    pub jobs: Vec<Job>,
    pub groups: Vec<String>,
}

/// The routes of a solution.
#[derive(Clone, Debug)]
pub struct SolutionContext {
    pub routes: Vec<RouteContext>,
}

/// Copies a sequence of strings.
pub fn copy_strings(v: &Vec<String>) -> (r: Vec<String>)
    ensures
        r@ == v@,
{
    let mut r: Vec<String> = Vec::new();
    let mut i: usize = 0;
    while i < v.len()
        invariant
            i <= v.len(),
            r@ == v@.subrange(0, i as int),
        decreases v.len() - i,
    {
        let s = v[i].clone();
        r.push(s);
        assert(v@.subrange(0, i as int + 1) == v@.subrange(0, i as int).push(v@[i as int]));
        i = i + 1;
    }
    assert(v@.subrange(0, v.len() as int) == v@);
    r
}

/// Copies an optional string.
pub fn copy_opt_string(v: &Option<String>) -> (r: Option<String>)
    ensures
        r == *v,
{
    match v {
        Some(s) => Some(s.clone()),
        None => None,
    }
}

/// Copies an optional sequence of strings.
pub fn copy_opt_strings(v: &Option<Vec<String>>) -> (r: Option<Vec<String>>)
    ensures
        r.is_some() == v.is_some(),
        r.is_some() ==> r.unwrap()@ == v.unwrap()@,
{
    match v {
        Some(s) => Some(copy_strings(s)),
        None => None,
    }
}

/// Copies a sequence of visit records.
pub fn copy_infos(v: &Vec<ClusterInfo>) -> (r: Vec<ClusterInfo>)
    ensures
        r@ == v@,
{
    let mut r: Vec<ClusterInfo> = Vec::new();
    let mut i: usize = 0;
    while i < v.len()
        invariant
            i <= v.len(),
            r@ == v@.subrange(0, i as int),
        decreases v.len() - i,
    {
        r.push(v[i]);
        assert(v@.subrange(0, i as int + 1) == v@.subrange(0, i as int).push(v@[i as int]));
        i = i + 1;
    }
    assert(v@.subrange(0, v.len() as int) == v@);
    r
}

/// The visit records of a cluster job, empty when it has none.
pub open spec fn cluster_infos(d: Dimensions) -> Seq<ClusterInfo> {
    match d.cluster {
        Some(v) => v@,
        None => Seq::empty(),
    }
}

/// Two attribute sets hold the same values.
pub open spec fn same_dimens(a: Dimensions, b: Dimensions) -> bool {
    &&& a.id == b.id
    &&& a.group == b.group
    &&& opt_skills_view(a.skills) == opt_skills_view(b.skills)
    &&& a.cluster.is_some() == b.cluster.is_some()
    &&& cluster_infos(a) == cluster_infos(b)
}

impl Dimensions {
    /// Copies the attributes.
    pub fn copy(&self) -> (r: Dimensions)
        ensures
            same_dimens(r, *self),
    {
        let skills = match &self.skills {
            Some(s) => Some(s.copy()),
            None => None,
        };
        let cluster = match &self.cluster {
            Some(c) => Some(copy_infos(c)),
            None => None,
        };
        Dimensions { id: copy_opt_string(&self.id), skills, group: copy_opt_string(&self.group), cluster }
    }
}

} // verus!
