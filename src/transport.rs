//! A routing matrix that answers distances and durations between locations.

use vstd::prelude::*;

verus! {

/// Distances and durations between `size` locations, row by row; a negative
/// value marks a pair that cannot be travelled.
pub struct RoutingMatrix {
    pub size: usize,
    pub distances: Vec<i64>,
    pub durations: Vec<i64>,
}

impl RoutingMatrix {
    /// Both tables hold one value for each ordered pair of locations.
    pub open spec fn wf(&self) -> bool {
        &&& self.distances@.len() == self.size * self.size
        &&& self.durations@.len() == self.size * self.size
    }

    pub open spec fn distance_spec(&self, from: int, to: int) -> i64 {
        self.distances@[from * self.size + to]
    }

    pub open spec fn duration_spec(&self, from: int, to: int) -> i64 {
        self.durations@[from * self.size + to]
    }

    /// Creates a matrix; `None` where a table does not hold one value for each
    /// ordered pair of locations.
    pub fn new(size: usize, distances: Vec<i64>, durations: Vec<i64>) -> (r: Option<Self>)
        ensures
            r.is_some() == (distances@.len() == size * size && durations@.len() == size * size),
            r.is_some() ==> r.unwrap().wf() && r.unwrap().size == size && r.unwrap().distances@ == distances@
                && r.unwrap().durations@ == durations@,
    {
        if distances.len() != durations.len() {
            return None;
        }
        match size.checked_mul(size) {
            Some(n) => if distances.len() == n {
                Some(RoutingMatrix { size, distances, durations })
            } else {
                None
            },
            None => {
                assert(size * size > usize::MAX);
                None
            },
        }
    }

    fn index(&self, from: usize, to: usize) -> (r: usize)
        requires
            self.wf(),
            from < self.size,
            to < self.size,
        ensures
            r == from * self.size + to,
            r < self.distances@.len(),
    {
        let n = self.distances.len();
        proof {
            let s = self.size as int;
            assert(from * s + to < s * s && 0 <= from * s) by (nonlinear_arith)
                requires from < s, to < s, 0 <= from, 0 <= to;
        }
        let base = from * self.size;
        base + to
    }

    /// The distance from one location to another.
    pub fn distance(&self, from: usize, to: usize) -> (r: i64)
        requires
            self.wf(),
            from < self.size,
            to < self.size,
        ensures
            r == self.distance_spec(from as int, to as int),
    {
        self.distances[self.index(from, to)]
    }

    /// The duration from one location to another.
    pub fn duration(&self, from: usize, to: usize) -> (r: i64)
        requires
            self.wf(),
            from < self.size,
            to < self.size,
        ensures
            r == self.duration_spec(from as int, to as int),
    {
        self.durations[self.index(from, to)]
    }
}

} // verus!
