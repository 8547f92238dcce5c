//! A set of job indices kept in a hash set of the `hashbrown` crate.

use vstd::prelude::*;

verus! {

/// A set of job indices.
#[verifier::external_body]
pub struct JobSet {
    inner: hashbrown::HashSet<usize>,
}

/// The indices held by a job set.
pub uninterp spec fn job_set_items(s: JobSet) -> Set<usize>;

impl JobSet {
    /// Relies on hashbrown::HashSet::new: a new set is empty.
    #[verifier::external_body]
    pub fn new() -> (r: JobSet)
        ensures
            job_set_items(r) == Set::<usize>::empty(),
    {
        JobSet { inner: hashbrown::HashSet::new() }
    }

    /// Relies on hashbrown::HashSet::insert: the value is in the set afterwards,
    /// and nothing else changes.
    #[verifier::external_body]
    pub fn insert(&mut self, value: usize)
        ensures
            job_set_items(*final(self)) == job_set_items(*old(self)).insert(value),
    {
        self.inner.insert(value);
    }

    /// Relies on hashbrown::HashSet::remove: the value is not in the set
    /// afterwards, and nothing else changes.
    #[verifier::external_body]
    pub fn remove(&mut self, value: usize)
        ensures
            job_set_items(*final(self)) == job_set_items(*old(self)).remove(value),
    {
        self.inner.remove(&value);
    }

    /// Relies on hashbrown::HashSet::contains: whether the value is in the set.
    #[verifier::external_body]
    pub fn contains(&self, value: usize) -> (r: bool)
        ensures
            r == job_set_items(*self).contains(value),
    {
        self.inner.contains(&value)
    }

    /// Relies on hashbrown::HashSet::is_empty: whether the set holds no value.
    #[verifier::external_body]
    pub fn is_empty(&self) -> (r: bool)
        ensures
            r == (job_set_items(*self) == Set::<usize>::empty()),
    {
        self.inner.is_empty()
    }

    /// Relies on hashbrown::HashSet::len: the number of values in the set.
    #[verifier::external_body]
    pub fn len(&self) -> (r: usize)
        ensures
            r == job_set_items(*self).len(),
    {
        self.inner.len()
    }
}

} // verus!
