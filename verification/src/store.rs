use vstd::prelude::*;

use crate::job::Job;

verus! {

/// The agent's authoritative, in-memory collection of jobs. Entries are only
/// ever appended and mutated in place, never removed, so an index handed out
/// by a selection stays valid for the life of the process.
pub struct JobStore {
    pub jobs: Vec<Job>,
}

impl JobStore {
    pub fn new() -> (s: JobStore)
        ensures
            s.jobs@ =~= Seq::<Job>::empty(),
    {
        JobStore { jobs: Vec::new() }
    }

    /// Adds jobs to the end of the store. No deduplication by id is
    /// performed: what the backend sends is appended as it came.
    pub fn append(&mut self, new_jobs: Vec<Job>)
        ensures
            final(self).jobs@ == old(self).jobs@ + new_jobs@,
    {
        let mut incoming = new_jobs;
        self.jobs.append(&mut incoming);
    }

    pub fn len(&self) -> (n: usize)
        ensures
            n == self.jobs@.len(),
    {
        self.jobs.len()
    }

    pub fn get(&self, i: usize) -> (j: &Job)
        requires
            i < self.jobs@.len(),
        ensures
            *j == self.jobs@[i as int],
    {
        &self.jobs[i]
    }
}

} // verus!
