use vstd::prelude::*;

use crate::job::Job;
use crate::job::clone_opt_string;
use crate::store::JobStore;

verus! {

/// The outbound partial-update document that communicates one job's outcome
/// upstream. Fields not yet written on the job stay absent.
#[derive(Debug)]
pub struct JobPatch {
    pub started_at: Option<String>,
    pub completed_at: Option<String>,
    pub results: Option<String>,
    pub success: Option<bool>,
}

/// A job is a report candidate iff its outcome has not yet been handed to a
/// report, regardless of its completion state.
pub open spec fn candidate(jobs: Seq<Job>, i: int) -> bool {
    0 <= i < jobs.len() && !jobs[i].submitted
}

/// Returns the indices of every report candidate, in increasing order: a
/// point-in-time snapshot of which jobs still await a report.
pub fn report_candidates(store: &JobStore) -> (r: Vec<usize>)
    ensures
        forall|k: int| 0 <= k < r@.len() ==> candidate(store.jobs@, #[trigger] r@[k] as int),
        forall|i: int| candidate(store.jobs@, i) ==> r@.contains(i as usize),
        forall|k1: int, k2: int| 0 <= k1 < k2 < r@.len() ==> r@[k1] < r@[k2],
{
    let mut r: Vec<usize> = Vec::new();
    let n = store.jobs.len();
    let mut i: usize = 0;
    while i < n
        invariant
            n == store.jobs@.len(),
            i <= n,
            forall|k: int|
                0 <= k < r@.len() ==> candidate(store.jobs@, #[trigger] r@[k] as int) && r@[k] < i,
            forall|j: int| 0 <= j < i && !store.jobs@[j].submitted ==> r@.contains(j as usize),
            forall|k1: int, k2: int| 0 <= k1 < k2 < r@.len() ==> r@[k1] < r@[k2],
        decreases n - i,
    {
        if !store.jobs[i].was_submitted() {
            let ghost prev = r@;
            r.push(i);
            proof {
                broadcast use vstd::seq_lib::lemma_seq_contains_after_push;

                assert(forall|j: int|
                    prev.contains(j as usize) ==> #[trigger] r@.contains(j as usize));
                assert(r@.contains(i));
            }
        }
        i = i + 1;
    }
    r
}

/// Marks job `i` as submitted and builds its report payload. The flag is
/// raised before the network call is ever issued, deliberately biasing a
/// crash mid-flush toward under-reporting rather than duplicate reports:
/// at most one report is dispatched per job.
pub fn begin_report(store: &mut JobStore, i: usize) -> (patch: JobPatch)
    requires
        i < old(store).jobs@.len(),
    ensures
        final(store).jobs@.len() == old(store).jobs@.len(),
        final(store).jobs@[i as int] == (Job { submitted: true, ..old(store).jobs@[i as int] }),
        forall|j: int|
            0 <= j < old(store).jobs@.len() && j != i ==> final(store).jobs@[j] == old(store).jobs@[j],
        patch.started_at == old(store).jobs@[i as int].started_at,
        patch.completed_at == old(store).jobs@[i as int].completed_at,
        patch.results == old(store).jobs@[i as int].result,
        patch.success == old(store).jobs@[i as int].success,
{
    let mut job = store.jobs.remove(i);
    job.set_submitted(true);
    let patch = JobPatch {
        started_at: job.get_started_at(),
        completed_at: job.get_completed_at(),
        results: job.get_result_as_string(),
        success: match &job.success {
            Some(b) => Some(*b),
            None => None,
        },
    };
    store.jobs.insert(i, job);
    proof {
        assert(store.jobs@ =~= old(store).jobs@.update(i as int, store.jobs@[i as int]));
    }
    patch
}

/// A job whose outcome has been handed to a report is excluded from the
/// candidate set, even if its recorded state changed afterward: there is
/// no re-reporting.
pub proof fn lemma_submitted_never_candidate(jobs: Seq<Job>, i: int)
    requires
        0 <= i < jobs.len(),
        jobs[i].submitted,
    ensures
        !candidate(jobs, i),
{
}

/// A flush hands each job to at most one report payload per process
/// lifetime: once every candidate of one snapshot has had its flag raised,
/// none of them is a candidate of any later snapshot.
pub proof fn lemma_report_batches_disjoint(before: Seq<Job>, after: Seq<Job>, i: int)
    requires
        before.len() == after.len(),
        forall|j: int| candidate(before, j) ==> after[j].submitted,
        candidate(before, i),
    ensures
        !candidate(after, i),
{
}

} // verus!
