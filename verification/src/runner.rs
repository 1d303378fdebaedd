use vstd::prelude::*;

use crate::job::Job;
use crate::store::JobStore;

verus! {

/// Why a single job's command produced no output: the program could not be
/// located or spawned, or some other OS-level spawn/wait failure occurred.
#[derive(Debug)]
pub enum ExecError {
    NotFound,
    IoFailure(String),
}

impl ExecError {
    /// The textual description recorded into a failed job's result field.
    pub open spec fn describe_view(self) -> Seq<char> {
        match self {
            ExecError::NotFound => "program not found"@,
            ExecError::IoFailure(m) => m@,
        }
    }

    pub fn describe(&self) -> (r: String)
        ensures
            r@ == self.describe_view(),
    {
        match self {
            ExecError::NotFound => "program not found".to_owned(),
            ExecError::IoFailure(m) => m.clone(),
        }
    }
}

/// What dispatching one claimed job produced: the command's captured output,
/// a failure of the command itself, or a failure of the concurrency
/// substrate to run the dispatched unit at all.
#[derive(Debug)]
pub enum ExecOutcome {
    Output(String),
    Failed(ExecError),
    Sched(String),
}

impl ExecOutcome {
    /// A failure is anything but captured output.
    pub open spec fn is_failure(self) -> bool {
        !(self is Output)
    }
}

/// A single job's failure, identified by the job's id, for aggregation.
#[derive(Debug)]
pub struct JobFailure {
    pub job_id: String,
    pub error: ExecError,
}

/// The aggregate result of one run: either one job-level or scheduling
/// failure, or a composite carrying two or more of them.
#[derive(Debug)]
pub enum RunJobsError {
    JobFailed(JobFailure),
    AtLeastOneFailed(Vec<RunJobsError>),
    Join(String),
    Mutex,
}

/// A job is eligible for a run iff it is pending: not yet started and not
/// yet completed.
pub open spec fn eligible(jobs: Seq<Job>, i: int) -> bool {
    0 <= i < jobs.len() && jobs[i].pending()
}

/// How many of the outcomes are failures.
pub open spec fn count_failures(outcomes: Seq<ExecOutcome>) -> nat
    decreases outcomes.len(),
{
    if outcomes.len() == 0 {
        0
    } else {
        (if outcomes[0].is_failure() {
            1nat
        } else {
            0nat
        }) + count_failures(outcomes.drop_first())
    }
}

/// The failure each outcome contributes, if any, in outcome (completion)
/// order: a command failure becomes a `JobFailed` naming the claimed job,
/// a substrate failure becomes a `Join`, captured output contributes none.
pub open spec fn failure_list(
    jobs: Seq<Job>,
    claimed: Seq<usize>,
    outcomes: Seq<ExecOutcome>,
) -> Seq<RunJobsError>
    decreases outcomes.len(),
{
    if outcomes.len() == 0 || claimed.len() == 0 {
        Seq::<RunJobsError>::empty()
    } else {
        let head = match outcomes[0] {
            ExecOutcome::Output(_) => Seq::<RunJobsError>::empty(),
            ExecOutcome::Failed(e) => seq![
                RunJobsError::JobFailed(
                    JobFailure { job_id: jobs[claimed[0] as int].id, error: e },
                )
            ],
            ExecOutcome::Sched(m) => seq![RunJobsError::Join(m)],
        };
        head + failure_list(jobs, claimed.drop_first(), outcomes.drop_first())
    }
}

/// A run's failure list has exactly one entry per failing outcome: its
/// length is the number of failures among the outcomes.
pub proof fn lemma_aggregation_policy(
    jobs: Seq<Job>,
    claimed: Seq<usize>,
    outcomes: Seq<ExecOutcome>,
)
    requires
        claimed.len() == outcomes.len(),
    ensures
        failure_list(jobs, claimed, outcomes).len() == count_failures(outcomes),
    decreases outcomes.len(),
{
    if outcomes.len() > 0 {
        lemma_aggregation_policy(jobs, claimed.drop_first(), outcomes.drop_first());
    }
}

proof fn lemma_failure_list_push(
    jobs: Seq<Job>,
    claimed: Seq<usize>,
    outcomes: Seq<ExecOutcome>,
    c: usize,
    oc: ExecOutcome,
)
    requires
        claimed.len() == outcomes.len(),
    ensures
        failure_list(jobs, claimed.push(c), outcomes.push(oc)) == failure_list(
            jobs,
            claimed,
            outcomes,
        ) + (match oc {
            ExecOutcome::Output(_) => Seq::<RunJobsError>::empty(),
            ExecOutcome::Failed(e) => seq![
                RunJobsError::JobFailed(JobFailure { job_id: jobs[c as int].id, error: e })
            ],
            ExecOutcome::Sched(m) => seq![RunJobsError::Join(m)],
        }),
    decreases outcomes.len(),
{
    let tail = (match oc {
        ExecOutcome::Output(_) => Seq::<RunJobsError>::empty(),
        ExecOutcome::Failed(e) => seq![
            RunJobsError::JobFailed(JobFailure { job_id: jobs[c as int].id, error: e })
        ],
        ExecOutcome::Sched(m) => seq![RunJobsError::Join(m)],
    });
    if outcomes.len() == 0 {
        assert(claimed.push(c).drop_first() =~= claimed);
        assert(outcomes.push(oc).drop_first() =~= outcomes);
        assert(failure_list(jobs, claimed.push(c), outcomes.push(oc)) =~= tail);
        assert(failure_list(jobs, claimed, outcomes) + tail =~= tail);
    } else {
        assert(claimed.push(c).drop_first() =~= claimed.drop_first().push(c));
        assert(outcomes.push(oc).drop_first() =~= outcomes.drop_first().push(oc));
        lemma_failure_list_push(jobs, claimed.drop_first(), outcomes.drop_first(), c, oc);
        assert(failure_list(jobs, claimed.push(c), outcomes.push(oc)) =~= failure_list(
            jobs,
            claimed,
            outcomes,
        ) + tail);
    }
}

/// Returns the indices of every eligible (pending) job, in increasing order.
pub fn select_eligible(store: &JobStore) -> (r: Vec<usize>)
    ensures
        forall|k: int| 0 <= k < r@.len() ==> eligible(store.jobs@, #[trigger] r@[k] as int),
        forall|i: int| eligible(store.jobs@, i) ==> r@.contains(i as usize),
        forall|k1: int, k2: int| 0 <= k1 < k2 < r@.len() ==> r@[k1] < r@[k2],
{
    let mut r: Vec<usize> = Vec::new();
    let n = store.jobs.len();
    let mut i: usize = 0;
    while i < n
        invariant
            n == store.jobs@.len(),
            i <= n,
            forall|k: int|
                0 <= k < r@.len() ==> eligible(store.jobs@, #[trigger] r@[k] as int) && r@[k] < i,
            forall|j: int| 0 <= j < i && store.jobs@[j].pending() ==> r@.contains(j as usize),
            forall|k1: int, k2: int| 0 <= k1 < k2 < r@.len() ==> r@[k1] < r@[k2],
        decreases n - i,
    {
        let job = &store.jobs[i];
        if job.get_started_at().is_none() && job.get_completed_at().is_none() {
            let ghost prev = r@;
            r.push(i);
            proof {
                broadcast use vstd::seq_lib::lemma_seq_contains_after_push;

                assert(forall|j: int|
                    prev.contains(j as usize) ==> #[trigger] r@.contains(j as usize));
                assert(r@.contains(i));
            }
        }
        i = i + 1;
    }
    r
}

/// Stamps job `i` as started, leaving every other field and job unchanged.
fn claim_at(store: &mut JobStore, i: usize)
    requires
        i < old(store).jobs@.len(),
        old(store).jobs@[i as int].started_at is None,
    ensures
        final(store).jobs@.len() == old(store).jobs@.len(),
        final(store).jobs@[i as int].started_at is Some,
        final(store).jobs@[i as int] == (Job {
            started_at: final(store).jobs@[i as int].started_at,
            ..old(store).jobs@[i as int]
        }),
        forall|j: int|
            0 <= j < old(store).jobs@.len() && j != i ==> final(store).jobs@[j] == old(store).jobs@[j],
{
    let mut job = store.jobs.remove(i);
    job.mark_started();
    store.jobs.insert(i, job);
    proof {
        assert(store.jobs@ =~= old(store).jobs@.update(i as int, store.jobs@[i as int]));
    }
}

/// Selects every pending job and stamps each as started while nothing else
/// runs, so that no job can be picked twice by overlapping runs: once
/// claimed, a job is no longer pending and no later selection returns it.
pub fn select_and_claim(store: &mut JobStore) -> (claimed: Vec<usize>)
    ensures
        final(store).jobs@.len() == old(store).jobs@.len(),
        forall|k: int|
            0 <= k < claimed@.len() ==> eligible(old(store).jobs@, #[trigger] claimed@[k] as int),
        forall|i: int| eligible(old(store).jobs@, i) ==> claimed@.contains(i as usize),
        forall|k1: int, k2: int| 0 <= k1 < k2 < claimed@.len() ==> claimed@[k1] < claimed@[k2],
        forall|k: int|
            0 <= k < claimed@.len() ==> {
                let i = #[trigger] claimed@[k] as int;
                final(store).jobs@[i].running() && final(store).jobs@[i] == (Job {
                    started_at: final(store).jobs@[i].started_at,
                    ..old(store).jobs@[i]
                })
            },
        forall|i: int|
            0 <= i < old(store).jobs@.len() && !claimed@.contains(i as usize) ==> final(store).jobs@[i] == old(store).jobs@[i],
{
    let ghost jobs0 = store.jobs@;
    let claimed = select_eligible(store);
    let n = claimed.len();
    let mut k: usize = 0;
    while k < n
        invariant
            n == claimed@.len(),
            k <= n,
            store.jobs@.len() == jobs0.len(),
            forall|m: int| 0 <= m < n ==> eligible(jobs0, #[trigger] claimed@[m] as int),
            forall|i: int| eligible(jobs0, i) ==> claimed@.contains(i as usize),
            forall|k1: int, k2: int| 0 <= k1 < k2 < n ==> claimed@[k1] < claimed@[k2],
            forall|m: int|
                0 <= m < k ==> {
                    let i = #[trigger] claimed@[m] as int;
                    store.jobs@[i].running() && store.jobs@[i] == (Job {
                        started_at: store.jobs@[i].started_at,
                        ..jobs0[i]
                    })
                },
            forall|m: int|
                k <= m < n ==> store.jobs@[claimed@[m] as int] == jobs0[#[trigger] claimed@[m] as int],
            forall|i: int|
                0 <= i < jobs0.len() && !claimed@.contains(i as usize) ==> store.jobs@[i]
                    == jobs0[i],
        decreases n - k,
    {
        let i = claimed[k];
        proof {
            assert(eligible(jobs0, i as int));
            assert(store.jobs@[i as int] == jobs0[i as int]);
        }
        claim_at(store, i);
        proof {
            assert(forall|m: int|
                k + 1 <= m < n ==> #[trigger] claimed@[m] as int != i as int);
        }
        k = k + 1;
    }
    claimed
}

/// What recording one outcome does to one claimed job: output completes it
/// successfully with the output as its result; a command failure completes
/// it unsuccessfully with the failure's description as its result; a
/// substrate failure leaves it untouched, since its unit never ran.
pub open spec fn records_outcome(before: Job, after: Job, oc: ExecOutcome) -> bool {
    match oc {
        ExecOutcome::Output(out) => after == (Job {
            result: Some(out),
            completed_at: after.completed_at,
            success: Some(true),
            ..before
        }) && after.completed_at is Some,
        ExecOutcome::Failed(e) => after == (Job {
            result: after.result,
            completed_at: after.completed_at,
            success: Some(false),
            ..before
        }) && after.completed_at is Some && (after.result matches Some(s) && s@
            == e.describe_view()),
        ExecOutcome::Sched(_) => after == before,
    }
}

/// Completes job `i` with a result and a success flag, written together
/// with the completion timestamp, leaving every other job unchanged.
fn complete_at(store: &mut JobStore, i: usize, output: String, ok: bool)
    requires
        i < old(store).jobs@.len(),
    ensures
        final(store).jobs@.len() == old(store).jobs@.len(),
        final(store).jobs@[i as int] == (Job {
            result: Some(output),
            completed_at: final(store).jobs@[i as int].completed_at,
            success: Some(ok),
            ..old(store).jobs@[i as int]
        }),
        final(store).jobs@[i as int].completed_at is Some,
        forall|j: int|
            0 <= j < old(store).jobs@.len() && j != i ==> final(store).jobs@[j] == old(store).jobs@[j],
{
    let mut job = store.jobs.remove(i);
    job.set_result(output);
    job.set_completed_at();
    job.set_sucess(ok);
    store.jobs.insert(i, job);
    proof {
        assert(store.jobs@ =~= old(store).jobs@.update(i as int, store.jobs@[i as int]));
    }
}

/// Applies the partial-failure aggregation policy to the collected
/// failures: none means overall success; exactly one is surfaced alone; two
/// or more are wrapped into a composite carrying all of them in order.
pub fn aggregate_failures(errors: Vec<RunJobsError>) -> (r: Result<(), RunJobsError>)
    ensures
        r is Ok <==> errors@.len() == 0,
        errors@.len() == 1 ==> r == Result::<(), RunJobsError>::Err(errors@[0]),
        errors@.len() >= 2 ==> (r matches Err(e) && e matches RunJobsError::AtLeastOneFailed(v)
            && v@ == errors@),
{
    let mut errors = errors;
    if errors.len() == 0 {
        Ok(())
    } else if errors.len() == 1 {
        Err(errors.remove(0))
    } else {
        Err(RunJobsError::AtLeastOneFailed(errors))
    }
}

/// Records, job by job, what the dispatched units produced, then aggregates:
/// the overall result is success iff no outcome failed; a single failure is
/// returned alone; two or more come back as one composite in completion
/// order. One job's failure never blocks another job's outcome from being
/// recorded.
pub fn record_outcomes(
    store: &mut JobStore,
    claimed: &Vec<usize>,
    outcomes: Vec<ExecOutcome>,
) -> (r: Result<(), RunJobsError>)
    requires
        claimed@.len() == outcomes@.len(),
        forall|k: int| 0 <= k < claimed@.len() ==> #[trigger] claimed@[k] < old(store).jobs@.len(),
        forall|k1: int, k2: int| 0 <= k1 < k2 < claimed@.len() ==> claimed@[k1] < claimed@[k2],
    ensures
        final(store).jobs@.len() == old(store).jobs@.len(),
        forall|k: int|
            0 <= k < claimed@.len() ==> records_outcome(
                old(store).jobs@[#[trigger] claimed@[k] as int],
                final(store).jobs@[claimed@[k] as int],
                outcomes@[k],
            ),
        forall|i: int|
            0 <= i < old(store).jobs@.len() && !claimed@.contains(i as usize) ==> final(store).jobs@[i] == old(store).jobs@[i],
        ({
            let fails = failure_list(old(store).jobs@, claimed@, outcomes@);
            &&& (r is Ok <==> fails.len() == 0)
            &&& (r is Ok <==> count_failures(outcomes@) == 0)
            &&& (fails.len() == 1 ==> r == Result::<(), RunJobsError>::Err(fails[0]))
            &&& (fails.len() >= 2 ==> (r matches Err(e) && e matches RunJobsError::AtLeastOneFailed(
                v,
            ) && v@ == fails))
        }),
{
    let ghost jobs0 = store.jobs@;
    let ghost all_out = outcomes@;
    let mut rest = outcomes;
    let mut errors: Vec<RunJobsError> = Vec::new();
    let n = claimed.len();
    let mut k: usize = 0;
    while k < n
        invariant
            n == claimed@.len(),
            n == all_out.len(),
            k <= n,
            rest@ == all_out.skip(k as int),
            store.jobs@.len() == jobs0.len(),
            forall|m: int| 0 <= m < n ==> #[trigger] claimed@[m] < jobs0.len(),
            forall|k1: int, k2: int| 0 <= k1 < k2 < n ==> claimed@[k1] < claimed@[k2],
            errors@ == failure_list(jobs0, claimed@.take(k as int), all_out.take(k as int)),
            forall|m: int|
                0 <= m < k ==> records_outcome(
                    jobs0[#[trigger] claimed@[m] as int],
                    store.jobs@[claimed@[m] as int],
                    all_out[m],
                ),
            forall|m: int|
                k <= m < n ==> store.jobs@[claimed@[m] as int] == jobs0[#[trigger] claimed@[m] as int],
            forall|i: int|
                0 <= i < jobs0.len() && !claimed@.contains(i as usize) ==> store.jobs@[i]
                    == jobs0[i],
        decreases n - k,
    {
        proof {
            assert(all_out.skip(k as int)[0] == all_out[k as int]);
        }
        let oc = rest.remove(0);
        let i = claimed[k];
        proof {
            assert(store.jobs@[i as int] == jobs0[i as int]);
            assert(claimed@.take(k as int + 1) =~= claimed@.take(k as int).push(claimed@[k as int]));
            assert(all_out.take(k as int + 1) =~= all_out.take(k as int).push(all_out[k as int]));
            lemma_failure_list_push(
                jobs0,
                claimed@.take(k as int),
                all_out.take(k as int),
                claimed@[k as int],
                all_out[k as int],
            );
        }
        match oc {
            ExecOutcome::Output(out) => {
                complete_at(store, i, out, true);
            },
            ExecOutcome::Failed(e) => {
                let jid = store.get(i).get_id().clone();
                let msg = e.describe();
                complete_at(store, i, msg, false);
                errors.push(RunJobsError::JobFailed(JobFailure { job_id: jid, error: e }));
            },
            ExecOutcome::Sched(m) => {
                errors.push(RunJobsError::Join(m));
            },
        }
        proof {
            assert(rest@ =~= all_out.skip(k as int + 1));
            assert(forall|m: int|
                k + 1 <= m < n ==> #[trigger] claimed@[m] as int != i as int);
        }
        k = k + 1;
    }
    proof {
        assert(claimed@.take(n as int) =~= claimed@);
        assert(all_out.take(n as int) =~= all_out);
        lemma_aggregation_policy(jobs0, claimed@, all_out);
    }
    aggregate_failures(errors)
}

/// Selection is idempotent: a job already running or completed is not
/// eligible, so no later run can select it again. Claiming a job stamps its
/// start and so removes it from the pending state for good.
pub proof fn lemma_no_reselection(jobs: Seq<Job>, i: int)
    requires
        0 <= i < jobs.len(),
        jobs[i].running() || jobs[i].completed_at is Some,
    ensures
        !eligible(jobs, i),
{
}

/// Once a run has recorded an outcome for a claimed job whose dispatched
/// unit ran, the job is settled: its completion timestamp and result are
/// present, and its success flag holds exactly one of true (the command
/// produced output) or false (the command failed).
pub proof fn lemma_run_settles_job(before: Job, after: Job, oc: ExecOutcome)
    requires
        records_outcome(before, after, oc),
        !(oc is Sched),
    ensures
        after.completed_at is Some,
        after.result is Some,
        after.success is Some,
        (after.success == Some(true)) <==> oc is Output,
        (after.success == Some(false)) <==> oc is Failed,
{
}

} // verus!
