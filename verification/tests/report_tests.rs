use fleet_agent::job::Job;
use fleet_agent::report::{begin_report, report_candidates};
use fleet_agent::runner::{record_outcomes, select_and_claim, ExecOutcome};
use fleet_agent::store::JobStore;

fn store_with(jobs: Vec<Job>) -> JobStore {
    let mut store = JobStore::new();
    store.append(jobs);
    store
}

#[test]
fn a_submitted_job_is_excluded_even_if_its_result_changed_afterward() {
    let mut job = Job::new("done".to_string(), "echo".to_string(), vec![]);
    job.set_submitted(true);
    job.set_result("changed afterward".to_string());
    let other = Job::new("fresh".to_string(), "echo".to_string(), vec![]);
    let store = store_with(vec![job, other]);

    let candidates = report_candidates(&store);
    assert_eq!(candidates, vec![1]);
}

#[test]
fn the_candidate_filter_does_not_require_completion() {
    let store = store_with(vec![Job::new(
        "pending".to_string(),
        "echo".to_string(),
        vec![],
    )]);
    let candidates = report_candidates(&store);
    assert_eq!(candidates, vec![0]);
}

#[test]
fn beginning_a_report_marks_the_job_and_copies_its_outcome() {
    let mut store = store_with(vec![
        Job::new("a".to_string(), "echo".to_string(), vec!["x".to_string()]),
        Job::new("b".to_string(), "echo".to_string(), vec!["y".to_string()]),
    ]);
    let claimed = select_and_claim(&mut store);
    let outcomes = vec![
        ExecOutcome::Output("x\n".to_string()),
        ExecOutcome::Output("y\n".to_string()),
    ];
    let _ = record_outcomes(&mut store, &claimed, outcomes);

    let patch = begin_report(&mut store, 0);
    assert!(store.get(0).was_submitted());
    assert!(patch.started_at.is_some());
    assert!(patch.completed_at.is_some());
    assert_eq!(patch.results.unwrap(), "x\n");
    assert_eq!(patch.success, Some(true));
}

#[test]
fn a_job_enters_at_most_one_report_batch() {
    let mut store = store_with(vec![
        Job::new("a".to_string(), "echo".to_string(), vec![]),
        Job::new("b".to_string(), "echo".to_string(), vec![]),
    ]);

    let first_batch = report_candidates(&store);
    assert_eq!(first_batch, vec![0, 1]);
    for &i in first_batch.iter() {
        let _patch = begin_report(&mut store, i);
    }

    let second_batch = report_candidates(&store);
    assert!(second_batch.is_empty());
}

#[test]
fn an_unfinished_job_reports_absent_fields() {
    let mut store = store_with(vec![Job::new(
        "young".to_string(),
        "echo".to_string(),
        vec![],
    )]);
    let patch = begin_report(&mut store, 0);
    assert!(patch.started_at.is_none());
    assert!(patch.completed_at.is_none());
    assert!(patch.results.is_none());
    assert!(patch.success.is_none());
}
