use fleet_agent::job::Job;
use fleet_agent::runner::{
    aggregate_failures, record_outcomes, select_and_claim, select_eligible, ExecError,
    ExecOutcome, JobFailure, RunJobsError,
};
use fleet_agent::store::JobStore;

fn store_with(jobs: Vec<Job>) -> JobStore {
    let mut store = JobStore::new();
    store.append(jobs);
    store
}

fn make_jobs() -> Vec<Job> {
    vec![
        Job::new(
            "echo_hello".to_string(),
            "echo".to_string(),
            ["Hello, world!".to_string()].to_vec(),
        ),
        Job::new(
            "sleep_1".to_string(),
            "sleep".to_string(),
            ["1".to_string()].to_vec(),
        ),
    ]
}

fn make_jobs_that_crash() -> Vec<Job> {
    vec![
        Job::new(
            "echo_hello".to_string(),
            "echo1234".to_string(),
            ["Hello, world!".to_string()].to_vec(),
        ),
        Job::new(
            "sleep_1".to_string(),
            "sleep1234".to_string(),
            ["1".to_string()].to_vec(),
        ),
    ]
}

#[test]
fn test_submit_jobs() {
    // Given
    let mut store = store_with(make_jobs());

    // When
    let claimed = select_and_claim(&mut store);
    let outcomes = vec![
        ExecOutcome::Output("Hello, world!\n".to_string()),
        ExecOutcome::Output("".to_string()),
    ];
    let _result = record_outcomes(&mut store, &claimed, outcomes);

    // Then
    let mut any_incompleted_job = false;
    for i in 0..store.len() {
        if !store.get(i).is_completed() {
            any_incompleted_job = true;
        }
    }
    assert!(!any_incompleted_job);
}

#[test]
fn test_submit_jobs_that_crash() {
    // Given
    let mut store = store_with(make_jobs_that_crash());

    // When
    let claimed = select_and_claim(&mut store);
    let outcomes = vec![
        ExecOutcome::Failed(ExecError::NotFound),
        ExecOutcome::Failed(ExecError::NotFound),
    ];
    let result = record_outcomes(&mut store, &claimed, outcomes);

    // Then
    assert!(result.is_err());
    if let Err(RunJobsError::AtLeastOneFailed(job_errors)) = result {
        assert_eq!(job_errors.len(), 2);
        assert!(job_errors
            .iter()
            .any(|e| matches!(e, RunJobsError::JobFailed(_))));
    } else {
        panic!("Expected AtLeastOneFailed error variant");
    }
}

#[test]
fn two_pending_echo_jobs_both_succeed() {
    let jobs = vec![
        Job::new(
            "first".to_string(),
            "echo".to_string(),
            vec!["hello".to_string()],
        ),
        Job::new(
            "second".to_string(),
            "echo".to_string(),
            vec!["world".to_string()],
        ),
    ];
    let mut store = store_with(jobs);

    let claimed = select_and_claim(&mut store);
    assert_eq!(claimed, vec![0, 1]);
    let outcomes = vec![
        ExecOutcome::Output("hello\n".to_string()),
        ExecOutcome::Output("world\n".to_string()),
    ];
    let result = record_outcomes(&mut store, &claimed, outcomes);

    assert!(result.is_ok());
    assert!(store.get(0).is_success());
    assert!(store.get(1).is_success());
    assert!(store.get(0).get_result_as_string().unwrap().contains("hello"));
    assert!(store.get(1).get_result_as_string().unwrap().contains("world"));
}

#[test]
fn one_failing_job_is_surfaced_alone_and_names_the_job() {
    let jobs = vec![
        Job::new("ok".to_string(), "echo".to_string(), vec!["ok".to_string()]),
        Job::new("broken".to_string(), "no_such_program".to_string(), vec![]),
    ];
    let mut store = store_with(jobs);
    let second_id = store.get(1).get_id().clone();

    let claimed = select_and_claim(&mut store);
    let outcomes = vec![
        ExecOutcome::Output("ok\n".to_string()),
        ExecOutcome::Failed(ExecError::NotFound),
    ];
    let result = record_outcomes(&mut store, &claimed, outcomes);

    match result {
        Err(RunJobsError::JobFailed(JobFailure { job_id, error })) => {
            assert_eq!(job_id, second_id);
            assert!(matches!(error, ExecError::NotFound));
        }
        other => panic!("expected a single JobFailed, got {:?}", other),
    }
    assert!(store.get(0).is_success());
    assert!(!store.get(1).is_success());
    assert_eq!(
        store.get(1).get_result_as_string().unwrap(),
        "program not found"
    );
}

#[test]
fn three_failing_jobs_aggregate_into_exactly_three_entries() {
    let jobs = vec![
        Job::new("a".to_string(), "missing_a".to_string(), vec![]),
        Job::new("b".to_string(), "missing_b".to_string(), vec![]),
        Job::new("c".to_string(), "missing_c".to_string(), vec![]),
    ];
    let mut store = store_with(jobs);

    let claimed = select_and_claim(&mut store);
    let outcomes = vec![
        ExecOutcome::Failed(ExecError::NotFound),
        ExecOutcome::Failed(ExecError::NotFound),
        ExecOutcome::Failed(ExecError::NotFound),
    ];
    let result = record_outcomes(&mut store, &claimed, outcomes);

    match result {
        Err(RunJobsError::AtLeastOneFailed(entries)) => assert_eq!(entries.len(), 3),
        other => panic!("expected an aggregate failure, got {:?}", other),
    }
}

#[test]
fn running_and_completed_jobs_are_not_selected_again() {
    let mut store = store_with(make_jobs());

    let first = select_and_claim(&mut store);
    assert_eq!(first.len(), 2);

    // Jobs are now running: a second selection returns nothing.
    let second = select_eligible(&store);
    assert!(second.is_empty());

    // Completing them does not make them eligible again either.
    let outcomes = vec![
        ExecOutcome::Output("x".to_string()),
        ExecOutcome::Failed(ExecError::IoFailure("interrupted".to_string())),
    ];
    let _ = record_outcomes(&mut store, &first, outcomes);
    let third = select_and_claim(&mut store);
    assert!(third.is_empty());
}

#[test]
fn a_scheduling_failure_leaves_the_job_untouched_and_is_aggregated() {
    let mut store = store_with(make_jobs());

    let claimed = select_and_claim(&mut store);
    let outcomes = vec![
        ExecOutcome::Output("fine".to_string()),
        ExecOutcome::Sched("task was cancelled".to_string()),
    ];
    let result = record_outcomes(&mut store, &claimed, outcomes);

    match result {
        Err(RunJobsError::Join(m)) => assert_eq!(m, "task was cancelled"),
        other => panic!("expected a scheduling failure, got {:?}", other),
    }
    assert!(store.get(0).is_completed());
    assert!(!store.get(1).is_completed());
    assert!(store.get(1).get_started_at().is_some());
}

#[test]
fn an_io_failure_records_its_description_as_the_result() {
    let mut store = store_with(vec![Job::new(
        "t".to_string(),
        "dd".to_string(),
        vec![],
    )]);
    let claimed = select_and_claim(&mut store);
    let outcomes = vec![ExecOutcome::Failed(ExecError::IoFailure(
        "permission denied".to_string(),
    ))];
    let result = record_outcomes(&mut store, &claimed, outcomes);
    assert!(result.is_err());
    assert_eq!(
        store.get(0).get_result_as_string().unwrap(),
        "permission denied"
    );
    assert!(!store.get(0).is_success());
}

#[test]
fn aggregating_no_failures_is_success() {
    let result = aggregate_failures(vec![]);
    assert!(result.is_ok());
}

#[test]
fn aggregating_one_failure_returns_it_alone() {
    let result = aggregate_failures(vec![RunJobsError::Join("gone".to_string())]);
    match result {
        Err(RunJobsError::Join(m)) => assert_eq!(m, "gone"),
        other => panic!("expected the single failure back, got {:?}", other),
    }
}

#[test]
fn aggregating_two_failures_wraps_them_in_order() {
    let result = aggregate_failures(vec![
        RunJobsError::Join("one".to_string()),
        RunJobsError::Join("two".to_string()),
    ]);
    match result {
        Err(RunJobsError::AtLeastOneFailed(entries)) => {
            assert_eq!(entries.len(), 2);
            assert!(matches!(&entries[0], RunJobsError::Join(m) if m == "one"));
            assert!(matches!(&entries[1], RunJobsError::Join(m) if m == "two"));
        }
        other => panic!("expected an aggregate, got {:?}", other),
    }
}

#[test]
fn selection_skips_non_pending_jobs_in_a_mixed_store() {
    let mut jobs = make_jobs();
    jobs[0].mark_started();
    let mut store = store_with(jobs);
    store.append(vec![Job::new(
        "late".to_string(),
        "echo".to_string(),
        vec![],
    )]);

    let claimed = select_eligible(&store);
    assert_eq!(claimed, vec![1, 2]);
}
