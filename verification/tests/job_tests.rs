use fleet_agent::job::Job;

// Simple fake report body for testing
fn make_report() -> String {
    format!(
        "{{\"id\": {}, \"results\": {}, \"created_at\": {}}}",
        uuid::Uuid::new_v4(),
        "ok",
        chrono::Utc::now(),
    )
}

#[test]
fn test_job_new() {
    let job = Job::new(
        "test".to_string(),
        "echo".to_string(),
        vec!["hello".to_string()],
    );
    assert_eq!(job.name, "test");
    assert_eq!(job.get_action().get_cmd(), "echo");
    assert_eq!(job.get_action().get_args(), &vec!["hello"]);
    assert!(!job.was_submitted());
    assert!(job.get_completed_at().is_none());
    assert!(job.get_result_as_string().is_none());
}

#[test]
fn test_set_and_check_submitted() {
    let mut job = Job::new("test".to_string(), "echo".to_string(), vec![]);
    assert!(!job.was_submitted());

    job.set_submitted(true);
    assert!(job.was_submitted());
}

#[test]
fn submitted_is_monotonic_and_never_cleared() {
    let mut job = Job::new("test".to_string(), "echo".to_string(), vec![]);
    job.set_submitted(true);
    job.set_submitted(false);
    assert!(job.was_submitted());
}

#[test]
fn test_set_result_and_completion() {
    let mut job = Job::new("test".to_string(), "echo".to_string(), vec![]);
    let report = make_report();

    job.set_result(report.clone());
    job.set_completed_at();

    assert!(job.is_completed());
    assert!(job.get_completed_at().is_some());
}

#[test]
fn test_debug_format() {
    let job = Job::new("test".to_string(), "echo".to_string(), vec![]);
    let debug_str = format!("{:?}", job);

    assert!(debug_str.contains("test"));
    assert!(debug_str.contains("echo"));
}

#[test]
fn fresh_job_has_distinct_generated_ids() {
    let a = Job::new("a".to_string(), "echo".to_string(), vec![]);
    let b = Job::new("b".to_string(), "echo".to_string(), vec![]);
    assert_ne!(a.get_id(), b.get_id());
    assert!(!a.get_id().is_empty());
    assert!(!a.created_at.is_empty());
}

#[test]
fn marking_started_sets_only_the_start_timestamp() {
    let mut job = Job::new("t".to_string(), "echo".to_string(), vec![]);
    assert!(job.get_started_at().is_none());
    job.mark_started();
    assert!(job.get_started_at().is_some());
    assert!(job.get_completed_at().is_none());
    assert!(!job.is_completed());
}
