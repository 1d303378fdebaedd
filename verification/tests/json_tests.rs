use fleet_agent::action::Action;
use fleet_agent::job::Job;
use fleet_agent::json::{parse_job, write_job};

fn sample_job() -> Job {
    Job {
        id: "550e8400-e29b-41d4-a716-446655440001".to_string(),
        name: "test".to_string(),
        description: None,
        created_at: "2025-08-28T12:41:34+00:00".to_string(),
        started_at: None,
        completed_at: None,
        action: Action {
            cmd: "echo".to_string(),
            args: vec!["hi".to_string()],
            variant: "".to_string(),
        },
        agent_id: "550e8400-e29b-41d4-a716-446655440002".to_string(),
        result: None,
        submitted: false,
        success: None,
    }
}

#[test]
fn test_deserialization() {
    let job = Job::new(
        "test".to_string(),
        "echo".to_string(),
        vec!["hi".to_string()],
    );

    let serialized = write_job(&job);
    let deserialized: Job = parse_job(&serialized).unwrap();

    assert_eq!(deserialized.name, job.name);
    assert_eq!(
        deserialized.get_action().get_cmd(),
        job.get_action().get_cmd()
    );
    assert_eq!(
        deserialized.get_action().get_args(),
        job.get_action().get_args()
    );
}

#[test]
fn wire_text_has_the_expected_shape() {
    let job = sample_job();
    assert_eq!(
        write_job(&job),
        "{\"id\":\"550e8400-e29b-41d4-a716-446655440001\",\"name\":\"test\",\
         \"description\":null,\"created_at\":\"2025-08-28T12:41:34+00:00\",\
         \"started_at\":null,\"completed_at\":null,\
         \"action\":{\"cmd\":\"echo\",\"args\":[\"hi\"],\"variant\":\"\"},\
         \"agent_id\":\"550e8400-e29b-41d4-a716-446655440002\",\
         \"results\":null,\"success\":null}"
    );
}

#[test]
fn strings_are_escaped_and_recovered() {
    let mut job = sample_job();
    job.result = Some("say \"hi\"\nback\\slash\ttab\r".to_string());
    job.success = Some(false);
    let text = write_job(&job);
    assert!(text.contains("\\\"hi\\\""));
    assert!(text.contains("\\n"));
    assert!(text.contains("\\\\slash"));

    let back = parse_job(&text).unwrap();
    assert_eq!(back.result, job.result);
    assert_eq!(back.success, Some(false));
}

#[test]
fn round_trip_preserves_the_completion_state() {
    let mut job = sample_job();
    job.started_at = Some("2025-08-28T12:41:35+00:00".to_string());
    job.completed_at = Some("2025-08-28T12:41:36+00:00".to_string());
    job.result = Some("done\n".to_string());
    job.success = Some(true);

    let back = parse_job(&write_job(&job)).unwrap();
    assert_eq!(back.id, job.id);
    assert_eq!(back.started_at, job.started_at);
    assert_eq!(back.completed_at, job.completed_at);
    assert_eq!(back.result, job.result);
    assert_eq!(back.success, job.success);
    assert_eq!(back.action.args, job.action.args);
}

#[test]
fn round_trip_handles_an_empty_argument_list() {
    let mut job = sample_job();
    job.action.args = vec![];
    let back = parse_job(&write_job(&job)).unwrap();
    assert!(back.action.args.is_empty());
}

#[test]
fn only_the_canonical_form_is_accepted() {
    assert!(parse_job("").is_none());
    assert!(parse_job("{}").is_none());
    assert!(parse_job("not json at all").is_none());
    // A reordering or reformatting of the canonical text is refused.
    let spaced = write_job(&sample_job()).replace(":", ": ");
    assert!(parse_job(&spaced).is_none());
}
