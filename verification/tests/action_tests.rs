use fleet_agent::action::Action;

#[test]
fn test_action_new() {
    let action = Action::new("echo".to_string(), vec!["hello".to_string()]);
    assert_eq!(action.cmd, "echo");
    assert_eq!(action.args, vec!["hello"]);
}

#[test]
fn test_action_display() {
    let action = Action::new(
        "echo".to_string(),
        vec!["hello".to_string(), "world".to_string()],
    );
    let display_str = action.to_display_string();
    assert_eq!(display_str, "echo hello world");
}

#[test]
fn display_of_action_without_arguments_keeps_trailing_space() {
    let action = Action::new("ls".to_string(), vec![]);
    assert_eq!(action.to_display_string(), "ls ");
}

#[test]
fn action_getters_return_the_construction_values() {
    let action = Action::new("tar".to_string(), vec!["-c".to_string(), "-f".to_string()]);
    assert_eq!(action.get_cmd(), "tar");
    assert_eq!(action.get_args().len(), 2);
    assert_eq!(action.get_args()[0], "-c");
    assert_eq!(action.get_args()[1], "-f");
}
