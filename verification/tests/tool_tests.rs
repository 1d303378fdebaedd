use fleet_agent::agent::{platform_from_os, AgentPlatform};
use fleet_agent::tool::{available_subset, Tool, ToolError};

#[test]
fn test_new_does_not_panic_even_if_version_arg_none() {
    // Here we construct with just the binary name
    // It won't set version, but must not panic
    let _tool = Tool::new("echo".to_string());
}

#[test]
fn a_tool_without_a_version_argument_cannot_be_probed() {
    let tool = Tool::new("jq".to_string());
    match tool.version_query() {
        Err(ToolError::MissingVersionArg(cmd)) => assert_eq!(cmd, "jq"),
        other => panic!("expected a missing-version-argument error, got {:?}", other),
    }
}

#[test]
fn a_tool_with_a_version_argument_hands_it_out_for_probing() {
    let mut tool = Tool::new("git".to_string());
    tool.version_arg = Some("--version".to_string());
    assert_eq!(tool.version_query().unwrap(), "--version");
}

#[test]
fn recording_a_probed_version_stores_it() {
    let mut tool = Tool::new("git".to_string());
    assert!(tool.version().is_none());
    tool.record_version("git version 2.39.2\n".to_string());
    assert_eq!(tool.version().as_deref(), Some("git version 2.39.2\n"));
}

#[test]
fn available_subset_keeps_exactly_the_flagged_tools_in_order() {
    let tools = vec![
        Tool::new("git".to_string()),
        Tool::new("absent".to_string()),
        Tool::new("jq".to_string()),
    ];
    let flags = vec![true, false, true];
    let kept = available_subset(tools, &flags);
    assert_eq!(kept.len(), 2);
    assert_eq!(kept[0].cmd, "git");
    assert_eq!(kept[1].cmd, "jq");
}

#[test]
fn available_subset_of_nothing_is_empty() {
    let kept = available_subset(vec![], &vec![]);
    assert!(kept.is_empty());
}

#[test]
fn known_operating_systems_map_to_their_platform() {
    assert_eq!(platform_from_os("linux"), Some(AgentPlatform::Linux));
    assert_eq!(platform_from_os("macos"), Some(AgentPlatform::MacOS));
    assert_eq!(platform_from_os("windows"), Some(AgentPlatform::Windows));
}

#[test]
fn an_unknown_operating_system_maps_to_nothing() {
    assert_eq!(platform_from_os("freebsd"), None);
    assert_eq!(platform_from_os(""), None);
}
