use ask::{workspace_members, WORKSPACE_NAME};

#[test]
fn lib_workspace_name_matches_project_name() {
    assert_eq!(WORKSPACE_NAME, "ask");
}

#[test]
fn lib_workspace_members_include_server() {
    let members = workspace_members();

    assert!(members
        .iter()
        .any(|member| member.package_name == "ask-server"));
}
