use recall::names::{home_override_var, host_dir_of};
use recall::paths::{base_dir, base_dir_from, join_path, NO_HOME_ERROR};

#[test]
fn env_override_takes_precedence() {
    let dir = base_dir(Some("/tmp/test-home".to_string()), ".assistant").unwrap();
    assert_eq!(dir, "/tmp/test-home");
}

#[test]
fn default_returns_home_dot_assistant() {
    let host = host_dir_of("recall-assistant").unwrap();
    let dir = base_dir(None, &host).unwrap();
    let home = dirs::home_dir().unwrap();
    assert_eq!(dir, home.join(".assistant").to_string_lossy());
}

#[test]
fn base_dir_without_home_is_an_error() {
    assert_eq!(base_dir_from(None, None, ".assistant").err().unwrap(), NO_HOME_ERROR);
    assert_eq!(base_dir_from(None, Some("/home/u".to_string()), ".assistant").unwrap(), "/home/u/.assistant");
    assert_eq!(
        base_dir_from(Some("/x".to_string()), Some("/home/u".to_string()), ".assistant").unwrap(),
        "/x"
    );
}

#[test]
fn joining_paths() {
    assert_eq!(join_path("/a", "b"), "/a/b");
    assert_eq!(join_path("/a/", "b"), "/a/b");
    assert_eq!(join_path("", "b"), "b");
    assert_eq!(join_path("/a", "b.md"), std::path::Path::new("/a").join("b.md").to_string_lossy());
}

#[test]
fn override_variable_follows_the_tool_name() {
    assert_eq!(home_override_var("recall"), "RECALL_HOME");
    assert_eq!(home_override_var("recall-x"), "RECALL_X_HOME");
    assert_eq!(home_override_var("my-tool2"), "MY_TOOL2_HOME");
}

#[test]
fn host_directory_follows_the_tool_name() {
    assert_eq!(host_dir_of("recall-assistant").unwrap(), ".assistant");
    assert_eq!(host_dir_of("recall-x").unwrap(), ".x");
    assert_eq!(host_dir_of("recall"), None);
    assert_eq!(host_dir_of("recall-"), None);
    assert_eq!(host_dir_of("other-x"), None);
}
