use deploy_server::paths::{
    choose_app_dir, file_name, file_name_or_unknown, join_path, resolved_output_dir,
};

#[test]
fn join_adds_one_separator() {
    assert_eq!(join_path("/a", "b/c"), "/a/b/c");
    assert_eq!(join_path("/a/", "b"), "/a/b");
    assert_eq!(join_path("", "b"), "b");
}

#[test]
fn file_name_is_the_last_component() {
    assert_eq!(file_name("/a/b/validators.hcl").as_deref(), Some("validators.hcl"));
    assert_eq!(file_name("a/b/").as_deref(), Some("b"));
    assert_eq!(file_name("a/b/.").as_deref(), Some("b"));
    assert_eq!(file_name("a/..").as_deref(), None);
    assert_eq!(file_name("/").as_deref(), None);
    assert_eq!(file_name("").as_deref(), None);
    assert_eq!(file_name(".").as_deref(), None);
    assert_eq!(file_name("x").as_deref(), Some("x"));
    assert_eq!(file_name_or_unknown("/"), "unknown");
}

#[test]
fn app_dir_prefers_env_then_markers() {
    let cwd = "/w/server".to_string();
    let parent = Some("/w".to_string());
    assert_eq!(choose_app_dir(Some("/env".to_string()), cwd.clone(), true, parent.clone(), true), "/env");
    assert_eq!(choose_app_dir(None, cwd.clone(), true, parent.clone(), true), "/w/server");
    assert_eq!(choose_app_dir(None, cwd.clone(), false, parent.clone(), true), "/w");
    assert_eq!(choose_app_dir(None, cwd.clone(), false, parent.clone(), false), "/w/server");
    assert_eq!(choose_app_dir(None, cwd.clone(), false, None, true), "/w/server");
}

#[test]
fn output_dir_defaults_under_app_dir() {
    assert_eq!(resolved_output_dir(None, "/app"), "/app/output");
    assert_eq!(resolved_output_dir(Some("../out".to_string()), "/app"), "../out");
}

#[test]
fn join_with_an_absolute_path_replaces() {
    assert_eq!(join_path("/out", "/abs/x"), "/abs/x");
    assert_eq!(join_path("", "/abs"), "/abs");
}
