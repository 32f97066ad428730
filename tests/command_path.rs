use sensor_gateway::error::Error;
use sensor_gateway::resolve::{
    apply_segments, confirm_real_path, is_within, normal_names, resolve_command, split_path,
};

fn resolved(base: &str, req: &str) -> Result<String, Error> {
    resolve_command(base, req).map(|c| c.as_str().to_string())
}

#[test]
fn plain_command_resolves_under_base() {
    assert_eq!(resolved("/srv/cmd", "greet"), Ok("/srv/cmd/greet".to_string()));
}

#[test]
fn nested_command_resolves_under_base() {
    assert_eq!(resolved("/srv/cmd", "tools/reboot"), Ok("/srv/cmd/tools/reboot".to_string()));
}

#[test]
fn traversal_out_of_base_is_refused() {
    assert_eq!(resolved("/srv/cmd", "../../etc/passwd"), Err(Error::PathEscape));
}

#[test]
fn absolute_request_is_refused() {
    assert_eq!(resolved("/srv/cmd", "/etc/passwd"), Err(Error::PathEscape));
}

#[test]
fn climbing_out_and_back_inside_is_accepted() {
    assert_eq!(resolved("/srv/cmd", "a/../../cmd/greet"), Ok("/srv/cmd/greet".to_string()));
    assert_eq!(resolved("/b", "../b/x"), Ok("/b/x".to_string()));
}

#[test]
fn climbing_into_a_sibling_is_refused() {
    assert_eq!(resolved("/srv/cmd", "../cmdx/greet"), Err(Error::PathEscape));
    assert_eq!(resolved("/srv/cmd", ".."), Err(Error::PathEscape));
}

#[test]
fn absolute_request_inside_base_is_accepted() {
    assert_eq!(resolved("/srv/cmd", "/srv/cmd/greet"), Ok("/srv/cmd/greet".to_string()));
}

#[test]
fn base_is_normalized_too() {
    assert_eq!(resolved("/srv/./cmd/", "greet"), Ok("/srv/cmd/greet".to_string()));
}

#[test]
fn relative_base_keeps_leading_parents() {
    assert_eq!(resolved("cmds", "x"), Ok("cmds/x".to_string()));
    assert_eq!(resolved("cmds", "../cmds/x"), Ok("cmds/x".to_string()));
    assert_eq!(resolved("cmds", "../../cmds/x"), Err(Error::PathEscape));
    assert_eq!(resolved("cmds", "/cmds/x"), Err(Error::PathEscape));
}

#[test]
fn dots_and_empty_segments_are_normalized() {
    assert_eq!(resolved("/srv/cmd", "a/./b//../c"), Ok("/srv/cmd/a/c".to_string()));
}

#[test]
fn empty_request_names_the_base() {
    assert_eq!(resolved("/srv/cmd", ""), Ok("/srv/cmd".to_string()));
}

#[test]
fn split_keeps_empty_pieces() {
    assert_eq!(split_path("a//b/"), vec!["a", "", "b", ""]);
    assert_eq!(split_path(""), vec![""]);
}

#[test]
fn segments_apply_parents_and_dots() {
    let segs: Vec<String> = vec!["..".to_string(), "x".to_string()];
    assert_eq!(apply_segments(false, Vec::new(), &segs), vec!["..", "x"]);
    assert_eq!(apply_segments(true, Vec::new(), &segs), vec!["x"]);
    let segs: Vec<String> = vec!["a".to_string(), "..".to_string(), ".".to_string(), "x".to_string()];
    assert_eq!(apply_segments(true, vec!["r".to_string()], &segs), vec!["r", "x"]);
    assert_eq!(normal_names("/a/b/../c/"), vec!["a", "c"]);
}

#[test]
fn real_path_decision() {
    let s = |x: &str| Some(x.to_string());
    assert_eq!(confirm_real_path(s("/srv/cmd"), s("/srv/cmd/greet")), Ok(()));
    assert_eq!(confirm_real_path(s("/srv/cmd"), s("/etc/passwd")), Err(Error::PathEscape));
    assert_eq!(confirm_real_path(s("/srv/cmd"), None), Err(Error::SpawnFailed));
    assert_eq!(confirm_real_path(None, s("/srv/cmd/greet")), Err(Error::IoError));
}

#[test]
fn within_goes_name_by_name() {
    assert!(is_within("/a/b", "/a/b"));
    assert!(is_within("/a/b", "/a/b/c"));
    assert!(!is_within("/a/b", "/a/bc"));
    assert!(!is_within("/a/b", "/a"));
    assert!(is_within("/", "/x"));
}

#[test]
fn path_escape_is_a_client_error() {
    assert_eq!(Error::PathEscape.status_code(), 400);
    assert_eq!(Error::TreeConflict.status_code(), 500);
}
