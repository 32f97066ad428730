use sensor_gateway::error::Error;
use sensor_gateway::invoke::{command_outcome, command_result};

#[test]
fn successful_command_returns_its_output() {
    assert_eq!(command_result(true, true, &b"hello".to_vec()), Ok("hello".to_string()));
}

#[test]
fn non_ascii_output_is_decoded() {
    assert_eq!(command_result(true, true, &"héllo".as_bytes().to_vec()), Ok("héllo".to_string()));
}

#[test]
fn failed_exit_is_a_server_error_without_os_text() {
    let e = command_result(true, false, &b"partial".to_vec()).unwrap_err();
    assert_eq!(e, Error::ExecutionFailed);
    assert_eq!(e.status_code(), 500);
    assert_eq!(e.message(), "command failed");
    assert!(!e.message().contains("os error"));
}

#[test]
fn failed_launch_is_spawn_failed() {
    let e = command_result(false, false, &Vec::new()).unwrap_err();
    assert_eq!(e, Error::SpawnFailed);
    assert_eq!(e.status_code(), 500);
    assert_eq!(e.message(), "command could not be started");
}

#[test]
fn invalid_utf8_output_is_not_text() {
    assert_eq!(command_result(true, true, &vec![0xff, 0xfe]), Err(Error::OutputNotText));
}

#[test]
fn outcome_checks_launch_before_exit_and_text() {
    assert_eq!(command_outcome(false, true, Some("x".to_string())), Err(Error::SpawnFailed));
    assert_eq!(command_outcome(true, false, Some("x".to_string())), Err(Error::ExecutionFailed));
    assert_eq!(command_outcome(true, true, None), Err(Error::OutputNotText));
    assert_eq!(command_outcome(true, true, Some("x".to_string())), Ok("x".to_string()));
}

#[test]
fn messages_are_fixed_per_kind() {
    assert_eq!(Error::PathEscape.message(), "command path leaves the command directory");
    assert_eq!(Error::TreeConflict.message(), "sensor tree changed during the walk");
    assert_eq!(Error::OutputNotText.message(), "command output is not text");
    assert_eq!(Error::IoError.message(), "i/o error");
}
