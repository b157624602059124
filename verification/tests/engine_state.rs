use logrustate::engine::{normalize_log_size, LogState, RotationMode, DEFAULT_LOG_SIZE, DEFAULT_NUM_OLD_LOGS};
use logrustate::errors::LogHandleError;

#[test]
fn registry_tracks_registered_paths() {
    let mut state = LogState::new(5, 4096);
    assert!(!state.is_registered("/var/log/a.log"));
    assert_eq!(state.fd_of("/var/log/a.log"), None);

    state.register("/var/log/a.log", 7);
    assert!(state.is_registered("/var/log/a.log"));
    assert_eq!(state.fd_of("/var/log/a.log"), Some(7));
    assert!(!state.is_registered("/var/log/b.log"));

    state.register("/var/log/b.log", 9);
    assert_eq!(state.fd_of("/var/log/a.log"), Some(7));
    assert_eq!(state.fd_of("/var/log/b.log"), Some(9));
}

#[test]
fn close_all_hands_every_descriptor_back_once() {
    let mut state = LogState::new(5, 4096);
    state.register("one.log", 3);
    state.register("two.log", 4);
    let handed = state.close_all();
    assert_eq!(handed.len(), 2);
    assert_eq!(handed[0], (String::from("one.log"), 3));
    assert_eq!(handed[1], (String::from("two.log"), 4));
    assert!(!state.is_registered("one.log"));
    assert!(!state.is_registered("two.log"));
    assert_eq!(state.close_all().len(), 0);
}

#[test]
fn unimplemented_modes_are_no_ops() {
    assert!(!RotationMode::InPlace.is_no_op());
    assert!(RotationMode::Piped.is_no_op());
    assert!(RotationMode::Managed.is_no_op());
}

#[test]
fn log_size_rounds_up_to_page_multiple() {
    assert_eq!(normalize_log_size(1), 4096);
    assert_eq!(normalize_log_size(4095), 4096);
    assert_eq!(normalize_log_size(4096), 4096);
    assert_eq!(normalize_log_size(4097), 8192);
    assert_eq!(normalize_log_size(5000), 8192);
    assert_eq!(normalize_log_size(8192), 8192);
}

#[test]
fn default_policy_values() {
    assert_eq!(DEFAULT_NUM_OLD_LOGS, 5);
    assert_eq!(DEFAULT_LOG_SIZE, 4096);
}

#[test]
fn errno_errors_carry_code_and_description() {
    let err = LogHandleError::from_errno();
    assert!(matches!(err, LogHandleError::Syscall(_, _)));
    if let LogHandleError::Syscall(code, text) = &err {
        // whatever errno was current, the description is the OS text for it,
        // never the code handed back unchanged
        assert_eq!(text.as_str(), nix::errno::Errno::from_raw(*code).desc());
        assert_eq!(err.description(), *text);
    }
}

#[test]
fn descriptions_follow_the_error_class() {
    let io = LogHandleError::IO(String::from("rename failed"));
    assert_eq!(io.description(), "rename failed");
    let utf8 = LogHandleError::Utf8(String::from("bad path"));
    assert_eq!(utf8.description(), "bad path");
    let sys = LogHandleError::Syscall(2, String::from("No such file or directory"));
    assert_eq!(sys.description(), "No such file or directory");
}
