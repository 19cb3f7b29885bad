use fcoreutils::timeout::{
    duration_unit, exec_failure_code, parse_signal, signal_from_upper, status_to_code, timeout_exit_code,
    EXIT_CANNOT_INVOKE, EXIT_ENOENT, EXIT_FAILURE, EXIT_TIMEOUT,
};

#[test]
fn signals() {
    assert_eq!(parse_signal("TERM"), Some(15));
    assert_eq!(parse_signal("sigkill"), Some(9));
    assert_eq!(parse_signal("Hup"), Some(1));
    assert_eq!(parse_signal("9"), Some(9));
    assert_eq!(parse_signal("-3"), Some(-3));
    assert_eq!(parse_signal("IOT"), Some(6));
    assert_eq!(parse_signal("poll"), Some(29));
    assert_eq!(parse_signal("NOPE"), None);
    assert_eq!(signal_from_upper(b"SIGUSR1"), Some(10));
    assert_eq!(signal_from_upper(b"usr1"), None);
}

#[test]
fn wait_statuses() {
    assert_eq!(status_to_code(0), 0);
    assert_eq!(status_to_code(3 << 8), 3);
    assert_eq!(status_to_code(9), 137);
    assert_eq!(status_to_code(0x7f), EXIT_FAILURE);
    assert_eq!(timeout_exit_code(false, 15, 15), EXIT_TIMEOUT);
    assert_eq!(timeout_exit_code(false, 9, 9), 137);
    assert_eq!(timeout_exit_code(true, 15, 2 << 8), 2);
    assert_eq!(timeout_exit_code(false, 9, 1 << 8), EXIT_TIMEOUT);
    assert_eq!(exec_failure_code(true), EXIT_ENOENT);
    assert_eq!(exec_failure_code(false), EXIT_CANNOT_INVOKE);
}

#[test]
fn durations() {
    assert_eq!(duration_unit("10"), (b"10".to_vec(), 1));
    assert_eq!(duration_unit("1.5m"), (b"1.5".to_vec(), 60));
    assert_eq!(duration_unit("2h"), (b"2".to_vec(), 3600));
    assert_eq!(duration_unit("3d"), (b"3".to_vec(), 86400));
    assert_eq!(duration_unit("4s"), (b"4".to_vec(), 1));
    assert_eq!(duration_unit(""), (b"".to_vec(), 1));
}
