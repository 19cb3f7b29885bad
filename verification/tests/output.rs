use fcoreutils::output::{
    checked_write_all, effective_mode, handle_write_error, parse_output_error_mode, ErrorAction, OutputErrorMode,
    WriteResult,
};

#[test]
fn write_results() {
    assert_eq!(checked_write_all(WriteResult::Complete), Ok(true));
    assert_eq!(checked_write_all(WriteResult::BrokenPipe), Ok(false));
    assert_eq!(checked_write_all(WriteResult::Failed), Err(WriteResult::Failed));
}

#[test]
fn error_modes() {
    let quiet_go_on = ErrorAction { report: false, exit: false };
    let warn_go_on = ErrorAction { report: true, exit: false };
    let warn_exit = ErrorAction { report: true, exit: true };
    assert_eq!(handle_write_error(OutputErrorMode::WarnDefault, true), quiet_go_on);
    assert_eq!(handle_write_error(OutputErrorMode::WarnDefault, false), warn_go_on);
    assert_eq!(handle_write_error(OutputErrorMode::Warn, true), warn_go_on);
    assert_eq!(handle_write_error(OutputErrorMode::WarnNoPipe, true), quiet_go_on);
    assert_eq!(handle_write_error(OutputErrorMode::Exit, true), warn_exit);
    assert_eq!(handle_write_error(OutputErrorMode::ExitNoPipe, true), quiet_go_on);
    assert_eq!(handle_write_error(OutputErrorMode::ExitNoPipe, false), warn_exit);
}

#[test]
fn mode_names() {
    assert_eq!(parse_output_error_mode("warn"), Some(OutputErrorMode::Warn));
    assert_eq!(parse_output_error_mode("exit-nopipe"), Some(OutputErrorMode::ExitNoPipe));
    assert_eq!(parse_output_error_mode("never"), None);
    assert_eq!(effective_mode(OutputErrorMode::WarnDefault, true), OutputErrorMode::WarnNoPipe);
    assert_eq!(effective_mode(OutputErrorMode::Exit, true), OutputErrorMode::Exit);
}
