//! What to do when writing output fails: a reader that has gone away (a
//! broken pipe) ends output quietly, other errors are reported; and the
//! `--output-error` modes of copying to several outputs.

use vstd::prelude::*;
use vstd::string::*;

verus! {

/// How an attempt to write a whole buffer ended.
#[derive(Clone, Copy, Debug, PartialEq, Eq, Structural)]
pub enum WriteResult {
    /// Everything was written.
    Complete,
    /// The reader has gone away.
    BrokenPipe,
    /// Another error.
    Failed,
}

/// Whether output goes on after a write: `Ok(true)` when it was complete,
/// `Ok(false)` when the reader has gone away (output stops quietly), and the
/// failure itself for any other error.
pub fn checked_write_all(result: WriteResult) -> (r: Result<bool, WriteResult>)
    ensures
        result == WriteResult::Complete ==> r == Ok::<bool, WriteResult>(true),
        result == WriteResult::BrokenPipe ==> r == Ok::<bool, WriteResult>(false),
        result == WriteResult::Failed ==> r == Err::<bool, WriteResult>(WriteResult::Failed),
{
    match result {
        WriteResult::Complete => Ok(true),
        WriteResult::BrokenPipe => Ok(false),
        WriteResult::Failed => Err(WriteResult::Failed),
    }
}

/// The behavior on a write error when copying to several outputs.
#[derive(Clone, Copy, Debug, PartialEq, Eq, Structural)]
pub enum OutputErrorMode {
    /// Without the option: report errors other than a broken pipe, go on
    /// with the other outputs.
    WarnDefault,
    /// `warn`: report every error, go on.
    Warn,
    /// `warn-nopipe`: report errors other than a broken pipe, go on.
    WarnNoPipe,
    /// `exit`: report every error and exit.
    Exit,
    /// `exit-nopipe`: report and exit on errors other than a broken pipe;
    /// drop a broken output quietly.
    ExitNoPipe,
}

/// What to do about one write error.
#[derive(Clone, Copy, Debug, PartialEq, Eq, Structural)]
pub struct ErrorAction {
    /// Print a diagnostic.
    pub report: bool,
    /// Exit with failure.
    pub exit: bool,
}

/// The action for a write error in `mode`, the error being a broken pipe or not.
pub open spec fn spec_error_action(mode: OutputErrorMode, is_pipe_error: bool) -> ErrorAction {
    match mode {
        OutputErrorMode::WarnDefault => ErrorAction { report: !is_pipe_error, exit: false },
        OutputErrorMode::Warn => ErrorAction { report: true, exit: false },
        OutputErrorMode::WarnNoPipe => ErrorAction { report: !is_pipe_error, exit: false },
        OutputErrorMode::Exit => ErrorAction { report: true, exit: true },
        OutputErrorMode::ExitNoPipe => ErrorAction { report: !is_pipe_error, exit: !is_pipe_error },
    }
}

/// Decides what to do about a write error.
pub fn handle_write_error(mode: OutputErrorMode, is_pipe_error: bool) -> (r: ErrorAction)
    ensures
        r == spec_error_action(mode, is_pipe_error),
{
    match mode {
        OutputErrorMode::WarnDefault => ErrorAction { report: !is_pipe_error, exit: false },
        OutputErrorMode::Warn => ErrorAction { report: true, exit: false },
        OutputErrorMode::WarnNoPipe => ErrorAction { report: !is_pipe_error, exit: false },
        OutputErrorMode::Exit => ErrorAction { report: true, exit: true },
        OutputErrorMode::ExitNoPipe => ErrorAction { report: !is_pipe_error, exit: !is_pipe_error },
    }
}

/// The mode named by an `--output-error=MODE` argument.
pub open spec fn spec_output_error_mode(b: Seq<u8>) -> Option<OutputErrorMode> {
    if b =~= seq![119u8, 97, 114, 110] {
        Some(OutputErrorMode::Warn)
    } else if b =~= seq![119u8, 97, 114, 110, 45, 110, 111, 112, 105, 112, 101] {
        Some(OutputErrorMode::WarnNoPipe)
    } else if b =~= seq![101u8, 120, 105, 116] {
        Some(OutputErrorMode::Exit)
    } else if b =~= seq![101u8, 120, 105, 116, 45, 110, 111, 112, 105, 112, 101] {
        Some(OutputErrorMode::ExitNoPipe)
    } else {
        None
    }
}

fn same_bytes(a: &[u8], b: &[u8]) -> (r: bool)
    ensures
        r == (a@ =~= b@),
{
    if a.len() != b.len() {
        return false;
    }
    let mut i: usize = 0;
    while i < a.len()
        invariant
            a.len() == b.len(),
            i <= a.len(),
            forall|k: int| 0 <= k < i ==> a@[k] == b@[k],
        decreases a.len() - i,
    {
        if a[i] != b[i] {
            return false;
        }
        i = i + 1;
    }
    true
}

/// Reads the MODE of `--output-error=MODE`: `warn`, `warn-nopipe`, `exit`
/// or `exit-nopipe`.
pub fn parse_output_error_mode(s: &str) -> (r: Option<OutputErrorMode>)
    ensures
        r == spec_output_error_mode(s.spec_bytes()),
{
    let b = s.as_bytes();
    let warn: [u8; 4] = [119, 97, 114, 110];
    let warn_nopipe: [u8; 11] = [119, 97, 114, 110, 45, 110, 111, 112, 105, 112, 101];
    let exit: [u8; 4] = [101, 120, 105, 116];
    let exit_nopipe: [u8; 11] = [101, 120, 105, 116, 45, 110, 111, 112, 105, 112, 101];
    assert(warn@ =~= seq![119u8, 97, 114, 110]);
    assert(warn_nopipe@ =~= seq![119u8, 97, 114, 110, 45, 110, 111, 112, 105, 112, 101]);
    assert(exit@ =~= seq![101u8, 120, 105, 116]);
    assert(exit_nopipe@ =~= seq![101u8, 120, 105, 116, 45, 110, 111, 112, 105, 112, 101]);
    if same_bytes(b, &warn) {
        Some(OutputErrorMode::Warn)
    } else if same_bytes(b, &warn_nopipe) {
        Some(OutputErrorMode::WarnNoPipe)
    } else if same_bytes(b, &exit) {
        Some(OutputErrorMode::Exit)
    } else if same_bytes(b, &exit_nopipe) {
        Some(OutputErrorMode::ExitNoPipe)
    } else {
        None
    }
}

/// The mode in effect: `-p` without `--output-error` means `warn-nopipe`.
pub fn effective_mode(mode: OutputErrorMode, diagnose_pipe: bool) -> (r: OutputErrorMode)
    ensures
        r == (if diagnose_pipe && mode == OutputErrorMode::WarnDefault { OutputErrorMode::WarnNoPipe } else { mode }),
{
    if diagnose_pipe && mode == OutputErrorMode::WarnDefault {
        OutputErrorMode::WarnNoPipe
    } else {
        mode
    }
}

/// Only `exit` exits on a broken pipe, and only `warn` and `exit` report it.
pub proof fn lemma_broken_pipe_handling(mode: OutputErrorMode)
    ensures
        spec_error_action(mode, true).exit <==> mode == OutputErrorMode::Exit,
        spec_error_action(mode, true).report <==> (mode == OutputErrorMode::Warn || mode == OutputErrorMode::Exit),
{
}

} // verus!
