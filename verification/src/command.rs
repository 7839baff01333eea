//! What the system commands return, as plain values, and the decisions taken
//! on them that both platforms share.
use vstd::prelude::*;
use vstd::utf8::{decode_utf8, valid_utf8};

use crate::error::{BootError, ErrorModel};
use crate::text;

verus! {

/// Why a command could not be started, as the operating system reported it.
pub enum SpawnFailure {
    /// The program was not found.
    NotFound,
    /// The program may not be run.
    PermissionDenied,
    /// Another failure, with the system's message.
    Other(String),
}

/// What a command that ran returned: whether it exited successfully, and the
/// bytes it wrote to its standard output and standard error.
pub struct CommandOutput {
    pub success: bool,
    pub stdout: Vec<u8>,
    pub stderr: Vec<u8>,
}

/// What `String::from_utf8_lossy` returns for some bytes: the UTF-8 text they
/// hold, with each malformed sequence replaced by U+FFFD.
pub uninterp spec fn utf8_lossy(bytes: Seq<u8>) -> Seq<char>;

/// Calls `String::from_utf8_lossy`. The result is the named value
/// `utf8_lossy` of the bytes; for valid UTF-8 it is the text they encode, as
/// the documentation of the function says. What it is for malformed input is
/// left to the name.
#[verifier::external_body]
pub(crate) fn from_utf8_lossy(bytes: &[u8]) -> (r: String)
    ensures
        r@ == utf8_lossy(bytes@),
        valid_utf8(bytes@) ==> r@ == decode_utf8(bytes@),
{
    String::from_utf8_lossy(bytes).into_owned()
}

/// The error for a command that could not be started.
pub open spec fn spawn_error_model(program: Seq<char>, failure: SpawnFailure) -> ErrorModel {
    match failure {
        SpawnFailure::NotFound => ErrorModel::CommandNotFound(program),
        SpawnFailure::PermissionDenied => ErrorModel::PermissionDenied,
        SpawnFailure::Other(m) => ErrorModel::CommandFailed(m@),
    }
}

/// The error for a command `program` that could not be started: not found,
/// not permitted, or failed with the system's message.
pub fn spawn_error(program: &str, failure: SpawnFailure) -> (r: BootError)
    ensures
        r@ == spawn_error_model(program@, failure),
{
    match failure {
        SpawnFailure::NotFound => BootError::CommandNotFound(
            text::string_of(text::chars_of(program).as_slice()),
        ),
        SpawnFailure::PermissionDenied => BootError::PermissionDenied,
        SpawnFailure::Other(m) => BootError::CommandFailed(m),
    }
}

/// The trimmed text of a command's standard error.
pub open spec fn error_text(output: CommandOutput) -> Seq<char> {
    text::trim(utf8_lossy(output.stderr@))
}

pub fn error_text_exec(output: &CommandOutput) -> (r: Vec<char>)
    ensures
        r@ == error_text(*output),
{
    let s = from_utf8_lossy(output.stderr.as_slice());
    let c = text::chars_of(s.as_str());
    let t = text::trim_exec(c.as_slice());
    vstd::slice::slice_to_vec(t)
}

/// What a reboot command's outcome means: it could not be started (with the
/// system's message), it failed (with its standard error), or it succeeded.
pub open spec fn reboot_outcome_model(outcome: Result<CommandOutput, String>) -> Result<
    (),
    ErrorModel,
> {
    match outcome {
        Err(m) => Err(ErrorModel::RebootFailed(m@)),
        Ok(output) => if output.success {
            Ok(())
        } else {
            Err(ErrorModel::RebootFailed(error_text(output)))
        },
    }
}

/// The result of a reboot request from the reboot command's outcome.
pub fn reboot_outcome(outcome: Result<CommandOutput, String>) -> (r: Result<(), BootError>)
    ensures
        match r {
            Ok(()) => reboot_outcome_model(outcome) == Ok::<(), ErrorModel>(()),
            Err(e) => reboot_outcome_model(outcome) == Err::<(), ErrorModel>(e@),
        },
{
    match outcome {
        Err(m) => Err(BootError::RebootFailed(m)),
        Ok(output) => {
            if output.success {
                Ok(())
            } else {
                let t = error_text_exec(&output);
                Err(BootError::RebootFailed(text::string_of(t.as_slice())))
            }
        },
    }
}

} // verus!
