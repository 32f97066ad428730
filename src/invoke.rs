use vstd::prelude::*;

use crate::error::Error;
use crate::text::text_of_bytes;
use vstd::utf8::{decode_utf8, valid_utf8};

verus! {

/// What a finished command run reports: the error for a failed launch, a failed exit
/// or output that is not text, else the output text.
pub open spec fn outcome(launched: bool, exited_ok: bool, text: Option<Seq<char>>) -> Result<Seq<char>, Error> {
    if !launched {
        Err(Error::SpawnFailed)
    } else if !exited_ok {
        Err(Error::ExecutionFailed)
    } else {
        match text {
            Some(t) => Ok(t),
            None => Err(Error::OutputNotText),
        }
    }
}

/// The view of a command result: its text, or its error.
pub open spec fn result_view(r: Result<String, Error>) -> Result<Seq<char>, Error> {
    match r {
        Ok(s) => Ok(s@),
        Err(e) => Err(e),
    }
}

/// Decides what a command run yields, given whether it started, whether it exited with
/// success, and its standard output already decoded (`None` where it is not text).
pub fn command_outcome(launched: bool, exited_ok: bool, text: Option<String>) -> (r: Result<String, Error>)
    ensures
        result_view(r) == outcome(launched, exited_ok, match text {
            Some(t) => Some(t@),
            None => None,
        }),
{
    if !launched {
        Err(Error::SpawnFailed)
    } else if !exited_ok {
        Err(Error::ExecutionFailed)
    } else {
        match text {
            Some(t) => Ok(t),
            None => Err(Error::OutputNotText),
        }
    }
}

/// Turns a finished command run into its result: the standard output as text, or the
/// error that the run deserves. Standard error and the exit code are not reported.
pub fn command_result(launched: bool, exited_ok: bool, stdout: &Vec<u8>) -> (r: Result<String, Error>)
    ensures
        result_view(r) == outcome(launched, exited_ok, if valid_utf8(stdout@) {
            Some(decode_utf8(stdout@))
        } else {
            None
        }),
{
    if !launched || !exited_ok {
        return command_outcome(launched, exited_ok, None);
    }
    let text = text_of_bytes(stdout);
    command_outcome(launched, exited_ok, text)
}

} // verus!
