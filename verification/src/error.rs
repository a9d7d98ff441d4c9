//! The error every fallible operation of this library reports.
use vstd::prelude::*;

use crate::shared::RevisionStamp;

verus! {

/// A refused request. The message names the limit or the defect, in the
/// words a caller is shown.
#[derive(Debug)]
pub enum CoreError {
    Request(String),
    /// The shared view moved on since the caller read it.
    Conflict(RevisionConflict),
}

/// A refusal because what the caller expected is no longer current.
#[derive(Debug)]
pub struct RevisionConflict {
    pub code: String,
    pub expected: RevisionStamp,
    pub actual: RevisionStamp,
    pub message: String,
}

/// `e` is the refusal whose message is `msg`.
pub open spec fn is_refusal(e: CoreError, msg: Seq<char>) -> bool {
    match e {
        CoreError::Request(m) => m@ == msg,
        CoreError::Conflict(_) => false,
    }
}

/// `e` is the revision conflict with this code, stamps and message.
pub open spec fn is_conflict(
    e: CoreError,
    code: Seq<char>,
    expected: RevisionStamp,
    actual: RevisionStamp,
    message: Seq<char>,
) -> bool {
    match e {
        CoreError::Conflict(c) => c.code@ == code && c.expected == expected && c.actual == actual
            && c.message@ == message,
        CoreError::Request(_) => false,
    }
}

/// A refusal carrying `message`.
pub fn refusal(message: &str) -> (e: CoreError)
    ensures
        is_refusal(e, message@),
{
    CoreError::Request(message.to_owned())
}

/// The answer to a check whose outcome `refused` was read elsewhere (a clock,
/// say): a refusal carrying `message` exactly when it refused.
pub fn refuse_when(refused: bool, message: &str) -> (r: Result<(), CoreError>)
    ensures
        refused ==> (r matches Err(e) && is_refusal(e, message@)),
        !refused ==> r is Ok,
{
    if refused {
        Err(refusal(message))
    } else {
        Ok(())
    }
}

impl CoreError {
    /// The message a caller is shown.
    pub fn message(&self) -> (s: &str)
        ensures
            match self {
                CoreError::Request(m) => s@ == m@,
                CoreError::Conflict(c) => s@ == c.message@,
            },
    {
        match self {
            CoreError::Request(m) => m.as_str(),
            CoreError::Conflict(c) => c.message.as_str(),
        }
    }
}

} // verus!
