//! What the bridge reports when something is wrong.

use vstd::prelude::*;

verus! {

/// The kinds of failure, named as the I/O error kinds that they are reported under.
#[derive(Clone, Copy, Debug, PartialEq, Eq, Structural)]
pub enum FailureKind {
    InvalidData,
    InvalidInput,
    UnexpectedEof,
    AlreadyExists,
}

/// A failure with the message that is logged for it.
#[derive(Debug, PartialEq, Eq)]
pub struct Failure {
    pub kind: FailureKind,
    pub message: String,
}

/// A failure as contracts speak of it.
pub ghost struct Problem {
    pub kind: FailureKind,
    pub message: Seq<char>,
}

impl View for Failure {
    type V = Problem;

    open spec fn view(&self) -> Problem {
        Problem { kind: self.kind, message: self.message@ }
    }
}

/// A failure of received data.
pub open spec fn bad_data(message: Seq<char>) -> Problem {
    Problem { kind: FailureKind::InvalidData, message }
}

/// A failure of received data.
pub fn invalid_data(message: String) -> (failure: Failure)
    ensures
        failure@ == bad_data(message@),
{
    Failure { kind: FailureKind::InvalidData, message }
}

} // verus!
