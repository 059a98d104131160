//! The error that every fallible operation reports.

use vstd::prelude::*;

verus! {

/// What went wrong, by class.
#[derive(Clone, Copy, Debug, PartialEq, Eq, Structural)]
pub enum FailureKind {
    NotFound,
    PermissionDenied,
    AlreadyExists,
    InvalidInput,
    InvalidData,
    TimedOut,
    Interrupted,
    WouldBlock,
    Unsupported,
    Other,
}

/// A class of failure and a message for people.
#[derive(Debug, PartialEq, Eq)]
pub struct Failure {
    pub kind: FailureKind,
    pub message: String,
}

/// The model of a failure.
pub struct FailureView {
    pub kind: FailureKind,
    pub message: Seq<char>,
}

impl View for Failure {
    type V = FailureView;

    open spec fn view(&self) -> FailureView {
        FailureView { kind: self.kind, message: self.message@ }
    }
}

impl Clone for Failure {
    fn clone(&self) -> (r: Self)
        ensures
            r@ == self@,
    {
        Failure { kind: self.kind, message: self.message.clone() }
    }
}

/// The model of an optional failure.
pub open spec fn opt_failure(f: Option<Failure>) -> Option<FailureView> {
    match f {
        Some(x) => Some(x@),
        None => None,
    }
}

/// The model of a failure of a class with a message.
pub open spec fn fails(kind: FailureKind, message: Seq<char>) -> FailureView {
    FailureView { kind, message }
}

impl Failure {
    /// A failure of a class with a message.
    pub fn new(kind: FailureKind, message: &str) -> (r: Self)
        ensures
            r@ == fails(kind, message@),
    {
        Failure { kind, message: message.to_owned() }
    }

    /// The message.
    pub fn to_string(&self) -> (r: String)
        ensures
            r@ == self@.message,
    {
        self.message.clone()
    }
}

/// A failure is its kind and its message.
pub proof fn law_failure_is_its_kind_and_message(f: Failure, kind: FailureKind, message: Seq<char>)
    ensures
        opt_failure(Some(f)) == Some(f@),
        opt_failure(None) is None,
        fails(kind, message).kind == kind,
        fails(kind, message).message == message,
        f@.kind == f.kind,
        f@.message == f.message@,
{
}

} // verus!
