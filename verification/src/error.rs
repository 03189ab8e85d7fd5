//! Standard error type for garbage collector operations, so that callers can
//! detect and handle allocator failures no matter the implementation.

use vstd::prelude::*;

verus! {

/// The closed set of failure classes a collector may report.
#[derive(Debug, Copy, Clone, Eq, PartialEq, Structural)]
pub enum ErrorKind {
    /// There is no longer enough memory to fill an allocation request.
    OutOfMemory,
    /// The request could never be filled under the current configuration,
    /// for example an allocation exceeding the size of the heap.
    AllocationTooLarge,
    /// The requested alignment is not supported: this collector rounds all
    /// allocations up to one fixed alignment and cannot go beyond it.
    UnsupportedAlignment,
    /// An invalid internal state was reached.
    IllegalState,
    /// An access to an object that has already been collected was detected.
    UseAfterFree,
    /// Any error which is not covered by another kind.
    Other,
}

impl ErrorKind {
    /// A human-readable description of this error kind.
    pub fn message(&self) -> (r: String)
        ensures
            r@ == self.spec_message(),
    {
        match self {
            ErrorKind::OutOfMemory => "Not enough memory remaining to complete request".to_owned(),
            ErrorKind::AllocationTooLarge => "Allocation exceeds the maximum allowed size for this GC".to_owned(),
            ErrorKind::UnsupportedAlignment => "The requested allocation alignment is not supported".to_owned(),
            ErrorKind::IllegalState => "Attempted to enter an invalid state to complete this request".to_owned(),
            ErrorKind::UseAfterFree => "Attempted to access an object which has been freed".to_owned(),
            ErrorKind::Other => "An unknown error occurred while attempting to complete the request".to_owned(),
        }
    }

    /// The description promised by [`ErrorKind::message`].
    pub open spec fn spec_message(self) -> Seq<char> {
        match self {
            ErrorKind::OutOfMemory => "Not enough memory remaining to complete request"@,
            ErrorKind::AllocationTooLarge => "Allocation exceeds the maximum allowed size for this GC"@,
            ErrorKind::UnsupportedAlignment => "The requested allocation alignment is not supported"@,
            ErrorKind::IllegalState => "Attempted to enter an invalid state to complete this request"@,
            ErrorKind::UseAfterFree => "Attempted to access an object which has been freed"@,
            ErrorKind::Other => "An unknown error occurred while attempting to complete the request"@,
        }
    }
}

/// An error raised by a collector: a kind plus a descriptive message.
#[derive(Debug)]
pub struct Error {
    kind: ErrorKind,
    message: String,
}

impl Error {
    /// The kind carried by this error, for use in specifications.
    pub closed spec fn spec_kind(self) -> ErrorKind {
        self.kind
    }

    /// The message carried by this error, for use in specifications.
    pub closed spec fn spec_message(self) -> Seq<char> {
        self.message@
    }

    /// Builds an error of the given kind with a descriptive message.
    pub fn new(kind: ErrorKind, message: String) -> (r: Error)
        ensures
            r.spec_kind() == kind,
            r.spec_message() == message@,
    {
        Error { kind, message }
    }

    /// The kind of this error.
    pub fn kind(&self) -> (k: ErrorKind)
        ensures
            k == self.spec_kind(),
    {
        self.kind
    }

    /// Builds the error that stands for a bare kind: the kind together with
    /// its standard description.
    pub fn from_kind(kind: ErrorKind) -> (r: Error)
        ensures
            r.spec_kind() == kind,
            r.spec_message() == kind.spec_message(),
    {
        Error { kind, message: kind.message() }
    }
}

} // verus!
