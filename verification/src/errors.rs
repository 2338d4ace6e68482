//! The error type of the crate.
use vstd::prelude::*;

verus! {

/// Why an operation gave up.
#[derive(Debug, Clone, Copy, PartialEq, Eq, Structural)]
pub enum ErrorKind {
    /// The storage backend reported a failure.
    Backend,
    /// A stored node is not a well-formed serialization.
    Decode,
    /// The tree refers to a node that the store does not hold, a walk came
    /// to an edge with an empty label, or a node was assembled from cells
    /// that cannot form one.
    Invariant,
}

/// An error with its kind and a message for the reader.
#[derive(Debug)]
pub struct Errors {
    kind: ErrorKind,
    details: String,
}

impl Errors {
    /// An error reported by a storage backend.
    pub fn new(msg: &str) -> (e: Errors)
        ensures
            e.kind() == ErrorKind::Backend,
            e.details() == msg@,
    {
        Errors { kind: ErrorKind::Backend, details: msg.to_owned() }
    }

    /// An error of the given kind.
    pub fn with_kind(kind: ErrorKind, msg: &str) -> (e: Errors)
        ensures
            e.kind() == kind,
            e.details() == msg@,
    {
        Errors { kind, details: msg.to_owned() }
    }

    pub closed spec fn kind(&self) -> ErrorKind {
        self.kind
    }

    pub closed spec fn details(&self) -> Seq<char> {
        self.details@
    }

    /// The kind of the error.
    pub fn get_kind(&self) -> (k: ErrorKind)
        ensures
            k == self.kind(),
    {
        self.kind
    }

    /// The message of the error.
    pub fn to_string(&self) -> (s: String)
        ensures
            s@ == self.details(),
    {
        self.details.clone()
    }
}

} // verus!
