//! The failures that theme operations report.

use vstd::prelude::*;

verus! {

/// The categories of failure.
#[derive(Clone, Copy, PartialEq, Eq, Debug, Structural)]
pub enum ErrorKind {
    /// A file or directory could not be read or written.
    Io,
    /// A remote stylesheet could not be fetched.
    Network,
    /// An import leads back to a document that is still being processed.
    CyclicImport,
    /// An import directive names no usable target.
    MalformedImport,
}

} // verus!
