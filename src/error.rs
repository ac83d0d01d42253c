use vstd::prelude::*;

verus! {

/// Kinds of failure that the core operations report.
#[derive(Debug, Clone, Copy, PartialEq, Eq, Structural)]
pub enum ErrorKind {
    /// A missing object, index entry, reference or commit.
    NotFound,
    /// A malformed object frame, a corrupt index or a truncated record.
    InvalidData,
    /// Something that may exist only once already does.
    AlreadyExists,
    /// A malformed name or a missing argument.
    InvalidInput,
}

} // verus!
