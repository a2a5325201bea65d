use vstd::prelude::*;

verus! {

/// The ways in which reading a catalog can fail.
#[derive(Debug, Clone, PartialEq, Eq)]
pub enum Error {
    /// The catalog file named by `path` does not exist.
    PathDoesNotExist { path: String },
    /// A `msgstr[..]` line whose index has no closing bracket or is not a number.
    MalformedEntry { line: String },
}

} // verus!
