use vstd::prelude::*;

verus! {

/// What can be wrong with the type of a commit.
#[derive(Debug, PartialEq, Eq, Clone, Copy, Structural)]
pub enum TypeIssue {
    /// The commit has no type.
    NotFound,
}

/// What can be wrong with a commit. It comes down to two things: something
/// that was expected is not there, or something is there that was not
/// expected.
#[derive(Debug, PartialEq, Eq, Clone, Copy, Structural)]
pub enum Issue {
    Type(TypeIssue),
}

} // verus!
