use vstd::prelude::*;
use crate::at::At;

verus! {

/// What an issue is about.
#[derive(Debug, PartialEq, Eq, Clone, Copy, Structural)]
pub enum IssueSubject {
    /// The type of the commit.
    Type,
    /// The header as a whole.
    Header,
    /// The colon behind the type.
    Colon,
    /// The space behind the colon.
    Space,
    /// The description.
    Desc,
    /// Whitespace other than the space behind the colon.
    Whitespace,
}

/// The input has nothing for the subject; `expected_at` is where it belongs.
#[derive(Debug, PartialEq, Eq, Clone, Copy, Structural)]
pub struct Missing {
    pub expected_at: At,
}

/// The input has the subject, at `found_at`, but it belongs at `expected_at`.
#[derive(Debug, PartialEq, Eq, Clone, Copy, Structural)]
pub struct Misplaced {
    pub expected_at: At,
    pub found_at: At,
}

/// What is wrong with the subject of an issue.
#[derive(Debug, PartialEq, Eq, Clone, Copy, Structural)]
pub enum IssueData {
    Missing(Missing),
    Misplaced(Misplaced),
}

/// One finding about a header. Ids count up from 0 in the order in which the
/// issues are reported.
#[derive(Debug, PartialEq, Eq, Clone, Copy, Structural)]
pub struct Issue {
    pub id: usize,
    pub subject: IssueSubject,
    pub data: IssueData,
}

} // verus!
