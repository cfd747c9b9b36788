use vstd::prelude::*;
use crate::domain::Domain;

verus! {

/// What is known of one slot of the header: whether a token was found for
/// it, where the slot sits among the ids of the blocks, and which slots sit
/// next to it.
#[derive(Debug, PartialEq, Eq, Clone, Copy, Structural)]
pub struct Pencil {
    pub domain: Domain,
    /// The id of the token found for the slot; for a slot that is missing,
    /// once the map is built, the id that it would sit at.
    pub found_at: Option<usize>,
    pub next: Option<Domain>,
    pub prev: Option<Domain>,
    pub missing: bool,
    /// Among the missing slots that follow each other, which one this is,
    /// counted from 1.
    pub missing_nth: usize,
    /// How many missing slots follow each other where this one is.
    pub missing_total: usize,
}

impl Pencil {
    /// Whether `self` comes before `other`: by the ids where both have one,
    /// and by the order of the grammar where one of them has none.
    pub open spec fn before(self, other: Pencil) -> bool {
        match (self.found_at, other.found_at) {
            (Some(mine), Some(theirs)) => mine < theirs,
            _ => self.domain.rank() < other.domain.rank(),
        }
    }

    /// Whether no token was found for the slot.
    #[inline]
    pub fn is_missing(&self) -> (r: bool)
        ensures
            r == self.missing,
    {
        self.missing
    }

    /// `before` for code.
    pub fn precedes(&self, other: &Pencil) -> (r: bool)
        ensures
            r == self.before(*other),
    {
        match (self.found_at, other.found_at) {
            (Some(mine), Some(theirs)) => mine < theirs,
            _ => self.domain.position() < other.domain.position(),
        }
    }
}

} // verus!
