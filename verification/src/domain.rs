use vstd::prelude::*;

verus! {

/// The part of a scope that a block stands for.
#[derive(Debug, PartialEq, Eq, Clone, Copy, PartialOrd, Ord, Hash, Structural)]
pub enum Scope {
    OpenBracket,
    Scope,
    CloseBracket,
}

/// The slot of the grammar that a block belongs to.
///
/// The variants are declared in the order of the grammar, so the derived
/// order is `Root < Type < Scope < Breaking < Colon < Space < Desc`; `Nil`,
/// the slot of a block nobody has looked at yet, sits between `Root` and
/// `Type`.
#[derive(Debug, PartialEq, Eq, Clone, Copy, PartialOrd, Ord, Hash, Structural)]
pub enum Domain {
    Root,
    Nil,
    Type,
    Scope(Scope),
    Breaking,
    Colon,
    Space,
    Desc,
}

impl Scope {
    /// The place of a scope part among the three: `(`, the name, `)`.
    pub open spec fn rank(self) -> nat {
        match self {
            Scope::OpenBracket => 0,
            Scope::Scope => 1,
            Scope::CloseBracket => 2,
        }
    }
}

impl Domain {
    /// The place of a slot in the order of the grammar.
    pub open spec fn rank(self) -> nat {
        match self {
            Domain::Root => 0,
            Domain::Nil => 1,
            Domain::Type => 2,
            Domain::Scope(part) => 3 + part.rank(),
            Domain::Breaking => 6,
            Domain::Colon => 7,
            Domain::Space => 8,
            Domain::Desc => 9,
        }
    }

    /// Whether `self` comes no later than `other` in the order of the grammar.
    pub fn precedes(self, other: Domain) -> (r: bool)
        ensures
            r == (self.rank() <= other.rank()),
    {
        self.position() <= other.position()
    }

    /// `rank` as a number that code can hold.
    pub fn position(self) -> (r: u8)
        ensures
            r == self.rank(),
    {
        match self {
            Domain::Root => 0,
            Domain::Nil => 1,
            Domain::Type => 2,
            Domain::Scope(Scope::OpenBracket) => 3,
            Domain::Scope(Scope::Scope) => 4,
            Domain::Scope(Scope::CloseBracket) => 5,
            Domain::Breaking => 6,
            Domain::Colon => 7,
            Domain::Space => 8,
            Domain::Desc => 9,
        }
    }
}

impl Default for Domain {
    fn default() -> (r: Self)
        ensures
            r == Domain::Nil,
    {
        Self::Nil
    }
}

} // verus!
