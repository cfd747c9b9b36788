use vstd::prelude::*;

verus! {

/// How a place relates to the thing it is told by.
#[derive(Debug, PartialEq, Eq, Clone, Copy, Structural)]
pub enum AtPos {
    Exactly,
    After,
    Before,
}

/// The thing a place is told by: the start of the header, one of its tokens,
/// or an issue reported earlier.
///
/// A token is named by its number: the tokens of a header are counted from 0
/// in the order of the text, the root aside. The block of the token
/// `Token(n)` is the block `n + 1` of the header and carries the id
/// `(n + 1) * 1000`; the id 0 is that of the root, which is named `Root`.
/// `find_header_issues::token_block` finds the block of a token in a header
/// or a layout, and `find_header_issues::token_id` gives its id.
#[derive(Debug, PartialEq, Eq, Clone, Copy, Structural)]
pub enum AtTarget {
    Root,
    Token(usize),
    Issue(usize),
}

/// A place in the header, told by a token or an issue rather than by a byte
/// offset: a slot that is missing has no byte of its own.
#[derive(Debug, PartialEq, Eq, Clone, Copy, Structural)]
pub struct At {
    pub pos: AtPos,
    pub target: AtTarget,
}

impl At {
    /// The very start of the header.
    pub open spec fn spec_start() -> At {
        At { pos: AtPos::Exactly, target: AtTarget::Root }
    }

    /// Exactly where `target` is.
    pub open spec fn spec_exactly(target: AtTarget) -> At {
        At { pos: AtPos::Exactly, target }
    }

    /// Right behind `target`.
    pub open spec fn spec_after(target: AtTarget) -> At {
        At { pos: AtPos::After, target }
    }

    /// The very start of the header.
    #[inline]
    #[verifier::when_used_as_spec(spec_start)]
    pub fn start() -> (r: Self)
        ensures
            r == At::spec_start(),
    {
        Self { pos: AtPos::Exactly, target: AtTarget::Root }
    }

    /// Exactly where `target` is.
    #[inline]
    #[verifier::when_used_as_spec(spec_exactly)]
    pub fn exactly(target: AtTarget) -> (r: Self)
        ensures
            r == At::spec_exactly(target),
    {
        Self { pos: AtPos::Exactly, target }
    }

    /// Exactly where the token `id` is.
    #[inline]
    pub fn exactly_token(id: usize) -> (r: Self)
        ensures
            r == At::spec_exactly(AtTarget::Token(id)),
    {
        Self::exactly(AtTarget::Token(id))
    }

    /// Exactly where the issue `id` says its subject belongs.
    #[inline]
    pub fn exactly_issue(id: usize) -> (r: Self)
        ensures
            r == At::spec_exactly(AtTarget::Issue(id)),
    {
        Self::exactly(AtTarget::Issue(id))
    }

    /// Right behind `target`.
    #[inline]
    #[verifier::when_used_as_spec(spec_after)]
    pub fn after(target: AtTarget) -> (r: Self)
        ensures
            r == At::spec_after(target),
    {
        Self { pos: AtPos::After, target }
    }

    /// Right behind the token `id`.
    #[inline]
    pub fn after_token(id: usize) -> (r: Self)
        ensures
            r == At::spec_after(AtTarget::Token(id)),
    {
        Self::after(AtTarget::Token(id))
    }

    /// Right behind what the issue `id` asks for.
    #[inline]
    pub fn after_issue(id: usize) -> (r: Self)
        ensures
            r == At::spec_after(AtTarget::Issue(id)),
    {
        Self::after(AtTarget::Issue(id))
    }
}

} // verus!
