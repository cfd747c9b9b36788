use vstd::prelude::*;

verus! {

/// A place reserved for one token of the header: still empty, known to stay
/// empty, or filled with the token of the given id.
#[derive(Debug, PartialEq, Eq, Clone, Copy, Structural)]
pub enum Pocket {
    Empty,
    Missing,
    Token(usize),
}

impl Pocket {
    /// A new pocket is empty: it only reserves the place.
    #[inline]
    pub fn new() -> (r: Self)
        ensures
            r == Pocket::Empty,
    {
        Self::Empty
    }

    /// Whether the pocket is still empty.
    #[inline]
    pub fn is_empty(&self) -> (r: bool)
        ensures
            r == (*self == Pocket::Empty),
    {
        match self {
            Self::Empty => true,
            _ => false,
        }
    }

    /// Whether the pocket is known to stay empty.
    #[inline]
    pub fn is_missing(&self) -> (r: bool)
        ensures
            r == (*self == Pocket::Missing),
    {
        match self {
            Self::Missing => true,
            _ => false,
        }
    }

    /// Whether the pocket holds a token.
    #[inline]
    pub fn is_token(&self) -> (r: bool)
        ensures
            r == (*self is Token),
    {
        match self {
            Self::Token(_) => true,
            _ => false,
        }
    }

    /// The id of the token in the pocket, if it holds one.
    #[inline]
    pub fn id(&self) -> (r: Option<usize>)
        ensures
            r == (match *self {
                Pocket::Token(id) => Some(id),
                _ => None,
            }),
    {
        match self {
            Self::Token(id) => Some(*id),
            _ => None,
        }
    }
}

impl Default for Pocket {
    fn default() -> (r: Self)
        ensures
            r == Pocket::Empty,
    {
        Self::Empty
    }
}

} // verus!
