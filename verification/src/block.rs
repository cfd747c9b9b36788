use vstd::prelude::*;
use vstd::string::StringSliceAdditionalSpecFns;
use crate::bytes::Bytes;
use crate::domain::{Domain, Scope};

verus! {

/// What the engine has decided about a block.
#[derive(Debug, PartialEq, Eq, Clone, Copy, Structural)]
pub enum Status {
    /// Not looked at yet. No block is left unsigned once the engine is done.
    Unsigned,
    /// A token that stands where the grammar wants it.
    Settled,
    /// A slot the input does not fill: the block was made up to stand for it.
    Missing,
    /// A token that no slot takes.
    Extra,
    /// The place where a slot was expected; the index is that of the token
    /// found elsewhere for it, once one is found.
    Portal(Option<usize>),
    /// A token found away from its slot; the index is that of its portal.
    Ref(usize),
}

/// The kind of a token.
#[derive(Debug, PartialEq, Eq, Clone, Copy, Structural)]
pub enum Val {
    Root,
    /// No kind at all: the kind of a block that stands for nothing.
    Nil,
    /// A run of characters that are none of the marks below.
    Word,
    Space,
    OpenBracket,
    CloseBracket,
    ExclMark,
    Colon,
    EOL,
}

/// A token of the header, or a block made up for a slot, with the slot it
/// belongs to and what the engine decided about it.
#[derive(Debug, PartialEq, Eq, Clone, Copy, Structural)]
pub struct Block {
    /// Where the block stands in the order of all blocks: set for every token
    /// by the tokenizer, and for a made-up block once positions are projected.
    pub id: Option<usize>,
    pub val: Val,
    pub domain: Domain,
    pub bytes: Option<Bytes>,
    pub status: Status,
}

impl Val {
    /// The slot that a token of this kind fills when nothing else is known.
    pub open spec fn domain(self) -> Domain {
        match self {
            Val::Root => Domain::Root,
            Val::Word => Domain::Type,
            Val::Colon => Domain::Colon,
            Val::Space => Domain::Space,
            Val::Nil => Domain::Nil,
            Val::OpenBracket => Domain::Scope(Scope::OpenBracket),
            Val::CloseBracket => Domain::Scope(Scope::CloseBracket),
            Val::ExclMark => Domain::Breaking,
            Val::EOL => Domain::Nil,
        }
    }

    /// `domain` for code.
    pub fn into_domain(self) -> (r: Domain)
        ensures
            r == self.domain(),
    {
        match self {
            Val::Root => Domain::Root,
            Val::Word => Domain::Type,
            Val::Colon => Domain::Colon,
            Val::Space => Domain::Space,
            Val::Nil => Domain::Nil,
            Val::OpenBracket => Domain::Scope(Scope::OpenBracket),
            Val::CloseBracket => Domain::Scope(Scope::CloseBracket),
            Val::ExclMark => Domain::Breaking,
            Val::EOL => Domain::Nil,
        }
    }
}

/// Whether `block` stands for a token of the header rather than for a slot
/// that was made up.
pub open spec fn is_token_block(block: Block) -> bool {
    block.status != Status::Missing && !(block.status is Portal)
}

impl Block {
    /// Whether the block stands for a token of the header rather than for a
    /// slot that was made up.
    pub fn is_token(&self) -> (r: bool)
        ensures
            r == is_token_block(*self),
    {
        match self.status {
            Status::Missing => false,
            Status::Portal(_) => false,
            _ => true,
        }
    }

    /// The block that opens every header.
    pub open spec fn spec_root() -> Block {
        Block {
            id: Some(0usize),
            val: Val::Root,
            domain: Domain::Root,
            bytes: None,
            status: Status::Settled,
        }
    }

    /// Whether the block comes before `other` in the order of all blocks:
    /// the blocks go by their ids, and a block that has none yet comes
    /// before every block that has one.
    pub open spec fn before(self, other: Block) -> bool {
        match (self.id, other.id) {
            (Some(mine), Some(theirs)) => mine < theirs,
            (None, Some(_)) => true,
            _ => false,
        }
    }

    /// `before` for code.
    pub fn precedes(&self, other: &Block) -> (r: bool)
        ensures
            r == self.before(*other),
    {
        match (self.id, other.id) {
            (Some(mine), Some(theirs)) => mine < theirs,
            (None, Some(_)) => true,
            _ => false,
        }
    }

    /// The bytes of `text` that the block covers, if it covers any.
    pub open spec fn captured(self, text: Seq<u8>) -> Option<Seq<u8>> {
        match self.bytes {
            Some(bytes) => bytes.captured(text),
            None => None,
        }
    }

    /// The part of `source` that the block covers: none for a block that was
    /// made up, which has no bytes.
    #[inline]
    pub fn capture<'capture>(&self, source: &'capture str) -> (r: Option<&'capture str>)
        ensures
            match r {
                Some(part) => self.captured(source.spec_bytes()) == Some(part.spec_bytes()),
                None => self.captured(source.spec_bytes()) is None,
            },
    {
        match self.bytes {
            Some(bytes) => bytes.capture(source),
            None => None,
        }
    }

    /// The block that opens every header.
    #[inline]
    #[verifier::when_used_as_spec(spec_root)]
    pub fn root() -> (r: Self)
        ensures
            r == Block::spec_root(),
    {
        Self { id: Some(0), val: Val::Root, domain: Domain::Root, bytes: None, status: Status::Settled }
    }
}

impl From<Val> for Domain {
    fn from(val: Val) -> (r: Domain) {
        val.into_domain()
    }
}

impl vstd::std_specs::convert::FromSpecImpl<Val> for Domain {
    open spec fn obeys_from_spec() -> bool {
        true
    }

    open spec fn from_spec(val: Val) -> Domain {
        val.domain()
    }
}

impl Default for Val {
    fn default() -> (r: Self)
        ensures
            r == Val::Nil,
    {
        Self::Nil
    }
}

impl Default for Status {
    fn default() -> (r: Self)
        ensures
            r == Status::Unsigned,
    {
        Self::Unsigned
    }
}

impl Default for Block {
    fn default() -> (r: Self)
        ensures
            r == (Block {
                id: None,
                val: Val::Nil,
                domain: Domain::Nil,
                bytes: None,
                status: Status::Unsigned,
            }),
    {
        Self { id: None, val: Val::Nil, domain: Domain::Nil, bytes: None, status: Status::Unsigned }
    }
}

} // verus!
