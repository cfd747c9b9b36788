use std::collections::HashMap;
use vstd::prelude::*;
use vstd::string::StringSliceAdditionalSpecFns;
use crate::block::{Block, Status, Val};
use crate::bytes::Bytes;
use crate::domain::{Domain, Scope};
use crate::weak_commit::parse_header::STRIDE;

verus! {

broadcast use vstd::std_specs::hash::group_hash_axioms;

/// Builds the blocks of a header by hand, one block per call, as the
/// tokenizer and the engine would leave them: a token gets the bytes that
/// follow those of the token before it and the next id, a made-up block gets
/// neither.
#[derive(Debug, Clone)]
pub struct BlockFactory {
    pub blocks: Vec<Block>,
    /// Where the bytes of the next token start.
    pub end_byte: usize,
    /// How many blocks there are.
    pub end_blocks: usize,
    /// The id of the last token.
    pub end_id: usize,
    /// The portals opened so far: the index of the portal of a slot, under
    /// the place of the slot in the order of the grammar (see
    /// `Domain::position`).
    pub portals: HashMap<u8, usize>,
}

impl BlockFactory {
    /// Whether one more block can be counted.
    pub open spec fn roomy(self) -> bool {
        self.end_blocks < usize::MAX
    }

    /// Whether a portal was opened for `lane`, at one of the blocks.
    pub open spec fn has_portal(self, lane: Domain) -> bool {
        &&& self.portals@.contains_key(lane.rank() as u8)
        &&& self.portals@[lane.rank() as u8] < self.blocks@.len()
    }

    /// Whether a token of `len` bytes can be added.
    pub open spec fn takes(self, len: nat) -> bool {
        &&& self.roomy()
        &&& self.end_byte + len <= usize::MAX
        &&& self.end_id + STRIDE <= usize::MAX
    }

    /// The token of `len` bytes that would be added next.
    pub open spec fn next_token(self, val: Val, domain: Domain, len: nat, status: Status) -> Block {
        Block {
            id: Some((self.end_id + STRIDE) as usize),
            val,
            domain,
            bytes: Some(Bytes(self.end_byte, (self.end_byte + len) as usize)),
            status,
        }
    }

    /// Whether `after` is `self` with one more token, of `len` bytes.
    pub open spec fn grows_by_token(
        self,
        after: Self,
        val: Val,
        domain: Domain,
        len: nat,
        status: Status,
    ) -> bool {
        &&& after.blocks@ == self.blocks@.push(self.next_token(val, domain, len, status))
        &&& after.end_byte == self.end_byte + len
        &&& after.end_blocks == self.end_blocks + 1
        &&& after.end_id == self.end_id + STRIDE
        &&& after.portals@ == self.portals@
    }

    /// Whether `after` is `self` with one more made-up block.
    pub open spec fn grows_by_made_up(
        self,
        after: Self,
        val: Val,
        domain: Domain,
        status: Status,
    ) -> bool {
        &&& after.blocks@ == self.blocks@.push(
            Block { id: None, val, domain, bytes: None, status },
        )
        &&& after.end_byte == self.end_byte
        &&& after.end_blocks == self.end_blocks + 1
        &&& after.end_id == self.end_id
    }

    /// The factory of a header that has nothing but its root.
    pub fn new() -> (r: Self)
        ensures
            r.blocks@ == seq![Block::spec_root()],
            r.end_byte == 0,
            r.end_blocks == 1,
            r.end_id == 0,
            r.portals@ == Map::<u8, usize>::empty(),
    {
        let mut blocks: Vec<Block> = Vec::new();
        blocks.push(Block::root());
        assert(blocks@ =~= seq![Block::spec_root()]);
        Self { end_byte: 0, end_blocks: 1, end_id: 0, portals: HashMap::new(), blocks }
    }

    /// Adds a token of `len` bytes.
    fn token(&mut self, val: Val, domain: Domain, len: usize, status: Status)
        requires
            old(self).takes(len as nat),
        ensures
            old(self).grows_by_token(*final(self), val, domain, len as nat, status),
    {
        self.blocks.push(
            Block {
                id: Some(self.end_id + STRIDE),
                val,
                domain,
                bytes: Some(Bytes::new(self.end_byte, self.end_byte + len)),
                status,
            },
        );
        self.end_byte += len;
        self.end_blocks += 1;
        self.end_id += STRIDE;
    }

    /// Adds a made-up block.
    fn made_up(&mut self, val: Val, domain: Domain, status: Status)
        requires
            old(self).roomy(),
        ensures
            old(self).grows_by_made_up(*final(self), val, domain, status),
            final(self).portals@ == old(self).portals@,
    {
        self.blocks.push(Block { id: None, val, domain, bytes: None, status });
        self.end_blocks += 1;
    }

    /// Adds the word `val`, settled as the type.
    pub fn kind(&mut self, val: &str) -> (r: &mut Self)
        requires
            old(self).takes(val.spec_bytes().len()),
        ensures
            old(self).grows_by_token(
                *r,
                Val::Word,
                Domain::Type,
                val.spec_bytes().len(),
                Status::Settled,
            ),
            *final(self) == *final(r),
    {
        self.token(Val::Word, Domain::Type, val.as_bytes().len(), Status::Settled);
        self
    }

    /// Adds a `(`, settled as the start of the scope.
    pub fn scope_ob(&mut self) -> (r: &mut Self)
        requires
            old(self).takes(1),
        ensures
            old(self).grows_by_token(
                *r,
                Val::OpenBracket,
                Domain::Scope(Scope::OpenBracket),
                1,
                Status::Settled,
            ),
            *final(self) == *final(r),
    {
        self.token(Val::OpenBracket, Domain::Scope(Scope::OpenBracket), 1, Status::Settled);
        self
    }

    /// Adds the word `val`, settled as the name of the scope.
    pub fn scope_val(&mut self, val: &str) -> (r: &mut Self)
        requires
            old(self).takes(val.spec_bytes().len()),
        ensures
            old(self).grows_by_token(
                *r,
                Val::Word,
                Domain::Scope(Scope::Scope),
                val.spec_bytes().len(),
                Status::Settled,
            ),
            *final(self) == *final(r),
    {
        self.token(Val::Word, Domain::Scope(Scope::Scope), val.as_bytes().len(), Status::Settled);
        self
    }

    /// Adds a `)`, settled as the end of the scope.
    pub fn scope_cb(&mut self) -> (r: &mut Self)
        requires
            old(self).takes(1),
        ensures
            old(self).grows_by_token(
                *r,
                Val::CloseBracket,
                Domain::Scope(Scope::CloseBracket),
                1,
                Status::Settled,
            ),
            *final(self) == *final(r),
    {
        self.token(Val::CloseBracket, Domain::Scope(Scope::CloseBracket), 1, Status::Settled);
        self
    }

    /// Adds a colon, settled as the colon.
    pub fn colon(&mut self) -> (r: &mut Self)
        requires
            old(self).takes(1),
        ensures
            old(self).grows_by_token(*r, Val::Colon, Domain::Colon, 1, Status::Settled),
            *final(self) == *final(r),
    {
        self.token(Val::Colon, Domain::Colon, 1, Status::Settled);
        self
    }

    /// Adds a space, settled as the space.
    pub fn space(&mut self) -> (r: &mut Self)
        requires
            old(self).takes(1),
        ensures
            old(self).grows_by_token(*r, Val::Space, Domain::Space, 1, Status::Settled),
            *final(self) == *final(r),
    {
        self.token(Val::Space, Domain::Space, 1, Status::Settled);
        self
    }

    /// Adds the word `val`, settled as part of the description.
    pub fn desc(&mut self, val: &str) -> (r: &mut Self)
        requires
            old(self).takes(val.spec_bytes().len()),
        ensures
            old(self).grows_by_token(
                *r,
                Val::Word,
                Domain::Desc,
                val.spec_bytes().len(),
                Status::Settled,
            ),
            *final(self) == *final(r),
    {
        self.token(Val::Word, Domain::Desc, val.as_bytes().len(), Status::Settled);
        self
    }

    /// Adds a block for a colon that is missing.
    pub fn colon_missing(&mut self) -> (r: &mut Self)
        requires
            old(self).roomy(),
        ensures
            old(self).grows_by_made_up(*r, Val::Colon, Domain::Colon, Status::Missing),
            r.portals@ == old(self).portals@,
            *final(self) == *final(r),
    {
        self.made_up(Val::Colon, Domain::Colon, Status::Missing);
        self
    }

    /// Adds a portal for a colon that is to be found further on.
    pub fn colon_misplaced(&mut self) -> (r: &mut Self)
        requires
            old(self).roomy(),
        ensures
            old(self).grows_by_made_up(*r, Val::Colon, Domain::Colon, Status::Portal(None)),
            r.portals@ == old(self).portals@.insert(
                Domain::Colon.rank() as u8,
                old(self).blocks@.len() as usize,
            ),
            *final(self) == *final(r),
    {
        let i = self.blocks.len();
        self.made_up(Val::Colon, Domain::Colon, Status::Portal(None));
        self.portals.insert(Domain::Colon.position(), i);
        self
    }

    /// Adds a colon as the token of the portal that was opened for the
    /// colon, and lets the portal point at it.
    pub fn colon_ref(&mut self) -> (r: &mut Self)
        requires
            old(self).takes(1),
            old(self).has_portal(Domain::Colon),
        ensures
            r.blocks@ == old(self).blocks@.update(
                old(self).portals@[Domain::Colon.rank() as u8] as int,
                Block {
                    status: Status::Portal(Some(old(self).blocks@.len() as usize)),
                    ..old(self).blocks@[old(self).portals@[Domain::Colon.rank() as u8] as int]
                },
            ).push(
                old(self).next_token(
                    Val::Colon,
                    Domain::Colon,
                    1,
                    Status::Ref(old(self).portals@[Domain::Colon.rank() as u8]),
                ),
            ),
            r.end_byte == old(self).end_byte + 1,
            r.end_blocks == old(self).end_blocks + 1,
            r.end_id == old(self).end_id + STRIDE,
            r.portals@ == old(self).portals@,
            *final(self) == *final(r),
    {
        let from_i = match self.portals.get(&Domain::Colon.position()) {
            Some(at) => *at,
            None => 0,
        };
        let i = self.blocks.len();
        let mut gate = self.blocks[from_i];
        gate.status = Status::Portal(Some(i));
        self.blocks[from_i] = gate;
        self.token(Val::Colon, Domain::Colon, 1, Status::Ref(from_i));
        self
    }

    /// Adds a block for a space that is missing.
    pub fn space_missing(&mut self) -> (r: &mut Self)
        requires
            old(self).roomy(),
        ensures
            old(self).grows_by_made_up(*r, Val::Space, Domain::Space, Status::Missing),
            r.portals@ == old(self).portals@,
            *final(self) == *final(r),
    {
        self.made_up(Val::Space, Domain::Space, Status::Missing);
        self
    }

    /// Adds a space that is surplus.
    pub fn space_extra(&mut self) -> (r: &mut Self)
        requires
            old(self).takes(1),
        ensures
            old(self).grows_by_token(*r, Val::Space, Domain::Space, 1, Status::Extra),
            *final(self) == *final(r),
    {
        self.token(Val::Space, Domain::Space, 1, Status::Extra);
        self
    }

    /// Adds a block for a description that is missing.
    pub fn desc_missing(&mut self) -> (r: &mut Self)
        requires
            old(self).roomy(),
        ensures
            old(self).grows_by_made_up(*r, Val::Word, Domain::Desc, Status::Missing),
            r.portals@ == old(self).portals@,
            *final(self) == *final(r),
    {
        self.made_up(Val::Word, Domain::Desc, Status::Missing);
        self
    }

    /// Adds a block for a type that is missing.
    pub fn kind_missing(&mut self) -> (r: &mut Self)
        requires
            old(self).roomy(),
        ensures
            old(self).grows_by_made_up(*r, Val::Word, Domain::Type, Status::Missing),
            r.portals@ == old(self).portals@,
            *final(self) == *final(r),
    {
        self.made_up(Val::Word, Domain::Type, Status::Missing);
        self
    }

    /// Adds a block for a `(` that is missing.
    pub fn scope_ob_missing(&mut self) -> (r: &mut Self)
        requires
            old(self).roomy(),
        ensures
            old(self).grows_by_made_up(
                *r,
                Val::OpenBracket,
                Domain::Scope(Scope::OpenBracket),
                Status::Missing,
            ),
            r.portals@ == old(self).portals@,
            *final(self) == *final(r),
    {
        self.made_up(Val::OpenBracket, Domain::Scope(Scope::OpenBracket), Status::Missing);
        self
    }

    /// Adds a block for the name of a scope that is missing.
    pub fn scope_val_missing(&mut self) -> (r: &mut Self)
        requires
            old(self).roomy(),
        ensures
            old(self).grows_by_made_up(
                *r,
                Val::Word,
                Domain::Scope(Scope::Scope),
                Status::Missing,
            ),
            r.portals@ == old(self).portals@,
            *final(self) == *final(r),
    {
        self.made_up(Val::Word, Domain::Scope(Scope::Scope), Status::Missing);
        self
    }

    /// Adds a block for a `)` that is missing.
    pub fn scope_cb_missing(&mut self) -> (r: &mut Self)
        requires
            old(self).roomy(),
        ensures
            old(self).grows_by_made_up(
                *r,
                Val::CloseBracket,
                Domain::Scope(Scope::CloseBracket),
                Status::Missing,
            ),
            r.portals@ == old(self).portals@,
            *final(self) == *final(r),
    {
        self.made_up(Val::CloseBracket, Domain::Scope(Scope::CloseBracket), Status::Missing);
        self
    }
}

} // verus!
