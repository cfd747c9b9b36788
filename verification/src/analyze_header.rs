use vstd::prelude::*;
use vstd::string::StringSliceAdditionalSpecFns;
use crate::block::{is_token_block, Block, Status, Val};
use crate::config::{is_listed, is_nearly_listed, Config, KnownType};
use crate::domain::{Domain, Scope};
use crate::faithful::{
    carries, faithful, lemma_candidates_carry, lemma_candidates_faithful, plain,
};
use crate::order::{lemma_candidates_laid_out, ordered, slotted};
use crate::soundness::{
    accepted, lemma_candidates_accepted, lemma_some_candidate, paired, portal_free, signed,
};

verus! {

/// The place where a slot was expected and not found, and the token found
/// elsewhere for it, once there is one. Both are indices into the blocks of
/// one candidate.
#[derive(Debug, PartialEq, Eq, Clone, Copy, Structural)]
pub struct Portal {
    pub found_at: usize,
    pub pointing_at: Option<usize>,
}

/// The portals of one candidate, one at most for each slot that a token can
/// be looked for elsewhere: the type, the colon and the space.
#[derive(Debug, PartialEq, Eq, Clone, Copy, Structural)]
pub struct Portals {
    pub kind: Option<Portal>,
    pub colon: Option<Portal>,
    pub space: Option<Portal>,
}

/// One way of laying the tokens of a header over the slots of the grammar:
/// the blocks, and what the layout costs.
#[derive(Debug, PartialEq, Eq)]
pub struct Candidate {
    pub weight: usize,
    pub solution: Vec<Block>,
}

/// What a `Candidate` holds, as plain values.
pub struct Alignment {
    pub weight: nat,
    pub blocks: Seq<Block>,
}

/// The slot that the search expects next.
#[derive(Debug, PartialEq, Eq, Clone, Copy, Structural)]
pub enum Slot {
    /// The type.
    Kind,
    /// Behind the type: a scope may open, a `!` may stand, or the colon
    /// follows at once.
    AfterKind,
    /// The name of the scope, behind `(`.
    ScopeName,
    /// The `)` of the scope.
    ScopeEnd,
    /// Behind the scope: a `!` may stand, or the colon follows at once.
    AfterScope,
    /// The colon, behind `!`.
    Colon,
    /// The space behind the colon.
    Space,
    /// The description: all that is left.
    Desc,
}

/// The search in the middle of one candidate: the blocks laid out so far, the
/// slot expected next, the portals opened, and the cost so far.
pub struct Walk {
    pub out: Seq<Block>,
    pub slot: Slot,
    pub portals: Portals,
    pub weight: nat,
}

impl View for Candidate {
    type V = Alignment;

    open spec fn view(&self) -> Alignment {
        Alignment { weight: self.weight as nat, blocks: self.solution@ }
    }
}

/// What a block adds to the cost of a candidate: 1 for a slot that is
/// missing, for a portal, and for a surplus token; nothing for any other.
pub open spec fn price(block: Block) -> nat {
    if block.status == Status::Missing || block.status == Status::Extra || block.status is Portal {
        1
    } else {
        0
    }
}

/// What the first `upto` of `blocks` cost together.
pub open spec fn cost(blocks: Seq<Block>, upto: int) -> nat
    decreases upto,
{
    if upto <= 0 {
        0
    } else {
        cost(blocks, upto - 1) + price(blocks[upto - 1])
    }
}

/// The candidates of a list, as plain values.
pub open spec fn views(list: Seq<Candidate>) -> Seq<Alignment> {
    list.map_values(|c: Candidate| c@)
}

impl Portal {
    /// Whether a token has been found for the portal.
    pub fn is_connected(&self) -> (r: bool)
        ensures
            r == (self.pointing_at is Some),
    {
        self.pointing_at.is_some()
    }
}

impl Portals {
    /// No portal at all.
    pub open spec fn spec_none() -> Portals {
        Portals { kind: None, colon: None, space: None }
    }

    /// The portal of the slot `lane`; only the type, the colon and the space
    /// can have one.
    pub open spec fn of(self, lane: Domain) -> Option<Portal> {
        match lane {
            Domain::Type => self.kind,
            Domain::Colon => self.colon,
            Domain::Space => self.space,
            _ => None,
        }
    }

    /// These portals with `portal` as that of the slot `lane`.
    pub open spec fn with(self, lane: Domain, portal: Portal) -> Portals {
        match lane {
            Domain::Type => Portals { kind: Some(portal), ..self },
            Domain::Colon => Portals { colon: Some(portal), ..self },
            Domain::Space => Portals { space: Some(portal), ..self },
            _ => self,
        }
    }

    /// Whether some portal still waits for its token.
    pub open spec fn dangling(self) -> bool {
        ||| self.kind matches Some(p) && p.pointing_at is None
        ||| self.colon matches Some(p) && p.pointing_at is None
        ||| self.space matches Some(p) && p.pointing_at is None
    }

    /// Whether no portal was opened.
    pub fn is_empty(&self) -> (r: bool)
        ensures
            r == (self.kind is None && self.colon is None && self.space is None),
    {
        self.kind.is_none() && self.colon.is_none() && self.space.is_none()
    }

    /// `dangling` for code.
    pub fn is_dangling(&self) -> (r: bool)
        ensures
            r == self.dangling(),
    {
        let kind = match self.kind {
            Some(p) => !p.is_connected(),
            None => false,
        };
        let colon = match self.colon {
            Some(p) => !p.is_connected(),
            None => false,
        };
        let space = match self.space {
            Some(p) => !p.is_connected(),
            None => false,
        };
        kind || colon || space
    }

    /// `of` for code.
    pub fn get(&self, lane: Domain) -> (r: Option<Portal>)
        ensures
            r == self.of(lane),
    {
        match lane {
            Domain::Type => self.kind,
            Domain::Colon => self.colon,
            Domain::Space => self.space,
            _ => None,
        }
    }

    /// `with` for code.
    pub fn put(&mut self, lane: Domain, portal: Portal)
        ensures
            *final(self) == old(self).with(lane, portal),
    {
        match lane {
            Domain::Type => {
                self.kind = Some(portal);
            },
            Domain::Colon => {
                self.colon = Some(portal);
            },
            Domain::Space => {
                self.space = Some(portal);
            },
            _ => {},
        }
    }
}

impl Default for Portal {
    /// A portal at the block 0 that waits for its token.
    fn default() -> (r: Self)
        ensures
            r == (Portal { found_at: 0, pointing_at: None }),
    {
        Portal { found_at: 0, pointing_at: None }
    }
}

impl Default for Candidate {
    /// The candidate without a block, which costs nothing.
    fn default() -> (r: Self)
        ensures
            r.weight == 0,
            r.solution@ == Seq::<Block>::empty(),
    {
        Candidate { weight: 0, solution: Vec::new() }
    }
}

impl Default for Portals {
    /// No portal at all.
    fn default() -> (r: Self)
        ensures
            r == Portals::spec_none(),
    {
        Portals { kind: None, colon: None, space: None }
    }
}

impl Slot {
    /// The place of the slot in the order in which the search expects them.
    pub open spec fn rank(self) -> nat {
        match self {
            Slot::Kind => 0,
            Slot::AfterKind => 1,
            Slot::ScopeName => 2,
            Slot::ScopeEnd => 3,
            Slot::AfterScope => 4,
            Slot::Colon => 5,
            Slot::Space => 6,
            Slot::Desc => 7,
        }
    }

    /// What stands for the slot when no token fills it: the kind and the
    /// slot of the block that is made up, and the slot expected behind it.
    pub open spec fn wanted(self) -> (Val, Domain, Slot) {
        match self {
            Slot::Kind => (Val::Word, Domain::Type, Slot::AfterKind),
            Slot::AfterKind => (Val::Colon, Domain::Colon, Slot::Space),
            Slot::ScopeName => (Val::Word, Domain::Scope(Scope::Scope), Slot::ScopeEnd),
            Slot::ScopeEnd => (
                Val::CloseBracket,
                Domain::Scope(Scope::CloseBracket),
                Slot::AfterScope,
            ),
            Slot::AfterScope => (Val::Colon, Domain::Colon, Slot::Space),
            Slot::Colon => (Val::Colon, Domain::Colon, Slot::Space),
            Slot::Space => (Val::Space, Domain::Space, Slot::Desc),
            Slot::Desc => (Val::Nil, Domain::Desc, Slot::Desc),
        }
    }

    /// Whether a token for the slot may be looked for further on. The parts
    /// of a scope are never looked for elsewhere: a scope that has been
    /// opened is completed where it stands.
    pub open spec fn movable(self) -> bool {
        self != Slot::ScopeName && self != Slot::ScopeEnd && self != Slot::Desc
    }

    /// `wanted` for code.
    pub fn want(self) -> (r: (Val, Domain, Slot))
        ensures
            r == self.wanted(),
    {
        match self {
            Slot::Kind => (Val::Word, Domain::Type, Slot::AfterKind),
            Slot::AfterKind => (Val::Colon, Domain::Colon, Slot::Space),
            Slot::ScopeName => (Val::Word, Domain::Scope(Scope::Scope), Slot::ScopeEnd),
            Slot::ScopeEnd => (
                Val::CloseBracket,
                Domain::Scope(Scope::CloseBracket),
                Slot::AfterScope,
            ),
            Slot::AfterScope => (Val::Colon, Domain::Colon, Slot::Space),
            Slot::Colon => (Val::Colon, Domain::Colon, Slot::Space),
            Slot::Space => (Val::Space, Domain::Space, Slot::Desc),
            Slot::Desc => (Val::Nil, Domain::Desc, Slot::Desc),
        }
    }

    /// `movable` for code.
    pub fn is_movable(self) -> (r: bool)
        ensures
            r == self.movable(),
    {
        match self {
            Slot::ScopeName => false,
            Slot::ScopeEnd => false,
            Slot::Desc => false,
            _ => true,
        }
    }
}

/// A block that stands for a slot rather than for a token: it has no bytes
/// and, until positions are projected, no id.
pub open spec fn made_up(val: Val, domain: Domain, status: Status) -> Block {
    Block { id: None, val, domain, bytes: None, status }
}

/// Whether a block that is handed to the search comes made up: it comes as
/// missing or as a portal, or it has no bytes, as no token has. Such a block
/// is no token: what it stands for the header still lacks.
pub open spec fn is_made_up(block: Block) -> bool {
    !is_token_block(block) || block.bytes is None
}

/// The slot of a made-up block that is left over for the description: the
/// slot it names, or, where it names none, the description.
pub open spec fn due(domain: Domain) -> Domain {
    if domain == Domain::Root || domain == Domain::Nil {
        Domain::Desc
    } else {
        domain
    }
}

/// What a `!` or a colon fills where either may stand: the slot it is given
/// and the slot expected behind it.
pub open spec fn mark_or_colon(block: Block) -> Option<(Domain, Slot)> {
    if block.val == Val::ExclMark {
        Some((Domain::Breaking, Slot::Colon))
    } else if block.val == Val::Colon {
        Some((Domain::Colon, Slot::Space))
    } else {
        None
    }
}

/// Whether `block` fills `slot`, and if so the slot of the grammar it is
/// given and the slot expected behind it. The type goes by the policy, every
/// other slot by the kind of the token.
pub open spec fn fills(policy: KnownType, text: Seq<u8>, block: Block, slot: Slot) -> Option<
    (Domain, Slot),
> {
    match slot {
        Slot::Kind => if policy.accepts(block, text) {
            Some((Domain::Type, Slot::AfterKind))
        } else {
            None
        },
        Slot::AfterKind => if block.val == Val::OpenBracket {
            Some((Domain::Scope(Scope::OpenBracket), Slot::ScopeName))
        } else {
            mark_or_colon(block)
        },
        Slot::ScopeName => if block.val == Val::Word {
            Some((Domain::Scope(Scope::Scope), Slot::ScopeEnd))
        } else {
            None
        },
        Slot::ScopeEnd => if block.val == Val::CloseBracket {
            Some((Domain::Scope(Scope::CloseBracket), Slot::AfterScope))
        } else {
            None
        },
        Slot::AfterScope => mark_or_colon(block),
        Slot::Colon => if block.val == Val::Colon {
            Some((Domain::Colon, Slot::Space))
        } else {
            None
        },
        Slot::Space => if block.val == Val::Space {
            Some((Domain::Space, Slot::Desc))
        } else {
            None
        },
        Slot::Desc => None,
    }
}

/// The slot whose portal a token left over for the description could be the
/// answer to: a colon that of the colon, a space that of the space, and what
/// the policy accepts as a type that of the type.
pub open spec fn lane_of(policy: KnownType, text: Seq<u8>, block: Block) -> Option<Domain> {
    if block.val == Val::Colon {
        Some(Domain::Colon)
    } else if block.val == Val::Space {
        Some(Domain::Space)
    } else if policy.accepts(block, text) {
        Some(Domain::Type)
    } else {
        None
    }
}

impl Walk {
    /// The search before its first step: `root` alone, settled as the root.
    pub open spec fn begin(root: Block) -> Walk {
        Walk {
            out: seq![Block { domain: Domain::Root, status: Status::Settled, ..root }],
            slot: Slot::Kind,
            portals: Portals::spec_none(),
            weight: 0,
        }
    }

    /// `block` fills the slot expected: it is settled there.
    pub open spec fn settle(self, block: Block, found: (Domain, Slot)) -> Walk {
        Walk {
            out: self.out.push(Block { domain: found.0, status: Status::Settled, ..block }),
            slot: found.1,
            ..self
        }
    }

    /// Nothing fills the slot expected, and nothing will: a block is made
    /// up for it, at the cost of 1.
    pub open spec fn supply(self) -> Walk {
        let (val, domain, next) = self.slot.wanted();
        Walk {
            out: self.out.push(made_up(val, domain, Status::Missing)),
            slot: next,
            weight: self.weight + 1,
            ..self
        }
    }

    /// Nothing fills the slot expected here, but a token further on may: a
    /// portal is opened for it, at the cost of 1.
    pub open spec fn defer(self) -> Walk {
        let (val, domain, next) = self.slot.wanted();
        Walk {
            out: self.out.push(made_up(val, domain, Status::Portal(None))),
            slot: next,
            portals: self.portals.with(
                domain,
                Portal { found_at: self.out.len() as usize, pointing_at: None },
            ),
            weight: self.weight + 1,
        }
    }

    /// Whether `block` comes made up for the slot expected.
    pub open spec fn awaits(self, block: Block) -> bool {
        is_made_up(block) && self.slot != Slot::Desc && block.domain == self.slot.wanted().1
    }

    /// `block` comes made up for the slot expected: it stands for the slot
    /// as it comes, at the cost of 1. A block that comes as a portal is a
    /// portal again, which waits for its token anew; any other is missing.
    /// (The parts of a scope are never looked for elsewhere: a portal that
    /// comes for one of them is missing.)
    pub open spec fn take(self, block: Block) -> Walk {
        if block.status is Portal && self.slot.movable() {
            Walk {
                out: self.out.push(Block { status: Status::Portal(None), ..block }),
                slot: self.slot.wanted().2,
                portals: self.portals.with(
                    block.domain,
                    Portal { found_at: self.out.len() as usize, pointing_at: None },
                ),
                weight: self.weight + 1,
            }
        } else {
            Walk {
                out: self.out.push(Block { status: Status::Missing, ..block }),
                slot: self.slot.wanted().2,
                weight: self.weight + 1,
                ..self
            }
        }
    }

    /// `block` is left over for the description.
    ///
    /// A block that comes made up stays what it is, a block that stands for
    /// what the header lacks: it is missing, at the cost of 1, in the slot
    /// that is its due (see `due`).
    ///
    /// If a portal waits for a token like it, `block` becomes the token of
    /// that portal. If the portal of the colon or of the space has its token
    /// already, one more colon or space is surplus, at the cost of 1. Any
    /// other block is part of the description; so is a word behind a type
    /// that was found elsewhere.
    pub open spec fn absorb(self, policy: KnownType, text: Seq<u8>, block: Block) -> Walk {
        let plain = Walk {
            out: self.out.push(Block { domain: Domain::Desc, status: Status::Settled, ..block }),
            ..self
        };
        if is_made_up(block) {
            Walk {
                out: self.out.push(
                    Block { domain: due(block.domain), status: Status::Missing, ..block },
                ),
                weight: self.weight + 1,
                ..self
            }
        } else {
            match lane_of(policy, text, block) {
                Some(lane) => match self.portals.of(lane) {
                    Some(portal) => match portal.pointing_at {
                        None => Walk {
                            out: self.out.update(
                                portal.found_at as int,
                                Block {
                                    status: Status::Portal(Some(self.out.len() as usize)),
                                    ..self.out[portal.found_at as int]
                                },
                            ).push(Block { domain: lane, status: Status::Ref(portal.found_at), ..block }),
                            portals: self.portals.with(
                                lane,
                                Portal { pointing_at: Some(self.out.len() as usize), ..portal },
                            ),
                            ..self
                        },
                        Some(_) => if lane == Domain::Type {
                            plain
                        } else {
                            Walk {
                                out: self.out.push(
                                    Block { domain: lane, status: Status::Extra, ..block },
                                ),
                                weight: self.weight + 1,
                                ..self
                            }
                        },
                    },
                    None => plain,
                },
                None => plain,
            }
        }
    }

    /// Whether the candidate stands: every portal opened has its token.
    pub open spec fn complete(self) -> bool {
        !self.portals.dangling()
    }

    /// The candidate that the search has arrived at.
    pub open spec fn alignment(self) -> Alignment {
        Alignment { weight: self.weight, blocks: self.out }
    }
}

/// The candidates that the search finds from the block `at` of `input` on,
/// having come as far as `walk`.
///
/// As long as a slot is expected: a block that comes made up for the slot
/// stands for it as it comes; a token is settled if it fills the slot. If
/// the block at hand does neither, or no block is left, the search parts in two
/// and goes on with the same block: first as if the slot were missing, then,
/// where the slot allows it, as if its token stood further on. Once the
/// description is reached the blocks left are taken in one by one, and the
/// candidate counts if no portal is left waiting.
pub open spec fn search(
    policy: KnownType,
    text: Seq<u8>,
    input: Seq<Block>,
    at: int,
    walk: Walk,
) -> Seq<Alignment>
    decreases 7 - walk.slot.rank(), input.len() - at,
{
    if walk.slot == Slot::Desc {
        if at < 0 || at >= input.len() {
            if walk.complete() {
                seq![walk.alignment()]
            } else {
                Seq::empty()
            }
        } else {
            search(policy, text, input, at + 1, walk.absorb(policy, text, input[at]))
        }
    } else {
        if 0 <= at < input.len() && walk.awaits(input[at]) {
            search(policy, text, input, at + 1, walk.take(input[at]))
        } else {
            match found_for(policy, text, input, at, walk.slot) {
                Some(found) => search(policy, text, input, at + 1, walk.settle(input[at], found)),
                None => search(policy, text, input, at, walk.supply()) + (if walk.slot.movable() {
                    search(policy, text, input, at, walk.defer())
                } else {
                    Seq::empty()
                }),
            }
        }
    }
}

/// What the block `at` of `input` fills if it fills `slot` (see `fills`);
/// nothing if there is no such block, or if it comes made up: only a token
/// fills a slot.
pub open spec fn found_for(
    policy: KnownType,
    text: Seq<u8>,
    input: Seq<Block>,
    at: int,
    slot: Slot,
) -> Option<(Domain, Slot)> {
    if 0 <= at < input.len() && !is_made_up(input[at]) {
        fills(policy, text, input[at], slot)
    } else {
        None
    }
}

/// All the candidates for `input`, the root followed by the tokens of a
/// header, in the order in which the search finds them. Without a root there
/// is nothing to search.
///
/// A block of `input` that comes as missing or as a portal, or without
/// bytes, is made up: it stands for a slot, stays what it is and costs 1 (see
/// `Walk::take` and `Walk::absorb`). Every other block is a token: what slot
/// and status it brings is decided anew, and the policy alone may look at the
/// slot it has.
pub open spec fn solutions_of(policy: KnownType, text: Seq<u8>, input: Seq<Block>) -> Seq<
    Alignment,
> {
    if input.len() == 0 {
        Seq::empty()
    } else {
        search(policy, text, input, 1, Walk::begin(input[0]))
    }
}

/// Whether `actual_block`, a block of the header `commit`, counts as the type
/// of the commit under `expected_type`.
pub fn is_type(expected_type: &KnownType, actual_block: &Block, commit: &str) -> (r: bool)
    ensures
        r == expected_type.accepts(*actual_block, commit.spec_bytes()),
{
    match expected_type {
        KnownType::AnyFirstSeq => actual_block.val == Val::Word,
        KnownType::Strict(names) => {
            if actual_block.domain == Domain::Type {
                return true;
            }
            match actual_block.capture(commit) {
                Some(part) => is_listed(names, part),
                None => false,
            }
        },
        KnownType::Like(names) => {
            if actual_block.domain == Domain::Type {
                return true;
            }
            match actual_block.capture(commit) {
                Some(part) => is_nearly_listed(names, part),
                None => false,
            }
        },
    }
}

/// `fills` for code.
fn fill(policy: &KnownType, commit: &str, block: &Block, slot: Slot) -> (r: Option<(Domain, Slot)>)
    ensures
        r == fills(*policy, commit.spec_bytes(), *block, slot),
{
    let either = if block.val == Val::ExclMark {
        Some((Domain::Breaking, Slot::Colon))
    } else if block.val == Val::Colon {
        Some((Domain::Colon, Slot::Space))
    } else {
        None
    };
    match slot {
        Slot::Kind => if is_type(policy, block, commit) {
            Some((Domain::Type, Slot::AfterKind))
        } else {
            None
        },
        Slot::AfterKind => if block.val == Val::OpenBracket {
            Some((Domain::Scope(Scope::OpenBracket), Slot::ScopeName))
        } else {
            either
        },
        Slot::ScopeName => if block.val == Val::Word {
            Some((Domain::Scope(Scope::Scope), Slot::ScopeEnd))
        } else {
            None
        },
        Slot::ScopeEnd => if block.val == Val::CloseBracket {
            Some((Domain::Scope(Scope::CloseBracket), Slot::AfterScope))
        } else {
            None
        },
        Slot::AfterScope => either,
        Slot::Colon => if block.val == Val::Colon {
            Some((Domain::Colon, Slot::Space))
        } else {
            None
        },
        Slot::Space => if block.val == Val::Space {
            Some((Domain::Space, Slot::Desc))
        } else {
            None
        },
        Slot::Desc => None,
    }
}

/// `is_made_up` for code.
pub fn comes_made_up(block: &Block) -> (r: bool)
    ensures
        r == is_made_up(*block),
{
    !block.is_token() || block.bytes.is_none()
}

/// `lane_of` for code.
fn lane(policy: &KnownType, commit: &str, block: &Block) -> (r: Option<Domain>)
    ensures
        r == lane_of(*policy, commit.spec_bytes(), *block),
{
    if block.val == Val::Colon {
        Some(Domain::Colon)
    } else if block.val == Val::Space {
        Some(Domain::Space)
    } else if is_type(policy, block, commit) {
        Some(Domain::Type)
    } else {
        None
    }
}

/// A copy of `blocks`.
pub fn copy_of(blocks: &Vec<Block>) -> (r: Vec<Block>)
    ensures
        r@ == blocks@,
{
    let mut copy: Vec<Block> = Vec::new();
    let mut i: usize = 0;
    while i < blocks.len()
        invariant
            i <= blocks@.len(),
            copy@ == blocks@.subrange(0, i as int),
        decreases blocks@.len() - i,
    {
        copy.push(blocks[i]);
        assert(copy@ =~= blocks@.subrange(0, i + 1));
        i += 1;
    }
    assert(blocks@.subrange(0, blocks@.len() as int) =~= blocks@);
    copy
}

/// What the code of the search needs to know of a walk: every portal lies
/// within the blocks laid out, and there are more blocks than they cost.
pub open spec fn in_reach(walk: Walk) -> bool {
    &&& walk.weight < walk.out.len()
    &&& walk.portals.kind matches Some(p) ==> p.found_at < walk.out.len()
    &&& walk.portals.colon matches Some(p) ==> p.found_at < walk.out.len()
    &&& walk.portals.space matches Some(p) ==> p.found_at < walk.out.len()
}

/// `search` for code: the candidates found are added to `solutions`.
fn explore(
    commit: &str,
    policy: &KnownType,
    input: &Vec<Block>,
    at: usize,
    out: Vec<Block>,
    slot: Slot,
    portals: Portals,
    weight: usize,
    solutions: &mut Vec<Candidate>,
)
    requires
        at <= input@.len(),
        in_reach(Walk { out: out@, slot, portals, weight: weight as nat }),
    ensures
        views(final(solutions)@) == views(old(solutions)@) + search(
            *policy,
            commit.spec_bytes(),
            input@,
            at as int,
            Walk { out: out@, slot, portals, weight: weight as nat },
        ),
    decreases 7 - slot.rank(), input@.len() - at,
{
    let ghost text = commit.spec_bytes();
    let ghost entry = Walk { out: out@, slot, portals, weight: weight as nat };
    if slot == Slot::Desc {
        let ghost start = at;
        let mut at = at;
        let mut out = out;
        let mut portals = portals;
        let mut weight = weight;
        while at < input.len()
            invariant
                at <= input@.len(),
                text == commit.spec_bytes(),
                in_reach(Walk { out: out@, slot: Slot::Desc, portals, weight: weight as nat }),
                search(
                    *policy,
                    text,
                    input@,
                    at as int,
                    Walk { out: out@, slot: Slot::Desc, portals, weight: weight as nat },
                ) == search(*policy, text, input@, start as int, entry),
            decreases input@.len() - at,
        {
            let block = input[at];
            let ghost walk = Walk { out: out@, slot: Slot::Desc, portals, weight: weight as nat };
            let here = out.len();
            let mut taken = Block { domain: Domain::Desc, status: Status::Settled, ..block };
            let mut surplus = false;
            if comes_made_up(&block) {
                let domain = match block.domain {
                    Domain::Root => Domain::Desc,
                    Domain::Nil => Domain::Desc,
                    other => other,
                };
                taken = Block { domain, status: Status::Missing, ..block };
                surplus = true;
            } else {
            match lane(policy, commit, &block) {
                Some(lane) => {
                    match portals.get(lane) {
                        Some(portal) => {
                            match portal.pointing_at {
                                None => {
                                    let mut gate = out[portal.found_at];
                                    gate.status = Status::Portal(Some(here));
                                    out[portal.found_at] = gate;
                                    portals.put(
                                        lane,
                                        Portal { found_at: portal.found_at, pointing_at: Some(here) },
                                    );
                                    taken =
                                    Block {
                                        domain: lane,
                                        status: Status::Ref(portal.found_at),
                                        ..block
                                    };
                                },
                                Some(_) => {
                                    if lane != Domain::Type {
                                        taken =
                                        Block { domain: lane, status: Status::Extra, ..block };
                                        surplus = true;
                                    }
                                },
                            }
                        },
                        None => {},
                    }
                },
                None => {},
            }
            }
            out.push(taken);
            if surplus {
                weight = weight + 1;
            }
            at = at + 1;
            assert(Walk { out: out@, slot: Slot::Desc, portals, weight: weight as nat }
                == walk.absorb(*policy, text, block));
        }
        if !portals.is_dangling() {
            let ghost before = solutions@;
            let found = Candidate { weight, solution: out };
            solutions.push(found);
            assert(views(solutions@) =~= views(before) + seq![found@]);
        } else {
            assert(views(solutions@) =~= views(solutions@) + Seq::<Alignment>::empty());
        }
        return ;
    }
    let (val, domain, next) = slot.want();
    let here = out.len();
    if at < input.len() {
        let block = input[at];
        if comes_made_up(&block) {
            if block.domain == domain {
                let is_portal = match block.status {
                    Status::Portal(_) => true,
                    _ => false,
                };
                let mut out = out;
                let mut portals = portals;
                if is_portal && slot.is_movable() {
                    out.push(Block { status: Status::Portal(None), ..block });
                    portals.put(domain, Portal { found_at: here, pointing_at: None });
                } else {
                    out.push(Block { status: Status::Missing, ..block });
                }
                explore(commit, policy, input, at + 1, out, next, portals, weight + 1, solutions);
                return ;
            }
        } else {
            match fill(policy, commit, &block, slot) {
                Some(found) => {
                    let mut out = out;
                    out.push(Block { domain: found.0, status: Status::Settled, ..block });
                    explore(commit, policy, input, at + 1, out, found.1, portals, weight, solutions);
                    return ;
                },
                None => {},
            }
        }
    }
    let ghost before = solutions@;
    let mut supplied = copy_of(&out);
    supplied.push(Block { id: None, val, domain, bytes: None, status: Status::Missing });
    explore(commit, policy, input, at, supplied, next, portals, weight + 1, solutions);
    if slot.is_movable() {
        let mut deferred = out;
        deferred.push(Block { id: None, val, domain, bytes: None, status: Status::Portal(None) });
        let mut opened = portals;
        opened.put(domain, Portal { found_at: here, pointing_at: None });
        explore(commit, policy, input, at, deferred, next, opened, weight + 1, solutions);
        assert(views(solutions@) =~= views(before) + (search(
            *policy,
            text,
            input@,
            at as int,
            entry.supply(),
        ) + search(*policy, text, input@, at as int, entry.defer())));
    } else {
        assert(views(solutions@) =~= views(before) + (search(
            *policy,
            text,
            input@,
            at as int,
            entry.supply(),
        ) + Seq::<Alignment>::empty()));
    }
}

/// Whether every one of `list` from the `from`th on is a candidate that
/// stands: each of its portals has its token, none of its blocks is left
/// unsigned, and its weight is the number of its blocks that are missing,
/// surplus, or portals.
pub open spec fn all_accepted(list: Seq<Candidate>, from: int) -> bool {
    forall|k: int| from <= k < list.len() ==> accepted(#[trigger] list[k]@)
}

/// Whether every one of `list` from the `from`th on carries the blocks
/// `input`: its blocks that have bytes are those of `input`, in their order,
/// with the id, the kind and the bytes they came with, and every other block
/// behind its root is missing or a portal.
pub open spec fn all_carry(input: Seq<Block>, list: Seq<Candidate>, from: int) -> bool {
    forall|k: int| from <= k < list.len() ==> carries(input, (#[trigger] list[k])@.blocks)
}

/// Finds every way of laying `candidate`, the root followed by the blocks of
/// the header `commit`, over the slots of the grammar, and adds them to
/// `solutions` in the order in which the search finds them. What was in
/// `solutions` stays.
///
/// A block that comes unsigned or settled is matched as a token. A block
/// that comes as missing or as a portal, or without bytes, is made up: it
/// stands for its slot, costs 1, and is never taken for a token (see
/// `solutions_of`).
///
/// In every candidate that is added each portal has its token: a branch of
/// the search in which a portal is left waiting adds nothing. And every
/// candidate carries the blocks that came: nothing with bytes is dropped,
/// moved, doubled or made up.
pub fn find_solutions(
    commit: &str,
    config: &Config,
    candidate: Vec<Block>,
    solutions: &mut Vec<Candidate>,
)
    ensures
        views(final(solutions)@) == views(old(solutions)@) + solutions_of(
            config.known_type,
            commit.spec_bytes(),
            candidate@,
        ),
        all_accepted(final(solutions)@, old(solutions)@.len() as int),
        all_carry(candidate@, final(solutions)@, old(solutions)@.len() as int),
{
    let ghost before = solutions@;
    let ghost input = candidate@;
    let ghost found = solutions_of(config.known_type, commit.spec_bytes(), candidate@);
    find_all(commit, config, candidate, solutions);
    proof {
        assert(views(solutions@).len() == solutions@.len());
        assert(views(before).len() == before.len());
        assert forall|k: int| before.len() <= k < solutions@.len() implies accepted(
            #[trigger] solutions@[k]@,
        ) by {
            assert(views(solutions@)[k] == solutions@[k]@);
            assert(views(solutions@)[k] == found[k - before.len()]);
            // A vector is no longer than a vector can be.
            assert(solutions@[k].solution@.len() == solutions@[k].solution.len());
            lemma_candidates_accepted(
                config.known_type,
                commit.spec_bytes(),
                input,
                k - before.len(),
            );
        }
        assert forall|k: int| before.len() <= k < solutions@.len() implies carries(
            input,
            (#[trigger] solutions@[k])@.blocks,
        ) by {
            assert(views(solutions@)[k] == solutions@[k]@);
            assert(views(solutions@)[k] == found[k - before.len()]);
            assert(solutions@[k].solution@.len() == solutions@[k].solution.len());
            lemma_candidates_carry(config.known_type, commit.spec_bytes(), input, k - before.len());
        }
    }
}

/// `find_solutions` without what is proved of the candidates.
fn find_all(commit: &str, config: &Config, candidate: Vec<Block>, solutions: &mut Vec<Candidate>)
    ensures
        views(final(solutions)@) == views(old(solutions)@) + solutions_of(
            config.known_type,
            commit.spec_bytes(),
            candidate@,
        ),
{
    if candidate.len() == 0 {
        assert(views(solutions@) =~= views(solutions@) + Seq::<Alignment>::empty());
        return ;
    }
    let root = candidate[0];
    let mut out: Vec<Block> = Vec::new();
    out.push(Block { domain: Domain::Root, status: Status::Settled, ..root });
    assert(out@ =~= seq![Block { domain: Domain::Root, status: Status::Settled, ..root }]);
    explore(
        commit,
        &config.known_type,
        &candidate,
        1,
        out,
        Slot::Kind,
        Portals::default(),
        0,
        solutions,
    );
}

/// What `blocks` cost as a candidate: how many of them are missing, surplus,
/// or portals. A portal and its token count once, at the portal.
pub fn weigh(blocks: &Vec<Block>) -> (r: usize)
    ensures
        r == cost(blocks@, blocks@.len() as int),
{
    let mut weight: usize = 0;
    let mut at: usize = 0;
    while at < blocks.len()
        invariant
            at <= blocks@.len(),
            weight <= at,
            weight == cost(blocks@, at as int),
        decreases blocks@.len() - at,
    {
        match blocks[at].status {
            Status::Missing => {
                weight = weight + 1;
            },
            Status::Extra => {
                weight = weight + 1;
            },
            Status::Portal(_) => {
                weight = weight + 1;
            },
            _ => {},
        }
        at = at + 1;
    }
    weight
}

/// How many of the first `upto` of `blocks` are portals.
pub open spec fn portals_in(blocks: Seq<Block>, upto: int) -> nat
    decreases upto,
{
    if upto <= 0 {
        0
    } else {
        portals_in(blocks, upto - 1) + if blocks[upto - 1].status is Portal {
            1nat
        } else {
            0nat
        }
    }
}

/// How many portals a candidate has.
pub open spec fn portals_of(found: Alignment) -> nat {
    portals_in(found.blocks, found.blocks.len() as int)
}

/// Whether the candidate `a` is to be taken rather than `b`, whichever was
/// found first: it costs less, or it costs the same and has more portals,
/// that is, it makes more of the tokens that are there.
pub open spec fn beats(a: Alignment, b: Alignment) -> bool {
    a.weight < b.weight || (a.weight == b.weight && portals_of(a) > portals_of(b))
}

/// Whether the candidate `k` of `all` is the one to take: the one of least
/// weight; of those that weigh the same, the one with most portals; and of
/// those that have as many portals, the one that was found first.
pub open spec fn is_best(all: Seq<Alignment>, k: int) -> bool {
    &&& 0 <= k < all.len()
    &&& forall|j: int| 0 <= j < all.len() ==> !beats(#[trigger] all[j], all[k])
    &&& forall|j: int| 0 <= j < k ==> beats(all[k], #[trigger] all[j])
}

/// The blocks of the candidate to take from `all`; no blocks when there is
/// no candidate.
pub open spec fn choice(all: Seq<Alignment>) -> Seq<Block> {
    if all.len() == 0 {
        Seq::empty()
    } else {
        all[choose|k: int| is_best(all, k)].blocks
    }
}

/// Among candidates only one is the one to take.
pub proof fn lemma_one_best(all: Seq<Alignment>, k: int, other: int)
    requires
        is_best(all, k),
        is_best(all, other),
    ensures
        k == other,
{
    if k < other {
        assert(beats(all[other], all[k]));
        assert(!beats(all[other], all[k]));
    } else if other < k {
        assert(beats(all[k], all[other]));
        assert(!beats(all[k], all[other]));
    }
}

/// Among the first `upto` of `all` one is beaten by none of them and beats
/// every one of them before it.
proof fn lemma_best_so_far(all: Seq<Alignment>, upto: int) -> (k: int)
    requires
        1 <= upto <= all.len(),
    ensures
        0 <= k < upto,
        forall|j: int| 0 <= j < upto ==> !beats(#[trigger] all[j], all[k]),
        forall|j: int| 0 <= j < k ==> beats(all[k], #[trigger] all[j]),
    decreases upto,
{
    if upto == 1 {
        0
    } else {
        let before = lemma_best_so_far(all, upto - 1);
        if beats(all[upto - 1], all[before]) {
            assert forall|j: int| 0 <= j < upto - 1 implies beats(
                all[upto - 1],
                #[trigger] all[j],
            ) by {
                assert(!beats(all[j], all[before]));
            }
            upto - 1
        } else {
            before
        }
    }
}

/// Where there are candidates, the blocks chosen are those of one of them,
/// the one to take.
pub proof fn lemma_choice_is_one(all: Seq<Alignment>) -> (k: int)
    requires
        all.len() > 0,
    ensures
        is_best(all, k),
        choice(all) == all[k].blocks,
{
    let k = lemma_best_so_far(all, all.len() as int);
    assert(is_best(all, k));
    lemma_one_best(all, k, choose|k: int| is_best(all, k));
    k
}

/// How many of `blocks` are portals.
pub fn count_portals(blocks: &Vec<Block>) -> (r: usize)
    ensures
        r == portals_in(blocks@, blocks@.len() as int),
{
    let mut count: usize = 0;
    let mut at: usize = 0;
    while at < blocks.len()
        invariant
            at <= blocks@.len(),
            count <= at,
            count == portals_in(blocks@, at as int),
        decreases blocks@.len() - at,
    {
        match blocks[at].status {
            Status::Portal(_) => {
                count = count + 1;
            },
            _ => {},
        }
        at = at + 1;
    }
    count
}

/// Picks the candidate to take: the one of least weight; of those that weigh
/// the same, the one with most portals; and of those that have as many
/// portals, the one that was found first.
pub fn pick_solution(all: Vec<Candidate>) -> (r: Vec<Block>)
    ensures
        r@ == choice(views(all@)),
{
    if all.len() == 0 {
        return Vec::new();
    }
    let ghost list = views(all@);
    let mut best: usize = 0;
    let mut most: usize = count_portals(&all[0].solution);
    let mut i: usize = 1;
    while i < all.len()
        invariant
            1 <= i <= all@.len(),
            best < i,
            list == views(all@),
            most == portals_of(list[best as int]),
            forall|j: int| 0 <= j < i ==> !beats(#[trigger] list[j], list[best as int]),
            forall|j: int| 0 <= j < best ==> beats(list[best as int], #[trigger] list[j]),
        decreases all@.len() - i,
    {
        let portals = count_portals(&all[i].solution);
        let ghost before = best;
        if all[i].weight < all[best].weight || (all[i].weight == all[best].weight && portals
            > most) {
            proof {
                assert forall|j: int| 0 <= j < i implies beats(list[i as int], #[trigger] list[j]) by {
                    assert(!beats(list[j], list[before as int]));
                }
            }
            best = i;
            most = portals;
        }
        i += 1;
    }
    proof {
        assert(is_best(list, best as int));
        let k = choose|k: int| is_best(list, k);
        lemma_one_best(list, k, best as int);
    }
    copy_of(&all[best].solution)
}

/// What holds of the layout `layout` that is chosen for the blocks `blocks`,
/// whatever comes with them: it carries the blocks (its blocks that have
/// bytes are those of `blocks`, in their order, with the id, the kind and the
/// bytes they came with, and every other block behind the root is missing or
/// a portal); none of its blocks is left unsigned; each of its portals has
/// its token; the root is settled and alone in its slot, no other block is
/// left without a slot, and the blocks of the description are settled or
/// missing; and its settled blocks stand in the order of the grammar.
pub open spec fn arranges(blocks: Seq<Block>, layout: Seq<Block>) -> bool {
    &&& carries(blocks, layout)
    &&& signed(layout)
    &&& paired(layout)
    &&& slotted(layout)
    &&& ordered(layout)
}

/// What holds of the layout `layout` that is chosen for a header of tokens
/// `blocks`: what holds of every layout (see `arranges`); and the layout
/// holds the blocks of the header, the root first and the tokens in their
/// order, with nothing changed but slot and status, among at most 7 blocks
/// that are made up.
pub open spec fn lays_out(blocks: Seq<Block>, layout: Seq<Block>) -> bool {
    &&& arranges(blocks, layout)
    &&& faithful(blocks, layout)
}

/// Where there is a candidate, the layout that is chosen arranges the blocks
/// that were handed in. (A layout in a vector is never too long for one.)
pub proof fn lemma_choice_arranges(policy: KnownType, text: Seq<u8>, blocks: Seq<Block>)
    requires
        solutions_of(policy, text, blocks).len() > 0,
        choice(solutions_of(policy, text, blocks)).len() <= usize::MAX,
    ensures
        arranges(blocks, choice(solutions_of(policy, text, blocks))),
{
    let all = solutions_of(policy, text, blocks);
    let k = lemma_choice_is_one(all);
    lemma_candidates_accepted(policy, text, blocks, k);
    lemma_candidates_carry(policy, text, blocks, k);
    lemma_candidates_laid_out(policy, text, blocks, k);
}

/// A header of tokens always has a layout, and the layout that is chosen
/// lays the header out.
pub proof fn lemma_choice_lays_out(policy: KnownType, text: Seq<u8>, blocks: Seq<Block>)
    requires
        1 <= blocks.len(),
        plain(blocks),
        choice(solutions_of(policy, text, blocks)).len() <= usize::MAX,
    ensures
        solutions_of(policy, text, blocks).len() > 0,
        lays_out(blocks, choice(solutions_of(policy, text, blocks))),
{
    let all = solutions_of(policy, text, blocks);
    assert(portal_free(blocks)) by {
        assert forall|j: int| 1 <= j < blocks.len() implies !((#[trigger] blocks[j]).status
            is Portal) by {
            assert(!is_made_up(blocks[j]));
        }
    }
    lemma_some_candidate(policy, text, blocks);
    let k = lemma_choice_is_one(all);
    lemma_choice_arranges(policy, text, blocks);
    lemma_candidates_faithful(policy, text, blocks, k);
}

/// Lays the tokens of a header over the slots of the grammar in the way that
/// costs least; of the ways that cost the same it takes the one with most
/// portals, and of those the one that the search finds first (see
/// `is_best`). `blocks` are the root and the tokens of the header `commit`;
/// the result holds them in their order, each with its slot and its status,
/// among the blocks made up for slots that no token fills. A block that
/// comes made up, as missing or as a portal, stands for its slot as it comes
/// (see `solutions_of`). The result is empty when `blocks` is, or when no
/// candidate stands: a portal that comes with the blocks may wait in vain.
pub fn analyze_header(commit: &str, config: &Config, blocks: Vec<Block>) -> (r: Vec<Block>)
    ensures
        r@ == choice(solutions_of(config.known_type, commit.spec_bytes(), blocks@)),
        blocks@.len() == 0 ==> r@.len() == 0,
        r@.len() > 0 ==> arranges(blocks@, r@),
        1 <= blocks@.len() && plain(blocks@) ==> lays_out(blocks@, r@),
{
    let ghost input = blocks@;
    let mut all_solutions: Vec<Candidate> = Vec::new();
    find_solutions(commit, config, blocks, &mut all_solutions);
    assert(views(Seq::<Candidate>::empty()) =~= Seq::<Alignment>::empty());
    assert(Seq::<Alignment>::empty() + solutions_of(
        config.known_type,
        commit.spec_bytes(),
        blocks@,
    ) =~= solutions_of(config.known_type, commit.spec_bytes(), blocks@));
    let layout = pick_solution(all_solutions);
    proof {
        assert(layout@.len() == layout.len());
        if layout@.len() > 0 {
            lemma_choice_arranges(config.known_type, commit.spec_bytes(), input);
        }
        if 1 <= input.len() && plain(input) {
            lemma_choice_lays_out(config.known_type, commit.spec_bytes(), input);
        }
    }
    layout
}

} // verus!
