use vstd::prelude::*;
use crate::analyze_header::{
    cost, due, fills, found_for, is_made_up, lane_of, made_up, price, search, solutions_of,
    Alignment, Portal, Slot, Walk,
};
use crate::block::{Block, Status};
use crate::config::KnownType;
use crate::domain::Domain;

verus! {

/// Whether every portal that points at a block points at its token, and
/// every token at its portal.
pub open spec fn linked(blocks: Seq<Block>) -> bool {
    &&& forall|j: int|
        0 <= j < blocks.len() ==> ((#[trigger] blocks[j]).status matches Status::Portal(Some(at))
            ==> at < blocks.len())
    &&& forall|j: int|
        0 <= j < blocks.len() ==> ((#[trigger] blocks[j]).status matches Status::Ref(from) ==> from
            < blocks.len())
    &&& forall|j: int, r: int|
        0 <= j < blocks.len() && 0 <= r < blocks.len() && (#[trigger] blocks[j]).status
            == Status::Portal(Some(r as usize)) ==> (#[trigger] blocks[r]).status == Status::Ref(
            j as usize,
        )
    &&& forall|j: int, r: int|
        0 <= j < blocks.len() && 0 <= r < blocks.len() && (#[trigger] blocks[j]).status
            == Status::Ref(r as usize) ==> (#[trigger] blocks[r]).status == Status::Portal(
            Some(j as usize),
        )
}

/// Whether every portal among `blocks` has its token: it points at a block,
/// that block points back at it, and no token points at anything but its
/// portal.
pub open spec fn paired(blocks: Seq<Block>) -> bool {
    &&& linked(blocks)
    &&& forall|j: int|
        0 <= j < blocks.len() ==> ((#[trigger] blocks[j]).status matches Status::Portal(to) ==> to
            is Some)
}

/// Whether the engine has decided about every one of `blocks`.
pub open spec fn signed(blocks: Seq<Block>) -> bool {
    forall|j: int| 0 <= j < blocks.len() ==> (#[trigger] blocks[j]).status != Status::Unsigned
}

/// Whether the portal of `lane`, if there is one, is the block it says it
/// is.
pub open spec fn lane_kept(walk: Walk, lane: Domain) -> bool {
    walk.portals.of(lane) matches Some(portal) ==> {
        &&& portal.found_at < walk.out.len()
        &&& walk.out[portal.found_at as int].status == Status::Portal(portal.pointing_at)
        &&& walk.out[portal.found_at as int].domain == lane
    }
}

/// Whether every portal among the blocks is the portal of its slot.
pub open spec fn registered(walk: Walk) -> bool {
    forall|j: int|
        0 <= j < walk.out.len() ==> ((#[trigger] walk.out[j]).status matches Status::Portal(to)
            ==> walk.portals.of(walk.out[j].domain) == Some(
            Portal { found_at: j as usize, pointing_at: to },
        ))
}

/// Whether a portal is open only for a slot that the search has passed.
pub open spec fn passed(walk: Walk) -> bool {
    &&& walk.portals.kind is Some ==> walk.slot.rank() >= 1
    &&& walk.portals.colon is Some ==> walk.slot.rank() >= 6
    &&& walk.portals.space is Some ==> walk.slot.rank() >= 7
}

/// What holds of a walk at every step of the search.
#[verifier::opaque]
pub open spec fn sound(walk: Walk) -> bool {
    &&& 1 <= walk.out.len() <= usize::MAX
    &&& signed(walk.out)
    &&& walk.weight == cost(walk.out, walk.out.len() as int)
    &&& lane_kept(walk, Domain::Type)
    &&& lane_kept(walk, Domain::Colon)
    &&& lane_kept(walk, Domain::Space)
    &&& passed(walk)
    &&& registered(walk)
    &&& linked(walk.out)
}

/// What holds of every candidate that the search finds.
pub open spec fn accepted(found: Alignment) -> bool {
    &&& 1 <= found.blocks.len() <= usize::MAX
    &&& signed(found.blocks)
    &&& paired(found.blocks)
    &&& found.weight == cost(found.blocks, found.blocks.len() as int)
}

/// The cost of blocks does not change where the blocks do not.
pub proof fn lemma_cost_same(a: Seq<Block>, b: Seq<Block>, upto: int)
    requires
        upto <= a.len(),
        upto <= b.len(),
        forall|j: int| 0 <= j < upto ==> price(a[j]) == price(b[j]),
    ensures
        cost(a, upto) == cost(b, upto),
    decreases upto,
{
    if upto > 0 {
        lemma_cost_same(a, b, upto - 1);
    }
}

/// One more block costs its price more.
pub proof fn lemma_cost_push(blocks: Seq<Block>, block: Block)
    ensures
        cost(blocks.push(block), blocks.len() as int + 1) == cost(blocks, blocks.len() as int) + price(
            block,
        ),
{
    lemma_cost_same(blocks, blocks.push(block), blocks.len() as int);
}

/// A walk stays sound when a block that is neither a portal nor the token
/// of one is laid out, the portals staying as they are.
proof fn lemma_push_sound(walk: Walk, block: Block, next: Walk)
    requires
        sound(walk),
        walk.out.len() < usize::MAX,
        next.out == walk.out.push(block),
        next.portals == walk.portals,
        next.slot.rank() >= walk.slot.rank(),
        next.weight == walk.weight + price(block),
        block.status == Status::Settled || block.status == Status::Missing || block.status
            == Status::Extra,
    ensures
        sound(next),
{
    reveal(sound);
    let n = walk.out.len() as int;
    lemma_cost_push(walk.out, block);
    assert forall|j: int| 0 <= j < next.out.len() implies (#[trigger] next.out[j]).status
        != Status::Unsigned by {
        if j < n {
            assert(next.out[j] == walk.out[j]);
        }
    }
    assert(registered(next)) by {
        assert forall|j: int| 0 <= j < next.out.len() implies ((#[trigger] next.out[j]).status matches Status::Portal(
            to,
        ) ==> next.portals.of(next.out[j].domain) == Some(
            Portal { found_at: j as usize, pointing_at: to },
        )) by {
            if j < n {
                assert(next.out[j] == walk.out[j]);
            }
        }
    }
    assert(linked(next.out)) by {
        assert forall|j: int| 0 <= j < n implies #[trigger] next.out[j] == walk.out[j] by {}
    }
    assert(lane_kept(next, Domain::Type)) by {
        if let Some(p) = walk.portals.kind {
            assert(next.out[p.found_at as int] == walk.out[p.found_at as int]);
        }
    }
    assert(lane_kept(next, Domain::Colon)) by {
        if let Some(p) = walk.portals.colon {
            assert(next.out[p.found_at as int] == walk.out[p.found_at as int]);
        }
    }
    assert(lane_kept(next, Domain::Space)) by {
        if let Some(p) = walk.portals.space {
            assert(next.out[p.found_at as int] == walk.out[p.found_at as int]);
        }
    }
}

/// A walk stays sound when a portal is opened for a slot that has none.
proof fn lemma_open_sound(walk: Walk, lane: Domain, block: Block, next: Walk)
    requires
        sound(walk),
        walk.out.len() < usize::MAX,
        lane == Domain::Type || lane == Domain::Colon || lane == Domain::Space,
        walk.portals.of(lane) is None,
        block.status == Status::Portal(None),
        block.domain == lane,
        next.out == walk.out.push(block),
        next.portals == walk.portals.with(
            lane,
            Portal { found_at: walk.out.len() as usize, pointing_at: None },
        ),
        passed(next),
        next.weight == walk.weight + 1,
    ensures
        sound(next),
{
    reveal(sound);
    let n = walk.out.len() as int;
    lemma_cost_push(walk.out, block);
    assert forall|j: int| 0 <= j < next.out.len() implies (#[trigger] next.out[j]).status
        != Status::Unsigned by {
        if j < n {
            assert(next.out[j] == walk.out[j]);
        }
    }
    assert(registered(next)) by {
        assert forall|j: int| 0 <= j < next.out.len() implies ((#[trigger] next.out[j]).status matches Status::Portal(
            to,
        ) ==> next.portals.of(next.out[j].domain) == Some(
            Portal { found_at: j as usize, pointing_at: to },
        )) by {
            if j < n {
                assert(next.out[j] == walk.out[j]);
                if walk.out[j].status is Portal {
                    assert(walk.portals.of(walk.out[j].domain) is Some);
                    assert(walk.out[j].domain != lane);
                }
            }
        }
    }
    assert(linked(next.out)) by {
        assert forall|j: int| 0 <= j < n implies #[trigger] next.out[j] == walk.out[j] by {}
    }
    assert(lane_kept(next, Domain::Type)) by {
        if lane != Domain::Type {
            if let Some(p) = walk.portals.kind {
                assert(next.out[p.found_at as int] == walk.out[p.found_at as int]);
            }
        }
    }
    assert(lane_kept(next, Domain::Colon)) by {
        if lane != Domain::Colon {
            if let Some(p) = walk.portals.colon {
                assert(next.out[p.found_at as int] == walk.out[p.found_at as int]);
            }
        }
    }
    assert(lane_kept(next, Domain::Space)) by {
        if lane != Domain::Space {
            if let Some(p) = walk.portals.space {
                assert(next.out[p.found_at as int] == walk.out[p.found_at as int]);
            }
        }
    }
}

/// A walk stays sound when the portal of a slot is given its token.
proof fn lemma_connect_sound(walk: Walk, lane: Domain, portal: Portal, block: Block, next: Walk)
    requires
        sound(walk),
        walk.out.len() < usize::MAX,
        lane == Domain::Type || lane == Domain::Colon || lane == Domain::Space,
        walk.portals.of(lane) == Some(portal),
        portal.pointing_at is None,
        block.status == Status::Ref(portal.found_at),
        next.out == walk.out.update(
            portal.found_at as int,
            Block {
                status: Status::Portal(Some(walk.out.len() as usize)),
                ..walk.out[portal.found_at as int]
            },
        ).push(block),
        next.portals == walk.portals.with(
            lane,
            Portal { pointing_at: Some(walk.out.len() as usize), ..portal },
        ),
        next.slot == walk.slot,
        next.weight == walk.weight,
    ensures
        sound(next),
{
    reveal(sound);
    let n = walk.out.len() as int;
    let p = portal.found_at as int;
    assert(lane_kept(walk, lane));
    assert(0 <= p < n);
    assert(next.out.len() == n + 1);
    assert(next.out[n] == block);
    assert(next.out[p].status == Status::Portal(Some(n as usize)));
    assert(next.out[p].domain == lane);
    assert forall|j: int| 0 <= j < n && j != p implies #[trigger] next.out[j] == walk.out[j] by {}
    assert forall|j: int| 0 <= j < n implies price(walk.out[j]) == price(
        #[trigger] next.out[j],
    ) by {
        if j != p {
            assert(next.out[j] == walk.out[j]);
        }
    }
    lemma_cost_same(walk.out, next.out, n);
    assert(cost(next.out, n + 1) == cost(next.out, n) + price(next.out[n]));
    assert forall|j: int| 0 <= j < next.out.len() implies (#[trigger] next.out[j]).status
        != Status::Unsigned by {
        if j < n && j != p {
            assert(next.out[j] == walk.out[j]);
        }
    }
    assert(registered(next)) by {
        assert forall|j: int| 0 <= j < next.out.len() implies ((#[trigger] next.out[j]).status matches Status::Portal(
            to,
        ) ==> next.portals.of(next.out[j].domain) == Some(
            Portal { found_at: j as usize, pointing_at: to },
        )) by {
            if j < n && j != p {
                assert(next.out[j] == walk.out[j]);
                if walk.out[j].status is Portal {
                    assert(walk.portals.of(walk.out[j].domain) is Some);
                    assert(walk.out[j].domain != lane);
                }
            }
        }
    }
    assert(linked(next.out)) by {
        assert forall|j: int, r: int|
            0 <= j < next.out.len() && 0 <= r < next.out.len() && (#[trigger] next.out[j]).status
                == Status::Portal(Some(r as usize)) implies (#[trigger] next.out[r]).status
            == Status::Ref(j as usize) by {
            if j != p {
                assert(next.out[j] == walk.out[j]);
                assert(walk.out[r].status == Status::Ref(j as usize));
                assert(r != p);
            }
        }
        assert forall|j: int, r: int|
            0 <= j < next.out.len() && 0 <= r < next.out.len() && (#[trigger] next.out[j]).status
                == Status::Ref(r as usize) implies (#[trigger] next.out[r]).status
            == Status::Portal(Some(j as usize)) by {
            if j < n {
                assert(j != p);
                assert(next.out[j] == walk.out[j]);
                assert(walk.out[r].status == Status::Portal(Some(j as usize)));
                assert(r != p);
            }
        }
    }
    assert(lane_kept(next, Domain::Type)) by {
        if lane != Domain::Type {
            if let Some(q) = walk.portals.kind {
                assert(q.found_at != p);
                assert(next.out[q.found_at as int] == walk.out[q.found_at as int]);
            }
        }
    }
    assert(lane_kept(next, Domain::Colon)) by {
        if lane != Domain::Colon {
            if let Some(q) = walk.portals.colon {
                assert(q.found_at != p);
                assert(next.out[q.found_at as int] == walk.out[q.found_at as int]);
            }
        }
    }
    assert(lane_kept(next, Domain::Space)) by {
        if lane != Domain::Space {
            if let Some(q) = walk.portals.space {
                assert(q.found_at != p);
                assert(next.out[q.found_at as int] == walk.out[q.found_at as int]);
            }
        }
    }
}

/// A walk stays sound when a block is settled.
pub proof fn lemma_settle_sound(walk: Walk, block: Block, found: (Domain, Slot))
    requires
        sound(walk),
        walk.out.len() < usize::MAX,
        found.1.rank() > walk.slot.rank(),
    ensures
        sound(walk.settle(block, found)),
{
    lemma_push_sound(
        walk,
        Block { domain: found.0, status: Status::Settled, ..block },
        walk.settle(block, found),
    );
}

/// A walk stays sound when a block is made up for a slot that is missing.
pub proof fn lemma_supply_sound(walk: Walk)
    requires
        sound(walk),
        walk.out.len() < usize::MAX,
        walk.slot != Slot::Desc,
    ensures
        sound(walk.supply()),
{
    let (val, domain, next) = walk.slot.wanted();
    lemma_push_sound(walk, made_up(val, domain, Status::Missing), walk.supply());
}

/// A walk stays sound when a portal is opened.
pub proof fn lemma_defer_sound(walk: Walk)
    requires
        sound(walk),
        walk.out.len() < usize::MAX,
        walk.slot.movable(),
    ensures
        sound(walk.defer()),
{
    let (val, domain, next) = walk.slot.wanted();
    assert(walk.portals.of(domain) is None && passed(walk.defer())) by {
        reveal(sound);
    }
    lemma_open_sound(walk, domain, made_up(val, domain, Status::Portal(None)), walk.defer());
}

/// A walk stays sound when the description takes a block in, and is one
/// block longer for it.
pub proof fn lemma_absorb_sound(walk: Walk, policy: KnownType, text: Seq<u8>, block: Block)
    requires
        sound(walk),
        walk.out.len() < usize::MAX,
        walk.slot == Slot::Desc,
    ensures
        sound(walk.absorb(policy, text, block)),
        walk.absorb(policy, text, block).out.len() == walk.out.len() + 1,
        walk.absorb(policy, text, block).slot == Slot::Desc,
{
    let next = walk.absorb(policy, text, block);
    let plain = Block { domain: Domain::Desc, status: Status::Settled, ..block };
    if is_made_up(block) {
        lemma_push_sound(
            walk,
            Block { domain: due(block.domain), status: Status::Missing, ..block },
            next,
        );
    } else {
    match lane_of(policy, text, block) {
        Some(lane) => match walk.portals.of(lane) {
            Some(portal) => match portal.pointing_at {
                None => {
                    assert(lane_kept(walk, lane)) by {
                        reveal(sound);
                    }
                    lemma_connect_sound(
                        walk,
                        lane,
                        portal,
                        Block { domain: lane, status: Status::Ref(portal.found_at), ..block },
                        next,
                    );
                },
                Some(_) => {
                    if lane == Domain::Type {
                        lemma_push_sound(walk, plain, next);
                    } else {
                        lemma_push_sound(
                            walk,
                            Block { domain: lane, status: Status::Extra, ..block },
                            next,
                        );
                    }
                },
            },
            None => {
                lemma_push_sound(walk, plain, next);
            },
        },
        None => {
            lemma_push_sound(walk, plain, next);
        },
    }
    }
}

/// A walk stays sound when a block that comes made up for the slot expected
/// is taken as it comes.
pub proof fn lemma_take_sound(walk: Walk, block: Block)
    requires
        sound(walk),
        walk.out.len() < usize::MAX,
        walk.awaits(block),
    ensures
        sound(walk.take(block)),
{
    let next = walk.take(block);
    if block.status is Portal && walk.slot.movable() {
        assert(walk.portals.of(block.domain) is None && passed(next)) by {
            reveal(sound);
        }
        lemma_open_sound(
            walk,
            block.domain,
            Block { status: Status::Portal(None), ..block },
            next,
        );
    } else {
        lemma_push_sound(walk, Block { status: Status::Missing, ..block }, next);
    }
}

/// A sound walk that has no portal left waiting gives an accepted candidate.
proof fn lemma_finish_accepted(walk: Walk)
    requires
        sound(walk),
        walk.complete(),
    ensures
        accepted(walk.alignment()),
{
    reveal(sound);
    assert forall|j: int| 0 <= j < walk.out.len() implies ((#[trigger] walk.out[j]).status matches Status::Portal(
        to,
    ) ==> to is Some) by {
        if walk.out[j].status is Portal {
            assert(walk.portals.of(walk.out[j].domain) is Some);
        }
    }
}

/// Whether every portal of the walk lies within the blocks laid out.
pub open spec fn within(walk: Walk) -> bool {
    &&& walk.portals.kind matches Some(p) ==> p.found_at < walk.out.len()
    &&& walk.portals.colon matches Some(p) ==> p.found_at < walk.out.len()
    &&& walk.portals.space matches Some(p) ==> p.found_at < walk.out.len()
}

/// In a sound walk every portal lies within the blocks laid out.
pub proof fn lemma_sound_within(walk: Walk)
    requires
        sound(walk),
    ensures
        within(walk),
{
    reveal(sound);
    assert(lane_kept(walk, Domain::Type));
    assert(lane_kept(walk, Domain::Colon));
    assert(lane_kept(walk, Domain::Space));
}

/// Every step of the search lays out one more block and leaves every
/// portal within the blocks laid out.
pub proof fn lemma_step_within(
    walk: Walk,
    policy: KnownType,
    text: Seq<u8>,
    block: Block,
    found: (Domain, Slot),
)
    requires
        within(walk),
    ensures
        within(walk.settle(block, found)),
        walk.settle(block, found).out.len() == walk.out.len() + 1,
        within(walk.supply()),
        walk.supply().out.len() == walk.out.len() + 1,
        within(walk.defer()),
        walk.defer().out.len() == walk.out.len() + 1,
        within(walk.absorb(policy, text, block)),
        walk.absorb(policy, text, block).out.len() == walk.out.len() + 1,
        within(walk.take(block)),
        walk.take(block).out.len() == walk.out.len() + 1,
{
}

/// No candidate has fewer blocks than the walk it was found from.
pub proof fn lemma_length_grows(
    policy: KnownType,
    text: Seq<u8>,
    input: Seq<Block>,
    at: int,
    walk: Walk,
    k: int,
)
    requires
        within(walk),
        0 <= k < search(policy, text, input, at, walk).len(),
    ensures
        search(policy, text, input, at, walk)[k].blocks.len() >= walk.out.len(),
    decreases 7 - walk.slot.rank(), input.len() - at,
{
    if walk.slot != Slot::Desc && 0 <= at < input.len() && walk.awaits(input[at]) {
        lemma_step_within(walk, policy, text, input[at], (Domain::Desc, Slot::Desc));
        lemma_length_grows(policy, text, input, at + 1, walk.take(input[at]), k);
    } else if walk.slot == Slot::Desc {
        if at < 0 || at >= input.len() {
        } else {
            lemma_step_within(walk, policy, text, input[at], (Domain::Desc, Slot::Desc));
            lemma_length_grows(policy, text, input, at + 1, walk.absorb(policy, text, input[at]), k);
        }
    } else {
        match found_for(policy, text, input, at, walk.slot) {
            Some(found) => {
                lemma_step_within(walk, policy, text, input[at], found);
                lemma_length_grows(policy, text, input, at + 1, walk.settle(input[at], found), k);
            },
            None => {
                lemma_step_within(walk, policy, text, input[0], (Domain::Desc, Slot::Desc));
                let first = search(policy, text, input, at, walk.supply());
                if k < first.len() {
                    lemma_length_grows(policy, text, input, at, walk.supply(), k);
                } else {
                    lemma_length_grows(policy, text, input, at, walk.defer(), k - first.len());
                }
            },
        }
    }
}

/// A walk from whose next step a candidate was found that is not too long
/// for a vector has room for one more block. `next` is the walk after that
/// step.
pub proof fn lemma_room(
    policy: KnownType,
    text: Seq<u8>,
    input: Seq<Block>,
    at: int,
    walk: Walk,
    next: Walk,
    k: int,
)
    requires
        within(next),
        next.out.len() == walk.out.len() + 1,
        0 <= k < search(policy, text, input, at, next).len(),
        search(policy, text, input, at, next)[k].blocks.len() <= usize::MAX,
    ensures
        walk.out.len() < usize::MAX,
{
    lemma_length_grows(policy, text, input, at, next, k);
}

/// The walk that the search begins with is sound.
pub proof fn lemma_begin_sound(root: Block)
    ensures
        sound(Walk::begin(root)),
{
    let walk = Walk::begin(root);
    reveal(sound);
    assert(cost(walk.out, 1) == cost(walk.out, 0) + price(walk.out[0]));
}

/// Every candidate that the search finds from a sound walk is accepted.
pub proof fn lemma_search_accepted(
    policy: KnownType,
    text: Seq<u8>,
    input: Seq<Block>,
    at: int,
    walk: Walk,
    k: int,
)
    requires
        sound(walk),
        0 <= at <= input.len(),
        0 <= k < search(policy, text, input, at, walk).len(),
        search(policy, text, input, at, walk)[k].blocks.len() <= usize::MAX,
    ensures
        accepted(search(policy, text, input, at, walk)[k]),
    decreases 7 - walk.slot.rank(), input.len() - at,
{
    lemma_sound_within(walk);
    if walk.slot != Slot::Desc && 0 <= at < input.len() && walk.awaits(input[at]) {
        lemma_step_within(walk, policy, text, input[at], (Domain::Desc, Slot::Desc));
        lemma_room(policy, text, input, at + 1, walk, walk.take(input[at]), k);
        lemma_take_sound(walk, input[at]);
        lemma_search_accepted(policy, text, input, at + 1, walk.take(input[at]), k);
    } else if walk.slot == Slot::Desc {
        if at >= input.len() {
            lemma_finish_accepted(walk);
        } else {
            let next = walk.absorb(policy, text, input[at]);
            lemma_step_within(walk, policy, text, input[at], (Domain::Desc, Slot::Desc));
            lemma_room(policy, text, input, at + 1, walk, next, k);
            lemma_absorb_sound(walk, policy, text, input[at]);
            lemma_search_accepted(
                policy,
                text,
                input,
                at + 1,
                walk.absorb(policy, text, input[at]),
                k,
            );
        }
    } else {
        match found_for(policy, text, input, at, walk.slot) {
            Some(found) => {
                lemma_step_within(walk, policy, text, input[at], found);
                lemma_room(policy, text, input, at + 1, walk, walk.settle(input[at], found), k);
                lemma_settle_sound(walk, input[at], found);
                lemma_search_accepted(policy, text, input, at + 1, walk.settle(input[at], found), k);
            },
            None => {
                lemma_step_within(walk, policy, text, input[0], (Domain::Desc, Slot::Desc));
                let first = search(policy, text, input, at, walk.supply());
                if k < first.len() {
                    lemma_room(policy, text, input, at, walk, walk.supply(), k);
                    lemma_supply_sound(walk);
                    lemma_search_accepted(policy, text, input, at, walk.supply(), k);
                } else {
                    lemma_room(policy, text, input, at, walk, walk.defer(), k - first.len());
                    lemma_defer_sound(walk);
                    lemma_search_accepted(policy, text, input, at, walk.defer(), k - first.len());
                }
            },
        }
    }
}

/// Whether no block behind the root of a header comes as a portal.
pub open spec fn portal_free(input: Seq<Block>) -> bool {
    forall|j: int| 1 <= j < input.len() ==> !((#[trigger] input[j]).status is Portal)
}

/// From a walk in which no portal waits for its token the search finds a
/// candidate, in a header of which no block comes as a portal.
pub proof fn lemma_search_finds(
    policy: KnownType,
    text: Seq<u8>,
    input: Seq<Block>,
    at: int,
    walk: Walk,
)
    requires
        1 <= at,
        walk.complete(),
        portal_free(input),
    ensures
        search(policy, text, input, at, walk).len() >= 1,
    decreases 7 - walk.slot.rank(), input.len() - at,
{
    if walk.slot != Slot::Desc && 0 <= at < input.len() && walk.awaits(input[at]) {
        lemma_search_finds(policy, text, input, at + 1, walk.take(input[at]));
    } else if walk.slot == Slot::Desc {
        if at < 0 || at >= input.len() {
        } else {
            lemma_search_finds(policy, text, input, at + 1, walk.absorb(policy, text, input[at]));
        }
    } else {
        match found_for(policy, text, input, at, walk.slot) {
            Some(found) => {
                lemma_search_finds(policy, text, input, at + 1, walk.settle(input[at], found));
            },
            None => {
                lemma_search_finds(policy, text, input, at, walk.supply());
            },
        }
    }
}

/// The search always finds a candidate for a header that has its root and
/// of which no block comes as a portal: at least the one in which every slot
/// that no token fills is made up. (A portal that comes with the header waits
/// for its token anew, and may wait in vain.)
pub proof fn lemma_some_candidate(policy: KnownType, text: Seq<u8>, input: Seq<Block>)
    requires
        input.len() >= 1,
        portal_free(input),
    ensures
        solutions_of(policy, text, input).len() >= 1,
{
    lemma_search_finds(policy, text, input, 1, Walk::begin(input[0]));
}

/// In every candidate that the search returns each portal has its token: the
/// portal points at a block that points back at it, and no token points at
/// anything but its portal. No block is left unsigned, and the weight of the
/// candidate is the number of its blocks that are missing, surplus, or
/// portals.
pub proof fn lemma_candidates_accepted(policy: KnownType, text: Seq<u8>, input: Seq<Block>, k: int)
    requires
        0 <= k < solutions_of(policy, text, input).len(),
        solutions_of(policy, text, input)[k].blocks.len() <= usize::MAX,
    ensures
        accepted(solutions_of(policy, text, input)[k]),
{
    lemma_begin_sound(input[0]);
    lemma_search_accepted(policy, text, input, 1, Walk::begin(input[0]), k);
}

} // verus!
