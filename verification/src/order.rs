use vstd::prelude::*;
use crate::analyze_header::{
    due, fills, found_for, is_made_up, lane_of, made_up, search, solutions_of, Slot, Walk,
};
use crate::block::{Block, Status};
use crate::config::KnownType;
use crate::domain::Domain;

verus! {

/// Whether the settled blocks stand in the order of the grammar: no settled
/// block belongs to a slot that comes before the slot of a settled block
/// before it.
pub open spec fn ordered(blocks: Seq<Block>) -> bool {
    forall|i: int, j: int|
        0 <= i < j < blocks.len() && (#[trigger] blocks[i]).status == Status::Settled && (
        #[trigger] blocks[j]).status == Status::Settled ==> blocks[i].domain.rank()
            <= blocks[j].domain.rank()
}

/// Whether one of `blocks`, the root aside, stands for `slot` where the slot
/// is expected: a token settled there, a block made up for it, or a portal.
pub open spec fn filled(blocks: Seq<Block>, slot: Domain) -> bool {
    exists|j: int|
        1 <= j < blocks.len() && (#[trigger] blocks[j]).domain == slot && (blocks[j].status
            == Status::Settled || blocks[j].status == Status::Missing
            || blocks[j].status is Portal)
}

/// Whether every block has the slot that is its due: the root stands first,
/// settled, and alone in its slot; no block behind it is left without a
/// slot; and a block of the description is settled, or was made up for a
/// description that is missing.
pub open spec fn slotted(blocks: Seq<Block>) -> bool {
    &&& blocks.len() >= 1
    &&& blocks[0].domain == Domain::Root
    &&& blocks[0].status == Status::Settled
    &&& forall|j: int|
        1 <= j < blocks.len() ==> {
            let block = #[trigger] blocks[j];
            &&& block.domain != Domain::Root
            &&& block.domain != Domain::Nil
            &&& block.domain == Domain::Desc ==> block.status == Status::Settled || block.status
                == Status::Missing
        }
}

/// The latest slot of the grammar that a block can have been settled in when
/// the search expects `slot`, as its rank.
pub open spec fn reached(slot: Slot) -> nat {
    match slot {
        Slot::Kind => 0,
        Slot::AfterKind => 2,
        Slot::ScopeName => 3,
        Slot::ScopeEnd => 4,
        Slot::AfterScope => 5,
        Slot::Colon => 6,
        Slot::Space => 7,
        Slot::Desc => 9,
    }
}

/// Whether no block has been settled in a slot later than the search can
/// have reached.
pub open spec fn capped(walk: Walk) -> bool {
    forall|j: int|
        0 <= j < walk.out.len() && (#[trigger] walk.out[j]).status == Status::Settled
            ==> walk.out[j].domain.rank() <= reached(walk.slot)
}

/// What holds of the layout of a walk at every step of the search.
#[verifier::opaque]
pub open spec fn shaped(walk: Walk) -> bool {
    &&& walk.out.len() >= 1
    &&& slotted(walk.out)
    &&& ordered(walk.out)
    &&& capped(walk)
    &&& walk.slot.rank() >= 1 ==> filled(walk.out, Domain::Type)
    &&& walk.slot.rank() >= 6 ==> filled(walk.out, Domain::Colon)
    &&& walk.slot.rank() >= 7 ==> filled(walk.out, Domain::Space)
}

/// What holds of the layout of every candidate that the search finds: every
/// block has the slot that is its due, the settled blocks stand in the order
/// of the grammar, and the type, the colon and the space each have a block
/// that stands for them.
pub open spec fn laid_out(blocks: Seq<Block>) -> bool {
    &&& slotted(blocks)
    &&& ordered(blocks)
    &&& filled(blocks, Domain::Type)
    &&& filled(blocks, Domain::Colon)
    &&& filled(blocks, Domain::Space)
}

/// A slot that is filled stays filled when a block is added.
proof fn lemma_filled_push(blocks: Seq<Block>, block: Block, slot: Domain)
    requires
        filled(blocks, slot),
    ensures
        filled(blocks.push(block), slot),
{
    let j = choose|j: int|
        1 <= j < blocks.len() && (#[trigger] blocks[j]).domain == slot && (blocks[j].status
            == Status::Settled || blocks[j].status == Status::Missing
            || blocks[j].status is Portal);
    assert(blocks.push(block)[j] == blocks[j]);
}

/// The block added last fills its slot, unless it is a token found
/// elsewhere or a surplus one.
proof fn lemma_filled_last(blocks: Seq<Block>, block: Block)
    requires
        blocks.len() >= 1,
        block.status == Status::Settled || block.status == Status::Missing || block.status
            is Portal,
    ensures
        filled(blocks.push(block), block.domain),
{
    assert(blocks.push(block)[blocks.len() as int] == block);
}

/// A walk keeps its shape when a block is laid out that is settled in a slot
/// between the latest reached before and the latest reached after, or is not
/// settled at all, and that fills each slot that the search passes with it.
proof fn lemma_push_shaped(walk: Walk, block: Block, next: Walk)
    requires
        shaped(walk),
        next.out == walk.out.push(block),
        block.domain != Domain::Root,
        block.domain != Domain::Nil,
        block.domain == Domain::Desc ==> block.status == Status::Settled || block.status
            == Status::Missing,
        next.slot.rank() >= walk.slot.rank(),
        block.status == Status::Settled ==> reached(walk.slot) <= block.domain.rank() <= reached(
            next.slot,
        ),
        reached(walk.slot) <= reached(next.slot),
        walk.slot.rank() < 1 <= next.slot.rank() ==> block.domain == Domain::Type && (block.status
            == Status::Settled || block.status == Status::Missing || block.status is Portal),
        walk.slot.rank() < 6 <= next.slot.rank() ==> block.domain == Domain::Colon && (block.status
            == Status::Settled || block.status == Status::Missing || block.status is Portal),
        walk.slot.rank() < 7 <= next.slot.rank() ==> block.domain == Domain::Space && (block.status
            == Status::Settled || block.status == Status::Missing || block.status is Portal),
        !(walk.slot.rank() < 1 && 6 <= next.slot.rank()),
        !(walk.slot.rank() < 6 && 7 <= next.slot.rank()),
    ensures
        shaped(next),
{
    reveal(shaped);
    let n = walk.out.len() as int;
    assert forall|j: int| 0 <= j < n implies #[trigger] next.out[j] == walk.out[j] by {}
    assert(next.out[n] == block);
    assert(ordered(next.out)) by {
        assert forall|i: int, j: int|
            0 <= i < j < next.out.len() && (#[trigger] next.out[i]).status == Status::Settled && (
            #[trigger] next.out[j]).status == Status::Settled implies next.out[i].domain.rank()
            <= next.out[j].domain.rank() by {
            assert(next.out[i] == walk.out[i]);
            if j < n {
                assert(next.out[j] == walk.out[j]);
            }
        }
    }
    if next.slot.rank() >= 1 {
        if walk.slot.rank() >= 1 {
            lemma_filled_push(walk.out, block, Domain::Type);
        } else {
            lemma_filled_last(walk.out, block);
        }
    }
    if next.slot.rank() >= 6 {
        if walk.slot.rank() >= 6 {
            lemma_filled_push(walk.out, block, Domain::Colon);
        } else {
            lemma_filled_last(walk.out, block);
        }
    }
    if next.slot.rank() >= 7 {
        if walk.slot.rank() >= 7 {
            lemma_filled_push(walk.out, block, Domain::Space);
        } else {
            lemma_filled_last(walk.out, block);
        }
    }
}

/// A slot that is filled stays filled when a portal is given its token.
proof fn lemma_filled_connect(blocks: Seq<Block>, at: int, to: usize, block: Block, slot: Domain)
    requires
        filled(blocks, slot),
        0 <= at < blocks.len(),
        blocks[at].status is Portal,
    ensures
        filled(
            blocks.update(at, Block { status: Status::Portal(Some(to)), ..blocks[at] }).push(block),
            slot,
        ),
{
    let changed = blocks.update(at, Block { status: Status::Portal(Some(to)), ..blocks[at] }).push(
        block,
    );
    let j = choose|j: int|
        1 <= j < blocks.len() && (#[trigger] blocks[j]).domain == slot && (blocks[j].status
            == Status::Settled || blocks[j].status == Status::Missing
            || blocks[j].status is Portal);
    if j != at {
        assert(changed[j] == blocks[j]);
    } else {
        assert(changed[j].domain == slot);
    }
}

/// Whether the portal of `lane`, if there is one, is a portal among the
/// blocks.
pub open spec fn gated(walk: Walk, lane: Domain) -> bool {
    walk.portals.of(lane) matches Some(portal) ==> portal.found_at < walk.out.len()
        && walk.out[portal.found_at as int].status is Portal
}

/// A walk keeps its shape when the description takes a block in.
proof fn lemma_absorb_shaped(walk: Walk, policy: KnownType, text: Seq<u8>, block: Block)
    requires
        shaped(walk),
        walk.slot == Slot::Desc,
        gated(walk, Domain::Type),
        gated(walk, Domain::Colon),
        gated(walk, Domain::Space),
    ensures
        shaped(walk.absorb(policy, text, block)),
{
    let next = walk.absorb(policy, text, block);
    let plain = Block { domain: Domain::Desc, status: Status::Settled, ..block };
    let token = !is_made_up(block);
    let connects = token && (lane_of(policy, text, block) matches Some(lane) && walk.portals.of(
        lane,
    ) matches Some(portal) && portal.pointing_at is None);
    if !connects {
        let taken = next.out[walk.out.len() as int];
        assert(next.out =~= walk.out.push(taken));
        lemma_push_shaped(walk, taken, next);
    } else {
        reveal(shaped);
        let lane = lane_of(policy, text, block).unwrap();
        let portal = walk.portals.of(lane).unwrap();
        let n = walk.out.len() as int;
        let p = portal.found_at as int;
        let taken = Block { domain: lane, status: Status::Ref(portal.found_at), ..block };
        assert(next.out[n] == taken);
        assert forall|j: int| 0 <= j < n && j != p implies #[trigger] next.out[j]
            == walk.out[j] by {}
        assert(next.out[p].status is Portal);
        assert(ordered(next.out)) by {
            assert forall|i: int, j: int|
                0 <= i < j < next.out.len() && (#[trigger] next.out[i]).status == Status::Settled
                    && (#[trigger] next.out[j]).status == Status::Settled implies next.out[i].domain.rank()
                <= next.out[j].domain.rank() by {
                assert(next.out[i] == walk.out[i]);
                assert(next.out[j] == walk.out[j]);
            }
        }
        assert(slotted(next.out)) by {
            assert(p != 0);
            assert(next.out[0] == walk.out[0]);
            assert forall|j: int| 1 <= j < next.out.len() implies {
                let block = #[trigger] next.out[j];
                &&& block.domain != Domain::Root
                &&& block.domain != Domain::Nil
                &&& block.domain == Domain::Desc ==> block.status == Status::Settled
                    || block.status == Status::Missing
            } by {
                if j < n && j != p {
                    assert(next.out[j] == walk.out[j]);
                } else if j == p {
                    assert(next.out[p].domain == walk.out[p].domain);
                }
            }
        }
        assert(capped(next)) by {
            assert forall|j: int|
                0 <= j < next.out.len() && (#[trigger] next.out[j]).status
                    == Status::Settled implies next.out[j].domain.rank() <= reached(next.slot) by {
                assert(next.out[j] == walk.out[j]);
            }
        }
        lemma_filled_connect(walk.out, p, n as usize, taken, Domain::Type);
        lemma_filled_connect(walk.out, p, n as usize, taken, Domain::Colon);
        lemma_filled_connect(walk.out, p, n as usize, taken, Domain::Space);
    }
}

/// The layout of every candidate that the search finds from a walk that
/// has its shape is laid out as the grammar wants it.
pub proof fn lemma_search_laid_out(
    policy: KnownType,
    text: Seq<u8>,
    input: Seq<Block>,
    at: int,
    walk: Walk,
    k: int,
)
    requires
        shaped(walk),
        crate::soundness::sound(walk),
        0 <= at <= input.len(),
        0 <= k < search(policy, text, input, at, walk).len(),
        search(policy, text, input, at, walk)[k].blocks.len() <= usize::MAX,
    ensures
        laid_out(search(policy, text, input, at, walk)[k].blocks),
    decreases 7 - walk.slot.rank(), input.len() - at,
{
    crate::soundness::lemma_sound_within(walk);
    crate::soundness::lemma_step_within(
        walk,
        policy,
        text,
        if 0 <= at < input.len() {
            input[at]
        } else {
            input[0]
        },
        match found_for(policy, text, input, at, walk.slot) {
            Some(found) => found,
            None => (Domain::Desc, Slot::Desc),
        },
    );
    if walk.slot != Slot::Desc && 0 <= at < input.len() && walk.awaits(input[at]) {
        let next = walk.take(input[at]);
        lemma_push_shaped(walk, next.out[walk.out.len() as int], next);
        crate::soundness::lemma_room(policy, text, input, at + 1, walk, next, k);
        crate::soundness::lemma_take_sound(walk, input[at]);
        lemma_search_laid_out(policy, text, input, at + 1, next, k);
    } else if walk.slot == Slot::Desc {
        if at >= input.len() {
            reveal(shaped);
        } else {
            assert(gated(walk, Domain::Type) && gated(walk, Domain::Colon) && gated(
                walk,
                Domain::Space,
            )) by {
                reveal(crate::soundness::sound);
                assert(crate::soundness::lane_kept(walk, Domain::Type));
                assert(crate::soundness::lane_kept(walk, Domain::Colon));
                assert(crate::soundness::lane_kept(walk, Domain::Space));
            }
            lemma_absorb_shaped(walk, policy, text, input[at]);
            crate::soundness::lemma_room(
                policy,
                text,
                input,
                at + 1,
                walk,
                walk.absorb(policy, text, input[at]),
                k,
            );
            crate::soundness::lemma_absorb_sound(walk, policy, text, input[at]);
            lemma_search_laid_out(
                policy,
                text,
                input,
                at + 1,
                walk.absorb(policy, text, input[at]),
                k,
            );
        }
    } else {
        match found_for(policy, text, input, at, walk.slot) {
            Some(found) => {
                let next = walk.settle(input[at], found);
                lemma_push_shaped(
                    walk,
                    Block { domain: found.0, status: Status::Settled, ..input[at] },
                    next,
                );
                crate::soundness::lemma_room(policy, text, input, at + 1, walk, next, k);
                crate::soundness::lemma_settle_sound(walk, input[at], found);
                lemma_search_laid_out(policy, text, input, at + 1, next, k);
            },
            None => {
                let (val, domain, after) = walk.slot.wanted();
                let first = search(policy, text, input, at, walk.supply());
                if k < first.len() {
                    lemma_push_shaped(walk, made_up(val, domain, Status::Missing), walk.supply());
                    crate::soundness::lemma_room(policy, text, input, at, walk, walk.supply(), k);
                    crate::soundness::lemma_supply_sound(walk);
                    lemma_search_laid_out(policy, text, input, at, walk.supply(), k);
                } else {
                    lemma_push_shaped(
                        walk,
                        made_up(val, domain, Status::Portal(None)),
                        walk.defer(),
                    );
                    crate::soundness::lemma_room(
                        policy,
                        text,
                        input,
                        at,
                        walk,
                        walk.defer(),
                        k - first.len(),
                    );
                    crate::soundness::lemma_defer_sound(walk);
                    lemma_search_laid_out(policy, text, input, at, walk.defer(), k - first.len());
                }
            },
        }
    }
}

/// In every candidate that the search returns the root stands first,
/// settled, and alone in its slot; no block is left without a slot; the
/// blocks of the description are settled; the settled blocks stand in the
/// order of the grammar; and the type, the colon and the space each have a
/// block that stands for them.
pub proof fn lemma_candidates_laid_out(policy: KnownType, text: Seq<u8>, input: Seq<Block>, k: int)
    requires
        0 <= k < solutions_of(policy, text, input).len(),
        solutions_of(policy, text, input)[k].blocks.len() <= usize::MAX,
    ensures
        laid_out(solutions_of(policy, text, input)[k].blocks),
{
    let walk = Walk::begin(input[0]);
    assert(shaped(walk)) by {
        reveal(shaped);
    }
    crate::soundness::lemma_begin_sound(input[0]);
    lemma_search_laid_out(policy, text, input, 1, walk, k);
}

} // verus!
