use vstd::prelude::*;
use crate::analyze_header::{found_for, is_made_up, search, solutions_of, Slot, Walk};
use crate::block::{is_token_block, Block, Status};
use crate::config::KnownType;
use crate::domain::Domain;
use crate::find_header_issues::tokens_before;
use crate::order::gated;
use crate::soundness::{
    lane_kept, lemma_absorb_sound, lemma_begin_sound, lemma_defer_sound, lemma_room,
    lemma_settle_sound, lemma_sound_within, lemma_step_within, lemma_supply_sound, sound,
};

verus! {

/// Whether two blocks are the same token: they have the same id, the same
/// kind and the same bytes, whatever their slot and status.
pub open spec fn same_token(a: Block, b: Block) -> bool {
    a.id == b.id && a.val == b.val && a.bytes == b.bytes
}

/// Whether the block `j` of `blocks`, if it stands for a token, is the token
/// of `input` that its place among the tokens says, and, if it is made up,
/// has neither id nor bytes.
pub open spec fn true_to(input: Seq<Block>, blocks: Seq<Block>, j: int) -> bool {
    if is_token_block(blocks[j]) {
        same_token(blocks[j], input[tokens_before(blocks, j) as int + 1])
    } else {
        blocks[j].id is None && blocks[j].bytes is None
    }
}

/// Whether `blocks` hold the first `at` blocks of `input`, the root first
/// and the tokens in their order, with nothing changed but slot and status,
/// among blocks that are made up.
pub open spec fn keeps(input: Seq<Block>, at: int, blocks: Seq<Block>) -> bool {
    &&& blocks.len() >= 1
    &&& is_token_block(blocks[0])
    &&& same_token(blocks[0], input[0])
    &&& tokens_before(blocks, blocks.len() as int) == at - 1
    &&& forall|j: int| 1 <= j < blocks.len() ==> #[trigger] true_to(input, blocks, j)
}

/// What holds of the tokens of a walk at every step of the search: none is
/// lost or changed, and no more blocks are made up than slots were passed.
#[verifier::opaque]
pub open spec fn kept(input: Seq<Block>, at: int, walk: Walk) -> bool {
    &&& keeps(input, at, walk.out)
    &&& walk.out.len() <= at + walk.slot.rank()
}

/// Whether `blocks` are a layout of `input`: they hold the blocks of `input`,
/// the root first and the tokens in their order, with nothing changed but
/// slot and status, among at most 7 blocks that are made up.
pub open spec fn faithful(input: Seq<Block>, blocks: Seq<Block>) -> bool {
    &&& keeps(input, input.len() as int, blocks)
    &&& blocks.len() <= input.len() + 7
}

/// Whether a header comes as the tokenizer gives it, or as one that was
/// settled in full: every block behind the root is a token, none is made up.
pub open spec fn plain(input: Seq<Block>) -> bool {
    forall|j: int| 1 <= j < input.len() ==> !is_made_up(#[trigger] input[j])
}

/// The number of tokens before a block goes by what stands for a token and
/// what does not.
pub proof fn lemma_tokens_before_same(a: Seq<Block>, b: Seq<Block>, upto: int)
    requires
        upto <= a.len(),
        upto <= b.len(),
        forall|j: int| 1 <= j < upto ==> is_token_block(a[j]) == is_token_block(b[j]),
    ensures
        tokens_before(a, upto) == tokens_before(b, upto),
    decreases upto,
{
    if upto > 1 {
        lemma_tokens_before_same(a, b, upto - 1);
    }
}

/// A walk keeps its tokens when one more block is laid out: the next token
/// of the input, or a block that is made up for a slot that the search
/// passes with it. The blocks laid out before may change their status as
/// long as tokens stay tokens.
proof fn lemma_step_kept(input: Seq<Block>, at: int, walk: Walk, next: Walk, after: int)
    requires
        kept(input, at, walk),
        1 <= at <= input.len(),
        next.out.len() == walk.out.len() + 1,
        forall|j: int|
            0 <= j < walk.out.len() ==> same_token(#[trigger] next.out[j], walk.out[j])
                && is_token_block(next.out[j]) == is_token_block(walk.out[j]),
        ({
            let block = next.out[walk.out.len() as int];
            if is_token_block(block) {
                &&& at < input.len()
                &&& same_token(block, input[at])
                &&& after == at + 1
                &&& next.slot.rank() >= walk.slot.rank()
            } else {
                &&& block.id is None
                &&& block.bytes is None
                &&& after == at
                &&& next.slot.rank() > walk.slot.rank()
            }
        }),
    ensures
        kept(input, after, next),
{
    reveal(kept);
    let n = walk.out.len() as int;
    lemma_tokens_before_same(walk.out, next.out, n);
    assert(same_token(next.out[0], walk.out[0]));
    assert forall|j: int| 1 <= j < next.out.len() implies #[trigger] true_to(
        input,
        next.out,
        j,
    ) by {
        lemma_tokens_before_same(walk.out, next.out, j);
        if j < n {
            assert(true_to(input, walk.out, j));
            assert(same_token(next.out[j], walk.out[j]));
        }
    }
}

/// The layout of every candidate that the search finds from a walk that has
/// kept its tokens is a layout of the input.
pub proof fn lemma_search_faithful(
    policy: KnownType,
    text: Seq<u8>,
    input: Seq<Block>,
    at: int,
    walk: Walk,
    k: int,
)
    requires
        plain(input),
        kept(input, at, walk),
        sound(walk),
        1 <= at <= input.len(),
        0 <= k < search(policy, text, input, at, walk).len(),
        search(policy, text, input, at, walk)[k].blocks.len() <= usize::MAX,
    ensures
        faithful(input, search(policy, text, input, at, walk)[k].blocks),
    decreases 7 - walk.slot.rank(), input.len() - at,
{
    let n = walk.out.len() as int;
    if at < input.len() {
        assert(!is_made_up(input[at]));
    }
    lemma_sound_within(walk);
    lemma_step_within(
        walk,
        policy,
        text,
        if 0 <= at < input.len() {
            input[at]
        } else {
            input[0]
        },
        match found_for(policy, text, input, at, walk.slot) {
            Some(found) => found,
            None => (Domain::Desc, Slot::Desc),
        },
    );
    if walk.slot == Slot::Desc {
        if at >= input.len() {
            reveal(kept);
        } else {
            let next = walk.absorb(policy, text, input[at]);
            assert(gated(walk, Domain::Type) && gated(walk, Domain::Colon) && gated(
                walk,
                Domain::Space,
            )) by {
                reveal(sound);
                assert(lane_kept(walk, Domain::Type));
                assert(lane_kept(walk, Domain::Colon));
                assert(lane_kept(walk, Domain::Space));
            }
            assert(next.out.len() == n + 1);
            assert(is_token_block(next.out[n]) && same_token(next.out[n], input[at]));
            assert forall|j: int| 0 <= j < n implies same_token(
                #[trigger] next.out[j],
                walk.out[j],
            ) && is_token_block(next.out[j]) == is_token_block(walk.out[j]) by {}
            lemma_step_kept(input, at, walk, next, at + 1);
            lemma_room(policy, text, input, at + 1, walk, next, k);
            lemma_absorb_sound(walk, policy, text, input[at]);
            lemma_search_faithful(policy, text, input, at + 1, next, k);
        }
    } else {
        match found_for(policy, text, input, at, walk.slot) {
            Some(found) => {
                let next = walk.settle(input[at], found);
                assert forall|j: int| 0 <= j < n implies same_token(
                    #[trigger] next.out[j],
                    walk.out[j],
                ) && is_token_block(next.out[j]) == is_token_block(walk.out[j]) by {}
                lemma_step_kept(input, at, walk, next, at + 1);
                lemma_room(policy, text, input, at + 1, walk, next, k);
                lemma_settle_sound(walk, input[at], found);
                lemma_search_faithful(policy, text, input, at + 1, next, k);
            },
            None => {
                let first = search(policy, text, input, at, walk.supply());
                if k < first.len() {
                    let next = walk.supply();
                    assert forall|j: int| 0 <= j < n implies same_token(
                        #[trigger] next.out[j],
                        walk.out[j],
                    ) && is_token_block(next.out[j]) == is_token_block(walk.out[j]) by {}
                    lemma_step_kept(input, at, walk, next, at);
                    lemma_room(policy, text, input, at, walk, next, k);
                    lemma_supply_sound(walk);
                    lemma_search_faithful(policy, text, input, at, next, k);
                } else {
                    let next = walk.defer();
                    assert forall|j: int| 0 <= j < n implies same_token(
                        #[trigger] next.out[j],
                        walk.out[j],
                    ) && is_token_block(next.out[j]) == is_token_block(walk.out[j]) by {}
                    lemma_step_kept(input, at, walk, next, at);
                    lemma_room(policy, text, input, at, walk, next, k - first.len());
                    lemma_defer_sound(walk);
                    lemma_search_faithful(policy, text, input, at, next, k - first.len());
                }
            },
        }
    }
}

/// Every candidate that the search returns for a header of tokens holds the
/// blocks of the header, the root first and the tokens in their order, with
/// nothing changed but slot and status; and among them at most 7 blocks that
/// are made up, none of which has an id or bytes.
pub proof fn lemma_candidates_faithful(policy: KnownType, text: Seq<u8>, input: Seq<Block>, k: int)
    requires
        plain(input),
        0 <= k < solutions_of(policy, text, input).len(),
        solutions_of(policy, text, input)[k].blocks.len() <= usize::MAX,
    ensures
        faithful(input, solutions_of(policy, text, input)[k].blocks),
{
    let walk = Walk::begin(input[0]);
    assert(kept(input, 1, walk)) by {
        reveal(kept);
    }
    lemma_begin_sound(input[0]);
    lemma_search_faithful(policy, text, input, 1, walk, k);
}

/// A block with nothing but what stays of it as it comes: its id, its kind
/// and its bytes.
pub open spec fn stripped(block: Block) -> Block {
    Block { domain: Domain::Nil, status: Status::Unsigned, ..block }
}

/// The blocks that have bytes among the first `upto` of `blocks`, the root
/// aside, in their order, each stripped of slot and status.
pub open spec fn bearing(blocks: Seq<Block>, upto: int) -> Seq<Block>
    decreases upto,
{
    if upto <= 1 {
        Seq::empty()
    } else if blocks[upto - 1].bytes is Some {
        bearing(blocks, upto - 1).push(stripped(blocks[upto - 1]))
    } else {
        bearing(blocks, upto - 1)
    }
}

/// Whether every block behind the root that has no bytes is missing or a
/// portal.
pub open spec fn hollow_made_up(blocks: Seq<Block>) -> bool {
    forall|j: int|
        1 <= j < blocks.len() && (#[trigger] blocks[j]).bytes is None ==> blocks[j].status
            == Status::Missing || blocks[j].status is Portal
}

/// Whether `blocks` carry the first `at` blocks of `input`, whatever comes
/// with it: the root is the root of `input`; the blocks that have bytes are
/// those of `input`, in their order, with the id, the kind and the bytes they
/// came with, none dropped, moved or doubled; every other block behind the
/// root is missing or a portal; and there are no more tokens than `input`
/// has blocks behind its root.
pub open spec fn carries_to(input: Seq<Block>, at: int, blocks: Seq<Block>) -> bool {
    &&& blocks.len() >= 1
    &&& same_token(blocks[0], input[0])
    &&& bearing(blocks, blocks.len() as int) == bearing(input, at)
    &&& hollow_made_up(blocks)
    &&& tokens_before(blocks, blocks.len() as int) <= at - 1
}

/// Whether `blocks` carry all of `input` (see `carries_to`).
pub open spec fn carries(input: Seq<Block>, blocks: Seq<Block>) -> bool {
    carries_to(input, input.len() as int, blocks)
}

/// What holds of the blocks of a walk at every step of the search,
/// whatever comes with the header.
#[verifier::opaque]
pub open spec fn borne(input: Seq<Block>, at: int, walk: Walk) -> bool {
    carries_to(input, at, walk.out)
}

/// The blocks that have bytes go by id, kind and bytes alone.
pub proof fn lemma_bearing_same(a: Seq<Block>, b: Seq<Block>, upto: int)
    requires
        upto <= a.len(),
        upto <= b.len(),
        forall|j: int| 1 <= j < upto ==> same_token(a[j], b[j]),
    ensures
        bearing(a, upto) == bearing(b, upto),
    decreases upto,
{
    if upto > 1 {
        lemma_bearing_same(a, b, upto - 1);
        assert(stripped(a[upto - 1]) == stripped(b[upto - 1]));
    }
}

/// A walk carries on when one more block is laid out: the next block of the
/// input with its id, kind and bytes, as a token or made up as it came, or a
/// block that is made up without bytes. The blocks laid out before may
/// change their status as long as tokens stay tokens and made-up blocks stay
/// made up.
proof fn lemma_step_borne(input: Seq<Block>, at: int, walk: Walk, next: Walk, after: int)
    requires
        borne(input, at, walk),
        1 <= at <= input.len(),
        next.out.len() == walk.out.len() + 1,
        forall|j: int|
            0 <= j < walk.out.len() ==> same_token(#[trigger] next.out[j], walk.out[j])
                && is_token_block(next.out[j]) == is_token_block(walk.out[j]),
        ({
            let block = next.out[walk.out.len() as int];
            if after == at + 1 {
                &&& at < input.len()
                &&& same_token(block, input[at])
                &&& block.bytes is None ==> !is_token_block(block)
            } else {
                &&& after == at
                &&& block.bytes is None
                &&& !is_token_block(block)
            }
        }),
    ensures
        borne(input, after, next),
{
    reveal(borne);
    let n = walk.out.len() as int;
    lemma_tokens_before_same(walk.out, next.out, n);
    lemma_bearing_same(walk.out, next.out, n);
    assert(same_token(next.out[0], walk.out[0]));
    let block = next.out[n];
    if after == at + 1 {
        assert(stripped(block) == stripped(input[at]));
    }
    assert forall|j: int| 1 <= j < next.out.len() && (#[trigger] next.out[j]).bytes
        is None implies next.out[j].status == Status::Missing || next.out[j].status is Portal by {
        if j < n {
            assert(same_token(next.out[j], walk.out[j]));
            assert(walk.out[j].bytes is None);
        }
    }
}

/// Every candidate that the search finds from a walk that carries its blocks
/// carries all of the input.
pub proof fn lemma_search_carries(
    policy: KnownType,
    text: Seq<u8>,
    input: Seq<Block>,
    at: int,
    walk: Walk,
    k: int,
)
    requires
        borne(input, at, walk),
        sound(walk),
        1 <= at <= input.len(),
        0 <= k < search(policy, text, input, at, walk).len(),
        search(policy, text, input, at, walk)[k].blocks.len() <= usize::MAX,
    ensures
        carries(input, search(policy, text, input, at, walk)[k].blocks),
    decreases 7 - walk.slot.rank(), input.len() - at,
{
    let n = walk.out.len() as int;
    lemma_sound_within(walk);
    lemma_step_within(
        walk,
        policy,
        text,
        if 0 <= at < input.len() {
            input[at]
        } else {
            input[0]
        },
        match found_for(policy, text, input, at, walk.slot) {
            Some(found) => found,
            None => (Domain::Desc, Slot::Desc),
        },
    );
    if walk.slot != Slot::Desc && 0 <= at < input.len() && walk.awaits(input[at]) {
        let next = walk.take(input[at]);
        assert forall|j: int| 0 <= j < n implies same_token(#[trigger] next.out[j], walk.out[j])
            && is_token_block(next.out[j]) == is_token_block(walk.out[j]) by {}
        lemma_step_borne(input, at, walk, next, at + 1);
        lemma_room(policy, text, input, at + 1, walk, next, k);
        crate::soundness::lemma_take_sound(walk, input[at]);
        lemma_search_carries(policy, text, input, at + 1, next, k);
    } else if walk.slot == Slot::Desc {
        if at >= input.len() {
            reveal(borne);
        } else {
            let next = walk.absorb(policy, text, input[at]);
            assert(gated(walk, Domain::Type) && gated(walk, Domain::Colon) && gated(
                walk,
                Domain::Space,
            )) by {
                reveal(sound);
                assert(lane_kept(walk, Domain::Type));
                assert(lane_kept(walk, Domain::Colon));
                assert(lane_kept(walk, Domain::Space));
            }
            assert(next.out.len() == n + 1);
            assert(same_token(next.out[n], input[at]));
            assert forall|j: int| 0 <= j < n implies same_token(
                #[trigger] next.out[j],
                walk.out[j],
            ) && is_token_block(next.out[j]) == is_token_block(walk.out[j]) by {}
            lemma_step_borne(input, at, walk, next, at + 1);
            lemma_room(policy, text, input, at + 1, walk, next, k);
            lemma_absorb_sound(walk, policy, text, input[at]);
            lemma_search_carries(policy, text, input, at + 1, next, k);
        }
    } else {
        match found_for(policy, text, input, at, walk.slot) {
            Some(found) => {
                let next = walk.settle(input[at], found);
                assert forall|j: int| 0 <= j < n implies same_token(
                    #[trigger] next.out[j],
                    walk.out[j],
                ) && is_token_block(next.out[j]) == is_token_block(walk.out[j]) by {}
                lemma_step_borne(input, at, walk, next, at + 1);
                lemma_room(policy, text, input, at + 1, walk, next, k);
                lemma_settle_sound(walk, input[at], found);
                lemma_search_carries(policy, text, input, at + 1, next, k);
            },
            None => {
                let first = search(policy, text, input, at, walk.supply());
                if k < first.len() {
                    let next = walk.supply();
                    assert forall|j: int| 0 <= j < n implies same_token(
                        #[trigger] next.out[j],
                        walk.out[j],
                    ) && is_token_block(next.out[j]) == is_token_block(walk.out[j]) by {}
                    lemma_step_borne(input, at, walk, next, at);
                    lemma_room(policy, text, input, at, walk, next, k);
                    lemma_supply_sound(walk);
                    lemma_search_carries(policy, text, input, at, next, k);
                } else {
                    let next = walk.defer();
                    assert forall|j: int| 0 <= j < n implies same_token(
                        #[trigger] next.out[j],
                        walk.out[j],
                    ) && is_token_block(next.out[j]) == is_token_block(walk.out[j]) by {}
                    lemma_step_borne(input, at, walk, next, at);
                    lemma_room(policy, text, input, at, walk, next, k - first.len());
                    lemma_defer_sound(walk);
                    lemma_search_carries(policy, text, input, at, next, k - first.len());
                }
            },
        }
    }
}

/// Every candidate that the search returns carries the header it was given,
/// whatever comes with it. Its root is the root of the header. Its blocks
/// that have bytes are those of the header, in their order, with the id, the
/// kind and the bytes they came with: no token is dropped, moved or doubled.
/// Every other block behind the root is missing or a portal.
pub proof fn lemma_candidates_carry(policy: KnownType, text: Seq<u8>, input: Seq<Block>, k: int)
    requires
        0 <= k < solutions_of(policy, text, input).len(),
        solutions_of(policy, text, input)[k].blocks.len() <= usize::MAX,
    ensures
        carries(input, solutions_of(policy, text, input)[k].blocks),
{
    let walk = Walk::begin(input[0]);
    assert(borne(input, 1, walk)) by {
        reveal(borne);
    }
    lemma_begin_sound(input[0]);
    lemma_search_carries(policy, text, input, 1, walk, k);
}

/// The number of blocks of `input` from the `from`th on that come made up.
pub open spec fn made_up_from(input: Seq<Block>, from: int) -> nat
    decreases input.len() - from,
{
    if from < 0 || from >= input.len() {
        0
    } else if is_made_up(input[from]) {
        1 + made_up_from(input, from + 1)
    } else {
        made_up_from(input, from + 1)
    }
}

/// Every candidate that the search finds from a walk costs what the walk
/// has cost, and 1 at least for each block still to come that is made up.
pub proof fn lemma_search_charges(
    policy: KnownType,
    text: Seq<u8>,
    input: Seq<Block>,
    at: int,
    walk: Walk,
    k: int,
)
    requires
        0 <= at,
        0 <= k < search(policy, text, input, at, walk).len(),
    ensures
        search(policy, text, input, at, walk)[k].weight >= walk.weight + made_up_from(input, at),
    decreases 7 - walk.slot.rank(), input.len() - at,
{
    if walk.slot != Slot::Desc && 0 <= at < input.len() && walk.awaits(input[at]) {
        lemma_search_charges(policy, text, input, at + 1, walk.take(input[at]), k);
    } else if walk.slot == Slot::Desc {
        if at >= input.len() {
        } else {
            lemma_search_charges(policy, text, input, at + 1, walk.absorb(policy, text, input[at]), k);
        }
    } else {
        match found_for(policy, text, input, at, walk.slot) {
            Some(found) => {
                lemma_search_charges(policy, text, input, at + 1, walk.settle(input[at], found), k);
            },
            None => {
                let first = search(policy, text, input, at, walk.supply());
                if k < first.len() {
                    lemma_search_charges(policy, text, input, at, walk.supply(), k);
                } else {
                    lemma_search_charges(policy, text, input, at, walk.defer(), k - first.len());
                }
            },
        }
    }
}

/// A block that comes made up is never had for nothing: every candidate
/// that the search returns costs 1 at least for each block behind the root
/// that came made up.
pub proof fn lemma_made_up_costs(policy: KnownType, text: Seq<u8>, input: Seq<Block>, k: int)
    requires
        0 <= k < solutions_of(policy, text, input).len(),
    ensures
        solutions_of(policy, text, input)[k].weight >= made_up_from(input, 1),
{
    lemma_search_charges(policy, text, input, 1, Walk::begin(input[0]), k);
}

} // verus!
