use vstd::prelude::*;
use crate::analyze_header::{
    choice, fills, found_for, is_best, is_made_up, lemma_one_best, search, solutions_of, Alignment,
    Portals, Slot, Walk,
};
use crate::block::{is_token_block, Block, Status};
use crate::config::KnownType;
use crate::domain::Domain;
use crate::find_header_issues::{
    bare, holds, issues_in, lemma_first_seat, lemma_seat, report, seats, spot_in, tokens_before,
    vacant, Spot, Trail,
};
use crate::issue::{Issue, IssueSubject};
use crate::order::{filled, laid_out, lemma_candidates_laid_out};
use crate::analyze_header::{cost, price};
use crate::soundness::{accepted, lemma_candidates_accepted};

verus! {

/// No candidate costs less than the walk it was found from.
pub proof fn lemma_weight_grows(
    policy: KnownType,
    text: Seq<u8>,
    input: Seq<Block>,
    at: int,
    walk: Walk,
    k: int,
)
    requires
        0 <= k < search(policy, text, input, at, walk).len(),
    ensures
        search(policy, text, input, at, walk)[k].weight >= walk.weight,
    decreases 7 - walk.slot.rank(), input.len() - at,
{
    if walk.slot != Slot::Desc && 0 <= at < input.len() && walk.awaits(input[at]) {
        lemma_weight_grows(policy, text, input, at + 1, walk.take(input[at]), k);
    } else if walk.slot == Slot::Desc {
        if at < 0 || at >= input.len() {
        } else {
            lemma_weight_grows(policy, text, input, at + 1, walk.absorb(policy, text, input[at]), k);
        }
    } else {
        match found_for(policy, text, input, at, walk.slot) {
            Some(found) => {
                lemma_weight_grows(policy, text, input, at + 1, walk.settle(input[at], found), k);
            },
            None => {
                let first = search(policy, text, input, at, walk.supply());
                if k < first.len() {
                    lemma_weight_grows(policy, text, input, at, walk.supply(), k);
                } else {
                    lemma_weight_grows(policy, text, input, at, walk.defer(), k - first.len());
                }
            },
        }
    }
}

/// A candidate that costs no more than the walk it was found from, a walk
/// without portals, holds the blocks of that walk unchanged, and behind them
/// one block for each block of the input that was left.
pub proof fn lemma_free_keeps(
    policy: KnownType,
    text: Seq<u8>,
    input: Seq<Block>,
    at: int,
    walk: Walk,
    k: int,
)
    requires
        0 <= at <= input.len(),
        walk.portals == Portals::spec_none(),
        0 <= k < search(policy, text, input, at, walk).len(),
        search(policy, text, input, at, walk)[k].weight == walk.weight,
    ensures
        search(policy, text, input, at, walk)[k].blocks.len() == walk.out.len() + input.len() - at,
        forall|i: int|
            0 <= i < walk.out.len() ==> search(policy, text, input, at, walk)[k].blocks[i]
                == #[trigger] walk.out[i],
    decreases 7 - walk.slot.rank(), input.len() - at,
{
    if walk.slot != Slot::Desc && 0 <= at < input.len() && walk.awaits(input[at]) {
        lemma_weight_grows(policy, text, input, at + 1, walk.take(input[at]), k);
    } else if walk.slot == Slot::Desc {
        if at >= input.len() {
        } else {
            let next = walk.absorb(policy, text, input[at]);
            lemma_weight_grows(policy, text, input, at + 1, next, k);
            lemma_free_keeps(policy, text, input, at + 1, next, k);
            assert forall|i: int| 0 <= i < walk.out.len() implies search(
                policy,
                text,
                input,
                at,
                walk,
            )[k].blocks[i] == #[trigger] walk.out[i] by {
                assert(next.out[i] == walk.out[i]);
            }
        }
    } else {
        match found_for(policy, text, input, at, walk.slot) {
            Some(found) => {
                let next = walk.settle(input[at], found);
                lemma_free_keeps(policy, text, input, at + 1, next, k);
                assert forall|i: int| 0 <= i < walk.out.len() implies search(
                    policy,
                    text,
                    input,
                    at,
                    walk,
                )[k].blocks[i] == #[trigger] walk.out[i] by {
                    assert(next.out[i] == walk.out[i]);
                }
            },
            None => {
                let first = search(policy, text, input, at, walk.supply());
                if k < first.len() {
                    lemma_weight_grows(policy, text, input, at, walk.supply(), k);
                } else {
                    lemma_weight_grows(policy, text, input, at, walk.defer(), k - first.len());
                }
            },
        }
    }
}

/// What fills a slot still fills it once it has been settled there.
pub proof fn lemma_settled_fills(
    policy: KnownType,
    text: Seq<u8>,
    block: Block,
    slot: Slot,
    found: (Domain, Slot),
)
    requires
        fills(policy, text, block, slot) == Some(found),
    ensures
        fills(policy, text, Block { domain: found.0, status: Status::Settled, ..block }, slot)
            == Some(found),
{
}

/// The search finds a candidate that costs nothing more again, and nothing
/// else, when it is run on the blocks of that candidate: `again` stands for
/// those blocks from the block `at` on.
pub proof fn lemma_free_again(
    policy: KnownType,
    text: Seq<u8>,
    input: Seq<Block>,
    again: Seq<Block>,
    at: int,
    walk: Walk,
    k: int,
)
    requires
        0 <= at <= input.len(),
        at == walk.out.len(),
        walk.portals == Portals::spec_none(),
        0 <= k < search(policy, text, input, at, walk).len(),
        search(policy, text, input, at, walk)[k].weight == walk.weight,
        again.len() == input.len(),
        forall|i: int|
            at <= i < input.len() ==> #[trigger] again[i] == search(policy, text, input, at, walk)[k].blocks[i],
    ensures
        search(policy, text, again, at, walk) == seq![search(policy, text, input, at, walk)[k]],
    decreases 7 - walk.slot.rank(), input.len() - at,
{
    let found_once = search(policy, text, input, at, walk)[k];
    if walk.slot != Slot::Desc && 0 <= at < input.len() && walk.awaits(input[at]) {
        lemma_weight_grows(policy, text, input, at + 1, walk.take(input[at]), k);
    } else if walk.slot == Slot::Desc {
        if at >= input.len() {
        } else {
            let next = walk.absorb(policy, text, input[at]);
            lemma_weight_grows(policy, text, input, at + 1, next, k);
            lemma_free_keeps(policy, text, input, at + 1, next, k);
            assert(found_once.blocks[at] == next.out[at]);
            assert(walk.absorb(policy, text, again[at]) == next);
            lemma_free_again(policy, text, input, again, at + 1, next, k);
        }
    } else {
        match found_for(policy, text, input, at, walk.slot) {
            Some(found) => {
                let next = walk.settle(input[at], found);
                lemma_free_keeps(policy, text, input, at + 1, next, k);
                assert(found_once.blocks[at] == next.out[at]);
                lemma_settled_fills(policy, text, input[at], walk.slot, found);
                assert(!is_made_up(again[at]));
                assert(!walk.awaits(again[at]));
                assert(found_for(policy, text, again, at, walk.slot) == Some(found));
                assert(walk.settle(again[at], found) == next);
                lemma_free_again(policy, text, input, again, at + 1, next, k);
            },
            None => {
                let first = search(policy, text, input, at, walk.supply());
                if k < first.len() {
                    lemma_weight_grows(policy, text, input, at, walk.supply(), k);
                } else {
                    lemma_weight_grows(policy, text, input, at, walk.defer(), k - first.len());
                }
            },
        }
    }
}

/// Running the engine on the blocks of a candidate that costs nothing gives
/// that candidate again, and no other: it is the one that is chosen, and it
/// still costs nothing.
pub proof fn lemma_settled_stays(policy: KnownType, text: Seq<u8>, input: Seq<Block>, k: int)
    requires
        0 <= k < solutions_of(policy, text, input).len(),
        solutions_of(policy, text, input)[k].weight == 0,
    ensures
        solutions_of(policy, text, solutions_of(policy, text, input)[k].blocks) == seq![
            solutions_of(policy, text, input)[k],
        ],
        choice(solutions_of(policy, text, solutions_of(policy, text, input)[k].blocks))
            == solutions_of(policy, text, input)[k].blocks,
{
    let found = solutions_of(policy, text, input)[k];
    let walk = Walk::begin(input[0]);
    lemma_free_keeps(policy, text, input, 1, walk, k);
    assert(found.blocks[0] == walk.out[0]);
    assert(Walk::begin(found.blocks[0]) == walk) by {
        assert(Walk::begin(found.blocks[0]).out =~= walk.out);
    }
    lemma_free_again(policy, text, input, found.blocks, 1, walk, k);
    let all = solutions_of(policy, text, found.blocks);
    assert(all == seq![found]);
    assert(is_best(all, 0));
    lemma_one_best(all, 0, choose|k: int| is_best(all, k));
}

/// Blocks that cost nothing together cost nothing each.
pub proof fn lemma_cost_nothing(blocks: Seq<Block>, upto: int, j: int)
    requires
        cost(blocks, upto) == 0,
        0 <= j < upto,
    ensures
        price(blocks[j]) == 0,
    decreases upto,
{
    if j < upto - 1 {
        lemma_cost_nothing(blocks, upto - 1, j);
    }
}

/// Whether every one of `blocks` is settled.
pub open spec fn all_settled(blocks: Seq<Block>) -> bool {
    forall|j: int| 0 <= j < blocks.len() ==> (#[trigger] blocks[j]).status == Status::Settled
}

/// In a candidate that costs nothing every block is settled.
pub proof fn lemma_free_is_settled(found: Alignment)
    requires
        accepted(found),
        found.weight == 0,
    ensures
        all_settled(found.blocks),
{
    let blocks = found.blocks;
    assert forall|j: int| 0 <= j < blocks.len() implies (#[trigger] blocks[j]).status
        == Status::Settled by {
        lemma_cost_nothing(blocks, blocks.len() as int, j);
        if let Status::Ref(from) = blocks[j].status {
            assert(blocks[from as int].status == Status::Portal(Some(j as usize)));
            lemma_cost_nothing(blocks, blocks.len() as int, from as int);
        }
    }
}

/// Where every block is settled, every block but the root is a token, and
/// they count up one by one.
pub proof fn lemma_settled_tokens(blocks: Seq<Block>, upto: int)
    requires
        all_settled(blocks),
        1 <= upto <= blocks.len(),
    ensures
        tokens_before(blocks, upto) == upto - 1,
    decreases upto,
{
    if upto > 1 {
        lemma_settled_tokens(blocks, upto - 1);
        assert(is_token_block(blocks[upto - 1]));
    }
}

/// Among settled blocks a slot that is filled has a first block settled in
/// it.
proof fn lemma_filled_seat(blocks: Seq<Block>, slot: Domain) -> (at: int)
    requires
        all_settled(blocks),
        filled(blocks, slot),
        slot != Domain::Desc,
    ensures
        seats(blocks, slot, at),
{
    let j = choose|j: int|
        1 <= j < blocks.len() && (#[trigger] blocks[j]).domain == slot && (blocks[j].status
            == Status::Settled || blocks[j].status == Status::Missing
            || blocks[j].status is Portal);
    lemma_first_seat(blocks, slot, j)
}

/// A header whose blocks are all settled, in the order of the grammar, with
/// a type, a colon, a space and a description, has no issue.
pub proof fn lemma_settled_silent(blocks: Seq<Block>)
    requires
        1 <= blocks.len() <= usize::MAX,
        all_settled(blocks),
        laid_out(blocks),
        !vacant(blocks, Domain::Desc),
    ensures
        issues_in(blocks) == Seq::<Issue>::empty(),
{
    let t = lemma_filled_seat(blocks, Domain::Type);
    let c = lemma_filled_seat(blocks, Domain::Colon);
    let s = lemma_filled_seat(blocks, Domain::Space);
    let some = choose|j: int| 1 <= j < blocks.len() && holds(#[trigger] blocks[j], Domain::Desc);
    let d = lemma_first_seat(blocks, Domain::Desc, some);
    lemma_settled_tokens(blocks, t);
    lemma_settled_tokens(blocks, c);
    lemma_settled_tokens(blocks, s);
    lemma_settled_tokens(blocks, d);
    // The four stand in the order of the grammar.
    assert(t < c) by {
        if c < t {
            assert(blocks[c].domain.rank() <= blocks[t].domain.rank());
        }
    }
    assert(c < s) by {
        if s < c {
            assert(blocks[s].domain.rank() <= blocks[c].domain.rank());
        }
    }
    assert(s < d) by {
        if d < s {
            assert(blocks[d].domain.rank() <= blocks[s].domain.rank());
        }
    }
    let kind = Some(Spot { token: (t - 1) as usize, moved: false });
    let colon = Some(Spot { token: (c - 1) as usize, moved: false });
    let space = Some(Spot { token: (s - 1) as usize, moved: false });
    let desc = Some(Spot { token: (d - 1) as usize, moved: false });
    lemma_seat(blocks, Domain::Type, t);
    lemma_seat(blocks, Domain::Colon, c);
    lemma_seat(blocks, Domain::Space, s);
    lemma_seat(blocks, Domain::Desc, d);
    assert(spot_in(blocks, Domain::Type) == kind);
    assert(spot_in(blocks, Domain::Colon) == colon);
    assert(spot_in(blocks, Domain::Space) == space);
    assert(spot_in(blocks, Domain::Desc) == desc);
    let t1 = Trail::begin().judge(IssueSubject::Type, kind);
    let t2 = t1.judge(IssueSubject::Colon, colon);
    let t3 = t2.judge(IssueSubject::Space, space);
    let t4 = t3.judge(IssueSubject::Desc, desc);
    assert(t4.issues =~= Seq::<Issue>::empty());
    assert(!bare(blocks)) by {
        assert(holds(blocks[d], Domain::Desc) && is_token_block(blocks[d]));
    }
    assert(report(false, kind, colon, space, desc) == Seq::<Issue>::empty());
}

/// Running the engine once more on a header that it has settled in full
/// changes nothing and finds nothing to report.
///
/// The header is that of a candidate the search has returned, one that costs
/// nothing, so that all of its blocks are settled. The search on those
/// blocks returns that candidate and no other, at no cost; and if the header
/// has a description, no issue is reported for it. (A header that stops at
/// the space is settled in full and still has one issue: its description is
/// missing.)
pub proof fn lemma_settled_header_is_stable(
    policy: KnownType,
    text: Seq<u8>,
    input: Seq<Block>,
    k: int,
)
    requires
        0 <= k < solutions_of(policy, text, input).len(),
        solutions_of(policy, text, input)[k].weight == 0,
        solutions_of(policy, text, input)[k].blocks.len() <= usize::MAX,
    ensures
        all_settled(solutions_of(policy, text, input)[k].blocks),
        solutions_of(policy, text, solutions_of(policy, text, input)[k].blocks) == seq![
            solutions_of(policy, text, input)[k],
        ],
        choice(solutions_of(policy, text, solutions_of(policy, text, input)[k].blocks))
            == solutions_of(policy, text, input)[k].blocks,
        !vacant(solutions_of(policy, text, input)[k].blocks, Domain::Desc) ==> issues_in(
            choice(solutions_of(policy, text, solutions_of(policy, text, input)[k].blocks)),
        ) == Seq::<Issue>::empty(),
{
    let found = solutions_of(policy, text, input)[k];
    lemma_settled_stays(policy, text, input, k);
    lemma_candidates_accepted(policy, text, input, k);
    lemma_candidates_laid_out(policy, text, input, k);
    lemma_free_is_settled(found);
    if !vacant(found.blocks, Domain::Desc) {
        lemma_settled_silent(found.blocks);
    }
}

} // verus!
