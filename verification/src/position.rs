use vstd::prelude::*;
use crate::block::{is_token_block, Block};
use crate::faithful::{faithful, same_token, true_to};
use crate::find_header_issues::{
    id_of_token, is_token_at, lemma_tokens_before_grows, tokens_before,
};
use crate::weak_commit::parse_header::STRIDE;

verus! {

/// The id of a block, 0 for a block without one.
pub open spec fn id_of(block: Block) -> int {
    match block.id {
        Some(id) => id as int,
        None => 0,
    }
}

/// The index of the last token at or before the block `at`; 0 when there is
/// none.
pub open spec fn token_before(blocks: Seq<Block>, at: int) -> int
    decreases at,
{
    if at <= 0 {
        0
    } else if is_token_block(blocks[at]) {
        at
    } else {
        token_before(blocks, at - 1)
    }
}

/// The index of the first token at or behind the block `at`; the number of
/// blocks when there is none.
pub open spec fn token_behind(blocks: Seq<Block>, at: int) -> int
    decreases blocks.len() - at,
{
    if at >= blocks.len() {
        blocks.len() as int
    } else if is_token_block(blocks[at]) {
        at
    } else {
        token_behind(blocks, at + 1)
    }
}

/// The id that the made-up block `at` has to stay above: that of the token
/// before it.
pub open spec fn low(blocks: Seq<Block>, at: int) -> int {
    id_of(blocks[token_before(blocks, at)])
}

/// The id that the made-up block `at` has to stay below: that of the token
/// behind it, or, when no token follows, the id that a token there would
/// have.
pub open spec fn high(blocks: Seq<Block>, at: int) -> int {
    if token_behind(blocks, at) < blocks.len() {
        id_of(blocks[token_behind(blocks, at)])
    } else {
        low(blocks, at) + STRIDE
    }
}

/// The distance between the ids of two made-up blocks that follow each
/// other, around the block `at`: the room between the tokens on both sides,
/// shared out evenly over the made-up blocks between them and rounded down.
pub open spec fn step(blocks: Seq<Block>, at: int) -> int {
    (high(blocks, at) - low(blocks, at)) / (token_behind(blocks, at) - token_before(blocks, at))
}

/// The place of the block `at` in the order of all blocks: a token has its
/// id; the `n`th of `k` made-up blocks between the ids `low` and `high` has
/// `low + (high - low) / (k + 1) * n`.
pub open spec fn position(blocks: Seq<Block>, at: int) -> int {
    if is_token_block(blocks[at]) {
        id_of(blocks[at])
    } else {
        low(blocks, at) + step(blocks, at) * (at - token_before(blocks, at))
    }
}

/// Whether the block `at` can be given its place: a token has an id, and a
/// made-up block stands behind some token, with room for a whole step and,
/// at the end of the header, for the id that a token there would have.
pub open spec fn placeable(blocks: Seq<Block>, at: int) -> bool {
    if is_token_block(blocks[at]) {
        blocks[at].id is Some
    } else {
        &&& is_token_block(blocks[token_before(blocks, at)])
        &&& step(blocks, at) >= 1
        &&& high(blocks, at) <= usize::MAX
    }
}

/// Whether the ids of the tokens go up from one token to the next.
pub open spec fn rising(blocks: Seq<Block>) -> bool {
    forall|i: int, j: int|
        0 <= i < j < blocks.len() && is_token_block(#[trigger] blocks[i]) && is_token_block(
            #[trigger] blocks[j],
        ) ==> id_of(blocks[i]) < id_of(blocks[j])
}

/// Whether all of `blocks` can be given a place.
pub open spec fn fits(blocks: Seq<Block>) -> bool {
    &&& rising(blocks)
    &&& forall|at: int| 0 <= at < blocks.len() ==> #[trigger] placeable(blocks, at)
}

/// `blocks`, each with its place as its id.
pub open spec fn placed(blocks: Seq<Block>) -> Seq<Block> {
    Seq::new(
        blocks.len(),
        |at: int| Block { id: Some(position(blocks, at) as usize), ..blocks[at] },
    )
}

/// Whether every one of `blocks` has an id, and the ids go up from block to
/// block.
pub open spec fn ascending(blocks: Seq<Block>) -> bool {
    &&& forall|at: int| 0 <= at < blocks.len() ==> (#[trigger] blocks[at]).id is Some
    &&& forall|i: int, j: int|
        0 <= i < j < blocks.len() ==> id_of(#[trigger] blocks[i]) < id_of(#[trigger] blocks[j])
}

/// Blocks whose ids go up stand in the order of all blocks: each comes
/// before every one behind it.
pub proof fn lemma_ascending_in_order(blocks: Seq<Block>, i: int, j: int)
    requires
        ascending(blocks),
        0 <= i < j < blocks.len(),
    ensures
        blocks[i].before(blocks[j]),
        !blocks[j].before(blocks[i]),
{
}

/// Across made-up blocks the token before stays the same.
proof fn lemma_token_before_run(blocks: Seq<Block>, from: int, at: int)
    requires
        0 <= from <= at < blocks.len(),
        forall|i: int| from < i <= at ==> !is_token_block(#[trigger] blocks[i]),
    ensures
        token_before(blocks, at) == token_before(blocks, from),
    decreases at - from,
{
    if from < at {
        lemma_token_before_run(blocks, from, at - 1);
    }
}

/// Across made-up blocks the token behind stays the same.
proof fn lemma_token_behind_run(blocks: Seq<Block>, at: int, to: int)
    requires
        0 <= at <= to <= blocks.len(),
        forall|i: int| at <= i < to ==> !is_token_block(#[trigger] blocks[i]),
    ensures
        token_behind(blocks, at) == token_behind(blocks, to),
    decreases to - at,
{
    if at < to {
        lemma_token_behind_run(blocks, at + 1, to);
    }
}

/// Whole steps stay within the room they were cut from.
pub proof fn lemma_steps(room: int, parts: int, n: int)
    requires
        room >= 0,
        parts >= 1,
        0 <= n <= parts,
    ensures
        0 <= (room / parts) * n <= room,
        n < parts && room / parts >= 1 ==> (room / parts) * n < room,
        n >= 1 ==> (room / parts) * (n - 1) + room / parts == (room / parts) * n,
{
    let step = room / parts;
    assert(step * parts <= room) by (nonlinear_arith)
        requires
            step == room / parts,
            room >= 0,
            parts >= 1,
    ;
    assert(step >= 0) by (nonlinear_arith)
        requires
            step == room / parts,
            room >= 0,
            parts >= 1,
    ;
    assert(0 <= step * n <= step * parts) by (nonlinear_arith)
        requires
            step >= 0,
            0 <= n <= parts,
    ;
    if n < parts && step >= 1 {
        assert(step * n < step * parts) by (nonlinear_arith)
            requires
                step >= 1,
                0 <= n < parts,
        ;
    }
    if n >= 1 {
        assert(step * (n - 1) + step == step * n) by (nonlinear_arith);
    }
}

/// Whether `input` has the ids that a tokenizer gives: the root 0, the `n`th
/// token `n * STRIDE`, with room for a stride behind the last.
pub open spec fn numbered(input: Seq<Block>) -> bool {
    &&& input.len() >= 1
    &&& input.len() * STRIDE <= usize::MAX
    &&& forall|n: int|
        0 <= n < input.len() ==> (#[trigger] input[n]).id == Some((n * STRIDE) as usize)
}

/// How many of the first `upto` of `blocks` stand for tokens, the root among
/// them.
pub open spec fn tokens_among(blocks: Seq<Block>, upto: int) -> int {
    if upto <= 0 {
        0
    } else {
        tokens_before(blocks, upto) as int + 1
    }
}

/// In a layout of a numbered input a token has the id that its place among
/// the tokens gives it.
pub proof fn lemma_token_id(input: Seq<Block>, blocks: Seq<Block>, j: int)
    requires
        numbered(input),
        faithful(input, blocks),
        0 <= j < blocks.len(),
        is_token_block(blocks[j]),
    ensures
        blocks[j].id is Some,
        id_of(blocks[j]) == tokens_among(blocks, j) * STRIDE,
        0 <= tokens_among(blocks, j) < input.len(),
{
    if j >= 1 {
        assert(true_to(input, blocks, j));
        assert(tokens_before(blocks, j + 1) == tokens_before(blocks, j) + 1);
        lemma_tokens_before_grows(blocks, j + 1, blocks.len() as int);
    }
}

/// In a layout of a header that was numbered by the tokenizer the block of
/// every token carries the id of that token: the number by which issues name
/// a token and the id of its block are two names for one token.
pub proof fn lemma_token_carries_id(input: Seq<Block>, blocks: Seq<Block>, token: nat, at: int)
    requires
        numbered(input),
        faithful(input, blocks),
        is_token_at(blocks, token, at),
    ensures
        blocks[at].id == Some(id_of_token(token) as usize),
        id_of_token(token) <= usize::MAX,
        same_token(blocks[at], input[token as int + 1]),
{
    lemma_token_id(input, blocks, at);
    assert(true_to(input, blocks, at));
}

/// What lies between a made-up block and the token before it: made-up
/// blocks only, which leave the number of tokens as it is.
proof fn lemma_token_before(blocks: Seq<Block>, j: int)
    requires
        0 <= j < blocks.len(),
        is_token_block(blocks[0]),
    ensures
        0 <= token_before(blocks, j) <= j,
        is_token_block(blocks[token_before(blocks, j)]),
        tokens_among(blocks, j + 1) == tokens_among(blocks, token_before(blocks, j)) + 1,
        j + 1 - tokens_among(blocks, j + 1) >= token_before(blocks, j) + 1 - tokens_among(
            blocks,
            token_before(blocks, j) + 1,
        ) + (j - token_before(blocks, j)),
    decreases j,
{
    if j > 0 && !is_token_block(blocks[j]) {
        lemma_token_before(blocks, j - 1);
    }
}

/// What lies between a made-up block and the token behind it: made-up
/// blocks only, which leave the number of tokens as it is.
proof fn lemma_token_behind(blocks: Seq<Block>, j: int)
    requires
        1 <= j <= blocks.len(),
    ensures
        j <= token_behind(blocks, j) <= blocks.len(),
        token_behind(blocks, j) < blocks.len() ==> is_token_block(
            blocks[token_behind(blocks, j)],
        ),
        tokens_among(blocks, token_behind(blocks, j)) == tokens_among(blocks, j),
    decreases blocks.len() - j,
{
    if j < blocks.len() && !is_token_block(blocks[j]) {
        lemma_token_behind(blocks, j + 1);
    }
}

/// The blocks that are made up among the first `upto` are no more than
/// those among all.
proof fn lemma_made_up_grows(blocks: Seq<Block>, from: int, to: int)
    requires
        1 <= from <= to <= blocks.len(),
    ensures
        from - tokens_among(blocks, from) <= to - tokens_among(blocks, to),
    decreases to - from,
{
    if from < to {
        lemma_made_up_grows(blocks, from, to - 1);
    }
}

/// Every layout that the search finds for a header that was numbered by the
/// tokenizer can be given its places: between two tokens, and behind the
/// last, there is a stride of ids for at most 7 blocks.
pub proof fn lemma_layout_fits(input: Seq<Block>, blocks: Seq<Block>)
    requires
        numbered(input),
        faithful(input, blocks),
    ensures
        fits(blocks),
{
    let len = blocks.len() as int;
    assert(rising(blocks)) by {
        assert forall|i: int, j: int|
            0 <= i < j < blocks.len() && is_token_block(#[trigger] blocks[i]) && is_token_block(
                #[trigger] blocks[j],
            ) implies id_of(blocks[i]) < id_of(blocks[j]) by {
            lemma_token_id(input, blocks, i);
            lemma_token_id(input, blocks, j);
            lemma_tokens_before_grows(blocks, i + 1, j);
            assert(tokens_among(blocks, i) < tokens_among(blocks, j));
            assert(tokens_among(blocks, i) * STRIDE < tokens_among(blocks, j) * STRIDE)
                by (nonlinear_arith)
                requires
                    tokens_among(blocks, i) < tokens_among(blocks, j),
            ;
        }
    }
    assert forall|at: int| 0 <= at < blocks.len() implies #[trigger] placeable(blocks, at) by {
        if is_token_block(blocks[at]) {
            lemma_token_id(input, blocks, at);
        } else {
            let before = token_before(blocks, at);
            let behind = token_behind(blocks, at);
            lemma_token_before(blocks, at);
            lemma_token_behind(blocks, at);
            lemma_token_id(input, blocks, before);
            assert(before < at);
            // The blocks from `before + 1` up to `behind` are made up, and
            // there are 7 of them at most.
            lemma_made_up_grows(blocks, 1, before + 1);
            lemma_made_up_grows(blocks, before + 1, at + 1);
            lemma_made_up_grows(blocks, at + 1, behind);
            lemma_made_up_grows(blocks, behind, len);
            assert(tokens_among(blocks, len) == input.len());
            assert(tokens_among(blocks, behind) == tokens_among(blocks, before) + 1);
            let parts = behind - before;
            assert(1 <= parts <= 8);
            let low = tokens_among(blocks, before) * STRIDE;
            assert(low == crate::position::low(blocks, at));
            assert(high(blocks, at) == low + STRIDE) by {
                if behind < len {
                    lemma_token_id(input, blocks, behind);
                    assert((tokens_among(blocks, before) + 1) * STRIDE == low + STRIDE)
                        by (nonlinear_arith)
                        requires
                            low == tokens_among(blocks, before) * STRIDE,
                    ;
                }
            }
            assert(low + STRIDE <= input.len() * STRIDE) by (nonlinear_arith)
                requires
                    low == tokens_among(blocks, before) * STRIDE,
                    tokens_among(blocks, before) < input.len(),
            ;
            assert(STRIDE as int / parts >= 1) by (nonlinear_arith)
                requires
                    1 <= parts <= 8,
                    STRIDE == 1000,
            ;
        }
    }
}

/// Gives every block its place in the order of all blocks, as its id: a
/// token keeps the id it has, and the made-up blocks between two tokens
/// share the ids between those of the two evenly; behind the last token they
/// share the ids up to the one that a further token would have. No id that
/// was there before is changed.
///
/// The result has the blocks in their order, with ids that go up from block
/// to block. There is none when the blocks do not fit: a token has no id,
/// the ids of the tokens do not go up, a made-up block stands before every
/// token, or there are more made-up blocks between two tokens than ids.
pub fn project(blocks: &Vec<Block>) -> (r: Option<Vec<Block>>)
    ensures
        match r {
            Some(out) => fits(blocks@) && out@ == placed(blocks@) && ascending(out@),
            None => !fits(blocks@),
        },
{
    let mut out: Vec<Block> = Vec::new();
    let mut at: usize = 0;
    // The id of the last token, once there is one.
    let mut last: Option<usize> = None;
    while at < blocks.len()
        invariant
            at <= blocks@.len(),
            out@.len() == at,
            at > 0 ==> last is Some,
            at == 0 ==> last is None,
            forall|i: int| 0 <= i < at ==> #[trigger] placeable(blocks@, i),
            forall|i: int|
                0 <= i < at ==> #[trigger] out@[i] == (Block {
                    id: Some(position(blocks@, i) as usize),
                    ..blocks@[i]
                }),
            forall|i: int| 0 <= i < at ==> 0 <= #[trigger] position(blocks@, i) <= usize::MAX,
            forall|i: int, j: int|
                0 <= i < j < at ==> #[trigger] position(blocks@, i) < #[trigger] position(blocks@, j),
            forall|i: int, j: int|
                0 <= i < j < at && is_token_block(#[trigger] blocks@[i]) && is_token_block(
                    #[trigger] blocks@[j],
                ) ==> id_of(blocks@[i]) < id_of(blocks@[j]),
            at > 0 ==> is_token_block(blocks@[at - 1]),
            at > 0 ==> last == Some(id_of(blocks@[at - 1]) as usize) && blocks@[at - 1].id is Some,
            forall|i: int| 0 <= i < at ==> #[trigger] position(blocks@, i) <= id_of(blocks@[at - 1]),
        decreases blocks@.len() - at,
    {
        let block = blocks[at];
        if block.is_token() {
            let id = match block.id {
                Some(id) => id,
                None => {
                    assert(!placeable(blocks@, at as int));
                    return None;
                },
            };
            match last {
                Some(before) => {
                    if id <= before {
                        assert(!rising(blocks@)) by {
                            assert(is_token_block(blocks@[at - 1]) && is_token_block(blocks@[at as int]));
                        }
                        return None;
                    }
                },
                None => {},
            }
            out.push(block);
            last = Some(id);
            at = at + 1;
        } else {
            let low = match last {
                Some(low) => low,
                None => {
                    assert(!placeable(blocks@, at as int));
                    return None;
                },
            };
            let from = at - 1;
            let mut end: usize = at + 1;
            while end < blocks.len() && !blocks[end].is_token()
                invariant
                    at < end <= blocks@.len(),
                    forall|i: int| at <= i < end ==> !is_token_block(#[trigger] blocks@[i]),
                decreases blocks@.len() - end,
            {
                end = end + 1;
            }
            let parts = end - from;
            proof {
                lemma_token_behind_run(blocks@, at as int, end as int);
                assert(token_behind(blocks@, end as int) == end);
                assert forall|i: int| at <= i < end implies token_before(blocks@, i) == from
                    && token_behind(blocks@, i) == end by {
                    lemma_token_before_run(blocks@, from as int, i);
                    lemma_token_behind_run(blocks@, i, end as int);
                }
            }
            let high: usize = if end < blocks.len() {
                match blocks[end].id {
                    Some(id) => id,
                    None => {
                        assert(!placeable(blocks@, end as int));
                        return None;
                    },
                }
            } else {
                if low > usize::MAX - STRIDE {
                    assert(!placeable(blocks@, at as int));
                    return None;
                }
                low + STRIDE
            };
            assert(high == crate::position::high(blocks@, at as int));
            assert(low == crate::position::low(blocks@, at as int));
            if high <= low {
                proof {
                    if end < blocks@.len() {
                        assert(!rising(blocks@)) by {
                            assert(is_token_block(blocks@[from as int]) && is_token_block(
                                blocks@[end as int],
                            ));
                        }
                    }
                }
                return None;
            }
            let step = (high - low) / parts;
            if step == 0 {
                assert(!placeable(blocks@, at as int));
                return None;
            }
            let ghost done = at;
            let mut n: usize = 1;
            while at < end
                invariant
                    done <= at <= end <= blocks@.len(),
                    from + 1 == done,
                    n == at - from,
                    parts == end - from,
                    low < high,
                    step == (high - low) / (parts as int),
                    step >= 1,
                    out@.len() == at,
                    last == Some(low),
                    low == id_of(blocks@[from as int]),
                    is_token_block(blocks@[from as int]),
                    high == crate::position::high(blocks@, done as int),
                    low == crate::position::low(blocks@, done as int),
                    forall|i: int|
                        done <= i < end ==> !is_token_block(#[trigger] blocks@[i]) && token_before(
                            blocks@,
                            i,
                        ) == from && token_behind(blocks@, i) == end,
                    forall|i: int| 0 <= i < at ==> #[trigger] placeable(blocks@, i),
                    forall|i: int|
                        0 <= i < at ==> #[trigger] out@[i] == (Block {
                            id: Some(position(blocks@, i) as usize),
                            ..blocks@[i]
                        }),
                    forall|i: int| 0 <= i < at ==> 0 <= #[trigger] position(blocks@, i) <= usize::MAX,
                    forall|i: int, j: int|
                        0 <= i < j < at ==> #[trigger] position(blocks@, i) < #[trigger] position(
                            blocks@,
                            j,
                        ),
                    forall|i: int| 0 <= i < done ==> #[trigger] position(blocks@, i) <= low,
                    forall|i: int|
                        done <= i < at ==> #[trigger] position(blocks@, i) == low + step * (i - from),
                    forall|i: int, j: int|
                        0 <= i < j < done && is_token_block(#[trigger] blocks@[i]) && is_token_block(
                            #[trigger] blocks@[j],
                        ) ==> id_of(blocks@[i]) < id_of(blocks@[j]),
                decreases end - at,
            {
                proof {
                    lemma_steps(high - low, parts as int, n as int);
                    lemma_steps(high - low, parts as int, n - 1);
                    assert(crate::position::step(blocks@, at as int) == step);
                    assert(position(blocks@, at as int) == low + step * n);
                }
                let id = low + step * n;
                let mut block = blocks[at];
                block.id = Some(id);
                out.push(block);
                proof {
                    assert forall|i: int, j: int| 0 <= i < j < at + 1 implies #[trigger] position(
                        blocks@,
                        i,
                    ) < #[trigger] position(blocks@, j) by {
                        if j == at {
                            if i >= done {
                                lemma_steps(high - low, parts as int, i - from);
                                assert(step * (i - from) < step * n) by (nonlinear_arith)
                                    requires
                                        step >= 1,
                                        i - from < n,
                                ;
                            } else {
                                assert(step * n >= 1) by (nonlinear_arith)
                                    requires
                                        step >= 1,
                                        n >= 1,
                                ;
                            }
                        }
                    }
                }
                at = at + 1;
                n = n + 1;
            }
            if end < blocks.len() {
                // The token behind the made-up blocks.
                let block = blocks[end];
                proof {
                    lemma_steps(high - low, parts as int, parts - 1);
                    assert forall|i: int| 0 <= i < end implies #[trigger] position(blocks@, i)
                        < high by {
                        if i >= done {
                            lemma_steps(high - low, parts as int, i - from);
                            assert(step * (i - from) <= step * (parts - 1)) by (nonlinear_arith)
                                requires
                                    step >= 1,
                                    i - from <= parts - 1,
                            ;
                        }
                    }
                    assert forall|i: int, j: int|
                        0 <= i < j < end + 1 && is_token_block(#[trigger] blocks@[i])
                            && is_token_block(#[trigger] blocks@[j]) implies id_of(blocks@[i])
                        < id_of(blocks@[j]) by {
                        if j == end {
                            assert(i < done);
                            assert(position(blocks@, i) <= low);
                        }
                    }
                }
                out.push(block);
                last = Some(high);
                at = at + 1;
            } else {
                proof {
                    assert forall|i: int, j: int|
                        0 <= i < j < out@.len() implies id_of(#[trigger] out@[i]) < id_of(
                        #[trigger] out@[j],
                    ) by {
                        assert(position(blocks@, i) < position(blocks@, j));
                    }
                    assert forall|i: int, j: int|
                        0 <= i < j < blocks@.len() && is_token_block(#[trigger] blocks@[i])
                            && is_token_block(#[trigger] blocks@[j]) implies id_of(blocks@[i])
                        < id_of(blocks@[j]) by {
                        assert(j < done);
                    }
                }
                assert(out@ =~= placed(blocks@));
                return Some(out);
            }
        }
    }
    proof {
        assert forall|i: int, j: int|
            0 <= i < j < out@.len() implies id_of(#[trigger] out@[i]) < id_of(
            #[trigger] out@[j],
        ) by {
            assert(position(blocks@, i) < position(blocks@, j));
        }
    }
    assert(out@ =~= placed(blocks@));
    Some(out)
}

} // verus!
