use vstd::prelude::*;
use vstd::string::StringSliceAdditionalSpecFns;
use crate::additive::Additive;
use crate::block::{Block, Status, Val};
use crate::bytes::Bytes;
use crate::domain::Domain;

verus! {

/// The distance between the ids of two tokens that follow each other. The
/// ids in between are left for blocks that are made up later.
pub const STRIDE: usize = 1000;

/// The most tokens that a header can have: as many as can be given an id
/// each, with room for a stride of ids behind the last.
pub const MAX_TOKENS: usize = usize::MAX / STRIDE - 1;

/// Why a text could not be taken apart.
#[derive(Debug, PartialEq, Eq, Clone, Copy, Structural)]
pub enum ParseError {
    /// The header has more than `MAX_TOKENS` tokens.
    TooLong,
}

/// The kind of the token that the byte `byte` starts: `(`, `)`, `!` and `:`
/// each stand alone, so does a blank or a tab, so does a line feed, and any
/// other byte is part of a word.
pub open spec fn kind_of(byte: u8) -> Val {
    if byte == 0x28 {
        Val::OpenBracket
    } else if byte == 0x29 {
        Val::CloseBracket
    } else if byte == 0x21 {
        Val::ExclMark
    } else if byte == 0x3a {
        Val::Colon
    } else if byte == 0x20 || byte == 0x09 {
        Val::Space
    } else if byte == 0x0a {
        Val::EOL
    } else {
        Val::Word
    }
}

/// Whether `block` is a token of `text`, the `n`th block of its header: it
/// has the id `n * STRIDE` and neither slot nor status yet, and it covers one
/// token: a mark covers its one byte, a word runs as far as the word bytes
/// go.
pub open spec fn is_token(text: Seq<u8>, block: Block, n: int) -> bool {
    &&& block.id == Some((n * STRIDE) as usize)
    &&& n * STRIDE <= usize::MAX
    &&& block.domain == Domain::Nil
    &&& block.status == Status::Unsigned
    &&& match block.bytes {
        Some(bytes) => {
            &&& bytes.0 < bytes.1 <= text.len()
            &&& block.val == kind_of(text[bytes.0 as int])
            &&& if block.val == Val::Word {
                &&& forall|i: int| bytes.0 <= i < bytes.1 ==> kind_of(#[trigger] text[i]) == Val::Word
                &&& (bytes.1 < text.len() ==> kind_of(text[bytes.1 as int]) != Val::Word)
            } else {
                bytes.1 == bytes.0 + 1
            }
        },
        None => false,
    }
}

/// Where a block starts in the text; 0 for a block without bytes.
pub open spec fn start_of(block: Block) -> int {
    match block.bytes {
        Some(bytes) => bytes.0 as int,
        None => 0,
    }
}

/// Where a block ends in the text; 0 for a block without bytes.
pub open spec fn end_of(block: Block) -> int {
    match block.bytes {
        Some(bytes) => bytes.1 as int,
        None => 0,
    }
}

/// Whether `blocks` are the root followed by the tokens of `text`: the first
/// token starts with the text, each further one where the one before it
/// ends, and the last one ends with the text. A text has exactly one such
/// sequence.
pub open spec fn tokenizes(text: Seq<u8>, blocks: Seq<Block>) -> bool {
    &&& blocks.len() >= 1
    &&& blocks[0] == Block::root()
    &&& forall|n: int| 1 <= n < blocks.len() ==> is_token(text, #[trigger] blocks[n], n)
    &&& forall|m: int, n: int|
        1 <= m && n == m + 1 && n < blocks.len() ==> end_of(#[trigger] blocks[m]) == start_of(
            #[trigger] blocks[n],
        )
    &&& blocks.len() > 1 ==> start_of(blocks[1]) == 0
    &&& end_of(blocks[blocks.len() - 1]) == text.len()
}

/// Two sequences of blocks that both are the tokens of `text` agree on their
/// first `n` blocks.
proof fn lemma_same_tokens(text: Seq<u8>, a: Seq<Block>, b: Seq<Block>, n: int)
    requires
        tokenizes(text, a),
        tokenizes(text, b),
        0 <= n <= a.len(),
        n <= b.len(),
    ensures
        forall|i: int| 0 <= i < n ==> a[i] == b[i],
    decreases n,
{
    if n > 1 {
        lemma_same_tokens(text, a, b, n - 1);
        let m = n - 1;
        assert(a[m - 1] == b[m - 1]);
        assert(is_token(text, a[m], m));
        assert(is_token(text, b[m], m));
        assert(start_of(a[m]) == start_of(b[m])) by {
            if m > 1 {
                assert(end_of(a[m - 1]) == start_of(a[m]));
                assert(end_of(b[m - 1]) == start_of(b[m]));
            }
        }
        let end_a = end_of(a[m]);
        let end_b = end_of(b[m]);
        if end_a < end_b {
            assert(kind_of(text[end_a]) == Val::Word);
        } else if end_b < end_a {
            assert(kind_of(text[end_b]) == Val::Word);
        }
        assert(a[m].bytes == b[m].bytes);
    }
}

/// A text has one sequence of tokens only.
pub proof fn lemma_tokens_unique(text: Seq<u8>, a: Seq<Block>, b: Seq<Block>)
    requires
        tokenizes(text, a),
        tokenizes(text, b),
    ensures
        a == b,
{
    if a.len() <= b.len() {
        lemma_same_tokens(text, a, b, a.len() as int);
        if a.len() < b.len() {
            let n = a.len() as int;
            assert(is_token(text, b[n], n));
            assert(a[n - 1] == b[n - 1]);
            if n > 1 {
                assert(end_of(b[n - 1]) == start_of(b[n]));
            }
        }
    } else {
        lemma_same_tokens(text, a, b, b.len() as int);
        let n = b.len() as int;
        assert(is_token(text, a[n], n));
        assert(a[n - 1] == b[n - 1]);
        if n > 1 {
            assert(end_of(a[n - 1]) == start_of(a[n]));
        }
    }
    assert(a =~= b);
}

/// The root followed by the tokens of `text`.
pub open spec fn tokens_of(text: Seq<u8>) -> Seq<Block> {
    choose|blocks: Seq<Block>| tokenizes(text, blocks)
}

/// Blocks that are the tokens of a text are the tokens of that text.
pub proof fn lemma_tokens_of(text: Seq<u8>, blocks: Seq<Block>)
    requires
        tokenizes(text, blocks),
    ensures
        tokens_of(text) == blocks,
{
    lemma_tokens_unique(text, tokens_of(text), blocks);
}

/// `kind_of` for code.
pub fn kind(byte: u8) -> (r: Val)
    ensures
        r == kind_of(byte),
{
    if byte == 0x28 {
        Val::OpenBracket
    } else if byte == 0x29 {
        Val::CloseBracket
    } else if byte == 0x21 {
        Val::ExclMark
    } else if byte == 0x3a {
        Val::Colon
    } else if byte == 0x20 || byte == 0x09 {
        Val::Space
    } else if byte == 0x0a {
        Val::EOL
    } else {
        Val::Word
    }
}

/// Whether a token starts at the byte `at` of `text`: the byte is a mark, or
/// the first byte of the text, or the first byte of a word.
pub open spec fn starts_token(text: Seq<u8>, at: int) -> bool {
    at == 0 || kind_of(text[at]) != Val::Word || kind_of(text[at - 1]) != Val::Word
}

/// How many tokens start in the first `upto` bytes of `text`.
pub open spec fn starts(text: Seq<u8>, upto: int) -> nat
    decreases upto,
{
    if upto <= 0 {
        0
    } else {
        starts(text, upto - 1) + if starts_token(text, upto - 1) {
            1nat
        } else {
            0nat
        }
    }
}

/// How many tokens `text` has.
pub open spec fn token_count(text: Seq<u8>) -> nat {
    starts(text, text.len() as int)
}

/// Whether `text` has more tokens than can be given an id each, with room
/// for a stride behind the last.
pub open spec fn too_long(text: Seq<u8>) -> bool {
    token_count(text) > MAX_TOKENS
}

/// No fewer tokens start in more bytes.
pub proof fn lemma_starts_grow(text: Seq<u8>, from: int, to: int)
    requires
        from <= to,
    ensures
        starts(text, from) <= starts(text, to),
    decreases to - from,
{
    if from < to {
        lemma_starts_grow(text, from, to - 1);
    }
}

/// The root and the tokens of the first `end` bytes of `bytes`; none if
/// there are more tokens than can be given an id.
pub fn tokens(bytes: &[u8], end: usize) -> (r: Option<Vec<Block>>)
    requires
        end <= bytes@.len(),
    ensures
        match r {
            Some(blocks) => {
                &&& !too_long(bytes@.subrange(0, end as int))
                &&& blocks@ == tokens_of(bytes@.subrange(0, end as int))
                &&& tokenizes(bytes@.subrange(0, end as int), blocks@)
                &&& blocks@.len() == token_count(bytes@.subrange(0, end as int)) + 1
            },
            None => too_long(bytes@.subrange(0, end as int)),
        },
{
    let ghost text = bytes@.subrange(0, end as int);
    let mut id = Additive { val: 0, step: STRIDE };
    let mut blocks: Vec<Block> = Vec::new();
    blocks.push(Block { id: Some(id.stamp()), ..Block::root() });
    let mut at: usize = 0;
    while at < end
        invariant
            id.step == STRIDE,
            id.val == blocks@.len() * STRIDE,
            text == bytes@.subrange(0, end as int),
            end <= bytes@.len(),
            at <= end,
            1 <= blocks@.len() <= at + 1,
            blocks@.len() <= MAX_TOKENS + 1,
            blocks@.len() == starts(text, at as int) + 1,
            at < end ==> starts_token(text, at as int),
            blocks@[0] == Block::root(),
            forall|n: int| 1 <= n < blocks@.len() ==> is_token(text, #[trigger] blocks@[n], n),
            forall|m: int, n: int|
                1 <= m && n == m + 1 && n < blocks@.len() ==> end_of(#[trigger] blocks@[m])
                    == start_of(#[trigger] blocks@[n]),
            blocks@.len() > 1 ==> start_of(blocks@[1]) == 0,
            end_of(blocks@[blocks@.len() - 1]) == at,
        decreases end - at,
    {
        if blocks.len() > MAX_TOKENS {
            proof {
                assert(starts(text, at + 1) == starts(text, at as int) + 1);
                lemma_starts_grow(text, at + 1, end as int);
            }
            return None;
        }
        let val = kind(bytes[at]);
        let mut stop: usize = at + 1;
        assert(starts(text, stop as int) == starts(text, at as int) + 1);
        if val == Val::Word {
            while stop < end && kind(bytes[stop]) == Val::Word
                invariant
                    text == bytes@.subrange(0, end as int),
                    end <= bytes@.len(),
                    at < stop <= end,
                    forall|i: int| at <= i < stop ==> kind_of(#[trigger] text[i]) == Val::Word,
                    starts(text, stop as int) == starts(text, at as int) + 1,
                decreases end - stop,
            {
                assert(!starts_token(text, stop as int));
                stop += 1;
            }
        }
        let ghost n = blocks@.len();
        let ghost before = blocks@;
        assert((n + 1) * STRIDE <= usize::MAX) by (nonlinear_arith)
            requires
                n <= MAX_TOKENS,
                MAX_TOKENS == usize::MAX / STRIDE - 1,
                STRIDE == 1000,
        ;
        let block = Block {
            id: Some(id.stamp()),
            val,
            domain: Domain::Nil,
            bytes: Some(Bytes::new(at, stop)),
            status: Status::Unsigned,
        };
        blocks.push(block);
        proof {
            assert(is_token(text, block, n as int));
            assert forall|m: int| 1 <= m < blocks@.len() implies is_token(
                text,
                #[trigger] blocks@[m],
                m,
            ) by {
                if m < n {
                    assert(blocks@[m] == before[m]);
                }
            }
            assert forall|m: int, k: int|
                1 <= m && k == m + 1 && k < blocks@.len() implies end_of(#[trigger] blocks@[m])
                == start_of(#[trigger] blocks@[k]) by {
                assert(blocks@[m] == before[m]);
                if k < n {
                    assert(blocks@[k] == before[k]);
                }
            }
        }
        at = stop;
    }
    proof {
        lemma_tokens_of(text, blocks@);
    }
    Some(blocks)
}

/// Takes a header apart: the result is the root block followed by one block
/// for each token, in the order of the text. Every byte belongs to exactly
/// one token, the `n`th token has the id `n * STRIDE`, and no token has a
/// slot or a status yet.
///
/// A header of more than `MAX_TOKENS` tokens is refused: its tokens could not
/// all be given an id.
pub fn parse_header(header: &str) -> (r: Result<Vec<Block>, ParseError>)
    ensures
        match r {
            Ok(blocks) => {
                &&& !too_long(header.spec_bytes())
                &&& blocks@ == tokens_of(header.spec_bytes())
                &&& tokenizes(header.spec_bytes(), blocks@)
                &&& blocks@.len() == token_count(header.spec_bytes()) + 1
            },
            Err(e) => too_long(header.spec_bytes()) && e == ParseError::TooLong,
        },
{
    let bytes = header.as_bytes();
    assert(bytes@.subrange(0, bytes@.len() as int) =~= bytes@);
    match tokens(bytes, bytes.len()) {
        Some(blocks) => Ok(blocks),
        None => Err(ParseError::TooLong),
    }
}

} // verus!
