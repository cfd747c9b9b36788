use vstd::prelude::*;
use vstd::string::StringSliceAdditionalSpecFns;
use crate::block::Block;
use crate::weak_commit::parse_header::{
    token_count, tokenizes, tokens, tokens_of, too_long, ParseError,
};
use crate::weak_commit::row::{lemma_row_end_bounds, row_end, rows_of, splits, Row};

pub mod bytes_range;
pub mod parse_header;
pub mod row;

verus! {

/// A commit message taken apart as far as that goes without judging it: its
/// rows, and the tokens of its first row, the header.
#[derive(Debug, PartialEq, Eq)]
pub struct WeakCommit {
    pub header: Vec<Block>,
    pub rows: Vec<Row>,
}

/// The header of a commit message whose bytes are `text`: the root followed
/// by the tokens of its first row. A message without a byte has a header
/// without a block, not even the root.
pub open spec fn header_of(text: Seq<u8>) -> Seq<Block> {
    if text.len() == 0 {
        Seq::empty()
    } else {
        tokens_of(first_row(text))
    }
}

/// The first row of a commit message whose bytes are `text`.
pub open spec fn first_row(text: Seq<u8>) -> Seq<u8> {
    text.subrange(0, row_end(text, 0))
}

impl WeakCommit {
    /// Splits `commit` into rows and the first row into tokens. A message
    /// without a byte has no row and no header block, not even the root.
    ///
    /// A message whose first row has more than `MAX_TOKENS` tokens is refused.
    pub fn parse(commit: &str) -> (r: Result<Self, ParseError>)
        ensures
            match r {
                Ok(weak) => {
                    let text = commit.spec_bytes();
                    &&& splits(text, weak.rows@)
                    &&& !too_long(first_row(text))
                    &&& weak.header@ == header_of(text)
                    &&& text.len() > 0 ==> tokenizes(first_row(text), weak.header@)
                    &&& weak.header@.len() <= token_count(first_row(text)) + 1
                },
                Err(e) => too_long(first_row(commit.spec_bytes())) && e == ParseError::TooLong,
            },
    {
        let bytes = commit.as_bytes();
        let rows = rows_of(bytes);
        if rows.len() == 0 {
            let header: Vec<Block> = Vec::new();
            assert(header@ =~= header_of(bytes@));
            assert(first_row(bytes@) =~= Seq::<u8>::empty());
            return Ok(Self { rows, header });
        }
        let end = rows[0].bytes.end();
        proof {
            lemma_row_end_bounds(bytes@, 0);
        }
        match tokens(bytes, end) {
            Some(header) => Ok(Self { rows, header }),
            None => Err(ParseError::TooLong),
        }
    }
}

} // verus!
