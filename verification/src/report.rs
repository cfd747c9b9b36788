use vstd::prelude::*;
use crate::block::Block;
use crate::issue::Issue;
use crate::paper::Paper;

verus! {

/// What there is to say about a commit message.
#[derive(Debug, PartialEq, Eq)]
pub struct Report {
    /// The issues of the header.
    pub header: Vec<Issue>,
    /// The header as it was laid out: its tokens among the blocks made up
    /// for what it lacks, each block with its place as its id.
    pub blocks: Vec<Block>,
    /// The map of the header: where each of its slots sits among the ids of
    /// the blocks.
    pub paper: Paper,
}

} // verus!
