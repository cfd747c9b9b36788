use vstd::prelude::*;
use vstd::string::StringSliceAdditionalSpecFns;
use crate::find_header_issues::{
    find_header_issues, issues_in, plain_layout, tokens_in, well_anchored,
};
use crate::issue::Issue;
use crate::weak_commit::parse_header::{too_long, ParseError};
use crate::weak_commit::{first_row, header_of, WeakCommit};

verus! {

/// The issues of the header of a commit message whose bytes are `text`:
/// those of its first row, taken apart into tokens and laid over the slots
/// of the grammar, any word being taken for the type.
pub open spec fn header_issues(text: Seq<u8>) -> Seq<Issue> {
    issues_in(plain_layout(header_of(text)))
}

/// Finds the issues of the header of the commit message `commit`. They name
/// no token that the header does not have.
///
/// A message whose first row has more than `MAX_TOKENS` tokens is refused.
pub fn find_issues(commit: &str) -> (r: Result<Vec<Issue>, ParseError>)
    ensures
        match r {
            Ok(issues) => {
                &&& !too_long(first_row(commit.spec_bytes()))
                &&& issues@ == header_issues(commit.spec_bytes())
                &&& well_anchored(issues@, tokens_in(header_of(commit.spec_bytes())))
            },
            Err(e) => too_long(first_row(commit.spec_bytes())) && e == ParseError::TooLong,
        },
{
    match WeakCommit::parse(commit) {
        Ok(weak) => Ok(find_header_issues(weak.header.as_slice())),
        Err(e) => Err(e),
    }
}

} // verus!
