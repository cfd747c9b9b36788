use vstd::prelude::*;
use vstd::string::StringExecFns;

verus! {

/// A footer of a commit: a key with its value, or the note of a breaking
/// change.
#[derive(Debug)]
pub enum CommitFooter<'c> {
    Simple(&'c str, &'c str),
    BreakingChange(&'c str),
}

impl<'c> CommitFooter<'c> {
    /// The footer as text.
    pub open spec fn text(self) -> Seq<char> {
        match self {
            CommitFooter::Simple(key, value) => key@ + ": "@ + value@,
            CommitFooter::BreakingChange(value) => "BREAKING CHANGE: "@ + value@,
        }
    }

    /// Writes the footer out: `key: value`, or `BREAKING CHANGE: ` and the note.
    pub fn to_string(&self) -> (r: String)
        ensures
            r@ == self.text(),
    {
        match self {
            CommitFooter::Simple(key, value) => {
                let mut out = String::from_str(key);
                out.append(": ");
                out.append(value);
                out
            },
            CommitFooter::BreakingChange(value) => {
                let mut out = String::from_str("BREAKING CHANGE: ");
                out.append(value);
                out
            },
        }
    }
}

} // verus!
