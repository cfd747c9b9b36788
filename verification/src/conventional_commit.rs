use vstd::prelude::*;
use vstd::string::StringExecFns;
use crate::conventional_commit::footer::CommitFooter;
use crate::conventional_commit::header::CommitHeader;

pub mod footer;
pub mod header;
pub mod issue;

verus! {

/// A commit as Conventional Commits want it: a header, a body if there is
/// one, and footers. All of its texts are trimmed: writing the commit out
/// puts the line feeds where they belong.
#[derive(Debug)]
pub struct ConventionalCommit<'c> {
    pub header: CommitHeader<'c>,
    /// The body, from the first character of the third line of the commit to
    /// the last character of its last paragraph.
    pub body: Option<&'c str>,
    pub footers: &'c [CommitFooter<'c>],
}

/// The first `upto` of `footers` as text, a line each.
pub open spec fn footer_lines(footers: Seq<CommitFooter<'_>>, upto: int) -> Seq<char>
    decreases upto,
{
    if upto <= 0 {
        Seq::empty()
    } else {
        footer_lines(footers, upto - 1) + footers[upto - 1].text() + "\n"@
    }
}

impl<'c> ConventionalCommit<'c> {
    /// The commit as text.
    pub open spec fn text(self) -> Seq<char> {
        self.header.text() + "\n"@ + (match self.body {
            Some(body) => "\n"@ + body@ + "\n"@,
            None => Seq::empty(),
        }) + (if self.footers@.len() > 0 {
            "\n"@ + footer_lines(self.footers@, self.footers@.len() as int)
        } else {
            Seq::empty()
        })
    }

    /// Writes the commit out: the header on a line of its own; the body, if
    /// there is one, behind an empty line; and the footers, if there are any,
    /// behind an empty line, a line each.
    pub fn to_string(&self) -> (r: String)
        ensures
            r@ == self.text(),
    {
        let mut out = self.header.to_string();
        out.append("\n");
        let ghost head = out@;
        match self.body {
            Some(body) => {
                out.append("\n");
                out.append(body);
                out.append("\n");
                assert(out@ =~= head + ("\n"@ + body@ + "\n"@));
            },
            None => {
                assert(out@ =~= head + Seq::<char>::empty());
            },
        }
        let ghost bodied = out@;
        if self.footers.len() > 0 {
            out.append("\n");
            let ghost start = out@;
            let mut i: usize = 0;
            while i < self.footers.len()
                invariant
                    i <= self.footers@.len(),
                    out@ == start + footer_lines(self.footers@, i as int),
                decreases self.footers@.len() - i,
            {
                let line = self.footers[i].to_string();
                out.append(line.as_str());
                out.append("\n");
                i += 1;
                assert(out@ =~= start + footer_lines(self.footers@, i as int));
            }
            assert(out@ =~= bodied + ("\n"@ + footer_lines(
                self.footers@,
                self.footers@.len() as int,
            )));
        } else {
            assert(out@ =~= bodied + Seq::<char>::empty());
        }
        out
    }
}

} // verus!
