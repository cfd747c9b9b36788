use vstd::prelude::*;
use vstd::string::StringExecFns;

verus! {

/// The header of a commit as the grammar wants it: `type(scope)!: description`,
/// the scope and the `!` being optional.
#[derive(Debug)]
pub struct CommitHeader<'c> {
    pub kind: &'c str,
    pub scope: Option<&'c str>,
    pub desc: &'c str,
    pub breaking_change: bool,
}

impl<'c> CommitHeader<'c> {
    /// The header as text.
    pub open spec fn text(self) -> Seq<char> {
        self.kind@ + (match self.scope {
            Some(scope) => "("@ + scope@ + ")"@,
            None => Seq::empty(),
        }) + (if self.breaking_change {
            "!"@
        } else {
            Seq::empty()
        }) + ": "@ + self.desc@
    }

    /// Writes the header out: the type, the scope in brackets if there is
    /// one, a `!` if the change is a breaking one, then `: ` and the
    /// description.
    pub fn to_string(&self) -> (r: String)
        ensures
            r@ == self.text(),
    {
        let mut out = String::from_str(self.kind);
        let ghost kind = out@;
        match self.scope {
            Some(scope) => {
                out.append("(");
                out.append(scope);
                out.append(")");
                assert(out@ =~= kind + ("("@ + scope@ + ")"@));
            },
            None => {
                assert(out@ =~= kind + Seq::<char>::empty());
            },
        }
        let ghost scoped = out@;
        if self.breaking_change {
            out.append("!");
        } else {
            assert(out@ =~= scoped + Seq::<char>::empty());
        }
        out.append(": ");
        out.append(self.desc);
        out
    }
}

} // verus!
