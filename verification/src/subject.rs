use vstd::prelude::*;
use vstd::string::StringExecFns;

verus! {

/// A part of a header that something can be said about.
#[derive(Debug, PartialEq, Eq, Clone, Copy, PartialOrd, Ord, Structural)]
pub enum Subject {
    Root,
    Type,
    Scope,
    Breaking,
    Colon,
    Space,
    Desc,
}

impl Subject {
    /// The name of the subject.
    pub open spec fn name(self) -> Seq<char> {
        match self {
            Subject::Root => "Root"@,
            Subject::Type => "Type"@,
            Subject::Scope => "Scope"@,
            Subject::Breaking => "Breaking"@,
            Subject::Colon => "Colon"@,
            Subject::Space => "Space"@,
            Subject::Desc => "Desc"@,
        }
    }

    /// Writes the name of the subject out.
    pub fn to_string(&self) -> (r: String)
        ensures
            r@ == self.name(),
    {
        match self {
            Subject::Root => String::from_str("Root"),
            Subject::Type => String::from_str("Type"),
            Subject::Scope => String::from_str("Scope"),
            Subject::Breaking => String::from_str("Breaking"),
            Subject::Colon => String::from_str("Colon"),
            Subject::Space => String::from_str("Space"),
            Subject::Desc => String::from_str("Desc"),
        }
    }
}

} // verus!
