use vstd::prelude::*;
use vstd::string::StringExecFns;
use crate::decimal::{decimal, to_decimal};

verus! {

/// A range of bytes told by its two ends.
#[derive(Debug, PartialEq, Eq, PartialOrd, Ord, Clone, Copy, Structural)]
pub struct BytesRange {
    /// Starting byte
    pub start: usize,
    /// Ending byte
    pub end: usize,
}

impl BytesRange {
    /// How many bytes the range covers.
    #[inline]
    pub fn total(&self) -> (r: usize)
        requires
            self.start <= self.end,
        ensures
            r == self.end - self.start,
    {
        self.end - self.start
    }

}

impl BytesRange {
    /// The range as text: its two ends with two dots between them, each end
    /// below ten with a dot of its own to fill its place, and behind them, in
    /// brackets, how many bytes the range covers.
    pub open spec fn text(self) -> Seq<char> {
        decimal(self.start as nat) + (if self.start < 10 {
            "."@
        } else {
            Seq::empty()
        }) + ".."@ + (if self.end < 10 {
            "."@
        } else {
            Seq::empty()
        }) + decimal(self.end as nat) + " ("@ + decimal((self.end - self.start) as nat) + ")"@
    }

    /// Writes the range out, `7...12 (5)` for the bytes from 7 up to 12.
    pub fn to_string(&self) -> (r: String)
        requires
            self.start <= self.end,
        ensures
            r@ == self.text(),
    {
        let mut out = to_decimal(self.start);
        let ghost first = out@;
        if self.start < 10 {
            out.append(".");
        } else {
            assert(out@ =~= first + Seq::<char>::empty());
        }
        out.append("..");
        let ghost dotted = out@;
        if self.end < 10 {
            out.append(".");
        } else {
            assert(out@ =~= dotted + Seq::<char>::empty());
        }
        out.append(to_decimal(self.end).as_str());
        out.append(" (");
        out.append(to_decimal(self.total()).as_str());
        out.append(")");
        out
    }
}

impl From<BytesRange> for (usize, usize) {
    fn from(range: BytesRange) -> (r: (usize, usize)) {
        (range.start, range.end)
    }
}

impl vstd::std_specs::convert::FromSpecImpl<BytesRange> for (usize, usize) {
    open spec fn obeys_from_spec() -> bool {
        true
    }

    open spec fn from_spec(range: BytesRange) -> (usize, usize) {
        (range.start, range.end)
    }
}

} // verus!
