use std::ops::{Range, RangeFrom};
use vstd::prelude::*;
use vstd::string::StringSliceAdditionalSpecFns;
use vstd::utf8::{
    encode_utf8_valid_utf8, is_char_boundary, is_char_boundary_iff_not_is_continuation_byte,
    is_char_boundary_start_end_of_seq,
};

verus! {

/// A range of bytes of some text: those from `self.0` up to, but not
/// including, `self.1`.
#[derive(Debug, PartialEq, Eq, PartialOrd, Ord, Clone, Copy, Structural)]
pub struct Bytes(pub usize, pub usize);

impl Bytes {
    /// The range does not end before it starts.
    pub open spec fn wf(self) -> bool {
        self.0 <= self.1
    }

    /// The range from `start` up to `end`.
    #[inline]
    pub fn new(start: usize, end: usize) -> (r: Self)
        requires
            start <= end,
        ensures
            r == Bytes(start, end),
    {
        Self(start, end)
    }

    /// The empty range that sits at `start`.
    #[inline]
    pub fn empty_at(start: usize) -> (r: Self)
        ensures
            r == Bytes(start, start),
    {
        Self(start, start)
    }

    /// The range of the one byte at `start`.
    #[inline]
    pub fn single(start: usize) -> (r: Self)
        requires
            start < usize::MAX,
        ensures
            r == Bytes(start, (start + 1) as usize),
    {
        Self(start, start + 1)
    }

    /// How many bytes the range covers.
    #[inline]
    pub fn total(&self) -> (r: usize)
        requires
            self.wf(),
        ensures
            r == self.1 - self.0,
    {
        self.1 - self.0
    }

    /// The bytes of `text` that the range covers: there are some when the
    /// range is not empty, lies within `text`, and starts and ends where a
    /// character of `text` starts or ends.
    pub open spec fn captured(self, text: Seq<u8>) -> Option<Seq<u8>> {
        if self.0 < self.1 && self.1 <= text.len() && is_char_boundary(text, self.0 as int)
            && is_char_boundary(text, self.1 as int) {
            Some(text.subrange(self.0 as int, self.1 as int))
        } else {
            None
        }
    }

    /// The part of `source` that the range covers, if it covers any.
    pub fn capture<'capture>(&self, source: &'capture str) -> (r: Option<&'capture str>)
        ensures
            match r {
                Some(part) => self.captured(source.spec_bytes()) == Some(part.spec_bytes()),
                None => self.captured(source.spec_bytes()) is None,
            },
    {
        if self.0 >= self.1 || self.1 > source.as_bytes().len() {
            return None;
        }
        if !source.is_char_boundary(self.0) || !source.is_char_boundary(self.1) {
            return None;
        }
        let (head, _) = source.split_at(self.1);
        proof {
            let text = source.spec_bytes();
            encode_utf8_valid_utf8(source@);
            encode_utf8_valid_utf8(head@);
            is_char_boundary_iff_not_is_continuation_byte(text, self.0 as int);
            is_char_boundary_iff_not_is_continuation_byte(head.spec_bytes(), self.0 as int);
            is_char_boundary_start_end_of_seq(head.spec_bytes());
        }
        let (_, part) = head.split_at(self.0);
        assert(part.spec_bytes() =~= source.spec_bytes().subrange(self.0 as int, self.1 as int));
        Some(part)
    }

    /// Where the range starts.
    #[inline]
    pub fn start(&self) -> (r: usize)
        ensures
            r == self.0,
    {
        self.0
    }

    /// Where the range ends: the first byte behind it.
    #[inline]
    pub fn end(&self) -> (r: usize)
        ensures
            r == self.1,
    {
        self.1
    }
}

impl From<(usize, usize)> for Bytes {
    fn from(ends: (usize, usize)) -> (r: Bytes) {
        Bytes(ends.0, ends.1)
    }
}

impl vstd::std_specs::convert::FromSpecImpl<(usize, usize)> for Bytes {
    open spec fn obeys_from_spec() -> bool {
        true
    }

    open spec fn from_spec(ends: (usize, usize)) -> Bytes {
        Bytes(ends.0, ends.1)
    }
}

impl From<usize> for Bytes {
    fn from(start: usize) -> (r: Bytes) {
        Bytes(start, start)
    }
}

impl vstd::std_specs::convert::FromSpecImpl<usize> for Bytes {
    open spec fn obeys_from_spec() -> bool {
        true
    }

    open spec fn from_spec(start: usize) -> Bytes {
        Bytes(start, start)
    }
}

impl From<Bytes> for Range<usize> {
    fn from(bytes: Bytes) -> (r: Range<usize>) {
        Range { start: bytes.0, end: bytes.1 }
    }
}

impl vstd::std_specs::convert::FromSpecImpl<Bytes> for Range<usize> {
    open spec fn obeys_from_spec() -> bool {
        true
    }

    open spec fn from_spec(bytes: Bytes) -> Range<usize> {
        Range { start: bytes.0, end: bytes.1 }
    }
}

/// `std::ops::RangeFrom`, the range of std that has a start and no end,
/// `start..`. Nothing is claimed of it but what std declares: that it is a
/// struct with the one public field `start`. It is made known with that
/// field, so that the conversion below can say what it returns.
#[verifier::external_type_specification]
#[verifier::reject_recursive_types(Idx)]
pub struct ExRangeFrom<Idx>(RangeFrom<Idx>);

impl From<Bytes> for RangeFrom<usize> {
    fn from(bytes: Bytes) -> (r: RangeFrom<usize>) {
        RangeFrom { start: bytes.0 }
    }
}

impl vstd::std_specs::convert::FromSpecImpl<Bytes> for RangeFrom<usize> {
    open spec fn obeys_from_spec() -> bool {
        true
    }

    open spec fn from_spec(bytes: Bytes) -> RangeFrom<usize> {
        RangeFrom { start: bytes.0 }
    }
}

} // verus!
