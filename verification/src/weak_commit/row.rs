use vstd::prelude::*;
use vstd::string::StringSliceAdditionalSpecFns;
use crate::bytes::Bytes;

verus! {

/// The byte that ends a row.
pub const LINE_FEED: u8 = 0x0a;

/// One row of a commit message: its bytes, line feed included, and its
/// number.
#[derive(Debug, PartialEq, Eq, Clone, Copy, Structural)]
pub struct Row {
    pub bytes: Bytes,
    /// The number of the row, the first row being 1.
    pub row: usize,
    /// 1 for a row that holds nothing but its line feed, 0 for any other.
    pub blank: u8,
}

/// Where the row that starts at `at` ends: just behind the first line feed
/// from `at` on, or at the end of the text when there is none.
pub open spec fn row_end(text: Seq<u8>, at: int) -> int
    decreases text.len() - at,
{
    if at < 0 || at >= text.len() {
        text.len() as int
    } else if text[at] == LINE_FEED {
        at + 1
    } else {
        row_end(text, at + 1)
    }
}

/// What `probe_blank_line` answers for a row made of `text`.
pub open spec fn blank_of(text: Seq<u8>) -> u8 {
    if text.len() > 0 && text[0] == LINE_FEED {
        1
    } else {
        0
    }
}

/// Whether `row` is a row of `text`, the `n`th counted from 0: it has the
/// number `n + 1`, runs from where it starts to the end of the row, and knows
/// whether it is blank.
pub open spec fn is_row(text: Seq<u8>, row: Row, n: int) -> bool {
    &&& row.row == n + 1
    &&& row.bytes.0 < text.len()
    &&& row.bytes.1 == row_end(text, row.bytes.0 as int)
    &&& row.blank == blank_of(text.subrange(row.bytes.0 as int, row.bytes.1 as int))
}

/// Whether `rows` are the rows of `text`, in order and without a gap: the
/// first row starts with the text, each further one where the one before it
/// ends, and the last one ends with the text. A text without a byte has no
/// row.
pub open spec fn splits(text: Seq<u8>, rows: Seq<Row>) -> bool {
    &&& forall|n: int| 0 <= n < rows.len() ==> is_row(text, #[trigger] rows[n], n)
    &&& forall|m: int, n: int|
        0 <= m && n == m + 1 && n < rows.len() ==> (#[trigger] rows[m]).bytes.1 == (
        #[trigger] rows[n]).bytes.0
    &&& rows.len() > 0 ==> rows[0].bytes.0 == 0 && rows[rows.len() - 1].bytes.1 == text.len()
    &&& rows.len() == 0 ==> text.len() == 0
}

/// A row ends behind where it starts, and within the text.
pub proof fn lemma_row_end_bounds(text: Seq<u8>, at: int)
    requires
        0 <= at < text.len(),
    ensures
        at < row_end(text, at) <= text.len(),
    decreases text.len() - at,
{
    if text[at] != LINE_FEED {
        if at + 1 < text.len() {
            lemma_row_end_bounds(text, at + 1);
        } else {
            assert(row_end(text, at + 1) == text.len());
        }
    }
}

impl Row {
    /// The index of the row among the rows of its message, which count from
    /// 0: `row - 1`, and 0 for a row without a number.
    #[inline]
    pub fn row_index(&self) -> (r: usize)
        ensures
            r == (if self.row == 0 {
                0
            } else {
                self.row - 1
            }),
    {
        if self.row == 0 {
            0
        } else {
            self.row - 1
        }
    }

    /// Whether a row is blank: 1 when `value` starts with a line feed, 0
    /// when it starts with anything else or is empty.
    pub fn probe_blank_line(value: &str) -> (r: u8)
        ensures
            r == blank_of(value.spec_bytes()),
    {
        let bytes = value.as_bytes();
        if bytes.len() > 0 && bytes[0] == LINE_FEED {
            1
        } else {
            0
        }
    }
}

/// The rows of `bytes`.
pub fn rows_of(bytes: &[u8]) -> (r: Vec<Row>)
    ensures
        splits(bytes@, r@),
{
    let mut rows: Vec<Row> = Vec::new();
    let mut at: usize = 0;
    while at < bytes.len()
        invariant
            at <= bytes@.len(),
            rows@.len() <= at,
            forall|n: int| 0 <= n < rows@.len() ==> is_row(bytes@, #[trigger] rows@[n], n),
            forall|m: int, n: int|
                0 <= m && n == m + 1 && n < rows@.len() ==> (#[trigger] rows@[m]).bytes.1 == (
                #[trigger] rows@[n]).bytes.0,
            rows@.len() > 0 ==> rows@[0].bytes.0 == 0 && rows@[rows@.len() - 1].bytes.1 == at,
            rows@.len() == 0 ==> at == 0,
        decreases bytes@.len() - at,
    {
        let mut stop: usize = at;
        while stop < bytes.len() && bytes[stop] != LINE_FEED
            invariant
                at <= stop <= bytes@.len(),
                row_end(bytes@, at as int) == row_end(bytes@, stop as int),
            decreases bytes@.len() - stop,
        {
            stop += 1;
        }
        if stop < bytes.len() {
            stop += 1;
        }
        proof {
            lemma_row_end_bounds(bytes@, at as int);
        }
        let blank: u8 = if bytes[at] == LINE_FEED {
            1
        } else {
            0
        };
        let ghost before = rows@;
        let row = Row { bytes: Bytes::new(at, stop), row: rows.len() + 1, blank };
        rows.push(row);
        proof {
            assert(is_row(bytes@, row, before.len() as int));
            assert forall|n: int| 0 <= n < rows@.len() implies is_row(
                bytes@,
                #[trigger] rows@[n],
                n,
            ) by {
                if n < before.len() {
                    assert(rows@[n] == before[n]);
                }
            }
            assert forall|m: int, n: int|
                0 <= m && n == m + 1 && n < rows@.len() implies (#[trigger] rows@[m]).bytes.1 == (
            #[trigger] rows@[n]).bytes.0 by {
                assert(rows@[m] == before[m]);
                if n < before.len() {
                    assert(rows@[n] == before[n]);
                }
            }
            if before.len() > 0 {
                assert(rows@[0] == before[0]);
            }
        }
        at = stop;
    }
    rows
}

} // verus!
