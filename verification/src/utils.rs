//! Source locations: 1-indexed line/column coordinates, offset ranges, and
//! the resolution of raw byte offsets into line/column positions.

use vstd::prelude::*;

verus! {

/// Byte value of a line feed, the sole line boundary for counting purposes.
/// A carriage return belongs to the content of the line it stands on.
pub const NL: u8 = 10;

/// A 1-indexed (line, column) position in a source buffer.
#[derive(Copy, Clone, Debug, PartialEq, Eq)]
pub struct Location<T> {
    pub line: T,
    pub col: T,
}

/// A half-open range: `start` is included, `end` is excluded.
/// During parsing `T` is a raw byte offset; after resolution it is a
/// [`Location`].
#[derive(Copy, Clone, Debug, PartialEq, Eq)]
pub struct LRange<T> {
    pub start: T,
    pub end: T,
}

/// How many line feeds lie strictly before `off`.
pub open spec fn nl_count(s: Seq<u8>, off: int) -> nat
    decreases off,
{
    if off <= 0 {
        0
    } else {
        nl_count(s, off - 1) + (if s[off - 1] == NL {
            1nat
        } else {
            0nat
        })
    }
}

/// The offset of the first byte of the line containing `off`.
pub open spec fn line_start(s: Seq<u8>, off: int) -> int
    decreases off,
{
    if off <= 0 {
        0
    } else if s[off - 1] == NL {
        off
    } else {
        line_start(s, off - 1)
    }
}

/// The 1-indexed line number of offset `off` in buffer `s`.
pub open spec fn spec_line(s: Seq<u8>, off: int) -> int {
    nl_count(s, off) as int + 1
}

/// The 1-indexed column of offset `off` in buffer `s`.
pub open spec fn spec_col(s: Seq<u8>, off: int) -> int {
    off - line_start(s, off) + 1
}

pub proof fn lemma_nl_count_le(s: Seq<u8>, off: int)
    requires
        0 <= off,
    ensures
        nl_count(s, off) <= off,
    decreases off,
{
    if off > 0 {
        lemma_nl_count_le(s, off - 1);
    }
}

pub proof fn lemma_line_start_bounds(s: Seq<u8>, off: int)
    requires
        0 <= off,
    ensures
        0 <= line_start(s, off) <= off,
    decreases off,
{
    if off > 0 && s[off - 1] != NL {
        lemma_line_start_bounds(s, off - 1);
    }
}

impl Location<usize> {
    /// Resolves a raw byte offset in `s` to its 1-indexed line and column.
    ///
    /// Lines are delimited by line feeds; an offset equal to the buffer
    /// length resolves to one past the end of the last line.
    pub fn from_offset(s: &[u8], offset: usize) -> (r: Self)
        requires
            offset <= s@.len(),
            s@.len() < usize::MAX,
        ensures
            r.line == spec_line(s@, offset as int),
            r.col == spec_col(s@, offset as int),
    {
        let mut line: usize = 1;
        let mut ls: usize = 0;
        let mut i: usize = 0;
        while i < offset
            invariant
                i <= offset,
                offset <= s@.len(),
                s@.len() < usize::MAX,
                line == nl_count(s@, i as int) + 1,
                ls == line_start(s@, i as int),
                nl_count(s@, i as int) <= i,
                0 <= ls <= i,
            decreases offset - i,
        {
            if s[i] == NL {
                line = line + 1;
                ls = i + 1;
            }
            i = i + 1;
        }
        Location { line, col: offset - ls + 1 }
    }
}

impl LRange<Location<usize>> {
    /// Resolves both ends of a raw offset range to line/column positions.
    pub fn from_offset(s: &[u8], start: usize, end: usize) -> (r: Self)
        requires
            start <= s@.len(),
            end <= s@.len(),
            s@.len() < usize::MAX,
        ensures
            r.start.line == spec_line(s@, start as int),
            r.start.col == spec_col(s@, start as int),
            r.end.line == spec_line(s@, end as int),
            r.end.col == spec_col(s@, end as int),
    {
        let start = Location::from_offset(s, start);
        let end = Location::from_offset(s, end);
        Self { start, end }
    }
}

} // verus!
