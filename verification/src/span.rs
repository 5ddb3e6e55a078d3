use vstd::prelude::*;
use vstd::string::StringSliceAdditionalSpecFns;

verus! {

/// Byte-offset span within a source file.
#[derive(Debug, Clone, Copy, PartialEq, Eq, Structural)]
pub struct Span {
    /// Inclusive start byte offset.
    pub start: usize,
    /// Exclusive end byte offset.
    pub end: usize,
}

pub open spec fn spec_min(a: usize, b: usize) -> usize {
    if a <= b { a } else { b }
}

pub open spec fn spec_max(a: usize, b: usize) -> usize {
    if a >= b { a } else { b }
}

impl Span {
    pub fn new(start: usize, end: usize) -> (s: Span)
        ensures
            s.start == start,
            s.end == end,
    {
        Span { start, end }
    }

    /// Create a span covering `self` through `other`.
    pub fn merge(self, other: Span) -> (s: Span)
        ensures
            s.start == spec_min(self.start, other.start),
            s.end == spec_max(self.end, other.end),
    {
        let start = if self.start <= other.start { self.start } else { other.start };
        let end = if self.end >= other.end { self.end } else { other.end };
        Span { start, end }
    }

    /// Dummy span for synthesized nodes.
    pub fn dummy() -> (s: Span)
        ensures
            s.start == usize::MAX,
            s.end == usize::MAX,
    {
        Span { start: usize::MAX, end: usize::MAX }
    }
}

impl Default for Span {
    fn default() -> (s: Span)
        ensures
            s.start == usize::MAX,
            s.end == usize::MAX,
    {
        Span::dummy()
    }
}


/// A line/column position in a source file (both 0-based).
#[derive(Debug, Clone, Copy, PartialEq, Eq, Structural)]
pub struct LineCol {
    pub line: u32,
    pub col: u32,
}

/// `lc` is the line and column of byte `offset` for the line starts
/// `starts`: the last line that starts at or before `offset`, and the
/// distance from its start (both truncated to `u32`).
pub open spec fn locates(starts: Seq<usize>, offset: int, lc: LineCol) -> bool {
    exists|l: int|
        {
            &&& 0 <= l < starts.len()
            &&& #[trigger] starts[l] <= offset
            &&& (l + 1 == starts.len() || offset < starts[l + 1])
            &&& lc.line == l as u32
            &&& lc.col == (offset - starts[l]) as u32
        }
}

/// The byte offsets at which the lines of `b` start: 0, then one past
/// each newline.
pub open spec fn line_starts_of(b: Seq<u8>) -> Seq<usize>
    decreases b.len(),
{
    if b.len() == 0 {
        seq![0usize]
    } else if b.last() == 10 {
        line_starts_of(b.drop_last()).push(b.len() as usize)
    } else {
        line_starts_of(b.drop_last())
    }
}

/// Pre-computed index for converting byte offsets to line/column positions.
///
/// Build once from source text, then call `line_col()` for any byte offset.
pub struct LineIndex {
    /// Byte offset of the start of each line.
    line_starts: Vec<usize>,
}

/// The line that `offset` lies on, for the line starts `starts`.
pub open spec fn line_number(starts: Seq<usize>, offset: int) -> u32 {
    (choose|lc: LineCol| locates(starts, offset, lc)).line
}

impl LineIndex {
    /// An offset lies on one line only.
    pub proof fn lemma_locates_line(self, offset: int, lc: LineCol)
        requires
            self.wf(),
            locates(self.starts(), offset, lc),
        ensures
            lc.line == line_number(self.starts(), offset),
    {
        let st = self.starts();
        let other = choose|x: LineCol| locates(st, offset, x);
        let l1 = choose|l: int|
            {
                &&& 0 <= l < st.len()
                &&& #[trigger] st[l] <= offset
                &&& (l + 1 == st.len() || offset < st[l + 1])
                &&& lc.line == l as u32
                &&& lc.col == (offset - st[l]) as u32
            };
        let l2 = choose|l: int|
            {
                &&& 0 <= l < st.len()
                &&& #[trigger] st[l] <= offset
                &&& (l + 1 == st.len() || offset < st[l + 1])
                &&& other.line == l as u32
                &&& other.col == (offset - st[l]) as u32
            };
        if l1 < l2 {
            assert(st[l1 + 1] <= st[l2]) by {
                if l1 + 1 < l2 {
                    assert(st[l1 + 1] < st[l2]);
                }
            }
        } else if l2 < l1 {
            assert(st[l2 + 1] <= st[l1]) by {
                if l2 + 1 < l1 {
                    assert(st[l2 + 1] < st[l1]);
                }
            }
        }
    }

    /// The start offsets of the lines, in increasing order.
    pub closed spec fn starts(self) -> Seq<usize> {
        self.line_starts@
    }

    pub closed spec fn wf(self) -> bool {
        &&& self.line_starts@.len() > 0
        &&& self.line_starts@[0] == 0
        &&& forall|i: int, j: int| 0 <= i < j < self.line_starts@.len() ==> #[trigger] self.line_starts@[i] < #[trigger] self.line_starts@[j]
    }

    /// Build a `LineIndex` from the full source text.
    pub fn new(source: &str) -> (idx: LineIndex)
        ensures
            idx.wf(),
            idx.starts() == line_starts_of(source.spec_bytes()),
    {
        let b = source.as_bytes();
        let mut line_starts: Vec<usize> = Vec::new();
        line_starts.push(0);
        let mut i: usize = 0;
        assert(b@.subrange(0, 0) =~= Seq::<u8>::empty());
        while i < b.len()
            invariant
                i <= b@.len(),
                line_starts@ == line_starts_of(b@.subrange(0, i as int)),
                line_starts@.len() > 0,
                line_starts@[0] == 0,
                forall|k: int| 0 <= k < line_starts@.len() ==> #[trigger] line_starts@[k] <= i,
                forall|k: int, l: int| 0 <= k < l < line_starts@.len() ==> #[trigger] line_starts@[k] < #[trigger] line_starts@[l],
            decreases b@.len() - i,
        {
            assert(b@.subrange(0, i + 1).drop_last() =~= b@.subrange(0, i as int));
            if b[i] == 10u8 {
                line_starts.push(i + 1);
            }
            i += 1;
        }
        assert(b@.subrange(0, b@.len() as int) =~= b@);
        LineIndex { line_starts }
    }

    /// Convert a byte offset to a 0-based line/column position: the last
    /// line that starts at or before `offset`, and the distance from its
    /// start. Offsets past the end count from the start of the last line.
    /// The byte offset of line `line`, column `col`: the start of the
    /// line plus the column, where the line exists.
    pub fn offset(&self, line: usize, col: usize) -> (r: Option<usize>)
        requires
            self.wf(),
        ensures
            r == (if line < self.starts().len() && self.starts()[line as int] + col <= usize::MAX {
                Some((self.starts()[line as int] + col) as usize)
            } else {
                None::<usize>
            }),
    {
        if line < self.line_starts.len() {
            let start = self.line_starts[line];
            if col <= usize::MAX - start {
                return Some(start + col);
            }
        }
        None
    }

    pub fn line_col(&self, offset: usize) -> (r: Option<LineCol>)
        requires
            self.wf(),
        ensures
            r matches Some(lc) && locates(self.starts(), offset as int, lc),
    {
        // Binary search for the last start at or before `offset`.
        let mut lo: usize = 0;
        let mut hi: usize = self.line_starts.len();
        while hi - lo > 1
            invariant
                0 <= lo < hi <= self.line_starts@.len(),
                self.wf(),
                self.line_starts@[lo as int] <= offset,
                hi == self.line_starts@.len() || offset < self.line_starts@[hi as int],
            decreases hi - lo,
        {
            let mid = lo + (hi - lo) / 2;
            if self.line_starts[mid] <= offset {
                lo = mid;
            } else {
                hi = mid;
            }
        }
        let col = offset - self.line_starts[lo];
        proof {
            if lo + 1 < self.line_starts@.len() {
                assert(hi == lo + 1);
            }
            assert(self.starts()[lo as int] <= offset);
        }
        Some(LineCol { line: #[verifier::truncate] (lo as u32), col: #[verifier::truncate] (col as u32) })
    }
}
} // verus!
