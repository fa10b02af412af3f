//! Positions and spans in a tree's text.
use vstd::prelude::*;

verus! {

/// A single position: the byte offset from the start of the tree, the
/// line number (from `1`) and the column number (from `1`).
#[derive(Clone, Copy, Debug, PartialEq, Eq, Structural, Default)]
pub struct Position {
    /// The absolute byte offset of this position, starting at `0`.
    pub offset: usize,
    /// The line number, starting at `1`.
    pub line: usize,
    /// The approximate column number, starting at `1`.
    pub column: usize,
}

/// The range of the text that a token or a node covers, both ends included.
#[derive(Clone, Copy, Debug, PartialEq, Eq, Structural, Default)]
pub struct Span {
    /// The start position.
    pub start: Position,
    /// The end position.
    pub end: Position,
}

/// Positions whose line and column are counted from one.
pub open spec fn counted(p: Position) -> bool {
    p.line >= 1 && p.column >= 1
}

/// Spans whose two ends are counted from one.
pub open spec fn counted_span(s: Span) -> bool {
    counted(s.start) && counted(s.end)
}

impl Position {
    /// Creates a position from its offset, line and column.
    pub fn new(offset: usize, line: usize, column: usize) -> (res: Self)
        ensures
            res == (Position { offset, line, column }),
    {
        Position { offset, line, column }
    }
}

impl Span {
    /// Creates a span from its two ends.
    pub fn new(start: Position, end: Position) -> (res: Self)
        ensures
            res == (Span { start, end }),
    {
        Span { start, end }
    }

    /// A span that starts and ends at `pos`.
    pub fn splat(pos: Position) -> (res: Self)
        ensures
            res == (Span { start: pos, end: pos }),
    {
        Span { start: pos, end: pos }
    }

    /// This span with its start replaced by `pos`.
    pub fn with_start(self, pos: Position) -> (res: Self)
        ensures
            res == (Span { start: pos, end: self.end }),
    {
        Span { start: pos, end: self.end }
    }

    /// This span with its end replaced by `pos`.
    pub fn with_end(self, pos: Position) -> (res: Self)
        ensures
            res == (Span { start: self.start, end: pos }),
    {
        Span { start: self.start, end: pos }
    }

    /// The span whose ends are at offset, line and column zero.
    pub open spec fn zero_spec() -> Span {
        Span {
            start: Position { offset: 0, line: 0, column: 0 },
            end: Position { offset: 0, line: 0, column: 0 },
        }
    }

    /// The span that a default value holds: both ends at offset, line and
    /// column zero.
    pub fn zero() -> (res: Self)
        ensures
            res == Span::zero_spec(),
    {
        let p = Position { offset: 0, line: 0, column: 0 };
        Span { start: p, end: p }
    }
}

} // verus!
