//! The parts of the Language Server Protocol data model that the library
//! computes: positions, ranges and text edits (UTF-16 columns, 0-based lines).
use vstd::prelude::*;

verus! {

/// A position in a text document: 0-based line, UTF-16 code-unit column.
#[derive(Clone, Copy, Debug, PartialEq, Eq, Structural)]
pub struct Position {
    pub line: u32,
    pub character: u32,
}

impl Position {
    pub fn new(line: u32, character: u32) -> (p: Position)
        ensures
            p.line == line,
            p.character == character,
    {
        Position { line, character }
    }
}

/// A half-open span of text between two positions (`end` included by
/// [`range_contains`], as the server treats the end of a key as on the key).
#[derive(Clone, Copy, Debug, PartialEq, Eq, Structural)]
pub struct Range {
    pub start: Position,
    pub end: Position,
}

impl Range {
    pub fn new(start: Position, end: Position) -> (r: Range)
        ensures
            r.start == start,
            r.end == end,
    {
        Range { start, end }
    }
}

impl Default for Range {
    fn default() -> (r: Range)
        ensures
            r.start == (Position { line: 0, character: 0 }),
            r.end == (Position { line: 0, character: 0 }),
    {
        Range { start: Position { line: 0, character: 0 }, end: Position { line: 0, character: 0 } }
    }
}

/// A replacement of the text in `range` by `new_text`.
#[derive(Clone, Debug)]
pub struct TextEdit {
    pub range: Range,
    pub new_text: String,
}

/// `a` is at or before `b` in document order.
pub open spec fn pos_le(a: Position, b: Position) -> bool {
    a.line < b.line || (a.line == b.line && a.character <= b.character)
}

/// `pos` lies within `range`, both ends included.
pub open spec fn in_range(range: Range, pos: Position) -> bool {
    pos_le(range.start, pos) && pos_le(pos, range.end)
}

/// Whether `pos` lies within `range`, both ends included.
pub fn range_contains(range: Range, pos: Position) -> (r: bool)
    ensures
        r == in_range(range, pos),
{
    (range.start.line < pos.line || (range.start.line == pos.line && range.start.character
        <= pos.character)) && (pos.line < range.end.line || (pos.line == range.end.line
        && pos.character <= range.end.character))
}

} // verus!
