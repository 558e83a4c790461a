//! Positions and ranges, and how they move between a cell and the synthetic
//! document.

use vstd::prelude::*;
use crate::error::NotebookError;

verus! {

/// A zero-based line and character offset in a text.
#[derive(Clone, Copy, Debug, PartialEq, Eq, Structural)]
pub struct Position {
    /// The line, counted from zero.
    pub line: u32,
    /// The character on that line, counted from zero.
    pub character: u32,
}

/// A pair of positions: where a selection starts and where it ends.
#[derive(Clone, Copy, Debug, PartialEq, Eq, Structural)]
pub struct Range {
    /// Where the range starts.
    pub start: Position,
    /// Where the range ends.
    pub end: Position,
}

/// Whether a position on line `line` can be moved by `offset` lines and stay
/// within the lines a `Position` can name.
pub open spec fn line_in_reach(line: u32, offset: int) -> bool {
    0 <= line + offset <= u32::MAX
}

/// `position` moved by `offset` lines; the character is kept.
pub open spec fn shifted_position(position: Position, offset: int) -> Position {
    Position { line: (position.line + offset) as u32, character: position.character }
}

/// What moving `position` by `offset` lines gives: the moved position, or
/// `ArithmeticOverflow` when the line would leave the range of `u32`.
pub open spec fn offset_position_spec(position: Position, offset: int) -> Result<
    Position,
    NotebookError,
> {
    if line_in_reach(position.line, offset) {
        Ok(shifted_position(position, offset))
    } else {
        Err(NotebookError::ArithmeticOverflow)
    }
}

/// Moves `position` by `offset` lines. A positive offset takes a position of
/// a cell to the synthetic document, a negative one takes it back. The sum is
/// formed in sixty-four bits, so that no line of a `Position` wraps.
pub fn offset_position(position: Position, offset: i32) -> (moved: Result<Position, NotebookError>)
    ensures
        moved == offset_position_spec(position, offset as int),
{
    let line: i64 = position.line as i64 + offset as i64;
    if 0 <= line && line <= u32::MAX as i64 {
        Ok(Position { line: line as u32, character: position.character })
    } else {
        Err(NotebookError::ArithmeticOverflow)
    }
}

/// What moving `range` by `offset` lines gives: both ends moved, or
/// `ArithmeticOverflow` when either end would leave the range of `u32`.
pub open spec fn offset_range_spec(range: Range, offset: int) -> Result<Range, NotebookError> {
    if line_in_reach(range.start.line, offset) && line_in_reach(range.end.line, offset) {
        Ok(
            Range {
                start: shifted_position(range.start, offset),
                end: shifted_position(range.end, offset),
            },
        )
    } else {
        Err(NotebookError::ArithmeticOverflow)
    }
}

/// Moves both ends of `range` by `offset` lines.
pub fn offset_range(range: Range, offset: i32) -> (moved: Result<Range, NotebookError>)
    ensures
        moved == offset_range_spec(range, offset as int),
{
    let start = match offset_position(range.start, offset) {
        Ok(start) => start,
        Err(e) => {
            return Err(e);
        },
    };
    match offset_position(range.end, offset) {
        Ok(end) => Ok(Range { start, end }),
        Err(e) => Err(e),
    }
}

/// Moving a position by an offset and then back by the same offset gives the
/// position again, whenever the first move stays in reach.
pub proof fn lemma_position_round_trip(position: Position, offset: int)
    requires
        line_in_reach(position.line, offset),
    ensures
        offset_position_spec(position, offset) == Ok::<Position, NotebookError>(
            shifted_position(position, offset),
        ),
        offset_position_spec(shifted_position(position, offset), -offset) == Ok::<
            Position,
            NotebookError,
        >(position),
{
}

/// Moving a range by an offset and then back by the same offset gives the
/// range again, whenever the first move keeps both ends in reach.
pub proof fn lemma_range_round_trip(range: Range, offset: int)
    requires
        line_in_reach(range.start.line, offset),
        line_in_reach(range.end.line, offset),
    ensures
        offset_range_spec(range, offset) is Ok,
        offset_range_spec(offset_range_spec(range, offset)->Ok_0, -offset) == Ok::<
            Range,
            NotebookError,
        >(range),
{
}

impl Position {
    /// Takes this position of a cell to the synthetic document, in which
    /// `offset` lines lie in front of the cell.
    pub fn to_synthetic(self, offset: u32) -> (moved: Result<Position, NotebookError>)
        ensures
            moved == offset_position_spec(self, offset as int),
    {
        match self.line.checked_add(offset) {
            Some(line) => Ok(Position { line, character: self.character }),
            None => Err(NotebookError::ArithmeticOverflow),
        }
    }

    /// Takes this position of the synthetic document to the cell in front of
    /// which `offset` lines lie.
    pub fn to_local(self, offset: u32) -> (moved: Result<Position, NotebookError>)
        ensures
            moved == offset_position_spec(self, -(offset as int)),
    {
        match self.line.checked_sub(offset) {
            Some(line) => Ok(Position { line, character: self.character }),
            None => Err(NotebookError::ArithmeticOverflow),
        }
    }
}

impl Range {
    /// Takes this range of a cell to the synthetic document, in which
    /// `offset` lines lie in front of the cell.
    pub fn to_synthetic(self, offset: u32) -> (moved: Result<Range, NotebookError>)
        ensures
            moved == offset_range_spec(self, offset as int),
    {
        let start = match self.start.to_synthetic(offset) {
            Ok(start) => start,
            Err(e) => {
                return Err(e);
            },
        };
        match self.end.to_synthetic(offset) {
            Ok(end) => Ok(Range { start, end }),
            Err(e) => Err(e),
        }
    }

    /// Takes this range of the synthetic document to the cell in front of
    /// which `offset` lines lie.
    pub fn to_local(self, offset: u32) -> (moved: Result<Range, NotebookError>)
        ensures
            moved == offset_range_spec(self, -(offset as int)),
    {
        let start = match self.start.to_local(offset) {
            Ok(start) => start,
            Err(e) => {
                return Err(e);
            },
        };
        match self.end.to_local(offset) {
            Ok(end) => Ok(Range { start, end }),
            Err(e) => Err(e),
        }
    }
}

} // verus!
