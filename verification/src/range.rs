use vstd::prelude::*;

use crate::position::Position;

verus! {

/// A range that is [inclusive, exclusive[
#[derive(Debug, Clone, Copy, PartialEq, Eq, Structural)]
pub struct Range {
    pub start: Position,
    pub end: Position,
}

impl Range {
    pub open spec fn normalized_spec(self) -> Range {
        if self.end.precedes_spec(self.start) {
            Range { start: self.end, end: self.start }
        } else {
            self
        }
    }

    /// The same range with its bounds ordered.
    pub fn normalized(self) -> (r: Self)
        ensures
            r == self.normalized_spec(),
            r.start.precedes_or_eq_spec(r.end),
    {
        if self.end.precedes(&self.start) {
            Self { start: self.end, end: self.start }
        } else {
            self
        }
    }

    /// Whether `pos` lies in `[start, end[`.
    pub fn contains(&self, pos: Position) -> (r: bool)
        ensures
            r == (self.start.precedes_or_eq_spec(pos) && pos.precedes_spec(self.end)),
    {
        self.start.precedes_or_eq(&pos) && pos.precedes(&self.end)
    }

    pub fn is_empty(&self) -> (r: bool)
        ensures
            r == (self.start == self.end),
    {
        self.start.row == self.end.row && self.start.column == self.end.column
    }

    /// The range between two positions, in the order given.
    pub fn from_positions(start: Position, end: Position) -> (r: Self)
        ensures
            r.start == start,
            r.end == end,
    {
        Self { start, end }
    }

    /// The empty range at `pos`.
    pub fn from_position(pos: Position) -> (r: Self)
        ensures
            r.start == pos,
            r.end == pos,
    {
        Self { start: pos, end: pos }
    }
}

} // verus!
