use vstd::prelude::*;

verus! {

/// Row index type used by buffer positions.
pub type Row = i32;

/// Column index type used by buffer positions.
pub type Column = i32;

/// `a + b` in 32-bit signed arithmetic, saturating at the bounds.
pub open spec fn sat_add_i32(a: int, b: int) -> i32 {
    if a + b > i32::MAX {
        i32::MAX
    } else if a + b < i32::MIN {
        i32::MIN
    } else {
        (a + b) as i32
    }
}

/// Saturating signed addition.
pub fn saturating_add_i32(a: i32, b: i32) -> (r: i32)
    ensures
        r == sat_add_i32(a as int, b as int),
{
    let wide: i64 = a as i64 + b as i64;
    if wide > i32::MAX as i64 {
        i32::MAX
    } else if wide < i32::MIN as i64 {
        i32::MIN
    } else {
        wide as i32
    }
}

/// Signum of a 32-bit integer.
pub open spec fn signum_spec(x: i32) -> i32 {
    if x > 0 {
        1
    } else if x < 0 {
        -1i32
    } else {
        0
    }
}

/// Sign of `x`: -1, 0 or 1.
pub fn signum(x: i32) -> (r: i32)
    ensures
        r == signum_spec(x),
{
    if x > 0 {
        1
    } else if x < 0 {
        -1i32
    } else {
        0
    }
}

/// A position in a text buffer, or on a grid of cells: a column and a row.
#[derive(Debug, Clone, Copy, PartialEq, Eq, Structural)]
pub struct Position {
    pub column: Column,
    pub row: Row,
}

/// A signed displacement between positions.
#[derive(Debug, Clone, Copy, PartialEq, Eq, Structural)]
pub struct Offset {
    pub column: i32,
    pub row: i32,
}

impl Offset {
    pub fn new(column_offset: i32, row_offset: i32) -> (r: Self)
        ensures
            r.column == column_offset,
            r.row == row_offset,
    {
        Self { column: column_offset, row: row_offset }
    }
}

impl Position {
    /// Positions are ordered by row first, then by column.
    pub open spec fn precedes_spec(self, other: Position) -> bool {
        self.row < other.row || (self.row == other.row && self.column < other.column)
    }

    pub open spec fn precedes_or_eq_spec(self, other: Position) -> bool {
        self.precedes_spec(other) || self == other
    }

    pub open spec fn new_spec(column: Column, row: Row) -> Position {
        Position { column, row }
    }

    pub fn new(column: Column, row: Row) -> (r: Self)
        ensures
            r == Self::new_spec(column, row),
    {
        Self { column, row }
    }

    /// The origin, column 0 of row 0.
    pub fn zero() -> (r: Self)
        ensures
            r.column == 0,
            r.row == 0,
    {
        Self { column: 0, row: 0 }
    }

    /// Whether `self` comes strictly before `other`.
    pub fn precedes(&self, other: &Position) -> (r: bool)
        ensures
            r == self.precedes_spec(*other),
    {
        self.row < other.row || (self.row == other.row && self.column < other.column)
    }

    /// Whether `self` comes before `other` or is equal to it.
    pub fn precedes_or_eq(&self, other: &Position) -> (r: bool)
        ensures
            r == self.precedes_or_eq_spec(*other),
    {
        self.precedes(other) || (self.row == other.row && self.column == other.column)
    }

    pub open spec fn offset_spec(self, offset: Offset) -> Position {
        Position {
            column: sat_add_i32(self.column as int, offset.column as int),
            row: sat_add_i32(self.row as int, offset.row as int),
        }
    }

    /// Moves the position by `offset`, saturating at the bounds of `i32`.
    pub fn offset(&self, offset: Offset) -> (r: Self)
        ensures
            r == self.offset_spec(offset),
    {
        Self {
            column: saturating_add_i32(self.column, offset.column),
            row: saturating_add_i32(self.row, offset.row),
        }
    }

    pub fn with_row(&self, row: Row) -> (r: Self)
        ensures
            r.column == self.column,
            r.row == row,
    {
        Self { column: self.column, row }
    }

    pub fn with_column(&self, column: Column) -> (r: Self)
        ensures
            r.column == column,
            r.row == self.row,
    {
        Self { column, row: self.row }
    }

    /// The position as an offset from the origin.
    pub open spec fn to_offset_spec(self) -> Offset {
        Offset { column: self.column, row: self.row }
    }

    pub fn to_offset(&self) -> (r: Offset)
        ensures
            r == self.to_offset_spec(),
    {
        Offset { column: self.column, row: self.row }
    }

    pub open spec fn local_to_pos_spec(self, origin: Position) -> Position {
        Position {
            column: sat_add_i32(self.column as int, -(origin.column as int)),
            row: sat_add_i32(self.row as int, -(origin.row as int)),
        }
    }

    /// Expresses `self` relative to `origin` (the difference of the two),
    /// saturating at the bounds of `i32`.
    pub fn local_to_pos(&self, origin: Position) -> (r: Self)
        ensures
            r == self.local_to_pos_spec(origin),
    {
        let column = (self.column as i64 - origin.column as i64);
        let row = (self.row as i64 - origin.row as i64);
        Self { column: clamp_i64_to_i32(column), row: clamp_i64_to_i32(row) }
    }
}

/// Clamps a 64-bit value into the range of `i32`.
pub fn clamp_i64_to_i32(x: i64) -> (r: i32)
    ensures
        r == sat_add_i32(x as int, 0),
{
    if x > i32::MAX as i64 {
        i32::MAX
    } else if x < i32::MIN as i64 {
        i32::MIN
    } else {
        x as i32
    }
}

} // verus!
