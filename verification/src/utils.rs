//! Cell geometry on the terminal grid: unsigned positions, sizes and
//! rectangles, and signed offsets between positions.

use vstd::prelude::*;

verus! {

/// A rectangle of cells: its top-left corner and its size.
#[derive(Debug, Clone, Copy, PartialEq, Eq, Structural)]
pub struct Rect {
    pub x: u32,
    pub y: u32,
    pub width: u32,
    pub height: u32,
}

/// A cell position: a column and a row.
#[derive(Debug, Default, Clone, Copy, PartialEq, Eq, Structural)]
pub struct Position {
    pub column: u32,
    pub row: u32,
}

/// A signed displacement between cell positions.
#[derive(Debug, Default, Clone, Copy, PartialEq, Eq, Structural)]
pub struct Offset {
    pub column: i32,
    pub row: i32,
}

/// A size in cells: a number of columns and of rows.
#[derive(Debug, Default, Clone, Copy, PartialEq, Eq, Structural)]
pub struct Size {
    pub column: u32,
    pub row: u32,
}

/// `a - 1`, or 0 when `a` is 0.
pub open spec fn minus_one_sat(a: int) -> int {
    if a > 0 {
        a - 1
    } else {
        0
    }
}

/// `a + b` limited to the range of `u32`.
pub open spec fn sat_u32(x: int) -> u32 {
    if x < 0 {
        0
    } else if x > u32::MAX {
        u32::MAX
    } else {
        x as u32
    }
}

impl Position {
    /// Positions are ordered by row first, then by column.
    pub open spec fn le_spec(self, other: Position) -> bool {
        self.row < other.row || (self.row == other.row && self.column <= other.column)
    }

    pub fn new(column: u32, row: u32) -> (r: Self)
        ensures
            r.column == column,
            r.row == row,
    {
        Self { column, row }
    }

    /// Moves the position by `offset` (see `with_moved_indices`).
    pub fn offset(&self, offset: Offset) -> (r: Self)
        ensures
            r.column == sat_u32(self.column + offset.column),
            r.row == sat_u32(self.row + offset.row),
    {
        self.with_moved_indices(offset.column, offset.row)
    }

    /// Moves the position by the given signed amounts, saturating at the
    /// bounds of `u32`.
    pub fn with_moved_indices(&self, column_offset: i32, row_offset: i32) -> (r: Self)
        ensures
            r.column == sat_u32(self.column + column_offset),
            r.row == sat_u32(self.row + row_offset),
    {
        Self { column: saturating_add_signed(self.column, column_offset), row: saturating_add_signed(self.row, row_offset) }
    }

    pub fn with_row(&self, row: u32) -> (r: Self)
        ensures
            r.column == self.column,
            r.row == row,
    {
        Self { column: self.column, row }
    }

    pub fn with_column(&self, column: u32) -> (r: Self)
        ensures
            r.column == column,
            r.row == self.row,
    {
        Self { column, row: self.row }
    }

    /// The offset from `other` to `self`.
    pub fn offset_between(&self, other: &Self) -> (r: Offset)
        requires
            self.column <= i32::MAX,
            self.row <= i32::MAX,
            other.column <= i32::MAX,
            other.row <= i32::MAX,
        ensures
            r.column == self.column - other.column,
            r.row == self.row - other.row,
    {
        self.to_offset().minus(other.to_offset())
    }

    /// The position as an offset from the origin; coordinates past
    /// `i32::MAX` wrap around.
    pub fn to_offset(&self) -> (r: Offset)
        ensures
            r.column == self.column as i32,
            r.row == self.row as i32,
    {
        Offset { column: self.column as i32, row: self.row as i32 }
    }

    /// Whether `self` comes before `other` or is equal to it.
    pub fn le(&self, other: &Position) -> (r: bool)
        ensures
            r == self.le_spec(*other),
    {
        self.row < other.row || (self.row == other.row && self.column <= other.column)
    }

    /// Componentwise difference, saturating at 0.
    pub fn saturating_sub(self, rhs: Self) -> (r: Self)
        ensures
            r.column == sat_u32(self.column - rhs.column),
            r.row == sat_u32(self.row - rhs.row),
    {
        Self {
            column: if self.column >= rhs.column { self.column - rhs.column } else { 0 },
            row: if self.row >= rhs.row { self.row - rhs.row } else { 0 },
        }
    }
}

/// `a + b` for an unsigned `a` and a signed `b`, limited to the range of `u32`.
pub fn saturating_add_signed(a: u32, b: i32) -> (r: u32)
    ensures
        r == sat_u32(a + b),
{
    let x: i64 = a as i64 + b as i64;
    if x < 0 {
        0
    } else if x > u32::MAX as i64 {
        u32::MAX
    } else {
        x as u32
    }
}

impl Offset {
    pub fn new(column_offset: i32, row_offset: i32) -> (r: Self)
        ensures
            r.column == column_offset,
            r.row == row_offset,
    {
        Self { column: column_offset, row: row_offset }
    }

    /// Componentwise sum.
    pub fn plus(self, rhs: Self) -> (r: Self)
        requires
            i32::MIN <= self.column + rhs.column <= i32::MAX,
            i32::MIN <= self.row + rhs.row <= i32::MAX,
        ensures
            r.column == self.column + rhs.column,
            r.row == self.row + rhs.row,
    {
        Self { column: self.column + rhs.column, row: self.row + rhs.row }
    }

    /// Componentwise difference.
    pub fn minus(self, rhs: Self) -> (r: Self)
        requires
            i32::MIN <= self.column - rhs.column <= i32::MAX,
            i32::MIN <= self.row - rhs.row <= i32::MAX,
        ensures
            r.column == self.column - rhs.column,
            r.row == self.row - rhs.row,
    {
        Self { column: self.column - rhs.column, row: self.row - rhs.row }
    }

    /// The opposite offset.
    pub fn negated(self) -> (r: Self)
        requires
            self.column != i32::MIN,
            self.row != i32::MIN,
        ensures
            r.column == -self.column,
            r.row == -self.row,
    {
        Self { column: -self.column, row: -self.row }
    }
}

impl Size {
    pub fn new(column: u32, row: u32) -> (r: Self)
        ensures
            r.column == column,
            r.row == row,
    {
        Self { column, row }
    }
}

impl Rect {
    /// Whether the rectangle's far edges can be computed: it ends within
    /// the range of `u32`.
    pub open spec fn fits(self) -> bool {
        self.x + self.width <= u32::MAX && self.y + self.height <= u32::MAX
    }

    pub open spec fn bottom_spec(self) -> int {
        minus_one_sat(self.y + self.height)
    }

    pub open spec fn right_spec(self) -> int {
        minus_one_sat(self.x + self.width)
    }

    pub fn new(x: u32, y: u32, width: u32, height: u32) -> (r: Self)
        ensures
            r == (Rect { x, y, width, height }),
    {
        Self { x, y, width, height }
    }

    pub fn with_position_and_size(position: Position, size: Size) -> (r: Self)
        ensures
            r == (Rect { x: position.column, y: position.row, width: size.column, height: size.row }),
    {
        Self { x: position.column, y: position.row, width: size.column, height: size.row }
    }

    /// The smallest rectangle that holds both positions.
    pub fn from_positions(a: Position, b: Position) -> (r: Self)
        requires
            a.column - b.column < u32::MAX,
            b.column - a.column < u32::MAX,
            a.row - b.row < u32::MAX,
            b.row - a.row < u32::MAX,
        ensures
            r.x == (if a.column <= b.column { a.column } else { b.column }),
            r.y == (if a.row <= b.row { a.row } else { b.row }),
            r.x + r.width - 1 == (if a.column <= b.column { b.column } else { a.column }),
            r.y + r.height - 1 == (if a.row <= b.row { b.row } else { a.row }),
    {
        let top = if a.row <= b.row { a.row } else { b.row };
        let bottom = if a.row <= b.row { b.row } else { a.row };
        let left = if a.column <= b.column { a.column } else { b.column };
        let right = if a.column <= b.column { b.column } else { a.column };
        let width = right - left + 1;
        let height = bottom - top + 1;
        Self { x: left, y: top, width, height }
    }

    pub fn top(&self) -> (r: u32)
        ensures
            r == self.y,
    {
        self.y
    }

    /// The last row, or the top row of an empty rectangle at the origin.
    pub fn bottom(&self) -> (r: u32)
        requires
            self.fits(),
        ensures
            r == self.bottom_spec(),
    {
        let end = self.y + self.height;
        if end > 0 { end - 1 } else { 0 }
    }

    pub fn left(&self) -> (r: u32)
        ensures
            r == self.x,
    {
        self.x
    }

    /// The last column, or the left column of an empty rectangle at the origin.
    pub fn right(&self) -> (r: u32)
        requires
            self.fits(),
        ensures
            r == self.right_spec(),
    {
        let end = self.x + self.width;
        if end > 0 { end - 1 } else { 0 }
    }

    pub fn top_left(&self) -> (r: Position)
        ensures
            r == (Position { column: self.x, row: self.y }),
    {
        Position::new(self.x, self.y)
    }

    pub fn bottom_right(&self) -> (r: Position)
        requires
            self.fits(),
        ensures
            r == (Position { column: self.right_spec() as u32, row: self.bottom_spec() as u32 }),
    {
        Position::new(self.right(), self.bottom())
    }

    pub fn size(&self) -> (r: Size)
        ensures
            r == (Size { column: self.width, row: self.height }),
    {
        Size::new(self.width, self.height)
    }

    /// Whether `position` lies, in the order of positions (row first), between
    /// the top-left and the bottom-right corners.
    pub fn contains_position(&self, position: Position) -> (r: bool)
        requires
            self.fits(),
        ensures
            r == (Position { column: self.x, row: self.y }.le_spec(position) && position.le_spec(
                Position { column: self.right_spec() as u32, row: self.bottom_spec() as u32 },
            )),
    {
        self.top_left().le(&position) && position.le(&self.bottom_right())
    }

    /// The rectangle of the cells of both rectangles, if there is one.
    pub fn intersection(&self, other: Rect) -> (r: Option<Rect>)
        requires
            self.fits(),
            other.fits(),
        ensures
            ({
                let top = if self.y >= other.y { self.y as int } else { other.y as int };
                let bottom = if self.bottom_spec() <= other.bottom_spec() {
                    self.bottom_spec()
                } else {
                    other.bottom_spec()
                };
                let left = if self.x >= other.x { self.x as int } else { other.x as int };
                let right = if self.right_spec() <= other.right_spec() {
                    self.right_spec()
                } else {
                    other.right_spec()
                };
                if top <= bottom && left <= right {
                    r == Some(
                        Rect {
                            x: left as u32,
                            y: top as u32,
                            width: (right - left + 1) as u32,
                            height: (bottom - top + 1) as u32,
                        },
                    )
                } else {
                    r.is_none()
                }
            }),
    {
        let top = if self.top() >= other.top() { self.top() } else { other.top() };
        let bottom = if self.bottom() <= other.bottom() { self.bottom() } else { other.bottom() };
        let left = if self.left() >= other.left() { self.left() } else { other.left() };
        let right = if self.right() <= other.right() { self.right() } else { other.right() };
        if top <= bottom && left <= right {
            Some(Rect::new(left, top, right - left + 1, bottom - top + 1))
        } else {
            None
        }
    }
}

} // verus!
