//! Rectangles of terminal cells, in signed coordinates.

use vstd::prelude::*;

use crate::position::{Offset, Position, sat_add_i32, saturating_add_i32};

verus! {

/// A rectangle of cells: its top-left corner and its size.
#[derive(Debug, Clone, Copy, PartialEq, Eq, Structural)]
pub struct Rect {
    pub x: i32,
    pub y: i32,
    pub width: i32,
    pub height: i32,
}

/// A size in cells: a number of columns and of rows.
#[derive(Debug, Default, Clone, Copy, PartialEq, Eq, Structural)]
pub struct Size {
    pub column: i32,
    pub row: i32,
}

impl Size {
    pub fn new(column: i32, row: i32) -> (r: Self)
        ensures
            r == (Size { column, row }),
    {
        Self { column, row }
    }
}

impl Default for Rect {
    fn default() -> (r: Self)
        ensures
            r == (Rect { x: 0, y: 0, width: 1, height: 1 }),
    {
        Self::new(0, 0, 1, 1)
    }
}

/// The larger of two integers.
pub open spec fn max_spec(a: int, b: int) -> int {
    if a >= b {
        a
    } else {
        b
    }
}

/// The smaller of two integers.
pub open spec fn min_spec(a: int, b: int) -> int {
    if a <= b {
        a
    } else {
        b
    }
}

/// The cells of row `y` from column `x`, `n` of them.
pub open spec fn row_cells(x: int, y: int, n: int) -> Seq<Position> {
    Seq::new(n as nat, |j: int| Position { column: (x + j) as i32, row: y as i32 })
}

/// The cells of `rows` rows from row `y`, each of `n` cells from column `x`,
/// row by row.
pub open spec fn grid_cells(x: int, y: int, n: int, rows: int) -> Seq<Position>
    decreases rows,
{
    if rows <= 0 {
        Seq::empty()
    } else {
        grid_cells(x, y, n, rows - 1) + row_cells(x, y + rows - 1, n)
    }
}

impl Rect {
    /// The last row: `y + height - 1`, saturating at the bounds of `i32`.
    pub open spec fn bottom_spec(self) -> i32 {
        sat_add_i32(sat_add_i32(self.y as int, self.height as int) as int, -1)
    }

    /// The last column: `x + width - 1`, saturating at the bounds of `i32`.
    pub open spec fn right_spec(self) -> i32 {
        sat_add_i32(sat_add_i32(self.x as int, self.width as int) as int, -1)
    }

    pub fn new(x: i32, y: i32, width: i32, height: i32) -> (r: Self)
        ensures
            r == (Rect { x, y, width, height }),
    {
        Self { x, y, width, height }
    }

    pub fn with_position_and_size(position: Position, size: Size) -> (r: Self)
        ensures
            r == (Rect { x: position.column, y: position.row, width: size.column, height: size.row }),
    {
        Self { x: position.column, y: position.row, width: size.column, height: size.row }
    }

    /// The smallest rectangle that holds both positions (its size saturating
    /// at `i32::MAX`).
    pub fn from_positions(a: Position, b: Position) -> (r: Self)
        requires
            max_spec(a.column as int, b.column as int) - min_spec(a.column as int, b.column as int) <= i32::MAX,
            max_spec(a.row as int, b.row as int) - min_spec(a.row as int, b.row as int) <= i32::MAX,
        ensures
            r.x == min_spec(a.column as int, b.column as int),
            r.y == min_spec(a.row as int, b.row as int),
            r.width == sat_add_i32(max_spec(a.column as int, b.column as int) - min_spec(a.column as int, b.column as int), 1),
            r.height == sat_add_i32(max_spec(a.row as int, b.row as int) - min_spec(a.row as int, b.row as int), 1),
    {
        let top = if a.row <= b.row { a.row } else { b.row };
        let bottom = if a.row <= b.row { b.row } else { a.row };
        let left = if a.column <= b.column { a.column } else { b.column };
        let right = if a.column <= b.column { b.column } else { a.column };
        let width = saturating_add_i32(right - left, 1);
        let height = saturating_add_i32(bottom - top, 1);
        Self { x: left, y: top, width, height }
    }

    pub fn top(&self) -> (r: i32)
        ensures
            r == self.y,
    {
        self.y
    }

    pub fn bottom(&self) -> (r: i32)
        ensures
            r == self.bottom_spec(),
    {
        saturating_add_i32(saturating_add_i32(self.y, self.height), -1)
    }

    pub fn left(&self) -> (r: i32)
        ensures
            r == self.x,
    {
        self.x
    }

    pub fn right(&self) -> (r: i32)
        ensures
            r == self.right_spec(),
    {
        saturating_add_i32(saturating_add_i32(self.x, self.width), -1)
    }

    pub fn top_left(&self) -> (r: Position)
        ensures
            r == (Position { column: self.x, row: self.y }),
    {
        Position::new(self.left(), self.top())
    }

    pub fn top_right(&self) -> (r: Position)
        ensures
            r == (Position { column: self.right_spec(), row: self.y }),
    {
        Position::new(self.right(), self.top())
    }

    pub fn bottom_right(&self) -> (r: Position)
        ensures
            r == (Position { column: self.right_spec(), row: self.bottom_spec() }),
    {
        Position::new(self.right(), self.bottom())
    }

    pub fn size(&self) -> (r: Size)
        ensures
            r == (Size { column: self.width, row: self.height }),
    {
        Size::new(self.width, self.height)
    }

    /// Whether the cell at `position` lies in the rectangle.
    pub fn contains_position(&self, position: Position) -> (r: bool)
        ensures
            r == self.contains_spec(position),
    {
        self.left() <= position.column && position.column <= self.right() && self.top() <= position.row
            && position.row <= self.bottom()
    }

    /// Whether the cell at `position` lies in the rectangle.
    pub open spec fn contains_spec(self, position: Position) -> bool {
        self.x <= position.column <= self.right_spec() && self.y <= position.row <= self.bottom_spec()
    }

    /// The rectangle of the cells of both rectangles, if there is one.
    pub open spec fn intersection_spec(self, other: Rect) -> Option<Rect> {
        let top = max_spec(self.y as int, other.y as int);
        let bottom = min_spec(self.bottom_spec() as int, other.bottom_spec() as int);
        let left = max_spec(self.x as int, other.x as int);
        let right = min_spec(self.right_spec() as int, other.right_spec() as int);
        if top <= bottom && left <= right {
            Some(
                Rect {
                    x: left as i32,
                    y: top as i32,
                    width: (right - left + 1) as i32,
                    height: (bottom - top + 1) as i32,
                },
            )
        } else {
            None
        }
    }

    /// The rectangle of the cells of both rectangles, if there is one.
    pub fn intersection(&self, other: Rect) -> (r: Option<Rect>)
        requires
            min_spec(self.right_spec() as int, other.right_spec() as int) - max_spec(self.x as int, other.x as int)
                < i32::MAX,
            min_spec(self.bottom_spec() as int, other.bottom_spec() as int) - max_spec(self.y as int, other.y as int)
                < i32::MAX,
        ensures
            r == self.intersection_spec(other),
    {
        let top = if self.top() >= other.top() { self.top() } else { other.top() };
        let bottom = if self.bottom() <= other.bottom() { self.bottom() } else { other.bottom() };
        let left = if self.left() >= other.left() { self.left() } else { other.left() };
        let right = if self.right() <= other.right() { self.right() } else { other.right() };
        if top <= bottom && left <= right {
            Some(Rect::new(left, top, right - left + 1, bottom - top + 1))
        } else {
            None
        }
    }

    /// Whether `offset_from_position` can compute the offset of `position`
    /// in 32-bit arithmetic.
    pub open spec fn offset_fits(self, position: Position) -> bool {
        &&& i32::MIN <= position.column - self.x
        &&& position.column - self.right_spec() <= i32::MAX
        &&& i32::MIN <= position.row - self.y
        &&& position.row - self.bottom_spec() <= i32::MAX
    }

    /// How far `position` lies outside the rectangle: zero on an axis where
    /// it is within, otherwise its signed distance to the nearest edge.
    pub open spec fn outside_offset(self, position: Position) -> Offset {
        Offset {
            column: (if position.column < self.x {
                position.column - self.x
            } else if position.column > self.right_spec() {
                position.column - self.right_spec()
            } else {
                0
            }) as i32,
            row: (if position.row < self.y {
                position.row - self.y
            } else if position.row > self.bottom_spec() {
                position.row - self.bottom_spec()
            } else {
                0
            }) as i32,
        }
    }

    /// How far `position` lies outside the rectangle: zero on an axis where
    /// it is within, otherwise its signed distance to the nearest edge.
    pub fn offset_from_position(&self, position: Position) -> (r: Offset)
        requires
            i32::MIN <= position.column - self.x,
            position.column - self.right_spec() <= i32::MAX,
            i32::MIN <= position.row - self.y,
            position.row - self.bottom_spec() <= i32::MAX,
        ensures
            r.column == (if position.column < self.x {
                position.column - self.x
            } else if position.column > self.right_spec() {
                position.column - self.right_spec()
            } else {
                0
            }),
            r.row == (if position.row < self.y {
                position.row - self.y
            } else if position.row > self.bottom_spec() {
                position.row - self.bottom_spec()
            } else {
                0
            }),
            r == self.outside_offset(position),
    {
        let column_offset: i32 = if position.column < self.left() {
            position.column - self.left()
        } else if position.column > self.right() {
            position.column - self.right()
        } else {
            0
        };
        let row_offset: i32 = if position.row < self.top() {
            position.row - self.top()
        } else if position.row > self.bottom() {
            position.row - self.bottom()
        } else {
            0
        };
        Offset::new(column_offset, row_offset)
    }

    /// The rectangle moved by `offset`, saturating at the bounds of `i32`.
    pub fn offset(&self, offset: Offset) -> (r: Self)
        ensures
            r == (Rect {
                x: sat_add_i32(self.x as int, offset.column as int),
                y: sat_add_i32(self.y as int, offset.row as int),
                width: self.width,
                height: self.height,
            }),
    {
        Self {
            x: saturating_add_i32(self.x, offset.column),
            y: saturating_add_i32(self.y, offset.row),
            width: self.width,
            height: self.height,
        }
    }

    /// The rectangle grown by the given amounts on each side, saturating at
    /// the bounds of `i32`.
    pub fn grown(&self, top: i32, bottom: i32, left: i32, right: i32) -> (r: Self)
        requires
            left != i32::MIN,
            top != i32::MIN,
            i32::MIN <= right + left <= i32::MAX,
            i32::MIN <= bottom + top <= i32::MAX,
        ensures
            r == (Rect {
                x: sat_add_i32(self.x as int, -left),
                y: sat_add_i32(self.y as int, -top),
                width: sat_add_i32(self.width as int, right + left),
                height: sat_add_i32(self.height as int, bottom + top),
            }),
    {
        Self {
            x: saturating_add_i32(self.x, -left),
            y: saturating_add_i32(self.y, -top),
            width: saturating_add_i32(self.width, right + left),
            height: saturating_add_i32(self.height, bottom + top),
        }
    }

    /// Number of cells that `cells` gives on each row: the width, or one
    /// cell for a rectangle of no width.
    pub open spec fn cells_per_row(self) -> int {
        if self.right_spec() >= self.x {
            self.right_spec() - self.x + 1
        } else {
            1
        }
    }

    /// Number of rows that `cells` goes through.
    pub open spec fn cell_rows(self) -> int {
        if self.bottom_spec() >= self.y {
            self.bottom_spec() - self.y + 1
        } else {
            0
        }
    }

    /// The cells of the rectangle, row by row from the top, each row from
    /// the left (see `grid_cells`).
    pub fn cells(&self) -> (r: Vec<Position>)
        requires
            self.right_spec() < i32::MAX,
            self.bottom_spec() < i32::MAX,
            self.cell_rows() > 0 ==> self.x < i32::MAX,
        ensures
            r@ == grid_cells(self.x as int, self.y as int, self.cells_per_row(), self.cell_rows()),
    {
        let end_y = self.bottom();
        let end_x = self.right();
        let mut cells: Vec<Position> = Vec::new();
        let mut y = self.y;
        let ghost n = self.cells_per_row();
        while y <= end_y
            invariant
                end_y == self.bottom_spec(),
                end_x == self.right_spec(),
                end_y < i32::MAX,
                end_x < i32::MAX,
                self.cell_rows() > 0 ==> self.x < i32::MAX,
                n == self.cells_per_row(),
                self.y <= y,
                y <= end_y + 1 || (y == self.y && end_y < self.y),
                cells@ == grid_cells(self.x as int, self.y as int, n, y - self.y),
            decreases end_y + 1 - y,
        {
            let ghost before = cells@;
            let mut x = self.x;
            cells.push(Position::new(x, y));
            x += 1;
            proof {
                assert(cells@ =~= before + row_cells(self.x as int, y as int, x - self.x));
            }
            while x <= end_x
                invariant
                    end_x == self.right_spec(),
                    end_x < i32::MAX,
                    n == self.cells_per_row(),
                    self.x < x,
                    x <= end_x + 1 || (x == self.x + 1 && end_x < self.x + 1),
                    cells@ == before + row_cells(self.x as int, y as int, x - self.x),
                decreases end_x + 1 - x,
            {
                cells.push(Position::new(x, y));
                x += 1;
                proof {
                    assert(cells@ =~= before + row_cells(self.x as int, y as int, x - self.x));
                }
            }
            proof {
                assert(x - self.x == n);
                let rows = y - self.y + 1;
                assert(grid_cells(self.x as int, self.y as int, n, rows) == grid_cells(
                    self.x as int,
                    self.y as int,
                    n,
                    rows - 1,
                ) + row_cells(self.x as int, self.y + rows - 1, n));
            }
            y += 1;
        }
        proof {
            assert(y - self.y == self.cell_rows());
        }
        cells
    }
}

/// Intersecting two rectangles does not depend on their order.
pub proof fn law_intersection_commutes(a: Rect, b: Rect)
    ensures
        a.intersection_spec(b) == b.intersection_spec(a),
{
}

/// The intersection of two rectangles holds exactly the cells that both hold.
pub proof fn law_intersection_cells(a: Rect, b: Rect, p: Position)
    requires
        min_spec(a.right_spec() as int, b.right_spec() as int) - max_spec(a.x as int, b.x as int) < i32::MAX,
        min_spec(a.bottom_spec() as int, b.bottom_spec() as int) - max_spec(a.y as int, b.y as int) < i32::MAX,
    ensures
        (a.contains_spec(p) && b.contains_spec(p)) == (a.intersection_spec(b) matches Some(i) && i.contains_spec(p)),
{
}

} // verus!
