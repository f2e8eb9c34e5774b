//! A view of a buffer: which buffer, and where its top-left corner is.

use vstd::prelude::*;

use crate::position::{Position, Row, sat_add_i32};
use crate::slotmap::Handle;

verus! {

/// A view of a buffer, scrolled so that `top_left` is its first cell.
#[derive(Debug, Clone, Copy, PartialEq, Eq, Structural)]
pub struct View {
    pub top_left: Position,
    pub buffer: Handle,
}

impl View {
    /// A buffer position as seen in the view: relative to the top-left
    /// corner (see `Position::local_to_pos`).
    pub fn map_logical_position_to_view_position(&self, position: Position) -> (r: Position)
        ensures
            r == position.local_to_pos_spec(self.top_left),
    {
        position.local_to_pos(self.top_left)
    }

    /// A view position as a buffer position: moved by the top-left corner
    /// (see `Position::offset`).
    pub fn map_view_position_to_logical_position(&self, position: Position) -> (r: Position)
        ensures
            r == position.offset_spec(self.top_left.to_offset_spec()),
    {
        position.offset(self.top_left.to_offset())
    }

    /// The number, counted from 1, of the buffer line that line `idx` of
    /// the view shows.
    pub fn map_view_line_idx_to_line_number(&self, idx: Row) -> (r: Option<Row>)
        requires
            i32::MIN <= idx + self.top_left.row + 1 <= i32::MAX,
            i32::MIN <= idx + self.top_left.row,
        ensures
            r == Some((idx + self.top_left.row + 1) as Row),
    {
        let view_line = idx + self.top_left.row;
        Some(view_line + 1)
    }
}

/// Seeing a buffer position in a view and mapping it back gives the
/// position back, when no coordinate reaches the bounds of `i32`.
pub proof fn law_view_position_round_trip(view: View, position: Position)
    requires
        i32::MIN < position.column - view.top_left.column < i32::MAX,
        i32::MIN < position.row - view.top_left.row < i32::MAX,
    ensures
        position.local_to_pos_spec(view.top_left).offset_spec(view.top_left.to_offset_spec()) == position,
{
}

/// Mapping a view position to the buffer and back gives the position
/// back, when no coordinate reaches the bounds of `i32`.
pub proof fn law_logical_position_round_trip(view: View, position: Position)
    requires
        i32::MIN < position.column + view.top_left.column < i32::MAX,
        i32::MIN < position.row + view.top_left.row < i32::MAX,
    ensures
        position.offset_spec(view.top_left.to_offset_spec()).local_to_pos_spec(view.top_left) == position,
{
}

} // verus!
