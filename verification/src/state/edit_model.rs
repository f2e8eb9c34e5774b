//! What edits do to the lines of a buffer, as functions of the lines.

use vstd::prelude::*;

use crate::position::{Offset, Position};
use crate::range::Range;
use crate::selection::Selection;
use crate::state::lines::{delete_lines, insert_lines, join_lines, split_lines};
use crate::state::text_buffer::{PositionShift, shift_selections};

verus! {

/// `x` clamped into `[lo, hi]`.
pub open spec fn clamp_spec(x: int, lo: int, hi: int) -> int {
    if x < lo {
        lo
    } else if x > hi {
        hi
    } else {
        x
    }
}

/// The position limited to the content: row clamped to the lines, column
/// clamped to the line's characters and terminator.
pub open spec fn limit_position_in(lines: Seq<Seq<char>>, p: Position) -> Position {
    let row = clamp_spec(p.row as int, 0, lines.len() - 1);
    Position { row: row as i32, column: clamp_spec(p.column as int, 0, lines[row].len() as int) as i32 }
}

/// A range edge limited to the content: like a position, but the column may
/// also be one past the line's terminator.
pub open spec fn limit_range_edge_in(lines: Seq<Seq<char>>, p: Position) -> Position {
    let row = clamp_spec(p.row as int, 0, lines.len() - 1);
    Position { row: row as i32, column: clamp_spec(p.column as int, 0, lines[row].len() + 1int) as i32 }
}

/// The range that deleting `range` deletes: both edges limited to the
/// content, ordered, and, when the end lies one past its line's terminator,
/// moved to the start of the next line, or, on the last line, back onto the
/// line's end. An empty range (before that last step) is left as it is.
pub open spec fn deleted_span_in(lines: Seq<Seq<char>>, range: Range) -> Range {
    let r = Range {
        start: limit_range_edge_in(lines, range.start),
        end: limit_range_edge_in(lines, range.end),
    }.normalized_spec();
    if r.start == r.end {
        r
    } else if lines[r.end.row as int].len() < r.end.column {
        if r.end.row != lines.len() - 1 {
            Range { start: r.start, end: Position { column: 0, row: (r.end.row + 1) as i32 } }
        } else {
            Range { start: r.start, end: Position { column: (r.end.column - 1) as i32, row: r.end.row } }
        }
    } else {
        r
    }
}

/// Whether deleting `range` is defined: either nothing is deleted, or the
/// start lies on its line, not past its terminator.
pub open spec fn can_delete_in(lines: Seq<Seq<char>>, range: Range) -> bool {
    let r = deleted_span_in(lines, range);
    r.start == r.end || r.start.column <= lines[r.start.row as int].len()
}

/// The text that row `row` contributes to the text of a selection from
/// `start` to `end` (both included): the part of the row between them,
/// limited to the content, and the row's line feed when the part reaches the
/// end of the row and the row is not the last.
pub open spec fn segment_text_in(lines: Seq<Seq<char>>, start: Position, end: Position, row: int) -> Seq<char> {
    let ls = Position { row: row as i32, column: if row == start.row { start.column } else { 0 } };
    let le = Position { row: row as i32, column: if row == end.row { end.column } else { i32::MAX } };
    let cs = limit_position_in(lines, ls);
    let ce = limit_position_in(lines, le);
    let line = lines[cs.row as int];
    if ce.column >= line.len() {
        line.skip(cs.column as int) + (if ce.row == lines.len() - 1 {
            Seq::<char>::empty()
        } else {
            seq!['\n']
        })
    } else {
        line.subrange(cs.column as int, ce.column + 1)
    }
}

/// The text of rows `start.row..=last_row` of a selection from `start` to `end`.
pub open spec fn rows_text_in(lines: Seq<Seq<char>>, start: Position, end: Position, last_row: int) -> Seq<char>
    decreases last_row + 1 - start.row,
{
    if last_row < start.row {
        Seq::empty()
    } else {
        rows_text_in(lines, start, end, last_row - 1) + segment_text_in(lines, start, end, last_row)
    }
}

/// The text of a selection: each row from its start to its end contributes
/// its part (see `segment_text_in`).
pub open spec fn selection_text_in(lines: Seq<Seq<char>>, selection: Selection) -> Seq<char> {
    rows_text_in(lines, selection.start_spec(), selection.end_spec(), selection.end_spec().row as int)
}

/// The text of a range: empty for an empty range, otherwise the text of the
/// selection from its (ordered) start to the column before its end.
pub open spec fn range_text_in(lines: Seq<Seq<char>>, range: Range) -> Seq<char> {
    let n = range.normalized_spec();
    if n.start == n.end {
        Seq::empty()
    } else {
        selection_text_in(
            lines,
            Selection { anchor: n.start, cursor: n.end.offset_spec(Offset { column: -1i32, row: 0i32 }) },
        )
    }
}

/// The end of the text inserted at `at`, before any adjustment.
pub open spec fn insert_end_spec(at: Position, s: Seq<char>) -> Position {
    let parts = split_lines(s);
    let n = parts.len() as int;
    Position {
        row: (at.row + n - 1) as i32,
        column: (if n == 1 {
            at.column + parts[0].len()
        } else {
            parts[n - 1].len() as int
        }) as i32,
    }
}

/// The range that text `s`, inserted at `at` into `lines`, covers. A range
/// ending at column 0 of a line is expressed as ending one past the
/// terminator of the line before.
pub open spec fn inserted_range_spec(lines: Seq<Seq<char>>, at: Position, s: Seq<char>) -> Range {
    let end = insert_end_spec(at, s);
    let new_lines = insert_lines(lines, at.row as int, at.column as int, s);
    if end.column == 0 && end.row != 0 {
        Range {
            start: at,
            end: Position { row: (end.row - 1) as i32, column: (new_lines[end.row - 1].len() + 1) as i32 },
        }
    } else {
        Range { start: at, end }
    }
}

/// The lines after deleting `range` (see `deleted_span_in`).
pub open spec fn lines_after_delete(lines: Seq<Seq<char>>, range: Range) -> Seq<Seq<char>> {
    let d = deleted_span_in(lines, range);
    if range.start == range.end || d.start == d.end {
        lines
    } else {
        delete_lines(lines, d.start.row as int, d.start.column as int, d.end.row as int, d.end.column as int)
    }
}

/// The lines after an edit: its range is deleted, then its text is inserted
/// where the range started (its first edge), limited to the content that is
/// left, so that the text takes the range's place.
pub open spec fn lines_after_edit(lines: Seq<Seq<char>>, range: Range, text: Seq<char>) -> Seq<Seq<char>> {
    let mid = lines_after_delete(lines, range);
    if text.len() == 0 {
        mid
    } else {
        let a = limit_position_in(mid, range.normalized_spec().start);
        insert_lines(mid, a.row as int, a.column as int, text)
    }
}

/// The edit that undoes an edit: it inserts the text that the edit deleted
/// over the range that the edit's text covers.
pub open spec fn inverse_edit_in(lines: Seq<Seq<char>>, range: Range, text: Seq<char>) -> (Range, Seq<char>) {
    let mid = lines_after_delete(lines, range);
    (
        if text.len() == 0 {
            Range { start: range.start, end: range.start }
        } else {
            inserted_range_spec(mid, limit_position_in(mid, range.normalized_spec().start), text)
        },
        range_text_in(lines, range),
    )
}

/// Whether an edit may be applied to `lines`: what it deletes is defined and
/// the result is short enough.
pub open spec fn edit_allowed(lines: Seq<Seq<char>>, range: Range, text: Seq<char>) -> bool {
    &&& lines.len() >= 1
    &&& (range.start != range.end ==> can_delete_in(lines, range))
    &&& join_lines(lines).len() + text.len() < i32::MAX
}


/// Where the selections of a view move to when an edit is applied: moved by
/// the deletion, then by the insertion.
pub open spec fn selections_after_edit(
    sels: Seq<Selection>,
    lines: Seq<Seq<char>>,
    range: Range,
    text: Seq<char>,
) -> Seq<Selection> {
    let d = deleted_span_in(lines, range);
    let s1 = if range.start == range.end || d.start == d.end {
        sels
    } else {
        shift_selections(sels, PositionShift::AfterDelete(d))
    };
    let mid = lines_after_delete(lines, range);
    let a = limit_position_in(mid, range.normalized_spec().start);
    if text.len() == 0 {
        s1
    } else {
        shift_selections(s1, PositionShift::AfterInsert(Range { start: a, end: insert_end_spec(a, text) }))
    }
}


/// The lines after applying `edits` from the last to the first, as undo does.
pub open spec fn undo_lines(lines: Seq<Seq<char>>, edits: Seq<(Range, Seq<char>)>) -> Seq<Seq<char>>
    decreases edits.len(),
{
    if edits.len() == 0 {
        lines
    } else {
        undo_lines(lines_after_edit(lines, edits.last().0, edits.last().1), edits.drop_last())
    }
}

/// The edits that undo `edits`, applied from the last to the first: each
/// edit's inverse takes its place.
pub open spec fn undo_inverses(lines: Seq<Seq<char>>, edits: Seq<(Range, Seq<char>)>) -> Seq<(Range, Seq<char>)>
    decreases edits.len(),
{
    if edits.len() == 0 {
        Seq::empty()
    } else {
        undo_inverses(lines_after_edit(lines, edits.last().0, edits.last().1), edits.drop_last()).push(
            inverse_edit_in(lines, edits.last().0, edits.last().1),
        )
    }
}

/// Whether each of `edits`, from the last to the first, may be applied.
pub open spec fn undo_allowed(lines: Seq<Seq<char>>, edits: Seq<(Range, Seq<char>)>) -> bool
    decreases edits.len(),
{
    if edits.len() == 0 {
        true
    } else {
        edit_allowed(lines, edits.last().0, edits.last().1) && undo_allowed(
            lines_after_edit(lines, edits.last().0, edits.last().1),
            edits.drop_last(),
        )
    }
}

/// The lines after applying `edits` from the first to the last, as redo does.
pub open spec fn redo_lines(lines: Seq<Seq<char>>, edits: Seq<(Range, Seq<char>)>) -> Seq<Seq<char>>
    decreases edits.len(),
{
    if edits.len() == 0 {
        lines
    } else {
        redo_lines(lines_after_edit(lines, edits[0].0, edits[0].1), edits.drop_first())
    }
}

/// The edits that undo `edits`, applied from the first to the last.
pub open spec fn redo_inverses(lines: Seq<Seq<char>>, edits: Seq<(Range, Seq<char>)>) -> Seq<(Range, Seq<char>)>
    decreases edits.len(),
{
    if edits.len() == 0 {
        Seq::empty()
    } else {
        seq![inverse_edit_in(lines, edits[0].0, edits[0].1)] + redo_inverses(
            lines_after_edit(lines, edits[0].0, edits[0].1),
            edits.drop_first(),
        )
    }
}

/// Whether each of `edits`, from the first to the last, may be applied.
pub open spec fn redo_allowed(lines: Seq<Seq<char>>, edits: Seq<(Range, Seq<char>)>) -> bool
    decreases edits.len(),
{
    if edits.len() == 0 {
        true
    } else {
        edit_allowed(lines, edits[0].0, edits[0].1) && redo_allowed(
            lines_after_edit(lines, edits[0].0, edits[0].1),
            edits.drop_first(),
        )
    }
}

} // verus!
