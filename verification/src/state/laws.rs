//! What edits and their inverses do to the text of a buffer.

use vstd::prelude::*;

use crate::position::{Offset, Position};
use crate::range::Range;
use crate::selection::Selection;
use crate::state::edit_model::{
    can_delete_in, deleted_span_in, edit_allowed, insert_end_spec, inserted_range_spec, inverse_edit_in,
    limit_position_in, limit_range_edge_in, lines_after_delete, lines_after_edit, range_text_in,
    redo_allowed, redo_lines, rows_text_in, segment_text_in, selection_text_in, undo_allowed, undo_inverses, undo_lines,
};
use crate::state::lines::{
    bytes_before_row, lemma_bytes_before_row_mono, lemma_delete_lines_no_line_feeds, lemma_insert_lines_no_line_feeds,
    lemma_join_injective, no_line_feeds,
    delete_lines, extend_ends, insert_lines, join_lines, lemma_delete_lines, lemma_line_start_splice, lemma_line_in_text,
    lemma_extend_ends_index, lemma_insert_lines, lemma_join_around_line, lemma_join_concat, lemma_join_extend_ends,
    lemma_join_split, lemma_line_start_next, line_start, split_lines, text_after_line, text_before_line,
    text_offset,
};

use crate::text::{char_index_at_byte, utf8_len};

verus! {

/// The offset, in the text after an insertion, of the end of the inserted text.
proof fn lemma_insert_end_offset(lines: Seq<Seq<char>>, a: Position, text: Seq<char>)
    requires
        0 <= a.row < lines.len(),
        0 <= a.column <= lines[a.row as int].len(),
        join_lines(lines).len() + text.len() < i32::MAX,
    ensures
        ({
            let l1 = insert_lines(lines, a.row as int, a.column as int, text);
            let e = insert_end_spec(a, text);
            &&& 0 <= e.row < l1.len()
            &&& 0 <= e.column <= l1[e.row as int].len()
            &&& text_offset(l1, e.row as int, e.column as int) == text_offset(lines, a.row as int, a.column as int)
                + text.len()
            &&& text_offset(l1, a.row as int, a.column as int) == text_offset(lines, a.row as int, a.column as int)
            &&& a.column <= l1[a.row as int].len()
            &&& (e.row == a.row ==> a.column <= e.column)
            &&& a.row <= e.row
        }),
{
    let r = a.row as int;
    let c = a.column as int;
    let parts = split_lines(text);
    let n = parts.len() as int;
    let h1 = lines[r].take(c);
    let h2 = lines[r].skip(c);
    lemma_join_split(text);
    lemma_split_count(text);
    crate::state::text_buffer::lemma_lines_bounded(lines);
    crate::state::text_buffer::lemma_lines_bounded(parts);
    assert(parts[0].len() <= text.len());
    assert(parts[n - 1].len() <= text.len());
    let m = extend_ends(parts, h1, h2);
    let l1 = insert_lines(lines, r, c, text);
    lemma_insert_lines(lines, r, c, text);
    lemma_extend_ends_index(parts, h1, h2, 0);
    lemma_extend_ends_index(parts, h1, h2, n - 1);
    lemma_line_start_splice(lines, r, r, m, 0);
    lemma_line_start_splice(lines, r, r, m, n - 1);
    assert(l1[r] == m[0]);
    assert(l1[r + n - 1] == m[n - 1]);
    lemma_join_extend_ends(parts, h1, h2);
    lemma_join_around_line(m, n - 1);
    let e = insert_end_spec(a, text);
    if n == 1 {
        assert(m[0] =~= h1 + parts[0] + h2);
        assert(text =~= parts[0]);
    } else {
        assert(m[n - 1] =~= parts[n - 1] + h2);
        assert(m[0] =~= h1 + parts[0]);
        assert(join_lines(m).len() == text_before_line(m, n - 1).len() + m[n - 1].len());
    }
}

/// Undoing an insertion restores the text: the inverse of inserting `text`
/// at `at` may be applied, and applying it gives back the text.
#[verifier::rlimit(40)]
pub proof fn law_undo_insert_restores_text(lines: Seq<Seq<char>>, at: Position, text: Seq<char>)
    requires
        lines.len() >= 1,
        join_lines(lines).len() + text.len() < i32::MAX,
    ensures
        ({
            let range = Range { start: at, end: at };
            let l1 = lines_after_edit(lines, range, text);
            let inv = inverse_edit_in(lines, range, text);
            &&& edit_allowed(lines, range, text)
            &&& undo_allowed(l1, seq![inv])
            &&& join_lines(undo_lines(l1, seq![inv])) == join_lines(lines)
            &&& undo_lines(l1, seq![inv]) == lines
            &&& edit_allowed(l1, inv.0, inv.1)
            &&& lines_after_edit(l1, inv.0, inv.1) == lines
        }),
{
    let range = Range { start: at, end: at };
    let l1 = lines_after_edit(lines, range, text);
    let inv = inverse_edit_in(lines, range, text);
    assert(lines_after_delete(lines, range) == lines);
    assert(range_text_in(lines, range) =~= Seq::<char>::empty());
    assert(seq![inv].drop_last() =~= Seq::<(Range, Seq<char>)>::empty());
    assert(seq![inv].last() == inv);
    let l2 = lines_after_edit(l1, inv.0, inv.1);
    assert(undo_allowed(l2, seq![inv].drop_last()));
    assert(undo_lines(l2, seq![inv].drop_last()) == l2);
    if text.len() == 0 {
        assert(l1 == lines);
        assert(l2 == l1);
        assert(edit_allowed(l1, inv.0, inv.1));
        return;
    }
    let a = limit_position_in(lines, at);
    lemma_join_split(text);
    crate::state::text_buffer::lemma_lines_bounded(lines);
    assert(split_lines(text).len() <= text.len() + 1) by {
        lemma_split_count(text);
    }
    lemma_insert_end_offset(lines, a, text);
    lemma_insert_lines(lines, a.row as int, a.column as int, text);
    let o = text_offset(lines, a.row as int, a.column as int);
    let e = insert_end_spec(a, text);
    let ir = inserted_range_spec(lines, a, text);
    assert(inv.0 == ir);
    let c0 = join_lines(lines);
    let c1 = join_lines(l1);
    crate::state::text_buffer::lemma_lines_bounded(lines);
    assert(o <= c0.len()) by {
        lemma_line_in_text(lines, a.row as int);
    }
    // The inverse deletes from `a` to `e`.
    let d = deleted_span_in(l1, ir);
    if e.column == 0 && e.row != 0 {
        let pr = e.row - 1;
        lemma_line_in_text(l1, pr as int);
        assert(d.end == e);
        assert(d.start == a);
    } else {
        assert(d.end == e);
        assert(d.start == a);
    }
    assert(d.start != d.end);
    lemma_delete_lines(l1, a.row as int, a.column as int, e.row as int, e.column as int);
    assert(inv.1.len() == 0);
    assert(can_delete_in(l1, inv.0));
    assert(edit_allowed(l1, inv.0, inv.1));
    assert(l2 == delete_lines(l1, a.row as int, a.column as int, e.row as int, e.column as int));
    // The inserted lines go, and the line they split is whole again.
    let r = a.row as int;
    let parts = split_lines(text);
    let n = parts.len() as int;
    let h1 = lines[r].take(a.column as int);
    let h2 = lines[r].skip(a.column as int);
    lemma_extend_ends_index(parts, h1, h2, 0);
    lemma_extend_ends_index(parts, h1, h2, n - 1);
    let m = extend_ends(parts, h1, h2);
    assert(l1 == lines.take(r) + m + lines.skip(r + 1));
    assert(l1[r] == m[0]);
    assert(l1[r + n - 1] == m[n - 1]);
    assert(e.row == r + n - 1);
    assert(l1[r].take(a.column as int) =~= h1);
    assert(l1[e.row as int].skip(e.column as int) =~= h2);
    assert(l1.take(r) =~= lines.take(r));
    assert(l1.skip(e.row + 1) =~= lines.skip(r + 1));
    assert(lines[r] =~= h1 + h2);
    assert(l2 =~= lines);
    assert(c1 =~= c0.take(o) + text + c0.skip(o));
    assert(join_lines(l2) =~= c1.take(o) + c1.skip(o + text.len()));
    assert(c1.take(o) =~= c0.take(o));
    assert(c1.skip(o + text.len()) =~= c0.skip(o));
    assert(c0 =~= c0.take(o) + c0.skip(o));
}

/// What an insertion wrote reads back: the text of the range that
/// inserting `text` at `at` covers is `text`.
#[verifier::rlimit(40)]
pub proof fn law_inserted_text_reads_back(lines: Seq<Seq<char>>, at: Position, text: Seq<char>)
    requires
        lines.len() >= 1,
        text.len() > 0,
        join_lines(lines).len() + text.len() < i32::MAX,
    ensures
        ({
            let range = Range { start: at, end: at };
            let l1 = lines_after_edit(lines, range, text);
            let ir = inverse_edit_in(lines, range, text).0;
            range_text_in(l1, ir) == text
        }),
{
    let range = Range { start: at, end: at };
    let l1 = lines_after_edit(lines, range, text);
    assert(lines_after_delete(lines, range) == lines);
    let a = limit_position_in(lines, at);
    lemma_join_split(text);
    crate::state::text_buffer::lemma_lines_bounded(lines);
    assert(split_lines(text).len() <= text.len() + 1) by {
        lemma_split_count(text);
    }
    lemma_insert_end_offset(lines, a, text);
    lemma_insert_lines(lines, a.row as int, a.column as int, text);
    let o = text_offset(lines, a.row as int, a.column as int);
    let e = insert_end_spec(a, text);
    let ir = inserted_range_spec(lines, a, text);
    assert(inverse_edit_in(lines, range, text).0 == ir);
    let c0 = join_lines(lines);
    let c1 = join_lines(l1);
    assert(o <= c0.len()) by {
        lemma_line_in_text(lines, a.row as int);
    }
    assert(c1 =~= c0.take(o) + text + c0.skip(o));
    let d = deleted_span_in(l1, ir);
    if e.column == 0 && e.row != 0 {
        let pr = e.row - 1;
        lemma_line_in_text(l1, pr as int);
        assert(d.end == e);
        assert(d.start == a);
    } else {
        assert(d.end == e);
        assert(d.start == a);
    }
    assert(range_within_content(l1, ir));
    lemma_range_text_within(l1, ir);
    assert(c1.subrange(o, o + text.len()) =~= text);
}

/// Redoing an undone insertion gives the insertion back: undoing the
/// group of one insertion and then redoing it restores the text that the
/// insertion made.
#[verifier::rlimit(60)]
pub proof fn law_redo_after_undo_insert(lines: Seq<Seq<char>>, at: Position, text: Seq<char>)
    requires
        lines.len() >= 1,
        text.len() > 0,
        join_lines(lines).len() + text.len() < i32::MAX,
    ensures
        ({
            let range = Range { start: at, end: at };
            let l1 = lines_after_edit(lines, range, text);
            let group = seq![inverse_edit_in(lines, range, text)];
            let undone = undo_lines(l1, group);
            let redo_group = undo_inverses(l1, group);
            &&& redo_allowed(undone, redo_group)
            &&& join_lines(redo_lines(undone, redo_group)) == join_lines(l1)
            &&& redo_lines(undone, redo_group) == l1
        }),
{
    let range = Range { start: at, end: at };
    let l1 = lines_after_edit(lines, range, text);
    let inv = inverse_edit_in(lines, range, text);
    law_undo_insert_restores_text(lines, at, text);
    law_inserted_text_reads_back(lines, at, text);
    assert(lines_after_delete(lines, range) == lines);
    let a = limit_position_in(lines, at);
    lemma_join_split(text);
    crate::state::text_buffer::lemma_lines_bounded(lines);
    assert(split_lines(text).len() <= text.len() + 1) by {
        lemma_split_count(text);
    }
    lemma_insert_end_offset(lines, a, text);
    lemma_insert_lines(lines, a.row as int, a.column as int, text);
    let o = text_offset(lines, a.row as int, a.column as int);
    let e = insert_end_spec(a, text);
    let ir = inserted_range_spec(lines, a, text);
    assert(inv.0 == ir);
    let c0 = join_lines(lines);
    let c1 = join_lines(l1);
    assert(o <= c0.len()) by {
        lemma_line_in_text(lines, a.row as int);
    }
    assert(c1 =~= c0.take(o) + text + c0.skip(o));
    let d = deleted_span_in(l1, ir);
    if e.column == 0 && e.row != 0 {
        let pr = e.row - 1;
        lemma_line_in_text(l1, pr as int);
        assert(d.end == e);
        assert(d.start == a);
    } else {
        assert(d.end == e);
        assert(d.start == a);
    }
    assert(d.start != d.end);
    // Undoing deletes the inserted text.
    let l2 = delete_lines(l1, a.row as int, a.column as int, e.row as int, e.column as int);
    lemma_delete_lines(l1, a.row as int, a.column as int, e.row as int, e.column as int);
    assert(inv.1.len() == 0);
    assert(lines_after_edit(l1, inv.0, inv.1) == l2);
    let group = seq![inv];
    assert(group.drop_last() =~= Seq::<(Range, Seq<char>)>::empty());
    assert(group.last() == inv);
    assert(undo_lines(l2, group.drop_last()) == l2);
    assert(undo_lines(l1, group) == l2);
    let inv2 = inverse_edit_in(l1, inv.0, inv.1);
    assert(inv2 == (Range { start: a, end: a }, text));
    assert(undo_inverses(l2, Seq::<(Range, Seq<char>)>::empty()) =~= Seq::<(Range, Seq<char>)>::empty());
    assert(undo_inverses(l1, group) =~= seq![inv2]);
    // The undone lines hold the text of before the insertion, `a` included.
    let x = l1[a.row as int].take(a.column as int) + l1[e.row as int].skip(e.column as int);
    assert(l2 =~= l1.take(a.row as int) + seq![x] + l1.skip(e.row + 1));
    lemma_line_start_splice(l1, a.row as int, e.row as int, seq![x], 0);
    assert(line_start(seq![x], 0) == 0);
    assert(l2[a.row as int] == x);
    assert(text_offset(l2, a.row as int, a.column as int) == o);
    assert(join_lines(l2) =~= c0) by {
        assert(join_lines(l2) =~= c1.take(o) + c1.skip(o + text.len()));
        assert(c1.take(o) =~= c0.take(o));
        assert(c1.skip(o + text.len()) =~= c0.skip(o));
        assert(c0 =~= c0.take(o) + c0.skip(o));
    }
    // Redoing inserts the text again at `a`.
    let r2 = Range { start: a, end: a };
    assert(lines_after_delete(l2, r2) == l2);
    assert(limit_position_in(l2, a) == a);
    let l3 = lines_after_edit(l2, r2, text);
    lemma_insert_lines(l2, a.row as int, a.column as int, text);
    assert(join_lines(l3) =~= c1);
    let rg = seq![inv2];
    assert(rg.drop_first() =~= Seq::<(Range, Seq<char>)>::empty());
    assert(rg[0] == inv2);
    assert(edit_allowed(l2, r2, text));
    assert(redo_lines(l3, rg.drop_first()) == l3);
    assert(redo_allowed(l3, rg.drop_first()));
    assert(redo_lines(l2, rg) == l3);
    assert(l2 == lines);
    assert(l3 == l1);
}

/// Redoing an undone deletion gives the deletion back: undoing the group
/// of one deletion of a range within the content and then redoing it
/// restores the text that the deletion left.
#[verifier::rlimit(40)]
pub proof fn law_redo_after_undo_delete(lines: Seq<Seq<char>>, range: Range)
    requires
        lines.len() >= 1,
        join_lines(lines).len() < i32::MAX,
        range_within_content(lines, range),
    ensures
        ({
            let empty = Seq::<char>::empty();
            let l1 = lines_after_edit(lines, range, empty);
            let group = seq![inverse_edit_in(lines, range, empty)];
            let undone = undo_lines(l1, group);
            let redo_group = undo_inverses(l1, group);
            &&& redo_allowed(undone, redo_group)
            &&& join_lines(redo_lines(undone, redo_group)) == join_lines(l1)
        }),
{
    let empty = Seq::<char>::empty();
    let l1 = lines_after_edit(lines, range, empty);
    let inv = inverse_edit_in(lines, range, empty);
    let s = range.start;
    let dt = range_text_in(lines, range);
    assert(inv == (Range { start: s, end: s }, dt));
    lemma_range_text_within(lines, range);
    let d = deleted_span_in(lines, range);
    let c0 = join_lines(lines);
    let o1 = text_offset(lines, d.start.row as int, d.start.column as int);
    let o2 = text_offset(lines, d.end.row as int, d.end.column as int);
    assert(range.start != range.end);
    if d.start == d.end {
        assert(l1 == lines);
        assert(dt =~= Seq::<char>::empty());
    } else {
        lemma_delete_lines(lines, d.start.row as int, d.start.column as int, d.end.row as int, d.end.column as int);
        assert(l1 == delete_lines(lines, d.start.row as int, d.start.column as int, d.end.row as int, d.end.column as int));
        assert(join_lines(l1).len() + dt.len() == c0.len());
    }
    assert(l1.len() >= 1);
    law_undo_insert_restores_text(l1, s, dt);
    let group = seq![inv];
    assert(group.drop_last() =~= Seq::<(Range, Seq<char>)>::empty());
    assert(group.last() == inv);
    let undone = lines_after_edit(l1, inv.0, inv.1);
    assert(undo_lines(undone, group.drop_last()) == undone);
    assert(undo_lines(l1, group) == undone);
    let inv2 = inverse_edit_in(l1, inv.0, inv.1);
    assert(undo_inverses(undone, Seq::<(Range, Seq<char>)>::empty()) =~= Seq::<(Range, Seq<char>)>::empty());
    assert(undo_inverses(l1, group) =~= seq![inv2]);
    let rg = seq![inv2];
    let l3 = lines_after_edit(undone, inv2.0, inv2.1);
    assert(rg.drop_first() =~= Seq::<(Range, Seq<char>)>::empty());
    assert(rg[0] == inv2);
    assert(redo_lines(l3, rg.drop_first()) == l3);
    assert(redo_allowed(l3, rg.drop_first()));
    assert(redo_lines(undone, rg) == l3);
    assert(seq![inv2].drop_last() =~= Seq::<(Range, Seq<char>)>::empty());
    assert(seq![inv2].last() == inv2);
    assert(undo_lines(l3, seq![inv2].drop_last()) == l3);
    assert(undo_lines(undone, seq![inv2]) == l3);
    assert(undo_allowed(undone, seq![inv2]));
}

/// Whether `range` lies within the content: its edges are ordered and need
/// no limiting, its start is on its line (not past the terminator), and its
/// end is not at the start of a line.
pub open spec fn range_within_content(lines: Seq<Seq<char>>, range: Range) -> bool {
    &&& range.start.precedes_spec(range.end)
    &&& limit_range_edge_in(lines, range.start) == range.start
    &&& limit_range_edge_in(lines, range.end) == range.end
    &&& range.start.column <= lines[range.start.row as int].len()
    &&& range.end.column >= 1
}

/// A row of a selection's text before its last row: the rest of the row
/// from the selection's start (or from its beginning) and its line feed,
/// which is that part of the text.
proof fn lemma_segment_full_row(lines: Seq<Seq<char>>, s: Position, e: Position, k: int)
    requires
        0 <= s.row <= k < e.row < lines.len(),
        0 <= s.column <= lines[s.row as int].len(),
        join_lines(lines).len() < i32::MAX,
    ensures
        ({
            let cs_col = if k == s.row { s.column as int } else { 0 };
            &&& 0 <= cs_col <= lines[k].len()
            &&& line_start(lines, k + 1) == line_start(lines, k) + lines[k].len() + 1
            &&& line_start(lines, k + 1) <= join_lines(lines).len()
            &&& segment_text_in(lines, s, e, k) == lines[k].skip(cs_col) + seq!['\n']
            &&& join_lines(lines).subrange(line_start(lines, k) + cs_col, line_start(lines, k + 1))
                == segment_text_in(lines, s, e, k)
        }),
{
    let c = join_lines(lines);
    let cs_col = if k == s.row { s.column as int } else { 0 };
    lemma_line_in_text(lines, k);
    lemma_line_in_text(lines, k + 1);
    crate::state::text_buffer::lemma_lines_bounded(lines);
    let ls = Position { row: k as i32, column: if k == s.row { s.column } else { 0 } };
    let le = Position { row: k as i32, column: if k == e.row { e.column } else { i32::MAX } };
    assert(ls.row == k);
    assert(le.row == k);
    assert(le.column == i32::MAX);
    let cs = limit_position_in(lines, ls);
    let ce = limit_position_in(lines, le);
    assert(cs.row == k);
    assert(cs.column == cs_col);
    assert(ce.row == k);
    assert(ce.column == lines[k].len());
    let seg = segment_text_in(lines, s, e, k);
    assert(seg == lines[k].skip(cs_col) + seq!['\n']);
    let st = line_start(lines, k);
    let len = lines[k].len() as int;
    assert(c.subrange(st, st + len) == lines[k]);
    assert(c.subrange(st + cs_col, st + len + 1) =~= lines[k].skip(cs_col) + seq!['\n']) by {
        assert forall|i: int| 0 <= i < len - cs_col implies #[trigger] c.subrange(st + cs_col, st + len + 1)[i]
            == lines[k][cs_col + i] by {
            assert(c[st + cs_col + i] == c.subrange(st, st + len)[cs_col + i]);
        }
    }
}

/// The rows before the last of a range's text are its text up to the end of those rows.
proof fn lemma_rows_text_prefix(lines: Seq<Seq<char>>, s: Position, e: Position, k: int)
    requires
        lines.len() >= 1,
        0 <= s.row <= k < e.row < lines.len(),
        0 <= s.column <= lines[s.row as int].len(),
        join_lines(lines).len() < i32::MAX,
    ensures
        line_start(lines, k + 1) <= join_lines(lines).len(),
        text_offset(lines, s.row as int, s.column as int) <= line_start(lines, k + 1),
        rows_text_in(lines, s, e, k) == join_lines(lines).subrange(
            text_offset(lines, s.row as int, s.column as int),
            line_start(lines, k + 1),
        ),
    decreases k - s.row,
{
    let c = join_lines(lines);
    lemma_segment_full_row(lines, s, e, k);
    lemma_line_in_text(lines, s.row as int);
    lemma_line_in_text(lines, k);
    let seg = segment_text_in(lines, s, e, k);
    if k == s.row {
        assert(rows_text_in(lines, s, e, k - 1) =~= Seq::<char>::empty());
        assert(rows_text_in(lines, s, e, k) =~= seg);
    } else {
        lemma_rows_text_prefix(lines, s, e, k - 1);
        let o = text_offset(lines, s.row as int, s.column as int);
        assert(rows_text_in(lines, s, e, k) == rows_text_in(lines, s, e, k - 1) + seg);
        assert(rows_text_in(lines, s, e, k - 1) == c.subrange(o, line_start(lines, k)));
        assert(seg == c.subrange(line_start(lines, k), line_start(lines, k + 1)));
        assert(c.subrange(o, line_start(lines, k)) + c.subrange(line_start(lines, k), line_start(lines, k + 1))
            =~= c.subrange(o, line_start(lines, k + 1)));
    }
}

/// The last row of a selection's text: the part of the row from the
/// selection's start (or from its beginning) up to its end, included, or to
/// the end of the row and its line feed when the end lies past the row.
proof fn lemma_segment_last_row(lines: Seq<Seq<char>>, s: Position, e: Position)
    requires
        0 <= s.row <= e.row < lines.len(),
        0 <= s.column <= lines[s.row as int].len(),
        0 <= e.column <= lines[e.row as int].len(),
        s.row == e.row ==> s.column <= e.column,
        join_lines(lines).len() < i32::MAX,
    ensures
        ({
            let er = e.row as int;
            let ls = line_start(lines, er);
            let len = lines[er].len() as int;
            let cs_col = if er == s.row { s.column as int } else { 0 };
            let end = if e.column >= len {
                if er != lines.len() - 1 {
                    line_start(lines, er + 1)
                } else {
                    ls + len
                }
            } else {
                ls + e.column + 1
            };
            &&& ls + cs_col <= end <= join_lines(lines).len()
            &&& segment_text_in(lines, s, e, er) == join_lines(lines).subrange(ls + cs_col, end)
        }),
{
    let c = join_lines(lines);
    let er = e.row as int;
    let st = line_start(lines, er);
    let len = lines[er].len() as int;
    let cs_col = if er == s.row { s.column as int } else { 0 };
    lemma_line_in_text(lines, er);
    crate::state::text_buffer::lemma_lines_bounded(lines);
    let ls = Position { row: er as i32, column: if er == s.row { s.column } else { 0 } };
    let le = Position { row: er as i32, column: e.column };
    let cs = limit_position_in(lines, ls);
    let ce = limit_position_in(lines, le);
    assert(cs.row == er && cs.column == cs_col);
    assert(ce.row == er && ce.column == e.column);
    let seg = segment_text_in(lines, s, e, er);
    assert(c.subrange(st, st + len) == lines[er]);
    if e.column >= len {
        if er != lines.len() - 1 {
            lemma_line_in_text(lines, er + 1);
            assert(seg == lines[er].skip(cs_col) + seq!['\n']);
            assert(c.subrange(st + cs_col, st + len + 1) =~= seg) by {
                assert forall|i: int| 0 <= i < len - cs_col implies #[trigger] c.subrange(
                    st + cs_col,
                    st + len + 1,
                )[i] == lines[er][cs_col + i] by {
                    assert(c[st + cs_col + i] == c.subrange(st, st + len)[cs_col + i]);
                }
            }
        } else {
            assert(seg == lines[er].skip(cs_col));
            assert(c.subrange(st + cs_col, st + len) =~= seg) by {
                assert forall|i: int| 0 <= i < len - cs_col implies #[trigger] c.subrange(
                    st + cs_col,
                    st + len,
                )[i] == lines[er][cs_col + i] by {
                    assert(c[st + cs_col + i] == c.subrange(st, st + len)[cs_col + i]);
                }
            }
        }
    } else {
        assert(seg == lines[er].subrange(cs_col, e.column + 1));
        assert(c.subrange(st + cs_col, st + e.column + 1) =~= seg) by {
            assert forall|i: int| 0 <= i < e.column + 1 - cs_col implies #[trigger] c.subrange(
                st + cs_col,
                st + e.column + 1,
            )[i] == lines[er][cs_col + i] by {
                assert(c[st + cs_col + i] == c.subrange(st, st + len)[cs_col + i]);
            }
        }
    }
}

/// The text of a range within the content is the text between the offsets
/// of the span that deleting it deletes.
pub proof fn lemma_range_text_within(lines: Seq<Seq<char>>, range: Range)
    requires
        lines.len() >= 1,
        join_lines(lines).len() < i32::MAX,
        range_within_content(lines, range),
    ensures
        ({
            let d = deleted_span_in(lines, range);
            &&& d.start == range.start
            &&& 0 <= d.end.row < lines.len()
            &&& 0 <= d.end.column <= lines[d.end.row as int].len()
            &&& d.start.row <= d.end.row
            &&& (d.start.row == d.end.row ==> d.start.column <= d.end.column)
            &&& text_offset(lines, d.start.row as int, d.start.column as int) <= text_offset(
                lines,
                d.end.row as int,
                d.end.column as int,
            ) <= join_lines(lines).len()
            &&& range_text_in(lines, range) == join_lines(lines).subrange(
                text_offset(lines, d.start.row as int, d.start.column as int),
                text_offset(lines, d.end.row as int, d.end.column as int),
            )
        }),
{
    let s = range.start;
    let e = range.end;
    let c = join_lines(lines);
    let e1 = e.offset_spec(Offset { column: -1i32, row: 0i32 });
    assert(e1 == Position { column: (e.column - 1) as i32, row: e.row });
    let sel = Selection { anchor: s, cursor: e1 };
    assert(sel.start_spec() == s);
    assert(sel.end_spec() == e1);
    assert(range.normalized_spec() == range);
    assert(range_text_in(lines, range) == rows_text_in(lines, s, e1, e.row as int));
    let d = deleted_span_in(lines, range);
    let er = e.row as int;
    lemma_line_in_text(lines, er);
    lemma_line_in_text(lines, s.row as int);
    let len = lines[er].len() as int;
    let o1 = text_offset(lines, s.row as int, s.column as int);
    crate::state::text_buffer::lemma_lines_bounded(lines);
    lemma_segment_last_row(lines, s, e1);
    let ls = line_start(lines, er);
    let o2 = text_offset(lines, d.end.row as int, d.end.column as int);
    if e.column - 1 >= len {
        if er != lines.len() - 1 {
            assert(d.end == Position { column: 0, row: (er + 1) as i32 });
            lemma_line_in_text(lines, er + 1);
            assert(o2 == line_start(lines, er + 1));
        } else {
            assert(d.end == Position { column: len as i32, row: er as i32 });
            assert(o2 == ls + len);
        }
    } else {
        assert(d.end == e);
        assert(o2 == ls + e1.column + 1);
    }
    let seg = segment_text_in(lines, s, e1, er);
    assert(rows_text_in(lines, s, e1, er) == rows_text_in(lines, s, e1, er - 1) + seg);
    if er == s.row {
        assert(rows_text_in(lines, s, e1, er - 1) =~= Seq::<char>::empty());
        assert(seg == c.subrange(o1, o2));
        assert(rows_text_in(lines, s, e1, er) =~= c.subrange(o1, o2));
    } else {
        lemma_rows_text_prefix(lines, s, e1, er - 1);
        assert(seg == c.subrange(ls, o2));
        assert(c.subrange(o1, ls) + c.subrange(ls, o2) =~= c.subrange(o1, o2));
        assert(rows_text_in(lines, s, e1, er) =~= c.subrange(o1, o2));
    }
}

/// Undoing a deletion restores the text: the inverse of deleting a range
/// within the content may be applied, and applying it gives back the text.
pub proof fn law_undo_delete_restores_text(lines: Seq<Seq<char>>, range: Range)
    requires
        lines.len() >= 1,
        join_lines(lines).len() < i32::MAX,
        range_within_content(lines, range),
    ensures
        ({
            let text = Seq::<char>::empty();
            let l1 = lines_after_edit(lines, range, text);
            let inv = inverse_edit_in(lines, range, text);
            &&& edit_allowed(lines, range, text)
            &&& undo_allowed(l1, seq![inv])
            &&& join_lines(undo_lines(l1, seq![inv])) == join_lines(lines)
            &&& no_line_feeds(lines) ==> undo_lines(l1, seq![inv]) == lines
            &&& edit_allowed(l1, inv.0, inv.1)
            &&& no_line_feeds(lines) ==> lines_after_edit(l1, inv.0, inv.1) == lines
        }),
{
    let text = Seq::<char>::empty();
    lemma_range_text_within(lines, range);
    let d = deleted_span_in(lines, range);
    let s = range.start;
    let c = join_lines(lines);
    let o1 = text_offset(lines, s.row as int, s.column as int);
    let o2 = text_offset(lines, d.end.row as int, d.end.column as int);
    assert(range.start != range.end);
    if d.start == d.end {
        // Only the missing terminator of the last line is covered: nothing changes.
        let inv = inverse_edit_in(lines, range, text);
        assert(inv.1 =~= Seq::<char>::empty());
        assert(lines_after_edit(lines, range, text) == lines);
        assert(seq![inv].drop_last() =~= Seq::<(Range, Seq<char>)>::empty());
        assert(seq![inv].last() == inv);
        assert(lines_after_edit(lines, inv.0, inv.1) == lines);
        assert(edit_allowed(lines, inv.0, inv.1));
        assert(undo_allowed(lines, seq![inv].drop_last()));
        assert(undo_lines(lines, seq![inv].drop_last()) == lines);
        return;
    }
    lemma_delete_lines(lines, s.row as int, s.column as int, d.end.row as int, d.end.column as int);
    let l1 = lines_after_edit(lines, range, text);
    assert(l1 == delete_lines(lines, s.row as int, s.column as int, d.end.row as int, d.end.column as int));
    let inv = inverse_edit_in(lines, range, text);
    let t = c.subrange(o1, o2);
    assert(inv.1 == t);
    assert(inv.0 == Range { start: s, end: s });
    let c1 = join_lines(l1);
    assert(c1 == c.take(o1) + c.skip(o2));
    assert(edit_allowed(lines, range, text));
    let l2 = lines_after_edit(l1, inv.0, inv.1);
    assert(undo_allowed(l2, seq![inv].drop_last()));
    assert(undo_lines(l2, seq![inv].drop_last()) == l2);
    assert(seq![inv].last() == inv);
    assert(lines_after_delete(l1, inv.0) == l1);
    // The start of the range is still in place.
    let x = lines[s.row as int].take(s.column as int) + lines[d.end.row as int].skip(d.end.column as int);
    lemma_line_start_splice(lines, s.row as int, d.end.row as int, seq![x], 0);
    assert(l1 =~= lines.take(s.row as int) + seq![x] + lines.skip(d.end.row + 1));
    assert(l1[s.row as int] == x);
    assert(limit_position_in(l1, s) == s);
    assert(text_offset(l1, s.row as int, s.column as int) == o1) by {
        assert(line_start(seq![x], 0) == 0);
    }
    assert(c.len() == c1.len() + t.len());
    assert(edit_allowed(l1, inv.0, inv.1));
    if t.len() == 0 {
        assert(c =~= c.take(o1) + c.skip(o2));
    } else {
        crate::state::text_buffer::lemma_lines_bounded(l1);
        lemma_insert_lines(l1, s.row as int, s.column as int, t);
        assert(join_lines(l2) =~= c1.take(o1) + t + c1.skip(o1));
        assert(c1.take(o1) =~= c.take(o1));
        assert(c1.skip(o1) =~= c.skip(o2));
        assert(join_lines(l2) =~= c);
    }
    if no_line_feeds(lines) {
        lemma_delete_lines_no_line_feeds(lines, s.row as int, s.column as int, d.end.row as int, d.end.column as int);
        if t.len() > 0 {
            lemma_insert_lines_no_line_feeds(l1, s.row as int, s.column as int, t);
            lemma_insert_lines(l1, s.row as int, s.column as int, t);
            lemma_join_split(t);
        }
        lemma_join_injective(l2, lines);
    }
}

/// A text has at most one more line than it has characters.
proof fn lemma_split_count(s: Seq<char>)
    ensures
        split_lines(s).len() <= s.len() + 1,
{
    lemma_join_split(s);
    let parts = split_lines(s);
    crate::state::text_buffer::lemma_lines_bounded(parts);
}

/// The byte index of the character at column `k` of `s` leads back to `k`.
pub proof fn lemma_char_index_of_prefix(s: Seq<char>, k: int)
    requires
        0 <= k < s.len(),
    ensures
        char_index_at_byte(s, utf8_len(s.take(k))) == k,
    decreases k,
{
    crate::text::lemma_utf8_len_take(s, 0);
    if k == 0 {
        assert(s.take(0) =~= Seq::<char>::empty());
    } else {
        let t = s.skip(1);
        assert(s.take(k).skip(1) =~= t.take(k - 1));
        assert(s.take(k)[0] == s[0]);
        lemma_char_index_of_prefix(t, k - 1);
        crate::text::lemma_utf8_len_nonneg(t.take(k - 1));
    }
}

/// Mapping the position of a character to its byte index, then the byte
/// index back to a position, gives the position: the byte index of `pos` in
/// the UTF-8 text (each line terminator one byte) lies within the text, and
/// `pos` is the one position whose row holds that byte and whose column is
/// the character that the byte belongs to, as `map_byte_index_to_position`
/// returns it.
pub proof fn law_byte_index_round_trip(lines: Seq<Seq<char>>, pos: Position)
    requires
        0 <= pos.row < lines.len(),
        0 <= pos.column < lines[pos.row as int].len(),
    ensures
        ({
            let i = bytes_before_row(lines, pos.row as int) + utf8_len(lines[pos.row as int].take(pos.column as int));
            &&& i < bytes_before_row(lines, lines.len() as int)
            &&& forall|p: Position|
                0 <= p.row < lines.len() && bytes_before_row(lines, p.row as int) <= i < bytes_before_row(
                    lines,
                    p.row + 1,
                ) && p.column == char_index_at_byte(lines[p.row as int], i - bytes_before_row(lines, p.row as int))
                    ==> p == pos
        }),
{
    let r = pos.row as int;
    let line = lines[r];
    let i = bytes_before_row(lines, r) + utf8_len(line.take(pos.column as int));
    crate::text::lemma_utf8_len_prefix(line, pos.column as int);
    assert(bytes_before_row(lines, r + 1) == bytes_before_row(lines, r) + utf8_len(line) + 1);
    lemma_bytes_before_row_mono(lines, r + 1, lines.len() as int);
    lemma_char_index_of_prefix(line, pos.column as int);
    assert forall|p: Position|
        0 <= p.row < lines.len() && bytes_before_row(lines, p.row as int) <= i < bytes_before_row(lines, p.row + 1)
            && p.column == char_index_at_byte(lines[p.row as int], i - bytes_before_row(lines, p.row as int))
        implies p == pos by {
        if p.row < r {
            lemma_bytes_before_row_mono(lines, p.row + 1, r);
        } else if p.row > r {
            lemma_bytes_before_row_mono(lines, r + 1, p.row as int);
        }
    }
}

/// Undoing an insertion restores the buffer: after `text` is inserted at
/// `at` (`apply_edit`, `insert_str_at`) into a buffer whose history is at a
/// checkpoint, and the group is closed (`checkpoint`), `undo` has a group to
/// undo and may undo it, and then gives back the lines and the selections of
/// every view from before the insertion, with the insertion left to redo.
pub proof fn law_undo_insert_restores_buffer(
    b0: crate::state::text_buffer::TextBuffer,
    b1: crate::state::text_buffer::TextBuffer,
    b2: crate::state::text_buffer::TextBuffer,
    at: Position,
    text: Seq<char>,
)
    requires
        b0.wf(),
        b0.history.at_checkpoint(),
        b0.content().len() + text.len() < i32::MAX,
        b0.edit_applied(
            b1,
            Range { start: at, end: at },
            text,
            inverse_edit_in(b0.lines_view(), Range { start: at, end: at }, text),
        ),
        b1.checkpointed(b2),
    ensures
        b2.history.current_group_edge_idx > 0,
        undo_allowed(b2.lines_view(), b2.history.group_edits(b2.history.current_group_edge_idx - 1)),
        forall|b3: crate::state::text_buffer::TextBuffer|
            #[trigger] b2.undone(b3) ==> b3.lines_view() == b0.lines_view() && b3.selections.view_spec()
                == b0.selections.view_spec() && b3.history.current_group_edge_idx < b3.history.edit_groups@.len(),
{
    let range = Range { start: at, end: at };
    let inv = inverse_edit_in(b0.lines_view(), range, text);
    law_undo_insert_restores_text(b0.lines_view(), at, text);
    let idx = b0.history.current_group_edge_idx as int;
    assert(b1.history.current_group_edge_idx == idx + 1);
    assert(b1.history.group_edits(idx) == seq![inv]);
    assert(b2.history.group_edits(idx) == seq![inv]);
    assert(b2.lines_view() == b1.lines_view());
}

/// Redoing an undone insertion gives the insertion back: after `text`, not
/// empty, is inserted at `at` into a buffer whose history is at a
/// checkpoint, the group is closed, and the insertion is undone, `redo` may
/// redo it, and then gives back the lines that the insertion made, with
/// nothing left to redo and the insertion there to undo again.
pub proof fn law_redo_after_undo_insert_restores_buffer(
    b0: crate::state::text_buffer::TextBuffer,
    b1: crate::state::text_buffer::TextBuffer,
    b2: crate::state::text_buffer::TextBuffer,
    b3: crate::state::text_buffer::TextBuffer,
    at: Position,
    text: Seq<char>,
)
    requires
        b0.wf(),
        b0.history.at_checkpoint(),
        text.len() > 0,
        b0.content().len() + text.len() < i32::MAX,
        b0.edit_applied(
            b1,
            Range { start: at, end: at },
            text,
            inverse_edit_in(b0.lines_view(), Range { start: at, end: at }, text),
        ),
        b1.checkpointed(b2),
        b2.history.current_group_edge_idx > 0,
        b2.undone(b3),
    ensures
        b3.history.current_group_edge_idx < b3.history.edit_groups@.len(),
        redo_allowed(b3.lines_view(), b3.history.group_edits(b3.history.current_group_edge_idx as int)),
        forall|b4: crate::state::text_buffer::TextBuffer|
            #[trigger] b3.redone(b4) ==> b4.lines_view() == b1.lines_view() && b4.history.current_group_edge_idx
                == b4.history.edit_groups@.len() && b4.history.current_group_edge_idx > 0,
{
    let range = Range { start: at, end: at };
    let inv = inverse_edit_in(b0.lines_view(), range, text);
    law_undo_insert_restores_buffer(b0, b1, b2, at, text);
    law_redo_after_undo_insert(b0.lines_view(), at, text);
    let idx = b0.history.current_group_edge_idx as int;
    assert(b1.history.group_edits(idx) == seq![inv]);
    assert(b2.history.group_edits(idx) == seq![inv]);
    assert(b2.lines_view() == b1.lines_view());
    assert(b3.history.current_group_edge_idx == idx);
    assert(b3.history.group_edits(idx) == undo_inverses(b1.lines_view(), seq![inv]));
    assert(b3.lines_view() == undo_lines(b1.lines_view(), seq![inv]));
}

/// Undoing a deletion restores the buffer: after the characters of `range`,
/// a range within the content, are deleted (`apply_edit`,
/// `delete_selection`) from a buffer whose history is at a checkpoint, and
/// the group is closed (`checkpoint`), `undo` has a group to undo and may
/// undo it, and then gives back the lines and the selections of every view
/// from before the deletion, with the deletion left to redo.
pub proof fn law_undo_delete_restores_buffer(
    b0: crate::state::text_buffer::TextBuffer,
    b1: crate::state::text_buffer::TextBuffer,
    b2: crate::state::text_buffer::TextBuffer,
    range: Range,
)
    requires
        b0.wf(),
        b0.history.at_checkpoint(),
        range_within_content(b0.lines_view(), range),
        b0.edit_applied(
            b1,
            range,
            Seq::<char>::empty(),
            inverse_edit_in(b0.lines_view(), range, Seq::<char>::empty()),
        ),
        b1.checkpointed(b2),
    ensures
        b2.history.current_group_edge_idx > 0,
        undo_allowed(b2.lines_view(), b2.history.group_edits(b2.history.current_group_edge_idx - 1)),
        forall|b3: crate::state::text_buffer::TextBuffer|
            #[trigger] b2.undone(b3) ==> b3.lines_view() == b0.lines_view() && b3.selections.view_spec()
                == b0.selections.view_spec() && b3.history.current_group_edge_idx < b3.history.edit_groups@.len(),
{
    let inv = inverse_edit_in(b0.lines_view(), range, Seq::<char>::empty());
    law_undo_delete_restores_text(b0.lines_view(), range);
    let idx = b0.history.current_group_edge_idx as int;
    assert(b1.history.current_group_edge_idx == idx + 1);
    assert(b1.history.group_edits(idx) == seq![inv]);
    assert(b2.history.group_edits(idx) == seq![inv]);
    assert(b2.lines_view() == b1.lines_view());
}

/// Redoing an undone deletion restores the buffer: after the characters of
/// `range`, a range within the content, are deleted from a buffer whose
/// history is at a checkpoint, the group is closed, and the deletion is
/// undone, `redo` may redo it, and then gives back the lines that the
/// deletion left, with nothing left to redo and the deletion there to undo
/// again.
pub proof fn law_redo_after_undo_delete_restores_buffer(
    b0: crate::state::text_buffer::TextBuffer,
    b1: crate::state::text_buffer::TextBuffer,
    b2: crate::state::text_buffer::TextBuffer,
    b3: crate::state::text_buffer::TextBuffer,
    range: Range,
)
    requires
        b0.wf(),
        b0.history.at_checkpoint(),
        range_within_content(b0.lines_view(), range),
        b0.edit_applied(
            b1,
            range,
            Seq::<char>::empty(),
            inverse_edit_in(b0.lines_view(), range, Seq::<char>::empty()),
        ),
        b1.checkpointed(b2),
        b2.history.current_group_edge_idx > 0,
        b2.undone(b3),
    ensures
        b3.history.current_group_edge_idx < b3.history.edit_groups@.len(),
        redo_allowed(b3.lines_view(), b3.history.group_edits(b3.history.current_group_edge_idx as int)),
        forall|b4: crate::state::text_buffer::TextBuffer|
            #[trigger] b3.redone(b4) && b4.wf() ==> b4.lines_view() == b1.lines_view()
                && b4.history.current_group_edge_idx == b4.history.edit_groups@.len()
                && b4.history.current_group_edge_idx > 0,
{
    let empty = Seq::<char>::empty();
    let inv = inverse_edit_in(b0.lines_view(), range, empty);
    law_undo_delete_restores_buffer(b0, b1, b2, range);
    law_redo_after_undo_delete(b0.lines_view(), range);
    let idx = b0.history.current_group_edge_idx as int;
    assert(b1.history.group_edits(idx) == seq![inv]);
    assert(b2.history.group_edits(idx) == seq![inv]);
    assert(b2.lines_view() == b1.lines_view());
    assert(b3.history.current_group_edge_idx == idx);
    assert(b3.history.group_edits(idx) == undo_inverses(b1.lines_view(), seq![inv]));
    assert(b3.lines_view() == undo_lines(b1.lines_view(), seq![inv]));
    assert forall|b4: crate::state::text_buffer::TextBuffer|
        #[trigger] b3.redone(b4) && b4.wf() implies b4.lines_view() == b1.lines_view()
            && b4.history.current_group_edge_idx == b4.history.edit_groups@.len()
            && b4.history.current_group_edge_idx > 0 by {
        lemma_join_injective(b4.lines_view(), b1.lines_view());
    }
}

/// An edit never lowers the content version, and raises it whenever it
/// changes the lines (while the version stays clear of its upper bound).
pub proof fn law_edit_raises_version(v: i32, lines: Seq<Seq<char>>, range: Range, text: Seq<char>)
    requires
        v < i32::MAX - 1,
    ensures
        crate::state::text_buffer::version_after_edit(v, lines, range, text) >= v,
        crate::state::text_buffer::version_after_edit(v, lines, range, text) <= v + 2,
        lines_after_edit(lines, range, text) != lines ==> crate::state::text_buffer::version_after_edit(
            v,
            lines,
            range,
            text,
        ) > v,
{
}

/// Undoing or redoing a group of edits never lowers the content version, and
/// raises it whenever the lines change (while the version stays clear of its
/// upper bound, two steps per edit).
pub proof fn law_undo_redo_raise_version(v: i32, lines: Seq<Seq<char>>, edits: Seq<(Range, Seq<char>)>)
    requires
        v + 2 * edits.len() < i32::MAX,
    ensures
        crate::state::text_buffer::undo_version(v, lines, edits) >= v,
        undo_lines(lines, edits) != lines ==> crate::state::text_buffer::undo_version(v, lines, edits) > v,
        crate::state::text_buffer::redo_version(v, lines, edits) >= v,
        redo_lines(lines, edits) != lines ==> crate::state::text_buffer::redo_version(v, lines, edits) > v,
    decreases edits.len(),
{
    if edits.len() > 0 {
        let e = edits.last();
        let v1 = crate::state::text_buffer::version_after_edit(v, lines, e.0, e.1);
        law_edit_raises_version(v, lines, e.0, e.1);
        law_undo_redo_raise_version(v1, lines_after_edit(lines, e.0, e.1), edits.drop_last());
        let f = edits[0];
        let w1 = crate::state::text_buffer::version_after_edit(v, lines, f.0, f.1);
        law_edit_raises_version(v, lines, f.0, f.1);
        law_undo_redo_raise_version(w1, lines_after_edit(lines, f.0, f.1), edits.drop_first());
    }
}

} // verus!
